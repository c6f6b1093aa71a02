//! Properties of the store and the mailbox that span several operations.
use crate::store::{
    is_method_name, dequeue_outcome, enqueue_outcome, expired_prefix_len, expiry_after, lemma_expired_prefix_len, live_entries,
    mailbox_wf, pickup_outcome, queue_of, slots_after_store, MailboxError, StoreError,
    StoredEnvelope,
};
use vstd::prelude::*;

verus! {

// ---------------------------------------------------------------- helpers ---

/// When every entry of `q` has expired by `now`, none of them is live at `now`.
proof fn lemma_live_entries_none(q: Seq<StoredEnvelope>, now: u128)
    requires
        forall|j: int| 0 <= j < q.len() ==> #[trigger] q[j].1 <= now,
    ensures
        live_entries(q, now) == Seq::<StoredEnvelope>::empty(),
    decreases q.len(),
{
    if q.len() > 0 {
        let p = q.drop_last();
        assert forall|j: int| 0 <= j < p.len() implies #[trigger] p[j].1 <= now by {
            assert(p[j] == q[j]);
        }
        lemma_live_entries_none(p, now);
        assert(q.last() == q[q.len() - 1]);
    }
}

/// The live entries of `q` are entries of `q`, so they expire no later than its entries do.
proof fn lemma_live_entries_bounded(q: Seq<StoredEnvelope>, now: u128, bound: u128)
    requires
        forall|j: int| 0 <= j < q.len() ==> #[trigger] q[j].1 <= bound,
    ensures
        forall|i: int|
            0 <= i < live_entries(q, now).len() ==> #[trigger] live_entries(q, now)[i].1 <= bound,
    decreases q.len(),
{
    if q.len() > 0 {
        let p = q.drop_last();
        assert forall|j: int| 0 <= j < p.len() implies #[trigger] p[j].1 <= bound by {
            assert(p[j] == q[j]);
        }
        lemma_live_entries_bounded(p, now, bound);
        assert(q.last() == q[q.len() - 1]);
        let lp = live_entries(p, now);
        if q.last().1 > now {
            assert(live_entries(q, now) == lp.push(q.last()));
            assert forall|i: int| 0 <= i < lp.len() + 1 implies #[trigger] lp.push(q.last())[i].1
                <= bound by {
                if i < lp.len() {
                    assert(lp.push(q.last())[i] == lp[i]);
                }
            }
        } else {
            assert(live_entries(q, now) == lp);
        }
    }
}

/// When every entry of `q` is live at `now`, all of them are kept.
proof fn lemma_live_entries_all(q: Seq<StoredEnvelope>, now: u128)
    requires
        forall|j: int| 0 <= j < q.len() ==> #[trigger] q[j].1 > now,
    ensures
        live_entries(q, now) == q,
    decreases q.len(),
{
    if q.len() > 0 {
        let p = q.drop_last();
        assert forall|j: int| 0 <= j < p.len() implies #[trigger] p[j].1 > now by {
            assert(p[j] == q[j]);
        }
        lemma_live_entries_all(p, now);
        assert(q.last() == q[q.len() - 1]);
        assert(p.push(q.last()) =~= q);
    }
}

/// Filtering at `now` and then at a later time keeps what filtering at the later time keeps.
proof fn lemma_live_entries_twice(q: Seq<StoredEnvelope>, now: u128, later: u128)
    requires
        now <= later,
    ensures
        live_entries(live_entries(q, now), later) == live_entries(q, later),
    decreases q.len(),
{
    if q.len() > 0 {
        let p = q.drop_last();
        lemma_live_entries_twice(p, now, later);
        let lp = live_entries(p, now);
        if q.last().1 > now {
            assert(lp.push(q.last()).drop_last() =~= lp);
            assert(lp.push(q.last()).last() == q.last());
        }
    }
}

/// The length of the expired prefix of `q` at `now`: the entries before it have expired and
/// the one at it, if any, is live.
pub proof fn law_expired_prefix_is_oldest_live(q: Seq<StoredEnvelope>, now: u128)
    ensures
        expired_prefix_len(q, now) <= q.len(),
        forall|j: int| 0 <= j < expired_prefix_len(q, now) ==> #[trigger] q[j].1 <= now,
        expired_prefix_len(q, now) < q.len() ==> q[expired_prefix_len(q, now) as int].1 > now,
    decreases q.len(),
{
    if q.len() > 0 && q[0].1 <= now {
        let t = q.drop_first();
        law_expired_prefix_is_oldest_live(t, now);
        assert forall|j: int| 0 <= j < expired_prefix_len(q, now) implies #[trigger] q[j].1 <= now by {
            if j > 0 {
                assert(q[j] == t[j - 1]);
            }
        }
    }
}

// ------------------------------------------------------------- RelayStore ---

/// A pickup before the expiry of what was stored returns the stored envelope and removes it.
pub proof fn law_pickup_returns_stored(
    slots: Map<Seq<char>, StoredEnvelope>,
    recipient: Seq<char>,
    envelope: Seq<u8>,
    expiry: u128,
    now: u128,
)
    requires
        now <= expiry,
    ensures
        pickup_outcome(slots_after_store(slots, recipient, envelope, expiry), recipient, now) == (
            slots.remove(recipient),
            Ok::<Seq<u8>, StoreError>(envelope),
        ),
{
    assert(slots.insert(recipient, (envelope, expiry)).remove(recipient) =~= slots.remove(
        recipient,
    ));
}

/// A pickup after the expiry of what was stored reports `Expired` and removes it.
pub proof fn law_pickup_after_expiry(
    slots: Map<Seq<char>, StoredEnvelope>,
    recipient: Seq<char>,
    envelope: Seq<u8>,
    expiry: u128,
    now: u128,
)
    requires
        now > expiry,
    ensures
        pickup_outcome(slots_after_store(slots, recipient, envelope, expiry), recipient, now) == (
            slots.remove(recipient),
            Err::<Seq<u8>, StoreError>(StoreError::Expired),
        ),
{
    assert(slots.insert(recipient, (envelope, expiry)).remove(recipient) =~= slots.remove(
        recipient,
    ));
}

/// A second store for the same recipient replaces the first: the last write wins.
pub proof fn law_last_write_wins(
    slots: Map<Seq<char>, StoredEnvelope>,
    recipient: Seq<char>,
    first: Seq<u8>,
    first_expiry: u128,
    second: Seq<u8>,
    second_expiry: u128,
)
    ensures
        slots_after_store(
            slots_after_store(slots, recipient, first, first_expiry),
            recipient,
            second,
            second_expiry,
        ) == slots_after_store(slots, recipient, second, second_expiry),
{
    assert(slots.insert(recipient, (first, first_expiry)).insert(recipient, (second, second_expiry))
        =~= slots.insert(recipient, (second, second_expiry)));
}

/// The count grows by one when a recipient without a slot stores, and stays when one with a
/// slot stores again.
pub proof fn law_count_after_store(
    slots: Map<Seq<char>, StoredEnvelope>,
    recipient: Seq<char>,
    envelope: Seq<u8>,
    expiry: u128,
)
    requires
        slots.dom().finite(),
    ensures
        slots_after_store(slots, recipient, envelope, expiry).len() == slots.len() + (if slots.contains_key(
            recipient,
        ) {
            0int
        } else {
            1int
        }),
{
}

/// The count falls by one when a recipient with a slot picks up, whatever the answer, and
/// stays when the recipient has none.
pub proof fn law_count_after_pickup(
    slots: Map<Seq<char>, StoredEnvelope>,
    recipient: Seq<char>,
    now: u128,
)
    requires
        slots.dom().finite(),
    ensures
        pickup_outcome(slots, recipient, now).0.len() == slots.len() - (if slots.contains_key(
            recipient,
        ) {
            1int
        } else {
            0int
        }),
{
}

/// A pickup consumes the slot, whatever it answered: the next pickup finds nothing.
pub proof fn law_pickup_consumes(
    slots: Map<Seq<char>, StoredEnvelope>,
    recipient: Seq<char>,
    now: u128,
    later: u128,
)
    ensures
        pickup_outcome(pickup_outcome(slots, recipient, now).0, recipient, later) == (
            pickup_outcome(slots, recipient, now).0,
            Err::<Seq<u8>, StoreError>(StoreError::NotFound),
        ),
{
}

/// After a purge, a pickup finds nothing.
pub proof fn law_purge_then_pickup(
    slots: Map<Seq<char>, StoredEnvelope>,
    recipient: Seq<char>,
    now: u128,
)
    ensures
        pickup_outcome(slots.remove(recipient), recipient, now) == (
            slots.remove(recipient),
            Err::<Seq<u8>, StoreError>(StoreError::NotFound),
        ),
{
}

/// Storing or picking up for one recipient leaves every other recipient's slot as it was.
pub proof fn law_store_recipients_independent(
    slots: Map<Seq<char>, StoredEnvelope>,
    recipient: Seq<char>,
    other: Seq<char>,
    envelope: Seq<u8>,
    expiry: u128,
    now: u128,
)
    requires
        recipient != other,
    ensures
        slots_after_store(slots, recipient, envelope, expiry).contains_key(other)
            == slots.contains_key(other),
        slots_after_store(slots, recipient, envelope, expiry)[other] == slots[other],
        pickup_outcome(slots, recipient, now).0.contains_key(other) == slots.contains_key(other),
        pickup_outcome(slots, recipient, now).0[other] == slots[other],
{
}

// ---------------------------------------------------------------- Mailbox ---

/// An accepted envelope is handed out by a dequeue made while it is live, once every
/// envelope queued before it has expired; the recipient's queue is then gone.
pub proof fn law_enqueue_then_dequeue(
    max_depth: nat,
    queues: Map<Seq<char>, Seq<StoredEnvelope>>,
    recipient: Seq<char>,
    envelope: Seq<u8>,
    now: u128,
    expiry: u128,
    later: u128,
)
    requires
        enqueue_outcome(max_depth, queues, recipient, envelope, now, expiry).1 is Ok,
        forall|j: int|
            0 <= j < queue_of(queues, recipient).len() ==> #[trigger] queue_of(
                queues,
                recipient,
            )[j].1 <= later,
        later < expiry,
    ensures
        dequeue_outcome(
            enqueue_outcome(max_depth, queues, recipient, envelope, now, expiry).0,
            recipient,
            later,
        ) == (queues.remove(recipient), Ok::<Seq<u8>, MailboxError>(envelope)),
{
    let q = queue_of(queues, recipient);
    let live = live_entries(q, now);
    lemma_live_entries_bounded(q, now, later);
    let nq = live.push((envelope, expiry));
    assert(forall|j: int| 0 <= j < live.len() ==> #[trigger] nq[j] == live[j]);
    lemma_expired_prefix_len(nq, later, live.len() as int);
    assert(nq.subrange(live.len() + 1int, nq.len() as int) =~= Seq::<StoredEnvelope>::empty());
    assert(queues.insert(recipient, nq).remove(recipient) =~= queues.remove(recipient));
}

/// Envelopes are handed out in arrival order, one per dequeue: two envelopes enqueued for a
/// recipient with nothing live come back first then second, and then nothing is found.
pub proof fn law_arrival_order(
    max_depth: nat,
    queues: Map<Seq<char>, Seq<StoredEnvelope>>,
    recipient: Seq<char>,
    first: Seq<u8>,
    second: Seq<u8>,
    t1: u128,
    t2: u128,
    t3: u128,
    t4: u128,
    first_expiry: u128,
    second_expiry: u128,
)
    requires
        mailbox_wf(max_depth, queues),
        max_depth >= 2,
        forall|j: int|
            0 <= j < queue_of(queues, recipient).len() ==> #[trigger] queue_of(
                queues,
                recipient,
            )[j].1 <= t1,
        t1 <= t2 <= t3 <= t4,
        t3 < first_expiry,
        t4 < second_expiry,
    ensures
        ({
            let (q1, r1) = enqueue_outcome(max_depth, queues, recipient, first, t1, first_expiry);
            let (q2, r2) = enqueue_outcome(max_depth, q1, recipient, second, t2, second_expiry);
            let (q3, r3) = dequeue_outcome(q2, recipient, t3);
            let (q4, r4) = dequeue_outcome(q3, recipient, t4);
            &&& r1 == Ok::<(), MailboxError>(())
            &&& r2 == Ok::<(), MailboxError>(())
            &&& r3 == Ok::<Seq<u8>, MailboxError>(first)
            &&& r4 == Ok::<Seq<u8>, MailboxError>(second)
            &&& q4 == queues.remove(recipient)
            &&& dequeue_outcome(q4, recipient, t4).1 == Err::<Seq<u8>, MailboxError>(
                MailboxError::NotFound,
            )
        }),
{
    let q = queue_of(queues, recipient);
    lemma_live_entries_none(q, t1);
    let e1 = (first, first_expiry);
    let e2 = (second, second_expiry);
    let s1 = Seq::<StoredEnvelope>::empty().push(e1);
    let q1 = queues.insert(recipient, s1);
    assert(s1.drop_last() =~= Seq::<StoredEnvelope>::empty());
    assert(live_entries(s1.drop_last(), t2) == Seq::<StoredEnvelope>::empty());
    assert(live_entries(s1, t2) =~= s1);
    let s2 = s1.push(e2);
    let q2 = q1.insert(recipient, s2);
    lemma_expired_prefix_len(s2, t3, 0);
    let s3 = s2.subrange(1, 2);
    assert(s3 =~= Seq::<StoredEnvelope>::empty().push(e2));
    let q3 = q2.insert(recipient, s3);
    lemma_expired_prefix_len(s3, t4, 0);
    assert(s3.subrange(1, 1) =~= Seq::<StoredEnvelope>::empty());
    assert(q3.remove(recipient) =~= queues.remove(recipient));
}

/// A rejected enqueue adds nothing and evicts nothing live: the recipient's queue is its
/// former live entries.
pub proof fn law_full_queue_keeps_live_entries(
    max_depth: nat,
    queues: Map<Seq<char>, Seq<StoredEnvelope>>,
    recipient: Seq<char>,
    envelope: Seq<u8>,
    now: u128,
    expiry: u128,
)
    requires
        enqueue_outcome(max_depth, queues, recipient, envelope, now, expiry).1 == Err::<
            (),
            MailboxError,
        >(MailboxError::QueueFull),
    ensures
        queue_of(enqueue_outcome(max_depth, queues, recipient, envelope, now, expiry).0, recipient)
            == live_entries(queue_of(queues, recipient), now),
{
}

/// Only live entries count toward the depth bound: an enqueue succeeds exactly when fewer
/// than `max_depth` entries of the recipient are live, and then appends at the back.
pub proof fn law_enqueue_succeeds_below_depth(
    max_depth: nat,
    queues: Map<Seq<char>, Seq<StoredEnvelope>>,
    recipient: Seq<char>,
    envelope: Seq<u8>,
    now: u128,
    expiry: u128,
)
    ensures
        (enqueue_outcome(max_depth, queues, recipient, envelope, now, expiry).1 is Ok) <==> live_entries(
            queue_of(queues, recipient),
            now,
        ).len() < max_depth,
        enqueue_outcome(max_depth, queues, recipient, envelope, now, expiry).1 is Ok ==> queue_of(
            enqueue_outcome(max_depth, queues, recipient, envelope, now, expiry).0,
            recipient,
        ) == live_entries(queue_of(queues, recipient), now).push((envelope, expiry)),
{
}

/// A mailbox of depth zero rejects every enqueue and holds nothing.
pub proof fn law_zero_depth_rejects(
    queues: Map<Seq<char>, Seq<StoredEnvelope>>,
    recipient: Seq<char>,
    envelope: Seq<u8>,
    now: u128,
    expiry: u128,
)
    requires
        mailbox_wf(0, queues),
    ensures
        enqueue_outcome(0, queues, recipient, envelope, now, expiry) == (
            queues,
            Err::<(), MailboxError>(MailboxError::QueueFull),
        ),
{
    assert(!queues.contains_key(recipient));
    assert(queues.remove(recipient) =~= queues);
}

/// A queue holding only expired envelopes answers `Expired` once, is dropped, and is then
/// not found.
pub proof fn law_only_expired_reports_expired_once(
    max_depth: nat,
    queues: Map<Seq<char>, Seq<StoredEnvelope>>,
    recipient: Seq<char>,
    now: u128,
    later: u128,
)
    requires
        mailbox_wf(max_depth, queues),
        queues.contains_key(recipient),
        forall|j: int| 0 <= j < queues[recipient].len() ==> #[trigger] queues[recipient][j].1 <= now,
    ensures
        dequeue_outcome(queues, recipient, now) == (
            queues.remove(recipient),
            Err::<Seq<u8>, MailboxError>(MailboxError::Expired),
        ),
        dequeue_outcome(queues.remove(recipient), recipient, later).1 == Err::<
            Seq<u8>,
            MailboxError,
        >(MailboxError::NotFound),
{
    lemma_expired_prefix_len(queues[recipient], now, queues[recipient].len() as int);
}

/// A successful dequeue hands out the oldest envelope live at that time, and drops it and
/// every expired envelope before it.
pub proof fn law_dequeue_oldest_live(
    queues: Map<Seq<char>, Seq<StoredEnvelope>>,
    recipient: Seq<char>,
    now: u128,
)
    requires
        dequeue_outcome(queues, recipient, now).1 is Ok,
    ensures
        ({
            let q = queues[recipient];
            let k = expired_prefix_len(q, now) as int;
            &&& queues.contains_key(recipient)
            &&& k < q.len()
            &&& q[k].1 > now
            &&& forall|j: int| 0 <= j < k ==> #[trigger] q[j].1 <= now
            &&& dequeue_outcome(queues, recipient, now).1 == Ok::<Seq<u8>, MailboxError>(q[k].0)
            &&& queue_of(dequeue_outcome(queues, recipient, now).0, recipient) == q.subrange(
                k + 1,
                q.len() as int,
            )
        }),
{
    law_expired_prefix_is_oldest_live(queues[recipient], now);
}

/// Enqueueing or dequeueing for one recipient leaves every other recipient's queue as it was.
pub proof fn law_mailbox_recipients_independent(
    max_depth: nat,
    queues: Map<Seq<char>, Seq<StoredEnvelope>>,
    recipient: Seq<char>,
    other: Seq<char>,
    envelope: Seq<u8>,
    now: u128,
    expiry: u128,
)
    requires
        recipient != other,
    ensures
        queue_of(enqueue_outcome(max_depth, queues, recipient, envelope, now, expiry).0, other)
            == queue_of(queues, other),
        queue_of(dequeue_outcome(queues, recipient, now).0, other) == queue_of(queues, other),
{
}

/// An envelope stored with a zero time to live adds nothing live: from the moment it was
/// enqueued on, the recipient's live entries are those it would have had without it, so no
/// dequeue hands it out.
pub proof fn law_zero_ttl_adds_nothing_live(
    max_depth: nat,
    queues: Map<Seq<char>, Seq<StoredEnvelope>>,
    recipient: Seq<char>,
    envelope: Seq<u8>,
    now: u128,
    later: u128,
)
    requires
        now <= later,
    ensures
        live_entries(
            queue_of(
                enqueue_outcome(
                    max_depth,
                    queues,
                    recipient,
                    envelope,
                    now,
                    expiry_after(now, 0),
                ).0,
                recipient,
            ),
            later,
        ) == live_entries(queue_of(queues, recipient), later),
{
    let q = queue_of(queues, recipient);
    let live = live_entries(q, now);
    lemma_live_entries_twice(q, now, later);
    let nq = live.push((envelope, expiry_after(now, 0)));
    assert(nq.drop_last() =~= live);
    assert(nq.last() == (envelope, now));
    if live.len() == 0 {
        assert(live_entries(live, later) =~= Seq::<StoredEnvelope>::empty());
        assert(queue_of(queues.remove(recipient), recipient) =~= Seq::<StoredEnvelope>::empty());
        assert(live_entries(Seq::<StoredEnvelope>::empty(), later) =~= Seq::<StoredEnvelope>::empty());
    }
}

/// The entries made of `envelopes[i]` expiring at `expiries[i]`, in order.
pub open spec fn entries_of(envelopes: Seq<Seq<u8>>, expiries: Seq<u128>) -> Seq<StoredEnvelope> {
    Seq::new(envelopes.len(), |i: int| (envelopes[i], expiries[i]))
}

/// The queues and the answers after enqueueing, one after another for `recipient`, each
/// `envelopes[i]` at `times[i]` to expire at `expiries[i]`.
pub open spec fn enqueue_run(
    max_depth: nat,
    queues: Map<Seq<char>, Seq<StoredEnvelope>>,
    recipient: Seq<char>,
    envelopes: Seq<Seq<u8>>,
    times: Seq<u128>,
    expiries: Seq<u128>,
) -> (Map<Seq<char>, Seq<StoredEnvelope>>, Seq<Result<(), MailboxError>>)
    decreases envelopes.len(),
{
    if envelopes.len() == 0 || times.len() == 0 || expiries.len() == 0 {
        (queues, Seq::empty())
    } else {
        let first = enqueue_outcome(
            max_depth,
            queues,
            recipient,
            envelopes[0],
            times[0],
            expiries[0],
        );
        let rest = enqueue_run(
            max_depth,
            first.0,
            recipient,
            envelopes.drop_first(),
            times.drop_first(),
            expiries.drop_first(),
        );
        (rest.0, seq![first.1] + rest.1)
    }
}

/// The queues and the answers after dequeueing, one after another for `recipient`, at each
/// of `times`.
pub open spec fn dequeue_run(
    queues: Map<Seq<char>, Seq<StoredEnvelope>>,
    recipient: Seq<char>,
    times: Seq<u128>,
) -> (Map<Seq<char>, Seq<StoredEnvelope>>, Seq<Result<Seq<u8>, MailboxError>>)
    decreases times.len(),
{
    if times.len() == 0 {
        (queues, Seq::empty())
    } else {
        let first = dequeue_outcome(queues, recipient, times[0]);
        let rest = dequeue_run(first.0, recipient, times.drop_first());
        (rest.0, seq![first.1] + rest.1)
    }
}

/// Every answer is `Ok`.
pub open spec fn all_accepted(answers: Seq<Result<(), MailboxError>>) -> bool {
    forall|i: int| 0 <= i < answers.len() ==> #[trigger] answers[i] == Ok::<(), MailboxError>(())
}

/// Enqueueing onto a queue whose entries all stay live, when every envelope fits or every
/// one is accepted, appends every envelope, in order.
proof fn lemma_enqueue_run_appends(
    max_depth: nat,
    queues: Map<Seq<char>, Seq<StoredEnvelope>>,
    recipient: Seq<char>,
    prior: Seq<StoredEnvelope>,
    envelopes: Seq<Seq<u8>>,
    times: Seq<u128>,
    expiries: Seq<u128>,
)
    requires
        envelopes.len() == times.len(),
        envelopes.len() == expiries.len(),
        queues.contains_key(recipient),
        queues[recipient] == prior,
        prior.len() + envelopes.len() <= max_depth || all_accepted(
            enqueue_run(max_depth, queues, recipient, envelopes, times, expiries).1,
        ),
        forall|i: int, j: int|
            0 <= i < prior.len() && 0 <= j < times.len() ==> #[trigger] prior[i].1
                > #[trigger] times[j],
        forall|i: int, j: int|
            0 <= i < j < times.len() ==> #[trigger] expiries[i] > #[trigger] times[j],
    ensures
        enqueue_run(max_depth, queues, recipient, envelopes, times, expiries).0 == queues.insert(
            recipient,
            prior + entries_of(envelopes, expiries),
        ),
        enqueue_run(max_depth, queues, recipient, envelopes, times, expiries).1.len()
            == envelopes.len(),
        forall|i: int|
            0 <= i < envelopes.len() ==> #[trigger] enqueue_run(
                max_depth,
                queues,
                recipient,
                envelopes,
                times,
                expiries,
            ).1[i] == Ok::<(), MailboxError>(()),
    decreases envelopes.len(),
{
    if envelopes.len() == 0 {
        assert(prior + entries_of(envelopes, expiries) =~= prior);
        assert(queues.insert(recipient, prior) =~= queues);
    } else {
        assert forall|j: int| 0 <= j < prior.len() implies #[trigger] prior[j].1 > times[0] by {
            assert(prior[j].1 > times[0]);
        }
        lemma_live_entries_all(prior, times[0]);
        let e0 = (envelopes[0], expiries[0]);
        let grown = prior.push(e0);
        let next = queues.insert(recipient, grown);
        assert(queue_of(queues, recipient) == prior);
        let run = enqueue_run(max_depth, queues, recipient, envelopes, times, expiries);
        let first = enqueue_outcome(
            max_depth,
            queues,
            recipient,
            envelopes[0],
            times[0],
            expiries[0],
        );
        assert(run.1[0] == first.1);
        assert(prior.len() < max_depth);
        assert(enqueue_outcome(max_depth, queues, recipient, envelopes[0], times[0], expiries[0])
            == (next, Ok::<(), MailboxError>(())));
        let es = envelopes.drop_first();
        let ts = times.drop_first();
        let xs = expiries.drop_first();
        assert forall|i: int, j: int|
            0 <= i < grown.len() && 0 <= j < ts.len() implies #[trigger] grown[i].1
            > #[trigger] ts[j] by {
            assert(ts[j] == times[j + 1]);
            if i < prior.len() {
                assert(prior[i].1 > times[j + 1]);
            } else {
                assert(expiries[0] > times[j + 1]);
            }
        }
        assert forall|i: int, j: int| 0 <= i < j < ts.len() implies #[trigger] xs[i]
            > #[trigger] ts[j] by {
            assert(expiries[i + 1] > times[j + 1]);
        }
        let rest = enqueue_run(max_depth, next, recipient, es, ts, xs);
        if !(prior.len() + envelopes.len() <= max_depth) {
            assert forall|i: int| 0 <= i < rest.1.len() implies #[trigger] rest.1[i] == Ok::<
                (),
                MailboxError,
            >(()) by {
                assert(run.1[i + 1] == rest.1[i]);
            }
        }
        lemma_enqueue_run_appends(max_depth, next, recipient, grown, es, ts, xs);
        assert(grown + entries_of(es, xs) =~= prior + entries_of(envelopes, expiries));
        assert(next.insert(recipient, grown + entries_of(es, xs)) =~= queues.insert(
            recipient,
            prior + entries_of(envelopes, expiries),
        ));
        assert forall|i: int| 0 <= i < envelopes.len() implies #[trigger] run.1[i] == Ok::<
            (),
            MailboxError,
        >(()) by {
            if i > 0 {
                assert(run.1[i] == rest.1[i - 1]);
            }
        }
    }
}

/// Dequeueing a queue whose entries are each live at their turn hands them out in order, then
/// answers `NotFound`, and leaves the recipient without a queue.
proof fn lemma_dequeue_run_in_order(
    queues: Map<Seq<char>, Seq<StoredEnvelope>>,
    recipient: Seq<char>,
    q: Seq<StoredEnvelope>,
    times: Seq<u128>,
)
    requires
        queue_of(queues, recipient) == q,
        queues.contains_key(recipient) <==> q.len() > 0,
        times.len() == q.len() + 1,
        forall|k: int| 0 <= k < q.len() ==> #[trigger] q[k].1 > times[k],
    ensures
        dequeue_run(queues, recipient, times).0 == queues.remove(recipient),
        dequeue_run(queues, recipient, times).1.len() == q.len() + 1,
        forall|k: int|
            0 <= k < q.len() ==> #[trigger] dequeue_run(queues, recipient, times).1[k] == Ok::<
                Seq<u8>,
                MailboxError,
            >(q[k].0),
        dequeue_run(queues, recipient, times).1[q.len() as int] == Err::<Seq<u8>, MailboxError>(
            MailboxError::NotFound,
        ),
    decreases q.len(),
{
    let ts = times.drop_first();
    let first = dequeue_outcome(queues, recipient, times[0]);
    if q.len() == 0 {
        assert(queues.remove(recipient) =~= queues);
        assert(dequeue_run(queues, recipient, ts) == (queues, Seq::<Result<Seq<u8>, MailboxError>>::empty()));
    } else {
        lemma_expired_prefix_len(q, times[0], 0);
        let rest = q.subrange(1, q.len() as int);
        assert(first.1 == Ok::<Seq<u8>, MailboxError>(q[0].0));
        assert(queue_of(first.0, recipient) =~= rest);
        assert forall|k: int| 0 <= k < rest.len() implies #[trigger] rest[k].1 > ts[k] by {
            assert(rest[k] == q[k + 1]);
            assert(ts[k] == times[k + 1]);
        }
        lemma_dequeue_run_in_order(first.0, recipient, rest, ts);
        assert(first.0.remove(recipient) =~= queues.remove(recipient));
        let run = dequeue_run(queues, recipient, times);
        let tail = dequeue_run(first.0, recipient, ts);
        assert forall|k: int| 0 <= k < q.len() implies #[trigger] run.1[k] == Ok::<
            Seq<u8>,
            MailboxError,
        >(q[k].0) by {
            if k > 0 {
                assert(run.1[k] == tail.1[k - 1]);
                assert(rest[k - 1] == q[k]);
            }
        }
        assert(run.1[q.len() as int] == tail.1[rest.len() as int]);
    }
}

/// Envelopes are handed out in arrival order, one per dequeue, however many were accepted:
/// after enqueueing `n` envelopes for a recipient holding nothing live, each still live at
/// every later enqueue, every one is accepted when they all fit or they were all accepted;
/// the next `n` dequeues, each made while its envelope is live, then return them first to
/// last, the one after that answers `NotFound`, and the recipient is left without a queue.
pub proof fn law_arrival_order_any_number(
    max_depth: nat,
    queues: Map<Seq<char>, Seq<StoredEnvelope>>,
    recipient: Seq<char>,
    envelopes: Seq<Seq<u8>>,
    enqueue_times: Seq<u128>,
    expiries: Seq<u128>,
    dequeue_times: Seq<u128>,
)
    requires
        0 < envelopes.len(),
        envelopes.len() <= max_depth || all_accepted(
            enqueue_run(max_depth, queues, recipient, envelopes, enqueue_times, expiries).1,
        ),
        enqueue_times.len() == envelopes.len(),
        expiries.len() == envelopes.len(),
        dequeue_times.len() == envelopes.len() + 1,
        forall|j: int|
            0 <= j < queue_of(queues, recipient).len() ==> #[trigger] queue_of(
                queues,
                recipient,
            )[j].1 <= enqueue_times[0],
        forall|i: int, j: int|
            0 <= i < j < envelopes.len() ==> #[trigger] expiries[i] > #[trigger] enqueue_times[j],
        forall|i: int| 0 <= i < envelopes.len() ==> #[trigger] expiries[i] > dequeue_times[i],
    ensures
        ({
            let enqueued = enqueue_run(
                max_depth,
                queues,
                recipient,
                envelopes,
                enqueue_times,
                expiries,
            );
            let dequeued = dequeue_run(enqueued.0, recipient, dequeue_times);
            &&& enqueued.1.len() == envelopes.len()
            &&& forall|i: int|
                0 <= i < envelopes.len() ==> #[trigger] enqueued.1[i] == Ok::<(), MailboxError>(())
            &&& dequeued.1.len() == envelopes.len() + 1
            &&& forall|i: int|
                0 <= i < envelopes.len() ==> #[trigger] dequeued.1[i] == Ok::<
                    Seq<u8>,
                    MailboxError,
                >(envelopes[i])
            &&& dequeued.1[envelopes.len() as int] == Err::<Seq<u8>, MailboxError>(
                MailboxError::NotFound,
            )
            &&& dequeued.0 == queues.remove(recipient)
        }),
{
    let n = envelopes.len();
    let q = queue_of(queues, recipient);
    lemma_live_entries_none(q, enqueue_times[0]);
    let e0 = (envelopes[0], expiries[0]);
    let one = Seq::<StoredEnvelope>::empty().push(e0);
    let next = queues.insert(recipient, one);
    assert(live_entries(q, enqueue_times[0]).push(e0) =~= one);
    let es = envelopes.drop_first();
    let ts = enqueue_times.drop_first();
    let xs = expiries.drop_first();
    let enqueued = enqueue_run(max_depth, queues, recipient, envelopes, enqueue_times, expiries);
    let first = enqueue_outcome(
        max_depth,
        queues,
        recipient,
        envelopes[0],
        enqueue_times[0],
        expiries[0],
    );
    assert(enqueued.1[0] == first.1);
    assert(first == (next, Ok::<(), MailboxError>(())));
    let rest = enqueue_run(max_depth, next, recipient, es, ts, xs);
    if !(n <= max_depth) {
        assert forall|i: int| 0 <= i < rest.1.len() implies #[trigger] rest.1[i] == Ok::<
            (),
            MailboxError,
        >(()) by {
            assert(enqueued.1[i + 1] == rest.1[i]);
        }
    }
    assert forall|i: int, j: int|
        0 <= i < one.len() && 0 <= j < ts.len() implies #[trigger] one[i].1 > #[trigger] ts[j] by {
        assert(ts[j] == enqueue_times[j + 1]);
        assert(expiries[0] > enqueue_times[j + 1]);
    }
    assert forall|i: int, j: int| 0 <= i < j < ts.len() implies #[trigger] xs[i] > #[trigger] ts[j] by {
        assert(expiries[i + 1] > enqueue_times[j + 1]);
    }
    lemma_enqueue_run_appends(max_depth, next, recipient, one, es, ts, xs);
    let all = entries_of(envelopes, expiries);
    assert(one + entries_of(es, xs) =~= all);
    assert(next.insert(recipient, one + entries_of(es, xs)) =~= queues.insert(recipient, all));
    assert(enqueued.0 == queues.insert(recipient, all));
    assert forall|i: int| 0 <= i < n implies #[trigger] enqueued.1[i] == Ok::<(), MailboxError>(
        (),
    ) by {
        if i > 0 {
            assert(enqueued.1[i] == rest.1[i - 1]);
        }
    }
    let full = queues.insert(recipient, all);
    assert forall|k: int| 0 <= k < all.len() implies #[trigger] all[k].1 > dequeue_times[k] by {
        assert(expiries[k] > dequeue_times[k]);
    }
    lemma_dequeue_run_in_order(full, recipient, all, dequeue_times);
    assert(full.remove(recipient) =~= queues.remove(recipient));
    let dequeued = dequeue_run(full, recipient, dequeue_times);
    assert forall|i: int| 0 <= i < n implies #[trigger] dequeued.1[i] == Ok::<Seq<u8>, MailboxError>(
        envelopes[i],
    ) by {
        assert(dequeued.1[i] == Ok::<Seq<u8>, MailboxError>(all[i].0));
    }
}

/// The public operations of a `RelayStore` are exactly `store`, `pickup`, `purge` and
/// `count`: a name is one of them if and only if it is one of these four.
pub proof fn law_method_names(name: Seq<char>)
    ensures
        is_method_name(name) <==> (name == "store"@ || name == "pickup"@ || name == "purge"@
            || name == "count"@),
{
}

/// Wherever the first entry live at `now` sits in a recipient's queue, a dequeue at `now`
/// hands out that entry's envelope, discards the expired entries before it, and keeps the
/// entries after it, dropping the queue when none follow.
pub proof fn law_dequeue_returns_first_live(
    queues: Map<Seq<char>, Seq<StoredEnvelope>>,
    recipient: Seq<char>,
    now: u128,
    k: int,
)
    requires
        queues.contains_key(recipient),
        0 <= k < queues[recipient].len(),
        queues[recipient][k].1 > now,
        forall|j: int| 0 <= j < k ==> #[trigger] queues[recipient][j].1 <= now,
    ensures
        dequeue_outcome(queues, recipient, now).1 == Ok::<Seq<u8>, MailboxError>(
            queues[recipient][k].0,
        ),
        queue_of(dequeue_outcome(queues, recipient, now).0, recipient) == queues[recipient].subrange(
            k + 1,
            queues[recipient].len() as int,
        ),
        dequeue_outcome(queues, recipient, now).0.contains_key(recipient) <==> k + 1
            < queues[recipient].len(),
{
    lemma_expired_prefix_len(queues[recipient], now, k);
}

/// A dequeue at `now` succeeds exactly when the recipient's queue holds an entry live at `now`.
pub proof fn law_dequeue_succeeds_iff_live(
    queues: Map<Seq<char>, Seq<StoredEnvelope>>,
    recipient: Seq<char>,
    now: u128,
)
    ensures
        (dequeue_outcome(queues, recipient, now).1 is Ok) <==> (queues.contains_key(recipient)
            && exists|j: int|
            0 <= j < queues[recipient].len() && #[trigger] queues[recipient][j].1 > now),
{
    if queues.contains_key(recipient) {
        let q = queues[recipient];
        law_expired_prefix_is_oldest_live(q, now);
        let k = expired_prefix_len(q, now) as int;
        if k < q.len() {
            assert(q[k].1 > now);
        } else {
            assert forall|j: int| 0 <= j < q.len() implies #[trigger] q[j].1 <= now by {}
        }
    }
}

} // verus!
