//! Blind store-and-forward of ciphertext envelopes.
use crate::clock::{
    duration_as_nanos, duration_nanos, instant_elapsed, instant_now, MAX_DURATION_NANOS,
};
use std::collections::VecDeque;
use std::time::{Duration, Instant};
use vstd::hash_map::StringHashMap;
use vstd::prelude::*;

verus! {

/// Errors returned by the blind store-and-forward.
#[derive(Debug, PartialEq, Eq, Structural, Clone, Copy)]
pub enum StoreError {
    /// The requested envelope has expired and was purged.
    Expired,
    /// No envelope found for the recipient.
    NotFound,
}

/// Whether two strings hold the same characters.
fn same_chars(a: &str, b: &str) -> (r: bool)
    ensures
        r == (a@ == b@),
{
    let n = a.unicode_len();
    if n != b.unicode_len() {
        return false;
    }
    let mut i: usize = 0;
    while i < n
        invariant
            n == a@.len(),
            n == b@.len(),
            i <= n,
            forall|j: int| 0 <= j < i ==> a@[j] == b@[j],
        decreases n - i,
    {
        if a.get_char(i) != b.get_char(i) {
            return false;
        }
        i = i + 1;
    }
    assert(a@ =~= b@);
    true
}

/// The names of the public operations of `RelayStore`.
pub open spec fn is_method_name(name: Seq<char>) -> bool {
    name == "store"@ || name == "pickup"@ || name == "purge"@ || name == "count"@
}

/// The stored form of an envelope: its bytes and its expiry, in nanoseconds since the
/// store's origin.
pub type StoredEnvelope = (Seq<u8>, u128);

/// The view of one stored entry.
pub open spec fn entry_view(e: (Vec<u8>, u128)) -> StoredEnvelope {
    (e.0@, e.1)
}

/// The view of a result that carries envelope bytes.
pub open spec fn bytes_result<E>(r: Result<Vec<u8>, E>) -> Result<Seq<u8>, E> {
    match r {
        Ok(v) => Ok(v@),
        Err(e) => Err(e),
    }
}

/// The slots after `recipient` stores `envelope` with the given expiry: the last write wins.
pub open spec fn slots_after_store(
    slots: Map<Seq<char>, StoredEnvelope>,
    recipient: Seq<char>,
    envelope: Seq<u8>,
    expiry: u128,
) -> Map<Seq<char>, StoredEnvelope> {
    slots.insert(recipient, (envelope, expiry))
}

/// What a pickup by `recipient` at time `now` does: the slots afterwards and the answer.
/// An entry is expired once `now` is past its expiry; a pickup removes the entry either way.
pub open spec fn pickup_outcome(
    slots: Map<Seq<char>, StoredEnvelope>,
    recipient: Seq<char>,
    now: u128,
) -> (Map<Seq<char>, StoredEnvelope>, Result<Seq<u8>, StoreError>) {
    if !slots.contains_key(recipient) {
        (slots, Err(StoreError::NotFound))
    } else if now > slots[recipient].1 {
        (slots.remove(recipient), Err(StoreError::Expired))
    } else {
        (slots.remove(recipient), Ok(slots[recipient].0))
    }
}

/// The expiry of an envelope stored at `now` with a time to live of `ttl` nanoseconds.
pub open spec fn expiry_after(now: u128, ttl: u128) -> u128 {
    (now + ttl) as u128
}

/// The later of two clock readings.
pub open spec fn later_of(a: u128, b: u128) -> u128 {
    if b > a {
        b
    } else {
        a
    }
}

/// A copy of a byte vector.
fn copy_bytes(v: &Vec<u8>) -> (r: Vec<u8>)
    ensures
        r@ == v@,
{
    let r = v.clone();
    assert(r@ =~= v@);
    r
}

/// The view of the slots held, recipient by recipient.
pub open spec fn slots_view(
    m: Map<Seq<char>, (Vec<u8>, u128)>,
) -> Map<Seq<char>, StoredEnvelope> {
    m.map_values(|e: (Vec<u8>, u128)| entry_view(e))
}

/// A blind in-memory store that holds ciphertext envelopes with TTL.
pub struct RelayStore {
    origin: Instant,
    latest: u128,
    slots: StringHashMap<(Vec<u8>, u128)>,
}

impl View for RelayStore {
    type V = Map<Seq<char>, StoredEnvelope>;

    closed spec fn view(&self) -> Map<Seq<char>, StoredEnvelope> {
        slots_view(self.slots@)
    }
}

impl RelayStore {
    /// Only finitely many recipients hold a slot.
    #[verifier::type_invariant]
    spec fn inv(self) -> bool {
        &&& self@.dom().finite()
        &&& self.latest <= MAX_DURATION_NANOS
    }

    /// The latest clock reading this store has taken, in nanoseconds since its origin.
    pub closed spec fn latest_reading(&self) -> u128 {
        self.latest
    }

    /// Create a new empty store.
    pub fn new() -> (s: Self)
        ensures
            s@ == Map::<Seq<char>, StoredEnvelope>::empty(),
            s.latest_reading() == 0,
    {
        let slots = StringHashMap::new();
        assert(slots_view(slots@) =~= Map::<Seq<char>, StoredEnvelope>::empty());
        RelayStore { origin: instant_now(), latest: 0, slots }
    }

    /// The current time of this store, in nanoseconds since its origin: the clock's reading,
    /// never earlier than a reading taken before.
    fn now(&mut self) -> (t: u128)
        ensures
            t <= MAX_DURATION_NANOS,
            old(self).latest_reading() <= t,
            final(self).latest_reading() == t,
            final(self)@ == old(self)@,
            exists|elapsed: Duration|
                t == later_of(old(self).latest_reading(), #[trigger] duration_nanos(elapsed)),
    {
        proof {
            use_type_invariant(&*self);
        }
        let elapsed = instant_elapsed(&self.origin);
        let reading = duration_as_nanos(&elapsed);
        assert(later_of(self.latest, duration_nanos(elapsed)) == (if reading > self.latest {
            reading
        } else {
            self.latest
        }));
        let t = if reading > self.latest {
            reading
        } else {
            self.latest
        };
        self.latest = t;
        t
    }

    /// Store an envelope for the given recipient, to expire at `expiry` (nanoseconds since
    /// the store's origin). A later store for the same recipient replaces it.
    pub fn store_at(&mut self, recipient_id: &str, envelope: Vec<u8>, expiry: u128) -> (r: Result<
        (),
        StoreError,
    >)
        ensures
            r == Ok::<(), StoreError>(()),
            final(self)@ == slots_after_store(old(self)@, recipient_id@, envelope@, expiry),
            final(self)@.dom().finite(),
            final(self).latest_reading() == old(self).latest_reading(),
    {
        proof {
            use_type_invariant(&*self);
        }
        let ghost bytes = envelope@;
        let mut slots = StringHashMap::new();
        assert(slots_view(slots@) =~= Map::<Seq<char>, StoredEnvelope>::empty());
        std::mem::swap(&mut slots, &mut self.slots);
        slots.insert(recipient_id.to_owned(), (envelope, expiry));
        proof {
            assert(slots_view(slots@) =~= slots_after_store(
                old(self)@,
                recipient_id@,
                bytes,
                expiry,
            ));
        }
        self.slots = slots;
        Ok(())
    }

    /// Store an envelope for the given recipient with a TTL.
    pub fn store(&mut self, recipient_id: &str, envelope: Vec<u8>, ttl: Duration) -> (r: Result<
        (),
        StoreError,
    >)
        ensures
            r == Ok::<(), StoreError>(()),
            duration_nanos(ttl) <= MAX_DURATION_NANOS,
            final(self)@.dom().finite(),
            exists|elapsed: Duration|
                final(self).latest_reading() == later_of(
                    old(self).latest_reading(),
                    #[trigger] duration_nanos(elapsed),
                ),
            exists|now: u128|
                now <= MAX_DURATION_NANOS && old(self).latest_reading() <= now
                    && final(self).latest_reading() == now && final(self)@ == slots_after_store(
                    old(self)@,
                    recipient_id@,
                    envelope@,
                    #[trigger] expiry_after(now, duration_nanos(ttl)),
                ),
    {
        let now = self.now();
        let ttl_nanos = duration_as_nanos(&ttl);
        let ghost bytes = envelope@;
        let r = self.store_at(recipient_id, envelope, now + ttl_nanos);
        assert(self@ == slots_after_store(old(self)@, recipient_id@, bytes, expiry_after(now, duration_nanos(ttl))));
        r
    }

    /// Pick up the envelope for a recipient at time `now` (nanoseconds since the store's
    /// origin), if it exists and is not expired. The entry is removed in both cases.
    pub fn pickup_at(&mut self, recipient_id: &str, now: u128) -> (r: Result<Vec<u8>, StoreError>)
        ensures
            (final(self)@, bytes_result(r)) == pickup_outcome(old(self)@, recipient_id@, now),
            final(self)@.dom().finite(),
            final(self).latest_reading() == old(self).latest_reading(),
    {
        proof {
            use_type_invariant(&*self);
        }
        let outcome = match self.slots.get(recipient_id) {
            None => Err(StoreError::NotFound),
            Some(entry) => {
                if now > entry.1 {
                    Err(StoreError::Expired)
                } else {
                    Ok(copy_bytes(&entry.0))
                }
            },
        };
        let mut slots = StringHashMap::new();
        assert(slots_view(slots@) =~= Map::<Seq<char>, StoredEnvelope>::empty());
        std::mem::swap(&mut slots, &mut self.slots);
        match outcome {
            Err(StoreError::NotFound) => {},
            _ => {
                slots.remove(recipient_id);
            },
        }
        proof {
            assert(slots_view(slots@) =~= pickup_outcome(
                old(self)@,
                recipient_id@,
                now,
            ).0);
        }
        self.slots = slots;
        outcome
    }

    /// Pick up the envelope for a recipient if it exists and is not expired.
    pub fn pickup(&mut self, recipient_id: &str) -> (r: Result<Vec<u8>, StoreError>)
        ensures
            final(self)@.dom().finite(),
            exists|elapsed: Duration|
                final(self).latest_reading() == later_of(
                    old(self).latest_reading(),
                    #[trigger] duration_nanos(elapsed),
                ),
            exists|now: u128|
                now <= MAX_DURATION_NANOS && old(self).latest_reading() <= now
                    && final(self).latest_reading() == now && (final(self)@, bytes_result(r))
                    == pickup_outcome(
                    old(self)@,
                    recipient_id@,
                    now,
                ),
    {
        let now = self.now();
        self.pickup_at(recipient_id, now)
    }

    /// Purge the stored envelope for a recipient regardless of TTL.
    pub fn purge(&mut self, recipient_id: &str) -> (r: Result<(), StoreError>)
        ensures
            r == Ok::<(), StoreError>(()),
            final(self)@ == old(self)@.remove(recipient_id@),
            final(self)@.dom().finite(),
            final(self).latest_reading() == old(self).latest_reading(),
    {
        proof {
            use_type_invariant(&*self);
        }
        let mut slots = StringHashMap::new();
        assert(slots_view(slots@) =~= Map::<Seq<char>, StoredEnvelope>::empty());
        std::mem::swap(&mut slots, &mut self.slots);
        slots.remove(recipient_id);
        proof {
            assert(slots_view(slots@) =~= old(self)@.remove(
                recipient_id@,
            ));
        }
        self.slots = slots;
        Ok(())
    }

    /// Return the number of stored envelopes (including expired ones that haven't been cleaned yet).
    pub fn count(&self) -> (n: usize)
        ensures
            n == self@.len(),
            self@.dom().finite(),
    {
        proof {
            use_type_invariant(self);
        }
        assert(self@.dom() =~= self.slots@.dom());
        self.slots.len()
    }

    /// Introspect whether a public method is exposed.
    pub fn has_method(name: &str) -> (r: bool)
        ensures
            r == is_method_name(name@),
    {
        same_chars(name, "store") || same_chars(name, "pickup") || same_chars(name, "purge")
            || same_chars(name, "count")
    }
}

impl Default for RelayStore {
    fn default() -> (s: Self)
        ensures
            s@ == Map::<Seq<char>, StoredEnvelope>::empty(),
            s.latest_reading() == 0,
    {
        Self::new()
    }
}

/// Maximum number of live envelopes retained per recipient by [`Mailbox`].
pub const DEFAULT_MAX_ENVELOPES_PER_RECIPIENT: usize = 64;

/// Errors returned by [`Mailbox`] operations.
#[derive(Debug, PartialEq, Eq, Structural, Clone, Copy)]
pub enum MailboxError {
    /// The recipient has no queue.
    NotFound,
    /// The recipient's queue held only expired envelopes, which were discarded.
    Expired,
    /// The recipient's live queue is already at `max_depth`.
    QueueFull,
}

/// The view of a queue of stored entries, oldest first.
pub open spec fn queue_view(q: Seq<(Vec<u8>, u128)>) -> Seq<StoredEnvelope> {
    q.map_values(|e: (Vec<u8>, u128)| entry_view(e))
}

/// The entries of `q` still live at `now` (expiring strictly after it), in their order.
pub open spec fn live_entries(q: Seq<StoredEnvelope>, now: u128) -> Seq<StoredEnvelope>
    decreases q.len(),
{
    if q.len() == 0 {
        q
    } else {
        let rest = live_entries(q.drop_last(), now);
        if q.last().1 > now {
            rest.push(q.last())
        } else {
            rest
        }
    }
}

/// The number of entries at the front of `q` that have expired by `now`.
pub open spec fn expired_prefix_len(q: Seq<StoredEnvelope>, now: u128) -> nat
    decreases q.len(),
{
    if q.len() == 0 {
        0
    } else if q[0].1 > now {
        0
    } else {
        1 + expired_prefix_len(q.drop_first(), now)
    }
}

/// The queue of `recipient`, empty when it has none.
pub open spec fn queue_of(
    queues: Map<Seq<char>, Seq<StoredEnvelope>>,
    recipient: Seq<char>,
) -> Seq<StoredEnvelope> {
    if queues.contains_key(recipient) {
        queues[recipient]
    } else {
        Seq::empty()
    }
}

/// Every queue held is non-empty and holds at most `max_depth` entries.
pub open spec fn mailbox_wf(max_depth: nat, queues: Map<Seq<char>, Seq<StoredEnvelope>>) -> bool {
    forall|r: Seq<char>| #[trigger]
        queues.contains_key(r) ==> 0 < queues[r].len() <= max_depth
}

/// What an enqueue of `envelope` for `recipient` at time `now`, to expire at `expiry`, does:
/// the queues afterwards and the answer. Expired entries are discarded first; if
/// `max_depth` live entries remain, the answer is `QueueFull` and the live queue stays.
pub open spec fn enqueue_outcome(
    max_depth: nat,
    queues: Map<Seq<char>, Seq<StoredEnvelope>>,
    recipient: Seq<char>,
    envelope: Seq<u8>,
    now: u128,
    expiry: u128,
) -> (Map<Seq<char>, Seq<StoredEnvelope>>, Result<(), MailboxError>) {
    let live = live_entries(queue_of(queues, recipient), now);
    if live.len() >= max_depth {
        (
            if live.len() == 0 {
                queues.remove(recipient)
            } else {
                queues.insert(recipient, live)
            },
            Err(MailboxError::QueueFull),
        )
    } else {
        (queues.insert(recipient, live.push((envelope, expiry))), Ok(()))
    }
}

/// What a dequeue for `recipient` at time `now` does: the queues afterwards and the answer.
/// Expired entries at the front are discarded and the oldest live one is handed out; a
/// queue left empty is dropped.
pub open spec fn dequeue_outcome(
    queues: Map<Seq<char>, Seq<StoredEnvelope>>,
    recipient: Seq<char>,
    now: u128,
) -> (Map<Seq<char>, Seq<StoredEnvelope>>, Result<Seq<u8>, MailboxError>) {
    if !queues.contains_key(recipient) {
        (queues, Err(MailboxError::NotFound))
    } else {
        let q = queues[recipient];
        let k = expired_prefix_len(q, now) as int;
        if k < q.len() {
            let rest = q.subrange(k + 1, q.len() as int);
            (
                if rest.len() == 0 {
                    queues.remove(recipient)
                } else {
                    queues.insert(recipient, rest)
                },
                Ok(q[k].0),
            )
        } else {
            (
                queues.remove(recipient),
                if q.len() > 0 {
                    Err(MailboxError::Expired)
                } else {
                    Err(MailboxError::NotFound)
                },
            )
        }
    }
}

/// The live entries of a queue are no more than its entries.
pub proof fn lemma_live_entries_len(q: Seq<StoredEnvelope>, now: u128)
    ensures
        live_entries(q, now).len() <= q.len(),
    decreases q.len(),
{
    if q.len() > 0 {
        lemma_live_entries_len(q.drop_last(), now);
    }
}

/// Enqueueing keeps every queue non-empty and within the depth bound.
pub proof fn lemma_enqueue_preserves_wf(
    max_depth: nat,
    queues: Map<Seq<char>, Seq<StoredEnvelope>>,
    recipient: Seq<char>,
    envelope: Seq<u8>,
    now: u128,
    expiry: u128,
)
    requires
        mailbox_wf(max_depth, queues),
    ensures
        mailbox_wf(max_depth, enqueue_outcome(max_depth, queues, recipient, envelope, now, expiry).0),
{
    lemma_live_entries_len(queue_of(queues, recipient), now);
}

/// Dequeueing keeps every queue non-empty and within the depth bound.
pub proof fn lemma_dequeue_preserves_wf(
    max_depth: nat,
    queues: Map<Seq<char>, Seq<StoredEnvelope>>,
    recipient: Seq<char>,
    now: u128,
)
    requires
        mailbox_wf(max_depth, queues),
    ensures
        mailbox_wf(max_depth, dequeue_outcome(queues, recipient, now).0),
{
}

/// `k` is the length of the expired prefix when the entries before it are expired and the
/// one at it, if any, is live.
pub proof fn lemma_expired_prefix_len(q: Seq<StoredEnvelope>, now: u128, k: int)
    requires
        0 <= k <= q.len(),
        forall|j: int| 0 <= j < k ==> #[trigger] q[j].1 <= now,
        k < q.len() ==> q[k].1 > now,
    ensures
        expired_prefix_len(q, now) == k,
    decreases k,
{
    if k > 0 {
        let t = q.drop_first();
        assert forall|j: int| 0 <= j < k - 1 implies #[trigger] t[j].1 <= now by {
            assert(t[j] == q[j + 1]);
        }
        lemma_expired_prefix_len(t, now, k - 1);
    }
}

/// The view of the queues held, recipient by recipient.
pub open spec fn queues_view(
    m: Map<Seq<char>, VecDeque<(Vec<u8>, u128)>>,
) -> Map<Seq<char>, Seq<StoredEnvelope>> {
    m.map_values(|q: VecDeque<(Vec<u8>, u128)>| queue_view(q@))
}

/// The model of a mailbox: its depth bound and the queue of each recipient, oldest first.
pub struct MailboxView {
    pub max_depth: nat,
    pub queues: Map<Seq<char>, Seq<StoredEnvelope>>,
}

/// Per-recipient FIFO queue of opaque envelopes.
///
/// [`RelayStore`] holds exactly one value per key, which is the required
/// semantics for prekey bundles (last write wins). Envelopes require the
/// opposite semantics: every envelope accepted for an offline recipient is
/// retained in arrival order until it is dequeued or expires. `Mailbox`
/// provides that queue, bounded to `max_depth` live envelopes per recipient.
pub struct Mailbox {
    max_depth: usize,
    origin: Instant,
    latest: u128,
    queues: StringHashMap<VecDeque<(Vec<u8>, u128)>>,
}

impl View for Mailbox {
    type V = MailboxView;

    closed spec fn view(&self) -> MailboxView {
        MailboxView {
            max_depth: self.max_depth as nat,
            queues: queues_view(self.queues@),
        }
    }
}

impl Mailbox {
    #[verifier::type_invariant]
    spec fn inv(self) -> bool {
        &&& mailbox_wf(self@.max_depth, self@.queues)
        &&& self.latest <= MAX_DURATION_NANOS
    }

    /// The latest clock reading this mailbox has taken, in nanoseconds since its origin.
    pub closed spec fn latest_reading(&self) -> u128 {
        self.latest
    }

    /// Creates a mailbox retaining at most `max_depth` live envelopes per recipient.
    pub fn new(max_depth: usize) -> (m: Self)
        ensures
            m@.max_depth == max_depth,
            m@.queues == Map::<Seq<char>, Seq<StoredEnvelope>>::empty(),
            m.latest_reading() == 0,
    {
        let m = Mailbox { max_depth, origin: instant_now(), latest: 0, queues: StringHashMap::new() };
        assert(m@.queues =~= Map::<Seq<char>, Seq<StoredEnvelope>>::empty());
        m
    }

    /// The live entries (at `now`) of the queue held for `recipient_id`, copied.
    fn live_copy(&self, recipient_id: &str, now: u128) -> (kept: VecDeque<(Vec<u8>, u128)>)
        ensures
            queue_view(kept@) == live_entries(queue_of(self@.queues, recipient_id@), now),
    {
        let mut kept: VecDeque<(Vec<u8>, u128)> = VecDeque::new();
        match self.queues.get(recipient_id) {
            None => {
                assert(queue_view(kept@) =~= live_entries(
                    queue_of(self@.queues, recipient_id@),
                    now,
                ));
            },
            Some(q) => {
                let ghost qv = queue_view(q@);
                assert(qv == queue_of(self@.queues, recipient_id@));
                let n = q.len();
                let mut i: usize = 0;
                assert(qv.take(0) =~= Seq::<StoredEnvelope>::empty());
                assert(queue_view(kept@) =~= Seq::<StoredEnvelope>::empty());
                while i < n
                    invariant
                        n == q@.len(),
                        qv == queue_view(q@),
                        i <= n,
                        queue_view(kept@) == live_entries(qv.take(i as int), now),
                    decreases n - i,
                {
                    let e = &q[i];
                    assert(qv.take(i + 1).drop_last() =~= qv.take(i as int));
                    assert(qv.take(i + 1).last() == entry_view(q@[i as int]));
                    if e.1 > now {
                        let ghost before = kept@;
                        kept.push_back((copy_bytes(&e.0), e.1));
                        assert(queue_view(kept@) =~= queue_view(before).push(entry_view(q@[i as int])));
                    }
                    i = i + 1;
                }
                assert(qv.take(n as int) =~= qv);
            },
        }
        kept
    }

    /// The current time of this mailbox, in nanoseconds since its origin: the clock's reading,
    /// never earlier than a reading taken before.
    fn now(&mut self) -> (t: u128)
        ensures
            t <= MAX_DURATION_NANOS,
            old(self).latest_reading() <= t,
            final(self).latest_reading() == t,
            final(self)@ == old(self)@,
            exists|elapsed: Duration|
                t == later_of(old(self).latest_reading(), #[trigger] duration_nanos(elapsed)),
    {
        proof {
            use_type_invariant(&*self);
        }
        let elapsed = instant_elapsed(&self.origin);
        let reading = duration_as_nanos(&elapsed);
        assert(later_of(self.latest, duration_nanos(elapsed)) == (if reading > self.latest {
            reading
        } else {
            self.latest
        }));
        let t = if reading > self.latest {
            reading
        } else {
            self.latest
        };
        self.latest = t;
        t
    }

    /// Appends `envelope` to `recipient_id`'s queue, expiring after `ttl`.
    ///
    /// Expired entries are discarded first. If `max_depth` live entries remain,
    /// returns [`MailboxError::QueueFull`] and leaves the live queue unchanged.
    pub fn enqueue(&mut self, recipient_id: &str, envelope: Vec<u8>, ttl: Duration) -> (r: Result<
        (),
        MailboxError,
    >)
        ensures
            final(self)@.max_depth == old(self)@.max_depth,
            duration_nanos(ttl) <= MAX_DURATION_NANOS,
            exists|elapsed: Duration|
                final(self).latest_reading() == later_of(
                    old(self).latest_reading(),
                    #[trigger] duration_nanos(elapsed),
                ),
            exists|now: u128|
                now <= MAX_DURATION_NANOS && old(self).latest_reading() <= now
                    && final(self).latest_reading() == now && (final(self)@.queues, r)
                    == enqueue_outcome(
                    old(self)@.max_depth,
                    old(self)@.queues,
                    recipient_id@,
                    envelope@,
                    now,
                    #[trigger] expiry_after(now, duration_nanos(ttl)),
                ),
    {
        let now = self.now();
        let ttl_nanos = duration_as_nanos(&ttl);
        let ghost bytes = envelope@;
        let r = self.enqueue_at(recipient_id, envelope, now, ttl_nanos);
        assert((self@.queues, r) == enqueue_outcome(
            old(self)@.max_depth,
            old(self)@.queues,
            recipient_id@,
            bytes,
            now,
            expiry_after(now, ttl_nanos),
        ));
        r
    }

    /// Removes and returns the oldest live envelope for `recipient_id`.
    ///
    /// Expired envelopes at the front are discarded. Returns
    /// [`MailboxError::NotFound`] when the recipient has no queue, and
    /// [`MailboxError::Expired`] when the queue held only expired envelopes.
    pub fn dequeue(&mut self, recipient_id: &str) -> (r: Result<Vec<u8>, MailboxError>)
        ensures
            final(self)@.max_depth == old(self)@.max_depth,
            exists|elapsed: Duration|
                final(self).latest_reading() == later_of(
                    old(self).latest_reading(),
                    #[trigger] duration_nanos(elapsed),
                ),
            exists|now: u128|
                now <= MAX_DURATION_NANOS && old(self).latest_reading() <= now
                    && final(self).latest_reading() == now && (final(self)@.queues, bytes_result(r))
                    == #[trigger] dequeue_outcome(old(self)@.queues, recipient_id@, now),
    {
        let now = self.now();
        self.dequeue_at(recipient_id, now)
    }

    /// Removes and returns the oldest envelope live at time `now` (nanoseconds since the
    /// mailbox's origin) for `recipient_id`.
    ///
    /// Expired envelopes at the front are discarded. Returns
    /// [`MailboxError::NotFound`] when the recipient has no queue, and
    /// [`MailboxError::Expired`] when the queue held only expired envelopes.
    pub fn dequeue_at(&mut self, recipient_id: &str, now: u128) -> (r: Result<Vec<u8>, MailboxError>)
        ensures
            final(self)@.max_depth == old(self)@.max_depth,
            final(self).latest_reading() == old(self).latest_reading(),
            (final(self)@.queues, bytes_result(r)) == dequeue_outcome(
                old(self)@.queues,
                recipient_id@,
                now,
            ),
    {
        proof {
            use_type_invariant(&*self);
        }
        let ghost qv = queue_of(self@.queues, recipient_id@);
        let (found, rest, had_entries) = match self.queues.get(recipient_id) {
            None => {
                return Err(MailboxError::NotFound);
            },
            Some(q) => {
                assert(qv == queue_view(q@));
                let n = q.len();
                let mut i: usize = 0;
                while i < n && q[i].1 <= now
                    invariant
                        n == q@.len(),
                        qv == queue_view(q@),
                        i <= n,
                        forall|j: int| 0 <= j < i ==> #[trigger] qv[j].1 <= now,
                    decreases n - i,
                {
                    i = i + 1;
                }
                proof {
                    lemma_expired_prefix_len(qv, now, i as int);
                }
                if i < n {
                    let found = copy_bytes(&q[i].0);
                    let mut rest: VecDeque<(Vec<u8>, u128)> = VecDeque::new();
                    let mut j: usize = i + 1;
                    assert(queue_view(rest@) =~= qv.subrange(i + 1, j as int));
                    while j < n
                        invariant
                            n == q@.len(),
                            qv == queue_view(q@),
                            i < j <= n,
                            queue_view(rest@) == qv.subrange(i + 1, j as int),
                        decreases n - j,
                    {
                        let e = &q[j];
                        let ghost before = rest@;
                        rest.push_back((copy_bytes(&e.0), e.1));
                        assert(queue_view(rest@) =~= queue_view(before).push(qv[j as int]));
                        assert(qv.subrange(i + 1, j + 1) =~= qv.subrange(i + 1, j as int).push(
                            qv[j as int],
                        ));
                        j = j + 1;
                    }
                    (Some(found), rest, true)
                } else {
                    let rest: VecDeque<(Vec<u8>, u128)> = VecDeque::new();
                    assert(queue_view(rest@) =~= Seq::<StoredEnvelope>::empty());
                    (None, rest, n > 0)
                }
            },
        };
        let mut queues = StringHashMap::new();
        std::mem::swap(&mut queues, &mut self.queues);
        if rest.len() == 0 {
            queues.remove(recipient_id);
        } else {
            queues.insert(recipient_id.to_owned(), rest);
        }
        proof {
            assert(queues_view(queues@) =~= dequeue_outcome(old(self)@.queues, recipient_id@, now).0);
            lemma_dequeue_preserves_wf(old(self)@.max_depth, old(self)@.queues, recipient_id@, now);
        }
        self.queues = queues;
        match found {
            Some(envelope) => Ok(envelope),
            None => {
                if had_entries {
                    Err(MailboxError::Expired)
                } else {
                    Err(MailboxError::NotFound)
                }
            },
        }
    }

    /// Appends `envelope` to `recipient_id`'s queue at time `now`, to expire `ttl` nanoseconds
    /// later (times in nanoseconds since the mailbox's origin).
    ///
    /// Expired entries are discarded first. If `max_depth` live entries remain,
    /// returns [`MailboxError::QueueFull`] and leaves the live queue unchanged.
    pub fn enqueue_at(&mut self, recipient_id: &str, envelope: Vec<u8>, now: u128, ttl: u128) -> (r:
        Result<(), MailboxError>)
        requires
            now + ttl <= u128::MAX,
        ensures
            final(self)@.max_depth == old(self)@.max_depth,
            final(self).latest_reading() == old(self).latest_reading(),
            (final(self)@.queues, r) == enqueue_outcome(
                old(self)@.max_depth,
                old(self)@.queues,
                recipient_id@,
                envelope@,
                now,
                expiry_after(now, ttl),
            ),
    {
        proof {
            use_type_invariant(&*self);
        }
        let mut kept = self.live_copy(recipient_id, now);
        proof {
            lemma_live_entries_len(queue_of(self@.queues, recipient_id@), now);
        }
        let mut queues = StringHashMap::new();
        std::mem::swap(&mut queues, &mut self.queues);
        if kept.len() >= self.max_depth {
            if kept.len() == 0 {
                queues.remove(recipient_id);
            } else {
                queues.insert(recipient_id.to_owned(), kept);
            }
            proof {
                assert(queues_view(queues@) =~= enqueue_outcome(
                    old(self)@.max_depth,
                    old(self)@.queues,
                    recipient_id@,
                    envelope@,
                    now,
                    expiry_after(now, ttl),
                ).0);
                lemma_enqueue_preserves_wf(
                    old(self)@.max_depth,
                    old(self)@.queues,
                    recipient_id@,
                    envelope@,
                    now,
                    expiry_after(now, ttl),
                );
            }
            self.queues = queues;
            assert(self@.queues =~= enqueue_outcome(
                old(self)@.max_depth,
                old(self)@.queues,
                recipient_id@,
                envelope@,
                now,
                expiry_after(now, ttl),
            ).0);
            return Err(MailboxError::QueueFull);
        }
        let ghost before = kept@;
        let ghost bytes = envelope@;
        kept.push_back((envelope, now + ttl));
        assert(queue_view(kept@) =~= queue_view(before).push((bytes, expiry_after(now, ttl))));
        queues.insert(recipient_id.to_owned(), kept);
        proof {
            assert(queues_view(queues@) =~= enqueue_outcome(
                old(self)@.max_depth,
                old(self)@.queues,
                recipient_id@,
                bytes,
                now,
                expiry_after(now, ttl),
            ).0);
            lemma_enqueue_preserves_wf(
                old(self)@.max_depth,
                old(self)@.queues,
                recipient_id@,
                bytes,
                now,
                expiry_after(now, ttl),
            );
        }
        self.queues = queues;
        assert(self@.queues =~= enqueue_outcome(
            old(self)@.max_depth,
            old(self)@.queues,
            recipient_id@,
            bytes,
            now,
            expiry_after(now, ttl),
        ).0);
        Ok(())
    }
}

impl Default for Mailbox {
    fn default() -> (m: Self)
        ensures
            m@.max_depth == DEFAULT_MAX_ENVELOPES_PER_RECIPIENT,
            m@.queues == Map::<Seq<char>, Seq<StoredEnvelope>>::empty(),
            m.latest_reading() == 0,
    {
        Self::new(DEFAULT_MAX_ENVELOPES_PER_RECIPIENT)
    }
}

} // verus!
