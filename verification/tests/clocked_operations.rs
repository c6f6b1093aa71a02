//! The store and the mailbox driven with explicit times (nanoseconds since each one's origin).

use relay::store::{Mailbox, MailboxError, RelayStore, StoreError};
use std::time::Duration;

fn env(tag: u8) -> Vec<u8> {
    vec![tag; 4]
}

// ------------------------------------------------------------- RelayStore ---

#[test]
fn store_then_pickup_returns_the_envelope_once() {
    let mut s = RelayStore::new();
    assert_eq!(s.store_at("alice", env(1), 100), Ok(()));
    assert_eq!(s.count(), 1);
    assert_eq!(s.pickup_at("alice", 50), Ok(env(1)));
    assert_eq!(s.count(), 0);
    assert_eq!(s.pickup_at("alice", 50), Err(StoreError::NotFound));
}

#[test]
fn pickup_at_the_expiry_instant_still_succeeds() {
    let mut s = RelayStore::new();
    s.store_at("alice", env(1), 100).unwrap();
    assert_eq!(s.pickup_at("alice", 100), Ok(env(1)));
}

#[test]
fn pickup_after_expiry_reports_expired_and_removes() {
    let mut s = RelayStore::new();
    s.store_at("alice", env(1), 100).unwrap();
    assert_eq!(s.pickup_at("alice", 101), Err(StoreError::Expired));
    assert_eq!(s.count(), 0);
    assert_eq!(s.pickup_at("alice", 0), Err(StoreError::NotFound));
}

#[test]
fn second_store_overwrites_the_first() {
    let mut s = RelayStore::new();
    s.store_at("alice", env(1), 100).unwrap();
    s.store_at("alice", env(2), 200).unwrap();
    assert_eq!(s.count(), 1);
    assert_eq!(s.pickup_at("alice", 150), Ok(env(2)));
}

#[test]
fn purge_removes_regardless_of_ttl() {
    let mut s = RelayStore::new();
    s.store_at("alice", env(1), 100).unwrap();
    s.store_at("bob", env(2), 100).unwrap();
    assert_eq!(s.purge("alice"), Ok(()));
    assert_eq!(s.purge("nobody"), Ok(()));
    assert_eq!(s.count(), 1);
    assert_eq!(s.pickup_at("alice", 0), Err(StoreError::NotFound));
    assert_eq!(s.pickup_at("bob", 0), Ok(env(2)));
}

#[test]
fn count_includes_expired_entries_not_yet_picked_up() {
    let mut s = RelayStore::default();
    s.store_at("alice", env(1), 0).unwrap();
    s.store_at("bob", env(2), 0).unwrap();
    assert_eq!(s.count(), 2);
}

#[test]
fn store_and_pickup_with_the_clock() {
    let mut s = RelayStore::new();
    assert_eq!(s.store("alice", env(7), Duration::from_secs(60)), Ok(()));
    assert_eq!(s.pickup("alice"), Ok(env(7)));
    assert_eq!(s.pickup("alice"), Err(StoreError::NotFound));
}

#[test]
fn has_method_names_exactly_the_public_operations() {
    for name in ["store", "pickup", "purge", "count"] {
        assert!(RelayStore::has_method(name), "{name}");
    }
    for name in ["", "stor", "stores", "Store", "has_method", "new", "enqueue"] {
        assert!(!RelayStore::has_method(name), "{name}");
    }
}

#[test]
fn store_error_is_debug_and_partial_eq() {
    assert_ne!(StoreError::Expired, StoreError::NotFound);
    assert!(format!("{:?}", StoreError::Expired).contains("Expired"));
}

// ---------------------------------------------------------------- Mailbox ---

#[test]
fn enqueue_at_then_dequeue_at_in_arrival_order() {
    let mut mb = Mailbox::new(4);
    assert_eq!(mb.enqueue_at("alice", env(1), 0, 100), Ok(()));
    assert_eq!(mb.enqueue_at("alice", env(2), 10, 100), Ok(()));
    assert_eq!(mb.dequeue_at("alice", 20), Ok(env(1)));
    assert_eq!(mb.dequeue_at("alice", 30), Ok(env(2)));
    assert_eq!(mb.dequeue_at("alice", 30), Err(MailboxError::NotFound));
}

#[test]
fn entry_expires_at_its_expiry_instant() {
    let mut mb = Mailbox::new(4);
    mb.enqueue_at("alice", env(1), 0, 100).unwrap();
    // Live strictly before now + ttl; expired at it.
    assert_eq!(mb.dequeue_at("alice", 100), Err(MailboxError::Expired));
    assert_eq!(mb.dequeue_at("alice", 100), Err(MailboxError::NotFound));
}

#[test]
fn expired_entries_in_the_middle_are_skipped() {
    let mut mb = Mailbox::new(4);
    mb.enqueue_at("alice", env(1), 0, 50).unwrap();
    mb.enqueue_at("alice", env(2), 0, 10).unwrap();
    mb.enqueue_at("alice", env(3), 0, 50).unwrap();
    assert_eq!(mb.dequeue_at("alice", 5), Ok(env(1)));
    assert_eq!(mb.dequeue_at("alice", 20), Ok(env(3)));
    assert_eq!(mb.dequeue_at("alice", 20), Err(MailboxError::NotFound));
}

#[test]
fn full_queue_frees_room_once_entries_expire() {
    let mut mb = Mailbox::new(2);
    mb.enqueue_at("alice", env(1), 0, 10).unwrap();
    mb.enqueue_at("alice", env(2), 0, 20).unwrap();
    assert_eq!(mb.enqueue_at("alice", env(3), 5, 100), Err(MailboxError::QueueFull));
    // At time 15 the first has expired, so one more fits.
    assert_eq!(mb.enqueue_at("alice", env(4), 15, 100), Ok(()));
    assert_eq!(mb.dequeue_at("alice", 16), Ok(env(2)));
    assert_eq!(mb.dequeue_at("alice", 16), Ok(env(4)));
    assert_eq!(mb.dequeue_at("alice", 16), Err(MailboxError::NotFound));
}

#[test]
fn zero_depth_mailbox_holds_nothing() {
    let mut mb = Mailbox::new(0);
    assert_eq!(mb.enqueue_at("alice", env(1), 0, 10), Err(MailboxError::QueueFull));
    assert_eq!(mb.dequeue_at("alice", 0), Err(MailboxError::NotFound));
}

#[test]
fn dequeue_for_one_recipient_leaves_the_other() {
    let mut mb = Mailbox::new(4);
    mb.enqueue_at("alice", env(1), 0, 100).unwrap();
    mb.enqueue_at("bob", env(2), 0, 5).unwrap();
    assert_eq!(mb.dequeue_at("bob", 10), Err(MailboxError::Expired));
    assert_eq!(mb.dequeue_at("alice", 10), Ok(env(1)));
}
