//! A blind relay: a single-slot store of ciphertext envelopes and a bounded
//! per-recipient FIFO mailbox, both with expiry.
pub mod clock;
pub mod store;
pub mod laws;
