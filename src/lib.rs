//! A store-and-forward relay for opaque, pre-encrypted envelopes: per-recipient
//! mailboxes, a sliding-window rate limiter, a proof-of-work admission gate and
//! an append-only journal that rebuilds the mailboxes after a restart.
pub mod admission;
pub mod mailbox;
pub mod journal;
pub mod ratelimit;
pub mod relay;
pub mod clock;
