//! A keyed pool of idle, reusable connections.
//!
//! The state of a pool is a [`PoolInner`]: idle lists per key, the
//! queues of parked checkouts, the single-flight set of connects in progress,
//! and the decisions taken when a value is returned, checked out, or evicted.
//! Keys are `u64` identities that the caller gives to each kind of
//! connection; time is handed in as nanoseconds on a monotonic clock.

mod channel;
mod checkout;
mod config;
mod expiration;
mod inner;
mod laws;

pub use config::{Config, Error, Poolable, Reservation, Ver};
pub use expiration::{
    age_of, cut_to, is_expired, lemma_newest_usable_in_range, newest_usable, popped, usable, Expiration,
    Idle, IdlePopper,
};
pub use inner::{
    evicted_from, fresh_flags, grown_by_one, kept, lemma_kept_len, lemma_kept_none, list_of, max_u64,
    queue_of, all_canceled, value_left, Handoff, IdleInterval, NewPooled, PoolInner, MIN_CHECK_NS,
};
pub use checkout::{checkout_outcome, receive, receive_spec, waiter_outcome};
pub use laws::{checkout_parks_one_waiter, connecting_slot_round_trip, idle_within_cap, no_empty_entries, put_then_checkout_finds_it, shareable_offer_keeps_one};
