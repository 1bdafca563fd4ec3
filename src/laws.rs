//! Properties of the pool that hold across its operations.

use vstd::prelude::*;
use futures_channel::oneshot::Sender;
use crate::expiration::{is_expired, newest_usable, usable, Idle};
use crate::inner::{grown_by_one, list_of, queue_of, PoolInner};

verus! {

/// No idle list of a well-formed pool holds more values than the cap. Every
/// operation on the pool keeps it well-formed, so this holds at every point.
pub proof fn idle_within_cap<T>(p: &PoolInner<T>, key: u64)
    requires
        p.wf(),
    ensures
        list_of(p.idle_view(), key).len() <= p.max_idle(),
{
}

/// A well-formed pool keeps no empty idle list and no empty waiter queue.
pub proof fn no_empty_entries<T>(p: &PoolInner<T>, key: u64)
    requires
        p.wf(),
    ensures
        p.idle_view().contains_key(key) ==> p.idle_view()[key].len() > 0,
        p.waiters_view().contains_key(key) ==> p.waiters_view()[key].len() > 0,
{
}

/// A key whose idle list holds at most one entry still holds at most one
/// after a shareable value is offered for it: the value is dropped when an
/// entry is there, and is the only entry otherwise.
pub proof fn shareable_offer_keeps_one<T>(
    before: Map<u64, Seq<Idle<T>>>,
    after: Map<u64, Seq<Idle<T>>>,
    key: u64,
    now: u64,
    max: nat,
)
    requires
        list_of(before, key).len() <= 1,
        before.contains_key(key) ==> after == before,
        grown_by_one(list_of(before, key), list_of(after, key), now, max),
    ensures
        list_of(after, key).len() <= 1,
{
}

/// Taking the single-flight slot of a key puts the key in the connecting
/// set, and ending that connect takes it out again.
pub proof fn connecting_slot_round_trip(
    before: Set<u64>,
    during: Set<u64>,
    after: Set<u64>,
    key: u64,
)
    requires
        during == before.insert(key),
        after == during.remove(key),
    ensures
        during.contains(key),
        !after.contains(key),
{
}

/// A checkout that parks on a key with no parked checkouts leaves exactly
/// one waiter queued for it.
pub proof fn checkout_parks_one_waiter<T>(
    before: Map<u64, Seq<Sender<T>>>,
    after: Map<u64, Seq<Sender<T>>>,
    key: u64,
)
    requires
        !before.contains_key(key),
        after.contains_key(key),
        after[key].len() == queue_of(before, key).len() + 1,
    ensures
        after[key].len() == 1,
{
}

/// Once a value `v` has been put at `now` for a key that had neither idle
/// values nor waiters (its list is then exactly `v`, by
/// [`PoolInner::put`]), a checkout at `later`, before `v` expires and with
/// `v` answering that it is open, takes entry 0, which holds `v`; settling a
/// unique reservation of `v` then hands out `v` itself.
pub proof fn put_then_checkout_finds_it<T>(
    list: Seq<Idle<T>>,
    v: T,
    now: u64,
    later: u64,
    timeout: Option<u64>,
)
    requires
        list == seq![(Idle { value: v, idle_at: now })],
        !is_expired(timeout, now, later),
    ensures
        newest_usable(list, seq![true], timeout, later, 1) == Some(0int),
        list[0].value == v,
{
    assert(usable(list, seq![true], timeout, later, 0));
}

} // verus!
