use vstd::prelude::*;
use std::collections::{HashMap, HashSet, VecDeque};
use std::convert::Infallible;
use futures_channel::oneshot::{Receiver, Sender};
use crate::config::{Config, Poolable, Reservation, Ver};
use crate::expiration::{
    cut_to, is_expired, lemma_newest_usable_in_range, newest_usable, usable, Expiration, Idle,
    IdlePopper,
};

verus! {

broadcast use vstd::std_specs::hash::group_hash_axioms;

/// The shortest period, in nanoseconds, of the eviction task.
pub const MIN_CHECK_NS: u64 = 90_000_000;

/// The state of an enabled pool, kept under one lock.
#[verifier::reject_recursive_types(T)]
pub struct PoolInner<T> {
    connecting: HashSet<u64>,
    idle: HashMap<u64, Vec<Idle<T>>>,
    max_idle_per_host: usize,
    waiters: HashMap<u64, VecDeque<Sender<T>>>,
    idle_interval_ref: Option<Sender<Infallible>>,
    has_timer: bool,
    timeout: Option<u64>,
}

/// What the executor must run when the pool starts its eviction task.
pub struct IdleInterval {
    /// The period of the task, in nanoseconds.
    pub duration: u64,
    /// Fails once the pool is gone; the task then stops.
    pub pool_drop_notifier: Receiver<Infallible>,
}

/// A value just made, as the pool hands it to its first user.
pub struct NewPooled<T> {
    /// The half that the caller uses.
    pub value: T,
    /// Whether the handle must go back to the pool when it is dropped: true
    /// for a unique reservation, false for a shared one, whose other half the
    /// pool already keeps.
    pub pool_ref: bool,
    /// The eviction task to start, if putting the kept half asked for one.
    pub interval: Option<IdleInterval>,
}

/// The larger of two periods.
pub open spec fn max_u64(a: u64, b: u64) -> u64 {
    if a >= b { a } else { b }
}

/// The idle list of `k` in `m`, or the empty list.
pub open spec fn list_of<T>(m: Map<u64, Seq<Idle<T>>>, k: u64) -> Seq<Idle<T>> {
    if m.contains_key(k) { m[k] } else { Seq::empty() }
}

/// `after` is `before`, or `before` with one more entry, idle from `now`,
/// added while there was room under `max`.
pub open spec fn grown_by_one<T>(before: Seq<Idle<T>>, after: Seq<Idle<T>>, now: u64, max: nat) -> bool {
    ||| after == before
    ||| {
        &&& before.len() < max
        &&& after.len() == before.len() + 1
        &&& after.drop_last() == before
        &&& after.last().idle_at == now
    }
}

/// The items among the first `n` of `s` whose flag in `flags` is set, in
/// their order.
pub open spec fn kept<A>(s: Seq<A>, flags: Seq<bool>, n: int) -> Seq<A>
    decreases n,
{
    if n <= 0 {
        Seq::empty()
    } else if flags[n - 1] {
        kept(s, flags, n - 1).push(s[n - 1])
    } else {
        kept(s, flags, n - 1)
    }
}

/// Keeping nothing flagged leaves nothing.
pub proof fn lemma_kept_none<A>(s: Seq<A>, flags: Seq<bool>, n: int)
    requires
        forall|i: int| 0 <= i < n ==> !#[trigger] flags[i],
    ensures
        kept(s, flags, n) == Seq::<A>::empty(),
    decreases n,
{
    if n > 0 {
        lemma_kept_none(s, flags, n - 1);
    }
}

/// A filter keeps no more than it was given.
pub proof fn lemma_kept_len<A>(s: Seq<A>, flags: Seq<bool>, n: int)
    requires
        0 <= n,
    ensures
        kept(s, flags, n).len() <= n,
    decreases n,
{
    if n > 0 {
        lemma_kept_len(s, flags, n - 1);
    }
}

/// Whether each entry of `list` said it is open and has not expired.
pub open spec fn fresh_flags<T>(list: Seq<Idle<T>>, open: Seq<bool>, timeout: Option<u64>, now: u64) -> Seq<bool> {
    Seq::new(list.len(), |i: int| open[i] && !is_expired(timeout, list[i].idle_at, now))
}

/// `after` is what eviction at `now` leaves of `before`, for some answers
/// of its entries to `is_open`.
pub open spec fn evicted_from<T>(
    before: Seq<Idle<T>>,
    after: Seq<Idle<T>>,
    timeout: Option<u64>,
    now: u64,
) -> bool {
    exists|open: Seq<bool>|
        open.len() == before.len() && after == #[trigger] kept(
            before,
            fresh_flags(before, open, timeout, now),
            before.len() as int,
        )
}

/// What became of one sender taken off a queue during an offer.
pub enum Handoff {
    /// Its checkout had been let go; nothing was sent.
    Canceled,
    /// The one-use half of a shared reservation was sent.
    SentShared,
    /// A unique reservation was sent; nothing is left to offer.
    SentUnique,
    /// The send failed and the value came back.
    Refused,
}

/// Something of the value is still in hand after `steps`.
pub open spec fn value_left(steps: Seq<Handoff>) -> bool {
    !(steps.len() > 0 && steps.last() == Handoff::SentUnique)
}

/// Every sender taken had been let go.
pub open spec fn all_canceled(steps: Seq<Handoff>) -> bool {
    forall|i: int| 0 <= i < steps.len() ==> #[trigger] steps[i] == Handoff::Canceled
}

/// The queue of `k` in `m`, or the empty queue.
pub open spec fn queue_of<T>(m: Map<u64, Seq<Sender<T>>>, k: u64) -> Seq<Sender<T>> {
    if m.contains_key(k) { m[k] } else { Seq::empty() }
}

impl<T> PoolInner<T> {
    /// The idle lists, by key.
    pub closed spec fn idle_view(&self) -> Map<u64, Seq<Idle<T>>> {
        self.idle@.map_values(|v: Vec<Idle<T>>| v@)
    }

    /// The queues of parked checkouts, by key, oldest first.
    pub closed spec fn waiters_view(&self) -> Map<u64, Seq<Sender<T>>> {
        self.waiters@.map_values(|q: VecDeque<Sender<T>>| q@)
    }

    /// The keys with a single-flight connect in progress.
    pub closed spec fn connecting_view(&self) -> Set<u64> {
        self.connecting@
    }

    pub closed spec fn max_idle(&self) -> nat {
        self.max_idle_per_host as nat
    }

    pub closed spec fn timeout(&self) -> Option<u64> {
        self.timeout
    }

    pub closed spec fn has_timer(&self) -> bool {
        self.has_timer
    }

    /// Whether the eviction task has been started (or ruled out).
    pub closed spec fn interval_started(&self) -> bool {
        self.idle_interval_ref is Some
    }

    /// The pool's invariant: lists within the cap, and no empty list or queue
    /// left in either map.
    pub open spec fn wf(&self) -> bool {
        &&& self.max_idle() > 0
        &&& forall|k: u64| #[trigger]
            self.idle_view().contains_key(k) ==> 0 < self.idle_view()[k].len() <= self.max_idle()
        &&& forall|k: u64| #[trigger]
            self.waiters_view().contains_key(k) ==> self.waiters_view()[k].len() > 0
    }

    /// The configuration and the task's state are the same in both.
    pub open spec fn same_setup(&self, other: &Self) -> bool {
        &&& self.max_idle() == other.max_idle()
        &&& self.timeout() == other.timeout()
        &&& self.has_timer() == other.has_timer()
    }

    /// Whether the eviction task is still to be started: none yet, a
    /// positive timeout, and a timer.
    pub open spec fn wants_interval(&self) -> bool {
        &&& !self.interval_started()
        &&& self.has_timer()
        &&& (self.timeout() matches Some(d) && d > 0)
    }

    /// Starting the eviction task with `iv` is what this state asks for: none
    /// started yet, a positive timeout, a timer, and a period of the timeout
    /// but no less than the minimum.
    pub open spec fn spawns(&self, iv: IdleInterval) -> bool {
        &&& !self.interval_started()
        &&& self.has_timer()
        &&& (self.timeout() matches Some(d) && d > 0 && iv.duration == max_u64(d, MIN_CHECK_NS))
    }

    /// What a non-dropped offer of `value` for `key` at `now` does, `after`
    /// being the new state and `r` the eviction task it asks for: on top of
    /// the handoff that `steps` records (see [`handoff_effect`]), other keys
    /// are untouched, the list of `key` grows by at most one entry, a list
    /// that grows leaves no checkout parked and asks for the eviction task
    /// exactly when it is still to be started, and a key with neither idle
    /// values nor parked checkouts gets exactly `value`.
    pub open spec fn offer_effect(
        &self,
        after: &Self,
        key: u64,
        value: T,
        now: u64,
        r: Option<IdleInterval>,
    ) -> bool {
        &&& after.wf()
        &&& after.same_setup(self)
        &&& after.connecting_view() == self.connecting_view()
        &&& after.idle_view().remove(key) == self.idle_view().remove(key)
        &&& after.waiters_view().remove(key) == self.waiters_view().remove(key)
        &&& grown_by_one(
            list_of(self.idle_view(), key),
            list_of(after.idle_view(), key),
            now,
            self.max_idle(),
        )
        &&& (list_of(after.idle_view(), key) != list_of(self.idle_view(), key)
            ==> !after.waiters_view().contains_key(key))
        &&& exists|steps: Seq<Handoff>| #[trigger] self.handoff_effect(after, key, value, now, steps)
        &&& (!self.waiters_view().contains_key(key) && !self.idle_view().contains_key(key)
            ==> list_of(after.idle_view(), key) == seq![(Idle { value, idle_at: now })])
        &&& (r matches Some(iv) ==> self.spawns(iv))
        &&& (list_of(after.idle_view(), key).len() > list_of(self.idle_view(), key).len() ==> (r is Some
            <==> self.wants_interval()))
        &&& after.interval_started() == (self.interval_started() || r is Some)
    }

    /// The handoff of an offer, `steps` recording what became of each sender
    /// taken off the queue of `key`, oldest first: the senders are taken in
    /// order and the rest of the queue stays as it was; only a send of a
    /// unique reservation uses the value up, and it ends the handoff; while
    /// something is left the whole queue is tried; what is left joins the
    /// idle list when there is room, and is `value` itself when every sender
    /// taken had been let go.
    pub open spec fn handoff_effect(
        &self,
        after: &Self,
        key: u64,
        value: T,
        now: u64,
        steps: Seq<Handoff>,
    ) -> bool {
        let q0 = queue_of(self.waiters_view(), key);
        let l0 = list_of(self.idle_view(), key);
        let l1 = list_of(after.idle_view(), key);
        &&& steps.len() <= q0.len()
        &&& queue_of(after.waiters_view(), key) == q0.skip(steps.len() as int)
        &&& forall|i: int| 0 <= i < steps.len() - 1 ==> #[trigger] steps[i] != Handoff::SentUnique
        &&& (value_left(steps) ==> steps.len() == q0.len())
        &&& (!value_left(steps) ==> l1 == l0)
        &&& (value_left(steps) && l0.len() < self.max_idle() ==> l1.len() == l0.len() + 1)
        &&& (value_left(steps) && all_canceled(steps) && l0.len() < self.max_idle() ==> l1
            == l0.push((Idle { value, idle_at: now })))
    }

    /// What putting `value` back for `key` at `now` does: nothing at all
    /// when the value is shareable and `key` already has an idle entry,
    /// [`PoolInner::offer_effect`] otherwise.
    pub open spec fn put_effect(
        &self,
        after: &Self,
        key: u64,
        value: T,
        now: u64,
        r: Option<IdleInterval>,
    ) -> bool {
        ||| (self.idle_view().contains_key(key) && *after == *self && r is None)
        ||| self.offer_effect(after, key, value, now, r)
    }

    /// Makes the state of a pool, or `None` when the configuration disables it.
    pub fn new(config: Config, has_timer: bool) -> (r: Option<PoolInner<T>>)
        ensures
            r is None <==> !config.enabled(),
            r matches Some(p) ==> {
                &&& p.wf()
                &&& p.idle_view() == Map::<u64, Seq<Idle<T>>>::empty()
                &&& p.waiters_view() == Map::<u64, Seq<Sender<T>>>::empty()
                &&& p.connecting_view() == Set::<u64>::empty()
                &&& p.max_idle() == config.max_idle_per_host
                &&& p.timeout() == config.idle_timeout
                &&& p.has_timer() == has_timer
                &&& !p.interval_started()
            },
    {
        if !config.is_enabled() {
            return None;
        }
        let p = PoolInner {
            connecting: HashSet::new(),
            idle: HashMap::new(),
            max_idle_per_host: config.max_idle_per_host,
            waiters: HashMap::new(),
            idle_interval_ref: None,
            has_timer,
            timeout: config.idle_timeout,
        };
        assert(p.idle_view() =~= Map::<u64, Seq<Idle<T>>>::empty());
        assert(p.waiters_view() =~= Map::<u64, Seq<Sender<T>>>::empty());
        Some(p)
    }

    /// The idle timeout of the pool, in nanoseconds.
    pub fn idle_timeout(&self) -> (r: Option<u64>)
        ensures
            r == self.timeout(),
    {
        self.timeout
    }

    /// The number of idle values for `key`.
    pub fn idle_count(&self, key: u64) -> (r: usize)
        ensures
            r == list_of(self.idle_view(), key).len(),
    {
        match self.idle.get(&key) {
            Some(list) => list.len(),
            None => 0,
        }
    }

    /// Whether the idle map has an entry for `key`.
    pub fn has_idle(&self, key: u64) -> (r: bool)
        ensures
            r == self.idle_view().contains_key(key),
    {
        self.idle.contains_key(&key)
    }

    /// The number of checkouts parked on `key`.
    pub fn waiter_count(&self, key: u64) -> (r: usize)
        ensures
            r == (if self.waiters_view().contains_key(key) {
                self.waiters_view()[key].len()
            } else {
                0
            }),
    {
        match self.waiters.get(&key) {
            Some(queue) => queue.len(),
            None => 0,
        }
    }

    /// Whether the waiter map has an entry for `key`.
    pub fn has_waiters(&self, key: u64) -> (r: bool)
        ensures
            r == self.waiters_view().contains_key(key),
    {
        self.waiters.contains_key(&key)
    }

    /// Whether a single-flight connect is in progress for `key`.
    pub fn is_connecting(&self, key: u64) -> (r: bool)
        ensures
            r == self.connecting_view().contains(key),
    {
        self.connecting.contains(&key)
    }

    /// Claims the single-flight slot of `key`: true when it was free and is
    /// now taken, false when another connect already holds it.
    pub fn begin_connecting(&mut self, key: u64) -> (r: bool)
        requires
            old(self).wf(),
        ensures
            final(self).wf(),
            final(self).same_setup(old(self)),
            r == !old(self).connecting_view().contains(key),
            final(self).connecting_view() == old(self).connecting_view().insert(key),
            final(self).idle_view() == old(self).idle_view(),
            final(self).waiters_view() == old(self).waiters_view(),
            final(self).interval_started() == old(self).interval_started(),
    {
        let r = self.connecting.insert(key);
        assert(self.idle_view() == old(self).idle_view());
        assert(self.waiters_view() == old(self).waiters_view());
        assert(self.max_idle() == old(self).max_idle());
        r
    }

    /// Starts a connect for `key`. Over HTTP/2 only one connect per key may be
    /// in progress: `Some(true)` when this one took the slot (its token must
    /// free it), `None` when another holds it. Other versions connect freely:
    /// `Some(false)`, a token with nothing to free.
    pub fn connecting(&mut self, key: u64, ver: Ver) -> (r: Option<bool>)
        requires
            old(self).wf(),
        ensures
            final(self).wf(),
            final(self).same_setup(old(self)),
            final(self).idle_view() == old(self).idle_view(),
            final(self).waiters_view() == old(self).waiters_view(),
            final(self).interval_started() == old(self).interval_started(),
            ver == Ver::Http2 ==> {
                &&& r == (if old(self).connecting_view().contains(key) {
                    None::<bool>
                } else {
                    Some(true)
                })
                &&& final(self).connecting_view() == old(self).connecting_view().insert(key)
            },
            ver != Ver::Http2 ==> {
                &&& r == Some(false)
                &&& final(self).connecting_view() == old(self).connecting_view()
            },
    {
        if ver == Ver::Http2 {
            if self.begin_connecting(key) {
                Some(true)
            } else {
                None
            }
        } else {
            Some(false)
        }
    }

    /// A single-flight connect for `key` is over: the slot is freed and the
    /// checkouts parked on `key` are let go, since this attempt will not
    /// serve them.
    pub fn connected(&mut self, key: u64)
        requires
            old(self).wf(),
        ensures
            final(self).wf(),
            final(self).same_setup(old(self)),
            final(self).connecting_view() == old(self).connecting_view().remove(key),
            final(self).waiters_view() == old(self).waiters_view().remove(key),
            final(self).idle_view() == old(self).idle_view(),
            final(self).interval_started() == old(self).interval_started(),
    {
        self.connecting.remove(&key);
        self.waiters.remove(&key);
        assert(self.waiters_view() =~= old(self).waiters_view().remove(key));
        assert(self.idle_view() == old(self).idle_view());
        assert(self.max_idle() == old(self).max_idle());
    }
}

impl<T: Poolable> PoolInner<T> {
    /// Starts the eviction task once: returns what the executor must run
    /// when the pool has a positive timeout and a timer and no task yet.
    pub fn spawn_idle_interval(&mut self) -> (r: Option<IdleInterval>)
        requires
            old(self).wf(),
        ensures
            final(self).wf(),
            final(self).same_setup(old(self)),
            final(self).idle_view() == old(self).idle_view(),
            final(self).waiters_view() == old(self).waiters_view(),
            final(self).connecting_view() == old(self).connecting_view(),
            r is Some <==> old(self).wants_interval(),
            r matches Some(iv) ==> old(self).spawns(iv),
            final(self).interval_started() == (old(self).interval_started() || r is Some),
    {
        if self.idle_interval_ref.is_some() {
            return None;
        }
        let dur = match self.timeout {
            Some(d) => d,
            None => {
                return None;
            },
        };
        if dur == 0 || !self.has_timer {
            return None;
        }
        let duration: u64 = if dur >= MIN_CHECK_NS { dur } else { MIN_CHECK_NS };
        let (tx, rx) = futures_channel::oneshot::channel();
        self.idle_interval_ref = Some(tx);
        assert(self.idle_view() == old(self).idle_view());
        assert(self.waiters_view() == old(self).waiters_view());
        Some(IdleInterval { duration, pool_drop_notifier: rx })
    }

    /// Marks the eviction task as started without starting one, so that no
    /// task ever runs for this pool.
    pub fn no_timer(&mut self)
        requires
            old(self).wf(),
        ensures
            final(self).wf(),
            final(self).same_setup(old(self)),
            final(self).idle_view() == old(self).idle_view(),
            final(self).waiters_view() == old(self).waiters_view(),
            final(self).connecting_view() == old(self).connecting_view(),
            final(self).interval_started(),
    {
        let (tx, _rx) = futures_channel::oneshot::channel();
        self.idle_interval_ref = Some(tx);
        assert(self.idle_view() == old(self).idle_view());
        assert(self.waiters_view() == old(self).waiters_view());
    }

    /// Offers a value for `key` to the pool; `shareable` is what the value
    /// said of itself. A shareable value is dropped when `key` already has an
    /// idle entry. Otherwise the parked checkouts of `key` are served first,
    /// oldest first, skipping those that were let go; what is left of the
    /// value joins the idle list while the list is under the cap, and is
    /// dropped otherwise.
    pub fn offer(&mut self, key: u64, value: T, shareable: bool, now: u64) -> (r: Option<
        IdleInterval,
    >)
        requires
            old(self).wf(),
        ensures
            shareable && old(self).idle_view().contains_key(key) ==> *final(self) == *old(self)
                && r is None,
            !(shareable && old(self).idle_view().contains_key(key)) ==> old(self).offer_effect(
                final(self),
                key,
                value,
                now,
                r,
            ),
    {
        if shareable && self.idle.contains_key(&key) {
            return None;
        }
        let ghost w0 = self.waiters_view();
        let ghost q0 = queue_of(w0, key);
        let ghost v0 = value;
        let ghost mut steps: Seq<Handoff> = Seq::empty();
        let mut value: Option<T> = Some(value);
        match self.waiters.remove(&key) {
            None => {
                assert(self.waiters_view() =~= w0);
            },
            Some(queue) => {
                let mut queue = queue;
                assert(queue@ == q0);
                assert(self.waiters_view() =~= w0.remove(key));
                assert(queue@ =~= q0.skip(0));
                assert(self.idle_view() == old(self).idle_view());
                assert(self.max_idle() == old(self).max_idle());
                assert forall|k: u64| #[trigger] self.waiters_view().contains_key(k) implies self.waiters_view()[k].len() > 0 by {
                    assert(old(self).waiters_view().contains_key(k));
                }
                while value.is_some() && queue.len() > 0
                    invariant
                        w0 == old(self).waiters_view(),
                        w0.contains_key(key) && w0[key] == q0,
                        self.waiters_view() == w0.remove(key),
                        self.idle_view() == old(self).idle_view(),
                        self.same_setup(old(self)),
                        self.connecting_view() == old(self).connecting_view(),
                        self.interval_started() == old(self).interval_started(),
                        self.wf(),
                        steps.len() + queue@.len() == q0.len(),
                        queue@ == q0.skip(steps.len() as int),
                        value is None <==> !value_left(steps),
                        forall|i: int|
                            0 <= i < steps.len() - 1 ==> #[trigger] steps[i] != Handoff::SentUnique,
                        all_canceled(steps) ==> value == Some(v0),
                    decreases queue@.len(),
                {
                    let tx = queue.pop_front().unwrap();
                    assert(queue@ =~= q0.skip(steps.len() as int + 1));
                    if !tx.is_canceled() {
                        let v = value.take().unwrap();
                        let mut shared = false;
                        let to_send = match v.reserve() {
                            Reservation::Shared(keep, give) => {
                                value = Some(keep);
                                shared = true;
                                give
                            },
                            Reservation::Unique(u) => u,
                        };
                        match tx.send(to_send) {
                            Ok(()) => {
                                proof {
                                    steps = steps.push(
                                        if shared {
                                            Handoff::SentShared
                                        } else {
                                            Handoff::SentUnique
                                        },
                                    );
                                }
                            },
                            Err(back) => {
                                value = Some(back);
                                proof {
                                    steps = steps.push(Handoff::Refused);
                                }
                            },
                        }
                        assert(!all_canceled(steps)) by {
                            assert(steps[steps.len() - 1] != Handoff::Canceled);
                        }
                    } else {
                        proof {
                            let prev = steps;
                            steps = steps.push(Handoff::Canceled);
                            if all_canceled(steps) {
                                assert forall|i: int| 0 <= i < prev.len() implies #[trigger] prev[i]
                                    == Handoff::Canceled by {
                                    assert(steps[i] == prev[i]);
                                }
                            }
                        }
                    }
                }
                if queue.len() > 0 {
                    self.waiters.insert(key, queue);
                    assert(self.waiters_view() =~= w0.insert(key, queue@));
                } else {
                    assert(self.waiters_view() =~= w0.remove(key));
                }
            },
        }
        assert(queue_of(self.waiters_view(), key) =~= q0.skip(steps.len() as int));
        assert(self.waiters_view().remove(key) =~= old(self).waiters_view().remove(key));
        assert(self.idle_view() == old(self).idle_view());
        assert(self.max_idle() == old(self).max_idle());
        assert forall|k: u64| #[trigger] self.waiters_view().contains_key(k) implies self.waiters_view()[k].len() > 0 by {
            if k != key {
                assert(old(self).waiters_view().contains_key(k));
            }
        }
        assert(self.wf());
        let ghost i0 = self.idle_view();
        let ghost mid = *self;
        match value {
            None => {
                assert(old(self).handoff_effect(self, key, v0, now, steps));
                None
            },
            Some(v) => {
                let mut list = match self.idle.remove(&key) {
                    Some(l) => l,
                    None => Vec::new(),
                };
                assert(list@ == list_of(i0, key));
                assert(self.idle_view() =~= i0.remove(key));
                if list.len() >= self.max_idle_per_host {
                    self.idle.insert(key, list);
                    assert(self.idle_view() =~= i0);
                    assert(old(self).handoff_effect(self, key, v0, now, steps));
                    return None;
                }
                list.push(Idle { value: v, idle_at: now });
                self.idle.insert(key, list);
                assert(self.idle_view() =~= i0.insert(key, list@));
                assert(list@.drop_last() =~= list_of(i0, key));
                assert(self.wf());
                assert(old(self).handoff_effect(self, key, v0, now, steps));
                assert(self.idle_view().remove(key) =~= old(self).idle_view().remove(key));
                let r = self.spawn_idle_interval();
                assert(old(self).handoff_effect(self, key, v0, now, steps));
                r
            },
        }
    }

    /// Puts a value back for `key`: [`PoolInner::offer`] with what the value
    /// says of sharing.
    pub fn put(&mut self, key: u64, value: T, now: u64) -> (r: Option<IdleInterval>)
        requires
            old(self).wf(),
        ensures
            old(self).put_effect(final(self), key, value, now, r),
    {
        let shareable = value.can_share();
        let r = self.offer(key, value, shareable, now);
        assert(Seq::<Idle<T>>::empty().push(Idle { value, idle_at: now }) =~= seq![Idle { value, idle_at: now }]);
        r
    }

    /// Asks every idle value of `key` whether it is open, oldest first.
    pub fn open_flags(&self, key: u64) -> (r: Vec<bool>)
        ensures
            r@.len() == list_of(self.idle_view(), key).len(),
    {
        match self.idle.get(&key) {
            Some(list) => IdlePopper::open_flags(list),
            None => Vec::new(),
        }
    }

    /// What a checkout of `key` at `now` does, `open` being the idle values'
    /// answers to `is_open`: the newest usable value is taken, those above it
    /// are dropped, and an emptied list is removed; with none usable the list
    /// goes. A receiver comes back exactly when nothing was found and the
    /// caller had none (`has_waiter` false); its sender joins the end of the
    /// queue of `key`.
    pub open spec fn checkout_effect(
        &self,
        after: &Self,
        key: u64,
        open: Seq<bool>,
        now: u64,
        has_waiter: bool,
        r: (Option<T>, Option<Receiver<T>>),
    ) -> bool {
        let l0 = list_of(self.idle_view(), key);
        &&& after.wf()
        &&& after.same_setup(self)
        &&& after.connecting_view() == self.connecting_view()
        &&& after.interval_started() == self.interval_started()
        &&& after.idle_view().remove(key) == self.idle_view().remove(key)
        &&& after.waiters_view().remove(key) == self.waiters_view().remove(key)
        &&& match newest_usable(l0, open, self.timeout(), now, l0.len() as int) {
            None => r.0 is None && !after.idle_view().contains_key(key),
            Some(i) => {
                &&& r.0 is Some
                &&& usable(l0, open, self.timeout(), now, i)
                &&& cut_to(l0, list_of(after.idle_view(), key), i, now)
            },
        }
        &&& (r.1 is Some <==> (r.0 is None && !has_waiter))
        &&& (r.1 is Some ==> {
            &&& after.waiters_view().contains_key(key)
            &&& after.waiters_view()[key].len() == queue_of(self.waiters_view(), key).len() + 1
            &&& after.waiters_view()[key].drop_last() == queue_of(self.waiters_view(), key)
        })
        &&& (r.1 is None ==> after.waiters_view() == self.waiters_view())
    }

    /// Checks out `key` at `now`, `open` being the answers of its idle values
    /// to `is_open` (see [`PoolInner::open_flags`]); the value taken is
    /// reserved as it asks.
    pub fn checkout_with(&mut self, key: u64, open: &Vec<bool>, now: u64, has_waiter: bool) -> (r: (
        Option<T>,
        Option<Receiver<T>>,
    ))
        requires
            old(self).wf(),
            open@.len() == list_of(old(self).idle_view(), key).len(),
        ensures
            old(self).checkout_effect(final(self), key, open@, now, has_waiter, r),
    {
        let expiration = Expiration::new(self.timeout);
        let ghost i0 = self.idle_view();
        let ghost l0 = list_of(i0, key);
        let entry = match self.idle.remove(&key) {
            None => {
                assert(self.idle_view() =~= i0);
                None
            },
            Some(list) => {
                let mut list = list;
                assert(list@ == l0);
                assert(self.idle_view() =~= i0.remove(key));
                let taken = IdlePopper::take_newest(&mut list, open, &expiration, now);
                let value = match taken {
                    Some(entry) => {
                        let res = entry.value.reserve();
                        Some(IdlePopper::settle(res, &mut list, now))
                    },
                    None => None,
                };
                proof {
                    lemma_newest_usable_in_range(l0, open@, self.timeout, now, l0.len() as int);
                    if let Some(i) = newest_usable(l0, open@, self.timeout, now, l0.len() as int) {
                        assert(list@.take(i) =~= l0.take(i));
                        assert(list@.len() <= i + 1);
                    }
                }
                if list.len() > 0 {
                    self.idle.insert(key, list);
                    assert(self.idle_view() =~= i0.remove(key).insert(key, list@));
                }
                assert(list_of(self.idle_view(), key) =~= list@);
                value
            },
        };
        assert(self.idle_view().remove(key) =~= i0.remove(key));
        assert(self.waiters_view() == old(self).waiters_view());
        assert(self.max_idle() == old(self).max_idle());
        assert(self.wf());
        if entry.is_none() && !has_waiter {
            let (tx, rx) = futures_channel::oneshot::channel();
            let ghost w0 = self.waiters_view();
            let mut queue = match self.waiters.remove(&key) {
                Some(q) => q,
                None => VecDeque::new(),
            };
            assert(queue@ == queue_of(w0, key));
            queue.push_back(tx);
            self.waiters.insert(key, queue);
            assert(self.waiters_view() =~= w0.insert(key, queue@));
            assert(queue@.drop_last() =~= queue_of(w0, key));
            assert(self.waiters_view().remove(key) =~= w0.remove(key));
            (entry, Some(rx))
        } else {
            (entry, None)
        }
    }

    /// Checks out `key` at `now`: [`PoolInner::checkout_with`] with the idle
    /// values' own answers to `is_open`.
    pub fn checkout(&mut self, key: u64, now: u64, has_waiter: bool) -> (r: (
        Option<T>,
        Option<Receiver<T>>,
    ))
        requires
            old(self).wf(),
        ensures
            exists|open: Seq<bool>|
                open.len() == list_of(old(self).idle_view(), key).len()
                    && #[trigger] old(self).checkout_effect(final(self), key, open, now, has_waiter, r),
    {
        let open = self.open_flags(key);
        self.checkout_with(key, &open, now, has_waiter)
    }

    /// Asks every sender queued for `key` whether its checkout is still
    /// there, oldest first: true for a live one.
    pub fn live_flags(&self, key: u64) -> (r: Vec<bool>)
        ensures
            r@.len() == queue_of(self.waiters_view(), key).len(),
    {
        let mut r: Vec<bool> = Vec::new();
        match self.waiters.get(&key) {
            Some(queue) => {
                let mut i: usize = 0;
                while i < queue.len()
                    invariant
                        i <= queue@.len(),
                        r@.len() == i,
                    decreases queue@.len() - i,
                {
                    r.push(!queue[i].is_canceled());
                    i = i + 1;
                }
            },
            None => {},
        }
        r
    }

    /// Keeps, in order, the senders of `key` flagged live in `live`, and
    /// removes the queue when none is left.
    pub fn drop_canceled(&mut self, key: u64, live: &Vec<bool>)
        requires
            old(self).wf(),
            live@.len() == queue_of(old(self).waiters_view(), key).len(),
        ensures
            final(self).wf(),
            final(self).same_setup(old(self)),
            final(self).connecting_view() == old(self).connecting_view(),
            final(self).interval_started() == old(self).interval_started(),
            final(self).idle_view() == old(self).idle_view(),
            final(self).waiters_view().remove(key) == old(self).waiters_view().remove(key),
            queue_of(final(self).waiters_view(), key) == kept(
                queue_of(old(self).waiters_view(), key),
                live@,
                live@.len() as int,
            ),
    {
        let ghost w0 = self.waiters_view();
        match self.waiters.remove(&key) {
            None => {
                assert(self.waiters_view() =~= w0);
            },
            Some(queue) => {
                let mut queue = queue;
                let ghost q0 = queue@;
                assert(self.waiters_view() =~= w0.remove(key));
                let mut out: VecDeque<Sender<T>> = VecDeque::new();
                let mut i: usize = 0;
                let total = queue.len();
                assert(queue@ =~= q0.skip(0));
                while queue.len() > 0
                    invariant
                        total == q0.len(),
                        live@.len() == q0.len(),
                        i + queue@.len() == q0.len(),
                        queue@ == q0.skip(i as int),
                        out@ == kept(q0, live@, i as int),
                    decreases queue@.len(),
                {
                    let tx = queue.pop_front().unwrap();
                    assert(q0[i as int] == tx);
                    assert(queue@ =~= q0.skip(i + 1));
                    if live[i] {
                        out.push_back(tx);
                    }
                    i = i + 1;
                }
                if out.len() > 0 {
                    self.waiters.insert(key, out);
                    assert(self.waiters_view() =~= w0.insert(key, out@));
                }
            },
        }
        assert(self.waiters_view().remove(key) =~= w0.remove(key));
        assert(self.idle_view() == old(self).idle_view());
        assert(self.max_idle() == old(self).max_idle());
    }

    /// Drops the senders of `key` whose checkouts were let go, and the queue
    /// itself once it is empty: [`PoolInner::drop_canceled`] with the
    /// senders' own answers.
    pub fn clean_waiters(&mut self, key: u64)
        requires
            old(self).wf(),
        ensures
            final(self).wf(),
            final(self).same_setup(old(self)),
            final(self).connecting_view() == old(self).connecting_view(),
            final(self).interval_started() == old(self).interval_started(),
            final(self).idle_view() == old(self).idle_view(),
            final(self).waiters_view().remove(key) == old(self).waiters_view().remove(key),
            exists|live: Seq<bool>|
                live.len() == queue_of(old(self).waiters_view(), key).len() && queue_of(
                    final(self).waiters_view(),
                    key,
                ) == #[trigger] kept(queue_of(old(self).waiters_view(), key), live, live.len() as int),
    {
        let live = self.live_flags(key);
        self.drop_canceled(key, &live);
    }

    /// Keeps of `list`, in order, the entries that said they are open (in
    /// `open`) and have not expired at `now`.
    pub fn retain_fresh(list: Vec<Idle<T>>, open: &Vec<bool>, expiration: &Expiration, now: u64) -> (r:
        Vec<Idle<T>>)
        requires
            open@.len() == list@.len(),
        ensures
            r@ == kept(list@, fresh_flags(list@, open@, expiration.0, now), list@.len() as int),
    {
        let mut list = list;
        let ghost l0 = list@;
        let ghost flags = fresh_flags(l0, open@, expiration.0, now);
        let total = list.len();
        let mut out: Vec<Idle<T>> = Vec::new();
        let mut i: usize = 0;
        assert(list@ =~= l0.skip(0));
        while list.len() > 0
            invariant
                total == l0.len(),
                open@.len() == l0.len(),
                flags == fresh_flags(l0, open@, expiration.0, now),
                i + list@.len() == l0.len(),
                list@ == l0.skip(i as int),
                out@ == kept(l0, flags, i as int),
            decreases list@.len(),
        {
            let entry = list.remove(0);
            assert(l0[i as int] == entry);
            assert(list@ =~= l0.skip(i + 1));
            if open[i] && !expiration.expires(entry.idle_at, now) {
                out.push(entry);
            }
            i = i + 1;
        }
        out
    }

    /// Evicts from every idle list the values that are closed or have been
    /// idle longer than the timeout at `now`, keeping the others in order,
    /// and removes the lists left empty. Each value is asked whether it is
    /// open; whatever it answers, the result is such a filter.
    pub fn clear_expired(&mut self, now: u64)
        requires
            old(self).wf(),
            old(self).timeout() is Some,
        ensures
            final(self).wf(),
            final(self).same_setup(old(self)),
            final(self).connecting_view() == old(self).connecting_view(),
            final(self).interval_started() == old(self).interval_started(),
            final(self).waiters_view() == old(self).waiters_view(),
            final(self).idle_view().dom().subset_of(old(self).idle_view().dom()),
            forall|k: u64|
                #![trigger old(self).idle_view()[k]]
                old(self).idle_view().contains_key(k) ==> evicted_from(
                    old(self).idle_view()[k],
                    list_of(final(self).idle_view(), k),
                    old(self).timeout(),
                    now,
                ),
    {
        let expiration = Expiration::new(self.timeout);
        let mut keys: Vec<u64> = Vec::new();
        for k in it: self.idle.keys()
            invariant
                keys@.len() == it.index(),
        {
            keys.push(*k);
        }
        let ghost i0 = self.idle@;
        assert forall|k: u64| #[trigger] i0.contains_key(k) implies 0 < i0[k]@.len() <= self.max_idle() by {
            assert(self.idle_view().contains_key(k));
        }
        let mut fresh: HashMap<u64, Vec<Idle<T>>> = HashMap::new();
        let mut n: usize = 0;
        while n < keys.len()
            invariant
                self.wf(),
                self.same_setup(old(self)),
                self.connecting_view() == old(self).connecting_view(),
                self.interval_started() == old(self).interval_started(),
                self.waiters_view() == old(self).waiters_view(),
                expiration.0 == self.timeout(),
                i0 == old(self).idle@,
                forall|k: u64| #[trigger] i0.contains_key(k) ==> 0 < i0[k]@.len() <= self.max_idle(),
                forall|k: u64| #[trigger]
                    self.idle@.contains_key(k) ==> i0.contains_key(k) && self.idle@[k] == i0[k],
                forall|k: u64| #[trigger]
                    fresh@.contains_key(k) ==> {
                        &&& i0.contains_key(k)
                        &&& !self.idle@.contains_key(k)
                        &&& 0 < fresh@[k]@.len() <= i0[k]@.len()
                    },
                forall|k: u64| #[trigger]
                    i0.contains_key(k) && !self.idle@.contains_key(k) ==> evicted_from(
                        i0[k]@,
                        if fresh@.contains_key(k) { fresh@[k]@ } else { Seq::empty() },
                        expiration.0,
                        now,
                    ),
            decreases keys@.len() - n,
        {
            let key = keys[n];
            let ghost before = self.idle@;
            let ghost fresh0 = fresh@;
            match self.idle.remove(&key) {
                None => {},
                Some(list) => {
                    assert(self.idle@ == before.remove(key));
                    let open = IdlePopper::open_flags(&list);
                    let ghost lv = list@;
                    let kept_list = Self::retain_fresh(list, &open, &expiration, now);
                    proof {
                        lemma_kept_len(lv, fresh_flags(lv, open@, expiration.0, now), lv.len() as int);
                        assert(evicted_from(lv, kept_list@, expiration.0, now));
                    }
                    let ghost kv = kept_list@;
                    if kept_list.len() > 0 {
                        fresh.insert(key, kept_list);
                    }
                    assert(lv == i0[key]@);
                    assert(!fresh0.contains_key(key));
                    proof {
                        if kv.len() == 0 {
                            assert(kv =~= Seq::<Idle<T>>::empty());
                        }
                    }
                    assert(evicted_from(
                        i0[key]@,
                        if fresh@.contains_key(key) { fresh@[key]@ } else { Seq::empty() },
                        expiration.0,
                        now,
                    ));
                },
            }
            assert forall|k: u64| #[trigger]
                i0.contains_key(k) && !self.idle@.contains_key(k) implies evicted_from(
                i0[k]@,
                if fresh@.contains_key(k) { fresh@[k]@ } else { Seq::empty() },
                expiration.0,
                now,
            ) by {
                if k != key {
                    assert(!before.contains_key(k));
                    assert(fresh@.contains_key(k) == fresh0.contains_key(k));
                    if fresh0.contains_key(k) {
                        assert(fresh@[k] == fresh0[k]);
                    }
                }
            }
            assert forall|k: u64| #[trigger]
                self.idle_view().contains_key(k) implies 0 < self.idle_view()[k].len()
                <= self.max_idle() by {
                assert(self.idle@.contains_key(k));
            }
            n = n + 1;
        }
        proof {
            assert forall|k: u64| #[trigger]
                i0.contains_key(k) && self.idle@.contains_key(k) implies evicted_from(
                    i0[k]@,
                    Seq::empty(),
                    expiration.0,
                    now,
                ) by {
                let none = Seq::new(i0[k]@.len(), |i: int| false);
                lemma_kept_none(
                    i0[k]@,
                    fresh_flags(i0[k]@, none, expiration.0, now),
                    i0[k]@.len() as int,
                );
                assert(Seq::<Idle<T>>::empty() == kept(
                    i0[k]@,
                    fresh_flags(i0[k]@, none, expiration.0, now),
                    i0[k]@.len() as int,
                ));
            }
        }
        self.idle = fresh;
        assert forall|k: u64| #[trigger]
            self.idle_view().contains_key(k) implies 0 < self.idle_view()[k].len()
            <= self.max_idle() by {
            assert(fresh@.contains_key(k));
        }
        assert forall|k: u64| #![trigger old(self).idle_view()[k]]
            old(self).idle_view().contains_key(k) implies evicted_from(
                old(self).idle_view()[k],
                list_of(self.idle_view(), k),
                old(self).timeout(),
                now,
            ) by {
            assert(i0.contains_key(k));
            assert(old(self).idle_view()[k] == i0[k]@);
        }
    }

    /// A handle for `key` is done with `value`, which said `open` when asked
    /// whether it is open: a closed value is dropped and the pool is left as
    /// it was; an open one is put back.
    pub fn release_checked(&mut self, key: u64, value: T, open: bool, now: u64) -> (r: Option<
        IdleInterval,
    >)
        requires
            old(self).wf(),
        ensures
            !open ==> *final(self) == *old(self) && r is None,
            open ==> old(self).put_effect(final(self), key, value, now, r),
    {
        if !open {
            return None;
        }
        self.put(key, value, now)
    }

    /// A handle for `key` is done with `value`: [`PoolInner::release_checked`]
    /// with the value's own answer to `is_open`.
    pub fn release(&mut self, key: u64, value: T, now: u64) -> (r: Option<IdleInterval>)
        requires
            old(self).wf(),
        ensures
            (*final(self) == *old(self) && r is None) || old(self).put_effect(
                final(self),
                key,
                value,
                now,
                r,
            ),
    {
        let open = value.is_open();
        self.release_checked(key, value, open, now)
    }

    /// Takes in a value just connected for `key`, reserved as `res`. A
    /// unique reservation leaves the pool as it is, and its handle goes back
    /// to the pool when dropped. A shared one puts its kept half in the pool,
    /// ends the single-flight connect of `key`, and hands out the other half
    /// with no way back to the pool.
    pub fn pooled_reserved(&mut self, key: u64, res: Reservation<T>, now: u64) -> (r: NewPooled<T>)
        requires
            old(self).wf(),
        ensures
            final(self).wf(),
            final(self).same_setup(old(self)),
            res matches Reservation::Unique(v) ==> {
                &&& r.value == v
                &&& r.pool_ref
                &&& r.interval is None
                &&& *final(self) == *old(self)
            },
            res matches Reservation::Shared(keep, give) ==> {
                &&& r.value == give
                &&& !r.pool_ref
                &&& final(self).connecting_view() == old(self).connecting_view().remove(key)
                &&& final(self).waiters_view() == old(self).waiters_view().remove(key)
                &&& final(self).idle_view().remove(key) == old(self).idle_view().remove(key)
                &&& grown_by_one(
                    list_of(old(self).idle_view(), key),
                    list_of(final(self).idle_view(), key),
                    now,
                    old(self).max_idle(),
                )
                &&& (!old(self).waiters_view().contains_key(key) && !old(
                    self,
                ).idle_view().contains_key(key) ==> list_of(final(self).idle_view(), key)
                    == seq![(Idle { value: keep, idle_at: now })])
                &&& (r.interval matches Some(iv) ==> old(self).spawns(iv))
                &&& final(self).interval_started() == (old(self).interval_started()
                    || r.interval is Some)
            },
    {
        match res {
            Reservation::Shared(keep, give) => {
                let interval = self.put(key, keep, now);
                let ghost mid = self.waiters_view();
                self.connected(key);
                assert(self.waiters_view() =~= old(self).waiters_view().remove(key)) by {
                    assert(mid.remove(key) == old(self).waiters_view().remove(key));
                }
                NewPooled { value: give, pool_ref: false, interval }
            },
            Reservation::Unique(v) => NewPooled { value: v, pool_ref: true, interval: None },
        }
    }

    /// Takes in a value just connected for `key`:
    /// [`PoolInner::pooled_reserved`] with the value's own reservation.
    pub fn pooled(&mut self, key: u64, value: T, now: u64) -> (r: NewPooled<T>)
        requires
            old(self).wf(),
        ensures
            final(self).wf(),
            final(self).same_setup(old(self)),
            r.pool_ref ==> *final(self) == *old(self) && r.interval is None,
            !r.pool_ref ==> {
                &&& final(self).connecting_view() == old(self).connecting_view().remove(key)
                &&& final(self).waiters_view() == old(self).waiters_view().remove(key)
                &&& final(self).idle_view().remove(key) == old(self).idle_view().remove(key)
                &&& grown_by_one(
                    list_of(old(self).idle_view(), key),
                    list_of(final(self).idle_view(), key),
                    now,
                    old(self).max_idle(),
                )
                &&& (r.interval matches Some(iv) ==> old(self).spawns(iv))
                &&& final(self).interval_started() == (old(self).interval_started()
                    || r.interval is Some)
            },
    {
        let res = value.reserve();
        self.pooled_reserved(key, res, now)
    }
}

} // verus!
