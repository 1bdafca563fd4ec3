use conn_pool::{
    checkout_outcome, receive, waiter_outcome, Config, Error, Expiration, Idle, IdlePopper, PoolInner,
    Poolable, Reservation, Ver,
};

#[derive(Debug, PartialEq, Eq)]
struct Uniq(i32);

impl Poolable for Uniq {
    fn is_open(&self) -> bool {
        true
    }

    fn reserve(self) -> Reservation<Self> {
        Reservation::Unique(self)
    }

    fn can_share(&self) -> bool {
        false
    }
}

#[derive(Debug)]
struct CanClose {
    #[allow(unused)]
    val: i32,
    closed: bool,
}

impl Poolable for CanClose {
    fn is_open(&self) -> bool {
        !self.closed
    }

    fn reserve(self) -> Reservation<Self> {
        Reservation::Unique(self)
    }

    fn can_share(&self) -> bool {
        false
    }
}

#[derive(Debug, Clone, PartialEq, Eq)]
struct Multi(i32);

impl Poolable for Multi {
    fn is_open(&self) -> bool {
        true
    }

    fn reserve(self) -> Reservation<Self> {
        Reservation::Shared(self.clone(), self)
    }

    fn can_share(&self) -> bool {
        true
    }
}

const FOO: u64 = 7;
const MS: u64 = 1_000_000;

fn pool_max_idle_no_timer<T: Poolable>(max_idle: usize) -> PoolInner<T> {
    let mut pool = PoolInner::new(
        Config {
            idle_timeout: Some(100 * MS),
            max_idle_per_host: max_idle,
        },
        false,
    )
    .expect("enabled");
    pool.no_timer();
    pool
}

fn pool_no_timer<T: Poolable>() -> PoolInner<T> {
    pool_max_idle_no_timer(usize::MAX)
}

/// Makes a value for `key` as a fresh connect would, then drops its handle.
fn pooled_and_dropped<T: Poolable>(pool: &mut PoolInner<T>, key: u64, value: T, now: u64) {
    let made = pool.pooled(key, value, now);
    if made.pool_ref {
        pool.release(key, made.value, now);
    }
}

#[test]
fn test_pool_checkout_smoke() {
    let mut pool = pool_no_timer();
    pooled_and_dropped(&mut pool, FOO, Uniq(41), 0);
    let (entry, waiter) = pool.checkout(FOO, 0, false);
    assert!(waiter.is_none());
    match checkout_outcome(entry, true) {
        Some(Ok(v)) => assert_eq!(v, Uniq(41)),
        _ => panic!("not ready"),
    }
}

#[test]
fn test_pool_checkout_returns_none_if_expired() {
    let mut pool = pool_no_timer();
    pooled_and_dropped(&mut pool, FOO, Uniq(41), 0);
    let (entry, waiter) = pool.checkout(FOO, 100 * MS + 1, false);
    let is_not_ready = checkout_outcome(entry, true).is_none();
    assert!(is_not_ready);
    assert!(waiter.is_some());
}

#[test]
fn test_pool_checkout_removes_expired() {
    let mut pool = pool_no_timer();
    pooled_and_dropped(&mut pool, FOO, Uniq(41), 0);
    pooled_and_dropped(&mut pool, FOO, Uniq(5), 0);
    pooled_and_dropped(&mut pool, FOO, Uniq(99), 0);
    assert_eq!(pool.idle_count(FOO), 3);
    let _ = pool.checkout(FOO, 100 * MS + 1, false);
    assert!(!pool.has_idle(FOO));
}

#[test]
fn test_pool_max_idle_per_host() {
    let mut pool = pool_max_idle_no_timer(2);
    pooled_and_dropped(&mut pool, FOO, Uniq(41), 0);
    pooled_and_dropped(&mut pool, FOO, Uniq(5), 0);
    pooled_and_dropped(&mut pool, FOO, Uniq(99), 0);
    assert_eq!(pool.idle_count(FOO), 2);
}

#[test]
fn test_pool_timer_removes_expired() {
    let mut pool: PoolInner<Uniq> = PoolInner::new(
        Config {
            idle_timeout: Some(10 * MS),
            max_idle_per_host: usize::MAX,
        },
        true,
    )
    .expect("enabled");
    let made = pool.pooled(FOO, Uniq(41), 0);
    let interval = pool.release(FOO, made.value, 0).expect("eviction task started");
    assert_eq!(interval.duration, 90 * MS);
    pooled_and_dropped(&mut pool, FOO, Uniq(5), 0);
    pooled_and_dropped(&mut pool, FOO, Uniq(99), 0);
    assert_eq!(pool.idle_count(FOO), 3);

    // At 30 ms the task, with its 90 ms period, has not run yet.
    let now: u64 = 30 * MS;
    if now >= interval.duration {
        pool.clear_expired(now);
    }
    assert_eq!(pool.idle_count(FOO), 3);

    // At 100 ms it has run once, at 90 ms.
    let now: u64 = 100 * MS;
    if now >= interval.duration {
        pool.clear_expired(interval.duration);
    }
    assert!(!pool.has_idle(FOO));
}

#[test]
fn test_pool_checkout_task_unparked() {
    let mut pool = pool_no_timer();
    let made = pool.pooled(FOO, Uniq(41), 0);
    let (entry, waiter) = pool.checkout(FOO, 0, false);
    assert!(entry.is_none());
    let mut rx = waiter.expect("parked");
    pool.release(FOO, made.value, 0);
    let received = rx.try_recv().expect("sender kept").expect("value sent");
    assert_eq!(waiter_outcome(Some(received)).unwrap(), Uniq(41));
    assert!(!pool.has_idle(FOO));
    assert!(!pool.has_waiters(FOO));
}

#[test]
fn test_pool_checkout_drop_cleans_up_waiters() {
    let mut pool: PoolInner<Uniq> = pool_no_timer();
    let (_, rx1) = pool.checkout(FOO, 0, false);
    assert_eq!(pool.waiter_count(FOO), 1);
    let (_, rx2) = pool.checkout(FOO, 0, false);
    assert_eq!(pool.waiter_count(FOO), 2);

    drop(rx1);
    pool.clean_waiters(FOO);
    assert_eq!(pool.waiter_count(FOO), 1);

    drop(rx2);
    pool.clean_waiters(FOO);
    assert!(!pool.has_waiters(FOO));
}

#[test]
fn pooled_drop_if_closed_doesnt_reinsert() {
    let mut pool = pool_no_timer();
    pooled_and_dropped(
        &mut pool,
        FOO,
        CanClose {
            val: 57,
            closed: true,
        },
        0,
    );
    assert!(!pool.has_idle(FOO));
}

const BAR: u64 = 9;

#[test]
fn disabled_config_makes_no_pool() {
    let config = Config {
        idle_timeout: None,
        max_idle_per_host: 0,
    };
    assert!(!config.is_enabled());
    assert!(PoolInner::<Uniq>::new(config, true).is_none());
    let enabled = Config {
        idle_timeout: None,
        max_idle_per_host: 1,
    };
    assert!(enabled.is_enabled());
    assert!(PoolInner::<Uniq>::new(enabled, true).is_some());
}

#[test]
fn disabled_pool_checkout_fails_at_once() {
    match checkout_outcome::<Uniq>(None, false) {
        Some(Err(e)) => assert_eq!(e, Error::PoolDisabled),
        _ => panic!("expected PoolDisabled"),
    }
    assert!(checkout_outcome::<Uniq>(None, true).is_none());
}

#[test]
fn error_kinds_and_messages() {
    assert!(Error::CheckedOutClosedValue.is_canceled());
    assert!(!Error::PoolDisabled.is_canceled());
    assert!(!Error::CheckoutNoLongerWanted.is_canceled());
    assert_eq!(Error::PoolDisabled.message(), "pool is disabled");
    assert_eq!(
        Error::CheckedOutClosedValue.message(),
        "checked out connection was closed"
    );
    assert_eq!(Error::CheckoutNoLongerWanted.message(), "request was canceled");
}

#[test]
fn waiter_outcomes() {
    assert_eq!(
        waiter_outcome::<Uniq>(None).unwrap_err(),
        Error::CheckoutNoLongerWanted
    );
    let closed = CanClose {
        val: 1,
        closed: true,
    };
    assert_eq!(
        waiter_outcome(Some(closed)).unwrap_err(),
        Error::CheckedOutClosedValue
    );
    assert_eq!(waiter_outcome(Some(Uniq(3))).unwrap(), Uniq(3));
}

#[test]
fn expiration_is_strictly_greater_and_saturating() {
    let e = Expiration::new(Some(100 * MS));
    assert!(!e.expires(0, 100 * MS));
    assert!(e.expires(0, 100 * MS + 1));
    // A clock that went backwards counts as no time.
    assert!(!e.expires(500, 10));
    let never = Expiration::new(None);
    assert!(!never.expires(0, u64::MAX));
}

#[test]
fn popper_takes_newest_first_and_skips_stale() {
    let mut list = vec![
        Idle { value: Uniq(1), idle_at: 0 },
        Idle { value: Uniq(2), idle_at: 50 },
        Idle { value: Uniq(3), idle_at: 90 },
    ];
    let e = Expiration::new(Some(100));
    let got = IdlePopper::pop(&mut list, &e, 120).expect("a fresh entry");
    assert_eq!(got.value, Uniq(3));
    assert_eq!(got.idle_at, 90);
    assert_eq!(list.len(), 2);
    let got = IdlePopper::pop(&mut list, &e, 140).expect("a fresh entry");
    assert_eq!(got.value, Uniq(2));
    assert!(IdlePopper::pop(&mut list, &e, 160).is_none());
    assert!(list.is_empty());
}

#[test]
fn popper_keeps_shared_half_refreshed() {
    let mut list = vec![Idle { value: Multi(8), idle_at: 0 }];
    let e = Expiration::new(Some(100));
    let got = IdlePopper::pop(&mut list, &e, 40).expect("a fresh entry");
    assert_eq!(got.value, Multi(8));
    assert_eq!(got.idle_at, 0);
    assert_eq!(list.len(), 1);
    assert_eq!(list[0].idle_at, 40);
}

#[test]
fn checkout_is_last_in_first_out() {
    let mut pool = pool_no_timer();
    pooled_and_dropped(&mut pool, FOO, Uniq(1), 0);
    pooled_and_dropped(&mut pool, FOO, Uniq(2), 1);
    let (entry, _) = pool.checkout(FOO, 2, false);
    assert_eq!(entry, Some(Uniq(2)));
    assert_eq!(pool.idle_count(FOO), 1);
    let (entry, _) = pool.checkout(FOO, 2, false);
    assert_eq!(entry, Some(Uniq(1)));
    assert!(!pool.has_idle(FOO));
}

#[test]
fn keys_are_kept_apart() {
    let mut pool = pool_no_timer();
    pooled_and_dropped(&mut pool, FOO, Uniq(1), 0);
    let (entry, waiter) = pool.checkout(BAR, 0, false);
    assert!(entry.is_none());
    assert!(waiter.is_some());
    assert_eq!(pool.idle_count(FOO), 1);
    assert_eq!(pool.waiter_count(BAR), 1);
    assert_eq!(pool.waiter_count(FOO), 0);
}

#[test]
fn checkout_with_receiver_queues_no_second_waiter() {
    let mut pool: PoolInner<Uniq> = pool_no_timer();
    let (_, rx) = pool.checkout(FOO, 0, false);
    assert!(rx.is_some());
    let (entry, again) = pool.checkout(FOO, 0, true);
    assert!(entry.is_none());
    assert!(again.is_none());
    assert_eq!(pool.waiter_count(FOO), 1);
}

#[test]
fn shared_value_is_kept_once() {
    let mut pool = pool_no_timer();
    assert_eq!(pool.connecting(FOO, Ver::Http2), Some(true));
    let made = pool.pooled(FOO, Multi(1), 0);
    assert!(!made.pool_ref);
    assert_eq!(made.value, Multi(1));
    assert!(!pool.is_connecting(FOO));
    assert_eq!(pool.idle_count(FOO), 1);
    // A second shareable value for the same key is dropped.
    pool.put(FOO, Multi(2), 0);
    assert_eq!(pool.idle_count(FOO), 1);
    // Checking out a shared value leaves its kept half in the pool.
    let (entry, _) = pool.checkout(FOO, 10, false);
    assert_eq!(entry, Some(Multi(1)));
    assert_eq!(pool.idle_count(FOO), 1);
}

#[test]
fn offer_dedups_only_shareable() {
    let mut pool = pool_no_timer();
    pool.offer(FOO, Uniq(1), false, 0);
    pool.offer(FOO, Uniq(2), true, 0);
    assert_eq!(pool.idle_count(FOO), 1);
    pool.offer(FOO, Uniq(3), false, 0);
    assert_eq!(pool.idle_count(FOO), 2);
}

#[test]
fn shared_value_serves_every_waiter() {
    let mut pool = pool_no_timer();
    let (_, rx1) = pool.checkout(FOO, 0, false);
    let (_, rx2) = pool.checkout(FOO, 0, false);
    pool.put(FOO, Multi(4), 0);
    assert_eq!(rx1.unwrap().try_recv().unwrap(), Some(Multi(4)));
    assert_eq!(rx2.unwrap().try_recv().unwrap(), Some(Multi(4)));
    assert!(!pool.has_waiters(FOO));
    assert_eq!(pool.idle_count(FOO), 1);
}

#[test]
fn canceled_waiter_is_skipped() {
    let mut pool = pool_no_timer();
    let (_, rx1) = pool.checkout(FOO, 0, false);
    let (_, rx2) = pool.checkout(FOO, 0, false);
    drop(rx1);
    pool.put(FOO, Uniq(6), 0);
    assert_eq!(rx2.unwrap().try_recv().unwrap(), Some(Uniq(6)));
    assert!(!pool.has_waiters(FOO));
    assert!(!pool.has_idle(FOO));
}

#[test]
fn single_flight_connecting() {
    let mut pool: PoolInner<Uniq> = pool_no_timer();
    assert_eq!(pool.connecting(FOO, Ver::Auto), Some(false));
    assert!(!pool.is_connecting(FOO));
    assert_eq!(pool.connecting(FOO, Ver::Http2), Some(true));
    assert!(pool.is_connecting(FOO));
    assert_eq!(pool.connecting(FOO, Ver::Http2), None);
    let (_, rx) = pool.checkout(FOO, 0, false);
    pool.connected(FOO);
    assert!(!pool.is_connecting(FOO));
    assert!(!pool.has_waiters(FOO));
    // The queued sender is gone: the checkout is no longer wanted.
    assert!(rx.unwrap().try_recv().is_err());
    assert_eq!(pool.connecting(FOO, Ver::Http2), Some(true));
}

#[test]
fn eviction_task_starts_once_and_only_when_it_can_run() {
    let with = |timeout: Option<u64>, timer: bool| {
        let mut pool: PoolInner<Uniq> = PoolInner::new(
            Config {
                idle_timeout: timeout,
                max_idle_per_host: 4,
            },
            timer,
        )
        .expect("enabled");
        let first = pool.put(FOO, Uniq(1), 0).map(|iv| iv.duration);
        let second = pool.put(FOO, Uniq(2), 0).map(|iv| iv.duration);
        (first, second)
    };
    assert_eq!(with(Some(10 * MS), true), (Some(90 * MS), None));
    assert_eq!(with(Some(500 * MS), true), (Some(500 * MS), None));
    assert_eq!(with(Some(0), true), (None, None));
    assert_eq!(with(None, true), (None, None));
    assert_eq!(with(Some(500 * MS), false), (None, None));
}

#[test]
fn clear_expired_drops_closed_and_old() {
    let mut pool = pool_no_timer();
    pool.put(FOO, CanClose { val: 1, closed: false }, 0);
    pool.put(FOO, CanClose { val: 2, closed: true }, 80 * MS);
    pool.put(BAR, CanClose { val: 3, closed: false }, 80 * MS);
    assert_eq!(pool.idle_count(FOO), 2);
    pool.clear_expired(150 * MS);
    assert!(!pool.has_idle(FOO));
    assert_eq!(pool.idle_count(BAR), 1);
}

#[test]
fn closed_value_from_checkout_is_dropped() {
    let mut pool = pool_no_timer();
    pool.put(FOO, CanClose { val: 1, closed: true }, 0);
    let (entry, waiter) = pool.checkout(FOO, 0, false);
    assert!(entry.is_none());
    assert!(waiter.is_some());
    assert!(!pool.has_idle(FOO));
}

#[test]
fn receive_follows_the_open_answer() {
    assert_eq!(receive(Some(Uniq(1)), true).unwrap(), Uniq(1));
    assert_eq!(
        receive(Some(Uniq(1)), false).unwrap_err(),
        Error::CheckedOutClosedValue
    );
    assert_eq!(
        receive::<Uniq>(None, true).unwrap_err(),
        Error::CheckoutNoLongerWanted
    );
}

#[test]
fn release_checked_drops_closed_and_puts_open() {
    let mut pool = pool_no_timer();
    assert!(pool.release_checked(FOO, Uniq(1), false, 0).is_none());
    assert!(!pool.has_idle(FOO));
    pool.release_checked(FOO, Uniq(2), true, 0);
    let (entry, _) = pool.checkout(FOO, 0, false);
    assert_eq!(entry, Some(Uniq(2)));
}

#[test]
fn pooled_reserved_by_variant() {
    let mut pool = pool_no_timer();
    let made = pool.pooled_reserved(FOO, Reservation::Unique(Uniq(1)), 0);
    assert!(made.pool_ref);
    assert_eq!(made.value, Uniq(1));
    assert!(!pool.has_idle(FOO));
    assert_eq!(pool.connecting(FOO, Ver::Http2), Some(true));
    let made = pool.pooled_reserved(FOO, Reservation::Shared(Uniq(2), Uniq(3)), 0);
    assert!(!made.pool_ref);
    assert_eq!(made.value, Uniq(3));
    assert!(!pool.is_connecting(FOO));
    let (entry, _) = pool.checkout(FOO, 0, false);
    assert_eq!(entry, Some(Uniq(2)));
}

#[test]
fn take_newest_uses_the_answers() {
    let mut list = vec![
        Idle { value: Uniq(1), idle_at: 0 },
        Idle { value: Uniq(2), idle_at: 0 },
        Idle { value: Uniq(3), idle_at: 0 },
    ];
    let e = Expiration::new(None);
    let got = IdlePopper::take_newest(&mut list, &vec![true, true, false], &e, 5).unwrap();
    assert_eq!(got.value, Uniq(2));
    assert_eq!(list.len(), 1);
    let mut list = vec![Idle { value: Uniq(1), idle_at: 0 }];
    assert!(IdlePopper::take_newest(&mut list, &vec![false], &e, 5).is_none());
    assert!(list.is_empty());
}

#[test]
fn settle_by_variant() {
    let mut list: Vec<Idle<Uniq>> = Vec::new();
    assert_eq!(IdlePopper::settle(Reservation::Unique(Uniq(1)), &mut list, 9), Uniq(1));
    assert!(list.is_empty());
    assert_eq!(
        IdlePopper::settle(Reservation::Shared(Uniq(2), Uniq(3)), &mut list, 9),
        Uniq(3)
    );
    assert_eq!(list.len(), 1);
    assert_eq!(list[0].value, Uniq(2));
    assert_eq!(list[0].idle_at, 9);
}

#[test]
fn checkout_with_skips_closed_answers() {
    let mut pool = pool_no_timer();
    pool.put(FOO, Uniq(1), 0);
    pool.put(FOO, Uniq(2), 0);
    let open = pool.open_flags(FOO);
    assert_eq!(open, vec![true, true]);
    let (entry, waiter) = pool.checkout_with(FOO, &vec![true, false], 0, false);
    assert_eq!(entry, Some(Uniq(1)));
    assert!(waiter.is_none());
    assert!(!pool.has_idle(FOO));
}

#[test]
fn drop_canceled_keeps_live_in_order() {
    let mut pool: PoolInner<Uniq> = pool_no_timer();
    let (_, rx1) = pool.checkout(FOO, 0, false);
    let (_, rx2) = pool.checkout(FOO, 0, false);
    let (_, rx3) = pool.checkout(FOO, 0, false);
    drop(rx2);
    assert_eq!(pool.live_flags(FOO), vec![true, false, true]);
    pool.drop_canceled(FOO, &vec![true, false, true]);
    assert_eq!(pool.waiter_count(FOO), 2);
    pool.put(FOO, Uniq(5), 0);
    assert_eq!(rx1.unwrap().try_recv().unwrap(), Some(Uniq(5)));
    assert_eq!(rx3.unwrap().try_recv().unwrap(), None);
    pool.drop_canceled(FOO, &vec![false]);
    assert!(!pool.has_waiters(FOO));
}

#[test]
fn retain_fresh_filters_in_order() {
    let list = vec![
        Idle { value: Uniq(1), idle_at: 0 },
        Idle { value: Uniq(2), idle_at: 90 },
        Idle { value: Uniq(3), idle_at: 95 },
        Idle { value: Uniq(4), idle_at: 99 },
    ];
    let e = Expiration::new(Some(50));
    let kept = PoolInner::retain_fresh(list, &vec![true, true, false, true], &e, 120);
    let values: Vec<i32> = kept.iter().map(|i| i.value.0).collect();
    assert_eq!(values, vec![2, 4]);
}

#[test]
fn idle_timeout_reports_config() {
    let pool: PoolInner<Uniq> = pool_no_timer();
    assert_eq!(pool.idle_timeout(), Some(100 * MS));
}

#[test]
fn handoff_goes_to_oldest_live_waiter_then_rest_stays() {
    let mut pool = pool_no_timer();
    let (_, rx1) = pool.checkout(FOO, 0, false);
    let (_, rx2) = pool.checkout(FOO, 0, false);
    let (_, rx3) = pool.checkout(FOO, 0, false);
    drop(rx1);
    pool.put(FOO, Uniq(8), 0);
    assert_eq!(rx2.unwrap().try_recv().unwrap(), Some(Uniq(8)));
    assert_eq!(pool.waiter_count(FOO), 1);
    assert!(!pool.has_idle(FOO));
    pool.put(FOO, Uniq(9), 0);
    assert_eq!(rx3.unwrap().try_recv().unwrap(), Some(Uniq(9)));
    assert!(!pool.has_waiters(FOO));
}

#[test]
fn only_canceled_waiters_then_value_is_idle() {
    let mut pool = pool_no_timer();
    let (_, rx1) = pool.checkout(FOO, 0, false);
    drop(rx1);
    pool.put(FOO, Uniq(3), 0);
    assert!(!pool.has_waiters(FOO));
    assert_eq!(pool.idle_count(FOO), 1);
}
