use vstd::prelude::*;
use crate::config::{Poolable, Reservation};

verus! {

/// How long a value has been idle at `now`; a clock that went backwards
/// counts as no time at all.
pub open spec fn age_of(idle_at: u64, now: u64) -> nat {
    if now >= idle_at {
        (now - idle_at) as nat
    } else {
        0
    }
}

/// Whether a value idle since `idle_at` has outlived `timeout` at `now`.
pub open spec fn is_expired(timeout: Option<u64>, idle_at: u64, now: u64) -> bool {
    match timeout {
        Some(t) => age_of(idle_at, now) > t,
        None => false,
    }
}

/// A value waiting in the pool, with the time it became idle.
pub struct Idle<T> {
    pub value: T,
    pub idle_at: u64,
}

/// The staleness rule of a pool: a timeout in nanoseconds, or none.
pub struct Expiration(pub Option<u64>);

impl Expiration {
    pub fn new(dur: Option<u64>) -> (r: Expiration)
        ensures
            r.0 == dur,
    {
        Expiration(dur)
    }

    pub fn expires(&self, idle_at: u64, now: u64) -> (r: bool)
        ensures
            r == is_expired(self.0, idle_at, now),
    {
        match self.0 {
            Some(timeout) => {
                let age: u64 = if now >= idle_at { now - idle_at } else { 0 };
                age > timeout
            },
            None => false,
        }
    }
}

/// `after` is `before` cut back to its first `j` entries, with possibly one
/// entry appended that became idle at `now`.
pub open spec fn cut_to<T>(before: Seq<Idle<T>>, after: Seq<Idle<T>>, j: int, now: u64) -> bool {
    ||| after == before.take(j)
    ||| (after.len() == j + 1 && after.take(j) == before.take(j) && after[j].idle_at == now)
}

/// Entry `i` of `list` can be handed out: it said it is open (`open[i]`)
/// and has not expired at `now`.
pub open spec fn usable<T>(
    list: Seq<Idle<T>>,
    open: Seq<bool>,
    timeout: Option<u64>,
    now: u64,
    i: int,
) -> bool {
    open[i] && !is_expired(timeout, list[i].idle_at, now)
}

/// The greatest index below `n` of a usable entry, if any.
pub open spec fn newest_usable<T>(
    list: Seq<Idle<T>>,
    open: Seq<bool>,
    timeout: Option<u64>,
    now: u64,
    n: int,
) -> Option<int>
    decreases n,
{
    if n <= 0 {
        None
    } else if usable(list, open, timeout, now, n - 1) {
        Some(n - 1)
    } else {
        newest_usable(list, open, timeout, now, n - 1)
    }
}

/// Takes values off the tail of an idle list until one can be used.
pub struct IdlePopper;

impl IdlePopper {
    /// Asks every entry of `list` whether it is open, in order.
    pub fn open_flags<T: Poolable>(list: &Vec<Idle<T>>) -> (r: Vec<bool>)
        ensures
            r@.len() == list@.len(),
    {
        let mut r: Vec<bool> = Vec::new();
        let mut i: usize = 0;
        while i < list.len()
            invariant
                i <= list@.len(),
                r@.len() == i,
            decreases list@.len() - i,
        {
            r.push(list[i].value.is_open());
            i = i + 1;
        }
        r
    }

    /// Pops entries from the tail of `list` down to the newest usable one,
    /// which it returns, `open` being the entries' answers to `is_open`.
    /// With no usable entry the list ends empty.
    pub fn take_newest<T>(list: &mut Vec<Idle<T>>, open: &Vec<bool>, expiration: &Expiration, now: u64) -> (r:
        Option<Idle<T>>)
        requires
            open@.len() == old(list)@.len(),
        ensures
            match newest_usable(old(list)@, open@, expiration.0, now, old(list)@.len() as int) {
                None => r is None && final(list)@.len() == 0,
                Some(i) => r == Some(old(list)@[i]) && final(list)@ == old(list)@.take(i),
            },
    {
        let ghost before = list@;
        while list.len() > 0
            invariant
                before == old(list)@,
                open@.len() == before.len(),
                list@.len() <= before.len(),
                list@ == before.take(list@.len() as int),
                newest_usable(before, open@, expiration.0, now, before.len() as int)
                    == newest_usable(before, open@, expiration.0, now, list@.len() as int),
            decreases list@.len(),
        {
            let n = list.len();
            assert(list@[n - 1] == before[n - 1]);
            let fresh = open[n - 1] && !expiration.expires(list[n - 1].idle_at, now);
            let entry = list.pop();
            assert(list@ =~= before.take(list@.len() as int));
            if fresh {
                return entry;
            }
        }
        None
    }

    /// Finishes taking an entry reserved as `res`: a unique reservation is
    /// handed out whole; a shared one hands out its second half and puts the
    /// first back at the tail of `list`, idle from `now`.
    pub fn settle<T>(res: Reservation<T>, list: &mut Vec<Idle<T>>, now: u64) -> (r: T)
        ensures
            res matches Reservation::Unique(v) ==> r == v && final(list)@ == old(list)@,
            res matches Reservation::Shared(keep, give) ==> r == give && final(list)@ == old(
                list,
            )@.push((Idle { value: keep, idle_at: now })),
    {
        match res {
            Reservation::Shared(keep, give) => {
                list.push(Idle { value: keep, idle_at: now });
                give
            },
            Reservation::Unique(v) => v,
        }
    }

    /// Takes the newest usable entry of `list`, dropping closed and expired
    /// entries above it, and reserves it: [`IdlePopper::take_newest`] with the
    /// entries' own answers to `is_open`, then [`IdlePopper::settle`] with
    /// the taken value's own reservation.
    pub fn pop<T: Poolable>(list: &mut Vec<Idle<T>>, expiration: &Expiration, now: u64) -> (r:
        Option<Idle<T>>)
        ensures
            exists|open: Seq<bool>|
                open.len() == old(list)@.len() && #[trigger] popped(
                    old(list)@,
                    final(list)@,
                    open,
                    expiration.0,
                    now,
                    r,
                ),
    {
        let open = Self::open_flags(list);
        let ghost before = list@;
        let entry = Self::take_newest(list, &open, expiration, now);
        let r = match entry {
            Some(entry) => {
                let idle_at = entry.idle_at;
                let res = entry.value.reserve();
                let value = Self::settle(res, list, now);
                Some(Idle { value, idle_at })
            },
            None => None,
        };
        proof {
            if let Some(i) = newest_usable(before, open@, expiration.0, now, before.len() as int) {
                lemma_newest_usable_in_range(before, open@, expiration.0, now, before.len() as int);
                assert(list@.take(i) =~= before.take(i));
            }
        }
        assert(popped(before, list@, open@, expiration.0, now, r));
        r
    }
}

/// What taking an entry did to a list, `open` being the entries' answers to
/// `is_open`: with no usable entry, nothing is returned and the list is
/// empty; otherwise the newest usable entry is returned with its idle time,
/// and the list is cut back below it, plus possibly the kept half of a
/// shared reservation, idle from `now`.
pub open spec fn popped<T>(
    before: Seq<Idle<T>>,
    after: Seq<Idle<T>>,
    open: Seq<bool>,
    timeout: Option<u64>,
    now: u64,
    r: Option<Idle<T>>,
) -> bool {
    match newest_usable(before, open, timeout, now, before.len() as int) {
        None => r is None && after.len() == 0,
        Some(i) => r matches Some(e) && e.idle_at == before[i].idle_at && cut_to(
            before,
            after,
            i,
            now,
        ),
    }
}

/// The index that [`newest_usable`] finds is below `n`, usable, and the
/// greatest such.
pub proof fn lemma_newest_usable_in_range<T>(
    list: Seq<Idle<T>>,
    open: Seq<bool>,
    timeout: Option<u64>,
    now: u64,
    n: int,
)
    ensures
        newest_usable(list, open, timeout, now, n) matches Some(i) ==> 0 <= i < n && usable(
            list,
            open,
            timeout,
            now,
            i,
        ),
        forall|j: int|
            #![trigger usable(list, open, timeout, now, j)]
            (newest_usable(list, open, timeout, now, n) matches Some(i) ==> i < j) && 0 <= j < n
                ==> !usable(list, open, timeout, now, j),
        newest_usable(list, open, timeout, now, n) is None ==> forall|j: int|
            0 <= j < n ==> !#[trigger] usable(list, open, timeout, now, j),
    decreases n,
{
    if n > 0 {
        lemma_newest_usable_in_range(list, open, timeout, now, n - 1);
    }
}

} // verus!
