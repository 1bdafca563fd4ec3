use vstd::prelude::*;

verus! {

/// Settings of a pool, fixed when it is made.
#[derive(Clone, Copy, Debug)]
pub struct Config {
    /// How long, in nanoseconds, a value may stay idle before it is evicted.
    pub idle_timeout: Option<u64>,
    /// The most idle values kept for one key; zero disables the pool.
    pub max_idle_per_host: usize,
}

impl Config {
    pub open spec fn enabled(&self) -> bool {
        self.max_idle_per_host > 0
    }

    pub fn is_enabled(&self) -> (r: bool)
        ensures
            r == self.enabled(),
    {
        self.max_idle_per_host > 0
    }
}

/// The protocol version of a connection being made.
#[derive(Clone, Copy, Debug, PartialEq, Eq, Hash, Structural)]
pub enum Ver {
    Auto,
    Http2,
}

/// What a checkout gets from a value.
pub enum Reservation<T> {
    /// The value serves many uses: the first half stays in the pool, the
    /// second goes to the checkout.
    Shared(T, T),
    /// The value serves one use at a time and comes back when it is done.
    Unique(T),
}

/// A value that a pool can hold.
pub trait Poolable: Sized {
    /// Whether the value can still be used.
    fn is_open(&self) -> bool;

    /// Commits the value to one caller.
    fn reserve(self) -> Reservation<Self>;

    /// Whether one value may serve several callers at once.
    fn can_share(&self) -> bool;
}

/// Why a checkout failed.
#[derive(Clone, Copy, Debug, PartialEq, Eq, Structural)]
#[non_exhaustive]
pub enum Error {
    /// The pool keeps no values.
    PoolDisabled,
    /// The parked checkout was let go before any value came.
    CheckoutNoLongerWanted,
    /// The value handed to a parked checkout was already closed.
    CheckedOutClosedValue,
}

impl Error {
    pub fn is_canceled(&self) -> (r: bool)
        ensures
            r == (*self == Error::CheckedOutClosedValue),
    {
        match self {
            Error::CheckedOutClosedValue => true,
            _ => false,
        }
    }

    /// A short description of the error.
    pub fn message(&self) -> (r: &'static str)
        ensures
            *self == Error::PoolDisabled ==> r@ == "pool is disabled"@,
            *self == Error::CheckedOutClosedValue ==> r@ == "checked out connection was closed"@,
            *self == Error::CheckoutNoLongerWanted ==> r@ == "request was canceled"@,
    {
        match self {
            Error::PoolDisabled => "pool is disabled",
            Error::CheckedOutClosedValue => "checked out connection was closed",
            Error::CheckoutNoLongerWanted => "request was canceled",
        }
    }
}

} // verus!
