//! The decisions of a checkout between its polls.

use vstd::prelude::*;
use crate::config::{Error, Poolable};

verus! {

/// What a parked checkout makes of its receiver's answer, given whether
/// the value it got says it is open (`open`; unused when nothing came). A
/// dropped sender means the checkout is no longer wanted; a closed value is
/// refused; an open one is handed on.
pub fn receive<T>(received: Option<T>, open: bool) -> (r: Result<T, Error>)
    ensures
        received is None ==> r == Err::<T, Error>(Error::CheckoutNoLongerWanted),
        received matches Some(v) ==> r == receive_spec(v, open),
{
    match received {
        Some(value) => {
            if open {
                Ok(value)
            } else {
                Err(Error::CheckedOutClosedValue)
            }
        },
        None => Err(Error::CheckoutNoLongerWanted),
    }
}

/// [`receive`] with the value's own answer to `is_open`: a value is handed on
/// only if it said it is open when asked.
pub fn waiter_outcome<T: Poolable>(received: Option<T>) -> (r: Result<T, Error>)
    ensures
        received is None ==> r == Err::<T, Error>(Error::CheckoutNoLongerWanted),
        received matches Some(v) ==> exists|open: bool| r == #[trigger] receive_spec(v, open),
{
    let open = match &received {
        Some(value) => value.is_open(),
        None => false,
    };
    receive(received, open)
}

/// What [`receive`] gives for a value that came, by its answer to `is_open`.
pub open spec fn receive_spec<T>(v: T, open: bool) -> Result<T, Error> {
    if open {
        Ok(v)
    } else {
        Err(Error::CheckedOutClosedValue)
    }
}

/// What a poll of a checkout returns once the idle lists were searched:
/// the value found, a failure when the pool is disabled, or `None` to wait
/// on the receiver that was queued.
pub fn checkout_outcome<T>(entry: Option<T>, enabled: bool) -> (r: Option<Result<T, Error>>)
    ensures
        entry matches Some(v) ==> r == Some(Ok::<T, Error>(v)),
        entry is None && !enabled ==> r == Some(Err::<T, Error>(Error::PoolDisabled)),
        entry is None && enabled ==> r is None,
{
    match entry {
        Some(v) => Some(Ok(v)),
        None => {
            if enabled {
                None
            } else {
                Some(Err(Error::PoolDisabled))
            }
        },
    }
}

} // verus!
