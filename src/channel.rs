//! The one-shot channels of `futures-channel`, as the pool uses them: a
//! parked checkout holds a receiver, the pool holds its sender.

use vstd::prelude::*;
use futures_channel::oneshot::{Canceled, Receiver, Sender};

verus! {

#[verifier::external_type_specification]
#[verifier::external_body]
#[verifier::reject_recursive_types(T)]
pub struct ExSender<T>(Sender<T>);

#[verifier::external_type_specification]
#[verifier::external_body]
#[verifier::reject_recursive_types(T)]
pub struct ExReceiver<T>(Receiver<T>);

#[verifier::external_type_specification]
#[verifier::external_body]
pub struct ExCanceled(Canceled);

/// Relies on `futures_channel::oneshot::channel`: a fresh sender and receiver
/// pair.
pub assume_specification<T>[ futures_channel::oneshot::channel::<T> ]() -> (Sender<T>, Receiver<T>);

/// Relies on `Sender::is_canceled`: whether the receiver is gone. The answer
/// may change at any moment, so nothing is promised of it.
pub assume_specification<T>[ Sender::<T>::is_canceled ](tx: &Sender<T>) -> bool;

/// Relies on `Sender::send`: a value that could not be delivered comes back
/// unchanged in `Err`.
pub assume_specification<T>[ Sender::<T>::send ](tx: Sender<T>, t: T) -> (r: Result<(), T>)
    ensures
        r matches Err(back) ==> back == t,
;

} // verus!
