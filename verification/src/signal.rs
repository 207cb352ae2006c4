//! The one-shot channel of `tokio` that carries the stop signal, and what
//! is taken for granted of it.

use vstd::prelude::*;

verus! {

/// `tokio::sync::oneshot::Sender`: the half of a channel that sends its one
/// value. Nothing is seen of it.
#[verifier::external_type_specification]
#[verifier::external_body]
#[verifier::reject_recursive_types(T)]
pub struct ExSender<T>(tokio::sync::oneshot::Sender<T>);

/// `tokio::sync::oneshot::Receiver`: the half of a channel that waits for
/// the value. Nothing is seen of it.
#[verifier::external_type_specification]
#[verifier::external_body]
#[verifier::reject_recursive_types(T)]
pub struct ExReceiver<T>(tokio::sync::oneshot::Receiver<T>);

/// `tokio::sync::oneshot::error::RecvError`: what a receiver gets when its
/// sender is gone. Nothing is seen of it.
#[verifier::external_type_specification]
#[verifier::external_body]
pub struct ExRecvError(tokio::sync::oneshot::error::RecvError);

/// `tokio::sync::oneshot::channel`: the two halves of a new channel that
/// carries one value. Nothing is claimed of them.
pub assume_specification<T>[ tokio::sync::oneshot::channel::<T> ]() -> (res: (
    tokio::sync::oneshot::Sender<T>,
    tokio::sync::oneshot::Receiver<T>,
))
;

/// `tokio::sync::oneshot::Sender::send`: hands the value to the receiving
/// half. Whether it arrives depends on the receiver; where it does not, the
/// value comes back.
pub assume_specification<T>[ tokio::sync::oneshot::Sender::<T>::send ](
    sender: tokio::sync::oneshot::Sender<T>,
    t: T,
) -> (res: Result<(), T>)
    ensures
        res matches Err(back) ==> back == t,
;

} // verus!
