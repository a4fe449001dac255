//! The broadcast signal of a handle, carried by tokio's broadcast channel.
use vstd::prelude::*;

verus! {

#[verifier::external_type_specification]
#[verifier::external_body]
#[verifier::reject_recursive_types(T)]
pub struct ExSender<T>(tokio::sync::broadcast::Sender<T>);

#[verifier::external_type_specification]
#[verifier::external_body]
#[verifier::reject_recursive_types(T)]
pub struct ExReceiver<T>(tokio::sync::broadcast::Receiver<T>);

/// Relies on tokio::sync::broadcast::channel, which panics only on a capacity
/// of zero or above `usize::MAX / 2`: a fresh channel of capacity one, whose
/// first receiver is dropped at once.
#[verifier::external_body]
pub(crate) fn new_signal() -> (r: tokio::sync::broadcast::Sender<()>) {
    tokio::sync::broadcast::channel::<()>(1).0
}

/// Relies on tokio::sync::broadcast::Sender::send: wakes every receiver that
/// subscribed before the call. Having no receiver is reported as an error,
/// which is of no interest here and is dropped.
#[verifier::external_body]
pub(crate) fn fire(s: &tokio::sync::broadcast::Sender<()>) {
    let _ = s.send(());
}

/// Relies on tokio::sync::broadcast::Sender::subscribe: a receiver that sees
/// every value sent after this call. It panics once `usize::MAX / 4` receivers
/// of the channel are alive, a count that the callers keep below.
#[verifier::external_body]
pub(crate) fn subscribe(s: &tokio::sync::broadcast::Sender<()>) -> (r: tokio::sync::broadcast::Receiver<()>) {
    s.subscribe()
}

} // verus!
