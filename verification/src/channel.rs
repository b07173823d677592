//! Trusted declarations for the unbounded channels that carry raw edges
//! into the scheduler and debounced events out of it.
//!
//! What a receive returns depends on what other threads have sent, so none
//! of these contracts can pin a result down; the verified callers state
//! what holds whatever comes back.

use vstd::prelude::*;

verus! {

#[verifier::external_type_specification]
#[verifier::external_body]
#[verifier::reject_recursive_types(T)]
pub struct ExSender<T>(crossbeam_channel::Sender<T>);

#[verifier::external_type_specification]
#[verifier::external_body]
#[verifier::reject_recursive_types(T)]
pub struct ExReceiver<T>(crossbeam_channel::Receiver<T>);

/// Relies on crossbeam_channel::unbounded: a fresh channel of unlimited
/// capacity, handed back as its sending and receiving halves.
#[verifier::external_body]
pub(crate) fn chan_new<T>() -> (crossbeam_channel::Sender<T>, crossbeam_channel::Receiver<T>) {
    crossbeam_channel::unbounded()
}

/// Relies on crossbeam_channel::Sender::send: on an unbounded channel it
/// never blocks, and it fails exactly when every receiver has been
/// dropped, handing the message back. Whether a receiver still exists
/// depends on other threads, so nothing is promised of the result.
#[verifier::external_body]
pub(crate) fn chan_send<T>(tx: &crossbeam_channel::Sender<T>, msg: T) -> bool {
    tx.send(msg).is_ok()
}

/// Relies on crossbeam_channel::Receiver::try_recv: returns a queued
/// message without blocking, or nothing when the channel is empty or
/// disconnected. What is queued depends on other threads, so nothing is
/// promised of the result.
#[verifier::external_body]
pub(crate) fn chan_try_recv<T>(rx: &crossbeam_channel::Receiver<T>) -> Option<T> {
    rx.try_recv().ok()
}

/// Relies on crossbeam_channel::Receiver::len: the number of messages
/// queued in the channel at the moment of the call. Other threads may
/// send concurrently, so nothing is promised of the result; the scheduler
/// uses it only as the bound of one drain pass.
#[verifier::external_body]
pub(crate) fn chan_len<T>(rx: &crossbeam_channel::Receiver<T>) -> usize {
    rx.len()
}

/// Relies on crossbeam_channel::Sender::clone: another sending half of
/// the same channel.
#[verifier::external_body]
pub(crate) fn chan_clone<T>(tx: &crossbeam_channel::Sender<T>) -> crossbeam_channel::Sender<T> {
    tx.clone()
}

} // verus!
