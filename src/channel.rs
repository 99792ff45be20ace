//! Single-slot delivery channels, provided by tokio's bounded mpsc channel.

use vstd::prelude::*;
use crate::queue::{offered_to, Subscriber};

verus! {

#[verifier::external_type_specification]
#[verifier::external_body]
#[verifier::reject_recursive_types(T)]
pub struct ExSender<T>(tokio::sync::mpsc::Sender<T>);

#[verifier::external_type_specification]
#[verifier::external_body]
#[verifier::reject_recursive_types(T)]
pub struct ExReceiver<T>(tokio::sync::mpsc::Receiver<T>);

/// Relies on tokio::sync::mpsc::channel, which panics only when the buffer
/// size is zero (or beyond the semaphore's maximum, far above one).
pub assume_specification<T>[ tokio::sync::mpsc::channel::<T> ](buffer: usize) -> (
    tokio::sync::mpsc::Sender<T>,
    tokio::sync::mpsc::Receiver<T>,
)
    requires
        buffer == 1,
;

/// Opens a fresh delivery channel that holds at most one undelivered value.
pub(crate) fn open_slot() -> (tokio::sync::mpsc::Sender<String>, tokio::sync::mpsc::Receiver<String>) {
    tokio::sync::mpsc::channel::<String>(1)
}

/// Relies on tokio::sync::mpsc::Sender::try_send: offers `value` once to
/// `sub`'s channel, never blocks, and succeeds only when the slot is free and
/// the receiver is still alive. Which happens depends on the other side, so
/// only the offer itself is recorded, in the subscriber's log.
#[verifier::external_body]
pub(crate) fn hand_off(sub: &mut Subscriber, value: String) -> (delivered: bool)
    ensures
        offered_to(*old(sub), *final(sub), value@),
{
    sub.sender.try_send(value).is_ok()
}

} // verus!
