//! Peer-to-peer request channels: crossbeam's unbounded multi-producer
//! single-consumer channels, behind trusted declarations.
//!
//! What a channel holds at any moment depends on every thread that ever
//! sent into it, so nothing is stated of the messages themselves: the
//! code that receives a request is verified for every value it may get.

use vstd::prelude::*;

use crate::userasyncmodel::UserRequest;

verus! {

#[verifier::external_type_specification]
#[verifier::external_body]
#[verifier::reject_recursive_types(T)]
pub struct ExSender<T>(crossbeam_channel::Sender<T>);

#[verifier::external_type_specification]
#[verifier::external_body]
#[verifier::reject_recursive_types(T)]
pub struct ExReceiver<T>(crossbeam_channel::Receiver<T>);

/// Relies on crossbeam_channel's `unbounded`: a connected
/// sender/receiver pair.
#[verifier::external_body]
pub fn channel_unbounded() -> (crossbeam_channel::Sender<UserRequest>, crossbeam_channel::Receiver<
    UserRequest,
>) {
    crossbeam_channel::unbounded()
}

/// Relies on crossbeam_channel's `Sender::clone`: another handle on the
/// same channel.
#[verifier::external_body]
pub fn channel_sender_clone(s: &crossbeam_channel::Sender<UserRequest>) -> crossbeam_channel::Sender<
    UserRequest,
> {
    s.clone()
}

/// Relies on crossbeam_channel's `Sender::send`, which on an unbounded
/// channel fails only when every receiver is gone; the request comes back
/// unread in that case.
#[verifier::external_body]
pub fn channel_send(s: &crossbeam_channel::Sender<UserRequest>, req: UserRequest) -> (r: Result<
    (),
    UserRequest,
>)
    ensures
        r is Err ==> r->Err_0 == req,
{
    match s.send(req) {
        Ok(()) => Ok(()),
        Err(e) => Err(e.0),
    }
}

/// Relies on crossbeam_channel's `Receiver::try_recv`: one pending
/// request, or nothing when the channel is empty or closed.
#[verifier::external_body]
pub fn channel_try_recv(r: &crossbeam_channel::Receiver<UserRequest>) -> Option<UserRequest> {
    match r.try_recv() {
        Ok(req) => Some(req),
        Err(_) => None,
    }
}

} // verus!
