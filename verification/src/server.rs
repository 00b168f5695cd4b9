//! Shared types of the command channel: its error taxonomy, the request and
//! response values exchanged with the runner, and the trusted declarations of
//! the channel endpoints the state machine resolves waiters through.

use vstd::prelude::*;

pub mod runner;
pub mod transport;

verus! {

/// Faults of the command channel, as callers and the interpreter see them.
#[derive(Debug, Clone)]
pub enum Error {
    NotImplemented,
    /// A transport-level fault; the payload is its rendered description.
    Io(String),
    /// A frame that did not decode; the payload is its rendered description.
    JsonError(String),
    /// The runner did not reply to a submission within the handle's window.
    MpcResponseTimeout,
    /// The device did not echo the command's sequence within the attempt window.
    IRAckTimeout,
    /// A fault in the request/reply plumbing; the payload says which side failed.
    MpcGenericError(String),
    /// Submissions are rejected while no status frame has been heard recently.
    CanNotSendWhenOffline,
}

/// A request submitted to the runner by a handle.
#[derive(Debug)]
pub enum MpcRequest {
    SendRcRequest(Vec<u32>),
}

/// The runner's verdict on one request, delivered through the waiter's slot.
#[derive(Debug)]
pub enum MpcResponse {
    SendRcResponse(Result<(), Error>),
}

#[verifier::external_type_specification]
#[verifier::external_body]
#[verifier::reject_recursive_types(T)]
pub struct ExOneshotSender<T>(tokio::sync::oneshot::Sender<T>);

#[verifier::external_type_specification]
#[verifier::external_body]
#[verifier::reject_recursive_types(T)]
pub struct ExWatchSender<T>(tokio::sync::watch::Sender<T>);

/// Relies on `tokio::sync::oneshot::Sender::send`: delivers the value to the
/// receiver if it still listens. The slot is consumed either way, and the
/// outcome is dropped: a waiter that stopped listening is tolerated.
#[verifier::external_body]
pub(crate) fn reply_send(slot: tokio::sync::oneshot::Sender<MpcResponse>, response: MpcResponse) {
    let _ = slot.send(response);
}

/// Relies on `tokio::sync::watch::Sender::send`: makes `online` the channel's
/// latest value when receivers exist. The outcome is dropped: publishing with
/// no subscriber left is tolerated.
#[verifier::external_body]
pub(crate) fn publish_online(channel: &tokio::sync::watch::Sender<bool>, online: bool) {
    let _ = channel.send(online);
}

} // verus!
