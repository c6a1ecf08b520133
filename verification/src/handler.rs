//! The lifecycle of one connection's handler task.
//!
//! Each accepted connection is driven by exactly one handler, which walks the
//! states `Connecting -> Registered -> Reading -> (Disconnecting | Failed) ->
//! Closed`.  The handler owns the read side of its connection; everything it
//! must do to the shared registry or to the stream is returned as an
//! [`HandlerAction`] for the surrounding server to perform, so the decision
//! logic itself is a pure, verified transition function.

use vstd::prelude::*;

verus! {

/// Where one connection stands in its life.
#[derive(Clone, Copy, Debug, PartialEq, Eq, Structural)]
pub enum HandlerState {
    /// Accepted by the listener; the write handle is not registered yet.
    Connecting,
    /// Registered: eligible to receive broadcasts before it ever sends.
    Registered,
    /// In the read loop, forwarding each completed read.
    Reading,
    /// The peer closed cleanly (a zero-byte read); being torn down.
    Disconnecting,
    /// A read on this connection failed; being torn down.
    Failed,
    /// The stream has been released.  Terminal.
    Closed,
}

/// What the handler task observes.
#[derive(Clone, Copy, Debug, PartialEq, Eq, Structural)]
pub enum HandlerEvent {
    /// The accept loop handed the connection over.
    Accepted,
    /// A read completed with this many bytes; zero means end of stream.
    ReadCompleted(usize),
    /// A read on this connection failed with an I/O error.
    ReadFailed,
    /// The underlying stream has been closed and released.
    Released,
}

/// What the surrounding server must do next.
#[derive(Clone, Copy, Debug, PartialEq, Eq, Structural)]
pub enum HandlerAction {
    /// Insert this connection's write handle into the registry.
    Register,
    /// Forward the bytes just read to every other registered handle.
    Broadcast,
    /// Remove this handle from the registry, then release the stream.
    Unregister,
    /// Nothing: the event does not concern the current state.
    Stay,
}

/// The transition function of the per-connection state machine.
///
/// Registration happens on accept, before any read, so a new peer receives
/// broadcasts even if it never sends.  Every read of more than zero bytes is
/// forwarded; a zero-byte read means the peer left cleanly, an I/O error that
/// it failed — both end the read loop and unregister the handle, and the
/// stream is then released unconditionally on either path.  Events that do
/// not concern the current state change nothing, and `Closed` is terminal.
pub open spec fn spec_step(s: HandlerState, e: HandlerEvent) -> (HandlerState, HandlerAction) {
    match (s, e) {
        (HandlerState::Connecting, HandlerEvent::Accepted) => (
            HandlerState::Registered,
            HandlerAction::Register,
        ),
        (HandlerState::Registered, HandlerEvent::ReadCompleted(n)) => if n == 0 {
            (HandlerState::Disconnecting, HandlerAction::Unregister)
        } else {
            (HandlerState::Reading, HandlerAction::Broadcast)
        },
        (HandlerState::Reading, HandlerEvent::ReadCompleted(n)) => if n == 0 {
            (HandlerState::Disconnecting, HandlerAction::Unregister)
        } else {
            (HandlerState::Reading, HandlerAction::Broadcast)
        },
        (HandlerState::Registered, HandlerEvent::ReadFailed) => (
            HandlerState::Failed,
            HandlerAction::Unregister,
        ),
        (HandlerState::Reading, HandlerEvent::ReadFailed) => (
            HandlerState::Failed,
            HandlerAction::Unregister,
        ),
        (HandlerState::Disconnecting, HandlerEvent::Released) => (
            HandlerState::Closed,
            HandlerAction::Stay,
        ),
        (HandlerState::Failed, HandlerEvent::Released) => (
            HandlerState::Closed,
            HandlerAction::Stay,
        ),
        _ => (s, HandlerAction::Stay),
    }
}

/// Advances one handler by one observed event and says what the server must
/// do for it.
pub fn step(s: HandlerState, e: HandlerEvent) -> (r: (HandlerState, HandlerAction))
    ensures
        r == spec_step(s, e),
{
    match (s, e) {
        (HandlerState::Connecting, HandlerEvent::Accepted) => (
            HandlerState::Registered,
            HandlerAction::Register,
        ),
        (HandlerState::Registered, HandlerEvent::ReadCompleted(n)) => if n == 0 {
            (HandlerState::Disconnecting, HandlerAction::Unregister)
        } else {
            (HandlerState::Reading, HandlerAction::Broadcast)
        },
        (HandlerState::Reading, HandlerEvent::ReadCompleted(n)) => if n == 0 {
            (HandlerState::Disconnecting, HandlerAction::Unregister)
        } else {
            (HandlerState::Reading, HandlerAction::Broadcast)
        },
        (HandlerState::Registered, HandlerEvent::ReadFailed) => (
            HandlerState::Failed,
            HandlerAction::Unregister,
        ),
        (HandlerState::Reading, HandlerEvent::ReadFailed) => (
            HandlerState::Failed,
            HandlerAction::Unregister,
        ),
        (HandlerState::Disconnecting, HandlerEvent::Released) => (
            HandlerState::Closed,
            HandlerAction::Stay,
        ),
        (HandlerState::Failed, HandlerEvent::Released) => (
            HandlerState::Closed,
            HandlerAction::Stay,
        ),
        _ => (s, HandlerAction::Stay),
    }
}

/// `Closed` is terminal: no further event moves a closed handler or makes it
/// act.  No message is accepted from or delivered to a connection after its
/// teardown.
pub proof fn lemma_closed_is_terminal(e: HandlerEvent)
    ensures
        spec_step(HandlerState::Closed, e).0 == HandlerState::Closed,
        spec_step(HandlerState::Closed, e).1 == HandlerAction::Stay,
{
}

/// A broadcast is instructed only from inside the read loop (or on its first
/// read), and always keeps the handler reading: a handle is registered before
/// any of its bytes are forwarded.
pub proof fn lemma_broadcast_only_while_reading(s: HandlerState, e: HandlerEvent)
    ensures
        spec_step(s, e).1 == HandlerAction::Broadcast ==> ((s == HandlerState::Registered || s
            == HandlerState::Reading) && spec_step(s, e).0 == HandlerState::Reading),
{
}

/// Unregistration is instructed exactly when the read loop observes
/// termination: a zero-byte read (clean close) or a read error — and on no
/// other occasion.
pub proof fn lemma_unregister_exactly_on_termination(s: HandlerState, e: HandlerEvent)
    ensures
        spec_step(s, e).1 == HandlerAction::Unregister <==> ((s == HandlerState::Registered || s
            == HandlerState::Reading) && (e == HandlerEvent::ReadFailed || e
            == HandlerEvent::ReadCompleted(0))),
{
}

} // verus!
