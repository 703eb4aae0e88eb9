//! The control-plane session's state machine.
//!
//! The session holds a persistent bidirectional frame channel to the
//! manager. Inbound frames carry full or partial configurations to apply,
//! or a shutdown order; outbound frames carry apply results, traffic
//! slices and lifecycle events. The surrounding process owns the socket
//! and the timers; every transition and every action to take is decided
//! here. On any transport fault the session drains and reconnects after a
//! delay; after a shutdown order nothing more is applied or sent.

use vstd::prelude::*;
use crate::config::{GatewayConfig, GatewayConfigPartial};
use crate::traffic::TrafficInfo;
use crate::GatewayEvent;

verus! {

/// Requests arriving from the control plane.
#[derive(Debug)]
pub enum GatewayRequest {
    /// Apply an entire new configuration.
    Apply(GatewayConfig),
    /// Apply a partial configuration.
    ApplyPartial(GatewayConfigPartial),
    /// Shut the gateway down.
    Shutdown,
}

/// Frames sent back to the control plane.
#[derive(Debug)]
pub enum GatewayResponse {
    /// A traffic slice.
    Traffic(TrafficInfo),
    /// A lifecycle event.
    Event(GatewayEvent),
    /// The result of the last apply: a summary or an error message.
    Apply(Result<Vec<u8>, Vec<u8>>),
}

/// The session's state.
#[derive(Clone, Copy, Debug, PartialEq, Eq, Structural)]
pub enum SessionState {
    /// No channel; a connect may be requested.
    Disconnected,
    /// A channel is being opened.
    Connecting,
    /// The channel is up; at most one apply is in flight.
    Connected { in_flight: bool },
    /// The channel broke; subsidiary tasks are being cancelled.
    Draining,
    /// A shutdown order arrived; terminal.
    Stopped,
}

/// What happens to the session.
#[derive(Debug)]
pub enum SessionEvent {
    /// The process asks for a connection.
    ConnectRequested,
    /// The channel opened.
    ConnectSucceeded,
    /// The channel could not be opened.
    ConnectFailed,
    /// A well-formed request frame arrived.
    FrameReceived(GatewayRequest),
    /// An inbound frame failed to decode.
    FrameInvalid,
    /// The running apply finished with this result.
    ApplyFinished(Result<Vec<u8>, Vec<u8>>),
    /// A traffic slice is ready to send.
    TrafficReady(TrafficInfo),
    /// A lifecycle event is ready to send.
    EventReady(GatewayEvent),
    /// A broadcast subscription lost items.
    SubscriberLagged,
    /// The transport failed.
    TransportError,
    /// The peer closed the stream.
    StreamClosed,
    /// All subsidiary tasks finished cancelling.
    Drained,
}

/// What the surrounding process must do next.
#[derive(Debug)]
pub enum SessionAction {
    /// Open the channel to the manager.
    OpenChannel,
    /// Run a full apply and report back with `ApplyFinished`.
    StartApply(GatewayConfig),
    /// Run a partial apply and report back with `ApplyFinished`.
    StartApplyPartial(GatewayConfigPartial),
    /// Send a frame out.
    SendFrame(GatewayResponse),
    /// Wait the fixed delay, then raise `ConnectRequested`.
    ReconnectAfterDelay,
    /// Terminate the serving loop.
    Stop,
}

/// The state after an event.
pub open spec fn next_state(state: SessionState, event: SessionEvent) -> SessionState {
    match state {
        SessionState::Disconnected => match event {
            SessionEvent::ConnectRequested => SessionState::Connecting,
            _ => state,
        },
        SessionState::Connecting => match event {
            SessionEvent::ConnectSucceeded => SessionState::Connected { in_flight: false },
            SessionEvent::ConnectFailed => SessionState::Disconnected,
            _ => state,
        },
        SessionState::Connected { in_flight } => match event {
            SessionEvent::FrameReceived(req) => match req {
                GatewayRequest::Shutdown => SessionState::Stopped,
                _ => if in_flight {
                    state
                } else {
                    SessionState::Connected { in_flight: true }
                },
            },
            SessionEvent::ApplyFinished(r) => SessionState::Connected { in_flight: false },
            SessionEvent::TrafficReady(t) => state,
            SessionEvent::EventReady(e) => state,
            SessionEvent::FrameInvalid => SessionState::Draining,
            SessionEvent::SubscriberLagged => SessionState::Draining,
            SessionEvent::TransportError => SessionState::Draining,
            SessionEvent::StreamClosed => SessionState::Draining,
            _ => state,
        },
        SessionState::Draining => match event {
            SessionEvent::Drained => SessionState::Disconnected,
            _ => state,
        },
        SessionState::Stopped => SessionState::Stopped,
    }
}

/// Whether an event makes the session start an apply.
pub open spec fn starts_apply(state: SessionState, event: SessionEvent) -> bool {
    state matches SessionState::Connected { in_flight: false } && (event matches
        SessionEvent::FrameReceived(req) && !(req is Shutdown))
}

/// Decide the session's next state and the actions to perform, in order.
pub fn session_step(state: SessionState, event: SessionEvent) -> (r: (
    SessionState,
    Vec<SessionAction>,
))
    ensures
        r.0 == next_state(state, event),
        state is Stopped ==> r.1@.len() == 0,
        (state matches SessionState::Disconnected && event matches
            SessionEvent::ConnectRequested) ==> r.1@ =~= seq![SessionAction::OpenChannel],
        (state matches SessionState::Connecting && event matches SessionEvent::ConnectFailed)
            ==> r.1@ =~= seq![SessionAction::ReconnectAfterDelay],
        starts_apply(state, event) ==> (r.1@.len() == 1 && (event matches
            SessionEvent::FrameReceived(req) ==> (match req {
            GatewayRequest::Apply(cfg) => r.1@[0] == SessionAction::StartApply(cfg),
            GatewayRequest::ApplyPartial(d) => r.1@[0] == SessionAction::StartApplyPartial(d),
            GatewayRequest::Shutdown => false,
        }))),
        (state matches SessionState::Connected { in_flight: true } && event matches
            SessionEvent::FrameReceived(req) && !(req is Shutdown)) ==> r.1@.len() == 0,
        (state matches SessionState::Connected { in_flight } && event matches
            SessionEvent::FrameReceived(req) && req is Shutdown) ==> r.1@ =~= seq![
            SessionAction::Stop,
        ],
        state is Connected ==> (match event {
            SessionEvent::ApplyFinished(res) => r.1@ =~= seq![
                SessionAction::SendFrame(GatewayResponse::Apply(res)),
            ],
            SessionEvent::TrafficReady(t) => r.1@ =~= seq![
                SessionAction::SendFrame(GatewayResponse::Traffic(t)),
            ],
            SessionEvent::EventReady(e) => r.1@ =~= seq![
                SessionAction::SendFrame(GatewayResponse::Event(e)),
            ],
            _ => true,
        }),
        (state is Connected && (event is FrameInvalid || event is SubscriberLagged || event
            is TransportError || event is StreamClosed)) ==> r.1@ =~= seq![
            SessionAction::ReconnectAfterDelay,
        ],
        (state is Disconnected && !(event is ConnectRequested)) ==> r.1@.len() == 0,
        (state is Connecting && !(event is ConnectFailed)) ==> r.1@.len() == 0,
        state is Draining ==> r.1@.len() == 0,
        (state is Connected && (event is ConnectRequested || event is ConnectSucceeded || event
            is ConnectFailed || event is Drained)) ==> r.1@.len() == 0,
{
    let mut actions: Vec<SessionAction> = Vec::new();
    let next: SessionState = match (state, event) {
        (SessionState::Disconnected, SessionEvent::ConnectRequested) => {
            actions.push(SessionAction::OpenChannel);
            SessionState::Connecting
        },
        (SessionState::Disconnected, _) => SessionState::Disconnected,
        (SessionState::Connecting, SessionEvent::ConnectSucceeded) => SessionState::Connected {
            in_flight: false,
        },
        (SessionState::Connecting, SessionEvent::ConnectFailed) => {
            actions.push(SessionAction::ReconnectAfterDelay);
            SessionState::Disconnected
        },
        (SessionState::Connecting, _) => SessionState::Connecting,
        (SessionState::Connected { in_flight }, SessionEvent::FrameReceived(req)) => match req {
            GatewayRequest::Shutdown => {
                actions.push(SessionAction::Stop);
                SessionState::Stopped
            },
            GatewayRequest::Apply(cfg) => {
                if in_flight {
                    SessionState::Connected { in_flight: true }
                } else {
                    actions.push(SessionAction::StartApply(cfg));
                    SessionState::Connected { in_flight: true }
                }
            },
            GatewayRequest::ApplyPartial(d) => {
                if in_flight {
                    SessionState::Connected { in_flight: true }
                } else {
                    actions.push(SessionAction::StartApplyPartial(d));
                    SessionState::Connected { in_flight: true }
                }
            },
        },
        (SessionState::Connected { in_flight }, SessionEvent::ApplyFinished(res)) => {
            actions.push(SessionAction::SendFrame(GatewayResponse::Apply(res)));
            SessionState::Connected { in_flight: false }
        },
        (SessionState::Connected { in_flight }, SessionEvent::TrafficReady(t)) => {
            actions.push(SessionAction::SendFrame(GatewayResponse::Traffic(t)));
            SessionState::Connected { in_flight }
        },
        (SessionState::Connected { in_flight }, SessionEvent::EventReady(e)) => {
            actions.push(SessionAction::SendFrame(GatewayResponse::Event(e)));
            SessionState::Connected { in_flight }
        },
        (SessionState::Connected { in_flight }, SessionEvent::FrameInvalid) => {
            actions.push(SessionAction::ReconnectAfterDelay);
            SessionState::Draining
        },
        (SessionState::Connected { in_flight }, SessionEvent::SubscriberLagged) => {
            actions.push(SessionAction::ReconnectAfterDelay);
            SessionState::Draining
        },
        (SessionState::Connected { in_flight }, SessionEvent::TransportError) => {
            actions.push(SessionAction::ReconnectAfterDelay);
            SessionState::Draining
        },
        (SessionState::Connected { in_flight }, SessionEvent::StreamClosed) => {
            actions.push(SessionAction::ReconnectAfterDelay);
            SessionState::Draining
        },
        (SessionState::Connected { in_flight }, _) => SessionState::Connected { in_flight },
        (SessionState::Draining, SessionEvent::Drained) => SessionState::Disconnected,
        (SessionState::Draining, _) => SessionState::Draining,
        (SessionState::Stopped, _) => SessionState::Stopped,
    };
    (next, actions)
}

/// Orderly shutdown: once stopped, the session stays stopped and performs
/// no further action, so no apply runs and no frame leaves after a
/// shutdown order.
pub proof fn lemma_stopped_is_terminal(event: SessionEvent)
    ensures
        next_state(SessionState::Stopped, event) is Stopped,
        !starts_apply(SessionState::Stopped, event),
{
}

/// At most one apply is in flight: an apply starts only from a connected
/// state with none in flight, and the session then marks one in flight
/// until the apply reports back.
pub proof fn lemma_single_apply(state: SessionState, event: SessionEvent)
    ensures
        starts_apply(state, event) ==> (state matches SessionState::Connected {
            in_flight: false,
        } && next_state(state, event) matches SessionState::Connected { in_flight: true }),
{
}

} // verus!
