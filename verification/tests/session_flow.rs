use fractal_gateway::config::GatewayConfig;
use fractal_gateway::session::{
    session_step, GatewayRequest, GatewayResponse, SessionAction, SessionEvent, SessionState,
};

#[test]
fn connect_cycle() {
    let (s, a) = session_step(SessionState::Disconnected, SessionEvent::ConnectRequested);
    assert_eq!(s, SessionState::Connecting);
    assert!(matches!(a[0], SessionAction::OpenChannel));
    let (s, a) = session_step(s, SessionEvent::ConnectSucceeded);
    assert_eq!(s, SessionState::Connected { in_flight: false });
    assert!(a.is_empty());
}

#[test]
fn failed_connect_retries_after_delay() {
    let (s, a) = session_step(SessionState::Connecting, SessionEvent::ConnectFailed);
    assert_eq!(s, SessionState::Disconnected);
    assert!(matches!(a[0], SessionAction::ReconnectAfterDelay));
}

#[test]
fn apply_runs_once_and_answers_once() {
    let s = SessionState::Connected { in_flight: false };
    let cfg = GatewayConfig::empty();
    let (s, a) = session_step(s, SessionEvent::FrameReceived(GatewayRequest::Apply(cfg)));
    assert_eq!(s, SessionState::Connected { in_flight: true });
    assert_eq!(a.len(), 1);
    assert!(matches!(a[0], SessionAction::StartApply(_)));
    let (s, a) = session_step(s, SessionEvent::ApplyFinished(Ok(b"done".to_vec())));
    assert_eq!(s, SessionState::Connected { in_flight: false });
    assert!(matches!(&a[0], SessionAction::SendFrame(GatewayResponse::Apply(Ok(m)))
        if m == &b"done".to_vec()));
}

#[test]
fn transport_errors_drain_and_reconnect() {
    let s = SessionState::Connected { in_flight: false };
    let (s, a) = session_step(s, SessionEvent::TransportError);
    assert_eq!(s, SessionState::Draining);
    assert!(matches!(a[0], SessionAction::ReconnectAfterDelay));
    let (s, a) = session_step(s, SessionEvent::Drained);
    assert_eq!(s, SessionState::Disconnected);
    assert!(a.is_empty());
}

#[test]
fn shutdown_is_terminal() {
    let s = SessionState::Connected { in_flight: false };
    let (s, a) = session_step(s, SessionEvent::FrameReceived(GatewayRequest::Shutdown));
    assert_eq!(s, SessionState::Stopped);
    assert!(matches!(a[0], SessionAction::Stop));
    // nothing more is accepted or sent after the shutdown order
    let cfg = GatewayConfig::empty();
    let (s, a) = session_step(s, SessionEvent::FrameReceived(GatewayRequest::Apply(cfg)));
    assert_eq!(s, SessionState::Stopped);
    assert!(a.is_empty());
    let (_, a) = session_step(s, SessionEvent::TrafficReady(
        fractal_gateway::traffic::TrafficInfo::new(0),
    ));
    assert!(a.is_empty());
}
