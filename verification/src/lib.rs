//! Verified core of a WireGuard gateway daemon.
//!
//! The gateway hosts many independent WireGuard endpoints, each isolated in
//! its own network namespace and bridged to a shared host-side bridge. This
//! crate holds the verified logic: the domain model with its derived naming,
//! the rendered configuration text, the differential reconciliation plans,
//! the watchdog that turns raw per-peer counters into traffic deltas and
//! connection-lifecycle events, and the control-plane session state machine.
//! The surrounding process (shell-outs to the OS tools, the socket loops,
//! JSON framing) lives outside and feeds this core plain values.

use vstd::prelude::*;

pub mod addr;
pub mod bytes;
pub mod config;
pub mod forwarding;
pub mod keys;
pub mod kvmap;
pub mod reconcile;
pub mod render;
pub mod session;
pub mod stats;
pub mod token;
pub mod traffic;
pub mod watchdog;

verus! {

/// A peer connected: the watchdog saw a fresh handshake where the peer was
/// absent or disconnected before.
#[derive(Clone, Debug)]
pub struct GatewayPeerConnectedEvent {
    /// The network's public key.
    pub network: keys::Pubkey,
    /// The peer's public key.
    pub peer: keys::Pubkey,
    /// The peer's current endpoint, as observed.
    pub endpoint: Vec<u8>,
}

/// A peer disconnected: its handshake aged past the timeout, or it left
/// the configuration.
#[derive(Clone, Debug)]
pub struct GatewayPeerDisconnectedEvent {
    /// The network's public key.
    pub network: keys::Pubkey,
    /// The peer's public key.
    pub peer: keys::Pubkey,
}

/// A connected peer's source endpoint changed.
#[derive(Clone, Debug)]
pub struct GatewayPeerEndpointEvent {
    /// The network's public key.
    pub network: keys::Pubkey,
    /// The peer's public key.
    pub peer: keys::Pubkey,
    /// The new endpoint.
    pub endpoint: Vec<u8>,
}

/// Connection-lifecycle events emitted on the gateway's event stream.
#[derive(Clone, Debug)]
pub enum GatewayEvent {
    PeerConnected(GatewayPeerConnectedEvent),
    PeerDisconnected(GatewayPeerDisconnectedEvent),
    Endpoint(GatewayPeerEndpointEvent),
}

/// Gateway-level error kinds, as surfaced to the control plane.
#[derive(Clone, Debug)]
pub enum GatewayError {
    /// An inbound frame or configuration failed structural validation.
    ConfigInvalid(Vec<u8>),
    /// An underlying OS tool exited with a failure; carries its diagnostic.
    ToolFailed(Vec<u8>),
    /// An underlying OS tool is absent from the host.
    ToolMissing,
    /// A filesystem operation failed.
    IoError(Vec<u8>),
    /// An invariant of the realized state was observed to be violated.
    StateInconsistent(Vec<u8>),
    /// The control-plane transport broke.
    ChannelError,
    /// A broadcast subscriber fell behind and lost items.
    Lag,
}

impl GatewayError {
    /// A short stable label for the error kind.
    pub fn label(&self) -> (r: &'static str)
        ensures
            (self is ConfigInvalid) ==> r@ == "config invalid"@,
            (self is ToolFailed) ==> r@ == "tool failed"@,
            (self is ToolMissing) ==> r@ == "tool missing"@,
            (self is IoError) ==> r@ == "io error"@,
            (self is StateInconsistent) ==> r@ == "state inconsistent"@,
            (self is ChannelError) ==> r@ == "channel error"@,
            (self is Lag) ==> r@ == "lag"@,
    {
        match self {
            GatewayError::ConfigInvalid(_) => "config invalid",
            GatewayError::ToolFailed(_) => "tool failed",
            GatewayError::ToolMissing => "tool missing",
            GatewayError::IoError(_) => "io error",
            GatewayError::StateInconsistent(_) => "state inconsistent",
            GatewayError::ChannelError => "channel error",
            GatewayError::Lag => "lag",
        }
    }
}

} // verus!
