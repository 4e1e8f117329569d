//! Direct connections between nodes: how they are made, keyed, framed and bound to devices.

use vstd::prelude::*;
use crate::uapi::ConnState;

pub mod candidates;
pub mod conn_dc;
pub mod conn_ice;
pub mod conn_rustrtc;
pub mod fm_ice;
pub mod fm_laws;
pub mod frame;
pub mod peers;
pub mod peers_laws;
pub mod registry;
pub mod tap;
pub mod tap_laws;
pub mod tun;

verus! {

/// A server that helps to find a path between two nodes.
#[derive(Clone, Debug)]
pub struct IceServer {
    pub url: String,
    pub username: Option<String>,
    pub credential: Option<String>,
}

/// How far a connection has come.
#[derive(Clone, Copy, PartialEq, Eq, Structural, Debug)]
pub enum ConnectionState {
    Connecting,
    Connected,
    Closed,
}

/// How far a connection has come that is in this state. One that has only lost its path for now still
/// counts as connected.
pub open spec fn condensed_state(state: ConnState) -> ConnectionState {
    match state {
        ConnState::New | ConnState::Connecting => ConnectionState::Connecting,
        ConnState::Connected | ConnState::Disconnected => ConnectionState::Connected,
        ConnState::Failed | ConnState::Closed => ConnectionState::Closed,
    }
}

/// How far a connection has come that is in this state.
pub fn status(state: ConnState) -> (result: ConnectionState)
    ensures
        result == condensed_state(state),
{
    match state {
        ConnState::New | ConnState::Connecting => ConnectionState::Connecting,
        ConnState::Connected | ConnState::Disconnected => ConnectionState::Connected,
        ConnState::Failed | ConnState::Closed => ConnectionState::Closed,
    }
}

/// How far a connection has come, as the control interface tells it.
pub open spec fn reported_state(state: ConnectionState) -> ConnState {
    match state {
        ConnectionState::Connecting => ConnState::Connecting,
        ConnectionState::Connected => ConnState::Connected,
        ConnectionState::Closed => ConnState::Closed,
    }
}

/// How far a connection has come, as the control interface tells it.
pub fn report_state(state: ConnectionState) -> (result: ConnState)
    ensures
        result == reported_state(state),
{
    match state {
        ConnectionState::Connecting => ConnState::Connecting,
        ConnectionState::Connected => ConnState::Connected,
        ConnectionState::Closed => ConnState::Closed,
    }
}

/// A connection that has been made counts as up while it may come back, as coming up before it has
/// been made, and as closed once it is over.
pub proof fn lemma_states_condensed(state: ConnState)
    ensures
        condensed_state(state) is Connecting <==> state is New || state is Connecting,
        condensed_state(state) is Connected <==> state is Connected || state is Disconnected,
        condensed_state(state) is Closed <==> state is Failed || state is Closed,
{
}

/// A state is reported under its own name.
pub proof fn lemma_states_reported(state: ConnectionState)
    ensures
        condensed_state(reported_state(state)) == state,
        reported_state(state) is Connecting <==> state is Connecting,
        reported_state(state) is Connected <==> state is Connected,
        reported_state(state) is Closed <==> state is Closed,
{
}

} // verus!
