//! One announce attempt against one tracker, as a state machine: the network
//! work happens outside, this decides what to do with each outcome.
use vstd::prelude::*;
use crate::infohash::InfoHashEncoded;
use crate::peer_id::PeerID;
use crate::trackers::{
    read_be32, read_be64, Tracker, TrackerRequest, UdpConnectRequest, UdpConnectResponse, UdpTrackerRequestParams,
};

verus! {

/// Where an attempt stands.
#[derive(Debug)]
pub enum AttemptState {
    /// Waiting for the answer to a UDP connect request sent to `host`.
    Connecting { url: String, host: String, request: UdpConnectRequest, info_hash: InfoHashEncoded, peer_id: PeerID },
    /// The request is ready.
    Done { request: TrackerRequest },
    /// The attempt ended without a request.
    Failed { reason: String },
}

/// What the network layer reports back.
#[derive(Debug)]
pub enum AttemptEvent {
    /// The datagram that came back.
    Reply(Vec<u8>),
    /// Nothing came back in time.
    Timeout,
    /// The socket failed.
    SocketError(String),
}

/// What the network layer is asked to do next.
#[derive(Debug)]
pub enum AttemptAction {
    /// Send the connect packet to `host` and wait for one reply.
    SendConnect { host: String, packet: [u8; 16] },
    /// Nothing more to send.
    Stop,
}

impl AttemptState {
    pub open spec fn is_terminal(&self) -> bool {
        self is Done || self is Failed
    }
}

/// Begins an attempt: an HTTP tracker is ready at once, a UDP tracker first
/// sends a connect request with transaction id `tid`, and any other scheme fails.
pub fn start(tracker: &Tracker, info_hash: InfoHashEncoded, peer_id: PeerID, tid: i32) -> (r: (AttemptState, AttemptAction))
    ensures
        tracker is Http ==> (r.0 matches AttemptState::Done { request } && request is Http) && r.1 is Stop,
        tracker is Udp ==> (r.0 is Connecting && r.1 is SendConnect) || (r.0 is Failed && r.1 is Stop),
        r.0 matches AttemptState::Connecting { request, .. } ==> request.transaction_id == tid
            && (r.1 matches AttemptAction::SendConnect { packet, .. } && packet@ == request.spec_bytes()),
        tracker is Invalid ==> r.0 is Failed && r.1 is Stop,
        tracker is Http ==> (r.0 matches AttemptState::Done { request: TrackerRequest::Http { url, params } }
            && url@ == tracker.spec_url() && params == crate::trackers::HttpTrackerRequestParams::spec_new(info_hash, peer_id)),
        r.0 matches AttemptState::Connecting { url, host, .. } ==> url@ == tracker.spec_url()
            && crate::value::text_bytes(host) == crate::trackers::spec_udp_host(vstd::utf8::encode_utf8(tracker.spec_url()))
            && (r.1 matches AttemptAction::SendConnect { host: h, .. } && h == host),
        tracker is Udp && crate::trackers::starts_with(vstd::utf8::encode_utf8(tracker.spec_url()), crate::trackers::udp_prefix())
            && vstd::utf8::valid_utf8(crate::trackers::spec_udp_host(vstd::utf8::encode_utf8(tracker.spec_url())))
            ==> r.0 is Connecting && r.1 is SendConnect,
{
    match tracker {
        Tracker::Http(_) => match tracker.generate_request(info_hash, peer_id, None) {
            Ok(request) => (AttemptState::Done { request }, AttemptAction::Stop),
            Err(reason) => (AttemptState::Failed { reason }, AttemptAction::Stop),
        },
        Tracker::Udp(url) => match crate::trackers::udp_host(url.as_str()) {
            Some(host) => {
                let request = UdpConnectRequest::new(tid);
                let packet = request.as_bytes();
                (
                    AttemptState::Connecting { url: url.clone(), host: host.clone(), request, info_hash, peer_id },
                    AttemptAction::SendConnect { host, packet },
                )
            },
            None => (AttemptState::Failed { reason: "Malformed UDP tracker URL".to_string() }, AttemptAction::Stop),
        },
        Tracker::Invalid(_) => match tracker.generate_request(info_hash, peer_id, None) {
            Ok(request) => (AttemptState::Done { request }, AttemptAction::Stop),
            Err(reason) => (AttemptState::Failed { reason }, AttemptAction::Stop),
        },
    }
}

/// Takes one report of the network layer. A reply to a connect request
/// completes the attempt exactly when it is a connect answer with the
/// request's transaction id; a timeout or socket error fails it. Nothing is
/// retried, and a finished attempt stays as it is.
pub fn on_event(state: AttemptState, event: AttemptEvent) -> (r: (AttemptState, AttemptAction))
    ensures
        r.1 is Stop,
        state.is_terminal() ==> r.0 == state,
        state matches AttemptState::Connecting { url, request, info_hash, peer_id, .. } ==> match event {
            AttemptEvent::Reply(b) => if b@.len() >= 16 && read_be32(b@, 0) == 0 && read_be32(b@, 4) == request.transaction_id as u32 {
                r.0 matches AttemptState::Done { request: TrackerRequest::Udp { url: u, connection_id, params } }
                    && u == url && connection_id == read_be64(b@, 8) as i64
                    && params == UdpTrackerRequestParams::spec_new(connection_id, info_hash, peer_id)
            } else {
                r.0 is Failed
            },
            _ => r.0 is Failed,
        },
{
    match state {
        AttemptState::Connecting { url, host, request, info_hash, peer_id } => match event {
            AttemptEvent::Reply(b) => match UdpConnectResponse::from_bytes(b.as_slice(), &request) {
                Ok(resp) => {
                    let connection_id = resp.connection_id;
                    let params = UdpTrackerRequestParams::new(connection_id, info_hash, peer_id);
                    (AttemptState::Done { request: TrackerRequest::Udp { url, connection_id, params } }, AttemptAction::Stop)
                },
                Err(reason) => (AttemptState::Failed { reason }, AttemptAction::Stop),
            },
            AttemptEvent::Timeout => (AttemptState::Failed { reason: "Connection timed out".to_string() }, AttemptAction::Stop),
            AttemptEvent::SocketError(reason) => (AttemptState::Failed { reason }, AttemptAction::Stop),
        },
        other => (other, AttemptAction::Stop),
    }
}

} // verus!
