use zung::infohash::InfoHash;
use zung::peer_id::PeerID;
use zung::trackers::{
    udp_host, Action, Event, Tracker, TrackerID, TrackerRequest, UdpConnectRequest, UdpConnectResponse,
    UdpTrackerRequestParams, UDP_PROTOCOL_ID,
};

const TEST_PID: u32 = 4242;

fn http_request() -> TrackerRequest {
    let info_hash = InfoHash::new(b"test info_hash").as_encoded();
    let peer_id = PeerID::new(TEST_PID);
    Tracker::new("http://example.com/announce").generate_request(info_hash, peer_id, None).unwrap()
}

#[test]
fn test_tracker_request_creation() {
    match http_request() {
        TrackerRequest::Http { url, params } => {
            assert_eq!(url, "http://example.com/announce");
            assert_eq!(params.port, 6881);
            assert_eq!(params.uploaded, 0);
            assert_eq!(params.downloaded, 0);
            assert_eq!(params.left, 0);
            assert!(params.compact);
            assert!(!params.no_peer_id);
            assert_eq!(params.event, Some(Event::Started));
            assert_eq!(params.numwant, Some(0));
        }
        TrackerRequest::Udp { .. } => unreachable!("Why is http being read as upd?"),
    }
}

#[test]
fn test_tracker_request_to_url() {
    let info_hash = InfoHash::new(b"test info_hash").as_encoded();
    let tracker_request = http_request();
    let generated_url = tracker_request.to_url().unwrap();
    match tracker_request {
        TrackerRequest::Http { params, .. } => {
            assert!(generated_url.contains("http://example.com/announce"));
            assert!(generated_url.contains(&format!("info_hash={}", info_hash.to_url_encoded())));
            assert!(generated_url.contains(&format!("peer_id={}", params.peer_id.to_url_encoded())));
            assert!(generated_url.contains("&port=6881&uploaded=0&downloaded=0&left=0&compact=1&no_peer_id=0&event=started&numwant=0"));
        }
        _ => panic!(),
    }
}

#[test]
fn test_bool_as_int_serialization() {
    let mut tracker_request = http_request();
    match &mut tracker_request {
        TrackerRequest::Http { params, .. } => {
            params.compact = true;
            params.no_peer_id = true;
        }
        _ => panic!(),
    }
    let generated_url = tracker_request.to_url().unwrap();
    assert!(generated_url.contains("compact=1"));
    assert!(generated_url.contains("no_peer_id=1"));
    match &mut tracker_request {
        TrackerRequest::Http { params, .. } => {
            params.compact = false;
            params.no_peer_id = false;
        }
        _ => panic!(),
    }
    let generated_url = tracker_request.to_url().unwrap();
    assert!(generated_url.contains("compact=0"));
    assert!(generated_url.contains("no_peer_id=0"));
}

#[test]
fn test_optional_parameters() {
    let mut tracker_request = http_request();
    match &mut tracker_request {
        TrackerRequest::Http { params, .. } => {
            params.ip = Some("2001db81".to_string());
            params.numwant = Some(25);
            params.key = Some("unique-key".to_string());
            params.trackerid = Some(TrackerID { id: "tracker-id-123".to_string() });
        }
        _ => panic!(),
    }
    let generated_url = tracker_request.to_url().unwrap();
    assert!(generated_url.contains("ip=2001db81"));
    assert!(generated_url.contains("numwant=25"));
    assert!(generated_url.contains("key=unique-key"));
    assert!(generated_url.contains("trackerid=tracker-id-123"));
}

#[test]
fn query_values_are_form_encoded() {
    let mut r = http_request();
    if let TrackerRequest::Http { params, .. } = &mut r {
        params.key = Some("a b&c".to_string());
    }
    let url = r.to_url().unwrap();
    assert!(url.contains("key=a+b%26c"));
}

#[test]
fn tracker_classification() {
    assert!(matches!(Tracker::new("https://x/announce"), Tracker::Http(_)));
    assert!(matches!(Tracker::new("udp://x:1/announce"), Tracker::Udp(_)));
    assert!(matches!(Tracker::new("wss://x"), Tracker::Invalid(_)));
    let info_hash = InfoHash::new(b"x").as_encoded();
    let peer_id = PeerID::new(1);
    let err = Tracker::new("wss://x").generate_request(info_hash, peer_id, None).unwrap_err();
    assert_eq!(err, "Unsupported : wss://x");
    assert!(Tracker::new("udp://x:1").generate_request(info_hash, peer_id, None).is_err());
    let udp = Tracker::new("udp://x:1").generate_request(info_hash, peer_id, Some(77)).unwrap();
    assert_eq!(udp.connection_id(), Some(77));
    assert_eq!(udp.to_url().unwrap(), "udp://x:1");
}

#[test]
fn event_and_action_codes() {
    assert_eq!(Event::from_i32(2).unwrap(), Event::Started);
    assert_eq!(Event::from_i32(0).unwrap(), Event::Empty);
    assert!(Event::from_i32(4).is_err());
    assert_eq!(Event::from_i32(-17).unwrap_err(), "Invalid event parameter: -17");
    assert_eq!(Action::from_i32(42).unwrap_err(), "Invalid action parameter: 42");
    assert_eq!(Action::from_i32(1).unwrap(), Action::Announce);
    assert!(Action::from_i32(-1).is_err());
    assert_eq!(Event::Stopped.code(), 3);
}

#[test]
fn connect_request_bytes() {
    let req = UdpConnectRequest::new(0x01020304);
    assert_eq!(req.protocol_id, UDP_PROTOCOL_ID);
    assert_eq!(
        req.as_bytes(),
        [0x00, 0x00, 0x04, 0x17, 0x27, 0x10, 0x19, 0x80, 0, 0, 0, 0, 1, 2, 3, 4]
    );
}

#[test]
fn connect_response_checks_transaction_id() {
    let req = UdpConnectRequest::new(0x01020304);
    let good = [0, 0, 0, 0, 1, 2, 3, 4, 0, 0, 0, 0, 0, 0, 0x01, 0x00];
    let r = UdpConnectResponse::from_bytes(&good, &req).unwrap();
    assert_eq!(r.connection_id, 256);
    assert_eq!(r.action, Action::Connect);
    let wrong_tid = [0, 0, 0, 0, 1, 2, 3, 5, 0, 0, 0, 0, 0, 0, 0x01, 0x00];
    assert!(UdpConnectResponse::from_bytes(&wrong_tid, &req).is_err());
    let wrong_action = [0, 0, 0, 1, 1, 2, 3, 4, 0, 0, 0, 0, 0, 0, 0x01, 0x00];
    assert!(UdpConnectResponse::from_bytes(&wrong_action, &req).is_err());
    assert!(UdpConnectResponse::from_bytes(&good[..15], &req).is_err());
}

#[test]
fn announce_packet_layout() {
    let info_hash = InfoHash::new(b"x").as_encoded();
    let peer_id = PeerID::new(1);
    let p = UdpTrackerRequestParams::new(9, info_hash, peer_id);
    let b = p.as_bytes();
    assert_eq!(b.len(), 98);
    assert_eq!(&b[0..8], &[0, 0, 0, 0, 0, 0, 0, 9]);
    assert_eq!(&b[8..12], &[0, 0, 0, 1]);
    assert_eq!(&b[16..36], &info_hash.0);
    assert_eq!(&b[36..56], &peer_id.as_bytes());
    assert_eq!(&b[80..84], &[0, 0, 0, 0]);
    assert_eq!(&b[92..96], &[0xff, 0xff, 0xff, 0xff]);
    assert_eq!(&b[96..98], &[0x1a, 0xe6]);
}

#[test]
fn udp_host_of_url() {
    assert_eq!(udp_host("udp://tracker.example:1337/announce"), Some("tracker.example:1337".to_string()));
    assert_eq!(udp_host("udp://h:1"), Some("h:1".to_string()));
    assert_eq!(udp_host("http://h:1"), None);
}

#[test]
fn set_uploaded_updates_both_forms() {
    let mut r = http_request();
    r.set_uploaded(5);
    assert!(r.to_url().unwrap().contains("uploaded=5"));
}

#[test]
fn empty_event_is_left_out() {
    let mut r = http_request();
    if let TrackerRequest::Http { params, .. } = &mut r {
        params.event = Some(Event::Empty);
    }
    let url = r.to_url().unwrap();
    assert!(!url.contains("event="));
    assert!(url.contains("no_peer_id=0&numwant=0"));
}
