use rand::rngs::SmallRng;
use rand::SeedableRng;

use aquatic::access_list::AccessList;
use aquatic::codec::{parse_response, serialize_request, ConnectRequest, Request, Response};
use aquatic::common::{PeerAddr, PeerIp};
use aquatic::config::TrackerConfig;
use aquatic::handler::{handle_packet, TrackerState};

#[test]
fn malformed_datagram_is_dropped_silently() {
    let mut state = TrackerState::new();
    let config = TrackerConfig::default();
    let mut rng = SmallRng::seed_from_u64(3);
    let src = PeerAddr { ip: PeerIp::V4(0x0a000001), port: 6881 };
    let acl = AccessList::off();

    // Too short for any frame.
    assert!(handle_packet(&mut state, &config, &mut rng, 0, src, &acl, &[1, 2, 3]).is_none());

    // A connect frame with a corrupted magic constant.
    let mut frame = serialize_request(&Request::Connect(ConnectRequest { transaction_id: 1 }));
    frame[0] ^= 0xff;
    assert!(handle_packet(&mut state, &config, &mut rng, 0, src, &acl, &frame).is_none());
}

#[test]
fn connect_datagram_is_answered_in_kind() {
    let mut state = TrackerState::new();
    let config = TrackerConfig::default();
    let mut rng = SmallRng::seed_from_u64(5);
    let src = PeerAddr { ip: PeerIp::V4(0x0a000001), port: 6881 };
    let acl = AccessList::off();

    let frame = serialize_request(&Request::Connect(ConnectRequest { transaction_id: 77 }));
    let answer = handle_packet(&mut state, &config, &mut rng, 0, src, &acl, &frame).unwrap();
    match parse_response(&answer, true).unwrap() {
        Response::Connect(c) => assert_eq!(c.transaction_id, 77),
        other => panic!("expected connect response, got {:?}", other),
    }
}
