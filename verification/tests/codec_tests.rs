use aquatic::codec::{
    parse_request, parse_response, serialize_request, serialize_response, AnnounceRequest,
    AnnounceResponse, ConnectRequest, ConnectResponse, ErrorResponse, ParseError, Request,
    Response, ScrapeRequest, ScrapeResponse, TorrentScrapeStatistics, PROTOCOL_MAGIC,
};
use aquatic::common::{AnnounceEvent, InfoHash, PeerAddr, PeerId, PeerIp};

fn connect_frame(transaction_id: u32) -> Vec<u8> {
    let mut out = Vec::new();
    out.extend_from_slice(&PROTOCOL_MAGIC.to_be_bytes());
    out.extend_from_slice(&0u32.to_be_bytes());
    out.extend_from_slice(&transaction_id.to_be_bytes());
    out
}

#[test]
fn connect_request_roundtrip() {
    let frame = connect_frame(0x01020304);
    assert_eq!(frame.len(), 16);
    let parsed = parse_request(&frame).unwrap();
    match &parsed {
        Request::Connect(c) => assert_eq!(c.transaction_id, 0x01020304),
        _ => panic!("wrong request kind"),
    }
    assert_eq!(serialize_request(&parsed), frame);
}

#[test]
fn connect_request_bad_magic_is_refused() {
    let mut frame = connect_frame(1);
    frame[0] = 0xff;
    assert!(matches!(parse_request(&frame), Err(ParseError::BadMagic)));
}

#[test]
fn short_frame_is_refused() {
    assert!(matches!(parse_request(&[0u8; 15]), Err(ParseError::UnderLength)));
    assert!(matches!(parse_request(&[]), Err(ParseError::UnderLength)));
}

#[test]
fn unknown_action_is_refused() {
    let mut frame = connect_frame(1);
    frame[11] = 9;
    assert!(matches!(parse_request(&frame), Err(ParseError::BadAction)));
}

fn announce_request() -> AnnounceRequest {
    AnnounceRequest {
        connection_id: 0x1122334455667788,
        transaction_id: 0x99aabbcc,
        info_hash: InfoHash([0xaa; 20]),
        peer_id: PeerId([0xbb; 20]),
        bytes_downloaded: 1000,
        bytes_left: 500,
        bytes_uploaded: 250,
        event: AnnounceEvent::Started,
        ip_field: 0,
        key: 0xdeadbeef,
        num_want: 50,
        port: 6881,
    }
}

#[test]
fn announce_request_roundtrip() {
    let req = Request::Announce(announce_request());
    let frame = serialize_request(&req);
    assert_eq!(frame.len(), 98);
    match parse_request(&frame).unwrap() {
        Request::Announce(a) => {
            assert_eq!(a.connection_id, 0x1122334455667788);
            assert_eq!(a.transaction_id, 0x99aabbcc);
            assert_eq!(a.info_hash.0, [0xaa; 20]);
            assert_eq!(a.peer_id.0, [0xbb; 20]);
            assert_eq!(a.bytes_downloaded, 1000);
            assert_eq!(a.bytes_left, 500);
            assert_eq!(a.bytes_uploaded, 250);
            assert_eq!(a.event, AnnounceEvent::Started);
            assert_eq!(a.key, 0xdeadbeef);
            assert_eq!(a.num_want, 50);
            assert_eq!(a.port, 6881);
        },
        _ => panic!("wrong request kind"),
    }
    // The serialize-of-parse direction on the same bytes.
    let reparsed = parse_request(&frame).unwrap();
    assert_eq!(serialize_request(&reparsed), frame);
}

#[test]
fn announce_request_bad_event_is_refused() {
    let req = Request::Announce(announce_request());
    let mut frame = serialize_request(&req);
    frame[83] = 4;
    assert!(matches!(parse_request(&frame), Err(ParseError::BadEvent)));
}

#[test]
fn scrape_request_roundtrip() {
    let req = Request::Scrape(ScrapeRequest {
        connection_id: 42,
        transaction_id: 7,
        info_hashes: vec![InfoHash([1; 20]), InfoHash([2; 20]), InfoHash([3; 20])],
    });
    let frame = serialize_request(&req);
    assert_eq!(frame.len(), 16 + 3 * 20);
    match parse_request(&frame).unwrap() {
        Request::Scrape(s) => {
            assert_eq!(s.connection_id, 42);
            assert_eq!(s.transaction_id, 7);
            assert_eq!(s.info_hashes.len(), 3);
            assert_eq!(s.info_hashes[1].0, [2; 20]);
        },
        _ => panic!("wrong request kind"),
    }
    assert_eq!(serialize_request(&parse_request(&frame).unwrap()), frame);
}

#[test]
fn scrape_request_hash_count_limits() {
    // Zero hashes: refused.
    let empty = serialize_request(&Request::Scrape(ScrapeRequest {
        connection_id: 1,
        transaction_id: 1,
        info_hashes: vec![],
    }));
    assert!(matches!(parse_request(&empty), Err(ParseError::BadScrapeLength)));

    // 74 hashes: the largest accepted request.
    let hashes: Vec<InfoHash> = (0..74).map(|i| InfoHash([i as u8; 20])).collect();
    let big = serialize_request(&Request::Scrape(ScrapeRequest {
        connection_id: 1,
        transaction_id: 1,
        info_hashes: hashes,
    }));
    assert!(matches!(parse_request(&big), Ok(Request::Scrape(_))));

    // 75 hashes: refused.
    let hashes: Vec<InfoHash> = (0..75).map(|i| InfoHash([i as u8; 20])).collect();
    let too_big = serialize_request(&Request::Scrape(ScrapeRequest {
        connection_id: 1,
        transaction_id: 1,
        info_hashes: hashes,
    }));
    assert!(matches!(parse_request(&too_big), Err(ParseError::BadScrapeLength)));

    // A ragged tail: refused.
    let mut ragged = serialize_request(&Request::Scrape(ScrapeRequest {
        connection_id: 1,
        transaction_id: 1,
        info_hashes: vec![InfoHash([1; 20])],
    }));
    ragged.push(0);
    assert!(matches!(parse_request(&ragged), Err(ParseError::BadScrapeLength)));
}

#[test]
fn connect_response_roundtrip() {
    let resp = Response::Connect(ConnectResponse {
        transaction_id: 5,
        connection_id: 0x0102030405060708,
    });
    let frame = serialize_response(&resp);
    assert_eq!(frame.len(), 16);
    match parse_response(&frame, true).unwrap() {
        Response::Connect(c) => {
            assert_eq!(c.transaction_id, 5);
            assert_eq!(c.connection_id, 0x0102030405060708);
        },
        _ => panic!("wrong response kind"),
    }
    assert_eq!(serialize_response(&parse_response(&frame, true).unwrap()), frame);
}

#[test]
fn announce_response_roundtrip_v4() {
    let resp = Response::Announce(AnnounceResponse {
        transaction_id: 9,
        announce_interval: 1800,
        leechers: 2,
        seeders: 1,
        peers: vec![
            PeerAddr { ip: PeerIp::V4(0x0a000001), port: 6881 },
            PeerAddr { ip: PeerIp::V4(0x0a000002), port: 6882 },
        ],
    });
    let frame = serialize_response(&resp);
    assert_eq!(frame.len(), 20 + 2 * 6);
    match parse_response(&frame, true).unwrap() {
        Response::Announce(a) => {
            assert_eq!(a.transaction_id, 9);
            assert_eq!(a.announce_interval, 1800);
            assert_eq!(a.leechers, 2);
            assert_eq!(a.seeders, 1);
            assert_eq!(a.peers.len(), 2);
            assert_eq!(a.peers[0], PeerAddr { ip: PeerIp::V4(0x0a000001), port: 6881 });
        },
        _ => panic!("wrong response kind"),
    }
    assert_eq!(serialize_response(&parse_response(&frame, true).unwrap()), frame);
}

#[test]
fn announce_response_roundtrip_v6() {
    let resp = Response::Announce(AnnounceResponse {
        transaction_id: 9,
        announce_interval: 60,
        leechers: 0,
        seeders: 1,
        peers: vec![PeerAddr { ip: PeerIp::V6(1), port: 9 }],
    });
    let frame = serialize_response(&resp);
    assert_eq!(frame.len(), 20 + 18);
    match parse_response(&frame, false).unwrap() {
        Response::Announce(a) => {
            assert_eq!(a.peers, vec![PeerAddr { ip: PeerIp::V6(1), port: 9 }]);
        },
        _ => panic!("wrong response kind"),
    }
    assert_eq!(serialize_response(&parse_response(&frame, false).unwrap()), frame);
}

#[test]
fn scrape_response_roundtrip() {
    let resp = Response::Scrape(ScrapeResponse {
        transaction_id: 3,
        torrent_stats: vec![
            TorrentScrapeStatistics { seeders: 1, completed: 2, leechers: 3 },
            TorrentScrapeStatistics { seeders: 0, completed: 0, leechers: 0 },
        ],
    });
    let frame = serialize_response(&resp);
    assert_eq!(frame.len(), 8 + 2 * 12);
    match parse_response(&frame, true).unwrap() {
        Response::Scrape(s) => {
            assert_eq!(s.transaction_id, 3);
            assert_eq!(
                s.torrent_stats[0],
                TorrentScrapeStatistics { seeders: 1, completed: 2, leechers: 3 }
            );
        },
        _ => panic!("wrong response kind"),
    }
    assert_eq!(serialize_response(&parse_response(&frame, true).unwrap()), frame);
}

#[test]
fn error_response_roundtrip() {
    let resp = Response::Error(ErrorResponse {
        transaction_id: 11,
        message: b"info hash not allowed".to_vec(),
    });
    let frame = serialize_response(&resp);
    match parse_response(&frame, true).unwrap() {
        Response::Error(e) => {
            assert_eq!(e.transaction_id, 11);
            assert_eq!(e.message, b"info hash not allowed".to_vec());
        },
        _ => panic!("wrong response kind"),
    }
    assert_eq!(serialize_response(&parse_response(&frame, true).unwrap()), frame);
}

#[test]
fn exact_connect_request_bytes() {
    // The magic constant is mandatory and sits in the first eight bytes.
    let frame = serialize_request(&Request::Connect(ConnectRequest { transaction_id: 1 }));
    assert_eq!(
        frame,
        vec![0x00, 0x00, 0x04, 0x17, 0x27, 0x10, 0x19, 0x80, 0, 0, 0, 0, 0, 0, 0, 1]
    );
}
