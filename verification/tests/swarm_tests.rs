use rand::rngs::SmallRng;
use rand::SeedableRng;

use aquatic::access_list::{AccessList, AccessListMode};
use aquatic::codec::{AnnounceRequest, Request, Response, ScrapeRequest};
use aquatic::common::{AnnounceEvent, InfoHash, PeerAddr, PeerId, PeerIp};
use aquatic::config::TrackerConfig;
use aquatic::handler::{handle_request, TrackerState};

fn v4(ip: u32, port: u16) -> PeerAddr {
    PeerAddr { ip: PeerIp::V4(ip), port }
}

fn announce(
    connection_id: u64,
    transaction_id: u32,
    info_hash: [u8; 20],
    peer_id: [u8; 20],
    bytes_left: u64,
    event: AnnounceEvent,
    num_want: u32,
    port: u16,
) -> Request {
    Request::Announce(AnnounceRequest {
        connection_id,
        transaction_id,
        info_hash: InfoHash(info_hash),
        peer_id: PeerId(peer_id),
        bytes_downloaded: 0,
        bytes_left,
        bytes_uploaded: 0,
        event,
        ip_field: 0,
        key: 0,
        num_want,
        port,
    })
}

fn connect_from(
    state: &mut TrackerState,
    config: &TrackerConfig,
    rng: &mut SmallRng,
    now: u64,
    src: PeerAddr,
) -> u64 {
    let resp = handle_request(
        state,
        config,
        rng,
        now,
        src,
        &AccessList::off(),
        &Request::Connect(aquatic::codec::ConnectRequest { transaction_id: 1 }),
    );
    match resp {
        Response::Connect(c) => {
            assert_eq!(c.transaction_id, 1);
            c.connection_id
        },
        other => panic!("expected connect response, got {:?}", other),
    }
}

#[test]
fn connect_announce_scrape() {
    let mut state = TrackerState::new();
    let config = TrackerConfig::default();
    let mut rng = SmallRng::seed_from_u64(7);
    let acl = AccessList::off();
    let src = v4(0x0a000001, 6881);

    let cid = connect_from(&mut state, &config, &mut rng, 0, src);

    let req = announce(cid, 2, [0xaa; 20], [0xbb; 20], 100, AnnounceEvent::Started, 50, 6881);
    let resp = handle_request(&mut state, &config, &mut rng, 0, src, &acl, &req);
    match resp {
        Response::Announce(a) => {
            assert_eq!(a.transaction_id, 2);
            assert_eq!(a.seeders, 0);
            assert_eq!(a.leechers, 1);
            assert!(a.peers.is_empty());
        },
        other => panic!("expected announce response, got {:?}", other),
    }

    let scrape = Request::Scrape(ScrapeRequest {
        connection_id: cid,
        transaction_id: 3,
        info_hashes: vec![InfoHash([0xaa; 20])],
    });
    let resp = handle_request(&mut state, &config, &mut rng, 0, src, &acl, &scrape);
    match resp {
        Response::Scrape(s) => {
            assert_eq!(s.transaction_id, 3);
            assert_eq!(s.torrent_stats.len(), 1);
            assert_eq!(s.torrent_stats[0].seeders, 0);
            assert_eq!(s.torrent_stats[0].completed, 0);
            assert_eq!(s.torrent_stats[0].leechers, 1);
        },
        other => panic!("expected scrape response, got {:?}", other),
    }
}

#[test]
fn two_leechers_find_each_other() {
    let mut state = TrackerState::new();
    let config = TrackerConfig::default();
    let mut rng = SmallRng::seed_from_u64(11);
    let acl = AccessList::off();
    let h = [0x42; 20];
    let a_src = v4(0x0a000001, 7001);
    let b_src = v4(0x0a000002, 7002);

    let a_cid = connect_from(&mut state, &config, &mut rng, 0, a_src);
    let b_cid = connect_from(&mut state, &config, &mut rng, 0, b_src);

    let a_req = announce(a_cid, 1, h, [1; 20], 10, AnnounceEvent::Started, 50, 7001);
    let resp = handle_request(&mut state, &config, &mut rng, 0, a_src, &acl, &a_req);
    match resp {
        Response::Announce(r) => assert!(r.peers.is_empty()),
        other => panic!("expected announce response, got {:?}", other),
    }

    let b_req = announce(b_cid, 2, h, [2; 20], 10, AnnounceEvent::Started, 50, 7002);
    let resp = handle_request(&mut state, &config, &mut rng, 0, b_src, &acl, &b_req);
    match resp {
        Response::Announce(r) => {
            assert_eq!(r.peers, vec![v4(0x0a000001, 7001)]);
        },
        other => panic!("expected announce response, got {:?}", other),
    }

    let a_again = announce(a_cid, 3, h, [1; 20], 10, AnnounceEvent::Unspecified, 50, 7001);
    let resp = handle_request(&mut state, &config, &mut rng, 0, a_src, &acl, &a_again);
    match resp {
        Response::Announce(r) => {
            assert_eq!(r.peers, vec![v4(0x0a000002, 7002)]);
            assert_eq!(r.leechers, 2);
            assert_eq!(r.seeders, 0);
        },
        other => panic!("expected announce response, got {:?}", other),
    }
}

#[test]
fn stopped_removes_peer() {
    let mut state = TrackerState::new();
    let config = TrackerConfig::default();
    let mut rng = SmallRng::seed_from_u64(13);
    let acl = AccessList::off();
    let h = [0x99; 20];
    let a_src = v4(0x0a000001, 7001);
    let c_src = v4(0x0a000003, 7003);

    let a_cid = connect_from(&mut state, &config, &mut rng, 0, a_src);
    let c_cid = connect_from(&mut state, &config, &mut rng, 0, c_src);

    let a_req = announce(a_cid, 1, h, [1; 20], 10, AnnounceEvent::Started, 50, 7001);
    handle_request(&mut state, &config, &mut rng, 0, a_src, &acl, &a_req);

    let a_stop = announce(a_cid, 2, h, [1; 20], 10, AnnounceEvent::Stopped, 50, 7001);
    let resp = handle_request(&mut state, &config, &mut rng, 0, a_src, &acl, &a_stop);
    match resp {
        Response::Announce(r) => {
            assert!(r.peers.is_empty());
            assert_eq!(r.leechers, 0);
            assert_eq!(r.seeders, 0);
        },
        other => panic!("expected announce response, got {:?}", other),
    }

    let c_req = announce(c_cid, 3, h, [3; 20], 10, AnnounceEvent::Started, 50, 7003);
    let resp = handle_request(&mut state, &config, &mut rng, 0, c_src, &acl, &c_req);
    match resp {
        Response::Announce(r) => {
            assert!(r.peers.is_empty());
            assert_eq!(r.leechers, 1);
        },
        other => panic!("expected announce response, got {:?}", other),
    }
}

#[test]
fn seeder_filter() {
    let mut state = TrackerState::new();
    let config = TrackerConfig::default();
    let mut rng = SmallRng::seed_from_u64(17);
    let acl = AccessList::off();
    let h = [0x07; 20];
    let s1_src = v4(0x0a000001, 7001);
    let s2_src = v4(0x0a000002, 7002);
    let l_src = v4(0x0a000003, 7003);

    let s1_cid = connect_from(&mut state, &config, &mut rng, 0, s1_src);
    let s2_cid = connect_from(&mut state, &config, &mut rng, 0, s2_src);
    let l_cid = connect_from(&mut state, &config, &mut rng, 0, l_src);

    let s1 = announce(s1_cid, 1, h, [1; 20], 0, AnnounceEvent::Started, 50, 7001);
    handle_request(&mut state, &config, &mut rng, 0, s1_src, &acl, &s1);
    let s2 = announce(s2_cid, 2, h, [2; 20], 0, AnnounceEvent::Started, 50, 7002);
    handle_request(&mut state, &config, &mut rng, 0, s2_src, &acl, &s2);

    // The leecher receives both seeders.
    let l = announce(l_cid, 3, h, [3; 20], 10, AnnounceEvent::Started, 50, 7003);
    let resp = handle_request(&mut state, &config, &mut rng, 0, l_src, &acl, &l);
    match resp {
        Response::Announce(r) => {
            assert_eq!(r.seeders, 2);
            assert_eq!(r.leechers, 1);
            let mut got: Vec<PeerAddr> = r.peers.clone();
            got.sort_by_key(|p| p.port);
            assert_eq!(got, vec![v4(0x0a000001, 7001), v4(0x0a000002, 7002)]);
        },
        other => panic!("expected announce response, got {:?}", other),
    }

    // A seeder receives only the one leecher.
    let s1_again = announce(s1_cid, 4, h, [1; 20], 0, AnnounceEvent::Unspecified, 50, 7001);
    let resp = handle_request(&mut state, &config, &mut rng, 0, s1_src, &acl, &s1_again);
    match resp {
        Response::Announce(r) => {
            assert_eq!(r.peers, vec![v4(0x0a000003, 7003)]);
        },
        other => panic!("expected announce response, got {:?}", other),
    }
}

#[test]
fn invalid_connection_id_rejected_without_mutation() {
    let mut state = TrackerState::new();
    let config = TrackerConfig::default();
    let mut rng = SmallRng::seed_from_u64(19);
    let acl = AccessList::off();
    let src = v4(0x0a000001, 6881);
    let h = [0x55; 20];

    let req = announce(0x0123456789abcdef, 1, h, [1; 20], 10, AnnounceEvent::Started, 50, 6881);
    let resp = handle_request(&mut state, &config, &mut rng, 0, src, &acl, &req);
    match resp {
        Response::Error(e) => {
            assert_eq!(e.transaction_id, 1);
            assert_eq!(e.message, b"connection id mismatch".to_vec());
        },
        other => panic!("expected error response, got {:?}", other),
    }

    // The store was not touched: a scrape under a real id reports nothing.
    let cid = connect_from(&mut state, &config, &mut rng, 0, src);
    let scrape = Request::Scrape(ScrapeRequest {
        connection_id: cid,
        transaction_id: 2,
        info_hashes: vec![InfoHash(h)],
    });
    let resp = handle_request(&mut state, &config, &mut rng, 0, src, &acl, &scrape);
    match resp {
        Response::Scrape(s) => {
            assert_eq!(s.torrent_stats[0].leechers, 0);
            assert_eq!(s.torrent_stats[0].seeders, 0);
        },
        other => panic!("expected scrape response, got {:?}", other),
    }
}

#[test]
fn access_list_deny_blocks_hash() {
    let mut state = TrackerState::new();
    let config = TrackerConfig::default();
    let mut rng = SmallRng::seed_from_u64(23);
    let blocked = [0x66; 20];
    let acl = AccessList::new(AccessListMode::Deny, vec![InfoHash(blocked)]);
    let src = v4(0x0a000001, 6881);

    let cid = {
        let resp = handle_request(
            &mut state,
            &config,
            &mut rng,
            0,
            src,
            &acl,
            &Request::Connect(aquatic::codec::ConnectRequest { transaction_id: 1 }),
        );
        match resp {
            Response::Connect(c) => c.connection_id,
            other => panic!("expected connect response, got {:?}", other),
        }
    };

    let req = announce(cid, 2, blocked, [1; 20], 10, AnnounceEvent::Started, 50, 6881);
    let resp = handle_request(&mut state, &config, &mut rng, 0, src, &acl, &req);
    match resp {
        Response::Error(e) => {
            assert_eq!(e.transaction_id, 2);
            assert_eq!(e.message, b"info hash not allowed".to_vec());
        },
        other => panic!("expected error response, got {:?}", other),
    }

    let scrape = Request::Scrape(ScrapeRequest {
        connection_id: cid,
        transaction_id: 3,
        info_hashes: vec![InfoHash(blocked)],
    });
    let resp = handle_request(&mut state, &config, &mut rng, 0, src, &acl, &scrape);
    assert!(matches!(resp, Response::Error(_)));

    // Another hash still works.
    let fine = announce(cid, 4, [0x67; 20], [1; 20], 10, AnnounceEvent::Started, 50, 6881);
    let resp = handle_request(&mut state, &config, &mut rng, 0, src, &acl, &fine);
    match resp {
        Response::Announce(r) => assert_eq!(r.leechers, 1),
        other => panic!("expected announce response, got {:?}", other),
    }
}

#[test]
fn ip_families_are_isolated() {
    let mut state = TrackerState::new();
    let config = TrackerConfig::default();
    let mut rng = SmallRng::seed_from_u64(29);
    let acl = AccessList::off();
    let h = [0x33; 20];
    let v4_src = v4(0x0a000001, 7001);
    let v6_src = PeerAddr { ip: PeerIp::V6(0x20010db8000000000000000000000001), port: 7002 };

    let v4_cid = connect_from(&mut state, &config, &mut rng, 0, v4_src);
    let v6_cid = connect_from(&mut state, &config, &mut rng, 0, v6_src);

    let v4_req = announce(v4_cid, 1, h, [1; 20], 10, AnnounceEvent::Started, 50, 7001);
    handle_request(&mut state, &config, &mut rng, 0, v4_src, &acl, &v4_req);

    // The v6 peer never sees the v4 peer, and its swarm counts are its own.
    let v6_req = announce(v6_cid, 2, h, [2; 20], 10, AnnounceEvent::Started, 50, 7002);
    let resp = handle_request(&mut state, &config, &mut rng, 0, v6_src, &acl, &v6_req);
    match resp {
        Response::Announce(r) => {
            assert!(r.peers.is_empty());
            assert_eq!(r.leechers, 1);
        },
        other => panic!("expected announce response, got {:?}", other),
    }
}

#[test]
fn num_want_caps_returned_peers() {
    let mut state = TrackerState::new();
    let config = TrackerConfig::default();
    let mut rng = SmallRng::seed_from_u64(31);
    let acl = AccessList::off();
    let h = [0x44; 20];

    for i in 0..5u32 {
        let src = v4(0x0a000100 + i, 8000 + i as u16);
        let cid = connect_from(&mut state, &config, &mut rng, 0, src);
        let req = announce(
            cid,
            i,
            h,
            [i as u8 + 1; 20],
            10,
            AnnounceEvent::Started,
            50,
            8000 + i as u16,
        );
        handle_request(&mut state, &config, &mut rng, 0, src, &acl, &req);
    }

    let src = v4(0x0a000200, 9000);
    let cid = connect_from(&mut state, &config, &mut rng, 0, src);
    let req = announce(cid, 9, h, [0xee; 20], 10, AnnounceEvent::Started, 2, 9000);
    let resp = handle_request(&mut state, &config, &mut rng, 0, src, &acl, &req);
    match resp {
        Response::Announce(r) => {
            assert_eq!(r.peers.len(), 2);
            assert_eq!(r.leechers, 6);
            // Sampled peers are real swarm members, never the requester.
            for p in &r.peers {
                assert!(p.port >= 8000 && p.port < 8005);
            }
        },
        other => panic!("expected announce response, got {:?}", other),
    }
}

#[test]
fn negative_num_want_uses_the_default() {
    let mut state = TrackerState::new();
    let mut config = TrackerConfig::default();
    config.default_num_want = 2;
    let mut rng = SmallRng::seed_from_u64(43);
    let acl = AccessList::off();
    let h = [0x21; 20];

    for i in 0..4u32 {
        let src = v4(0x0a000100 + i, 8000 + i as u16);
        let cid = connect_from(&mut state, &config, &mut rng, 0, src);
        let req = announce(
            cid,
            i,
            h,
            [i as u8 + 1; 20],
            10,
            AnnounceEvent::Started,
            50,
            8000 + i as u16,
        );
        handle_request(&mut state, &config, &mut rng, 0, src, &acl, &req);
    }

    // The wire value 0xffffffff is -1: use the configured default of 2.
    let src = v4(0x0a000200, 9000);
    let cid = connect_from(&mut state, &config, &mut rng, 0, src);
    let req = announce(cid, 9, h, [0xee; 20], 10, AnnounceEvent::Started, 0xffffffff, 9000);
    let resp = handle_request(&mut state, &config, &mut rng, 0, src, &acl, &req);
    match resp {
        Response::Announce(r) => assert_eq!(r.peers.len(), 2),
        other => panic!("expected announce response, got {:?}", other),
    }
}

#[test]
fn completed_transition_counts_in_scrape() {
    let mut state = TrackerState::new();
    let config = TrackerConfig::default();
    let mut rng = SmallRng::seed_from_u64(37);
    let acl = AccessList::off();
    let h = [0x77; 20];
    let src = v4(0x0a000001, 7001);
    let cid = connect_from(&mut state, &config, &mut rng, 0, src);

    let start = announce(cid, 1, h, [1; 20], 10, AnnounceEvent::Started, 50, 7001);
    handle_request(&mut state, &config, &mut rng, 0, src, &acl, &start);
    let done = announce(cid, 2, h, [1; 20], 0, AnnounceEvent::Completed, 50, 7001);
    handle_request(&mut state, &config, &mut rng, 0, src, &acl, &done);

    let scrape = Request::Scrape(ScrapeRequest {
        connection_id: cid,
        transaction_id: 3,
        info_hashes: vec![InfoHash(h)],
    });
    let resp = handle_request(&mut state, &config, &mut rng, 0, src, &acl, &scrape);
    match resp {
        Response::Scrape(s) => {
            assert_eq!(s.torrent_stats[0].seeders, 1);
            assert_eq!(s.torrent_stats[0].completed, 1);
            assert_eq!(s.torrent_stats[0].leechers, 0);
        },
        other => panic!("expected scrape response, got {:?}", other),
    }
}

#[test]
fn cleaning_drops_expired_peers_and_empty_torrents() {
    let mut state = TrackerState::new();
    let config = TrackerConfig::default();
    let mut rng = SmallRng::seed_from_u64(41);
    let acl = AccessList::off();
    let h = [0x88; 20];
    let src = v4(0x0a000001, 7001);
    let cid = connect_from(&mut state, &config, &mut rng, 0, src);

    let req = announce(cid, 1, h, [1; 20], 10, AnnounceEvent::Started, 50, 7001);
    handle_request(&mut state, &config, &mut rng, 0, src, &acl, &req);

    // Before expiry the peer survives a cleaning pass.
    state.swarms.clean(config.max_peer_age - 1, &acl);
    let scrape = Request::Scrape(ScrapeRequest {
        connection_id: cid,
        transaction_id: 2,
        info_hashes: vec![InfoHash(h)],
    });
    let resp = handle_request(&mut state, &config, &mut rng, 0, src, &acl, &scrape);
    match resp {
        Response::Scrape(s) => assert_eq!(s.torrent_stats[0].leechers, 1),
        other => panic!("expected scrape response, got {:?}", other),
    }

    // At max_peer_age the record expires and the torrent goes away.
    state.swarms.clean(config.max_peer_age, &acl);
    let scrape = Request::Scrape(ScrapeRequest {
        connection_id: cid,
        transaction_id: 3,
        info_hashes: vec![InfoHash(h)],
    });
    let resp = handle_request(&mut state, &config, &mut rng, 0, src, &acl, &scrape);
    match resp {
        Response::Scrape(s) => assert_eq!(s.torrent_stats[0].leechers, 0),
        other => panic!("expected scrape response, got {:?}", other),
    }
}

#[test]
fn repeated_identical_announce_keeps_counts() {
    let mut state = TrackerState::new();
    let config = TrackerConfig::default();
    let mut rng = SmallRng::seed_from_u64(47);
    let acl = AccessList::off();
    let h = [0x12; 20];
    let src = v4(0x0a000001, 7001);
    let cid = connect_from(&mut state, &config, &mut rng, 0, src);

    let req = announce(cid, 1, h, [1; 20], 10, AnnounceEvent::Started, 50, 7001);
    let first = handle_request(&mut state, &config, &mut rng, 0, src, &acl, &req);
    let second = handle_request(&mut state, &config, &mut rng, 0, src, &acl, &req);
    match (first, second) {
        (Response::Announce(a), Response::Announce(b)) => {
            assert_eq!(a.seeders, b.seeders);
            assert_eq!(a.leechers, b.leechers);
            assert_eq!(a.leechers, 1);
        },
        other => panic!("expected announce responses, got {:?}", other),
    }
}

#[test]
fn connection_id_not_transferable_between_addresses() {
    let mut state = TrackerState::new();
    let config = TrackerConfig::default();
    let mut rng = SmallRng::seed_from_u64(53);
    let acl = AccessList::off();
    let a_src = v4(0x0a000001, 7001);
    let b_src = v4(0x0a000002, 7002);

    let a_cid = connect_from(&mut state, &config, &mut rng, 0, a_src);
    let req = announce(a_cid, 1, [0x13; 20], [1; 20], 10, AnnounceEvent::Started, 50, 7002);
    let resp = handle_request(&mut state, &config, &mut rng, 0, b_src, &acl, &req);
    match resp {
        Response::Error(e) => assert_eq!(e.message, b"connection id mismatch".to_vec()),
        other => panic!("expected error response, got {:?}", other),
    }
}

#[test]
fn connection_id_expires_after_max_connection_age() {
    let mut state = TrackerState::new();
    let config = TrackerConfig::default();
    let mut rng = SmallRng::seed_from_u64(59);
    let acl = AccessList::off();
    let src = v4(0x0a000001, 7001);

    let cid = connect_from(&mut state, &config, &mut rng, 0, src);
    let last_valid = config.max_connection_age;
    let req = announce(cid, 1, [0x14; 20], [1; 20], 10, AnnounceEvent::Started, 50, 7001);
    let resp = handle_request(&mut state, &config, &mut rng, last_valid, src, &acl, &req);
    assert!(matches!(resp, Response::Announce(_)));

    // One second past the window: rejected.
    let req = announce(cid, 2, [0x15; 20], [1; 20], 10, AnnounceEvent::Started, 50, 7001);
    let resp = handle_request(&mut state, &config, &mut rng, last_valid + 1, src, &acl, &req);
    match resp {
        Response::Error(e) => assert_eq!(e.message, b"connection id mismatch".to_vec()),
        other => panic!("expected error response, got {:?}", other),
    }
}
