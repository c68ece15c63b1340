//! The request pipeline a socket worker runs after a datagram is parsed:
//! connection-id validation, access-list check, then the swarm store.

use vstd::prelude::*;
use vstd::slice::slice_to_vec;
use vstd::string::StringSliceAdditionalSpecFns;

use crate::access_list::AccessList;
use crate::codec::{
    parse_request, serialize_response, spec_parse_request, spec_serialize_response,
    ConnectResponse, ErrorResponse, Request, Response,
};
use crate::common::PeerAddr;
use crate::config::TrackerConfig;
use crate::connection::{spec_valid_connection, ConnectionEntry, ConnectionTable};
use crate::swarm::{announce_post, spec_scrape_stat, SwarmStore};

verus! {

/// Everything one worker owns: its pending connections and its private
/// swarm store.
#[derive(Clone, Debug)]
pub struct TrackerState {
    pub connections: ConnectionTable,
    pub swarms: SwarmStore,
}

/// The message sent when a connection id does not validate.
pub open spec fn auth_error_bytes() -> Seq<u8> {
    "connection id mismatch".spec_bytes()
}

/// The message sent when the access list blocks an info-hash.
pub open spec fn denied_error_bytes() -> Seq<u8> {
    "info hash not allowed".spec_bytes()
}

/// Exec mirror of `auth_error_bytes`.
fn auth_error_message() -> (r: Vec<u8>)
    ensures
        r@ == auth_error_bytes(),
{
    slice_to_vec("connection id mismatch".as_bytes())
}

/// Exec mirror of `denied_error_bytes`.
fn denied_error_message() -> (r: Vec<u8>)
    ensures
        r@ == denied_error_bytes(),
{
    slice_to_vec("info hash not allowed".as_bytes())
}

impl TrackerState {
    /// A fresh worker state.
    pub fn new() -> (r: TrackerState)
        ensures
            r.swarms.wf(),
            r.connections.entries@.len() == 0,
            r.swarms.ipv4.torrents@.len() == 0,
            r.swarms.ipv6.torrents@.len() == 0,
    {
        TrackerState { connections: ConnectionTable::new(), swarms: SwarmStore::new() }
    }
}

/// Everything one handled request promises, relating the worker state
/// before (`s0`) and after (`s1`) to the request and the response: a
/// connect is always answered with a fresh id bound to the source; an
/// announce or scrape is answered only under a valid connection id and an
/// allowed info-hash, and changes nothing otherwise.
pub open spec fn request_post(
    s0: TrackerState,
    s1: TrackerState,
    config: TrackerConfig,
    now: u64,
    src: PeerAddr,
    acl: AccessList,
    req: Request,
    r: Response,
) -> bool {
    (match req {
        Request::Connect(c) => {
            &&& r matches Response::Connect(cr)
            &&& cr.transaction_id == c.transaction_id
            &&& s1.connections.entries@ == s0.connections.entries@.push(
                ConnectionEntry {
                    id: cr.connection_id,
                    addr: src,
                    valid_until: (now + config.max_connection_age) as u64,
                },
            )
            &&& s1.swarms == s0.swarms
        },
        Request::Announce(a) => {
            &&& !spec_valid_connection(s0.connections.entries@, a.connection_id, src,
            now) ==> (r matches Response::Error(e) && e.transaction_id == a.transaction_id
                && e.message@ == auth_error_bytes() && s1 == s0)
            &&& (spec_valid_connection(s0.connections.entries@, a.connection_id, src,
            now) && !acl.spec_allows(a.info_hash@)) ==> (r matches Response::Error(e)
                && e.transaction_id == a.transaction_id && e.message@ == denied_error_bytes()
                && s1 == s0)
            &&& (spec_valid_connection(s0.connections.entries@, a.connection_id, src,
            now) && acl.spec_allows(a.info_hash@)) ==> {
                &&& r matches Response::Announce(ar)
                &&& s1.connections == s0.connections
                &&& (src.spec_is_v4() ==> announce_post(
                    s0.swarms.ipv4.torrents@,
                    s1.swarms.ipv4.torrents@,
                    config,
                    now,
                    src,
                    a,
                    ar,
                ) && s1.swarms.ipv6.torrents@ == s0.swarms.ipv6.torrents@)
                &&& (!src.spec_is_v4() ==> announce_post(
                    s0.swarms.ipv6.torrents@,
                    s1.swarms.ipv6.torrents@,
                    config,
                    now,
                    src,
                    a,
                    ar,
                ) && s1.swarms.ipv4.torrents@ == s0.swarms.ipv4.torrents@)
            }
        },
        Request::Scrape(sc) => {
            &&& !spec_valid_connection(s0.connections.entries@, sc.connection_id, src,
            now) ==> (r matches Response::Error(e) && e.transaction_id == sc.transaction_id
                && e.message@ == auth_error_bytes() && s1 == s0)
            &&& (spec_valid_connection(s0.connections.entries@, sc.connection_id, src,
            now) && (exists|k: int|
                0 <= k < sc.info_hashes@.len() && !acl.spec_allows(
                    (#[trigger] sc.info_hashes@[k])@,
                ))) ==> (r matches Response::Error(e) && e.transaction_id == sc.transaction_id
                && e.message@ == denied_error_bytes() && s1 == s0)
            &&& (spec_valid_connection(s0.connections.entries@, sc.connection_id, src,
            now) && (forall|k: int|
                0 <= k < sc.info_hashes@.len() ==> acl.spec_allows(
                    (#[trigger] sc.info_hashes@[k])@,
                ))) ==> {
                &&& r matches Response::Scrape(sr)
                &&& s1 == s0
                &&& sr.transaction_id == sc.transaction_id
                &&& sr.torrent_stats@.len() == sc.info_hashes@.len()
                &&& (forall|k: int|
                    0 <= k < sc.info_hashes@.len() ==> #[trigger] sr.torrent_stats@[k]
                        == spec_scrape_stat(
                        if src.spec_is_v4() {
                            s0.swarms.ipv4.torrents@
                        } else {
                            s0.swarms.ipv6.torrents@
                        },
                        sc.info_hashes@[k]@,
                    ))
            }
        },
    })
}

/// Handles one parsed request, as `request_post` describes.
pub fn handle_request(
    state: &mut TrackerState,
    config: &TrackerConfig,
    rng: &mut rand::rngs::SmallRng,
    now: u64,
    src: PeerAddr,
    access_list: &AccessList,
    req: &Request,
) -> (r: Response)
    requires
        old(state).swarms.wf(),
        now + config.max_peer_age <= u64::MAX,
        now + config.max_connection_age <= u64::MAX,
    ensures
        final(state).swarms.wf(),
        request_post(*old(state), *final(state), *config, now, src, *access_list, *req, r),
{
    match req {
        Request::Connect(c) => {
            let id = state.connections.issue(rng, src, now, config.max_connection_age);
            Response::Connect(
                ConnectResponse { transaction_id: c.transaction_id, connection_id: id },
            )
        },
        Request::Announce(a) => {
            if !state.connections.validate(a.connection_id, src, now) {
                return Response::Error(
                    ErrorResponse {
                        transaction_id: a.transaction_id,
                        message: auth_error_message(),
                    },
                );
            }
            if !access_list.allows(&a.info_hash) {
                return Response::Error(
                    ErrorResponse {
                        transaction_id: a.transaction_id,
                        message: denied_error_message(),
                    },
                );
            }
            Response::Announce(state.swarms.handle_announce(config, rng, now, src, a))
        },
        Request::Scrape(sc) => {
            if !state.connections.validate(sc.connection_id, src, now) {
                return Response::Error(
                    ErrorResponse {
                        transaction_id: sc.transaction_id,
                        message: auth_error_message(),
                    },
                );
            }
            let n = sc.info_hashes.len();
            let mut all_allowed = true;
            for k in 0..n
                invariant
                    n == sc.info_hashes@.len(),
                    all_allowed == (forall|j: int|
                        0 <= j < k ==> access_list.spec_allows(
                            (#[trigger] sc.info_hashes@[j])@,
                        )),
            {
                if !access_list.allows(&sc.info_hashes[k]) {
                    all_allowed = false;
                }
            }
            if !all_allowed {
                return Response::Error(
                    ErrorResponse {
                        transaction_id: sc.transaction_id,
                        message: denied_error_message(),
                    },
                );
            }
            Response::Scrape(state.swarms.handle_scrape(src, sc))
        },
    }
}

/// Handles one datagram: a frame that does not parse is dropped without an
/// answer and without touching any state; one that parses is answered with
/// the serialized response of `handle_request`.
pub fn handle_packet(
    state: &mut TrackerState,
    config: &TrackerConfig,
    rng: &mut rand::rngs::SmallRng,
    now: u64,
    src: PeerAddr,
    access_list: &AccessList,
    bytes: &[u8],
) -> (out: Option<Vec<u8>>)
    requires
        old(state).swarms.wf(),
        now + config.max_peer_age <= u64::MAX,
        now + config.max_connection_age <= u64::MAX,
    ensures
        final(state).swarms.wf(),
        spec_parse_request(bytes@) is Err ==> out is None && *final(state) == *old(state),
        spec_parse_request(bytes@) matches Ok(rd) ==> (out matches Some(b) && exists|
            req: Request,
            resp: Response,
        |
            req@ == rd && #[trigger] request_post(
                *old(state),
                *final(state),
                *config,
                now,
                src,
                *access_list,
                req,
                resp,
            ) && b@ == spec_serialize_response(resp@)),
{
    match parse_request(bytes) {
        Ok(req) => {
            let resp = handle_request(state, config, rng, now, src, access_list, &req);
            let encoded = serialize_response(&resp);
            proof {
                let s1 = *state;
                assert(request_post(
                    *old(state),
                    s1,
                    *config,
                    now,
                    src,
                    *access_list,
                    req,
                    resp,
                ));
            }
            Some(encoded)
        },
        Err(_) => None,
    }
}

} // verus!
