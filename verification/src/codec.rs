//! Wire codec for the UDP tracker protocol: length-explicit binary frames
//! in network byte order, with strict length and field-range checks.

use vstd::prelude::*;

use crate::byte_order::{
    be_nat, lemma_be_nat_bound, lemma_be_nat_of_nat_to_be, lemma_nat_to_be_len,
    lemma_nat_to_be_of_be_nat, lemma_pow256_values, nat_to_be, read_be, read_be_wide, write_be,
    write_be_wide,
};
use crate::common::{read_20_bytes, AnnounceEvent, InfoHash, PeerAddr, PeerId, PeerIp};

verus! {

/// The magic constant a connect request must open with.
pub const PROTOCOL_MAGIC: u64 = 0x41727101980;

/// Why a frame was refused. A refused frame is dropped without an answer,
/// so that the tracker cannot be used as an amplifier.
#[derive(Clone, Copy, Debug, PartialEq, Eq, Structural)]
pub enum ParseError {
    /// The frame is shorter than its layout demands.
    UnderLength,
    /// A connect request whose first eight bytes are not the protocol magic.
    BadMagic,
    /// The action field names no known request or response kind.
    BadAction,
    /// The announce event field is out of range.
    BadEvent,
    /// A scrape request whose info-hash list is empty, oversized, or ragged.
    BadScrapeLength,
}

/// First step of the handshake: a client asks for a connection id.
#[derive(Clone, Copy, Debug)]
pub struct ConnectRequest {
    pub transaction_id: u32,
}

/// A peer publishes its presence in a swarm and asks for other peers.
#[derive(Clone, Copy, Debug)]
pub struct AnnounceRequest {
    pub connection_id: u64,
    pub transaction_id: u32,
    pub info_hash: InfoHash,
    pub peer_id: PeerId,
    pub bytes_downloaded: u64,
    pub bytes_left: u64,
    pub bytes_uploaded: u64,
    pub event: AnnounceEvent,
    /// Client-claimed IPv4 address. Carried for the wire layout only; the
    /// tracker always uses the datagram source instead.
    pub ip_field: u32,
    pub key: u32,
    /// Raw wire value of the peer-count wish; values with the top bit set
    /// are negative on the wire and mean "use the configured default".
    pub num_want: u32,
    pub port: u16,
}

/// A client asks for aggregate statistics on up to 74 info-hashes.
#[derive(Clone, Debug)]
pub struct ScrapeRequest {
    pub connection_id: u64,
    pub transaction_id: u32,
    pub info_hashes: Vec<InfoHash>,
}

/// Any request frame, dispatched on its action field.
#[derive(Clone, Debug)]
pub enum Request {
    Connect(ConnectRequest),
    Announce(AnnounceRequest),
    Scrape(ScrapeRequest),
}

/// Mathematical image of an announce request: identifier fields as byte
/// sequences, everything else verbatim.
pub struct AnnounceRequested {
    pub connection_id: u64,
    pub transaction_id: u32,
    pub info_hash: Seq<u8>,
    pub peer_id: Seq<u8>,
    pub bytes_downloaded: u64,
    pub bytes_left: u64,
    pub bytes_uploaded: u64,
    pub event: AnnounceEvent,
    pub ip_field: u32,
    pub key: u32,
    pub num_want: u32,
    pub port: u16,
}

/// Mathematical image of a request frame.
pub enum RequestData {
    Connect { transaction_id: u32 },
    Announce(AnnounceRequested),
    Scrape { connection_id: u64, transaction_id: u32, info_hashes: Seq<Seq<u8>> },
}

impl View for AnnounceRequest {
    type V = AnnounceRequested;

    open spec fn view(&self) -> AnnounceRequested {
        AnnounceRequested {
            connection_id: self.connection_id,
            transaction_id: self.transaction_id,
            info_hash: self.info_hash@,
            peer_id: self.peer_id@,
            bytes_downloaded: self.bytes_downloaded,
            bytes_left: self.bytes_left,
            bytes_uploaded: self.bytes_uploaded,
            event: self.event,
            ip_field: self.ip_field,
            key: self.key,
            num_want: self.num_want,
            port: self.port,
        }
    }
}

impl View for Request {
    type V = RequestData;

    open spec fn view(&self) -> RequestData {
        match self {
            Request::Connect(c) => RequestData::Connect { transaction_id: c.transaction_id },
            Request::Announce(a) => RequestData::Announce(a@),
            Request::Scrape(s) => RequestData::Scrape {
                connection_id: s.connection_id,
                transaction_id: s.transaction_id,
                info_hashes: hash_views(s.info_hashes@),
            },
        }
    }
}

/// The views of a sequence of info-hashes.
pub open spec fn hash_views(s: Seq<InfoHash>) -> Seq<Seq<u8>> {
    s.map_values(|h: InfoHash| h@)
}

/// The bytes of a sequence of 20-byte info-hashes, in order.
pub open spec fn concat_hashes(hs: Seq<Seq<u8>>) -> Seq<u8>
    decreases hs.len(),
{
    if hs.len() == 0 {
        Seq::empty()
    } else {
        concat_hashes(hs.drop_last()) + hs.last()
    }
}

/// The bytes a request frame serializes to.
pub open spec fn spec_serialize_request(r: RequestData) -> Seq<u8> {
    match r {
        RequestData::Connect { transaction_id } => nat_to_be(PROTOCOL_MAGIC as nat, 8) + nat_to_be(
            0,
            4,
        ) + nat_to_be(transaction_id as nat, 4),
        RequestData::Announce(a) => nat_to_be(a.connection_id as nat, 8) + nat_to_be(1, 4)
            + nat_to_be(a.transaction_id as nat, 4) + a.info_hash + a.peer_id + nat_to_be(
            a.bytes_downloaded as nat,
            8,
        ) + nat_to_be(a.bytes_left as nat, 8) + nat_to_be(a.bytes_uploaded as nat, 8) + nat_to_be(
            a.event.spec_code() as nat,
            4,
        ) + nat_to_be(a.ip_field as nat, 4) + nat_to_be(a.key as nat, 4) + nat_to_be(
            a.num_want as nat,
            4,
        ) + nat_to_be(a.port as nat, 2),
        RequestData::Scrape { connection_id, transaction_id, info_hashes } => nat_to_be(
            connection_id as nat,
            8,
        ) + nat_to_be(2, 4) + nat_to_be(transaction_id as nat, 4) + concat_hashes(info_hashes),
    }
}

/// The request frame a byte sequence parses to, or why it is refused.
pub open spec fn spec_parse_request(s: Seq<u8>) -> Result<RequestData, ParseError> {
    if s.len() < 16 {
        Err(ParseError::UnderLength)
    } else {
        let action = be_nat(s.subrange(8, 12));
        if action == 0 {
            if be_nat(s.subrange(0, 8)) == PROTOCOL_MAGIC {
                Ok(RequestData::Connect { transaction_id: be_nat(s.subrange(12, 16)) as u32 })
            } else {
                Err(ParseError::BadMagic)
            }
        } else if action == 1 {
            if s.len() < 98 {
                Err(ParseError::UnderLength)
            } else if be_nat(s.subrange(80, 84)) > 3 {
                Err(ParseError::BadEvent)
            } else {
                Ok(
                    RequestData::Announce(
                        AnnounceRequested {
                            connection_id: be_nat(s.subrange(0, 8)) as u64,
                            transaction_id: be_nat(s.subrange(12, 16)) as u32,
                            info_hash: s.subrange(16, 36),
                            peer_id: s.subrange(36, 56),
                            bytes_downloaded: be_nat(s.subrange(56, 64)) as u64,
                            bytes_left: be_nat(s.subrange(64, 72)) as u64,
                            bytes_uploaded: be_nat(s.subrange(72, 80)) as u64,
                            event: AnnounceEvent::spec_from_code(be_nat(s.subrange(80, 84))),
                            ip_field: be_nat(s.subrange(84, 88)) as u32,
                            key: be_nat(s.subrange(88, 92)) as u32,
                            num_want: be_nat(s.subrange(92, 96)) as u32,
                            port: be_nat(s.subrange(96, 98)) as u16,
                        },
                    ),
                )
            }
        } else if action == 2 {
            if (s.len() - 16) % 20 != 0 || s.len() == 16 || (s.len() - 16) / 20 > 74 {
                Err(ParseError::BadScrapeLength)
            } else {
                Ok(
                    RequestData::Scrape {
                        connection_id: be_nat(s.subrange(0, 8)) as u64,
                        transaction_id: be_nat(s.subrange(12, 16)) as u32,
                        info_hashes: Seq::new(
                            ((s.len() - 16) / 20) as nat,
                            |k: int| s.subrange(16 + 20 * k, 36 + 20 * k),
                        ),
                    },
                )
            }
        } else {
            Err(ParseError::BadAction)
        }
    }
}

/// The image of an exec parse result.
pub open spec fn request_result_data(r: Result<Request, ParseError>) -> Result<
    RequestData,
    ParseError,
> {
    match r {
        Ok(q) => Ok(q@),
        Err(e) => Err(e),
    }
}

/// Reads four bytes at `off` as a big-endian number; it fits in a `u32`.
fn read_u32_at(s: &[u8], off: usize) -> (r: u32)
    requires
        off + 4 <= s@.len(),
    ensures
        r == be_nat(s@.subrange(off as int, off + 4)),
{
    proof {
        lemma_be_nat_bound(s@.subrange(off as int, off + 4));
        lemma_pow256_values();
    }
    read_be(s, off, 4) as u32
}

/// Reads two bytes at `off` as a big-endian number; it fits in a `u16`.
fn read_u16_at(s: &[u8], off: usize) -> (r: u16)
    requires
        off + 2 <= s@.len(),
    ensures
        r == be_nat(s@.subrange(off as int, off + 2)),
{
    proof {
        lemma_be_nat_bound(s@.subrange(off as int, off + 2));
        lemma_pow256_values();
    }
    read_be(s, off, 2) as u16
}

/// Parses a request frame. Exactly the frames `spec_parse_request` accepts
/// are accepted, with the same result.
pub fn parse_request(s: &[u8]) -> (r: Result<Request, ParseError>)
    ensures
        request_result_data(r) == spec_parse_request(s@),
{
    let n: usize = s.len();
    if n < 16 {
        return Err(ParseError::UnderLength);
    }
    let action = read_be(s, 8, 4);
    if action == 0 {
        if read_be(s, 0, 8) == PROTOCOL_MAGIC {
            Ok(Request::Connect(ConnectRequest { transaction_id: read_u32_at(s, 12) }))
        } else {
            Err(ParseError::BadMagic)
        }
    } else if action == 1 {
        if n < 98 {
            return Err(ParseError::UnderLength);
        }
        let event_code = read_u32_at(s, 80);
        if event_code > 3 {
            return Err(ParseError::BadEvent);
        }
        let event = if event_code == 0 {
            AnnounceEvent::Unspecified
        } else if event_code == 1 {
            AnnounceEvent::Completed
        } else if event_code == 2 {
            AnnounceEvent::Started
        } else {
            AnnounceEvent::Stopped
        };
        Ok(
            Request::Announce(
                AnnounceRequest {
                    connection_id: read_be(s, 0, 8),
                    transaction_id: read_u32_at(s, 12),
                    info_hash: InfoHash(read_20_bytes(s, 16)),
                    peer_id: PeerId(read_20_bytes(s, 36)),
                    bytes_downloaded: read_be(s, 56, 8),
                    bytes_left: read_be(s, 64, 8),
                    bytes_uploaded: read_be(s, 72, 8),
                    event,
                    ip_field: read_u32_at(s, 84),
                    key: read_u32_at(s, 88),
                    num_want: read_u32_at(s, 92),
                    port: read_u16_at(s, 96),
                },
            ),
        )
    } else if action == 2 {
        if (n - 16) % 20 != 0 || n == 16 || (n - 16) / 20 > 74 {
            return Err(ParseError::BadScrapeLength);
        }
        let count: usize = (n - 16) / 20;
        let mut info_hashes: Vec<InfoHash> = Vec::new();
        let ghost all = Seq::new(
            count as nat,
            |k: int| s@.subrange(16 + 20 * k, 36 + 20 * k),
        );
        let mut k: usize = 0;
        while k < count
            invariant
                count <= 74,
                16 + 20 * count == n == s@.len(),
                k <= count,
                all == Seq::new(
                    count as nat,
                    |j: int| s@.subrange(16 + 20 * j, 36 + 20 * j),
                ),
                hash_views(info_hashes@) =~= all.take(k as int),
            decreases count - k,
        {
            let ghost pre = info_hashes@;
            let h = InfoHash(read_20_bytes(s, 16 + 20 * k));
            info_hashes.push(h);
            proof {
                assert(hash_views(pre).len() == pre.len());
                assert(pre.len() == all.take(k as int).len());
                assert(info_hashes@ == pre.push(h));
                assert forall|j: int| 0 <= j < k + 1 implies hash_views(info_hashes@)[j]
                    == all.take(k + 1)[j] by {
                    assert(hash_views(info_hashes@)[j] == info_hashes@[j]@);
                    if j < k {
                        assert(info_hashes@[j] == pre[j]);
                        assert(hash_views(pre)[j] == all.take(k as int)[j]);
                    } else {
                        assert(info_hashes@[j] == h);
                    }
                }
                assert(hash_views(info_hashes@).len() == k + 1);
                assert(hash_views(info_hashes@) =~= all.take(k + 1));
            }
            k = k + 1;
        }
        proof {
            assert(all.take(count as int) =~= all);
        }
        Ok(
            Request::Scrape(
                ScrapeRequest {
                    connection_id: read_be(s, 0, 8),
                    transaction_id: read_u32_at(s, 12),
                    info_hashes,
                },
            ),
        )
    } else {
        Err(ParseError::BadAction)
    }
}

/// Serializes a request frame; the bytes are `spec_serialize_request` of
/// the request's image.
pub fn serialize_request(r: &Request) -> (out: Vec<u8>)
    ensures
        out@ == spec_serialize_request(r@),
{
    let mut out: Vec<u8> = Vec::new();
    match r {
        Request::Connect(c) => {
            write_be(&mut out, PROTOCOL_MAGIC, 8);
            write_be(&mut out, 0, 4);
            write_be(&mut out, c.transaction_id as u64, 4);
        },
        Request::Announce(a) => {
            write_be(&mut out, a.connection_id, 8);
            write_be(&mut out, 1, 4);
            write_be(&mut out, a.transaction_id as u64, 4);
            push_20_bytes(&mut out, &a.info_hash.0);
            push_20_bytes(&mut out, &a.peer_id.0);
            write_be(&mut out, a.bytes_downloaded, 8);
            write_be(&mut out, a.bytes_left, 8);
            write_be(&mut out, a.bytes_uploaded, 8);
            write_be(&mut out, a.event.code() as u64, 4);
            write_be(&mut out, a.ip_field as u64, 4);
            write_be(&mut out, a.key as u64, 4);
            write_be(&mut out, a.num_want as u64, 4);
            write_be(&mut out, a.port as u64, 2);
        },
        Request::Scrape(sc) => {
            write_be(&mut out, sc.connection_id, 8);
            write_be(&mut out, 2, 4);
            write_be(&mut out, sc.transaction_id as u64, 4);
            let ghost hs = hash_views(sc.info_hashes@);
            let ghost prefix = out@;
            let mut k: usize = 0;
            while k < sc.info_hashes.len()
                invariant
                    hs == hash_views(sc.info_hashes@),
                    k <= sc.info_hashes@.len(),
                    out@ == prefix + concat_hashes(hs.take(k as int)),
                decreases sc.info_hashes@.len() - k,
            {
                push_20_bytes(&mut out, &sc.info_hashes[k].0);
                proof {
                    assert(hs.take(k + 1).drop_last() =~= hs.take(k as int));
                    assert(out@ =~= prefix + concat_hashes(hs.take(k + 1)));
                }
                k = k + 1;
            }
            proof {
                assert(hs.take(sc.info_hashes@.len() as int) =~= hs);
            }
        },
    }
    out
}

/// Answer to a connect request: the freshly issued connection id.
#[derive(Clone, Copy, Debug)]
pub struct ConnectResponse {
    pub transaction_id: u32,
    pub connection_id: u64,
}

/// Answer to an announce: swarm counts and a sample of other peers, all of
/// the requester's IP family.
#[derive(Clone, Debug)]
pub struct AnnounceResponse {
    pub transaction_id: u32,
    pub announce_interval: u32,
    pub leechers: u32,
    pub seeders: u32,
    pub peers: Vec<PeerAddr>,
}

/// Aggregate counts for one scraped info-hash.
#[derive(Clone, Copy, Debug, PartialEq, Eq, Structural)]
pub struct TorrentScrapeStatistics {
    /// Peers with a complete copy.
    pub seeders: u32,
    /// Completions seen while the torrent was tracked.
    pub completed: u32,
    /// Peers still downloading.
    pub leechers: u32,
}

/// Answer to a scrape: statistics in request order.
#[derive(Clone, Debug)]
pub struct ScrapeResponse {
    pub transaction_id: u32,
    pub torrent_stats: Vec<TorrentScrapeStatistics>,
}

/// A refusal, carrying a human-readable message.
#[derive(Clone, Debug)]
pub struct ErrorResponse {
    pub transaction_id: u32,
    pub message: Vec<u8>,
}

/// Any response frame.
#[derive(Clone, Debug)]
pub enum Response {
    Connect(ConnectResponse),
    Announce(AnnounceResponse),
    Scrape(ScrapeResponse),
    Error(ErrorResponse),
}

/// Mathematical image of an announce response.
pub struct AnnounceResponded {
    pub transaction_id: u32,
    pub announce_interval: u32,
    pub leechers: u32,
    pub seeders: u32,
    pub peers: Seq<PeerAddr>,
}

/// Mathematical image of a response frame.
pub enum ResponseData {
    Connect { transaction_id: u32, connection_id: u64 },
    Announce(AnnounceResponded),
    Scrape { transaction_id: u32, torrent_stats: Seq<TorrentScrapeStatistics> },
    Error { transaction_id: u32, message: Seq<u8> },
}

impl View for AnnounceResponse {
    type V = AnnounceResponded;

    open spec fn view(&self) -> AnnounceResponded {
        AnnounceResponded {
            transaction_id: self.transaction_id,
            announce_interval: self.announce_interval,
            leechers: self.leechers,
            seeders: self.seeders,
            peers: self.peers@,
        }
    }
}

impl View for Response {
    type V = ResponseData;

    open spec fn view(&self) -> ResponseData {
        match self {
            Response::Connect(c) => ResponseData::Connect {
                transaction_id: c.transaction_id,
                connection_id: c.connection_id,
            },
            Response::Announce(a) => ResponseData::Announce(a@),
            Response::Scrape(s) => ResponseData::Scrape {
                transaction_id: s.transaction_id,
                torrent_stats: s.torrent_stats@,
            },
            Response::Error(e) => ResponseData::Error {
                transaction_id: e.transaction_id,
                message: e.message@,
            },
        }
    }
}

/// The compact encoding of one peer: 6 bytes for IPv4, 18 for IPv6.
pub open spec fn peer_bytes(p: PeerAddr) -> Seq<u8> {
    match p.ip {
        PeerIp::V4(ip) => nat_to_be(ip as nat, 4) + nat_to_be(p.port as nat, 2),
        PeerIp::V6(ip) => nat_to_be(ip as nat, 16) + nat_to_be(p.port as nat, 2),
    }
}

/// The compact encodings of a peer list, in order.
pub open spec fn concat_peers(ps: Seq<PeerAddr>) -> Seq<u8>
    decreases ps.len(),
{
    if ps.len() == 0 {
        Seq::empty()
    } else {
        concat_peers(ps.drop_last()) + peer_bytes(ps.last())
    }
}

/// The 12-byte encoding of one scrape statistics entry.
pub open spec fn stat_bytes(t: TorrentScrapeStatistics) -> Seq<u8> {
    nat_to_be(t.seeders as nat, 4) + nat_to_be(t.completed as nat, 4) + nat_to_be(
        t.leechers as nat,
        4,
    )
}

/// The encodings of a scrape statistics list, in order.
pub open spec fn concat_stats(ts: Seq<TorrentScrapeStatistics>) -> Seq<u8>
    decreases ts.len(),
{
    if ts.len() == 0 {
        Seq::empty()
    } else {
        concat_stats(ts.drop_last()) + stat_bytes(ts.last())
    }
}

/// The bytes a response frame serializes to.
pub open spec fn spec_serialize_response(r: ResponseData) -> Seq<u8> {
    match r {
        ResponseData::Connect { transaction_id, connection_id } => nat_to_be(0, 4) + nat_to_be(
            transaction_id as nat,
            4,
        ) + nat_to_be(connection_id as nat, 8),
        ResponseData::Announce(a) => nat_to_be(1, 4) + nat_to_be(a.transaction_id as nat, 4)
            + nat_to_be(a.announce_interval as nat, 4) + nat_to_be(a.leechers as nat, 4)
            + nat_to_be(a.seeders as nat, 4) + concat_peers(a.peers),
        ResponseData::Scrape { transaction_id, torrent_stats } => nat_to_be(2, 4) + nat_to_be(
            transaction_id as nat,
            4,
        ) + concat_stats(torrent_stats),
        ResponseData::Error { transaction_id, message } => nat_to_be(3, 4) + nat_to_be(
            transaction_id as nat,
            4,
        ) + message,
    }
}

/// The response frame a byte sequence parses to. Announce peer lists are
/// read in the family the receiver announced in, `v4` telling which.
pub open spec fn spec_parse_response(s: Seq<u8>, v4: bool) -> Result<ResponseData, ParseError> {
    if s.len() < 8 {
        Err(ParseError::UnderLength)
    } else {
        let action = be_nat(s.subrange(0, 4));
        let transaction_id = be_nat(s.subrange(4, 8)) as u32;
        if action == 0 {
            if s.len() < 16 {
                Err(ParseError::UnderLength)
            } else {
                Ok(
                    ResponseData::Connect {
                        transaction_id,
                        connection_id: be_nat(s.subrange(8, 16)) as u64,
                    },
                )
            }
        } else if action == 1 {
            if s.len() < 20 {
                Err(ParseError::UnderLength)
            } else {
                let w: int = if v4 {
                    6
                } else {
                    18
                };
                if (s.len() - 20) % w != 0 {
                    Err(ParseError::UnderLength)
                } else {
                    Ok(
                        ResponseData::Announce(
                            AnnounceResponded {
                                transaction_id,
                                announce_interval: be_nat(s.subrange(8, 12)) as u32,
                                leechers: be_nat(s.subrange(12, 16)) as u32,
                                seeders: be_nat(s.subrange(16, 20)) as u32,
                                peers: Seq::new(
                                    ((s.len() - 20) / w) as nat,
                                    |k: int| spec_parse_peer(s, 20 + w * k, v4),
                                ),
                            },
                        ),
                    )
                }
            }
        } else if action == 2 {
            if (s.len() - 8) % 12 != 0 {
                Err(ParseError::BadScrapeLength)
            } else {
                Ok(
                    ResponseData::Scrape {
                        transaction_id,
                        torrent_stats: Seq::new(
                            ((s.len() - 8) / 12) as nat,
                            |k: int| TorrentScrapeStatistics {
                                seeders: be_nat(s.subrange(8 + 12 * k, 12 + 12 * k)) as u32,
                                completed: be_nat(s.subrange(12 + 12 * k, 16 + 12 * k)) as u32,
                                leechers: be_nat(s.subrange(16 + 12 * k, 20 + 12 * k)) as u32,
                            },
                        ),
                    },
                )
            }
        } else if action == 3 {
            Ok(ResponseData::Error { transaction_id, message: s.subrange(8, s.len() as int) })
        } else {
            Err(ParseError::BadAction)
        }
    }
}

/// The peer whose compact encoding starts at `off`.
pub open spec fn spec_parse_peer(s: Seq<u8>, off: int, v4: bool) -> PeerAddr {
    if v4 {
        PeerAddr {
            ip: PeerIp::V4(be_nat(s.subrange(off, off + 4)) as u32),
            port: be_nat(s.subrange(off + 4, off + 6)) as u16,
        }
    } else {
        PeerAddr {
            ip: PeerIp::V6(be_nat(s.subrange(off, off + 16)) as u128),
            port: be_nat(s.subrange(off + 16, off + 18)) as u16,
        }
    }
}

/// The image of an exec response parse result.
pub open spec fn response_result_data(r: Result<Response, ParseError>) -> Result<
    ResponseData,
    ParseError,
> {
    match r {
        Ok(q) => Ok(q@),
        Err(e) => Err(e),
    }
}

/// Parses a response frame, as `spec_parse_response` describes.
pub fn parse_response(s: &[u8], v4: bool) -> (r: Result<Response, ParseError>)
    ensures
        response_result_data(r) == spec_parse_response(s@, v4),
{
    let n: usize = s.len();
    if n < 8 {
        return Err(ParseError::UnderLength);
    }
    let action = read_be(s, 0, 4);
    let transaction_id = read_u32_at(s, 4);
    if action == 0 {
        if n < 16 {
            return Err(ParseError::UnderLength);
        }
        Ok(
            Response::Connect(
                ConnectResponse { transaction_id, connection_id: read_be(s, 8, 8) },
            ),
        )
    } else if action == 1 {
        if n < 20 {
            return Err(ParseError::UnderLength);
        }
        let w: usize = if v4 {
            6
        } else {
            18
        };
        if (n - 20) % w != 0 {
            return Err(ParseError::UnderLength);
        }
        let count: usize = (n - 20) / w;
        let ghost all = Seq::new(count as nat, |k: int| spec_parse_peer(s@, 20 + w * k, v4));
        let mut peers: Vec<PeerAddr> = Vec::new();
        let mut k: usize = 0;
        while k < count
            invariant
                w == (if v4 { 6int } else { 18int }),
                20 + w * count == n == s@.len(),
                k <= count,
                all == Seq::new(count as nat, |j: int| spec_parse_peer(s@, 20 + w * j, v4)),
                peers@ =~= all.take(k as int),
            decreases count - k,
        {
            proof {
                assert(w * k + w <= w * count) by (nonlinear_arith)
                    requires
                        k < count,
                        w >= 1,
                        w * k >= 0,
                ;
                assert(w * k >= 0) by (nonlinear_arith)
                    requires
                        k >= 0,
                        w >= 1,
                ;
            }
            let off: usize = 20 + w * k;
            let p = if v4 {
                PeerAddr { ip: PeerIp::V4(read_u32_at(s, off)), port: read_u16_at(s, off + 4) }
            } else {
                proof {
                    lemma_be_nat_bound(s@.subrange(off as int, off + 16));
                    lemma_pow256_values();
                }
                PeerAddr {
                    ip: PeerIp::V6(read_be_wide(s, off, 16)),
                    port: read_u16_at(s, off + 16),
                }
            };
            peers.push(p);
            proof {
                assert(p == all[k as int]);
                assert(peers@ =~= all.take(k + 1));
            }
            k = k + 1;
        }
        proof {
            assert(all.take(count as int) =~= all);
        }
        Ok(
            Response::Announce(
                AnnounceResponse {
                    transaction_id,
                    announce_interval: read_u32_at(s, 8),
                    leechers: read_u32_at(s, 12),
                    seeders: read_u32_at(s, 16),
                    peers,
                },
            ),
        )
    } else if action == 2 {
        if (n - 8) % 12 != 0 {
            return Err(ParseError::BadScrapeLength);
        }
        let count: usize = (n - 8) / 12;
        let ghost all = Seq::new(
            count as nat,
            |k: int| TorrentScrapeStatistics {
                seeders: be_nat(s@.subrange(8 + 12 * k, 12 + 12 * k)) as u32,
                completed: be_nat(s@.subrange(12 + 12 * k, 16 + 12 * k)) as u32,
                leechers: be_nat(s@.subrange(16 + 12 * k, 20 + 12 * k)) as u32,
            },
        );
        let mut torrent_stats: Vec<TorrentScrapeStatistics> = Vec::new();
        let mut k: usize = 0;
        while k < count
            invariant
                8 + 12 * count == n == s@.len(),
                k <= count,
                all == Seq::new(
                    count as nat,
                    |j: int| TorrentScrapeStatistics {
                        seeders: be_nat(s@.subrange(8 + 12 * j, 12 + 12 * j)) as u32,
                        completed: be_nat(s@.subrange(12 + 12 * j, 16 + 12 * j)) as u32,
                        leechers: be_nat(s@.subrange(16 + 12 * j, 20 + 12 * j)) as u32,
                    },
                ),
                torrent_stats@ =~= all.take(k as int),
            decreases count - k,
        {
            let t = TorrentScrapeStatistics {
                seeders: read_u32_at(s, 8 + 12 * k),
                completed: read_u32_at(s, 12 + 12 * k),
                leechers: read_u32_at(s, 16 + 12 * k),
            };
            torrent_stats.push(t);
            proof {
                assert(t == all[k as int]);
                assert(torrent_stats@ =~= all.take(k + 1));
            }
            k = k + 1;
        }
        proof {
            assert(all.take(count as int) =~= all);
        }
        Ok(Response::Scrape(ScrapeResponse { transaction_id, torrent_stats }))
    } else if action == 3 {
        let mut message: Vec<u8> = Vec::new();
        let mut i: usize = 8;
        while i < n
            invariant
                8 <= i <= n == s@.len(),
                message@ =~= s@.subrange(8, i as int),
            decreases n - i,
        {
            message.push(s[i]);
            proof {
                assert(message@ =~= s@.subrange(8, i + 1));
            }
            i = i + 1;
        }
        Ok(Response::Error(ErrorResponse { transaction_id, message }))
    } else {
        Err(ParseError::BadAction)
    }
}

/// Serializes a response frame; the bytes are `spec_serialize_response` of
/// the response's image.
pub fn serialize_response(r: &Response) -> (out: Vec<u8>)
    ensures
        out@ == spec_serialize_response(r@),
{
    let mut out: Vec<u8> = Vec::new();
    match r {
        Response::Connect(c) => {
            write_be(&mut out, 0, 4);
            write_be(&mut out, c.transaction_id as u64, 4);
            write_be(&mut out, c.connection_id, 8);
        },
        Response::Announce(a) => {
            write_be(&mut out, 1, 4);
            write_be(&mut out, a.transaction_id as u64, 4);
            write_be(&mut out, a.announce_interval as u64, 4);
            write_be(&mut out, a.leechers as u64, 4);
            write_be(&mut out, a.seeders as u64, 4);
            let ghost prefix = out@;
            let mut k: usize = 0;
            while k < a.peers.len()
                invariant
                    k <= a.peers@.len(),
                    out@ == prefix + concat_peers(a.peers@.take(k as int)),
                decreases a.peers@.len() - k,
            {
                let p = a.peers[k];
                match p.ip {
                    PeerIp::V4(ip) => {
                        write_be(&mut out, ip as u64, 4);
                        write_be(&mut out, p.port as u64, 2);
                    },
                    PeerIp::V6(ip) => {
                        write_be_wide(&mut out, ip, 16);
                        write_be(&mut out, p.port as u64, 2);
                    },
                }
                proof {
                    assert(a.peers@.take(k + 1).drop_last() =~= a.peers@.take(k as int));
                    assert(a.peers@.take(k + 1).last() == p);
                    assert(out@ =~= prefix + concat_peers(a.peers@.take(k + 1)));
                }
                k = k + 1;
            }
            proof {
                assert(a.peers@.take(a.peers@.len() as int) =~= a.peers@);
            }
        },
        Response::Scrape(sc) => {
            write_be(&mut out, 2, 4);
            write_be(&mut out, sc.transaction_id as u64, 4);
            let ghost prefix = out@;
            let mut k: usize = 0;
            while k < sc.torrent_stats.len()
                invariant
                    k <= sc.torrent_stats@.len(),
                    out@ == prefix + concat_stats(sc.torrent_stats@.take(k as int)),
                decreases sc.torrent_stats@.len() - k,
            {
                let t = sc.torrent_stats[k];
                write_be(&mut out, t.seeders as u64, 4);
                write_be(&mut out, t.completed as u64, 4);
                write_be(&mut out, t.leechers as u64, 4);
                proof {
                    assert(sc.torrent_stats@.take(k + 1).drop_last() =~= sc.torrent_stats@.take(
                        k as int,
                    ));
                    assert(sc.torrent_stats@.take(k + 1).last() == t);
                    assert(out@ =~= prefix + concat_stats(sc.torrent_stats@.take(k + 1)));
                }
                k = k + 1;
            }
            proof {
                assert(sc.torrent_stats@.take(sc.torrent_stats@.len() as int)
                    =~= sc.torrent_stats@);
            }
        },
        Response::Error(e) => {
            write_be(&mut out, 3, 4);
            write_be(&mut out, e.transaction_id as u64, 4);
            let ghost prefix = out@;
            let mut k: usize = 0;
            while k < e.message.len()
                invariant
                    k <= e.message@.len(),
                    out@ =~= prefix + e.message@.take(k as int),
                decreases e.message@.len() - k,
            {
                out.push(e.message[k]);
                proof {
                    assert(out@ =~= prefix + e.message@.take(k + 1));
                }
                k = k + 1;
            }
            proof {
                assert(e.message@.take(e.message@.len() as int) =~= e.message@);
            }
        },
    }
    out
}

/// A two-byte field encodes back to its bytes.
proof fn lemma_u16_field(s: Seq<u8>, a: int)
    requires
        0 <= a,
        a + 2 <= s.len(),
    ensures
        be_nat(s.subrange(a, a + 2)) <= u16::MAX,
        nat_to_be((be_nat(s.subrange(a, a + 2)) as u16) as nat, 2) == s.subrange(a, a + 2),
{
    lemma_be_nat_bound(s.subrange(a, a + 2));
    lemma_pow256_values();
    lemma_nat_to_be_of_be_nat(s.subrange(a, a + 2));
}

/// A four-byte field encodes back to its bytes.
proof fn lemma_u32_field(s: Seq<u8>, a: int)
    requires
        0 <= a,
        a + 4 <= s.len(),
    ensures
        be_nat(s.subrange(a, a + 4)) <= u32::MAX,
        nat_to_be((be_nat(s.subrange(a, a + 4)) as u32) as nat, 4) == s.subrange(a, a + 4),
{
    lemma_be_nat_bound(s.subrange(a, a + 4));
    lemma_pow256_values();
    lemma_nat_to_be_of_be_nat(s.subrange(a, a + 4));
}

/// An eight-byte field encodes back to its bytes.
proof fn lemma_u64_field(s: Seq<u8>, a: int)
    requires
        0 <= a,
        a + 8 <= s.len(),
    ensures
        be_nat(s.subrange(a, a + 8)) <= u64::MAX,
        nat_to_be((be_nat(s.subrange(a, a + 8)) as u64) as nat, 8) == s.subrange(a, a + 8),
{
    lemma_be_nat_bound(s.subrange(a, a + 8));
    lemma_pow256_values();
    lemma_nat_to_be_of_be_nat(s.subrange(a, a + 8));
}

/// A sixteen-byte field encodes back to its bytes.
proof fn lemma_u128_field(s: Seq<u8>, a: int)
    requires
        0 <= a,
        a + 16 <= s.len(),
    ensures
        be_nat(s.subrange(a, a + 16)) <= u128::MAX,
        nat_to_be((be_nat(s.subrange(a, a + 16)) as u128) as nat, 16) == s.subrange(a, a + 16),
{
    lemma_be_nat_bound(s.subrange(a, a + 16));
    lemma_pow256_values();
    lemma_nat_to_be_of_be_nat(s.subrange(a, a + 16));
}

/// A list of byte blocks cut at stride `w` from a frame concatenates back
/// to the covered range.
proof fn lemma_concat_hashes_slices(bs: Seq<Seq<u8>>, s: Seq<u8>, a: int, w: int)
    requires
        w >= 1,
        0 <= a,
        a + w * bs.len() <= s.len(),
        forall|k: int| 0 <= k < bs.len() ==> bs[k] == s.subrange(a + w * k, a + w * k + w),
    ensures
        concat_hashes(bs) == s.subrange(a, a + w * bs.len()),
    decreases bs.len(),
{
    if bs.len() == 0 {
        assert(concat_hashes(bs) =~= s.subrange(a, a));
    } else {
        let n = bs.len() - 1;
        assert(w * n + w == w * bs.len() && 0 <= w * n) by (nonlinear_arith)
            requires
                w >= 1,
                n >= 0,
                n + 1 == bs.len(),
        ;
        lemma_concat_hashes_slices(bs.drop_last(), s, a, w);
        assert(bs.last() == s.subrange(a + w * n, a + w * n + w));
        assert(concat_hashes(bs) =~= s.subrange(a, a + w * bs.len()));
    }
}

/// A peer list cut at stride `w` from a frame concatenates back to the
/// covered range.
proof fn lemma_concat_peers_slices(ps: Seq<PeerAddr>, s: Seq<u8>, a: int, w: int)
    requires
        w >= 1,
        0 <= a,
        a + w * ps.len() <= s.len(),
        forall|k: int| 0 <= k < ps.len() ==> peer_bytes(ps[k]) == s.subrange(
            a + w * k,
            a + w * k + w,
        ),
    ensures
        concat_peers(ps) == s.subrange(a, a + w * ps.len()),
    decreases ps.len(),
{
    if ps.len() == 0 {
        assert(concat_peers(ps) =~= s.subrange(a, a));
    } else {
        let n = ps.len() - 1;
        assert(w * n + w == w * ps.len() && 0 <= w * n) by (nonlinear_arith)
            requires
                w >= 1,
                n >= 0,
                n + 1 == ps.len(),
        ;
        lemma_concat_peers_slices(ps.drop_last(), s, a, w);
        assert(peer_bytes(ps.last()) == s.subrange(a + w * n, a + w * n + w));
        assert(concat_peers(ps) =~= s.subrange(a, a + w * ps.len()));
    }
}

/// A statistics list cut from a frame concatenates back to the covered
/// range.
proof fn lemma_concat_stats_slices(ts: Seq<TorrentScrapeStatistics>, s: Seq<u8>, a: int)
    requires
        0 <= a,
        a + 12 * ts.len() <= s.len(),
        forall|k: int| 0 <= k < ts.len() ==> stat_bytes(ts[k]) == s.subrange(
            a + 12 * k,
            a + 12 * k + 12,
        ),
    ensures
        concat_stats(ts) == s.subrange(a, a + 12 * ts.len()),
    decreases ts.len(),
{
    if ts.len() == 0 {
        assert(concat_stats(ts) =~= s.subrange(a, a));
    } else {
        let n = ts.len() - 1;
        lemma_concat_stats_slices(ts.drop_last(), s, a);
        assert(stat_bytes(ts.last()) == s.subrange(a + 12 * n, a + 12 * n + 12));
        assert(concat_stats(ts) =~= s.subrange(a, a + 12 * ts.len()));
    }
}

/// Round trip for request frames: serializing what a well-formed frame
/// parses to yields the frame again. Well-formed means the frame parses
/// and carries no bytes beyond its layout.
pub proof fn lemma_request_roundtrip(s: Seq<u8>)
    requires
        spec_parse_request(s) is Ok,
        spec_parse_request(s).unwrap() is Connect ==> s.len() == 16,
        spec_parse_request(s).unwrap() is Announce ==> s.len() == 98,
    ensures
        spec_serialize_request(spec_parse_request(s).unwrap()) == s,
{
    let r = spec_parse_request(s).unwrap();
    let action = be_nat(s.subrange(8, 12));
    lemma_pow256_values();
    match r {
        RequestData::Connect { transaction_id } => {
            lemma_u64_field(s, 0);
            lemma_nat_to_be_of_be_nat(s.subrange(8, 12));
            lemma_u32_field(s, 12);
            assert(nat_to_be(PROTOCOL_MAGIC as nat, 8) == s.subrange(0, 8));
            assert(nat_to_be(0, 4) == s.subrange(8, 12));
            assert(spec_serialize_request(r) =~= s);
        },
        RequestData::Announce(a) => {
            lemma_u64_field(s, 0);
            lemma_nat_to_be_of_be_nat(s.subrange(8, 12));
            lemma_u32_field(s, 12);
            lemma_u64_field(s, 56);
            lemma_u64_field(s, 64);
            lemma_u64_field(s, 72);
            lemma_u32_field(s, 80);
            lemma_u32_field(s, 84);
            lemma_u32_field(s, 88);
            lemma_u32_field(s, 92);
            lemma_u16_field(s, 96);
            assert(nat_to_be(1, 4) == s.subrange(8, 12));
            let c = be_nat(s.subrange(80, 84));
            assert(a.event.spec_code() == c);
            assert(nat_to_be(a.event.spec_code() as nat, 4) == s.subrange(80, 84));
            assert(spec_serialize_request(r) =~= s);
        },
        RequestData::Scrape { connection_id, transaction_id, info_hashes } => {
            lemma_u64_field(s, 0);
            lemma_nat_to_be_of_be_nat(s.subrange(8, 12));
            lemma_u32_field(s, 12);
            assert(nat_to_be(2, 4) == s.subrange(8, 12));
            let count = (s.len() - 16) / 20;
            assert(16 + 20 * count == s.len());
            lemma_concat_hashes_slices(info_hashes, s, 16, 20);
            assert(concat_hashes(info_hashes) == s.subrange(16, s.len() as int));
            assert(spec_serialize_request(r) =~= s);
        },
    }
}

/// Round trip for response frames: serializing what a well-formed frame
/// parses to yields the frame again.
pub proof fn lemma_response_roundtrip(s: Seq<u8>, v4: bool)
    requires
        spec_parse_response(s, v4) is Ok,
        spec_parse_response(s, v4).unwrap() is Connect ==> s.len() == 16,
    ensures
        spec_serialize_response(spec_parse_response(s, v4).unwrap()) == s,
{
    let r = spec_parse_response(s, v4).unwrap();
    lemma_pow256_values();
    lemma_nat_to_be_of_be_nat(s.subrange(0, 4));
    lemma_u32_field(s, 4);
    match r {
        ResponseData::Connect { transaction_id, connection_id } => {
            assert(nat_to_be(0, 4) == s.subrange(0, 4));
            lemma_u64_field(s, 8);
            assert(spec_serialize_response(r) =~= s);
        },
        ResponseData::Announce(a) => {
            assert(nat_to_be(1, 4) == s.subrange(0, 4));
            lemma_u32_field(s, 8);
            lemma_u32_field(s, 12);
            lemma_u32_field(s, 16);
            let w: int = if v4 {
                6
            } else {
                18
            };
            let count = (s.len() - 20) / w;
            assert(20 + w * count == s.len()) by (nonlinear_arith)
                requires
                    w == 6 || w == 18,
                    s.len() >= 20,
                    (s.len() - 20) % w == 0,
                    count == (s.len() - 20) / w,
            ;
            assert forall|k: int| 0 <= k < a.peers.len() implies peer_bytes(a.peers[k])
                == s.subrange(20 + w * k, 20 + w * k + w) by {
                assert(0 <= w * k && 20 + w * k + w <= s.len()) by (nonlinear_arith)
                    requires
                        w >= 1,
                        0 <= k < count,
                        20 + w * count <= s.len(),
                ;
                let off = 20 + w * k;
                assert(a.peers[k] == spec_parse_peer(s, off, v4));
                if v4 {
                    lemma_u32_field(s, off);
                    lemma_u16_field(s, off + 4);
                    assert(peer_bytes(a.peers[k]) =~= s.subrange(off, off + 6));
                } else {
                    lemma_u128_field(s, off);
                    lemma_u16_field(s, off + 16);
                    assert(peer_bytes(a.peers[k]) =~= s.subrange(off, off + 18));
                }
            }
            lemma_concat_peers_slices(a.peers, s, 20, w);
            assert(concat_peers(a.peers) == s.subrange(20, s.len() as int));
            assert(spec_serialize_response(r) =~= s);
        },
        ResponseData::Scrape { transaction_id, torrent_stats } => {
            assert(nat_to_be(2, 4) == s.subrange(0, 4));
            let count = (s.len() - 8) / 12;
            assert(8 + 12 * count == s.len());
            assert forall|k: int| 0 <= k < torrent_stats.len() implies stat_bytes(torrent_stats[k])
                == s.subrange(8 + 12 * k, 8 + 12 * k + 12) by {
                lemma_u32_field(s, 8 + 12 * k);
                lemma_u32_field(s, 12 + 12 * k);
                lemma_u32_field(s, 16 + 12 * k);
                assert(stat_bytes(torrent_stats[k]) =~= s.subrange(8 + 12 * k, 8 + 12 * k + 12));
            }
            lemma_concat_stats_slices(torrent_stats, s, 8);
            assert(concat_stats(torrent_stats) == s.subrange(8, s.len() as int));
            assert(spec_serialize_response(r) =~= s);
        },
        ResponseData::Error { transaction_id, message } => {
            assert(nat_to_be(3, 4) == s.subrange(0, 4));
            assert(spec_serialize_response(r) =~= s);
        },
    }
}

/// A concatenation of equal-width blocks has width times count bytes.
proof fn lemma_concat_hashes_len(hs: Seq<Seq<u8>>, w: int)
    requires
        w >= 0,
        forall|k: int| 0 <= k < hs.len() ==> (#[trigger] hs[k]).len() == w,
    ensures
        concat_hashes(hs).len() == w * hs.len(),
    decreases hs.len(),
{
    if hs.len() == 0 {
    } else {
        let n = hs.len() - 1;
        lemma_concat_hashes_len(hs.drop_last(), w);
        assert(w * n + w == w * hs.len()) by (nonlinear_arith)
            requires
                n + 1 == hs.len(),
        ;
    }
}

/// Each equal-width block can be read back out of the concatenation at
/// its offset.
proof fn lemma_concat_hashes_index(hs: Seq<Seq<u8>>, w: int, k: int)
    requires
        w >= 1,
        forall|j: int| 0 <= j < hs.len() ==> (#[trigger] hs[j]).len() == w,
        0 <= k < hs.len(),
    ensures
        concat_hashes(hs).subrange(w * k, w * k + w) == hs[k],
    decreases hs.len(),
{
    let n = hs.len() - 1;
    lemma_concat_hashes_len(hs.drop_last(), w);
    assert(0 <= w * k && w * k + w <= w * hs.len() && w * n + w == w * hs.len()) by (
    nonlinear_arith)
        requires
            w >= 1,
            0 <= k < hs.len(),
            n + 1 == hs.len(),
    ;
    if k == n {
        assert(concat_hashes(hs).subrange(w * k, w * k + w) =~= hs[k]);
    } else {
        assert(w * k + w <= w * n) by (nonlinear_arith)
            requires
                w >= 1,
                0 <= k < n,
        ;
        lemma_concat_hashes_index(hs.drop_last(), w, k);
        assert(concat_hashes(hs).subrange(w * k, w * k + w) =~= concat_hashes(
            hs.drop_last(),
        ).subrange(w * k, w * k + w));
    }
}

/// A peer list's bytes, block by block.
pub open spec fn peer_blocks(ps: Seq<PeerAddr>) -> Seq<Seq<u8>> {
    ps.map_values(|p: PeerAddr| peer_bytes(p))
}

/// The peer encoding is the block concatenation of the per-peer bytes.
proof fn lemma_concat_peers_as_blocks(ps: Seq<PeerAddr>)
    ensures
        concat_peers(ps) == concat_hashes(peer_blocks(ps)),
    decreases ps.len(),
{
    if ps.len() == 0 {
        assert(concat_peers(ps) =~= concat_hashes(peer_blocks(ps)));
    } else {
        lemma_concat_peers_as_blocks(ps.drop_last());
        assert(peer_blocks(ps).drop_last() =~= peer_blocks(ps.drop_last()));
        assert(peer_blocks(ps).last() == peer_bytes(ps.last()));
        assert(concat_hashes(peer_blocks(ps)) == concat_hashes(peer_blocks(ps).drop_last())
            + peer_blocks(ps).last());
    }
}

/// A statistics list's bytes, block by block.
pub open spec fn stat_blocks(ts: Seq<TorrentScrapeStatistics>) -> Seq<Seq<u8>> {
    ts.map_values(|t: TorrentScrapeStatistics| stat_bytes(t))
}

/// The statistics encoding is the block concatenation of the per-entry
/// bytes.
proof fn lemma_concat_stats_as_blocks(ts: Seq<TorrentScrapeStatistics>)
    ensures
        concat_stats(ts) == concat_hashes(stat_blocks(ts)),
    decreases ts.len(),
{
    if ts.len() == 0 {
        assert(concat_stats(ts) =~= concat_hashes(stat_blocks(ts)));
    } else {
        lemma_concat_stats_as_blocks(ts.drop_last());
        assert(stat_blocks(ts).drop_last() =~= stat_blocks(ts.drop_last()));
        assert(stat_blocks(ts).last() == stat_bytes(ts.last()));
        assert(concat_hashes(stat_blocks(ts)) == concat_hashes(stat_blocks(ts).drop_last())
            + stat_blocks(ts).last());
    }
}

/// Request data the wire can carry: identifiers of twenty bytes, and a
/// scrape list within the frame budget.
pub open spec fn request_data_wf(v: RequestData) -> bool {
    match v {
        RequestData::Connect { .. } => true,
        RequestData::Announce(a) => a.info_hash.len() == 20 && a.peer_id.len() == 20,
        RequestData::Scrape { info_hashes, .. } => 1 <= info_hashes.len() <= 74 && forall|k: int|
            0 <= k < info_hashes.len() ==> (#[trigger] info_hashes[k]).len() == 20,
    }
}

/// Round trip for request data: a frame built from wire-carriable data
/// parses back to the same data.
pub proof fn lemma_request_parse_of_serialize(v: RequestData)
    requires
        request_data_wf(v),
    ensures
        spec_parse_request(spec_serialize_request(v)) == Ok::<RequestData, ParseError>(v),
{
    lemma_pow256_values();
    let s = spec_serialize_request(v);
    match v {
        RequestData::Connect { transaction_id } => {
            lemma_nat_to_be_len(PROTOCOL_MAGIC as nat, 8);
            lemma_nat_to_be_len(0, 4);
            lemma_nat_to_be_len(transaction_id as nat, 4);
            assert(s.len() == 16);
            assert(s.subrange(0, 8) =~= nat_to_be(PROTOCOL_MAGIC as nat, 8));
            assert(s.subrange(8, 12) =~= nat_to_be(0, 4));
            assert(s.subrange(12, 16) =~= nat_to_be(transaction_id as nat, 4));
            lemma_be_nat_of_nat_to_be(PROTOCOL_MAGIC as nat, 8);
            lemma_be_nat_of_nat_to_be(0, 4);
            lemma_be_nat_of_nat_to_be(transaction_id as nat, 4);
        },
        RequestData::Announce(a) => {
            lemma_nat_to_be_len(a.connection_id as nat, 8);
            lemma_nat_to_be_len(1, 4);
            lemma_nat_to_be_len(a.transaction_id as nat, 4);
            lemma_nat_to_be_len(a.bytes_downloaded as nat, 8);
            lemma_nat_to_be_len(a.bytes_left as nat, 8);
            lemma_nat_to_be_len(a.bytes_uploaded as nat, 8);
            lemma_nat_to_be_len(a.event.spec_code() as nat, 4);
            lemma_nat_to_be_len(a.ip_field as nat, 4);
            lemma_nat_to_be_len(a.key as nat, 4);
            lemma_nat_to_be_len(a.num_want as nat, 4);
            lemma_nat_to_be_len(a.port as nat, 2);
            assert(s.len() == 98);
            lemma_be_nat_of_nat_to_be(a.connection_id as nat, 8);
            lemma_be_nat_of_nat_to_be(1, 4);
            lemma_be_nat_of_nat_to_be(a.transaction_id as nat, 4);
            lemma_be_nat_of_nat_to_be(a.bytes_downloaded as nat, 8);
            lemma_be_nat_of_nat_to_be(a.bytes_left as nat, 8);
            lemma_be_nat_of_nat_to_be(a.bytes_uploaded as nat, 8);
            lemma_be_nat_of_nat_to_be(a.event.spec_code() as nat, 4);
            lemma_be_nat_of_nat_to_be(a.ip_field as nat, 4);
            lemma_be_nat_of_nat_to_be(a.key as nat, 4);
            lemma_be_nat_of_nat_to_be(a.num_want as nat, 4);
            lemma_be_nat_of_nat_to_be(a.port as nat, 2);
            assert(s.subrange(0, 8) =~= nat_to_be(a.connection_id as nat, 8));
            assert(s.subrange(8, 12) =~= nat_to_be(1, 4));
            assert(s.subrange(12, 16) =~= nat_to_be(a.transaction_id as nat, 4));
            assert(s.subrange(16, 36) =~= a.info_hash);
            assert(s.subrange(36, 56) =~= a.peer_id);
            assert(s.subrange(56, 64) =~= nat_to_be(a.bytes_downloaded as nat, 8));
            assert(s.subrange(64, 72) =~= nat_to_be(a.bytes_left as nat, 8));
            assert(s.subrange(72, 80) =~= nat_to_be(a.bytes_uploaded as nat, 8));
            assert(s.subrange(80, 84) =~= nat_to_be(a.event.spec_code() as nat, 4));
            assert(s.subrange(84, 88) =~= nat_to_be(a.ip_field as nat, 4));
            assert(s.subrange(88, 92) =~= nat_to_be(a.key as nat, 4));
            assert(s.subrange(92, 96) =~= nat_to_be(a.num_want as nat, 4));
            assert(s.subrange(96, 98) =~= nat_to_be(a.port as nat, 2));
            assert(AnnounceEvent::spec_from_code(a.event.spec_code() as nat) == a.event);
            let parsed = spec_parse_request(s).unwrap();
            assert(parsed matches RequestData::Announce(b) && b == a);
        },
        RequestData::Scrape { connection_id, transaction_id, info_hashes } => {
            lemma_nat_to_be_len(connection_id as nat, 8);
            lemma_nat_to_be_len(2, 4);
            lemma_nat_to_be_len(transaction_id as nat, 4);
            lemma_concat_hashes_len(info_hashes, 20);
            let count = info_hashes.len() as int;
            assert(s.len() == 16 + 20 * count);
            lemma_be_nat_of_nat_to_be(connection_id as nat, 8);
            lemma_be_nat_of_nat_to_be(2, 4);
            lemma_be_nat_of_nat_to_be(transaction_id as nat, 4);
            assert(s.subrange(0, 8) =~= nat_to_be(connection_id as nat, 8));
            assert(s.subrange(8, 12) =~= nat_to_be(2, 4));
            assert(s.subrange(12, 16) =~= nat_to_be(transaction_id as nat, 4));
            assert((s.len() - 16) % 20 == 0 && (s.len() - 16) / 20 == count);
            assert forall|k: int| 0 <= k < count implies s.subrange(16 + 20 * k, 36 + 20 * k)
                == info_hashes[k] by {
                lemma_concat_hashes_index(info_hashes, 20, k);
                assert(s.subrange(16 + 20 * k, 36 + 20 * k) =~= concat_hashes(
                    info_hashes,
                ).subrange(20 * k, 20 * k + 20));
            }
            let parsed = spec_parse_request(s).unwrap();
            match parsed {
                RequestData::Scrape { connection_id: c2, transaction_id: t2, info_hashes: h2 } => {
                    assert(h2 =~= info_hashes);
                },
                _ => {
                    assert(false);
                },
            }
        },
    }
}

/// Response data the wire can carry: every sampled peer of the family the
/// response is read in.
pub open spec fn response_data_wf(v: ResponseData, v4: bool) -> bool {
    match v {
        ResponseData::Announce(a) => forall|k: int|
            0 <= k < a.peers.len() ==> (#[trigger] a.peers[k]).spec_is_v4() == v4,
        _ => true,
    }
}

/// Round trip for response data: a frame built from wire-carriable data
/// parses back to the same data, read in the peers' family.
#[verifier::rlimit(100)]
pub proof fn lemma_response_parse_of_serialize(v: ResponseData, v4: bool)
    requires
        response_data_wf(v, v4),
    ensures
        spec_parse_response(spec_serialize_response(v), v4) == Ok::<ResponseData, ParseError>(v),
{
    lemma_pow256_values();
    let s = spec_serialize_response(v);
    match v {
        ResponseData::Connect { transaction_id, connection_id } => {
            lemma_nat_to_be_len(0, 4);
            lemma_nat_to_be_len(transaction_id as nat, 4);
            lemma_nat_to_be_len(connection_id as nat, 8);
            assert(s.len() == 16);
            assert(s.subrange(0, 4) =~= nat_to_be(0, 4));
            assert(s.subrange(4, 8) =~= nat_to_be(transaction_id as nat, 4));
            assert(s.subrange(8, 16) =~= nat_to_be(connection_id as nat, 8));
            lemma_be_nat_of_nat_to_be(0, 4);
            lemma_be_nat_of_nat_to_be(transaction_id as nat, 4);
            lemma_be_nat_of_nat_to_be(connection_id as nat, 8);
        },
        ResponseData::Announce(a) => {
            let w: int = if v4 {
                6
            } else {
                18
            };
            lemma_nat_to_be_len(1, 4);
            lemma_nat_to_be_len(a.transaction_id as nat, 4);
            lemma_nat_to_be_len(a.announce_interval as nat, 4);
            lemma_nat_to_be_len(a.leechers as nat, 4);
            lemma_nat_to_be_len(a.seeders as nat, 4);
            lemma_concat_peers_as_blocks(a.peers);
            assert forall|k: int| 0 <= k < peer_blocks(a.peers).len() implies (#[trigger]
            peer_blocks(a.peers)[k]).len() == w by {
                assert(peer_blocks(a.peers)[k] == peer_bytes(a.peers[k]));
                match a.peers[k].ip {
                    PeerIp::V4(ip) => {
                        lemma_nat_to_be_len(ip as nat, 4);
                        lemma_nat_to_be_len(a.peers[k].port as nat, 2);
                    },
                    PeerIp::V6(ip) => {
                        lemma_nat_to_be_len(ip as nat, 16);
                        lemma_nat_to_be_len(a.peers[k].port as nat, 2);
                    },
                }
            }
            lemma_concat_hashes_len(peer_blocks(a.peers), w);
            let count = a.peers.len() as int;
            assert(s.len() == 20 + w * count);
            lemma_be_nat_of_nat_to_be(1, 4);
            lemma_be_nat_of_nat_to_be(a.transaction_id as nat, 4);
            lemma_be_nat_of_nat_to_be(a.announce_interval as nat, 4);
            lemma_be_nat_of_nat_to_be(a.leechers as nat, 4);
            lemma_be_nat_of_nat_to_be(a.seeders as nat, 4);
            assert(s.subrange(0, 4) =~= nat_to_be(1, 4));
            assert(s.subrange(4, 8) =~= nat_to_be(a.transaction_id as nat, 4));
            assert(s.subrange(8, 12) =~= nat_to_be(a.announce_interval as nat, 4));
            assert(s.subrange(12, 16) =~= nat_to_be(a.leechers as nat, 4));
            assert(s.subrange(16, 20) =~= nat_to_be(a.seeders as nat, 4));
            assert((s.len() - 20) % w == 0 && (s.len() - 20) / w == count) by (nonlinear_arith)
                requires
                    w == 6 || w == 18,
                    s.len() == 20 + w * count,
                    count >= 0,
            ;
            assert forall|k: int| 0 <= k < count implies spec_parse_peer(s, 20 + w * k, v4)
                == a.peers[k] by {
                lemma_concat_hashes_index(peer_blocks(a.peers), w, k);
                assert(0 <= w * k && w * k + w <= w * count) by (nonlinear_arith)
                    requires
                        w >= 1,
                        0 <= k < count,
                ;
                assert(s.subrange(20 + w * k, 20 + w * k + w) =~= concat_hashes(
                    peer_blocks(a.peers),
                ).subrange(w * k, w * k + w));
                assert(s.subrange(20 + w * k, 20 + w * k + w) == peer_bytes(a.peers[k]));
                let p = a.peers[k];
                let off = 20 + w * k;
                let pb = peer_bytes(p);
                match p.ip {
                    PeerIp::V4(ip) => {
                        lemma_nat_to_be_len(ip as nat, 4);
                        lemma_nat_to_be_len(p.port as nat, 2);
                        lemma_be_nat_of_nat_to_be(ip as nat, 4);
                        lemma_be_nat_of_nat_to_be(p.port as nat, 2);
                        assert(pb.subrange(0, 4) =~= nat_to_be(ip as nat, 4));
                        assert(pb.subrange(4, 6) =~= nat_to_be(p.port as nat, 2));
                        assert(s.subrange(off, off + 4) =~= pb.subrange(0, 4));
                        assert(s.subrange(off + 4, off + 6) =~= pb.subrange(4, 6));
                    },
                    PeerIp::V6(ip) => {
                        lemma_nat_to_be_len(ip as nat, 16);
                        lemma_nat_to_be_len(p.port as nat, 2);
                        lemma_be_nat_of_nat_to_be(ip as nat, 16);
                        lemma_be_nat_of_nat_to_be(p.port as nat, 2);
                        assert(pb.subrange(0, 16) =~= nat_to_be(ip as nat, 16));
                        assert(pb.subrange(16, 18) =~= nat_to_be(p.port as nat, 2));
                        assert(s.subrange(off, off + 16) =~= pb.subrange(0, 16));
                        assert(s.subrange(off + 16, off + 18) =~= pb.subrange(16, 18));
                    },
                }
            }
            let parsed = spec_parse_response(s, v4).unwrap();
            match parsed {
                ResponseData::Announce(b) => {
                    assert(b.peers =~= a.peers);
                },
                _ => {
                    assert(false);
                },
            }
        },
        ResponseData::Scrape { transaction_id, torrent_stats } => {
            lemma_nat_to_be_len(2, 4);
            lemma_nat_to_be_len(transaction_id as nat, 4);
            lemma_concat_stats_as_blocks(torrent_stats);
            assert forall|k: int| 0 <= k < stat_blocks(torrent_stats).len() implies (#[trigger]
            stat_blocks(torrent_stats)[k]).len() == 12 by {
                assert(stat_blocks(torrent_stats)[k] == stat_bytes(torrent_stats[k]));
                lemma_nat_to_be_len(torrent_stats[k].seeders as nat, 4);
                lemma_nat_to_be_len(torrent_stats[k].completed as nat, 4);
                lemma_nat_to_be_len(torrent_stats[k].leechers as nat, 4);
            }
            lemma_concat_hashes_len(stat_blocks(torrent_stats), 12);
            let count = torrent_stats.len() as int;
            assert(s.len() == 8 + 12 * count);
            lemma_be_nat_of_nat_to_be(2, 4);
            lemma_be_nat_of_nat_to_be(transaction_id as nat, 4);
            assert(s.subrange(0, 4) =~= nat_to_be(2, 4));
            assert(s.subrange(4, 8) =~= nat_to_be(transaction_id as nat, 4));
            assert((s.len() - 8) % 12 == 0 && (s.len() - 8) / 12 == count);
            assert forall|k: int| 0 <= k < count implies s.subrange(8 + 12 * k, 8 + 12 * k + 12)
                == stat_bytes(torrent_stats[k]) by {
                lemma_concat_hashes_index(stat_blocks(torrent_stats), 12, k);
                assert(s.subrange(8 + 12 * k, 8 + 12 * k + 12) =~= concat_hashes(
                    stat_blocks(torrent_stats),
                ).subrange(12 * k, 12 * k + 12));
            }
            let parsed = spec_parse_response(s, v4).unwrap();
            match parsed {
                ResponseData::Scrape { transaction_id: t2, torrent_stats: ts2 } => {
                    assert forall|k: int| 0 <= k < count implies ts2[k] == torrent_stats[k] by {
                        let t = torrent_stats[k];
                        let tb = stat_bytes(t);
                        lemma_nat_to_be_len(t.seeders as nat, 4);
                        lemma_nat_to_be_len(t.completed as nat, 4);
                        lemma_nat_to_be_len(t.leechers as nat, 4);
                        lemma_be_nat_of_nat_to_be(t.seeders as nat, 4);
                        lemma_be_nat_of_nat_to_be(t.completed as nat, 4);
                        lemma_be_nat_of_nat_to_be(t.leechers as nat, 4);
                        assert(tb.subrange(0, 4) =~= nat_to_be(t.seeders as nat, 4));
                        assert(tb.subrange(4, 8) =~= nat_to_be(t.completed as nat, 4));
                        assert(tb.subrange(8, 12) =~= nat_to_be(t.leechers as nat, 4));
                        assert(s.subrange(8 + 12 * k, 12 + 12 * k) =~= tb.subrange(0, 4));
                        assert(s.subrange(12 + 12 * k, 16 + 12 * k) =~= tb.subrange(4, 8));
                        assert(s.subrange(16 + 12 * k, 20 + 12 * k) =~= tb.subrange(8, 12));
                    }
                    assert(ts2 =~= torrent_stats);
                },
                _ => {
                    assert(false);
                },
            }
        },
        ResponseData::Error { transaction_id, message } => {
            lemma_nat_to_be_len(3, 4);
            lemma_nat_to_be_len(transaction_id as nat, 4);
            assert(s.len() == 8 + message.len());
            lemma_be_nat_of_nat_to_be(3, 4);
            lemma_be_nat_of_nat_to_be(transaction_id as nat, 4);
            assert(s.subrange(0, 4) =~= nat_to_be(3, 4));
            assert(s.subrange(4, 8) =~= nat_to_be(transaction_id as nat, 4));
            assert(s.subrange(8, s.len() as int) =~= message);
        },
    }
}

/// Appends a 20-byte identifier to the output frame.
fn push_20_bytes(out: &mut Vec<u8>, bytes: &[u8; 20])
    ensures
        final(out)@ == old(out)@ + bytes@,
{
    let ghost prefix = out@;
    for j in 0..20usize
        invariant
            out@ =~= prefix + bytes@.subrange(0, j as int),
    {
        out.push(bytes[j]);
        proof {
            assert(out@ =~= prefix + bytes@.subrange(0, j + 1));
        }
    }
    proof {
        assert(bytes@.subrange(0, 20) =~= bytes@);
    }
}

} // verus!
