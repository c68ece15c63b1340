//! The swarm store: a worker's private index from info-hashes to peer
//! tables, with announce and scrape handling, expiry, and sampling.

use vstd::prelude::*;

use crate::access_list::AccessList;
use crate::codec::{AnnounceRequest, AnnounceResponse, ScrapeRequest, ScrapeResponse,
    TorrentScrapeStatistics};
use crate::common::{AnnounceEvent, InfoHash, PeerAddr, PeerId};
use crate::config::TrackerConfig;
use crate::rng::gen_index;

verus! {

/// One peer's membership in a swarm.
#[derive(Clone, Copy, Debug)]
pub struct PeerRecord {
    pub peer_id: PeerId,
    /// Datagram source IP with the announced port; never the client-claimed
    /// address field.
    pub addr: PeerAddr,
    /// Whether the peer reported zero bytes left.
    pub is_seeder: bool,
    /// Seconds since server start after which the record expires.
    pub valid_until: u64,
}

/// One tracked torrent: its peer table and its completion counter.
#[derive(Clone, Debug)]
pub struct Torrent {
    pub info_hash: InfoHash,
    pub peers: Vec<PeerRecord>,
    /// How many peers turned seeder while present; reported by scrape.
    pub num_completed: u32,
}

/// How many records in `s` carry the peer id `pid`.
pub open spec fn count_pid(s: Seq<PeerRecord>, pid: Seq<u8>) -> nat
    decreases s.len(),
{
    if s.len() == 0 {
        0
    } else {
        count_pid(s.drop_last(), pid) + (if s.last().peer_id@ == pid {
            1nat
        } else {
            0nat
        })
    }
}

/// How many records in `s` are seeders.
pub open spec fn count_seeders(s: Seq<PeerRecord>) -> nat
    decreases s.len(),
{
    if s.len() == 0 {
        0
    } else {
        count_seeders(s.drop_last()) + (if s.last().is_seeder {
            1nat
        } else {
            0nat
        })
    }
}

/// Whether a record may be handed to the peer `pid`: never the requester
/// itself, and only leechers when the requester seeds.
pub open spec fn spec_qualifies(r: PeerRecord, pid: Seq<u8>, requester_seeds: bool) -> bool {
    r.peer_id@ != pid && (requester_seeds ==> !r.is_seeder)
}

/// How many records in `s` qualify for the requester.
pub open spec fn count_qualifying(s: Seq<PeerRecord>, pid: Seq<u8>, requester_seeds: bool) -> nat
    decreases s.len(),
{
    if s.len() == 0 {
        0
    } else {
        count_qualifying(s.drop_last(), pid, requester_seeds) + (if spec_qualifies(
            s.last(),
            pid,
            requester_seeds,
        ) {
            1nat
        } else {
            0nat
        })
    }
}

/// A well-formed peer table of one IP family: peer ids are unique and
/// every address belongs to the family.
pub open spec fn peers_wf(s: Seq<PeerRecord>, v4: bool) -> bool {
    &&& forall|i: int, j: int|
        0 <= i < j < s.len() ==> s[i].peer_id@ != s[j].peer_id@
    &&& forall|i: int| 0 <= i < s.len() ==> (#[trigger] s[i].addr).spec_is_v4() == v4
}

/// A table with no record for `pid` counts zero for it, and conversely.
pub proof fn lemma_count_pid_zero(s: Seq<PeerRecord>, pid: Seq<u8>)
    ensures
        (count_pid(s, pid) == 0) <==> (forall|i: int|
            0 <= i < s.len() ==> (#[trigger] s[i]).peer_id@ != pid),
    decreases s.len(),
{
    if s.len() > 0 {
        lemma_count_pid_zero(s.drop_last(), pid);
        assert(forall|i: int|
            0 <= i < s.len() - 1 ==> #[trigger] s[i] == s.drop_last()[i]);
    }
}

/// In a table with unique ids, a record for `pid` makes its count one.
pub proof fn lemma_count_pid_unique(s: Seq<PeerRecord>, pid: Seq<u8>, w: int)
    requires
        forall|i: int, j: int| 0 <= i < j < s.len() ==> s[i].peer_id@ != s[j].peer_id@,
        0 <= w < s.len(),
        s[w].peer_id@ == pid,
    ensures
        count_pid(s, pid) == 1,
    decreases s.len(),
{
    if w == s.len() - 1 {
        lemma_count_pid_zero(s.drop_last(), pid);
        assert(forall|i: int|
            0 <= i < s.len() - 1 ==> #[trigger] s.drop_last()[i] == s[i]);
    } else {
        assert(s.last().peer_id@ != pid);
        assert(s.drop_last()[w] == s[w]);
        lemma_count_pid_unique(s.drop_last(), pid, w);
    }
}

/// The table after an announce inserts or replaces the requester's record.
pub open spec fn spec_upsert(s: Seq<PeerRecord>, rec: PeerRecord) -> Seq<PeerRecord> {
    if exists|i: int| 0 <= i < s.len() && (#[trigger] s[i]).peer_id@ == rec.peer_id@ {
        s.update(choose|i: int| 0 <= i < s.len() && (#[trigger] s[i]).peer_id@ == rec.peer_id@, rec)
    } else {
        s.push(rec)
    }
}

/// The table after a stopped announce removes the requester's record.
pub open spec fn spec_remove_pid(s: Seq<PeerRecord>, pid: Seq<u8>) -> Seq<PeerRecord> {
    if exists|i: int| 0 <= i < s.len() && (#[trigger] s[i]).peer_id@ == pid {
        s.remove(choose|i: int| 0 <= i < s.len() && (#[trigger] s[i]).peer_id@ == pid)
    } else {
        s
    }
}

/// Finds the record for `pid`, if the table has one.
fn find_peer(peers: &Vec<PeerRecord>, pid: &PeerId) -> (r: Option<usize>)
    ensures
        match r {
            Some(i) => i < peers@.len() && peers@[i as int].peer_id@ == pid@,
            None => forall|i: int|
                0 <= i < peers@.len() ==> (#[trigger] peers@[i]).peer_id@ != pid@,
        },
{
    let n = peers.len();
    for i in 0..n
        invariant
            n == peers@.len(),
            forall|k: int| 0 <= k < i ==> (#[trigger] peers@[k]).peer_id@ != pid@,
    {
        if peers[i].peer_id.matches(pid) {
            return Some(i);
        }
    }
    None
}

/// Inserts the requester's record, replacing a prior one with the same
/// peer id. Returns whether the replaced record, if any, was a seeder.
fn upsert_peer(peers: &mut Vec<PeerRecord>, rec: PeerRecord, Ghost(v4): Ghost<bool>) -> (prior:
    Option<bool>)
    requires
        peers_wf(old(peers)@, v4),
        rec.addr.spec_is_v4() == v4,
    ensures
        final(peers)@ == spec_upsert(old(peers)@, rec),
        peers_wf(final(peers)@, v4),
        count_pid(final(peers)@, rec.peer_id@) == 1,
        forall|i: int|
            0 <= i < final(peers)@.len() && (#[trigger] final(peers)@[i]).peer_id@ == rec.peer_id@
                ==> final(peers)@[i] == rec,
        match prior {
            Some(was_seeder) => exists|i: int|
                0 <= i < old(peers)@.len() && (#[trigger] old(peers)@[i]).peer_id@ == rec.peer_id@
                    && old(peers)@[i].is_seeder == was_seeder,
            None => count_pid(old(peers)@, rec.peer_id@) == 0,
        },
{
    let found = find_peer(peers, &rec.peer_id);
    match found {
        Some(i) => {
            let prior_seeder = peers[i].is_seeder;
            let ghost s0 = peers@;
            peers[i] = rec;
            proof {
                let w = choose|j: int|
                    0 <= j < s0.len() && (#[trigger] s0[j]).peer_id@ == rec.peer_id@;
                assert(s0[w].peer_id@ == rec.peer_id@);
                if w != i {
                    assert(false);
                }
                assert(peers@ == spec_upsert(s0, rec));
                lemma_count_pid_unique(peers@, rec.peer_id@, i as int);
            }
            Some(prior_seeder)
        },
        None => {
            let ghost s0 = peers@;
            peers.push(rec);
            proof {
                lemma_count_pid_zero(s0, rec.peer_id@);
                assert(!(exists|j: int|
                    0 <= j < s0.len() && (#[trigger] s0[j]).peer_id@ == rec.peer_id@));
                assert(peers@ == spec_upsert(s0, rec));
                lemma_count_pid_unique(peers@, rec.peer_id@, s0.len() as int);
            }
            None
        },
    }
}

/// Removes the requester's record if present.
fn remove_peer(peers: &mut Vec<PeerRecord>, pid: &PeerId, Ghost(v4): Ghost<bool>)
    requires
        peers_wf(old(peers)@, v4),
    ensures
        final(peers)@ == spec_remove_pid(old(peers)@, pid@),
        peers_wf(final(peers)@, v4),
        count_pid(final(peers)@, pid@) == 0,
{
    let found = find_peer(peers, pid);
    match found {
        Some(i) => {
            let ghost s0 = peers@;
            peers.remove(i);
            proof {
                let w = choose|j: int| 0 <= j < s0.len() && (#[trigger] s0[j]).peer_id@ == pid@;
                assert(s0[w].peer_id@ == pid@);
                if w != i {
                    assert(false);
                }
                assert(peers@ == spec_remove_pid(s0, pid@));
                lemma_count_pid_zero(peers@, pid@);
                assert forall|k: int| 0 <= k < peers@.len() implies (#[trigger] peers@[k]).peer_id@
                    != pid@ by {
                    if k < i {
                        assert(peers@[k] == s0[k]);
                    } else {
                        assert(peers@[k] == s0[k + 1]);
                    }
                }
            }
        },
        None => {
            proof {
                assert(!(exists|j: int|
                    0 <= j < peers@.len() && (#[trigger] peers@[j]).peer_id@ == pid@));
                lemma_count_pid_zero(peers@, pid@);
            }
        },
    }
}

/// Counts the seeders in a table.
fn seeders_in(peers: &Vec<PeerRecord>) -> (r: usize)
    ensures
        r == count_seeders(peers@),
{
    let n = peers.len();
    let mut c: usize = 0;
    for i in 0..n
        invariant
            n == peers@.len(),
            c == count_seeders(peers@.take(i as int)),
            c <= i,
    {
        proof {
            assert(peers@.take(i + 1).drop_last() =~= peers@.take(i as int));
            assert(peers@.take(i + 1).last() == peers@[i as int]);
        }
        if peers[i].is_seeder {
            c = c + 1;
        }
    }
    proof {
        assert(peers@.take(peers@.len() as int) =~= peers@);
    }
    c
}

/// One IP family's mapping from info-hash to torrent.
#[derive(Clone, Debug)]
pub struct SwarmMap {
    pub torrents: Vec<Torrent>,
}

/// A well-formed torrent map of one IP family: info-hashes are unique and
/// every peer table is well-formed for the family.
pub open spec fn torrents_wf(ts: Seq<Torrent>, v4: bool) -> bool {
    &&& forall|i: int, j: int|
        0 <= i < j < ts.len() ==> ts[i].info_hash@ != ts[j].info_hash@
    &&& forall|i: int| 0 <= i < ts.len() ==> peers_wf((#[trigger] ts[i]).peers@, v4)
}

/// Whether the map tracks the info-hash `h`.
pub open spec fn has_torrent(ts: Seq<Torrent>, h: Seq<u8>) -> bool {
    exists|i: int| 0 <= i < ts.len() && (#[trigger] ts[i]).info_hash@ == h
}

/// The index of the torrent for `h`; meaningful only when unique.
pub open spec fn torrent_at(ts: Seq<Torrent>, h: Seq<u8>) -> int {
    choose|i: int| 0 <= i < ts.len() && (#[trigger] ts[i]).info_hash@ == h
}

/// The peer table for `h`, empty when `h` is not tracked.
pub open spec fn peers_of(ts: Seq<Torrent>, h: Seq<u8>) -> Seq<PeerRecord> {
    if has_torrent(ts, h) {
        ts[torrent_at(ts, h)].peers@
    } else {
        Seq::empty()
    }
}

/// The completion counter for `h`, zero when `h` is not tracked.
pub open spec fn completed_of(ts: Seq<Torrent>, h: Seq<u8>) -> u32 {
    if has_torrent(ts, h) {
        ts[torrent_at(ts, h)].num_completed
    } else {
        0
    }
}

/// In a map with unique info-hashes, an index whose torrent carries `h`
/// is the index `peers_of` and `completed_of` read.
pub proof fn lemma_torrent_witness(ts: Seq<Torrent>, h: Seq<u8>, w: int)
    requires
        forall|i: int, j: int| 0 <= i < j < ts.len() ==> ts[i].info_hash@ != ts[j].info_hash@,
        0 <= w < ts.len(),
        ts[w].info_hash@ == h,
    ensures
        has_torrent(ts, h),
        torrent_at(ts, h) == w,
        peers_of(ts, h) == ts[w].peers@,
        completed_of(ts, h) == ts[w].num_completed,
{
    assert(has_torrent(ts, h));
    let c = torrent_at(ts, h);
    assert(ts[c].info_hash@ == h);
    if c < w {
        assert(ts[c].info_hash@ != ts[w].info_hash@);
    } else if c > w {
        assert(ts[w].info_hash@ != ts[c].info_hash@);
    }
}

/// Finds the torrent for an info-hash, if tracked.
fn find_torrent(torrents: &Vec<Torrent>, h: &InfoHash) -> (r: Option<usize>)
    ensures
        match r {
            Some(i) => i < torrents@.len() && torrents@[i as int].info_hash@ == h@,
            None => forall|i: int|
                0 <= i < torrents@.len() ==> (#[trigger] torrents@[i]).info_hash@ != h@,
        },
{
    let n = torrents.len();
    for i in 0..n
        invariant
            n == torrents@.len(),
            forall|k: int| 0 <= k < i ==> (#[trigger] torrents@[k]).info_hash@ != h@,
    {
        if torrents[i].info_hash.matches(h) {
            return Some(i);
        }
    }
    None
}

/// The peer count an announce is answered with: the request's wish where
/// it is non-negative, else the configured default, capped by the
/// configured maximum.
pub open spec fn spec_num_want_effective(config: TrackerConfig, raw: u32) -> u32 {
    let wanted: u32 = if raw >= 0x80000000 {
        config.default_num_want
    } else {
        raw
    };
    if wanted <= config.max_peers_returned {
        wanted
    } else {
        config.max_peers_returned
    }
}

/// Exec mirror of `spec_num_want_effective`.
fn num_want_effective(config: &TrackerConfig, raw: u32) -> (r: u32)
    ensures
        r == spec_num_want_effective(*config, raw),
{
    let wanted: u32 = if raw >= 0x80000000 {
        config.default_num_want
    } else {
        raw
    };
    if wanted <= config.max_peers_returned {
        wanted
    } else {
        config.max_peers_returned
    }
}

/// The record an announce stores: source IP with announced port, seeder
/// exactly when no bytes are left, expiring `max_peer_age` from now.
pub open spec fn spec_new_record(
    config: TrackerConfig,
    now: u64,
    src: PeerAddr,
    req: AnnounceRequest,
) -> PeerRecord
    recommends
        now + config.max_peer_age <= u64::MAX,
{
    PeerRecord {
        peer_id: req.peer_id,
        addr: PeerAddr { ip: src.ip, port: req.port },
        is_seeder: req.bytes_left == 0,
        valid_until: (now + config.max_peer_age) as u64,
    }
}

/// Draws up to `want` qualifying peers, walking the qualifying set from a
/// random start so that the sample varies between calls.
fn sample_peers(
    peers: &Vec<PeerRecord>,
    rng: &mut rand::rngs::SmallRng,
    pid: &PeerId,
    requester_seeds: bool,
    want: u32,
) -> (out: Vec<PeerAddr>)
    ensures
        out@.len() == (if want as nat <= count_qualifying(peers@, pid@, requester_seeds) {
            want as nat
        } else {
            count_qualifying(peers@, pid@, requester_seeds)
        }),
        forall|j: int|
            0 <= j < out@.len() ==> exists|i: int|
                0 <= i < peers@.len() && spec_qualifies(peers@[i], pid@, requester_seeds)
                    && #[trigger] out@[j] == peers@[i].addr,
{
    let n = peers.len();
    let mut q: Vec<usize> = Vec::new();
    for i in 0..n
        invariant
            n == peers@.len(),
            q@.len() == count_qualifying(peers@.take(i as int), pid@, requester_seeds),
            forall|j: int|
                0 <= j < q@.len() ==> (#[trigger] q@[j]) < i && spec_qualifies(
                    peers@[q@[j] as int],
                    pid@,
                    requester_seeds,
                ),
    {
        proof {
            assert(peers@.take(i + 1).drop_last() =~= peers@.take(i as int));
            assert(peers@.take(i + 1).last() == peers@[i as int]);
        }
        let r = peers[i];
        if !r.peer_id.matches(pid) && (!requester_seeds || !r.is_seeder) {
            q.push(i);
        }
    }
    proof {
        assert(peers@.take(peers@.len() as int) =~= peers@);
    }
    let qn = q.len();
    let take_n: usize = if (want as usize) <= qn {
        want as usize
    } else {
        qn
    };
    let mut out: Vec<PeerAddr> = Vec::new();
    if take_n > 0 {
        let start = gen_index(rng, qn);
        let off = qn - start;
        for k in 0..take_n
            invariant
                take_n <= qn == q@.len(),
                start < qn,
                off == qn - start,
                n == peers@.len(),
                forall|j: int|
                    0 <= j < q@.len() ==> (#[trigger] q@[j]) < n && spec_qualifies(
                        peers@[q@[j] as int],
                        pid@,
                        requester_seeds,
                    ),
                out@.len() == k,
                forall|j: int|
                    0 <= j < out@.len() ==> exists|i: int|
                        0 <= i < peers@.len() && spec_qualifies(
                            peers@[i],
                            pid@,
                            requester_seeds,
                        ) && #[trigger] out@[j] == peers@[i].addr,
        {
            let idx: usize = if k < off {
                start + k
            } else {
                k - off
            };
            let p = peers[q[idx]];
            out.push(p.addr);
            proof {
                let i = q@[idx as int] as int;
                assert(spec_qualifies(peers@[i], pid@, requester_seeds));
                assert(out@[out@.len() - 1] == peers@[i].addr);
            }
        }
    }
    out
}

/// Clips a count to what the wire's 32-bit counters can carry.
pub open spec fn sat32(x: nat) -> u32 {
    if x > 0xffffffff {
        0xffffffffu32
    } else {
        x as u32
    }
}

/// Clips a count to what the wire's 32-bit counters can carry.
fn sat32_exec(x: usize) -> (r: u32)
    ensures
        r == sat32(x as nat),
{
    if x > 0xffffffff {
        0xffffffff
    } else {
        x as u32
    }
}

/// No table holds more seeders than records.
pub proof fn lemma_count_seeders_le(s: Seq<PeerRecord>)
    ensures
        count_seeders(s) <= s.len(),
    decreases s.len(),
{
    if s.len() > 0 {
        lemma_count_seeders_le(s.drop_last());
    }
}

/// The completion counter after an announce: it advances, saturating,
/// exactly when a tracked leecher reports itself a seeder.
pub open spec fn spec_completed_after(
    p0: Seq<PeerRecord>,
    rec: PeerRecord,
    event: AnnounceEvent,
    c0: u32,
) -> u32 {
    if event is Stopped {
        c0
    } else if rec.is_seeder && (exists|i: int|
        0 <= i < p0.len() && (#[trigger] p0[i]).peer_id@ == rec.peer_id@ && !p0[i].is_seeder) {
        if c0 == 0xffffffffu32 {
            c0
        } else {
            (c0 + 1) as u32
        }
    } else {
        c0
    }
}

/// Everything an announce promises: only the requested torrent changes;
/// the requester's record is replaced or removed; the response reports the
/// post-announce counts and a bounded sample of qualifying peers of the
/// requester's own IP family.
pub open spec fn announce_post(
    ts0: Seq<Torrent>,
    ts1: Seq<Torrent>,
    config: TrackerConfig,
    now: u64,
    src: PeerAddr,
    req: AnnounceRequest,
    resp: AnnounceResponse,
) -> bool {
    let key = req.info_hash@;
    let pid = req.peer_id@;
    let rec = spec_new_record(config, now, src, req);
    let p0 = peers_of(ts0, key);
    let p1 = peers_of(ts1, key);
    let want = spec_num_want_effective(config, req.num_want);
    &&& (forall|h: Seq<u8>|
        h != key ==> #[trigger] peers_of(ts1, h) == peers_of(ts0, h) && has_torrent(ts1, h)
            == has_torrent(ts0, h) && completed_of(ts1, h) == completed_of(ts0, h))
    &&& (req.event is Stopped ==> {
        &&& p1 == spec_remove_pid(p0, pid)
        &&& count_pid(p1, pid) == 0
        &&& resp.peers@.len() == 0
    })
    &&& (!(req.event is Stopped) ==> {
        &&& p1 == spec_upsert(p0, rec)
        &&& count_pid(p1, pid) == 1
        &&& (forall|i: int|
            0 <= i < p1.len() && (#[trigger] p1[i]).peer_id@ == pid ==> p1[i] == rec)
        &&& resp.peers@.len() == (if want as nat <= count_qualifying(p1, pid, rec.is_seeder) {
            want as nat
        } else {
            count_qualifying(p1, pid, rec.is_seeder)
        })
        &&& (forall|j: int|
            0 <= j < resp.peers@.len() ==> exists|i: int|
                0 <= i < p1.len() && spec_qualifies(p1[i], pid, rec.is_seeder)
                    && #[trigger] resp.peers@[j] == p1[i].addr)
    })
    &&& (forall|j: int|
        0 <= j < resp.peers@.len() ==> (#[trigger] resp.peers@[j]).spec_is_v4()
            == src.spec_is_v4())
    &&& resp.seeders == sat32(count_seeders(p1))
    &&& resp.leechers == sat32((p1.len() - count_seeders(p1)) as nat)
    &&& resp.transaction_id == req.transaction_id
    &&& resp.announce_interval == config.announce_interval
    &&& completed_of(ts1, key) == spec_completed_after(p0, rec, req.event, completed_of(ts0, key))
}

impl SwarmMap {
    /// An empty torrent map.
    pub fn new() -> (r: SwarmMap)
        ensures
            r.torrents@.len() == 0,
    {
        SwarmMap { torrents: Vec::new() }
    }

    /// Handles one announce against this family's torrents, as
    /// `announce_post` describes.
    #[verifier::rlimit(50)]
    pub fn announce(
        &mut self,
        config: &TrackerConfig,
        rng: &mut rand::rngs::SmallRng,
        now: u64,
        v4: bool,
        src: PeerAddr,
        req: &AnnounceRequest,
    ) -> (resp: AnnounceResponse)
        requires
            torrents_wf(old(self).torrents@, v4),
            src.spec_is_v4() == v4,
            now + config.max_peer_age <= u64::MAX,
        ensures
            torrents_wf(final(self).torrents@, v4),
            announce_post(old(self).torrents@, final(self).torrents@, *config, now, src, *req,
            resp),
    {
        let ghost ts0 = self.torrents@;
        let ghost key = req.info_hash@;
        let ghost pid = req.peer_id@;
        let ghost rec_g = spec_new_record(*config, now, src, *req);
        let stopped = matches!(req.event, AnnounceEvent::Stopped);
        let idx_opt = find_torrent(&self.torrents, &req.info_hash);

        if idx_opt.is_none() && stopped {
            // Nothing is tracked for this hash; removal leaves nothing.
            proof {
                assert(!has_torrent(ts0, key));
                assert(peers_of(ts0, key) == Seq::<PeerRecord>::empty());
                assert(count_pid(Seq::<PeerRecord>::empty(), pid) == 0);
            }
            return AnnounceResponse {
                transaction_id: req.transaction_id,
                announce_interval: config.announce_interval,
                leechers: 0,
                seeders: 0,
                peers: Vec::new(),
            };
        }
        let idx: usize = match idx_opt {
            Some(i) => i,
            None => {
                let i = self.torrents.len();
                self.torrents.push(
                    Torrent { info_hash: req.info_hash, peers: Vec::new(), num_completed: 0 },
                );
                i
            },
        };
        let ghost ts_a = self.torrents@;
        proof {
            // The map now tracks the hash at `idx`, other entries untouched.
            assert(ts_a[idx as int].info_hash@ == key);
            if idx_opt is None {
                assert(forall|i: int| 0 <= i < ts0.len() ==> ts_a[i] == ts0[i]);
                assert forall|i: int, j: int|
                    0 <= i < j < ts_a.len() implies ts_a[i].info_hash@ != ts_a[j].info_hash@ by {
                    if j == ts_a.len() - 1 {
                        assert(ts_a[i] == ts0[i]);
                    }
                }
                assert(torrents_wf(ts_a, v4));
            }
            lemma_torrent_witness(ts_a, key, idx as int);
            assert forall|h: Seq<u8>| h != key implies #[trigger] peers_of(ts_a, h) == peers_of(
                ts0,
                h,
            ) && has_torrent(ts_a, h) == has_torrent(ts0, h) && completed_of(ts_a, h)
                == completed_of(ts0, h) by {
                lemma_frame_except_key(ts0, ts_a, key, h);
            }
            assert(peers_of(ts_a, key) == peers_of(ts0, key));
            assert(completed_of(ts_a, key) == completed_of(ts0, key));
        }
        let ghost p0 = peers_of(self.torrents@, key);

        let mut transitioned = false;
        if stopped {
            remove_peer(&mut self.torrents[idx].peers, &req.peer_id, Ghost(v4));
        } else {
            let rec = PeerRecord {
                peer_id: req.peer_id,
                addr: PeerAddr { ip: src.ip, port: req.port },
                is_seeder: req.bytes_left == 0,
                valid_until: now + config.max_peer_age,
            };
            let prior = upsert_peer(&mut self.torrents[idx].peers, rec, Ghost(v4));
            transitioned = match prior {
                Some(was_seeder) => !was_seeder && rec.is_seeder,
                None => false,
            };
        }
        if transitioned {
            let c = self.torrents[idx].num_completed;
            if c < 0xffffffff {
                self.torrents[idx].num_completed = c + 1;
            }
        }
        let ghost ts1 = self.torrents@;
        proof {
            assert(forall|i: int| 0 <= i < ts1.len() && i != idx ==> ts1[i] == ts_a[i]);
            assert(ts1[idx as int].info_hash@ == key);
            assert(torrents_wf(ts1, v4));
            lemma_torrent_witness(ts1, key, idx as int);
            assert forall|h: Seq<u8>| h != key implies #[trigger] peers_of(ts1, h) == peers_of(
                ts_a,
                h,
            ) && has_torrent(ts1, h) == has_torrent(ts_a, h) && completed_of(ts1, h)
                == completed_of(ts_a, h) by {
                lemma_frame_except_key(ts_a, ts1, key, h);
            }
            // The completion counter moved exactly on a leecher-to-seeder
            // replacement: uniqueness ties the prior record's status down.
            if !(req.event is Stopped) {
                let has_leecher = exists|i: int|
                    0 <= i < p0.len() && (#[trigger] p0[i]).peer_id@ == pid && !p0[i].is_seeder;
                if transitioned {
                    assert(has_leecher);
                } else if rec_g.is_seeder && has_leecher {
                    let wl = choose|i: int|
                        0 <= i < p0.len() && (#[trigger] p0[i]).peer_id@ == pid
                            && !p0[i].is_seeder;
                    lemma_count_pid_unique(p0, pid, wl);
                    assert(false);
                }
            }
        }
        let seeders_cnt = seeders_in(&self.torrents[idx].peers);
        let total = self.torrents[idx].peers.len();
        proof {
            lemma_count_seeders_le(self.torrents@[idx as int].peers@);
        }
        let want = num_want_effective(config, req.num_want);
        let peers_out: Vec<PeerAddr> = if stopped {
            Vec::new()
        } else {
            sample_peers(
                &self.torrents[idx].peers,
                rng,
                &req.peer_id,
                req.bytes_left == 0,
                want,
            )
        };
        proof {
            assert forall|j: int| 0 <= j < peers_out@.len() implies (
            #[trigger] peers_out@[j]).spec_is_v4() == src.spec_is_v4() by {
                let p1 = peers_of(ts1, key);
                let i = choose|i: int|
                    0 <= i < p1.len() && spec_qualifies(p1[i], pid, rec_g.is_seeder)
                        && peers_out@[j] == p1[i].addr;
                assert(p1[i].addr.spec_is_v4() == v4);
            }
        }
        AnnounceResponse {
            transaction_id: req.transaction_id,
            announce_interval: config.announce_interval,
            leechers: sat32_exec(total - seeders_cnt),
            seeders: sat32_exec(seeders_cnt),
            peers: peers_out,
        }
    }
}

/// The table after expired records are dropped: those valid past `now`
/// survive, in order.
pub open spec fn keep_valid(s: Seq<PeerRecord>, now: u64) -> Seq<PeerRecord>
    decreases s.len(),
{
    if s.len() == 0 {
        Seq::empty()
    } else if s.last().valid_until > now {
        keep_valid(s.drop_last(), now).push(s.last())
    } else {
        keep_valid(s.drop_last(), now)
    }
}

/// Every survivor of a cleaning comes from the table and is still valid.
pub proof fn lemma_keep_valid_membership(s: Seq<PeerRecord>, now: u64)
    ensures
        forall|i: int|
            0 <= i < keep_valid(s, now).len() ==> exists|j: int|
                0 <= j < s.len() && s[j] == #[trigger] keep_valid(s, now)[i]
                    && s[j].valid_until > now,
    decreases s.len(),
{
    if s.len() > 0 {
        lemma_keep_valid_membership(s.drop_last(), now);
        let kv = keep_valid(s, now);
        let kv0 = keep_valid(s.drop_last(), now);
        assert forall|i: int| 0 <= i < kv.len() implies exists|j: int|
            0 <= j < s.len() && s[j] == #[trigger] kv[i] && s[j].valid_until > now by {
            if i < kv0.len() {
                let j = choose|j: int|
                    0 <= j < s.drop_last().len() && s.drop_last()[j] == kv0[i]
                        && s.drop_last()[j].valid_until > now;
                assert(s[j] == kv[i] && s[j].valid_until > now);
            } else {
                assert(s[s.len() - 1] == kv[i]);
            }
        }
    }
}

/// Cleaning keeps a table well-formed.
pub proof fn lemma_keep_valid_wf(s: Seq<PeerRecord>, now: u64, v4: bool)
    requires
        peers_wf(s, v4),
    ensures
        peers_wf(keep_valid(s, now), v4),
    decreases s.len(),
{
    if s.len() > 0 {
        assert(peers_wf(s.drop_last(), v4)) by {
            assert(forall|i: int|
                0 <= i < s.len() - 1 ==> #[trigger] s.drop_last()[i] == s[i]);
        }
        lemma_keep_valid_wf(s.drop_last(), now, v4);
        lemma_keep_valid_membership(s.drop_last(), now);
        let kv = keep_valid(s, now);
        let kv0 = keep_valid(s.drop_last(), now);
        if s.last().valid_until > now {
            assert forall|i: int, j: int|
                0 <= i < j < kv.len() implies kv[i].peer_id@ != kv[j].peer_id@ by {
                if j == kv.len() - 1 {
                    let w = choose|w: int|
                        0 <= w < s.drop_last().len() && s.drop_last()[w] == kv0[i]
                            && s.drop_last()[w].valid_until > now;
                    assert(s[w].peer_id@ != s[s.len() - 1].peer_id@);
                }
            }
            assert forall|i: int| 0 <= i < kv.len() implies (#[trigger] kv[i].addr).spec_is_v4()
                == v4 by {
                if i < kv0.len() {
                    let w = choose|w: int|
                        0 <= w < s.drop_last().len() && s.drop_last()[w] == kv0[i]
                            && s.drop_last()[w].valid_until > now;
                    assert(s[w].addr.spec_is_v4() == v4);
                }
            }
        }
    }
}

/// Drops expired records from a table in place.
fn retain_valid(peers: &mut Vec<PeerRecord>, now: u64, Ghost(v4): Ghost<bool>)
    requires
        peers_wf(old(peers)@, v4),
    ensures
        final(peers)@ == keep_valid(old(peers)@, now),
        peers_wf(final(peers)@, v4),
{
    let n = peers.len();
    let mut kept: Vec<PeerRecord> = Vec::new();
    for i in 0..n
        invariant
            n == peers@.len(),
            peers@ == old(peers)@,
            kept@ == keep_valid(peers@.take(i as int), now),
    {
        proof {
            assert(peers@.take(i + 1).drop_last() =~= peers@.take(i as int));
            assert(peers@.take(i + 1).last() == peers@[i as int]);
        }
        let r = peers[i];
        if r.valid_until > now {
            kept.push(r);
        }
    }
    proof {
        assert(peers@.take(peers@.len() as int) =~= peers@);
        lemma_keep_valid_wf(peers@, now, v4);
    }
    *peers = kept;
}

/// Aggregate counts reported for one scraped info-hash.
pub open spec fn spec_scrape_stat(ts: Seq<Torrent>, h: Seq<u8>) -> TorrentScrapeStatistics {
    let p = peers_of(ts, h);
    TorrentScrapeStatistics {
        seeders: sat32(count_seeders(p)),
        completed: completed_of(ts, h),
        leechers: sat32((p.len() - count_seeders(p)) as nat),
    }
}

/// Everything a cleaning pass promises: exactly the allowed torrents with
/// a surviving peer remain, their tables filtered, their counters kept.
pub open spec fn clean_post(
    ts0: Seq<Torrent>,
    ts1: Seq<Torrent>,
    now: u64,
    acl: AccessList,
) -> bool {
    &&& (forall|h: Seq<u8>|
        #[trigger] has_torrent(ts1, h) <==> (has_torrent(ts0, h) && acl.spec_allows(h)
            && keep_valid(peers_of(ts0, h), now).len() > 0))
    &&& (forall|h: Seq<u8>|
        has_torrent(ts1, h) ==> #[trigger] peers_of(ts1, h) == keep_valid(peers_of(ts0, h), now)
            && completed_of(ts1, h) == completed_of(ts0, h))
}

/// Whether some entry at or after `m` carries `h`.
pub open spec fn suffix_has(ts: Seq<Torrent>, m: int, h: Seq<u8>) -> bool {
    exists|i: int| m <= i < ts.len() && (#[trigger] ts[i]).info_hash@ == h
}

impl SwarmMap {
    /// Answers one scrape over this family's torrents, in request order.
    pub fn scrape(&self, req: &ScrapeRequest) -> (resp: ScrapeResponse)
        requires
            forall|i: int, j: int|
                0 <= i < j < self.torrents@.len() ==> self.torrents@[i].info_hash@
                    != self.torrents@[j].info_hash@,
        ensures
            resp.transaction_id == req.transaction_id,
            resp.torrent_stats@.len() == req.info_hashes@.len(),
            forall|k: int|
                0 <= k < req.info_hashes@.len() ==> #[trigger] resp.torrent_stats@[k]
                    == spec_scrape_stat(self.torrents@, req.info_hashes@[k]@),
    {
        let n = req.info_hashes.len();
        let mut torrent_stats: Vec<TorrentScrapeStatistics> = Vec::new();
        for k in 0..n
            invariant
                n == req.info_hashes@.len(),
                forall|i: int, j: int|
                    0 <= i < j < self.torrents@.len() ==> self.torrents@[i].info_hash@
                        != self.torrents@[j].info_hash@,
                torrent_stats@.len() == k,
                forall|m: int|
                    0 <= m < k ==> #[trigger] torrent_stats@[m] == spec_scrape_stat(
                        self.torrents@,
                        req.info_hashes@[m]@,
                    ),
        {
            let h = req.info_hashes[k];
            let stat = match find_torrent(&self.torrents, &h) {
                Some(i) => {
                    proof {
                        lemma_torrent_witness(self.torrents@, h@, i as int);
                        lemma_count_seeders_le(self.torrents@[i as int].peers@);
                    }
                    let sc = seeders_in(&self.torrents[i].peers);
                    let total = self.torrents[i].peers.len();
                    TorrentScrapeStatistics {
                        seeders: sat32_exec(sc),
                        completed: self.torrents[i].num_completed,
                        leechers: sat32_exec(total - sc),
                    }
                },
                None => {
                    proof {
                        assert(!has_torrent(self.torrents@, h@));
                    }
                    TorrentScrapeStatistics { seeders: 0, completed: 0, leechers: 0 }
                },
            };
            torrent_stats.push(stat);
        }
        ScrapeResponse { transaction_id: req.transaction_id, torrent_stats }
    }

    /// Runs one cleaning pass, as `clean_post` describes.
    pub fn clean(&mut self, now: u64, access_list: &AccessList, v4: bool)
        requires
            torrents_wf(old(self).torrents@, v4),
        ensures
            torrents_wf(final(self).torrents@, v4),
            clean_post(old(self).torrents@, final(self).torrents@, now, *access_list),
    {
        let ghost ts0 = self.torrents@;
        let mut kept: Vec<Torrent> = Vec::new();
        proof {
            assert(self.torrents@ =~= ts0.take(self.torrents@.len() as int));
        }
        while self.torrents.len() > 0
            invariant
                torrents_wf(ts0, v4),
                self.torrents@.len() <= ts0.len(),
                self.torrents@ == ts0.take(self.torrents@.len() as int),
                torrents_wf(kept@, v4),
                forall|h: Seq<u8>|
                    #[trigger] has_torrent(kept@, h) <==> (suffix_has(
                        ts0,
                        self.torrents@.len() as int,
                        h,
                    ) && access_list.spec_allows(h) && keep_valid(peers_of(ts0, h), now).len()
                        > 0),
                forall|h: Seq<u8>|
                    has_torrent(kept@, h) ==> #[trigger] peers_of(kept@, h) == keep_valid(
                        peers_of(ts0, h),
                        now,
                    ) && completed_of(kept@, h) == completed_of(ts0, h),
            decreases self.torrents@.len(),
        {
            let ghost m0 = self.torrents@.len() as int;
            let ghost kept0 = kept@;
            let mut t = match self.torrents.pop() {
                Some(t) => t,
                None => {
                    proof {
                        assert(false);
                    }
                    unreached()
                },
            };
            proof {
                assert(t == ts0[m0 - 1]);
                assert(self.torrents@ =~= ts0.take(self.torrents@.len() as int));
                lemma_torrent_witness(ts0, t.info_hash@, m0 - 1);
                assert(peers_of(ts0, t.info_hash@) == t.peers@);
                assert(peers_wf(t.peers@, v4));
                assert(!suffix_has(ts0, m0, t.info_hash@));
                assert(!has_torrent(kept0, t.info_hash@));
            }
            let ghost key = t.info_hash@;
            let allowed = access_list.allows(&t.info_hash);
            if allowed {
                retain_valid(&mut t.peers, now, Ghost(v4));
                if t.peers.len() > 0 {
                    kept.push(t);
                    proof {
                        assert forall|i: int, j: int|
                            0 <= i < j < kept@.len() implies kept@[i].info_hash@
                            != kept@[j].info_hash@ by {
                            if j == kept@.len() - 1 {
                                assert(kept@[i] == kept0[i]);
                                lemma_torrent_witness(kept0, kept0[i].info_hash@, i);
                            }
                        }
                        assert(torrents_wf(kept@, v4));
                        lemma_torrent_witness(kept@, key, kept@.len() - 1);
                        assert(peers_of(kept@, key) == keep_valid(peers_of(ts0, key), now));
                        assert(completed_of(kept@, key) == completed_of(ts0, key));
                        assert(0 <= m0 - 1 < ts0.len() && ts0[m0 - 1].info_hash@ == key);
                        assert(suffix_has(ts0, m0 - 1, key));
                        assert(self.torrents@.len() as int == m0 - 1);
                        assert(keep_valid(peers_of(ts0, key), now).len() > 0);
                        assert forall|h: Seq<u8>| h != key implies #[trigger] peers_of(kept@, h)
                            == peers_of(kept0, h) && has_torrent(kept@, h) == has_torrent(
                            kept0,
                            h,
                        ) && completed_of(kept@, h) == completed_of(kept0, h) by {
                            lemma_frame_except_key(kept0, kept@, key, h);
                        }
                        assert forall|h: Seq<u8>| #[trigger] has_torrent(kept@, h) <==> (
                        suffix_has(ts0, self.torrents@.len() as int, h)
                            && access_list.spec_allows(h) && keep_valid(
                            peers_of(ts0, h),
                            now,
                        ).len() > 0) by {
                            if h == key {
                            } else {
                                lemma_frame_except_key(kept0, kept@, key, h);
                                assert(suffix_has(ts0, m0 - 1, h) == suffix_has(ts0, m0, h)) by {
                                    if suffix_has(ts0, m0 - 1, h) {
                                        let w = choose|i: int|
                                            m0 - 1 <= i < ts0.len() && (#[trigger] ts0[i]).info_hash@
                                                == h;
                                        assert(w != m0 - 1);
                                        assert(suffix_has(ts0, m0, h));
                                    }
                                    if suffix_has(ts0, m0, h) {
                                        let w = choose|i: int|
                                            m0 <= i < ts0.len() && (#[trigger] ts0[i]).info_hash@
                                                == h;
                                        assert(m0 - 1 <= w);
                                        assert(suffix_has(ts0, m0 - 1, h));
                                    }
                                }
                            }
                        }
                        assert forall|h: Seq<u8>| has_torrent(kept@, h) implies #[trigger] peers_of(
                            kept@,
                            h,
                        ) == keep_valid(peers_of(ts0, h), now) && completed_of(kept@, h)
                            == completed_of(ts0, h) by {
                            if h != key {
                                lemma_frame_except_key(kept0, kept@, key, h);
                                assert(has_torrent(kept0, h));
                            }
                        }
                    }
                } else {
                    proof {
                        assert(keep_valid(peers_of(ts0, key), now).len() == 0);
                        lemma_nonkept_step(ts0, kept0, key, m0, *access_list, now, v4);
                    }
                }
            } else {
                proof {
                    lemma_nonkept_step(ts0, kept0, key, m0, *access_list, now, v4);
                }
            }
        }
        proof {
            assert(self.torrents@.len() == 0);
        }
        self.torrents = kept;
    }
}

/// After a popped torrent is dropped for being blocked or empty, the
/// loop's accounting still holds with the shorter suffix.
proof fn lemma_nonkept_step(
    ts0: Seq<Torrent>,
    kept: Seq<Torrent>,
    key: Seq<u8>,
    m0: int,
    acl: AccessList,
    now: u64,
    v4: bool,
)
    requires
        torrents_wf(ts0, v4),
        0 < m0 <= ts0.len(),
        ts0[m0 - 1].info_hash@ == key,
        !(acl.spec_allows(key) && keep_valid(peers_of(ts0, key), now).len() > 0),
        forall|h: Seq<u8>|
            #[trigger] has_torrent(kept, h) <==> (suffix_has(ts0, m0, h) && acl.spec_allows(h)
                && keep_valid(peers_of(ts0, h), now).len() > 0),
    ensures
        forall|h: Seq<u8>|
            #[trigger] has_torrent(kept, h) <==> (suffix_has(ts0, m0 - 1, h) && acl.spec_allows(h)
                && keep_valid(peers_of(ts0, h), now).len() > 0),
{
    assert forall|h: Seq<u8>| #[trigger] has_torrent(kept, h) <==> (suffix_has(ts0, m0 - 1, h)
        && acl.spec_allows(h) && keep_valid(peers_of(ts0, h), now).len() > 0) by {
        if h == key {
            if suffix_has(ts0, m0, key) {
                let w = choose|i: int|
                    m0 <= i < ts0.len() && (#[trigger] ts0[i]).info_hash@ == key;
                assert(ts0[m0 - 1].info_hash@ != ts0[w].info_hash@);
                assert(false);
            }
            assert(!has_torrent(kept, key));
        } else {
            if suffix_has(ts0, m0 - 1, h) {
                let w = choose|i: int|
                    m0 - 1 <= i < ts0.len() && (#[trigger] ts0[i]).info_hash@ == h;
                assert(w != m0 - 1);
                assert(suffix_has(ts0, m0, h));
            }
        }
    }
}

/// A worker's whole private peer database: one torrent map per IP family.
/// The families form disjoint swarms.
#[derive(Clone, Debug)]
pub struct SwarmStore {
    pub ipv4: SwarmMap,
    pub ipv6: SwarmMap,
}

impl SwarmStore {
    /// Both family maps are well-formed.
    pub open spec fn wf(&self) -> bool {
        torrents_wf(self.ipv4.torrents@, true) && torrents_wf(self.ipv6.torrents@, false)
    }

    /// An empty store.
    pub fn new() -> (r: SwarmStore)
        ensures
            r.wf(),
            r.ipv4.torrents@.len() == 0,
            r.ipv6.torrents@.len() == 0,
    {
        SwarmStore { ipv4: SwarmMap::new(), ipv6: SwarmMap::new() }
    }

    /// Handles one announce in the requester's IP family, as
    /// `announce_post` describes; the other family is untouched.
    pub fn handle_announce(
        &mut self,
        config: &TrackerConfig,
        rng: &mut rand::rngs::SmallRng,
        now: u64,
        src: PeerAddr,
        req: &AnnounceRequest,
    ) -> (resp: AnnounceResponse)
        requires
            old(self).wf(),
            now + config.max_peer_age <= u64::MAX,
        ensures
            final(self).wf(),
            src.spec_is_v4() ==> announce_post(
                old(self).ipv4.torrents@,
                final(self).ipv4.torrents@,
                *config,
                now,
                src,
                *req,
                resp,
            ) && final(self).ipv6.torrents@ == old(self).ipv6.torrents@,
            !src.spec_is_v4() ==> announce_post(
                old(self).ipv6.torrents@,
                final(self).ipv6.torrents@,
                *config,
                now,
                src,
                *req,
                resp,
            ) && final(self).ipv4.torrents@ == old(self).ipv4.torrents@,
    {
        if src.is_v4() {
            self.ipv4.announce(config, rng, now, true, src, req)
        } else {
            self.ipv6.announce(config, rng, now, false, src, req)
        }
    }

    /// Answers one scrape from the requester's IP family, in request
    /// order; v4 requesters are told about v4 swarms only, likewise v6.
    pub fn handle_scrape(&self, src: PeerAddr, req: &ScrapeRequest) -> (resp: ScrapeResponse)
        requires
            self.wf(),
        ensures
            resp.transaction_id == req.transaction_id,
            resp.torrent_stats@.len() == req.info_hashes@.len(),
            forall|k: int|
                0 <= k < req.info_hashes@.len() ==> #[trigger] resp.torrent_stats@[k]
                    == spec_scrape_stat(
                    if src.spec_is_v4() {
                        self.ipv4.torrents@
                    } else {
                        self.ipv6.torrents@
                    },
                    req.info_hashes@[k]@,
                ),
    {
        if src.is_v4() {
            self.ipv4.scrape(req)
        } else {
            self.ipv6.scrape(req)
        }
    }

    /// Runs one cleaning pass over both families, as `clean_post`
    /// describes.
    pub fn clean(&mut self, now: u64, access_list: &AccessList)
        requires
            old(self).wf(),
        ensures
            final(self).wf(),
            clean_post(old(self).ipv4.torrents@, final(self).ipv4.torrents@, now, *access_list),
            clean_post(old(self).ipv6.torrents@, final(self).ipv6.torrents@, now, *access_list),
    {
        self.ipv4.clean(now, access_list, true);
        self.ipv6.clean(now, access_list, false);
    }
}

/// Replacing a record by itself changes nothing: inserting the same
/// record twice gives the table one insertion gives.
pub proof fn lemma_upsert_idempotent(s: Seq<PeerRecord>, rec: PeerRecord)
    requires
        forall|i: int, j: int| 0 <= i < j < s.len() ==> s[i].peer_id@ != s[j].peer_id@,
    ensures
        spec_upsert(spec_upsert(s, rec), rec) == spec_upsert(s, rec),
{
    let s1 = spec_upsert(s, rec);
    if exists|i: int| 0 <= i < s.len() && (#[trigger] s[i]).peer_id@ == rec.peer_id@ {
        let w = choose|i: int| 0 <= i < s.len() && (#[trigger] s[i]).peer_id@ == rec.peer_id@;
        assert(s1 == s.update(w, rec));
        assert(s1[w] == rec);
        let w2 = choose|i: int| 0 <= i < s1.len() && (#[trigger] s1[i]).peer_id@ == rec.peer_id@;
        assert(s1[w2].peer_id@ == rec.peer_id@);
        if w2 != w {
            assert(s[w2] == s1[w2]);
            assert(false);
        }
        assert(spec_upsert(s1, rec) =~= s1);
    } else {
        assert(s1 == s.push(rec));
        assert(s1[s.len() as int] == rec);
        let w2 = choose|i: int| 0 <= i < s1.len() && (#[trigger] s1[i]).peer_id@ == rec.peer_id@;
        assert(s1[w2].peer_id@ == rec.peer_id@);
        if w2 != s.len() {
            assert(s[w2] == s1[w2]);
            assert(false);
        }
        assert(spec_upsert(s1, rec) =~= s1);
    }
}

/// Law: two successive identical announces leave the same table and are
/// answered with the same seeder and leecher counts; only the random
/// peer sample may differ.
pub proof fn lemma_announce_idempotent(
    ts0: Seq<Torrent>,
    ts1: Seq<Torrent>,
    ts2: Seq<Torrent>,
    config: TrackerConfig,
    now: u64,
    src: PeerAddr,
    req: AnnounceRequest,
    r1: AnnounceResponse,
    r2: AnnounceResponse,
)
    requires
        !(req.event is Stopped),
        forall|i: int, j: int|
            0 <= i < j < peers_of(ts1, req.info_hash@).len() ==> peers_of(ts1, req.info_hash@)[i].peer_id@
                != peers_of(ts1, req.info_hash@)[j].peer_id@,
        announce_post(ts0, ts1, config, now, src, req, r1),
        announce_post(ts1, ts2, config, now, src, req, r2),
    ensures
        peers_of(ts2, req.info_hash@) == peers_of(ts1, req.info_hash@),
        r2.seeders == r1.seeders,
        r2.leechers == r1.leechers,
{
    let key = req.info_hash@;
    let rec = spec_new_record(config, now, src, req);
    let p1 = peers_of(ts1, key);
    assert forall|i: int, j: int|
        0 <= i < j < p1.len() implies p1[i].peer_id@ != p1[j].peer_id@ by {}
    lemma_upsert_idempotent(p1, rec);
    assert(peers_of(ts2, key) == spec_upsert(p1, rec));
    assert(spec_upsert(p1, rec) == p1) by {
        assert(p1 == spec_upsert(peers_of(ts0, key), rec));
        lemma_upsert_idempotent_inner(peers_of(ts0, key), p1, rec);
    }
}

/// The second insertion of `rec` into an already-upserted table is the
/// table itself.
proof fn lemma_upsert_idempotent_inner(p0: Seq<PeerRecord>, p1: Seq<PeerRecord>, rec: PeerRecord)
    requires
        p1 == spec_upsert(p0, rec),
        forall|i: int, j: int| 0 <= i < j < p1.len() ==> p1[i].peer_id@ != p1[j].peer_id@,
    ensures
        spec_upsert(p1, rec) == p1,
{
    if exists|i: int| 0 <= i < p0.len() && (#[trigger] p0[i]).peer_id@ == rec.peer_id@ {
        let w = choose|i: int| 0 <= i < p0.len() && (#[trigger] p0[i]).peer_id@ == rec.peer_id@;
        assert(p1 == p0.update(w, rec));
        assert(p1[w] == rec);
        let w2 = choose|i: int| 0 <= i < p1.len() && (#[trigger] p1[i]).peer_id@ == rec.peer_id@;
        assert(p1[w2].peer_id@ == rec.peer_id@);
        if w2 != w {
            assert(p0[w2] == p1[w2]);
            assert(false);
        }
        assert(spec_upsert(p1, rec) =~= p1);
    } else {
        assert(p1 == p0.push(rec));
        assert(p1[p0.len() as int] == rec);
        let w2 = choose|i: int| 0 <= i < p1.len() && (#[trigger] p1[i]).peer_id@ == rec.peer_id@;
        assert(p1[w2].peer_id@ == rec.peer_id@);
        if w2 != p0.len() {
            assert(p0[w2] == p1[w2]);
            assert(false);
        }
        assert(spec_upsert(p1, rec) =~= p1);
    }
}

/// Two maps that differ only in entries carrying `key` answer every other
/// info-hash alike.
proof fn lemma_frame_except_key(ta: Seq<Torrent>, tb: Seq<Torrent>, key: Seq<u8>, h: Seq<u8>)
    requires
        forall|i: int, j: int| 0 <= i < j < ta.len() ==> ta[i].info_hash@ != ta[j].info_hash@,
        forall|i: int, j: int| 0 <= i < j < tb.len() ==> tb[i].info_hash@ != tb[j].info_hash@,
        ta.len() <= tb.len(),
        forall|i: int|
            0 <= i < ta.len() ==> #[trigger] ta[i] == tb[i] || (ta[i].info_hash@ == key
                && tb[i].info_hash@ == key),
        forall|i: int| ta.len() <= i < tb.len() ==> (#[trigger] tb[i]).info_hash@ == key,
        h != key,
    ensures
        peers_of(tb, h) == peers_of(ta, h),
        has_torrent(tb, h) == has_torrent(ta, h),
        completed_of(tb, h) == completed_of(ta, h),
{
    if has_torrent(ta, h) {
        let w = torrent_at(ta, h);
        assert(ta[w].info_hash@ == h);
        assert(ta[w] == tb[w]);
        lemma_torrent_witness(tb, h, w);
        lemma_torrent_witness(ta, h, w);
    } else {
        if has_torrent(tb, h) {
            let w = torrent_at(tb, h);
            assert(tb[w].info_hash@ == h);
            assert(w < ta.len());
            assert(ta[w] == tb[w]);
            assert(false);
        }
    }
}

} // verus!
