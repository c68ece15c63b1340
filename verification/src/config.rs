//! Tunable settings of the tracker core.

use vstd::prelude::*;

verus! {

/// Settings the request handlers read. All durations are in seconds.
#[derive(Clone, Copy, Debug)]
pub struct TrackerConfig {
    /// Interval the tracker asks peers to wait between announces.
    pub announce_interval: u32,
    /// Peer count used when a request asks for a negative number.
    pub default_num_want: u32,
    /// Hard cap on peers in an announce response.
    pub max_peers_returned: u32,
    /// How long a peer record is retained without a re-announce.
    pub max_peer_age: u64,
    /// How long an issued connection id remains valid.
    pub max_connection_age: u64,
}

impl Default for TrackerConfig {
    /// The defaults served when no configuration is given.
    fn default() -> (r: TrackerConfig)
        ensures
            r.announce_interval == 1800,
            r.default_num_want == 50,
            r.max_peers_returned == 100,
            r.max_peer_age == 1200,
            r.max_connection_age == 120,
    {
        TrackerConfig {
            announce_interval: 1800,
            default_num_want: 50,
            max_peers_returned: 100,
            max_peer_age: 1200,
            max_connection_age: 120,
        }
    }
}

/// Settings of the request-handler benchmark harness.
#[derive(Clone, Copy, Debug)]
pub struct BenchConfig {
    pub num_rounds: u64,
}

impl Default for BenchConfig {
    fn default() -> (r: BenchConfig)
        ensures
            r.num_rounds == 20,
    {
        BenchConfig { num_rounds: 20 }
    }
}

} // verus!
