//! Identifiers and addresses shared by all tracker components.

use vstd::prelude::*;

verus! {

/// 20-byte identifier of a torrent. Equality is bytewise.
#[derive(Clone, Copy, Debug, PartialEq, Eq)]
pub struct InfoHash(pub [u8; 20]);

/// 20-byte identifier a peer chooses for itself. Compared only for equality.
#[derive(Clone, Copy, Debug, PartialEq, Eq)]
pub struct PeerId(pub [u8; 20]);

impl View for InfoHash {
    type V = Seq<u8>;

    open spec fn view(&self) -> Seq<u8> {
        self.0@
    }
}

impl View for PeerId {
    type V = Seq<u8>;

    open spec fn view(&self) -> Seq<u8> {
        self.0@
    }
}

/// An IP address, IPv4 or IPv6, as the integer its network-byte-order
/// bytes denote. The two families form disjoint swarms.
#[derive(Clone, Copy, Debug, PartialEq, Eq, Structural)]
pub enum PeerIp {
    V4(u32),
    V6(u128),
}

/// Where a peer can be reached: the datagram source IP and the port the
/// peer announced.
#[derive(Clone, Copy, Debug, PartialEq, Eq, Structural)]
pub struct PeerAddr {
    pub ip: PeerIp,
    pub port: u16,
}

impl PeerAddr {
    /// Whether the address belongs to the IPv4 family.
    pub open spec fn spec_is_v4(&self) -> bool {
        self.ip is V4
    }

    #[verifier::when_used_as_spec(spec_is_v4)]
    pub fn is_v4(&self) -> (r: bool)
        ensures
            r == self.spec_is_v4(),
    {
        match self.ip {
            PeerIp::V4(_) => true,
            PeerIp::V6(_) => false,
        }
    }
}

/// The lifecycle event a peer reports in an announce request.
#[derive(Clone, Copy, Debug, PartialEq, Eq, Structural)]
pub enum AnnounceEvent {
    /// A routine re-announce (wire value 0).
    Unspecified,
    /// The peer finished downloading (wire value 1).
    Completed,
    /// The peer joined the swarm (wire value 2).
    Started,
    /// The peer is leaving; its record must be removed (wire value 3).
    Stopped,
}

impl AnnounceEvent {
    /// The wire encoding of the event.
    pub open spec fn spec_code(&self) -> u32 {
        match self {
            AnnounceEvent::Unspecified => 0,
            AnnounceEvent::Completed => 1,
            AnnounceEvent::Started => 2,
            AnnounceEvent::Stopped => 3,
        }
    }

    #[verifier::when_used_as_spec(spec_code)]
    pub fn code(&self) -> (r: u32)
        ensures
            r == self.spec_code(),
    {
        match self {
            AnnounceEvent::Unspecified => 0,
            AnnounceEvent::Completed => 1,
            AnnounceEvent::Started => 2,
            AnnounceEvent::Stopped => 3,
        }
    }

    /// The event a wire value denotes, if it is in range.
    pub open spec fn spec_from_code(code: nat) -> AnnounceEvent
        recommends
            code <= 3,
    {
        if code == 0 {
            AnnounceEvent::Unspecified
        } else if code == 1 {
            AnnounceEvent::Completed
        } else if code == 2 {
            AnnounceEvent::Started
        } else {
            AnnounceEvent::Stopped
        }
    }
}

/// Bytewise equality of two byte slices.
pub fn bytes_eq(a: &[u8], b: &[u8]) -> (r: bool)
    ensures
        r == (a@ == b@),
{
    if a.len() != b.len() {
        assert(a@ != b@);
        return false;
    }
    let n: usize = a.len();
    for i in 0..n
        invariant
            n == a@.len() == b@.len(),
            forall|k: int| 0 <= k < i ==> a@[k] == b@[k],
    {
        if a[i] != b[i] {
            assert(a@ != b@);
            return false;
        }
    }
    assert(a@ =~= b@);
    true
}

/// Copies the 20 bytes starting at `start` out of a slice.
pub fn read_20_bytes(s: &[u8], start: usize) -> (r: [u8; 20])
    requires
        start + 20 <= s@.len(),
    ensures
        r@ == s@.subrange(start as int, start + 20),
{
    let n: usize = s.len();
    let mut arr: [u8; 20] = [0u8; 20];
    for j in 0..20usize
        invariant
            start + 20 <= n == s@.len(),
            arr@.len() == 20,
            forall|k: int| 0 <= k < j ==> arr@[k] == s@[start + k],
    {
        arr[j] = s[start + j];
    }
    assert(arr@ =~= s@.subrange(start as int, start + 20));
    arr
}

impl InfoHash {
    /// Bytewise equality; two info-hashes denote the same torrent
    /// exactly when their views agree.
    pub fn matches(&self, other: &InfoHash) -> (r: bool)
        ensures
            r == (self@ == other@),
    {
        bytes_eq(self.0.as_slice(), other.0.as_slice())
    }
}

impl PeerId {
    /// Bytewise equality on peer identifiers.
    pub fn matches(&self, other: &PeerId) -> (r: bool)
        ensures
            r == (self@ == other@),
    {
        bytes_eq(self.0.as_slice(), other.0.as_slice())
    }
}

} // verus!
