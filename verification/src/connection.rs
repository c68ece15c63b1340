//! Connection-id handshake state: ids issued to source addresses, each
//! valid for a bounded window, so that announce responses cannot be
//! reflected at forged addresses.

use vstd::prelude::*;

use crate::common::PeerAddr;
use crate::rng::gen_u64;

verus! {

/// One issued connection id, bound to the address it was issued to.
#[derive(Clone, Copy, Debug)]
pub struct ConnectionEntry {
    pub id: u64,
    pub addr: PeerAddr,
    /// Seconds since server start after which the id is rejected.
    pub valid_until: u64,
}

/// The pending connections a worker has issued and not yet expired.
#[derive(Clone, Debug)]
pub struct ConnectionTable {
    pub entries: Vec<ConnectionEntry>,
}

/// Whether `id` was issued to `addr` and is still within its window.
pub open spec fn spec_valid_connection(
    s: Seq<ConnectionEntry>,
    id: u64,
    addr: PeerAddr,
    now: u64,
) -> bool {
    exists|i: int|
        0 <= i < s.len() && (#[trigger] s[i]).id == id && s[i].addr == addr && now
            <= s[i].valid_until
}

/// The table after expired ids are dropped.
pub open spec fn keep_connections(s: Seq<ConnectionEntry>, now: u64) -> Seq<ConnectionEntry>
    decreases s.len(),
{
    if s.len() == 0 {
        Seq::empty()
    } else if now <= s.last().valid_until {
        keep_connections(s.drop_last(), now).push(s.last())
    } else {
        keep_connections(s.drop_last(), now)
    }
}

impl ConnectionTable {
    /// An empty table.
    pub fn new() -> (r: ConnectionTable)
        ensures
            r.entries@.len() == 0,
    {
        ConnectionTable { entries: Vec::new() }
    }

    /// Issues a fresh id bound to `addr`, valid until
    /// `now + max_connection_age`.
    pub fn issue(
        &mut self,
        rng: &mut rand::rngs::SmallRng,
        addr: PeerAddr,
        now: u64,
        max_connection_age: u64,
    ) -> (id: u64)
        requires
            now + max_connection_age <= u64::MAX,
        ensures
            final(self).entries@ == old(self).entries@.push(
                ConnectionEntry { id, addr, valid_until: (now + max_connection_age) as u64 },
            ),
            spec_valid_connection(final(self).entries@, id, addr, now),
    {
        let id = gen_u64(rng);
        self.entries.push(ConnectionEntry { id, addr, valid_until: now + max_connection_age });
        proof {
            assert(self.entries@[self.entries@.len() - 1].id == id);
        }
        id
    }

    /// Whether `id` may be used from `addr` right now.
    pub fn validate(&self, id: u64, addr: PeerAddr, now: u64) -> (r: bool)
        ensures
            r == spec_valid_connection(self.entries@, id, addr, now),
    {
        let n = self.entries.len();
        for i in 0..n
            invariant
                n == self.entries@.len(),
                forall|k: int|
                    0 <= k < i ==> !((#[trigger] self.entries@[k]).id == id
                        && self.entries@[k].addr == addr && now <= self.entries@[k].valid_until),
        {
            let e = self.entries[i];
            if e.id == id && e.addr == addr && now <= e.valid_until {
                return true;
            }
        }
        false
    }

    /// Drops ids whose window has passed.
    pub fn clean(&mut self, now: u64)
        ensures
            final(self).entries@ == keep_connections(old(self).entries@, now),
    {
        let n = self.entries.len();
        let mut kept: Vec<ConnectionEntry> = Vec::new();
        for i in 0..n
            invariant
                n == self.entries@.len(),
                self.entries@ == old(self).entries@,
                kept@ == keep_connections(self.entries@.take(i as int), now),
        {
            proof {
                assert(self.entries@.take(i + 1).drop_last() =~= self.entries@.take(i as int));
                assert(self.entries@.take(i + 1).last() == self.entries@[i as int]);
            }
            let e = self.entries[i];
            if now <= e.valid_until {
                kept.push(e);
            }
        }
        proof {
            assert(self.entries@.take(self.entries@.len() as int) =~= self.entries@);
        }
        self.entries = kept;
    }
}

/// Law: an id issued only to address `a` never validates for a different
/// address `b`, whatever the time.
pub proof fn lemma_connection_id_bound_to_address(
    s: Seq<ConnectionEntry>,
    id: u64,
    a: PeerAddr,
    b: PeerAddr,
    now: u64,
)
    requires
        b != a,
        forall|i: int| 0 <= i < s.len() && (#[trigger] s[i]).id == id ==> s[i].addr == a,
    ensures
        !spec_valid_connection(s, id, b, now),
{
    if spec_valid_connection(s, id, b, now) {
        let w = choose|i: int|
            0 <= i < s.len() && (#[trigger] s[i]).id == id && s[i].addr == b && now
                <= s[i].valid_until;
        assert(s[w].addr == a);
        assert(false);
    }
}

/// Law: an id whose every issue for `(id, addr)` happened at or before
/// `issued_at` is rejected once more than `max_connection_age` seconds
/// have passed.
pub proof fn lemma_connection_id_expires(
    s: Seq<ConnectionEntry>,
    id: u64,
    addr: PeerAddr,
    issued_at: u64,
    max_connection_age: u64,
    now: u64,
)
    requires
        forall|i: int|
            0 <= i < s.len() && (#[trigger] s[i]).id == id && s[i].addr == addr ==> s[i].valid_until
                <= issued_at + max_connection_age,
        now > issued_at + max_connection_age,
    ensures
        !spec_valid_connection(s, id, addr, now),
{
    if spec_valid_connection(s, id, addr, now) {
        let w = choose|i: int|
            0 <= i < s.len() && (#[trigger] s[i]).id == id && s[i].addr == addr && now
                <= s[i].valid_until;
        assert(s[w].valid_until <= issued_at + max_connection_age);
        assert(false);
    }
}

} // verus!
