//! In-memory allow/deny set over info-hashes. The hot path reads an
//! immutable snapshot; reloading swaps in a whole new value.

use vstd::prelude::*;

use crate::common::InfoHash;

verus! {

/// How the listed info-hashes are interpreted.
#[derive(Clone, Copy, Debug, PartialEq, Eq, Structural)]
pub enum AccessListMode {
    /// Only listed info-hashes are served.
    Allow,
    /// Listed info-hashes are rejected.
    Deny,
    /// Every info-hash is served.
    Off,
}

/// An immutable access-list snapshot.
#[derive(Clone, Debug)]
pub struct AccessList {
    pub mode: AccessListMode,
    pub list: Vec<InfoHash>,
}

/// Whether `h` occurs among the listed hashes.
pub open spec fn spec_listed(list: Seq<InfoHash>, h: Seq<u8>) -> bool {
    exists|i: int| 0 <= i < list.len() && (#[trigger] list[i])@ == h
}

impl AccessList {
    /// Whether a request for `h` is served under this snapshot.
    pub open spec fn spec_allows(&self, h: Seq<u8>) -> bool {
        match self.mode {
            AccessListMode::Allow => spec_listed(self.list@, h),
            AccessListMode::Deny => !spec_listed(self.list@, h),
            AccessListMode::Off => true,
        }
    }

    /// A snapshot that serves everything.
    pub fn off() -> (r: AccessList)
        ensures
            forall|h: Seq<u8>| r.spec_allows(h),
    {
        AccessList { mode: AccessListMode::Off, list: Vec::new() }
    }

    /// A snapshot over the given hashes.
    pub fn new(mode: AccessListMode, list: Vec<InfoHash>) -> (r: AccessList)
        ensures
            r.mode == mode,
            r.list@ == list@,
    {
        AccessList { mode, list }
    }

    /// Exec mirror of `spec_allows`.
    pub fn allows(&self, h: &InfoHash) -> (r: bool)
        ensures
            r == self.spec_allows(h@),
    {
        let listed = self.contains(h);
        match self.mode {
            AccessListMode::Allow => listed,
            AccessListMode::Deny => !listed,
            AccessListMode::Off => true,
        }
    }

    /// Whether `h` is among the listed hashes.
    pub fn contains(&self, h: &InfoHash) -> (r: bool)
        ensures
            r == spec_listed(self.list@, h@),
    {
        let n = self.list.len();
        for i in 0..n
            invariant
                n == self.list@.len(),
                forall|k: int| 0 <= k < i ==> (#[trigger] self.list@[k])@ != h@,
        {
            if self.list[i].matches(h) {
                return true;
            }
        }
        false
    }
}

} // verus!
