//! In-memory storage for secret shares, and the fixed-width byte encoding of
//! scalars used on the wire.
//!
//! A `ShareStore` maps ceremony ids to shares; its abstract view is the map
//! from ceremony id to the pair of byte encodings of the held share.  The
//! store itself is single-writer; a caller that serves concurrent requests
//! wraps it in a reader/writer lock and holds the write half across each
//! mutation, so every interleaving is one of the sequential histories this
//! module's contracts describe.

use vstd::prelude::*;
use vstd::string::StringExecFns;

use crate::field::{be_val, field_order, Scalar};
use crate::scheme::Share;

verus! {

/// The mapping denoted by a sequence of `(ceremony id, share)` entries:
/// later entries override earlier ones.
pub open spec fn entries_map(s: Seq<(String, Share)>) -> Map<Seq<char>, (Seq<u8>, Seq<u8>)>
    decreases s.len(),
{
    if s.len() == 0 {
        Map::empty()
    } else {
        entries_map(s.drop_last()).insert(s.last().0@, (s.last().1.x@, s.last().1.y@))
    }
}

/// Entries at or after position `i` whose ceremony id differs from `k` do
/// not affect what the map holds at `k`.
proof fn lemma_entries_map_skip(s: Seq<(String, Share)>, k: Seq<char>, i: int)
    requires
        0 <= i <= s.len(),
        forall|j: int| i <= j < s.len() ==> (#[trigger] s[j]).0@ != k,
    ensures
        entries_map(s).contains_key(k) == entries_map(s.take(i)).contains_key(k),
        entries_map(s).contains_key(k) ==> entries_map(s)[k] == entries_map(s.take(i))[k],
    decreases s.len(),
{
    if i == s.len() {
        assert(s.take(i) =~= s);
    } else {
        assert(s[s.len() - 1].0@ != k);
        assert(s.drop_last().take(i) =~= s.take(i));
        lemma_entries_map_skip(s.drop_last(), k, i);
    }
}

/// Stores shares keyed by ceremony id: an insert-or-overwrite mapping local
/// to one custodian node.
pub struct ShareStore {
    entries: Vec<(String, Share)>,
}

impl View for ShareStore {
    type V = Map<Seq<char>, (Seq<u8>, Seq<u8>)>;

    closed spec fn view(&self) -> Map<Seq<char>, (Seq<u8>, Seq<u8>)> {
        entries_map(self.entries@)
    }
}

impl ShareStore {
    /// Creates a new empty share store.
    pub fn new() -> (r: Self)
        ensures
            r@ == Map::<Seq<char>, (Seq<u8>, Seq<u8>)>::empty(),
    {
        ShareStore { entries: Vec::new() }
    }

    /// Stores a share for a given ceremony.  A later store for the same
    /// ceremony id supersedes the earlier one: the entry log keeps both, and
    /// retrieval sees only the most recent.
    pub fn store(&mut self, ceremony_id: String, share: Share)
        ensures
            final(self)@ == old(self)@.insert(ceremony_id@, (share.x@, share.y@)),
    {
        let ghost prev = self.entries@;
        self.entries.push((ceremony_id, share));
        proof {
            assert(self.entries@.drop_last() =~= prev);
        }
    }

    /// Retrieves the share held for a given ceremony, if any.
    pub fn retrieve(&self, ceremony_id: &str) -> (r: Option<Share>)
        ensures
            (match r {
                Some(share) => self@.contains_key(ceremony_id@) && self@[ceremony_id@] == (
                    share.x@,
                    share.y@,
                ),
                None => !self@.contains_key(ceremony_id@),
            }),
    {
        let key = String::from_str(ceremony_id);
        let mut i: usize = self.entries.len();
        while i > 0
            invariant
                i <= self.entries@.len(),
                key@ == ceremony_id@,
                forall|j: int|
                    i <= j < self.entries@.len() ==> (#[trigger] self.entries@[j]).0@
                        != ceremony_id@,
            decreases i,
        {
            i = i - 1;
            if self.entries[i].0 == key {
                let share = self.entries[i].1.clone();
                proof {
                    lemma_entries_map_skip(self.entries@, ceremony_id@, i + 1);
                    assert(self.entries@.take(i + 1).drop_last() =~= self.entries@.take(
                        i as int,
                    ));
                    assert(self.entries@.take(i + 1).last() == self.entries@[i as int]);
                }
                return Some(share);
            }
        }
        proof {
            lemma_entries_map_skip(self.entries@, ceremony_id@, 0);
            assert(self.entries@.take(0) =~= Seq::<(String, Share)>::empty());
        }
        None
    }

    /// Whether a share is held for a given ceremony.
    pub fn contains(&self, ceremony_id: &str) -> (r: bool)
        ensures
            r == self@.contains_key(ceremony_id@),
    {
        self.retrieve(ceremony_id).is_some()
    }
}

impl Default for ShareStore {
    fn default() -> (r: Self)
        ensures
            r@ == Map::<Seq<char>, (Seq<u8>, Seq<u8>)>::empty(),
    {
        ShareStore::new()
    }
}

/// Converts a scalar to its fixed 32-byte big-endian wire encoding.
pub fn scalar_to_bytes(scalar: &Scalar) -> (r: Vec<u8>)
    ensures
        r@ == scalar@,
{
    scalar.to_bytes()
}

/// Converts 32 wire bytes back to a scalar.  The big-endian value is reduced
/// modulo the field order, so any 32-byte input is accepted.
pub fn bytes_to_scalar(bytes: &Vec<u8>) -> (r: Scalar)
    requires
        bytes@.len() == 32,
    ensures
        r.wf(),
        r.val() == be_val(bytes@) % field_order(),
{
    crate::field::reduce_bytes(bytes)
}

/// Storing under one ceremony id and then retrieving that id yields exactly
/// the stored pair, whatever the store held before.
pub proof fn lemma_store_then_retrieve(
    m: Map<Seq<char>, (Seq<u8>, Seq<u8>)>,
    cid: Seq<char>,
    x: Seq<u8>,
    y: Seq<u8>,
)
    ensures
        m.insert(cid, (x, y)).contains_key(cid),
        m.insert(cid, (x, y))[cid] == (x, y),
{
}

/// Stores under distinct ceremony ids do not disturb each other: after both,
/// each id still maps to its own pair, in either order of interleaving.
pub proof fn lemma_distinct_ceremonies_isolated(
    m: Map<Seq<char>, (Seq<u8>, Seq<u8>)>,
    cid1: Seq<char>,
    p1: (Seq<u8>, Seq<u8>),
    cid2: Seq<char>,
    p2: (Seq<u8>, Seq<u8>),
)
    requires
        cid1 != cid2,
    ensures
        m.insert(cid1, p1).insert(cid2, p2)[cid1] == p1,
        m.insert(cid1, p1).insert(cid2, p2)[cid2] == p2,
        m.insert(cid1, p1).insert(cid2, p2) == m.insert(cid2, p2).insert(cid1, p1),
{
    assert(m.insert(cid1, p1).insert(cid2, p2) =~= m.insert(cid2, p2).insert(cid1, p1));
}

} // verus!
