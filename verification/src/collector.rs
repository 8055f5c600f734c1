//! The result collector: a keyed store of successfully fetched payloads,
//! filled in arbitrary completion order and read back by index when the
//! merger assembles the final artifact.
//!
//! Each index is inserted at most once (every index is fetched by exactly
//! one worker), so the store is a map from index to payload. An embedding
//! that lets many workers insert concurrently must serialise the insertions
//! (a lock around the store); the contracts here describe each insertion's
//! effect on the map.

use vstd::prelude::*;

verus! {

/// A keyed store of `(index, payload)` pairs with pairwise-distinct indices.
pub struct ResultSet {
    entries: Vec<(u64, Vec<u8>)>,
}

/// The map an entry list denotes: later entries would win, but `ResultSet`
/// keeps its indices distinct, so each key has the one payload stored for it.
pub open spec fn map_of_entries(s: Seq<(u64, Vec<u8>)>) -> Map<u64, Seq<u8>>
    decreases s.len(),
{
    if s.len() == 0 {
        Map::empty()
    } else {
        map_of_entries(s.drop_last()).insert(s.last().0, s.last().1@)
    }
}

/// A key is in the map exactly when some entry carries it.
pub proof fn lemma_map_of_entries_contains(s: Seq<(u64, Vec<u8>)>, k: u64)
    ensures
        map_of_entries(s).contains_key(k) <==> exists|i: int| 0 <= i < s.len() && s[i].0 == k,
    decreases s.len(),
{
    if s.len() > 0 {
        lemma_map_of_entries_contains(s.drop_last(), k);
        if map_of_entries(s).contains_key(k) {
            if s.last().0 != k {
                let i = choose|i: int| 0 <= i < s.drop_last().len() && s.drop_last()[i].0 == k;
                assert(s[i].0 == k);
            }
        }
        if exists|i: int| 0 <= i < s.len() && s[i].0 == k {
            let i = choose|i: int| 0 <= i < s.len() && s[i].0 == k;
            if i < s.len() - 1 {
                assert(s.drop_last()[i].0 == k);
            }
        }
    }
}

/// With pairwise-distinct keys, the entry that carries a key gives its value.
pub proof fn lemma_map_of_entries_index(s: Seq<(u64, Vec<u8>)>, i: int)
    requires
        forall|p: int, q: int| 0 <= p < q < s.len() ==> s[p].0 != s[q].0,
        0 <= i < s.len(),
    ensures
        map_of_entries(s).contains_key(s[i].0),
        map_of_entries(s)[s[i].0] == s[i].1@,
    decreases s.len(),
{
    if i < s.len() - 1 {
        lemma_map_of_entries_index(s.drop_last(), i);
        assert(s.drop_last()[i] == s[i]);
        assert(s.last().0 != s[i].0);
    }
}

impl ResultSet {
    /// Whether the stored indices are pairwise distinct.
    pub closed spec fn wf(self) -> bool {
        forall|p: int, q: int|
            0 <= p < q < self.entries@.len() ==> self.entries@[p].0 != self.entries@[q].0
    }

    /// How many payloads are stored.
    pub closed spec fn spec_len(self) -> nat {
        self.entries@.len()
    }

    /// An empty collector.
    pub fn new() -> (r: ResultSet)
        ensures
            r.wf(),
            r@ == Map::<u64, Seq<u8>>::empty(),
            r.spec_len() == 0,
    {
        ResultSet { entries: Vec::new() }
    }

    /// The number of stored payloads.
    pub fn len(&self) -> (r: usize)
        ensures
            r == self.spec_len(),
    {
        self.entries.len()
    }

    /// Whether a payload is stored for `index`.
    pub fn contains(&self, index: u64) -> (r: bool)
        requires
            self.wf(),
        ensures
            r == self@.contains_key(index),
    {
        let mut j: usize = 0;
        while j < self.entries.len()
            invariant
                0 <= j <= self.entries@.len(),
                forall|i: int| 0 <= i < j ==> self.entries@[i].0 != index,
            decreases self.entries@.len() - j,
        {
            if self.entries[j].0 == index {
                proof {
                    lemma_map_of_entries_contains(self.entries@, index);
                }
                return true;
            }
            j = j + 1;
        }
        proof {
            lemma_map_of_entries_contains(self.entries@, index);
        }
        false
    }

    /// Record the payload fetched for `index`. Each index is fetched by
    /// exactly one worker, so no payload may already be stored for it.
    pub fn insert(&mut self, index: u64, payload: Vec<u8>)
        requires
            old(self).wf(),
            !old(self)@.contains_key(index),
        ensures
            final(self).wf(),
            final(self)@ == old(self)@.insert(index, payload@),
            final(self).spec_len() == old(self).spec_len() + 1,
    {
        proof {
            lemma_map_of_entries_contains(self.entries@, index);
            assert(self.entries@.push((index, payload)).drop_last() == self.entries@);
        }
        self.entries.push((index, payload));
    }

    /// The payload stored for `index`, if any.
    pub fn get(&self, index: u64) -> (r: Option<&Vec<u8>>)
        requires
            self.wf(),
        ensures
            match r {
                Some(p) => self@.contains_key(index) && p@ == self@[index],
                None => !self@.contains_key(index),
            },
    {
        let mut j: usize = 0;
        while j < self.entries.len()
            invariant
                self.wf(),
                0 <= j <= self.entries@.len(),
                forall|i: int| 0 <= i < j ==> self.entries@[i].0 != index,
            decreases self.entries@.len() - j,
        {
            if self.entries[j].0 == index {
                proof {
                    lemma_map_of_entries_index(self.entries@, j as int);
                }
                return Some(&self.entries[j].1);
            }
            j = j + 1;
        }
        proof {
            lemma_map_of_entries_contains(self.entries@, index);
        }
        None
    }
}

impl View for ResultSet {
    type V = Map<u64, Seq<u8>>;

    /// The map from index to stored payload.
    closed spec fn view(&self) -> Map<u64, Seq<u8>> {
        map_of_entries(self.entries@)
    }
}

} // verus!
