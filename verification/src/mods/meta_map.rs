//! The metadata store: a mapping from package identifier to metadata record.

use crate::helpers::strings::str_eq;
use crate::mods::ModMetaData;
use vstd::prelude::*;

verus! {

/// The Metadata Store: maps a package identifier to its [`ModMetaData`]
/// record.  Callers are expected to normalize identifiers (the conventional
/// key is the lowercased package id); the store itself treats keys as opaque
/// strings.  An `insert` with an existing key replaces the earlier record.
pub struct MetaMap {
    entries: Vec<(String, ModMetaData)>,
}

/// The mapping denoted by a sequence of key/record pairs; later pairs win.
pub open spec fn entries_map(s: Seq<(String, ModMetaData)>) -> Map<Seq<char>, ModMetaData>
    decreases s.len(),
{
    if s.len() == 0 {
        Map::empty()
    } else {
        entries_map(s.drop_last()).insert(s.last().0@, s.last().1)
    }
}

impl View for MetaMap {
    type V = Map<Seq<char>, ModMetaData>;

    closed spec fn view(&self) -> Map<Seq<char>, ModMetaData> {
        entries_map(self.entries@)
    }
}

impl MetaMap {
    /// An empty store.
    pub fn new() -> (r: MetaMap)
        ensures
            r@ == Map::<Seq<char>, ModMetaData>::empty(),
    {
        MetaMap { entries: Vec::new() }
    }

    /// Adds (or replaces) the record stored under `key`.
    pub fn insert(&mut self, key: String, value: ModMetaData)
        ensures
            final(self)@ == old(self)@.insert(key@, value),
    {
        self.entries.push((key, value));
        proof {
            assert(self.entries@.drop_last() =~= old(self).entries@);
        }
    }

    /// Looks up the record stored under `key`, if any.
    pub fn get(&self, key: &str) -> (r: Option<&ModMetaData>)
        ensures
            match r {
                Some(md) => self@.contains_key(key@) && *md == self@[key@],
                None => !self@.contains_key(key@),
            },
    {
        let mut i: usize = self.entries.len();
        proof {
            assert(self.entries@.subrange(0, self.entries@.len() as int) =~= self.entries@);
        }
        while i > 0
            invariant
                i <= self.entries.len(),
                entries_map(self.entries@).contains_key(key@) == entries_map(
                    self.entries@.subrange(0, i as int),
                ).contains_key(key@),
                entries_map(self.entries@).contains_key(key@) ==> entries_map(self.entries@)[key@]
                    == entries_map(self.entries@.subrange(0, i as int))[key@],
            decreases i,
        {
            i = i - 1;
            if str_eq(self.entries[i].0.as_str(), key) {
                proof {
                    let pre = self.entries@.subrange(0, i + 1);
                    assert(pre.last() == self.entries@[i as int]);
                }
                return Some(&self.entries[i].1);
            }
            proof {
                let pre = self.entries@.subrange(0, i + 1);
                assert(pre.last() == self.entries@[i as int]);
                assert(pre.drop_last() =~= self.entries@.subrange(0, i as int));
            }
        }
        proof {
            assert(self.entries@.subrange(0, 0) =~= Seq::empty());
        }
        None
    }

    /// Whether a record is stored under `key`.
    pub fn contains_key(&self, key: &str) -> (r: bool)
        ensures
            r == self@.contains_key(key@),
    {
        self.get(key).is_some()
    }

    /// The number of stored entries, counting replaced records once per
    /// insertion.
    pub fn len(&self) -> (r: usize)
        ensures
            r == self.spec_len(),
    {
        self.entries.len()
    }

    /// The number of stored entries.
    pub closed spec fn spec_len(&self) -> nat {
        self.entries@.len()
    }
}

} // verus!
