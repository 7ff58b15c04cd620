//! A collection of mods, keyed by lowercased package identifier.

use crate::helpers::strings::clone_string;
use crate::mods::meta_map::MetaMap;
use crate::mods::ModMetaData;
use vstd::prelude::*;

verus! {

/// The set of known mods, stored as a [`MetaMap`] keyed by lowercased
/// package id.  Discovery of mods on disk is the host application's job;
/// the engine only consumes the resulting store.
pub struct ModList {
    pub mods: MetaMap,
}

impl ModList {
    /// Builds a list from already-parsed records, keyed by lowercased
    /// package id; records without a package id are skipped.
    pub fn from_mods(mods: Vec<ModMetaData>) -> (r: ModList)
        ensures
            forall|i: int|
                0 <= i < mods@.len() && mods@[i].packageId is Some ==> r.mods@.contains_key(
                    crate::mods::validation::lower_of(#[trigger] mods@[i].packageId->Some_0@),
                ),
    {
        let mut store = MetaMap::new();
        let mut i: usize = 0;
        while i < mods.len()
            invariant
                i <= mods@.len(),
                forall|k: int|
                    0 <= k < i && mods@[k].packageId is Some ==> store@.contains_key(
                        crate::mods::validation::lower_of(#[trigger] mods@[k].packageId->Some_0@),
                    ),
            decreases mods.len() - i,
        {
            let md = &mods[i];
            if let Some(pid) = &md.packageId {
                let key = crate::mods::validation::to_lowercase(pid.as_str());
                let record = md.clone();
                store.insert(key, record);
            }
            i = i + 1;
        }
        ModList { mods: store }
    }
}

} // verus!
