//! The mod metadata model and the load-order engine: dependency graph
//! construction, topological sorting, and activation-list validation.

use vstd::prelude::*;

pub mod meta_map;
pub mod mod_list;
pub mod mod_meta_data;
pub mod regex;
pub mod sorting;
pub mod validation;

pub use meta_map::MetaMap;
pub use mod_list::ModList;
pub use mod_meta_data::ModMetaData;
pub use sorting::{sort, SortError};
pub use validation::{ModListValidator, ModListValidationResult};

verus! {

/// A hard dependency declared by a mod: the referenced mod must be present
/// and must load before the declaring mod.
#[allow(non_snake_case)]
#[derive(Debug, Clone, PartialEq, Eq)]
pub struct Dependency {
    pub packageId: Option<String>,
    pub displayName: Option<String>,
    pub downloadUrl: Option<String>,
    pub steamWorkshopUrl: Option<String>,
}

impl Default for Dependency {
    /// An empty dependency record, with every field absent.
    fn default() -> (r: Self)
        ensures
            r.packageId is None,
            r.displayName is None,
            r.downloadUrl is None,
            r.steamWorkshopUrl is None,
    {
        Dependency {
            packageId: None,
            displayName: None,
            downloadUrl: None,
            steamWorkshopUrl: None,
        }
    }
}

} // verus!
