//! Mod load-order resolution and validation for RimWorld mod lists.
//!
//! The core of the crate is the dependency-graph based topological sorter
//! ([`sort`]) and the activation-list validator ([`ModListValidator`]), both
//! operating over a [`MetaMap`] of parsed [`ModMetaData`] records.  Around
//! them stand the parsers for the `About.xml`, `ModsConfig.xml` and
//! `config.ini` formats, and the vector-reordering helpers the mod list
//! interface is built on.

pub mod helpers;
pub mod mods;
pub mod serialization;

pub use helpers::traits;
pub use mods::meta_map::MetaMap;
pub use mods::mod_list::ModList;
pub use mods::mod_meta_data::ModMetaData;
pub use mods::sorting::{sort, SortError};
pub use mods::validation::{ModListValidator, ModListValidationResult};
pub use mods::Dependency;
pub use serialization::mods_config::ModsConfig;
pub use serialization::rimpy_config::{RimPyConfig, RimPyConfigFolders};
