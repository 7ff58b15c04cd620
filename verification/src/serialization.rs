//! Parsing and writing of the on-disk XML and INI formats.

use vstd::prelude::*;

pub mod about;
pub mod ini;
pub mod mods_config;
pub mod rimpy_config;
pub mod xml_events;

verus! {

/// Failure while parsing an XML document.
#[derive(Debug, Clone, PartialEq, Eq)]
pub enum ParseXMLError {
    /// The underlying XML reader reported an error.
    XMLError(String),
    /// Character data stood outside any expected element.
    UnexpectedText,
    /// The event stream went on longer than the input can justify.
    TooManyEvents,
}

} // verus!
