//! Parsing a mod's `About.xml` into a [`ModMetaData`] record.
//!
//! The XML event stream comes from the trusted reader in
//! [`crate::serialization::xml_events`]; everything done with the events —
//! the dispatch on the element path, the accumulation of list entries, and
//! the final commit — is verified against exact contracts.

use crate::helpers::strings::str_eq;
use crate::helpers::basics::skip_leading_ws;
use crate::helpers::strip_bom;
use crate::mods::mod_meta_data::ModMetaData;
use crate::mods::Dependency;
use crate::serialization::xml_events::{next_event, xml_reader_new, XmlEv};
use crate::serialization::ParseXMLError;
use vstd::prelude::*;
use vstd::slice::slice_to_vec;

verus! {

/// Accumulators for list-valued elements while walking an `About.xml`
/// document.
#[allow(non_snake_case)]
#[derive(Debug, Clone)]
pub struct ParsingMem {
    pub loadAfter: Vec<String>,
    pub forceLoadAfter: Vec<String>,
    pub loadBefore: Vec<String>,
    pub forceLoadBefore: Vec<String>,
    pub supportedVersions: Vec<String>,
    pub authors: Vec<String>,
    pub incompatibleWith: Vec<String>,
    pub curr_modDependencies: Dependency,
    pub modDependencies: Vec<Dependency>,
}

impl ParsingMem {
    /// Fresh, empty accumulators.
    pub fn new() -> (r: ParsingMem)
        ensures
            r.loadAfter@.len() == 0,
            r.forceLoadAfter@.len() == 0,
            r.loadBefore@.len() == 0,
            r.forceLoadBefore@.len() == 0,
            r.supportedVersions@.len() == 0,
            r.authors@.len() == 0,
            r.incompatibleWith@.len() == 0,
            r.curr_modDependencies.packageId is None,
            r.curr_modDependencies.displayName is None,
            r.curr_modDependencies.downloadUrl is None,
            r.curr_modDependencies.steamWorkshopUrl is None,
            r.modDependencies@.len() == 0,
    {
        ParsingMem {
            loadAfter: Vec::new(),
            forceLoadAfter: Vec::new(),
            loadBefore: Vec::new(),
            forceLoadBefore: Vec::new(),
            supportedVersions: Vec::new(),
            authors: Vec::new(),
            incompatibleWith: Vec::new(),
            curr_modDependencies: Dependency {
                packageId: None,
                displayName: None,
                downloadUrl: None,
                steamWorkshopUrl: None,
            },
            modDependencies: Vec::new(),
        }
    }

    /// Moves the accumulated lists into the record: a field is set exactly
    /// when its accumulator is non-empty, and keeps its old value otherwise.
    pub fn commit_to_mmd(self, mmd: &mut ModMetaData)
        ensures
            final(mmd).loadAfter == if self.loadAfter@.len() > 0 {
                Some(self.loadAfter)
            } else {
                old(mmd).loadAfter
            },
            final(mmd).forceLoadAfter == if self.forceLoadAfter@.len() > 0 {
                Some(self.forceLoadAfter)
            } else {
                old(mmd).forceLoadAfter
            },
            final(mmd).loadBefore == if self.loadBefore@.len() > 0 {
                Some(self.loadBefore)
            } else {
                old(mmd).loadBefore
            },
            final(mmd).forceLoadBefore == if self.forceLoadBefore@.len() > 0 {
                Some(self.forceLoadBefore)
            } else {
                old(mmd).forceLoadBefore
            },
            final(mmd).supportedVersions == if self.supportedVersions@.len() > 0 {
                Some(self.supportedVersions)
            } else {
                old(mmd).supportedVersions
            },
            final(mmd).authors == if self.authors@.len() > 0 {
                Some(self.authors)
            } else {
                old(mmd).authors
            },
            final(mmd).incompatibleWith == if self.incompatibleWith@.len() > 0 {
                Some(self.incompatibleWith)
            } else {
                old(mmd).incompatibleWith
            },
            final(mmd).modDependencies == if self.modDependencies@.len() > 0 {
                Some(self.modDependencies)
            } else {
                old(mmd).modDependencies
            },
            final(mmd).path == old(mmd).path,
            final(mmd).name == old(mmd).name,
            final(mmd).author == old(mmd).author,
            final(mmd).url == old(mmd).url,
            final(mmd).packageId == old(mmd).packageId,
            final(mmd).description == old(mmd).description,
    {
        let ParsingMem {
            loadAfter,
            forceLoadAfter,
            loadBefore,
            forceLoadBefore,
            supportedVersions,
            authors,
            incompatibleWith,
            curr_modDependencies: _,
            modDependencies,
        } = self;
        if loadAfter.len() > 0 {
            mmd.loadAfter = Some(loadAfter);
        }
        if forceLoadAfter.len() > 0 {
            mmd.forceLoadAfter = Some(forceLoadAfter);
        }
        if loadBefore.len() > 0 {
            mmd.loadBefore = Some(loadBefore);
        }
        if forceLoadBefore.len() > 0 {
            mmd.forceLoadBefore = Some(forceLoadBefore);
        }
        if supportedVersions.len() > 0 {
            mmd.supportedVersions = Some(supportedVersions);
        }
        if authors.len() > 0 {
            mmd.authors = Some(authors);
        }
        if incompatibleWith.len() > 0 {
            mmd.incompatibleWith = Some(incompatibleWith);
        }
        if modDependencies.len() > 0 {
            mmd.modDependencies = Some(modDependencies);
        }
    }
}

/// Which field a character-data event belongs to, given the element path.
#[derive(Debug, Clone, Copy, PartialEq, Eq, Structural)]
pub enum DataSlot {
    Name,
    Description,
    PackageId,
    Author,
    Url,
    LoadAfter,
    ForceLoadAfter,
    LoadBefore,
    ForceLoadBefore,
    SupportedVersions,
    Authors,
    IncompatibleWith,
    DepPackageId,
    DepDisplayName,
    DepSteamWorkshopUrl,
    DepDownloadUrl,
    Nothing,
}

/// The slot addressed by an element path: the root must be `ModMetaData`,
/// the second component picks the field, and inside `modDependencies` the
/// fourth component picks the dependency field.
pub open spec fn slot_of(path: Seq<Seq<char>>) -> DataSlot {
    if path.len() < 2 || path[0] != "ModMetaData"@ {
        DataSlot::Nothing
    } else if path[1] == "name"@ {
        DataSlot::Name
    } else if path[1] == "description"@ {
        DataSlot::Description
    } else if path[1] == "packageId"@ {
        DataSlot::PackageId
    } else if path[1] == "author"@ {
        DataSlot::Author
    } else if path[1] == "url"@ {
        DataSlot::Url
    } else if path[1] == "loadAfter"@ {
        DataSlot::LoadAfter
    } else if path[1] == "forceLoadAfter"@ {
        DataSlot::ForceLoadAfter
    } else if path[1] == "loadBefore"@ {
        DataSlot::LoadBefore
    } else if path[1] == "forceLoadBefore"@ {
        DataSlot::ForceLoadBefore
    } else if path[1] == "supportedVersions"@ {
        DataSlot::SupportedVersions
    } else if path[1] == "authors"@ {
        DataSlot::Authors
    } else if path[1] == "incompatibleWith"@ {
        DataSlot::IncompatibleWith
    } else if path[1] == "modDependencies"@ {
        if path.len() < 4 {
            DataSlot::Nothing
        } else if path[3] == "packageId"@ {
            DataSlot::DepPackageId
        } else if path[3] == "displayName"@ {
            DataSlot::DepDisplayName
        } else if path[3] == "steamWorkshopUrl"@ {
            DataSlot::DepSteamWorkshopUrl
        } else if path[3] == "downloadUrl"@ {
            DataSlot::DepDownloadUrl
        } else {
            DataSlot::Nothing
        }
    } else {
        DataSlot::Nothing
    }
}

/// Computes [`slot_of`] for the current element path.
fn slot_of_path(xml_path: &Vec<String>) -> (r: DataSlot)
    ensures
        r == slot_of(xml_path.deep_view()),
{
    let ghost pv = xml_path.deep_view();
    if xml_path.len() < 2 || !str_eq(xml_path[0].as_str(), "ModMetaData") {
        return DataSlot::Nothing;
    }
    let tag = &xml_path[1];
    if str_eq(tag.as_str(), "name") {
        DataSlot::Name
    } else if str_eq(tag.as_str(), "description") {
        DataSlot::Description
    } else if str_eq(tag.as_str(), "packageId") {
        DataSlot::PackageId
    } else if str_eq(tag.as_str(), "author") {
        DataSlot::Author
    } else if str_eq(tag.as_str(), "url") {
        DataSlot::Url
    } else if str_eq(tag.as_str(), "loadAfter") {
        DataSlot::LoadAfter
    } else if str_eq(tag.as_str(), "forceLoadAfter") {
        DataSlot::ForceLoadAfter
    } else if str_eq(tag.as_str(), "loadBefore") {
        DataSlot::LoadBefore
    } else if str_eq(tag.as_str(), "forceLoadBefore") {
        DataSlot::ForceLoadBefore
    } else if str_eq(tag.as_str(), "supportedVersions") {
        DataSlot::SupportedVersions
    } else if str_eq(tag.as_str(), "authors") {
        DataSlot::Authors
    } else if str_eq(tag.as_str(), "incompatibleWith") {
        DataSlot::IncompatibleWith
    } else if str_eq(tag.as_str(), "modDependencies") {
        if xml_path.len() < 4 {
            DataSlot::Nothing
        } else if str_eq(xml_path[3].as_str(), "packageId") {
            DataSlot::DepPackageId
        } else if str_eq(xml_path[3].as_str(), "displayName") {
            DataSlot::DepDisplayName
        } else if str_eq(xml_path[3].as_str(), "steamWorkshopUrl") {
            DataSlot::DepSteamWorkshopUrl
        } else if str_eq(xml_path[3].as_str(), "downloadUrl") {
            DataSlot::DepDownloadUrl
        } else {
            DataSlot::Nothing
        }
    } else {
        DataSlot::Nothing
    }
}

/// Routes one character-data event into the record or the accumulators,
/// according to the current element path.
pub fn add_data_to_mmd(mmd: &mut ModMetaData, xml_path: &Vec<String>, text: String, mem: &mut ParsingMem)
    ensures
        ({
            let slot = slot_of(xml_path.deep_view());
            &&& (slot == DataSlot::Name ==> *final(mmd) == ModMetaData {
                name: Some(text),
                ..*old(mmd)
            } && *final(mem) == *old(mem))
            &&& (slot == DataSlot::Description ==> *final(mmd) == ModMetaData {
                description: Some(text),
                ..*old(mmd)
            } && *final(mem) == *old(mem))
            &&& (slot == DataSlot::PackageId ==> *final(mmd) == ModMetaData {
                packageId: Some(text),
                ..*old(mmd)
            } && *final(mem) == *old(mem))
            &&& (slot == DataSlot::Author ==> *final(mmd) == ModMetaData {
                author: Some(text),
                ..*old(mmd)
            } && *final(mem) == *old(mem))
            &&& (slot == DataSlot::Url ==> *final(mmd) == ModMetaData {
                url: Some(text),
                ..*old(mmd)
            } && *final(mem) == *old(mem))
            &&& (slot == DataSlot::LoadAfter ==> *final(mmd) == *old(mmd) && *final(mem)
                == ParsingMem { loadAfter: final(mem).loadAfter, ..*old(mem) } && final(mem).loadAfter@ == old(mem).loadAfter@.push(text))
            &&& (slot == DataSlot::ForceLoadAfter ==> *final(mmd) == *old(mmd) && *final(mem)
                == ParsingMem { forceLoadAfter: final(mem).forceLoadAfter, ..*old(mem) } && final(mem).forceLoadAfter@ == old(mem).forceLoadAfter@.push(text))
            &&& (slot == DataSlot::LoadBefore ==> *final(mmd) == *old(mmd) && *final(mem)
                == ParsingMem { loadBefore: final(mem).loadBefore, ..*old(mem) } && final(mem).loadBefore@ == old(mem).loadBefore@.push(text))
            &&& (slot == DataSlot::ForceLoadBefore ==> *final(mmd) == *old(mmd) && *final(mem)
                == ParsingMem { forceLoadBefore: final(mem).forceLoadBefore, ..*old(mem) }
                && final(mem).forceLoadBefore@ == old(mem).forceLoadBefore@.push(text))
            &&& (slot == DataSlot::SupportedVersions ==> *final(mmd) == *old(mmd) && *final(mem)
                == ParsingMem { supportedVersions: final(mem).supportedVersions, ..*old(mem) }
                && final(mem).supportedVersions@ == old(mem).supportedVersions@.push(text))
            &&& (slot == DataSlot::Authors ==> *final(mmd) == *old(mmd) && *final(mem)
                == ParsingMem { authors: final(mem).authors, ..*old(mem) } && final(mem).authors@
                == old(mem).authors@.push(text))
            &&& (slot == DataSlot::IncompatibleWith ==> *final(mmd) == *old(mmd) && *final(mem)
                == ParsingMem { incompatibleWith: final(mem).incompatibleWith, ..*old(mem) }
                && final(mem).incompatibleWith@ == old(mem).incompatibleWith@.push(text))
            &&& (slot == DataSlot::DepPackageId ==> *final(mmd) == *old(mmd) && *final(mem)
                == ParsingMem {
                curr_modDependencies: Dependency {
                    packageId: Some(text),
                    ..old(mem).curr_modDependencies
                },
                ..*old(mem)
            })
            &&& (slot == DataSlot::DepDisplayName ==> *final(mmd) == *old(mmd) && *final(mem)
                == ParsingMem {
                curr_modDependencies: Dependency {
                    displayName: Some(text),
                    ..old(mem).curr_modDependencies
                },
                ..*old(mem)
            })
            &&& (slot == DataSlot::DepSteamWorkshopUrl ==> *final(mmd) == *old(mmd) && *final(mem)
                == ParsingMem {
                curr_modDependencies: Dependency {
                    steamWorkshopUrl: Some(text),
                    ..old(mem).curr_modDependencies
                },
                ..*old(mem)
            })
            &&& (slot == DataSlot::DepDownloadUrl ==> *final(mmd) == *old(mmd) && *final(mem)
                == ParsingMem {
                curr_modDependencies: Dependency {
                    downloadUrl: Some(text),
                    ..old(mem).curr_modDependencies
                },
                ..*old(mem)
            })
            &&& (slot == DataSlot::Nothing ==> *final(mmd) == *old(mmd) && *final(mem)
                == *old(mem))
        }),
{
    let slot = slot_of_path(xml_path);
    match slot {
        DataSlot::Name => {
            mmd.name = Some(text);
        },
        DataSlot::Description => {
            mmd.description = Some(text);
        },
        DataSlot::PackageId => {
            mmd.packageId = Some(text);
        },
        DataSlot::Author => {
            mmd.author = Some(text);
        },
        DataSlot::Url => {
            mmd.url = Some(text);
        },
        DataSlot::LoadAfter => {
            mem.loadAfter.push(text);
        },
        DataSlot::ForceLoadAfter => {
            mem.forceLoadAfter.push(text);
        },
        DataSlot::LoadBefore => {
            mem.loadBefore.push(text);
        },
        DataSlot::ForceLoadBefore => {
            mem.forceLoadBefore.push(text);
        },
        DataSlot::SupportedVersions => {
            mem.supportedVersions.push(text);
        },
        DataSlot::Authors => {
            mem.authors.push(text);
        },
        DataSlot::IncompatibleWith => {
            mem.incompatibleWith.push(text);
        },
        DataSlot::DepPackageId => {
            mem.curr_modDependencies.packageId = Some(text);
        },
        DataSlot::DepDisplayName => {
            mem.curr_modDependencies.displayName = Some(text);
        },
        DataSlot::DepSteamWorkshopUrl => {
            mem.curr_modDependencies.steamWorkshopUrl = Some(text);
        },
        DataSlot::DepDownloadUrl => {
            mem.curr_modDependencies.downloadUrl = Some(text);
        },
        DataSlot::Nothing => {},
    }
}

/// Closes one element: a `</li>` inside `modDependencies` completes the
/// dependency under construction; the path then loses its last component.
pub fn end_element(xml_path: &mut Vec<String>, name: &String, mem: &mut ParsingMem)
    ensures
        ({
            let closes_dep = old(xml_path)@.len() >= 2 && old(xml_path)@[1]@ == "modDependencies"@
                && name@ == "li"@;
            &&& (closes_dep ==> final(mem).modDependencies@ == old(mem).modDependencies@.push(
                old(mem).curr_modDependencies,
            ) && final(mem).curr_modDependencies.packageId is None && final(mem).curr_modDependencies.displayName is None && final(mem).curr_modDependencies.downloadUrl is None && final(mem).curr_modDependencies.steamWorkshopUrl is None && final(mem).loadAfter == old(mem).loadAfter && final(mem).forceLoadAfter == old(mem).forceLoadAfter && final(mem).loadBefore == old(mem).loadBefore && final(mem).forceLoadBefore == old(mem).forceLoadBefore && final(mem).supportedVersions == old(mem).supportedVersions
                && final(mem).authors == old(mem).authors && final(mem).incompatibleWith == old(mem).incompatibleWith)
            &&& (!closes_dep ==> *final(mem) == *old(mem))
            &&& final(xml_path)@ == if old(xml_path)@.len() > 0 {
                old(xml_path)@.drop_last()
            } else {
                old(xml_path)@
            }
        }),
{
    if xml_path.len() >= 2 && str_eq(xml_path[1].as_str(), "modDependencies") && str_eq(
        name.as_str(),
        "li",
    ) {
        let dep = Dependency {
            packageId: mem.curr_modDependencies.packageId.take(),
            displayName: mem.curr_modDependencies.displayName.take(),
            downloadUrl: mem.curr_modDependencies.downloadUrl.take(),
            steamWorkshopUrl: mem.curr_modDependencies.steamWorkshopUrl.take(),
        };
        mem.modDependencies.push(dep);
    }
    if xml_path.len() > 0 {
        xml_path.pop();
        proof {
            assert(xml_path@ =~= old(xml_path)@.drop_last());
        }
    }
}

/// Parses the bytes of an `About.xml` file into a [`ModMetaData`] record,
/// walking the trusted reader's event stream.  The per-event bookkeeping is
/// pinned by the contracts of [`add_data_to_mmd`], [`end_element`] and
/// [`ParsingMem::commit_to_mmd`]; which events arrive for given bytes is up
/// to the XML reader.
pub fn parse_about(bytes: &[u8]) -> (r: Result<ModMetaData, ParseXMLError>)
    requires
        bytes@.len() >= 3,
{
    let data = skip_leading_ws(strip_bom(bytes));
    let owned: Vec<u8> = slice_to_vec(data);
    let budget = owned.len();
    let cap: usize = if budget > usize::MAX - 16 {
        usize::MAX
    } else {
        budget + 16
    };
    let mut reader = xml_reader_new(owned);
    let mut mmd = ModMetaData::default();
    let mut xml_path: Vec<String> = Vec::new();
    let mut mem = ParsingMem::new();
    let mut steps: usize = 0;
    loop
        invariant
            steps <= cap,
        decreases cap - steps,
    {
        match next_event(&mut reader) {
            Err(msg) => {
                return Err(ParseXMLError::XMLError(msg));
            },
            Ok(XmlEv::Start(name)) => {
                xml_path.push(name);
            },
            Ok(XmlEv::End(name)) => {
                end_element(&mut xml_path, &name, &mut mem);
            },
            Ok(XmlEv::Chars(text)) => {
                add_data_to_mmd(&mut mmd, &xml_path, text, &mut mem);
            },
            Ok(XmlEv::EndDoc) => {
                break;
            },
            Ok(XmlEv::Other) => {},
        }
        if steps >= cap {
            return Err(ParseXMLError::TooManyEvents);
        }
        steps = steps + 1;
    }
    mem.commit_to_mmd(&mut mmd);
    Ok(mmd)
}

} // verus!
