//! The game's `ModsConfig.xml`: the active mod list, known expansions and
//! game version.

use crate::helpers::basics::skip_leading_ws;
use crate::helpers::{fold_lis, strip_bom};
use crate::helpers::basics::fold_lis_spec;
use crate::serialization::xml_events::{next_event, xml_reader_new, XmlEv};
use crate::serialization::ParseXMLError;
use vstd::prelude::*;
use vstd::slice::slice_to_vec;
use vstd::string::StringExecFns;

verus! {

/// Represents the file `ModsConfig.xml` in the game's config directory: the
/// game version, the active mods in order, and the known expansions.
#[allow(non_snake_case)]
#[derive(Debug, Clone)]
pub struct ModsConfig {
    pub version: Option<String>,
    pub activeMods: Vec<String>,
    pub knownExpansions: Vec<String>,
}

impl Default for ModsConfig {
    /// An empty configuration.
    fn default() -> (r: Self)
        ensures
            r.version is None,
            r.activeMods@.len() == 0,
            r.knownExpansions@.len() == 0,
    {
        ModsConfig { version: None, activeMods: Vec::new(), knownExpansions: Vec::new() }
    }
}

/// The exact serialized form of a configuration.
pub open spec fn mods_config_xml(
    version: Option<Seq<char>>,
    actives: Seq<Seq<char>>,
    knowns: Seq<Seq<char>>,
) -> Seq<char> {
    "<?xml version=\"1.0\" encoding=\"utf-8\"?>\n<ModsConfigData>\n"@ + (match version {
        Some(v) => "    <version>"@ + v + "</version>\n"@,
        None => Seq::empty(),
    }) + (if actives.len() > 0 {
        "    <activeMods>\n"@ + fold_lis_spec(actives, 2) + "    </activeMods>\n"@
    } else {
        Seq::empty()
    }) + (if knowns.len() > 0 {
        "    <knownExpansions>\n"@ + fold_lis_spec(knowns, 2) + "    </knownExpansions>\n"@
    } else {
        Seq::empty()
    }) + "</ModsConfigData>"@
}

/// The section a character-data event belongs to while parsing.
#[derive(Debug, Clone, Copy, PartialEq, Eq, Structural)]
pub enum Section {
    Version,
    ActiveMods,
    KnownExpansions,
    Outside,
}

/// Routes one XML event into the configuration under construction: section
/// elements move the cursor, character data lands in the current section,
/// and character data outside every section is an error.
fn apply_event(mc: &mut ModsConfig, section: &mut Section, ev: XmlEv) -> (r: Result<
    (),
    ParseXMLError,
>)
    ensures
        ({
            match ev {
                XmlEv::Start(name) => r is Ok && *final(mc) == *old(mc) && *final(section) == (
                if name@ == "version"@ {
                    Section::Version
                } else if name@ == "activeMods"@ {
                    Section::ActiveMods
                } else if name@ == "knownExpansions"@ {
                    Section::KnownExpansions
                } else {
                    *old(section)
                }),
                XmlEv::End(name) => r is Ok && *final(mc) == *old(mc) && *final(section) == (
                if name@ == "version"@ || name@ == "activeMods"@ || name@ == "knownExpansions"@ {
                    Section::Outside
                } else {
                    *old(section)
                }),
                XmlEv::Chars(text) => *final(section) == *old(section) && (match *old(section) {
                    Section::Version => r is Ok && *final(mc) == ModsConfig {
                        version: Some(text),
                        ..*old(mc)
                    },
                    Section::ActiveMods => r is Ok && *final(mc) == ModsConfig {
                        activeMods: final(mc).activeMods,
                        ..*old(mc)
                    } && final(mc).activeMods@ == old(mc).activeMods@.push(text),
                    Section::KnownExpansions => r is Ok && *final(mc) == ModsConfig {
                        knownExpansions: final(mc).knownExpansions,
                        ..*old(mc)
                    } && final(mc).knownExpansions@ == old(mc).knownExpansions@.push(text),
                    Section::Outside => r == Err::<(), ParseXMLError>(
                        ParseXMLError::UnexpectedText,
                    ) && *final(mc) == *old(mc),
                }),
                _ => r is Ok && *final(mc) == *old(mc) && *final(section) == *old(section),
            }
        }),
{
    match ev {
        XmlEv::Start(name) => {
            if crate::helpers::strings::str_eq(name.as_str(), "version") {
                *section = Section::Version;
            } else if crate::helpers::strings::str_eq(name.as_str(), "activeMods") {
                *section = Section::ActiveMods;
            } else if crate::helpers::strings::str_eq(name.as_str(), "knownExpansions") {
                *section = Section::KnownExpansions;
            }
            Ok(())
        },
        XmlEv::End(name) => {
            if crate::helpers::strings::str_eq(name.as_str(), "version")
                || crate::helpers::strings::str_eq(name.as_str(), "activeMods")
                || crate::helpers::strings::str_eq(name.as_str(), "knownExpansions") {
                *section = Section::Outside;
            }
            Ok(())
        },
        XmlEv::Chars(text) => {
            match section {
                Section::Version => {
                    mc.version = Some(text);
                    Ok(())
                },
                Section::ActiveMods => {
                    mc.activeMods.push(text);
                    Ok(())
                },
                Section::KnownExpansions => {
                    mc.knownExpansions.push(text);
                    Ok(())
                },
                Section::Outside => Err(ParseXMLError::UnexpectedText),
            }
        },
        _ => Ok(()),
    }
}

impl ModsConfig {
    /// Parses the bytes of a `ModsConfig.xml` document.  Each event of the
    /// trusted XML reader is folded in by [`apply_event`], whose contract
    /// pins the bookkeeping exactly; which events arrive for given bytes is
    /// up to the reader.  Character data outside the known elements fails
    /// with [`ParseXMLError::UnexpectedText`].
    pub fn parse(bytes: &[u8]) -> (r: Result<ModsConfig, ParseXMLError>)
        requires
            bytes@.len() >= 3,
    {
        let data = skip_leading_ws(strip_bom(bytes));
        let owned: Vec<u8> = slice_to_vec(data);
        let budget = owned.len();
        let cap: usize = if budget > usize::MAX - 16 {
            usize::MAX
        } else {
            budget + 16
        };
        let mut reader = xml_reader_new(owned);
        let mut mods_config = ModsConfig::default();
        let mut section = Section::Outside;
        let mut steps: usize = 0;
        loop
            invariant
                steps <= cap,
            decreases cap - steps,
        {
            match next_event(&mut reader) {
                Err(msg) => {
                    return Err(ParseXMLError::XMLError(msg));
                },
                Ok(XmlEv::EndDoc) => {
                    break;
                },
                Ok(ev) => {
                    if let Err(e) = apply_event(&mut mods_config, &mut section, ev) {
                        return Err(e);
                    }
                },
            }
            if steps >= cap {
                return Err(ParseXMLError::TooManyEvents);
            }
            steps = steps + 1;
        }
        Ok(mods_config)
    }

    /// Serializes the configuration; the result is pinned exactly by
    /// [`mods_config_xml`].
    pub fn to_xml_string(&self) -> (r: String)
        ensures
            r@ == mods_config_xml(
                match self.version {
                    Some(v) => Some(v@),
                    None => None,
                },
                self.activeMods.deep_view(),
                self.knownExpansions.deep_view(),
            ),
    {
        let mut out = String::new();
        out.append("<?xml version=\"1.0\" encoding=\"utf-8\"?>\n<ModsConfigData>\n");
        if let Some(version) = &self.version {
            out.append("    <version>");
            out.append(version.as_str());
            out.append("</version>\n");
        }
        if self.activeMods.len() > 0 {
            out.append("    <activeMods>\n");
            let folded = fold_lis(&self.activeMods, 2);
            out.append(folded.as_str());
            out.append("    </activeMods>\n");
        }
        if self.knownExpansions.len() > 0 {
            out.append("    <knownExpansions>\n");
            let folded = fold_lis(&self.knownExpansions, 2);
            out.append(folded.as_str());
            out.append("    </knownExpansions>\n");
        }
        out.append("</ModsConfigData>");
        proof {
            if self.version is None {
                assert("<?xml version=\"1.0\" encoding=\"utf-8\"?>\n<ModsConfigData>\n"@
                    + Seq::<char>::empty()
                    =~= "<?xml version=\"1.0\" encoding=\"utf-8\"?>\n<ModsConfigData>\n"@);
            }
            assert(out@ =~= mods_config_xml(
                match self.version {
                    Some(v) => Some(v@),
                    None => None,
                },
                self.activeMods.deep_view(),
                self.knownExpansions.deep_view(),
            ));
        }
        out
    }
}

} // verus!
