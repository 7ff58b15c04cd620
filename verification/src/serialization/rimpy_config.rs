//! The mod manager's own `config.ini`: the folder locations, colors, and
//! startup parameters, folded from parsed INI entries.

use crate::helpers::strings::str_eq;
use crate::serialization::ini::INIKeyValuePair;
use vstd::prelude::*;

verus! {

/// The folder locations named in the configuration file.
#[derive(Debug, Clone)]
pub struct RimPyConfigFolders {
    pub config_folder: Option<String>,
    pub game_folder: Option<String>,
    pub local_mods: Option<String>,
    pub expansions: Option<String>,
    pub steam_mods: Option<String>,
    pub steamcmd: Option<String>,
}

/// The manager's configuration: folders, color settings, and startup
/// parameters.
#[derive(Debug, Clone)]
pub struct RimPyConfig {
    pub colors: Option<Vec<(String, String)>>,
    pub folders: RimPyConfigFolders,
    pub startup_params: Option<String>,
}

impl Default for RimPyConfig {
    /// An empty configuration.
    fn default() -> (r: Self)
        ensures
            r == RimPyConfig::empty_spec(),
    {
        RimPyConfig {
            colors: None,
            folders: RimPyConfigFolders {
                config_folder: None,
                game_folder: None,
                local_mods: None,
                expansions: None,
                steam_mods: None,
                steamcmd: None,
            },
            startup_params: None,
        }
    }
}

/// Interim state while folding entries: the configuration so far and the
/// collected colors.
pub struct ConfState {
    pub conf: RimPyConfig,
    pub colors: Seq<(String, String)>,
}

/// One entry folded into the state, mirroring the sectioned dispatch.
pub open spec fn conf_step(st: ConfState, kvp: INIKeyValuePair) -> ConfState {
    if kvp.section is Some && kvp.section->Some_0@ == "Folders"@ {
        if kvp.key@ == "Config folder"@ {
            ConfState {
                conf: RimPyConfig {
                    folders: RimPyConfigFolders {
                        config_folder: Some(kvp.value),
                        ..st.conf.folders
                    },
                    ..st.conf
                },
                ..st
            }
        } else if kvp.key@ == "Game folder"@ {
            ConfState {
                conf: RimPyConfig {
                    folders: RimPyConfigFolders { game_folder: Some(kvp.value), ..st.conf.folders },
                    ..st.conf
                },
                ..st
            }
        } else if kvp.key@ == "Local mods"@ {
            ConfState {
                conf: RimPyConfig {
                    folders: RimPyConfigFolders { local_mods: Some(kvp.value), ..st.conf.folders },
                    ..st.conf
                },
                ..st
            }
        } else if kvp.key@ == "Expansions"@ {
            ConfState {
                conf: RimPyConfig {
                    folders: RimPyConfigFolders { expansions: Some(kvp.value), ..st.conf.folders },
                    ..st.conf
                },
                ..st
            }
        } else if kvp.key@ == "Steam mods"@ {
            ConfState {
                conf: RimPyConfig {
                    folders: RimPyConfigFolders { steam_mods: Some(kvp.value), ..st.conf.folders },
                    ..st.conf
                },
                ..st
            }
        } else if kvp.key@ == "SteamCMD"@ {
            ConfState {
                conf: RimPyConfig {
                    folders: RimPyConfigFolders { steamcmd: Some(kvp.value), ..st.conf.folders },
                    ..st.conf
                },
                ..st
            }
        } else {
            st
        }
    } else if kvp.section is Some && kvp.section->Some_0@ == "Colors"@ {
        ConfState { colors: st.colors.push((kvp.key, kvp.value)), ..st }
    } else if kvp.section is Some && kvp.section->Some_0@ == "StartupParams"@ {
        ConfState { conf: RimPyConfig { startup_params: Some(kvp.value), ..st.conf }, ..st }
    } else {
        st
    }
}

pub proof fn lemma_conf_fold_colors_none(pairs: Seq<INIKeyValuePair>, k: int)
    ensures
        conf_fold(pairs, k).conf.colors is None,
    decreases k,
{
    if k > 0 {
        lemma_conf_fold_colors_none(pairs, k - 1);
    }
}

/// The fold over the first `k` entries.
pub open spec fn conf_fold(pairs: Seq<INIKeyValuePair>, k: int) -> ConfState
    decreases k,
{
    if k <= 0 {
        ConfState { conf: RimPyConfig::empty_spec(), colors: Seq::empty() }
    } else {
        conf_step(conf_fold(pairs, k - 1), pairs[k - 1])
    }
}

impl RimPyConfig {
    /// The configuration with every field absent.
    pub open spec fn empty_spec() -> RimPyConfig {
        RimPyConfig {
            colors: None,
            folders: RimPyConfigFolders {
                config_folder: None,
                game_folder: None,
                local_mods: None,
                expansions: None,
                steam_mods: None,
                steamcmd: None,
            },
            startup_params: None,
        }
    }

    /// Folds parsed INI entries into a configuration: later entries win,
    /// and the color table is present exactly when a `Colors` entry
    /// occurred.  Pinned exactly by [`conf_fold`].
    pub fn from_pairs(pairs: Vec<INIKeyValuePair>) -> (r: RimPyConfig)
        ensures
            ({
                let st = conf_fold(pairs@, pairs@.len() as int);
                &&& r.folders == st.conf.folders
                &&& r.startup_params == st.conf.startup_params
                &&& (st.colors.len() > 0 ==> (r.colors matches Some(cs) && cs@ == st.colors))
                &&& (st.colors.len() == 0 ==> r.colors is None)
            }),
    {
        let ghost pv = pairs@;
        let n0 = pairs.len();
        proof {
            assert(pv.len() == n0);
        }
        let mut conf = RimPyConfig::default();
        let mut colors: Vec<(String, String)> = Vec::new();
        let mut pairs = pairs;
        let mut i: usize = 0;
        proof {
            assert(colors@ =~= conf_fold(pv, 0).colors);
            assert(pairs@ =~= pv.skip(0));
        }
        while pairs.len() > 0
            invariant
                pv.len() <= usize::MAX,
                i + pairs@.len() == pv.len(),
                pairs@ == pv.skip(i as int),
                conf == conf_fold(pv, i as int).conf,
                colors@ == conf_fold(pv, i as int).colors,
            decreases pairs@.len(),
        {
            let ghost st = conf_fold(pv, i as int);
            let kvp = pairs.remove(0);
            proof {
                assert(kvp == pv.skip(i as int)[0]);
                assert(kvp == pv[i as int]);
                assert(pairs@ =~= pv.skip(i + 1));
            }
            let INIKeyValuePair { section, key, value } = kvp;
            match &section {
                Some(sec) => {
                    if str_eq(sec.as_str(), "Folders") {
                        if str_eq(key.as_str(), "Config folder") {
                            conf.folders.config_folder = Some(value);
                        } else if str_eq(key.as_str(), "Game folder") {
                            conf.folders.game_folder = Some(value);
                        } else if str_eq(key.as_str(), "Local mods") {
                            conf.folders.local_mods = Some(value);
                        } else if str_eq(key.as_str(), "Expansions") {
                            conf.folders.expansions = Some(value);
                        } else if str_eq(key.as_str(), "Steam mods") {
                            conf.folders.steam_mods = Some(value);
                        } else if str_eq(key.as_str(), "SteamCMD") {
                            conf.folders.steamcmd = Some(value);
                        }
                    } else if str_eq(sec.as_str(), "Colors") {
                        colors.push((key, value));
                        proof {
                            assert(colors@ =~= st.colors.push((pv[i as int].key, pv[i as int].value)));
                        }
                    } else if str_eq(sec.as_str(), "StartupParams") {
                        conf.startup_params = Some(value);
                    }
                },
                None => {},
            }
            i = i + 1;
        }
        proof {
            assert(i as int == pv.len());
            lemma_conf_fold_colors_none(pv, pv.len() as int);
        }
        if colors.len() > 0 {
            conf.colors = Some(colors);
        }
        conf
    }
}

} // verus!
