//! The metadata record parsed from a mod's `About.xml` file.

use crate::helpers::strings::{contains_str, str_eq};
use crate::mods::validation::{lower_of, to_lowercase};
use crate::mods::Dependency;
use vstd::prelude::*;
use vstd::string::StrSliceExecFns;

verus! {

/// The mod metadata contained in its About.xml file.
///
/// Relation fields (`loadAfter`, `loadBefore`, their forced variants, and
/// `incompatibleWith`) hold package identifiers that may or may not refer to
/// known mods; dangling references are expected and tolerated by the engine.
#[allow(non_snake_case)]
#[derive(Debug, Clone)]
pub struct ModMetaData {
    pub path: Option<String>,
    pub name: Option<String>,
    pub author: Option<String>,
    pub authors: Option<Vec<String>>,
    pub url: Option<String>,
    pub packageId: Option<String>,
    pub supportedVersions: Option<Vec<String>>,
    pub description: Option<String>,
    pub modDependencies: Option<Vec<Dependency>>,
    pub loadAfter: Option<Vec<String>>,
    pub forceLoadAfter: Option<Vec<String>>,
    pub loadBefore: Option<Vec<String>>,
    pub forceLoadBefore: Option<Vec<String>>,
    pub incompatibleWith: Option<Vec<String>>,
}

impl Default for ModMetaData {
    /// An empty record, with every field absent.
    fn default() -> (r: Self)
        ensures
            r == ModMetaData::empty_spec(),
    {
        ModMetaData {
            path: None,
            name: None,
            author: None,
            authors: None,
            url: None,
            packageId: None,
            supportedVersions: None,
            description: None,
            modDependencies: None,
            loadAfter: None,
            forceLoadAfter: None,
            loadBefore: None,
            forceLoadBefore: None,
            incompatibleWith: None,
        }
    }
}

/// The identifier sequences contributed by an optional list of package ids.
pub open spec fn opt_ids(o: Option<Vec<String>>) -> Seq<Seq<char>> {
    match o {
        Some(v) => v.deep_view(),
        None => Seq::empty(),
    }
}

/// The package ids named by a sequence of hard dependencies, in declaration
/// order, skipping dependencies without an id.
pub open spec fn dep_id_seq(ds: Seq<Dependency>) -> Seq<Seq<char>>
    decreases ds.len(),
{
    if ds.len() == 0 {
        Seq::empty()
    } else {
        dep_id_seq(ds.drop_last()) + match ds.last().packageId {
            Some(p) => seq![p@],
            None => Seq::empty(),
        }
    }
}

impl ModMetaData {
    /// The record with every field absent.
    pub open spec fn empty_spec() -> ModMetaData {
        ModMetaData {
            path: None,
            name: None,
            author: None,
            authors: None,
            url: None,
            packageId: None,
            supportedVersions: None,
            description: None,
            modDependencies: None,
            loadAfter: None,
            forceLoadAfter: None,
            loadBefore: None,
            forceLoadBefore: None,
            incompatibleWith: None,
        }
    }

    /// Ids that must load before this mod, by this mod's own declarations:
    /// hard dependencies, then `loadAfter`, then `forceLoadAfter`.
    pub open spec fn after_source_ids(&self) -> Seq<Seq<char>> {
        (match self.modDependencies {
            Some(ds) => dep_id_seq(ds@),
            None => Seq::empty(),
        }) + opt_ids(self.loadAfter) + opt_ids(self.forceLoadAfter)
    }

    /// Ids that this mod declares it must load before: `loadBefore`, then
    /// `forceLoadBefore`.
    pub open spec fn before_target_ids(&self) -> Seq<Seq<char>> {
        opt_ids(self.loadBefore) + opt_ids(self.forceLoadBefore)
    }
}


/// The base game and its expansions, in release order.
pub open spec fn official_ids() -> Seq<Seq<char>> {
    seq!["ludeon.rimworld"@, "ludeon.rimworld.royalty"@, "ludeon.rimworld.ideology"@, "ludeon.rimworld.biotech"@]
}

/// Whether a record asks for the default load-after entries: everything but
/// the base game and its expansions themselves does.
pub open spec fn wants_default_load_after(md: ModMetaData) -> bool {
    match md.packageId {
        None => true,
        Some(p) => !(lower_of(p@).len() >= "ludeon.rimworld"@.len() && lower_of(p@).subrange(
            0,
            "ludeon.rimworld"@.len() as int,
        ) == "ludeon.rimworld"@),
    }
}

/// The default load-after additions: the official ids in order, stopping at
/// the first one the record declares it loads before.
pub open spec fn default_additions(md: ModMetaData, k: int) -> Seq<Seq<char>>
    decreases official_ids().len() - k,
{
    if k < 0 || k >= official_ids().len() {
        Seq::empty()
    } else if md.before_target_ids().contains(official_ids()[k]) {
        Seq::empty()
    } else {
        seq![official_ids()[k]] + default_additions(md, k + 1)
    }
}

impl ModMetaData {
    /// Adds the base game and expansions to `loadAfter` (which afterwards is
    /// always present), unless the record belongs to the base game itself or
    /// declares it loads before one of them; the cascade stops at the first
    /// declared `loadBefore`.
    pub fn apply_default_load_order(&mut self)
        ensures
            (*final(self) == ModMetaData { loadAfter: final(self).loadAfter, ..*old(self) }),
            (final(self).loadAfter matches Some(la) && la.deep_view() == opt_ids(
                old(self).loadAfter,
            ) + (if wants_default_load_after(*old(self)) {
                default_additions(*old(self), 0)
            } else {
                Seq::empty()
            })),
    {
        let ghost md0 = *self;
        let mut la = match self.loadAfter.take() {
            Some(v) => v,
            None => Vec::new(),
        };
        proof {
            assert(la.deep_view() == opt_ids(md0.loadAfter));
        }
        let wants = match &self.packageId {
            None => true,
            Some(p) => {
                let low = to_lowercase(p.as_str());
                proof {
                    reveal_strlit("ludeon.rimworld");
                }
                if low.as_str().unicode_len() >= 15 {
                    let prefix = low.as_str().substring_char(0, 15);
                    proof {
                        assert(prefix@ == lower_of(p@).subrange(0, "ludeon.rimworld"@.len() as int));
                    }
                    !str_eq(prefix, "ludeon.rimworld")
                } else {
                    true
                }
            },
        };
        proof {
            assert(wants == wants_default_load_after(md0));
        }
        if wants {
            let ghost base = la.deep_view();
            let mut halted = false;
            let officials: [&str; 4] = [
                "ludeon.rimworld",
                "ludeon.rimworld.royalty",
                "ludeon.rimworld.ideology",
                "ludeon.rimworld.biotech",
            ];
            let mut k: usize = 0;
            while k < 4
                invariant
                    k <= 4,
                    officials@.len() == 4,
                    forall|j: int| 0 <= j < 4 ==> #[trigger] officials@[j]@ == official_ids()[j],
                    self.loadBefore == md0.loadBefore,
                    self.forceLoadBefore == md0.forceLoadBefore,
                    !halted ==> base + default_additions(md0, 0) == la.deep_view()
                        + default_additions(md0, k as int),
                    halted ==> la.deep_view() == base + default_additions(md0, 0),
                decreases 4 - k,
            {
                if !halted {
                    proof {
                        assert(self.before_target_ids() == md0.before_target_ids());
                    }
                    let declared_before = contains_in_before(self, officials[k]);
                    if declared_before {
                        proof {
                            assert(default_additions(md0, k as int) =~= Seq::<Seq<char>>::empty());
                            assert(la.deep_view() + default_additions(md0, k as int)
                                =~= la.deep_view());
                        }
                        halted = true;
                    } else {
                        let ghost pre = la.deep_view();
                        la.push(officials[k].to_owned());
                        proof {
                            assert(la.deep_view() =~= pre.push(official_ids()[k as int]));
                            assert(default_additions(md0, k as int) == seq![
                                official_ids()[k as int],
                            ] + default_additions(md0, k as int + 1));
                            assert(pre + default_additions(md0, k as int) =~= la.deep_view()
                                + default_additions(md0, k as int + 1));
                        }
                    }
                }
                k = k + 1;
            }
            proof {
                if !halted {
                    assert(default_additions(md0, 4) =~= Seq::<Seq<char>>::empty());
                    assert(la.deep_view() + default_additions(md0, 4) =~= la.deep_view());
                }
            }
        }
        self.loadAfter = Some(la);
    }
}

/// Whether the record's `loadBefore` or `forceLoadBefore` names `id`.
fn contains_in_before(md: &ModMetaData, id: &str) -> (r: bool)
    ensures
        r == md.before_target_ids().contains(id@),
{
    let in_lb = match &md.loadBefore {
        Some(v) => contains_str(v, id),
        None => false,
    };
    let in_flb = match &md.forceLoadBefore {
        Some(v) => contains_str(v, id),
        None => false,
    };
    proof {
        let lb = opt_ids(md.loadBefore);
        let flb = opt_ids(md.forceLoadBefore);
        if lb.contains(id@) {
            let j = choose|j: int| 0 <= j < lb.len() && lb[j] == id@;
            assert(md.before_target_ids()[j] == id@);
        }
        if flb.contains(id@) {
            let j = choose|j: int| 0 <= j < flb.len() && flb[j] == id@;
            assert(md.before_target_ids()[lb.len() + j] == id@);
        }
        if md.before_target_ids().contains(id@) {
            let j = choose|j: int|
                0 <= j < md.before_target_ids().len() && md.before_target_ids()[j] == id@;
            if j < lb.len() {
                assert(lb[j] == id@);
            } else {
                assert(flb[j - lb.len()] == id@);
            }
        }
    }
    in_lb || in_flb
}

} // verus!
