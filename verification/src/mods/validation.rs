//! Validation of an ordered activation list against the metadata store.
//!
//! [`ModListValidator::validate`] makes a single forward pass over the list,
//! collecting warnings (missing metadata, soft ordering violations) and
//! errors (unsatisfied hard dependencies, incompatibilities), and classifies
//! the outcome as `Ok`, `Warn` or `Err`.  The computation is mirrored
//! exactly by [`validate_spec`].

use crate::helpers::strings::{clone_string, concat3, contains_str};
use crate::mods::meta_map::MetaMap;
use crate::mods::mod_meta_data::{opt_ids, ModMetaData};
use crate::mods::Dependency;
use vstd::prelude::*;

verus! {

/// The lowercased form of a character sequence, as produced by
/// `str::to_lowercase`.
pub uninterp spec fn lower_of(s: Seq<char>) -> Seq<char>;

/// Relies on `str::to_lowercase`: the Unicode lowercase mapping of the
/// string, a function of the characters alone; an empty string stays empty.
#[verifier::external_body]
pub fn to_lowercase(s: &str) -> (r: String)
    ensures
        r@ == lower_of(s@),
        s@.len() == 0 ==> r@.len() == 0,
{
    s.to_lowercase()
}

/// The warning for an identifier without metadata.
pub open spec fn msg_missing(p: Seq<char>) -> Seq<char> {
    "Couldn't find metadata for "@ + p
}

/// The error for a hard dependency that has not been loaded earlier.
pub open spec fn msg_requires(p: Seq<char>, d: Seq<char>) -> Seq<char> {
    p + " requires "@ + d
}

/// The warning for a mod that asked to load before an already-loaded mod.
pub open spec fn msg_before(p: Seq<char>, t: Seq<char>) -> Seq<char> {
    p + " should be loaded before "@ + t
}

/// The warning for an earlier mod that asked to load after the current one.
pub open spec fn msg_after(a: Seq<char>, p: Seq<char>) -> Seq<char> {
    a + " should be loaded after "@ + p
}

/// The error for two incompatible mods in one list.
pub open spec fn msg_incompat(a: Seq<char>, b: Seq<char>) -> Seq<char> {
    a + " is incompatible with "@ + b
}

/// The running state of the forward pass.
pub struct ValState {
    pub loaded: Seq<Seq<char>>,
    pub after_pairs: Seq<(Seq<char>, Seq<Seq<char>>)>,
    pub incompat_pairs: Seq<(Seq<char>, Seq<Seq<char>>)>,
    pub warnings: Seq<Seq<char>>,
    pub errors: Seq<Seq<char>>,
}

pub open spec fn init_state() -> ValState {
    ValState {
        loaded: Seq::empty(),
        after_pairs: Seq::empty(),
        incompat_pairs: Seq::empty(),
        warnings: Seq::empty(),
        errors: Seq::empty(),
    }
}

/// The keys of a pair sequence.
pub open spec fn pair_keys(ps: Seq<(Seq<char>, Seq<Seq<char>>)>) -> Seq<Seq<char>> {
    Seq::new(ps.len(), |i: int| ps[i].0)
}

/// Errors for the hard dependencies of `p` that are not yet loaded.
pub open spec fn dep_errs(p: Seq<char>, loaded: Seq<Seq<char>>, ds: Seq<Dependency>) -> Seq<
    Seq<char>,
>
    decreases ds.len(),
{
    if ds.len() == 0 {
        Seq::empty()
    } else {
        dep_errs(p, loaded, ds.drop_last()) + match ds.last().packageId {
            Some(d) => if !loaded.contains(lower_of(d@)) {
                seq![msg_requires(p, d@)]
            } else {
                Seq::empty()
            },
            None => Seq::empty(),
        }
    }
}

/// Warnings for `loadBefore` targets of `p` that are already loaded.
pub open spec fn lb_warns(p: Seq<char>, loaded: Seq<Seq<char>>, lbs: Seq<Seq<char>>) -> Seq<
    Seq<char>,
>
    decreases lbs.len(),
{
    if lbs.len() == 0 {
        Seq::empty()
    } else {
        lb_warns(p, loaded, lbs.drop_last()) + if loaded.contains(lbs.last()) {
            seq![msg_before(p, lbs.last())]
        } else {
            Seq::empty()
        }
    }
}

/// Warnings for earlier mods whose recorded `loadAfter` sets name `p`.
pub open spec fn after_warns(p: Seq<char>, pairs: Seq<(Seq<char>, Seq<Seq<char>>)>) -> Seq<
    Seq<char>,
>
    decreases pairs.len(),
{
    if pairs.len() == 0 {
        Seq::empty()
    } else {
        after_warns(p, pairs.drop_last()) + if pairs.last().1.contains(p) {
            seq![msg_after(pairs.last().0, p)]
        } else {
            Seq::empty()
        }
    }
}

/// One step of the forward pass, for the (lowercased) identifier `p`.
pub open spec fn val_step(m: Map<Seq<char>, ModMetaData>, st: ValState, p: Seq<char>) -> ValState {
    if !m.contains_key(p) {
        ValState { warnings: st.warnings + seq![msg_missing(p)], ..st }
    } else {
        let md = m[p];
        let ip = if md.incompatibleWith is Some && !pair_keys(st.incompat_pairs).contains(p) {
            st.incompat_pairs.push((p, opt_ids(md.incompatibleWith)))
        } else {
            st.incompat_pairs
        };
        let es = st.errors + (match md.modDependencies {
            Some(ds) => dep_errs(p, st.loaded, ds@),
            None => Seq::empty(),
        });
        let ws = st.warnings + (match md.loadBefore {
            Some(l) => lb_warns(p, st.loaded, l.deep_view()),
            None => Seq::empty(),
        }) + after_warns(p, st.after_pairs);
        let ap = if md.loadAfter is Some && !pair_keys(st.after_pairs).contains(p) {
            st.after_pairs.push((p, opt_ids(md.loadAfter)))
        } else {
            st.after_pairs
        };
        ValState {
            loaded: st.loaded.push(p),
            after_pairs: ap,
            incompat_pairs: ip,
            warnings: ws,
            errors: es,
        }
    }
}

/// The forward pass over the first `k` identifiers.
pub open spec fn val_fold(m: Map<Seq<char>, ModMetaData>, list: Seq<Seq<char>>, k: int) -> ValState
    decreases k,
{
    if k <= 0 {
        init_state()
    } else {
        val_step(m, val_fold(m, list, k - 1), list[k - 1])
    }
}

/// Errors from one recorded incompatibility set against the loaded set.
pub open spec fn inc_errs_one(a: Seq<char>, inc: Seq<Seq<char>>, loaded: Seq<Seq<char>>) -> Seq<
    Seq<char>,
>
    decreases inc.len(),
{
    if inc.len() == 0 {
        Seq::empty()
    } else {
        inc_errs_one(a, inc.drop_last(), loaded) + if loaded.contains(inc.last()) {
            seq![msg_incompat(a, inc.last())]
        } else {
            Seq::empty()
        }
    }
}

/// Errors from the first `k` recorded incompatibility sets.
pub open spec fn inc_errs(
    pairs: Seq<(Seq<char>, Seq<Seq<char>>)>,
    loaded: Seq<Seq<char>>,
    k: int,
) -> Seq<Seq<char>>
    decreases k,
{
    if k <= 0 {
        Seq::empty()
    } else {
        inc_errs(pairs, loaded, k - 1) + inc_errs_one(pairs[k - 1].0, pairs[k - 1].1, loaded)
    }
}

/// The identifiers of the list, lowercased.
pub open spec fn lowered(list: Seq<Seq<char>>) -> Seq<Seq<char>> {
    Seq::new(list.len(), |i: int| lower_of(list[i]))
}

/// The warnings and errors produced by validating `list` against `m`.
pub open spec fn validate_spec(m: Map<Seq<char>, ModMetaData>, list: Seq<Seq<char>>) -> (
    Seq<Seq<char>>,
    Seq<Seq<char>>,
) {
    let ll = lowered(list);
    let st = val_fold(m, ll, ll.len() as int);
    (st.warnings, st.errors + inc_errs(st.incompat_pairs, st.loaded, st.incompat_pairs.len() as int))
}

/// The outcome of validating an activation list: clean, warnings only, or
/// at least one error (errors always dominate warnings).
#[allow(clippy::module_name_repetitions)]
#[derive(Debug, Clone)]
pub enum ModListValidationResult {
    Clean,
    Warn { warnings: Vec<String> },
    Failed { warnings: Vec<String>, errors: Vec<String> },
}

impl ModListValidationResult {
    /// No warnings and no errors.
    pub fn is_ok(&self) -> (r: bool)
        ensures
            r == (self is Clean),
    {
        matches!(self, ModListValidationResult::Clean)
    }

    /// Warnings but no errors.
    pub fn is_warn(&self) -> (r: bool)
        ensures
            r == (self is Warn),
    {
        matches!(self, ModListValidationResult::Warn { .. })
    }

    /// At least one error.
    pub fn is_err(&self) -> (r: bool)
        ensures
            r == (self is Failed),
    {
        matches!(self, ModListValidationResult::Failed { .. })
    }

    /// The warnings, when any diagnostics were produced.
    pub fn warnings(&self) -> (r: Option<&Vec<String>>)
        ensures
            match r {
                Some(w) => (self is Warn && w == self->Warn_warnings) || (self is Failed && w
                    == self->Failed_warnings),
                None => self is Clean,
            },
    {
        match self {
            ModListValidationResult::Clean => None,
            ModListValidationResult::Warn { warnings } => Some(warnings),
            ModListValidationResult::Failed { warnings, .. } => Some(warnings),
        }
    }

    /// The errors, when the list failed validation.
    pub fn errors(&self) -> (r: Option<&Vec<String>>)
        ensures
            match r {
                Some(e) => self is Failed && e == self->Failed_errors,
                None => !(self is Failed),
            },
    {
        match self {
            ModListValidationResult::Failed { errors, .. } => Some(errors),
            _ => None,
        }
    }

    /// Flattens the result: `Ok` stays `Ok`, otherwise the warnings are
    /// returned first, followed by the errors.
    pub fn to_result(self) -> (r: Result<(), Vec<String>>)
        ensures
            match r {
                Ok(()) => self is Clean,
                Err(msgs) => (self is Warn && msgs.deep_view() == self->Warn_warnings.deep_view())
                    || (self is Failed && msgs.deep_view() == self->Failed_warnings.deep_view()
                    + self->Failed_errors.deep_view()),
            },
    {
        match self {
            ModListValidationResult::Clean => Ok(()),
            ModListValidationResult::Warn { warnings } => Err(warnings),
            ModListValidationResult::Failed { warnings, mut errors } => {
                let mut e = warnings;
                let ghost wpre = e.deep_view();
                let ghost epre = errors.deep_view();
                let mut k: usize = 0;
                proof {
                    assert(epre.subrange(0, 0) =~= Seq::empty());
                    assert(e.deep_view() =~= wpre + epre.subrange(0, 0));
                }
                while k < errors.len()
                    invariant
                        k <= errors.len(),
                        epre == errors.deep_view(),
                        epre.len() == errors.len(),
                        e.deep_view() == wpre + epre.subrange(0, k as int),
                    decreases errors.len() - k,
                {
                    let ghost pre = e.deep_view();
                    let s = clone_string(&errors[k]);
                    e.push(s);
                    proof {
                        assert(e.deep_view() =~= pre.push(epre[k as int]));
                        assert(epre.subrange(0, k + 1) =~= epre.subrange(0, k as int).push(
                            epre[k as int],
                        ));
                        assert(e.deep_view() =~= wpre + epre.subrange(0, k + 1));
                    }
                    k = k + 1;
                }
                proof {
                    assert(epre.subrange(0, epre.len() as int) =~= epre);
                }
                Err(e)
            },
        }
    }
}

/// Validates activation lists against a metadata store.
pub struct ModListValidator<'mmd> {
    mod_meta_data: &'mmd MetaMap,
}

impl<'mmd> ModListValidator<'mmd> {
    /// The store this validator reads.
    pub closed spec fn store(&self) -> Map<Seq<char>, ModMetaData> {
        self.mod_meta_data@
    }

    pub fn new(mod_meta_data: &'mmd MetaMap) -> (r: Self)
        ensures
            r.store() == mod_meta_data@,
    {
        ModListValidator { mod_meta_data }
    }

    /// Checks the ordered activation list; identifiers are lowercased before
    /// comparison.  The produced warnings and errors are pinned exactly by
    /// [`validate_spec`]; the classification is `Err` exactly when there are
    /// errors, `Warn` exactly when there are warnings but no errors, and
    /// `Ok` otherwise.
    pub fn validate(&self, mod_list: &Vec<String>) -> (r: ModListValidationResult)
        ensures
            ({
                let (ws, es) = validate_spec(self.store(), mod_list.deep_view());
                match r {
                    ModListValidationResult::Clean => ws.len() == 0 && es.len() == 0,
                    ModListValidationResult::Warn { warnings } => es.len() == 0 && ws.len() > 0
                        && warnings.deep_view() == ws,
                    ModListValidationResult::Failed { warnings, errors } => es.len() > 0
                        && warnings.deep_view() == ws && errors.deep_view() == es,
                }
            }),
    {
        let ghost m = self.store();
        let ghost ll = lowered(mod_list.deep_view());
        let mut low: Vec<String> = Vec::new();
        let mut i: usize = 0;
        while i < mod_list.len()
            invariant
                i <= mod_list.len(),
                ll == lowered(mod_list.deep_view()),
                ll.len() == mod_list.len(),
                low.deep_view() == ll.subrange(0, i as int),
            decreases mod_list.len() - i,
        {
            let ghost pre = low.deep_view();
            let s = to_lowercase(mod_list[i].as_str());
            low.push(s);
            proof {
                assert(low.deep_view() =~= pre.push(ll[i as int]));
                assert(ll.subrange(0, i + 1) =~= ll.subrange(0, i as int).push(ll[i as int]));
            }
            i = i + 1;
        }
        proof {
            assert(ll.subrange(0, ll.len() as int) =~= ll);
        }
        let mut loaded: Vec<String> = Vec::new();
        let mut after_keys: Vec<String> = Vec::new();
        let mut after_vals: Vec<Vec<String>> = Vec::new();
        let mut inc_keys: Vec<String> = Vec::new();
        let mut inc_vals: Vec<Vec<String>> = Vec::new();
        let mut warnings: Vec<String> = Vec::new();
        let mut errors: Vec<String> = Vec::new();
        let mut i: usize = 0;
        proof {
            let st0 = val_fold(m, ll, 0);
            assert(loaded.deep_view() =~= st0.loaded);
            assert(pairs_of(after_keys.deep_view(), after_vals.deep_view()) =~= st0.after_pairs);
            assert(pairs_of(inc_keys.deep_view(), inc_vals.deep_view()) =~= st0.incompat_pairs);
            assert(warnings.deep_view() =~= st0.warnings);
            assert(errors.deep_view() =~= st0.errors);
        }
        while i < low.len()
            invariant
                i <= low.len(),
                m == self.store(),
                ll == lowered(mod_list.deep_view()),
                low.deep_view() == ll,
                ll.len() == low.len(),
                after_keys.len() == after_vals.len(),
                inc_keys.len() == inc_vals.len(),
                ({
                    let st = val_fold(m, ll, i as int);
                    &&& loaded.deep_view() == st.loaded
                    &&& pairs_of(after_keys.deep_view(), after_vals.deep_view()) == st.after_pairs
                    &&& pairs_of(inc_keys.deep_view(), inc_vals.deep_view()) == st.incompat_pairs
                    &&& warnings.deep_view() == st.warnings
                    &&& errors.deep_view() == st.errors
                }),
            decreases low.len() - i,
        {
            let ghost st = val_fold(m, ll, i as int);
            let p = &low[i];
            proof {
                assert(p@ == ll[i as int]);
            }
            match self.mod_meta_data.get(p.as_str()) {
                None => {
                    let ghost wpre = warnings.deep_view();
                    let msg = concat3("Couldn't find metadata for ", p.as_str(), "");
                    warnings.push(msg);
                    proof {
                        reveal_strlit("");
                        assert("".view() =~= Seq::<char>::empty());
                        assert("Couldn't find metadata for "@ + p@ + ""@ =~= msg_missing(p@));
                        assert(warnings.deep_view() =~= wpre.push(msg_missing(p@)));
                        assert(wpre + seq![msg_missing(p@)] =~= wpre.push(msg_missing(p@)));
                        assert(val_fold(m, ll, i + 1) == val_step(m, st, ll[i as int]));
                    }
                },
                Some(md) => {
                    // record incompatibilities for the post-pass
                    let ghost ip_pre = pairs_of(inc_keys.deep_view(), inc_vals.deep_view());
                    if let Some(inc) = &md.incompatibleWith {
                        if !contains_str(&inc_keys, p.as_str()) {
                            let key = clone_string(p);
                            let vals = clone_string_vec(inc);
                            inc_keys.push(key);
                            inc_vals.push(vals);
                            proof {
                                assert(!pair_keys(ip_pre).contains(p@)) by {
                                    assert forall|k: int|
                                        0 <= k < ip_pre.len() implies #[trigger] ip_pre[k].0
                                        != p@ by {
                                        assert(inc_keys.deep_view().subrange(
                                            0,
                                            inc_keys.deep_view().len() - 1,
                                        )[k] == ip_pre[k].0);
                                    }
                                    if pair_keys(ip_pre).contains(p@) {
                                        let k = choose|k: int|
                                            0 <= k < ip_pre.len() && pair_keys(ip_pre)[k] == p@;
                                        assert(ip_pre[k].0 == p@);
                                    }
                                }
                                assert(pairs_of(inc_keys.deep_view(), inc_vals.deep_view())
                                    =~= ip_pre.push((p@, opt_ids(md.incompatibleWith))));
                            }
                        } else {
                            proof {
                                assert(pair_keys(ip_pre).contains(p@)) by {
                                    let k = choose|k: int|
                                        0 <= k < inc_keys.deep_view().len()
                                            && inc_keys.deep_view()[k] == p@;
                                    assert(pair_keys(ip_pre)[k] == p@);
                                }
                            }
                        }
                    }
                    // hard dependencies must already be loaded
                    let ghost es_pre = errors.deep_view();
                    if let Some(ds) = &md.modDependencies {
                        let mut k: usize = 0;
                        proof {
                            assert(ds@.subrange(0, 0) =~= Seq::empty());
                            assert(errors.deep_view() =~= es_pre + dep_errs(
                                p@,
                                st.loaded,
                                ds@.subrange(0, 0),
                            ));
                        }
                        while k < ds.len()
                            invariant
                                k <= ds.len(),
                                p@ == ll[i as int],
                                st.loaded == loaded.deep_view(),
                                loaded.deep_view() == st.loaded,
                                errors.deep_view() == es_pre + dep_errs(
                                    p@,
                                    st.loaded,
                                    ds@.subrange(0, k as int),
                                ),
                            decreases ds.len() - k,
                        {
                            let ghost epre2 = errors.deep_view();
                            if let Some(dpid) = &ds[k].packageId {
                                let dl = to_lowercase(dpid.as_str());
                                if !contains_str(&loaded, dl.as_str()) {
                                    let msg = concat3(p.as_str(), " requires ", dpid.as_str());
                                    errors.push(msg);
                                    proof {
                                        assert(errors.deep_view() =~= epre2.push(
                                            msg_requires(p@, dpid@),
                                        ));
                                    }
                                }
                            }
                            proof {
                                let sub1 = ds@.subrange(0, k + 1);
                                assert(sub1.drop_last() =~= ds@.subrange(0, k as int));
                                assert(sub1.last() == ds@[k as int]);
                                match ds@[k as int].packageId {
                                    Some(d) => {
                                        if !st.loaded.contains(lower_of(d@)) {
                                            assert(errors.deep_view() =~= epre2 + seq![
                                                msg_requires(p@, d@),
                                            ]);
                                        } else {
                                            assert(errors.deep_view() =~= epre2);
                                        }
                                        assert(errors.deep_view() =~= es_pre + dep_errs(
                                            p@,
                                            st.loaded,
                                            sub1,
                                        ));
                                    },
                                    None => {
                                        assert(errors.deep_view() =~= es_pre + dep_errs(
                                            p@,
                                            st.loaded,
                                            sub1,
                                        ));
                                    },
                                }
                            }
                            k = k + 1;
                        }
                        proof {
                            assert(ds@.subrange(0, ds@.len() as int) =~= ds@);
                        }
                    }
                    // loadBefore targets that are already loaded are too late
                    let ghost ws_pre = warnings.deep_view();
                    if let Some(lbs) = &md.loadBefore {
                        let mut k: usize = 0;
                        proof {
                            assert(lbs.deep_view().subrange(0, 0) =~= Seq::empty());
                            assert(warnings.deep_view() =~= ws_pre + lb_warns(
                                p@,
                                st.loaded,
                                lbs.deep_view().subrange(0, 0),
                            ));
                        }
                        while k < lbs.len()
                            invariant
                                k <= lbs.len(),
                                p@ == ll[i as int],
                                st.loaded == loaded.deep_view(),
                                lbs.deep_view().len() == lbs.len(),
                                warnings.deep_view() == ws_pre + lb_warns(
                                    p@,
                                    st.loaded,
                                    lbs.deep_view().subrange(0, k as int),
                                ),
                            decreases lbs.len() - k,
                        {
                            let ghost wpre2 = warnings.deep_view();
                            if contains_str(&loaded, lbs[k].as_str()) {
                                let msg = concat3(
                                    p.as_str(),
                                    " should be loaded before ",
                                    lbs[k].as_str(),
                                );
                                warnings.push(msg);
                                proof {
                                    assert(warnings.deep_view() =~= wpre2.push(
                                        msg_before(p@, lbs.deep_view()[k as int]),
                                    ));
                                }
                            }
                            proof {
                                let sub1 = lbs.deep_view().subrange(0, k + 1);
                                assert(sub1.drop_last() =~= lbs.deep_view().subrange(0, k as int));
                                assert(sub1.last() == lbs.deep_view()[k as int]);
                                assert(warnings.deep_view() =~= ws_pre + lb_warns(
                                    p@,
                                    st.loaded,
                                    sub1,
                                ));
                            }
                            k = k + 1;
                        }
                        proof {
                            assert(lbs.deep_view().subrange(0, lbs.deep_view().len() as int)
                                =~= lbs.deep_view());
                        }
                    }
                    // earlier mods that recorded a loadAfter naming this one
                    let ghost ws_mid = warnings.deep_view();
                    let ghost ap = pairs_of(after_keys.deep_view(), after_vals.deep_view());
                    let mut k: usize = 0;
                    proof {
                        assert(ap.subrange(0, 0) =~= Seq::empty());
                        assert(warnings.deep_view() =~= ws_mid + after_warns(
                            p@,
                            ap.subrange(0, 0),
                        ));
                    }
                    while k < after_keys.len()
                        invariant
                            k <= after_keys.len(),
                            p@ == ll[i as int],
                            after_keys.len() == after_vals.len(),
                            ap == pairs_of(after_keys.deep_view(), after_vals.deep_view()),
                            ap.len() == after_keys.len(),
                            warnings.deep_view() == ws_mid + after_warns(
                                p@,
                                ap.subrange(0, k as int),
                            ),
                        decreases after_keys.len() - k,
                    {
                        let ghost wpre2 = warnings.deep_view();
                        if contains_str(&after_vals[k], p.as_str()) {
                            let msg = concat3(
                                after_keys[k].as_str(),
                                " should be loaded after ",
                                p.as_str(),
                            );
                            warnings.push(msg);
                            proof {
                                assert(ap[k as int].1 == after_vals[k as int].deep_view());
                                assert(ap[k as int].0 == after_keys.deep_view()[k as int]);
                                assert(warnings.deep_view() =~= wpre2.push(
                                    msg_after(ap[k as int].0, p@),
                                ));
                            }
                        } else {
                            proof {
                                assert(ap[k as int].1 == after_vals[k as int].deep_view());
                            }
                        }
                        proof {
                            let sub1 = ap.subrange(0, k + 1);
                            assert(sub1.drop_last() =~= ap.subrange(0, k as int));
                            assert(sub1.last() == ap[k as int]);
                            assert(warnings.deep_view() =~= ws_mid + after_warns(p@, sub1));
                        }
                        k = k + 1;
                    }
                    proof {
                        assert(ap.subrange(0, ap.len() as int) =~= ap);
                    }
                    // record this mod's own loadAfter set
                    let ghost ap_pre = pairs_of(after_keys.deep_view(), after_vals.deep_view());
                    if let Some(la) = &md.loadAfter {
                        if !contains_str(&after_keys, p.as_str()) {
                            let key = clone_string(p);
                            let vals = clone_string_vec(la);
                            after_keys.push(key);
                            after_vals.push(vals);
                            proof {
                                assert(!pair_keys(ap_pre).contains(p@)) by {
                                    if pair_keys(ap_pre).contains(p@) {
                                        let k = choose|k: int|
                                            0 <= k < ap_pre.len() && pair_keys(ap_pre)[k] == p@;
                                        assert(ap_pre[k].0 == p@);
                                    }
                                }
                                assert(pairs_of(after_keys.deep_view(), after_vals.deep_view())
                                    =~= ap_pre.push((p@, opt_ids(md.loadAfter))));
                            }
                        } else {
                            proof {
                                assert(pair_keys(ap_pre).contains(p@)) by {
                                    let k = choose|k: int|
                                        0 <= k < after_keys.deep_view().len()
                                            && after_keys.deep_view()[k] == p@;
                                    assert(pair_keys(ap_pre)[k] == p@);
                                }
                            }
                        }
                    }
                    // finally mark this mod as loaded
                    let ghost ld_pre = loaded.deep_view();
                    let lp = clone_string(p);
                    loaded.push(lp);
                    proof {
                        assert(loaded.deep_view() =~= ld_pre.push(p@));
                        assert(md == m[ll[i as int]]);
                        assert(val_fold(m, ll, i + 1) == val_step(m, st, ll[i as int]));
                    }
                },
            }
            i = i + 1;
        }
        // post-pass: incompatibilities against the fully loaded set
        let ghost stf = val_fold(m, ll, ll.len() as int);
        let ghost ipf = pairs_of(inc_keys.deep_view(), inc_vals.deep_view());
        let ghost es_base = errors.deep_view();
        let mut k: usize = 0;
        proof {
            assert(errors.deep_view() =~= es_base + inc_errs(ipf, stf.loaded, 0));
        }
        while k < inc_keys.len()
            invariant
                k <= inc_keys.len(),
                inc_keys.len() == inc_vals.len(),
                ipf == pairs_of(inc_keys.deep_view(), inc_vals.deep_view()),
                ipf.len() == inc_keys.len(),
                stf.loaded == loaded.deep_view(),
                errors.deep_view() == es_base + inc_errs(ipf, stf.loaded, k as int),
            decreases inc_keys.len() - k,
        {
            let ghost base2 = errors.deep_view();
            let ghost inc_k = ipf[k as int].1;
            let mut t: usize = 0;
            proof {
                assert(ipf[k as int].1 == inc_vals[k as int].deep_view());
                assert(ipf[k as int].0 == inc_keys.deep_view()[k as int]);
                assert(inc_k.subrange(0, 0) =~= Seq::empty());
                assert(errors.deep_view() =~= base2 + inc_errs_one(
                    ipf[k as int].0,
                    inc_k.subrange(0, 0),
                    stf.loaded,
                ));
            }
            while t < inc_vals[k].len()
                invariant
                    k < inc_keys.len(),
                    t <= inc_vals[k as int].len(),
                    inc_keys.len() == inc_vals.len(),
                    ipf == pairs_of(inc_keys.deep_view(), inc_vals.deep_view()),
                    ipf.len() == inc_keys.len(),
                    inc_k == ipf[k as int].1,
                    inc_k == inc_vals[k as int].deep_view(),
                    inc_k.len() == inc_vals[k as int].len(),
                    stf.loaded == loaded.deep_view(),
                    errors.deep_view() == base2 + inc_errs_one(
                        ipf[k as int].0,
                        inc_k.subrange(0, t as int),
                        stf.loaded,
                    ),
                decreases inc_vals[k as int].len() - t,
            {
                let ghost epre2 = errors.deep_view();
                if contains_str(&loaded, inc_vals[k][t].as_str()) {
                    let msg = concat3(
                        inc_keys[k].as_str(),
                        " is incompatible with ",
                        inc_vals[k][t].as_str(),
                    );
                    errors.push(msg);
                    proof {
                        assert(errors.deep_view() =~= epre2.push(
                            msg_incompat(ipf[k as int].0, inc_k[t as int]),
                        ));
                    }
                }
                proof {
                    let sub1 = inc_k.subrange(0, t + 1);
                    assert(sub1.drop_last() =~= inc_k.subrange(0, t as int));
                    assert(sub1.last() == inc_k[t as int]);
                    assert(errors.deep_view() =~= base2 + inc_errs_one(
                        ipf[k as int].0,
                        sub1,
                        stf.loaded,
                    ));
                }
                t = t + 1;
            }
            proof {
                assert(inc_k.subrange(0, inc_k.len() as int) =~= inc_k);
                assert(errors.deep_view() =~= es_base + inc_errs(ipf, stf.loaded, k + 1));
            }
            k = k + 1;
        }
        proof {
            assert(stf.incompat_pairs.len() as int == ipf.len());
        }
        // classify
        if errors.len() > 0 {
            ModListValidationResult::Failed { warnings, errors }
        } else if warnings.len() > 0 {
            ModListValidationResult::Warn { warnings }
        } else {
            ModListValidationResult::Clean
        }
    }
}

/// Pairs a key vector with a value vector, position by position.
pub open spec fn pairs_of(keys: Seq<Seq<char>>, vals: Seq<Seq<Seq<char>>>) -> Seq<
    (Seq<char>, Seq<Seq<char>>),
> {
    Seq::new(keys.len(), |i: int| (keys[i], vals[i]))
}

/// Clones a vector of strings, keeping its view.
pub fn clone_string_vec(v: &Vec<String>) -> (r: Vec<String>)
    ensures
        r.deep_view() == v.deep_view(),
{
    let mut r: Vec<String> = Vec::new();
    let mut i: usize = 0;
    proof {
        assert(r.deep_view() =~= v.deep_view().subrange(0, 0));
    }
    while i < v.len()
        invariant
            i <= v.len(),
            v.deep_view().len() == v.len(),
            r.deep_view() == v.deep_view().subrange(0, i as int),
        decreases v.len() - i,
    {
        let ghost pre = r.deep_view();
        let s = clone_string(&v[i]);
        r.push(s);
        proof {
            assert(r.deep_view() =~= pre.push(v.deep_view()[i as int]));
            assert(v.deep_view().subrange(0, i + 1) =~= v.deep_view().subrange(0, i as int).push(
                v.deep_view()[i as int],
            ));
        }
        i = i + 1;
    }
    proof {
        assert(v.deep_view().subrange(0, v.deep_view().len() as int) =~= v.deep_view());
    }
    r
}

} // verus!
