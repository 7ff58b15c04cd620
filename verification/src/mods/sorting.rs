//! Topological sorting of mod lists.
//!
//! [`sort`] computes a deterministic load order for a candidate list of
//! package identifiers: candidates are sorted lexicographically, a
//! predecessor graph ("must load after") is built from the metadata store,
//! and a depth-first, cycle-detecting topological sort produces the order.
//! The whole computation is mirrored by spec functions, so the result is
//! pinned exactly; the ordering and permutation laws stand in [`sort`]'s
//! own contract, and the determinism and cycle-soundness laws are the
//! public proof functions at the end of this module.

use crate::helpers::strings::{
    clone_string, lemma_lex_le_total, lemma_lex_leq_total_ordering, lemma_sorted_le, lex_le,
    lex_leq, sort_strings, str_eq,
};
use crate::mods::meta_map::MetaMap;
use crate::mods::mod_meta_data::{dep_id_seq, opt_ids, ModMetaData};
use vstd::multiset::Multiset;
use vstd::prelude::*;
use vstd::seq_lib::lemma_sorted_unique;

verus! {

/// A fatal condition met while computing a load order.
#[derive(Debug, Clone, Copy, PartialEq, Eq, Structural)]
pub enum SortError {
    /// A circular dependency or ordering chain makes every order invalid.
    CyclicError,
    /// A candidate has no metadata record, so it cannot be placed.
    MissingData,
}

/// Some candidate has no record in the store.
pub open spec fn missing_some(c: Seq<Seq<char>>, m: Map<Seq<char>, ModMetaData>) -> bool {
    exists|i: int| 0 <= i < c.len() && !m.contains_key(c[i])
}

/// Collapses runs of equal neighbours; on a sorted sequence this keeps
/// exactly one occurrence of each identifier, in order.
pub open spec fn dedup_spec(s: Seq<Seq<char>>) -> Seq<Seq<char>>
    decreases s.len(),
{
    if s.len() == 0 {
        Seq::empty()
    } else {
        let r = dedup_spec(s.drop_last());
        if r.len() > 0 && r.last() == s.last() {
            r
        } else {
            r.push(s.last())
        }
    }
}

/// The index of the first occurrence of `x` in `u`, if any.
pub open spec fn idx_of(u: Seq<Seq<char>>, x: Seq<char>) -> Option<int>
    decreases u.len(),
{
    if u.len() == 0 {
        None
    } else if u[0] == x {
        Some(0)
    } else {
        match idx_of(u.drop_first(), x) {
            Some(k) => Some(k + 1),
            None => None,
        }
    }
}

pub proof fn lemma_idx_of(u: Seq<Seq<char>>, x: Seq<char>)
    ensures
        match idx_of(u, x) {
            Some(k) => 0 <= k < u.len() && u[k] == x && forall|k2: int| 0 <= k2 < k ==> u[k2] != x,
            None => !u.contains(x),
        },
    decreases u.len(),
{
    if u.len() == 0 {
    } else if u[0] == x {
    } else {
        lemma_idx_of(u.drop_first(), x);
        match idx_of(u.drop_first(), x) {
            Some(k) => {
                assert(u.drop_first()[k] == u[k + 1]);
                assert(forall|k2: int| 1 <= k2 < k + 1 ==> u[k2] == u.drop_first()[k2 - 1]);
            },
            None => {
                if u.contains(x) {
                    let i = choose|i: int| 0 <= i < u.len() && u[i] == x;
                    assert(u.drop_first()[i - 1] == x);
                    assert(u.drop_first().contains(x));
                }
            },
        }
    }
}

/// Finds the first position of `x` in `u`, matching [`idx_of`].
fn index_of(u: &Vec<String>, x: &str) -> (r: Option<usize>)
    ensures
        match r {
            Some(k) => idx_of(u.deep_view(), x@) == Some(k as int),
            None => idx_of(u.deep_view(), x@) is None,
        },
{
    let ghost dv = u.deep_view();
    let mut i: usize = 0;
    while i < u.len()
        invariant
            i <= u.len(),
            dv == u.deep_view(),
            dv.len() == u.len(),
            forall|k: int| 0 <= k < i ==> dv[k] != x@,
        decreases u.len() - i,
    {
        if str_eq(u[i].as_str(), x) {
            proof {
                lemma_idx_of(dv, x@);
                match idx_of(dv, x@) {
                    Some(k) => {
                        if k < i {
                        } else if k > i {
                            assert(dv[i as int] != x@);
                        }
                    },
                    None => {
                        assert(dv.contains(x@)) by {
                            assert(dv[i as int] == x@);
                        }
                    },
                }
            }
            return Some(i);
        }
        i = i + 1;
    }
    proof {
        lemma_idx_of(dv, x@);
        if idx_of(dv, x@) is Some {
            let k = idx_of(dv, x@)->Some_0;
            assert(dv[k] == x@);
        }
    }
    None
}

/// The indices in `u` of those identifiers in `ids` that name a candidate,
/// in order; identifiers not in `u` are ignored.
pub open spec fn idx_list(ids: Seq<Seq<char>>, u: Seq<Seq<char>>) -> Seq<int>
    decreases ids.len(),
{
    if ids.len() == 0 {
        Seq::empty()
    } else {
        idx_list(ids.drop_last(), u) + match idx_of(u, ids.last()) {
            Some(k) => seq![k],
            None => Seq::empty(),
        }
    }
}

pub proof fn lemma_idx_list_concat(a: Seq<Seq<char>>, b: Seq<Seq<char>>, u: Seq<Seq<char>>)
    ensures
        idx_list(a + b, u) == idx_list(a, u) + idx_list(b, u),
    decreases b.len(),
{
    if b.len() == 0 {
        assert(a + b =~= a);
        assert(idx_list(a, u) + idx_list(b, u) =~= idx_list(a, u));
    } else {
        lemma_idx_list_concat(a, b.drop_last(), u);
        assert((a + b).drop_last() =~= a + b.drop_last());
        assert((a + b).last() == b.last());
        assert(idx_list(a, u) + idx_list(b, u) =~= idx_list(a, u) + idx_list(b.drop_last(), u)
            + match idx_of(u, b.last()) {
            Some(k) => seq![k],
            None => Seq::empty(),
        });
    }
}

/// One `j` for every entry of `lst` equal to `x`, in order.
pub open spec fn tgt_matches(lst: Seq<Seq<char>>, x: Seq<char>, j: int) -> Seq<int>
    decreases lst.len(),
{
    if lst.len() == 0 {
        Seq::empty()
    } else {
        tgt_matches(lst.drop_last(), x, j) + if lst.last() == x {
            seq![j]
        } else {
            Seq::empty()
        }
    }
}

pub proof fn lemma_tgt_matches_concat(a: Seq<Seq<char>>, b: Seq<Seq<char>>, x: Seq<char>, j: int)
    ensures
        tgt_matches(a + b, x, j) == tgt_matches(a, x, j) + tgt_matches(b, x, j),
    decreases b.len(),
{
    if b.len() == 0 {
        assert(a + b =~= a);
        assert(tgt_matches(a, x, j) + tgt_matches(b, x, j) =~= tgt_matches(a, x, j));
    } else {
        lemma_tgt_matches_concat(a, b.drop_last(), x, j);
        assert((a + b).drop_last() =~= a + b.drop_last());
        assert(tgt_matches(a, x, j) + tgt_matches(b, x, j) =~= tgt_matches(a, x, j)
            + tgt_matches(b.drop_last(), x, j) + if b.last() == x {
            seq![j]
        } else {
            Seq::empty()
        });
    }
}

/// The predecessors of candidate `i` contributed by the `loadBefore` /
/// `forceLoadBefore` declarations of candidates `0 .. upto`.
pub open spec fn before_row(
    u: Seq<Seq<char>>,
    m: Map<Seq<char>, ModMetaData>,
    i: int,
    upto: int,
) -> Seq<int>
    decreases upto,
{
    if upto <= 0 {
        Seq::empty()
    } else {
        before_row(u, m, i, upto - 1) + if upto - 1 == i {
            Seq::empty()
        } else {
            tgt_matches(m[u[upto - 1]].before_target_ids(), u[i], upto - 1)
        }
    }
}

/// The full predecessor row of candidate `i`: its own hard-dependency and
/// load-after declarations, then every other candidate's load-before
/// declarations that name it.
pub open spec fn pred_row(u: Seq<Seq<char>>, m: Map<Seq<char>, ModMetaData>, i: int) -> Seq<int> {
    idx_list(m[u[i]].after_source_ids(), u) + before_row(u, m, i, u.len() as int)
}

/// The predecessor graph over candidate indices.
pub open spec fn preds_spec(u: Seq<Seq<char>>, m: Map<Seq<char>, ModMetaData>) -> Seq<Seq<int>> {
    Seq::new(u.len(), |i: int| pred_row(u, m, i))
}

/// The integer view of an executable row.
pub open spec fn row_ints(r: Seq<usize>) -> Seq<int> {
    Seq::new(r.len(), |k: int| r[k] as int)
}

/// The integer view of the executable graph.
pub open spec fn rows_view(p: Seq<Vec<usize>>) -> Seq<Seq<int>> {
    Seq::new(p.len(), |i: int| row_ints(p[i]@))
}

/// Keeps the first occurrence of every identifier of the (sorted) input.
fn dedup_sorted(sorted: &Vec<String>) -> (u: Vec<String>)
    ensures
        u.deep_view() == dedup_spec(sorted.deep_view()),
{
    let ghost dv = sorted.deep_view();
    let mut u: Vec<String> = Vec::new();
    let mut i: usize = 0;
    proof {
        assert(dv.subrange(0, 0) =~= Seq::empty());
        assert(u.deep_view() =~= dedup_spec(dv.subrange(0, 0)));
    }
    while i < sorted.len()
        invariant
            i <= sorted.len(),
            dv == sorted.deep_view(),
            dv.len() == sorted.len(),
            u.deep_view() == dedup_spec(dv.subrange(0, i as int)),
        decreases sorted.len() - i,
    {
        let ghost pre = u.deep_view();
        let push_new = if u.len() == 0 {
            true
        } else {
            !str_eq(u[u.len() - 1].as_str(), sorted[i].as_str())
        };
        if push_new {
            let s = clone_string(&sorted[i]);
            u.push(s);
            proof {
                assert(u.deep_view() =~= pre.push(dv[i as int]));
            }
        }
        proof {
            let sub1 = dv.subrange(0, i + 1);
            assert(sub1.drop_last() =~= dv.subrange(0, i as int));
            assert(sub1.last() == dv[i as int]);
            if !push_new {
                assert(pre.last() == dv[i as int]);
            }
        }
        i = i + 1;
    }
    proof {
        assert(dv.subrange(0, dv.len() as int) =~= dv);
    }
    u
}

/// Builds the predecessor graph for the deduplicated, sorted candidate
/// list `u`; fails with [`SortError::MissingData`] exactly when some
/// candidate has no record in the store.
fn build_deps(u: &Vec<String>, store: &MetaMap) -> (r: Result<Vec<Vec<usize>>, SortError>)
    ensures
        r is Err <==> missing_some(u.deep_view(), store@),
        r is Err ==> r->Err_0 == SortError::MissingData,
        r is Ok ==> rows_view(r->Ok_0@) == preds_spec(u.deep_view(), store@),
{
    let ghost dv = u.deep_view();
    let ghost m = store@;
    let n = u.len();
    // Every candidate must have a metadata record.
    let mut i: usize = 0;
    while i < n
        invariant
            i <= n,
            dv == u.deep_view(),
            m == store@,
            n == u.len(),
            dv.len() == n,
            forall|k: int| 0 <= k < i ==> m.contains_key(#[trigger] dv[k]),
        decreases n - i,
    {
        if store.get(u[i].as_str()).is_none() {
            proof {
                assert(!m.contains_key(dv[i as int]));
            }
            return Err(SortError::MissingData);
        }
        i = i + 1;
    }
    let mut preds: Vec<Vec<usize>> = Vec::new();
    let mut i: usize = 0;
    while i < n
        invariant
            i <= n,
            dv == u.deep_view(),
            m == store@,
            n == u.len(),
            dv.len() == n,
            forall|k: int| 0 <= k < n ==> m.contains_key(#[trigger] dv[k]),
            preds@.len() == i,
            forall|k: int| 0 <= k < i ==> row_ints(#[trigger] preds@[k]@) == pred_row(dv, m, k),
        decreases n - i,
    {
        let md = match store.get(u[i].as_str()) {
            Some(md) => md,
            None => {
                proof {
                    assert(false);
                }
                return Err(SortError::MissingData);
            },
        };
        let mut row: Vec<usize> = Vec::new();
        // Own declarations: hard dependencies, loadAfter, forceLoadAfter.
        if let Some(ds) = &md.modDependencies {
            let mut k: usize = 0;
            proof {
                assert(ds@.subrange(0, 0) =~= Seq::empty());
                assert(row_ints(row@) =~= idx_list(dep_id_seq(ds@.subrange(0, 0)), dv));
            }
            while k < ds.len()
                invariant
                    k <= ds.len(),
                    dv == u.deep_view(),
                    dv.len() == n,
                    row_ints(row@) == idx_list(dep_id_seq(ds@.subrange(0, k as int)), dv),
                decreases ds.len() - k,
            {
                let ghost pre = row_ints(row@);
                let ghost ids_pre = dep_id_seq(ds@.subrange(0, k as int));
                if let Some(pid) = &ds[k].packageId {
                    if let Some(ix) = index_of(u, pid.as_str()) {
                        row.push(ix);
                        proof {
                            assert(row_ints(row@) =~= pre.push(ix as int));
                        }
                    }
                }
                proof {
                    let sub1 = ds@.subrange(0, k + 1);
                    assert(sub1.drop_last() =~= ds@.subrange(0, k as int));
                    assert(sub1.last() == ds@[k as int]);
                    let ids1 = dep_id_seq(sub1);
                    match ds@[k as int].packageId {
                        Some(p) => {
                            assert(ids1 =~= ids_pre + seq![p@]);
                            assert(ids1.drop_last() =~= ids_pre);
                            lemma_idx_list_concat(ids_pre, seq![p@], dv);
                            assert(seq![p@].drop_last() =~= Seq::<Seq<char>>::empty());
                            assert(seq![p@].last() == p@);
                            assert(idx_list(Seq::<Seq<char>>::empty(), dv) =~= Seq::<int>::empty());
                            match idx_of(dv, p@) {
                                Some(ix) => {
                                    assert(idx_list(seq![p@], dv) =~= seq![ix as int]);
                                    assert(row_ints(row@) =~= idx_list(ids1, dv));
                                },
                                None => {
                                    assert(idx_list(seq![p@], dv) =~= Seq::<int>::empty());
                                    assert(row_ints(row@) =~= idx_list(ids1, dv));
                                },
                            }
                        },
                        None => {
                            assert(ids1 =~= ids_pre);
                            assert(row_ints(row@) =~= idx_list(ids1, dv));
                        },
                    }
                }
                k = k + 1;
            }
            proof {
                assert(ds@.subrange(0, ds@.len() as int) =~= ds@);
            }
        }
        proof {
            let deps_ids = if md.modDependencies is Some {
                dep_id_seq(md.modDependencies->Some_0@)
            } else {
                Seq::<Seq<char>>::empty()
            };
            assert(row_ints(row@) == idx_list(deps_ids, dv)) by {
                if md.modDependencies is None {
                    assert(row_ints(row@) =~= Seq::<int>::empty());
                }
            }
        }
        let ghost deps_done = row_ints(row@);
        if let Some(la) = &md.loadAfter {
            push_candidate_ids(u, la, &mut row);
        }
        proof {
            let deps_ids = if md.modDependencies is Some {
                dep_id_seq(md.modDependencies->Some_0@)
            } else {
                Seq::<Seq<char>>::empty()
            };
            let la_ids = opt_ids(md.loadAfter);
            assert(row_ints(row@) == idx_list(deps_ids + la_ids, dv)) by {
                lemma_idx_list_concat(deps_ids, la_ids, dv);
                if md.loadAfter is None {
                    assert(la_ids =~= Seq::<Seq<char>>::empty());
                    assert(idx_list(la_ids, dv) =~= Seq::<int>::empty());
                    assert(row_ints(row@) =~= deps_done + idx_list(la_ids, dv));
                }
            }
        }
        let ghost la_done = row_ints(row@);
        if let Some(fla) = &md.forceLoadAfter {
            push_candidate_ids(u, fla, &mut row);
        }
        proof {
            let deps_ids = if md.modDependencies is Some {
                dep_id_seq(md.modDependencies->Some_0@)
            } else {
                Seq::<Seq<char>>::empty()
            };
            let la_ids = opt_ids(md.loadAfter);
            let fla_ids = opt_ids(md.forceLoadAfter);
            assert(md.after_source_ids() == deps_ids + la_ids + fla_ids);
            assert(row_ints(row@) == idx_list(md.after_source_ids(), dv)) by {
                lemma_idx_list_concat(deps_ids + la_ids, fla_ids, dv);
                if md.forceLoadAfter is None {
                    assert(fla_ids =~= Seq::<Seq<char>>::empty());
                    assert(idx_list(fla_ids, dv) =~= Seq::<int>::empty());
                    assert(row_ints(row@) =~= la_done + idx_list(fla_ids, dv));
                }
            }
            assert(md == m[dv[i as int]]);
        }
        // Other candidates' loadBefore / forceLoadBefore declarations.
        let mut j: usize = 0;
        proof {
            assert(row_ints(row@) =~= idx_list(m[dv[i as int]].after_source_ids(), dv)
                + before_row(dv, m, i as int, 0));
        }
        while j < n
            invariant
                j <= n,
                i < n,
                dv == u.deep_view(),
                m == store@,
                n == u.len(),
                dv.len() == n,
                forall|k: int| 0 <= k < n ==> m.contains_key(#[trigger] dv[k]),
                row_ints(row@) == idx_list(m[dv[i as int]].after_source_ids(), dv) + before_row(
                    dv,
                    m,
                    i as int,
                    j as int,
                ),
            decreases n - j,
        {
            let ghost before_pre = before_row(dv, m, i as int, j as int);
            if j != i {
                let mdj = match store.get(u[j].as_str()) {
                    Some(mdj) => mdj,
                    None => {
                        proof {
                            assert(false);
                        }
                        return Err(SortError::MissingData);
                    },
                };
                let ghost row_pre = row_ints(row@);
                if let Some(lb) = &mdj.loadBefore {
                    push_matching_targets(lb, &u[i], j, &mut row);
                }
                proof {
                    let lb_ids = opt_ids(mdj.loadBefore);
                    assert(row_ints(row@) == row_pre + tgt_matches(lb_ids, dv[i as int], j as int))
                        by {
                        if mdj.loadBefore is None {
                            assert(lb_ids =~= Seq::<Seq<char>>::empty());
                            assert(row_ints(row@) =~= row_pre + tgt_matches(
                                lb_ids,
                                dv[i as int],
                                j as int,
                            ));
                        } else {
                            assert(dv[i as int] == u@[i as int]@);
                        }
                    }
                }
                let ghost lb_done = row_ints(row@);
                if let Some(flb) = &mdj.forceLoadBefore {
                    push_matching_targets(flb, &u[i], j, &mut row);
                }
                proof {
                    let lb_ids = opt_ids(mdj.loadBefore);
                    let flb_ids = opt_ids(mdj.forceLoadBefore);
                    assert(row_ints(row@) == lb_done + tgt_matches(flb_ids, dv[i as int], j as int))
                        by {
                        if mdj.forceLoadBefore is None {
                            assert(flb_ids =~= Seq::<Seq<char>>::empty());
                            assert(row_ints(row@) =~= lb_done + tgt_matches(
                                flb_ids,
                                dv[i as int],
                                j as int,
                            ));
                        } else {
                            assert(dv[i as int] == u@[i as int]@);
                        }
                    }
                    assert(mdj == m[dv[j as int]]);
                    assert(mdj.before_target_ids() == lb_ids + flb_ids);
                    lemma_tgt_matches_concat(lb_ids, flb_ids, dv[i as int], j as int);
                    assert(row_ints(row@) =~= row_pre + tgt_matches(
                        mdj.before_target_ids(),
                        dv[i as int],
                        j as int,
                    ));
                }
            }
            proof {
                assert(before_row(dv, m, i as int, j + 1) == before_pre + if j == i {
                    Seq::<int>::empty()
                } else {
                    tgt_matches(m[dv[j as int]].before_target_ids(), dv[i as int], j as int)
                });
                if j == i {
                    assert(row_ints(row@) =~= idx_list(m[dv[i as int]].after_source_ids(), dv)
                        + before_row(dv, m, i as int, j + 1));
                } else {
                    assert(row_ints(row@) =~= idx_list(m[dv[i as int]].after_source_ids(), dv)
                        + before_row(dv, m, i as int, j + 1));
                }
            }
            j = j + 1;
        }
        preds.push(row);
        i = i + 1;
    }
    proof {
        assert(rows_view(preds@) =~= preds_spec(dv, m));
    }
    Ok(preds)
}

/// Appends the candidate indices of the ids in `ids`, in order.
fn push_candidate_ids(u: &Vec<String>, ids: &Vec<String>, row: &mut Vec<usize>)
    ensures
        row_ints(final(row)@) == row_ints(old(row)@) + idx_list(ids.deep_view(), u.deep_view()),
{
    let ghost dv = u.deep_view();
    let ghost ids_dv = ids.deep_view();
    let ghost base = row_ints(old(row)@);
    let mut k: usize = 0;
    proof {
        assert(ids_dv.subrange(0, 0) =~= Seq::empty());
        assert(row_ints(row@) =~= base + idx_list(ids_dv.subrange(0, 0), dv));
    }
    while k < ids.len()
        invariant
            k <= ids.len(),
            dv == u.deep_view(),
            ids_dv == ids.deep_view(),
            ids_dv.len() == ids.len(),
            row_ints(row@) == base + idx_list(ids_dv.subrange(0, k as int), dv),
        decreases ids.len() - k,
    {
        let ghost pre = row_ints(row@);
        if let Some(ix) = index_of(u, ids[k].as_str()) {
            row.push(ix);
            proof {
                assert(row_ints(row@) =~= pre.push(ix as int));
            }
        }
        proof {
            let sub1 = ids_dv.subrange(0, k + 1);
            assert(sub1.drop_last() =~= ids_dv.subrange(0, k as int));
            assert(sub1.last() == ids_dv[k as int]);
            match idx_of(dv, ids_dv[k as int]) {
                Some(ix) => {
                    assert(row_ints(row@) =~= base + idx_list(sub1, dv));
                },
                None => {
                    assert(row_ints(row@) =~= base + idx_list(sub1, dv));
                },
            }
        }
        k = k + 1;
    }
    proof {
        assert(ids_dv.subrange(0, ids_dv.len() as int) =~= ids_dv);
    }
}

/// Appends `j` once for every entry of `lst` equal to `x`, in order.
fn push_matching_targets(lst: &Vec<String>, x: &String, j: usize, row: &mut Vec<usize>)
    ensures
        row_ints(final(row)@) == row_ints(old(row)@) + tgt_matches(lst.deep_view(), x@, j as int),
{
    let ghost lst_dv = lst.deep_view();
    let ghost base = row_ints(old(row)@);
    let mut k: usize = 0;
    proof {
        assert(lst_dv.subrange(0, 0) =~= Seq::empty());
        assert(row_ints(row@) =~= base + tgt_matches(lst_dv.subrange(0, 0), x@, j as int));
    }
    while k < lst.len()
        invariant
            k <= lst.len(),
            lst_dv == lst.deep_view(),
            lst_dv.len() == lst.len(),
            row_ints(row@) == base + tgt_matches(lst_dv.subrange(0, k as int), x@, j as int),
        decreases lst.len() - k,
    {
        let ghost pre = row_ints(row@);
        if str_eq(lst[k].as_str(), x.as_str()) {
            row.push(j);
            proof {
                assert(row_ints(row@) =~= pre.push(j as int));
            }
        }
        proof {
            let sub1 = lst_dv.subrange(0, k + 1);
            assert(sub1.drop_last() =~= lst_dv.subrange(0, k as int));
            assert(sub1.last() == lst_dv[k as int]);
            assert(row_ints(row@) =~= base + tgt_matches(sub1, x@, j as int));
        }
        k = k + 1;
    }
    proof {
        assert(lst_dv.subrange(0, lst_dv.len() as int) =~= lst_dv);
    }
}


/// Outcome of the mirrored depth-first search: `None` means the fuel ran
/// out, `Some(None)` means a cycle was found, and `Some(Some((marks, out)))`
/// is the updated state.
pub type DfsRes = Option<Option<(Seq<u8>, Seq<int>)>>;

/// The number of unvisited entries (mark `0`).
pub open spec fn cnt0(s: Seq<u8>) -> int
    decreases s.len(),
{
    if s.len() == 0 {
        0
    } else {
        cnt0(s.drop_last()) + if s.last() == 0u8 {
            1int
        } else {
            0int
        }
    }
}

pub proof fn lemma_cnt0_bounds(s: Seq<u8>)
    ensures
        0 <= cnt0(s) <= s.len(),
    decreases s.len(),
{
    if s.len() > 0 {
        lemma_cnt0_bounds(s.drop_last());
    }
}

pub proof fn lemma_cnt0_update(s: Seq<u8>, i: int, v: u8)
    requires
        0 <= i < s.len(),
    ensures
        cnt0(s.update(i, v)) == cnt0(s) - (if s[i] == 0u8 {
            1int
        } else {
            0int
        }) + (if v == 0u8 {
            1int
        } else {
            0int
        }),
    decreases s.len(),
{
    let t = s.update(i, v);
    if i == s.len() - 1 {
        assert(t.drop_last() =~= s.drop_last());
    } else {
        lemma_cnt0_update(s.drop_last(), i, v);
        assert(t.drop_last() =~= s.drop_last().update(i, v));
        assert(t.last() == s.last());
    }
}

/// Mirror of one depth-first visit of node `i`: a done node is a no-op, an
/// in-progress node is a cycle, otherwise the node is marked in progress,
/// its predecessors are visited in row order, and the node is marked done
/// and appended to the output.
pub open spec fn visit_s(g: Seq<Seq<int>>, marks: Seq<u8>, out: Seq<int>, i: int, fuel: nat) -> DfsRes
    decreases fuel, 0int,
{
    if 0 <= i < marks.len() && marks[i] == 2u8 {
        Some(Some((marks, out)))
    } else if 0 <= i < marks.len() && marks[i] == 1u8 {
        Some(None)
    } else if fuel == 0 {
        None
    } else {
        match visit_row(g, marks.update(i, 1u8), out, i, 0, (fuel - 1) as nat) {
            Some(Some((m2, o2))) => Some(Some((m2.update(i, 2u8), o2.push(i)))),
            other => other,
        }
    }
}

/// Mirror of the walk over the predecessor row of node `i`, from entry `k`.
pub open spec fn visit_row(
    g: Seq<Seq<int>>,
    marks: Seq<u8>,
    out: Seq<int>,
    i: int,
    k: int,
    fuel: nat,
) -> DfsRes
    decreases fuel, (if 0 <= i < g.len() { g[i].len() - k + 1 } else { 0int }),
{
    if !(0 <= i < g.len()) {
        Some(Some((marks, out)))
    } else if !(0 <= k < g[i].len()) {
        Some(Some((marks, out)))
    } else {
        match visit_s(g, marks, out, g[i][k], fuel) {
            Some(Some((m2, o2))) => visit_row(g, m2, o2, i, k + 1, fuel),
            other => other,
        }
    }
}

/// Mirror of the worklist loop: visit candidates `t, t+1, ...` in order.
pub open spec fn run_all(g: Seq<Seq<int>>, marks: Seq<u8>, out: Seq<int>, t: int, n: int) -> DfsRes
    decreases n - t,
{
    if t >= n {
        Some(Some((marks, out)))
    } else {
        match visit_s(g, marks, out, t, (n + 1) as nat) {
            Some(Some((m2, o2))) => run_all(g, m2, o2, t + 1, n),
            other => other,
        }
    }
}

/// The mirrored depth-first topological sort over the whole graph.
pub open spec fn dfs_spec(g: Seq<Seq<int>>, n: int) -> DfsRes {
    run_all(g, Seq::new(n as nat, |j: int| 0u8), Seq::empty(), 0, n)
}

/// The order component of [`dfs_spec`], when the search succeeds.
pub open spec fn dfs_ord(g: Seq<Seq<int>>, n: int) -> Option<Seq<int>> {
    match dfs_spec(g, n) {
        Some(Some((marks, ord))) => Some(ord),
        _ => None,
    }
}

/// Well-formed predecessor graph: every entry is a candidate index.
pub open spec fn wf_graph(g: Seq<Seq<int>>, n: int) -> bool {
    g.len() == n && forall|i: int, k: int|
        0 <= i < n && 0 <= k < g[i].len() ==> 0 <= #[trigger] g[i][k] < n
}

/// Marks vector with only the three valid states.
pub open spec fn wf_marks(marks: Seq<u8>, n: int) -> bool {
    marks.len() == n && forall|j: int|
        0 <= j < n ==> #[trigger] marks[j] == 0u8 || marks[j] == 1u8 || marks[j] == 2u8
}

/// One executable depth-first visit, mirroring [`visit_s`] exactly (for any
/// sufficient fuel).
fn visit(g: &Vec<Vec<usize>>, marks: &mut Vec<u8>, out: &mut Vec<usize>, i: usize) -> (r: Result<
    (),
    SortError,
>)
    requires
        wf_graph(rows_view(g@), g@.len() as int),
        wf_marks(old(marks)@, g@.len() as int),
        (i as int) < g@.len(),
    ensures
        wf_marks(final(marks)@, g@.len() as int),
        cnt0(final(marks)@) <= cnt0(old(marks)@),
        forall|j: int|
            0 <= j < g@.len() && final(marks)@[j] == 0u8 ==> (#[trigger] old(marks)@[j]) == 0u8,
        match r {
            Ok(()) => forall|f: nat|
                f > cnt0(old(marks)@) ==> visit_s(
                    rows_view(g@),
                    old(marks)@,
                    row_ints(old(out)@),
                    i as int,
                    f,
                ) == Some(Some((final(marks)@, row_ints(final(out)@)))),
            Err(e) => e == SortError::CyclicError && forall|f: nat|
                f > cnt0(old(marks)@) ==> visit_s(
                    rows_view(g@),
                    old(marks)@,
                    row_ints(old(out)@),
                    i as int,
                    f,
                ) == Some(None::<(Seq<u8>, Seq<int>)>),
        },
    decreases cnt0(old(marks)@),
{
    let ghost gv = rows_view(g@);
    let ghost n = g@.len() as int;
    let ghost m0 = marks@;
    let ghost o0 = row_ints(out@);
    proof {
        lemma_cnt0_bounds(m0);
    }
    let mk = marks[i];
    if mk == 2u8 {
        return Ok(());
    }
    if mk == 1u8 {
        return Err(SortError::CyclicError);
    }
    marks.set(i, 1u8);
    let ghost m1 = marks@;
    proof {
        lemma_cnt0_update(m0, i as int, 1u8);
        assert(cnt0(m1) == cnt0(m0) - 1);
    }
    let row_len = g[i].len();
    let mut k: usize = 0;
    while k < row_len
        invariant
            k <= row_len,
            gv == rows_view(g@),
            n == g@.len(),
            m0 == old(marks)@,
            o0 == row_ints(old(out)@),
            m0.len() == n,
            m0[i as int] == 0u8,
            0 <= cnt0(m0),
            row_len == g@[i as int]@.len(),
            (i as int) < n,
            wf_graph(gv, n),
            wf_marks(marks@, n),
            m1 == m0.update(i as int, 1u8),
            cnt0(m1) == cnt0(m0) - 1,
            cnt0(marks@) <= cnt0(m1),
            forall|j: int| 0 <= j < n && marks@[j] == 0u8 ==> (#[trigger] m1[j]) == 0u8,
            forall|f: nat|
                f > cnt0(m1) ==> visit_row(gv, m1, o0, i as int, 0, f) == visit_row(
                    gv,
                    marks@,
                    row_ints(out@),
                    i as int,
                    k as int,
                    f,
                ),
        decreases row_len - k,
    {
        let child = g[i][k];
        proof {
            assert(gv[i as int][k as int] == child as int);
            assert(0 <= child < n);
        }
        let ghost mc = marks@;
        let ghost oc = row_ints(out@);
        proof {
            lemma_cnt0_bounds(mc);
        }
        let res = visit(g, marks, out, child);
        match res {
            Ok(()) => {
                proof {
                    assert forall|f: nat| f > cnt0(m1) implies visit_row(
                        gv,
                        m1,
                        o0,
                        i as int,
                        0,
                        f,
                    ) == visit_row(gv, marks@, row_ints(out@), i as int, k + 1, f) by {
                        assert(f > cnt0(mc));
                        assert(visit_s(gv, mc, oc, child as int, f) == Some(
                            Some((marks@, row_ints(out@))),
                        ));
                    }
                }
                k = k + 1;
            },
            Err(e) => {
                proof {
                    assert forall|f: nat| f > cnt0(m0) implies visit_s(
                        gv,
                        m0,
                        o0,
                        i as int,
                        f,
                    ) == Some(None::<(Seq<u8>, Seq<int>)>) by {
                        let f1 = (f - 1) as nat;
                        assert(f1 > cnt0(m1));
                        assert(visit_row(gv, m1, o0, i as int, 0, f1) == visit_row(
                            gv,
                            mc,
                            oc,
                            i as int,
                            k as int,
                            f1,
                        ));
                        assert(f1 > cnt0(mc));
                        assert(visit_s(gv, mc, oc, child as int, f1) == Some(
                            None::<(Seq<u8>, Seq<int>)>,
                        ));
                    }
                    assert forall|j: int| 0 <= j < n && marks@[j] == 0u8 implies (#[trigger] m0[j])
                        == 0u8 by {
                        assert(mc[j] == 0u8);
                        assert(m1[j] == 0u8);
                        assert(j != i ==> m0[j] == m1[j]);
                        assert(m1[i as int] == 1u8);
                    }
                }
                return Err(e);
            },
        }
    }
    proof {
        assert forall|f: nat| f > cnt0(m1) implies visit_row(gv, m1, o0, i as int, 0, f) == Some(
            Some((marks@, row_ints(out@))),
        ) by {
            assert(visit_row(gv, marks@, row_ints(out@), i as int, row_len as int, f) == Some(
                Some((marks@, row_ints(out@))),
            ));
        }
    }
    let ghost m2 = marks@;
    let ghost o2 = row_ints(out@);
    marks.set(i, 2u8);
    out.push(i);
    proof {
        lemma_cnt0_update(m2, i as int, 2u8);
        assert(row_ints(out@) =~= o2.push(i as int));
        assert forall|f: nat| f > cnt0(m0) implies visit_s(gv, m0, o0, i as int, f) == Some(
            Some((marks@, row_ints(out@))),
        ) by {
            let f1 = (f - 1) as nat;
            assert(f1 > cnt0(m1));
            assert(visit_row(gv, m1, o0, i as int, 0, f1) == Some(Some((m2, o2))));
        }
        assert forall|j: int| 0 <= j < n && marks@[j] == 0u8 implies (#[trigger] m0[j]) == 0u8 by {
            if j != i {
                assert(m2[j] == 0u8);
                assert(m1[j] == 0u8);
            }
        }
    }
    Ok(())
}

/// The executable topological walk over the whole graph, mirroring
/// [`dfs_spec`].
fn topo(g: &Vec<Vec<usize>>) -> (r: Result<Vec<usize>, SortError>)
    requires
        wf_graph(rows_view(g@), g@.len() as int),
    ensures
        match r {
            Ok(out) => dfs_ord(rows_view(g@), g@.len() as int) == Some(row_ints(out@)),
            Err(e) => e == SortError::CyclicError && dfs_spec(rows_view(g@), g@.len() as int)
                == Some(None::<(Seq<u8>, Seq<int>)>),
        },
{
    let ghost gv = rows_view(g@);
    let ghost n = g@.len() as int;
    let num = g.len();
    let mut marks: Vec<u8> = Vec::new();
    let mut t: usize = 0;
    while t < num
        invariant
            t <= num,
            num == g@.len(),
            marks@.len() == t,
            forall|j: int| 0 <= j < t ==> marks@[j] == 0u8,
        decreases num - t,
    {
        marks.push(0u8);
        t = t + 1;
    }
    proof {
        assert(marks@ =~= Seq::new(n as nat, |j: int| 0u8));
    }
    let ghost zeros = marks@;
    let mut out: Vec<usize> = Vec::new();
    let mut t: usize = 0;
    proof {
        assert(row_ints(out@) =~= Seq::<int>::empty());
    }
    while t < num
        invariant
            t <= num,
            num == g@.len(),
            gv == rows_view(g@),
            n == g@.len(),
            wf_graph(gv, n),
            wf_marks(marks@, n),
            zeros == Seq::new(n as nat, |j: int| 0u8),
            run_all(gv, zeros, Seq::<int>::empty(), 0, n) == run_all(
                gv,
                marks@,
                row_ints(out@),
                t as int,
                n,
            ),
        decreases num - t,
    {
        let ghost mc = marks@;
        let ghost oc = row_ints(out@);
        let res = visit(g, &mut marks, &mut out, t);
        match res {
            Ok(()) => {
                proof {
                    lemma_cnt0_bounds(mc);
                    assert((n + 1) as nat > cnt0(mc));
                    assert(visit_s(gv, mc, oc, t as int, (n + 1) as nat) == Some(
                        Some((marks@, row_ints(out@))),
                    ));
                }
                t = t + 1;
            },
            Err(e) => {
                proof {
                    lemma_cnt0_bounds(mc);
                    assert(visit_s(gv, mc, oc, t as int, (n + 1) as nat) == Some(
                        None::<(Seq<u8>, Seq<int>)>,
                    ));
                }
                return Err(e);
            },
        }
    }
    proof {
        assert(run_all(gv, marks@, row_ints(out@), num as int, n) == Some(
            Some((marks@, row_ints(out@))),
        ));
        assert(dfs_spec(gv, n) == Some(Some((marks@, row_ints(out@)))));
    }
    Ok(out)
}


/// Invariant of the mirrored search: output entries are distinct candidate
/// indices, exactly the nodes marked done, and each entry's predecessors
/// appear earlier in the output.
pub open spec fn dfs_inv(g: Seq<Seq<int>>, n: int, marks: Seq<u8>, out: Seq<int>) -> bool {
    &&& marks.len() == n
    &&& forall|k: int| 0 <= k < out.len() ==> 0 <= #[trigger] out[k] < n
    &&& forall|k1: int, k2: int| 0 <= k1 < k2 < out.len() ==> out[k1] != out[k2]
    &&& forall|j: int| 0 <= j < n ==> ((#[trigger] marks[j] == 2u8) <==> out.contains(j))
    &&& forall|k1: int, p: int|
        0 <= k1 < out.len() && #[trigger] g[out[k1]].contains(p) ==> exists|k2: int|
            0 <= k2 < k1 && out[k2] == p
}

proof fn lemma_visit_props(g: Seq<Seq<int>>, n: int, marks: Seq<u8>, out: Seq<int>, i: int, fuel: nat)
    requires
        wf_graph(g, n),
        wf_marks(marks, n),
        dfs_inv(g, n, marks, out),
        0 <= i < n,
    ensures
        match visit_s(g, marks, out, i, fuel) {
            Some(Some((m2, o2))) => {
                &&& wf_marks(m2, n)
                &&& dfs_inv(g, n, m2, o2)
                &&& o2.len() >= out.len() && o2.subrange(0, out.len() as int) == out
                &&& (forall|j: int| 0 <= j < n && #[trigger] marks[j] == 2u8 ==> m2[j] == 2u8)
                &&& (forall|j: int| 0 <= j < n ==> ((#[trigger] m2[j] == 1u8) <==> marks[j] == 1u8))
                &&& m2[i] == 2u8
            },
            _ => true,
        },
    decreases fuel, 0int,
{
    if 0 <= i < marks.len() && marks[i] == 2u8 {
        assert(visit_s(g, marks, out, i, fuel) == Some(Some((marks, out))));
        assert(out.subrange(0, out.len() as int) =~= out);
    } else if 0 <= i < marks.len() && marks[i] == 1u8 {
    } else if fuel == 0 {
    } else {
        let m1 = marks.update(i, 1u8);
        assert(wf_marks(m1, n));
        assert(dfs_inv(g, n, m1, out)) by {
            assert forall|j: int| 0 <= j < n implies ((#[trigger] m1[j] == 2u8) <==> out.contains(
                j,
            )) by {
                if j == i {
                    assert(marks[i] != 2u8);
                }
            }
        }
        lemma_row_props(g, n, m1, out, i, 0, (fuel - 1) as nat);
        match visit_row(g, m1, out, i, 0, (fuel - 1) as nat) {
            Some(Some((mr, or))) => {
                let m2 = mr.update(i, 2u8);
                let o2 = or.push(i);
                assert(visit_s(g, marks, out, i, fuel) == Some(Some((m2, o2))));
                assert(mr[i] == 1u8);
                assert(!or.contains(i));
                assert(wf_marks(m2, n));
                // output prefix
                assert(o2.subrange(0, out.len() as int) =~= or.subrange(0, out.len() as int));
                // the invariant for the extended output
                assert(dfs_inv(g, n, m2, o2)) by {
                    assert forall|k: int| 0 <= k < o2.len() implies 0 <= #[trigger] o2[k] < n by {
                        if k < or.len() {
                            assert(o2[k] == or[k]);
                        }
                    }
                    assert forall|k1: int, k2: int| 0 <= k1 < k2 < o2.len() implies o2[k1]
                        != o2[k2] by {
                        if k2 == o2.len() - 1 {
                            assert(o2[k1] == or[k1]);
                            assert(or.contains(or[k1]));
                        }
                    }
                    assert forall|j: int| 0 <= j < n implies ((#[trigger] m2[j] == 2u8)
                        <==> o2.contains(j)) by {
                        if j == i {
                            assert(o2[o2.len() - 1] == i);
                            assert(o2.contains(i));
                        } else {
                            if or.contains(j) {
                                let k = choose|k: int| 0 <= k < or.len() && or[k] == j;
                                assert(o2[k] == j);
                                assert(o2.contains(j));
                            }
                            if o2.contains(j) {
                                let k = choose|k: int| 0 <= k < o2.len() && o2[k] == j;
                                assert(k < or.len());
                                assert(or[k] == j);
                                assert(or.contains(j));
                            }
                        }
                    }
                    assert forall|k1: int, p: int|
                        0 <= k1 < o2.len() && #[trigger] g[o2[k1]].contains(p) implies exists|
                        k2: int,
                    |
                        0 <= k2 < k1 && o2[k2] == p by {
                        if k1 < or.len() {
                            assert(o2[k1] == or[k1]);
                            assert(g[or[k1]].contains(p));
                            let k2 = choose|k2: int| 0 <= k2 < k1 && or[k2] == p;
                            assert(o2[k2] == p);
                        } else {
                            // the freshly appended node: all its predecessors are done
                            assert(o2[k1] == i);
                            let kk = choose|kk: int|
                                0 <= kk < g[i].len() && g[i][kk] == p;
                            assert(mr[g[i][kk]] == 2u8);
                            assert(or.contains(p));
                            let k2 = choose|k2: int| 0 <= k2 < or.len() && or[k2] == p;
                            assert(o2[k2] == p);
                        }
                    }
                }
                assert forall|j: int| 0 <= j < n && #[trigger] marks[j] == 2u8 implies m2[j]
                    == 2u8 by {
                    assert(m1[j] == 2u8);
                    assert(mr[j] == 2u8);
                }
                assert forall|j: int| 0 <= j < n implies ((#[trigger] m2[j] == 1u8) <==> marks[j]
                    == 1u8) by {
                    if j != i {
                        assert(m2[j] == mr[j]);
                        assert((mr[j] == 1u8) <==> (m1[j] == 1u8));
                        assert(m1[j] == marks[j]);
                    } else {
                        assert(m2[i] == 2u8);
                        assert(marks[i] != 1u8);
                    }
                }
            },
            _ => {
            },
        }
    }
}

proof fn lemma_row_props(g: Seq<Seq<int>>, n: int, marks: Seq<u8>, out: Seq<int>, i: int, k: int, fuel: nat)
    requires
        0 <= k,
        wf_graph(g, n),
        wf_marks(marks, n),
        dfs_inv(g, n, marks, out),
        0 <= i < n,
    ensures
        match visit_row(g, marks, out, i, k, fuel) {
            Some(Some((m2, o2))) => {
                &&& wf_marks(m2, n)
                &&& dfs_inv(g, n, m2, o2)
                &&& o2.len() >= out.len() && o2.subrange(0, out.len() as int) == out
                &&& (forall|j: int| 0 <= j < n && #[trigger] marks[j] == 2u8 ==> m2[j] == 2u8)
                &&& (forall|j: int| 0 <= j < n ==> ((#[trigger] m2[j] == 1u8) <==> marks[j] == 1u8))
                &&& (forall|kk: int| k <= kk < g[i].len() ==> m2[#[trigger] g[i][kk]] == 2u8)
            },
            _ => true,
        },
    decreases fuel, g[i].len() - k + 1,
{
    if !(0 <= k < g[i].len()) {
        assert(visit_row(g, marks, out, i, k, fuel) == Some(Some((marks, out))));
        assert(out.subrange(0, out.len() as int) =~= out);
    } else {
        let child = g[i][k];
        assert(0 <= child < n);
        lemma_visit_props(g, n, marks, out, child, fuel);
        match visit_s(g, marks, out, child, fuel) {
            Some(Some((mc, oc))) => {
                lemma_row_props(g, n, mc, oc, i, k + 1, fuel);
                match visit_row(g, mc, oc, i, k + 1, fuel) {
                    Some(Some((m2, o2))) => {
                        assert(visit_row(g, marks, out, i, k, fuel) == Some(Some((m2, o2))));
                        assert forall|kk: int| 0 <= kk < out.len() implies o2.subrange(
                            0,
                            out.len() as int,
                        )[kk] == out[kk] by {
                            assert(o2[kk] == o2.subrange(0, oc.len() as int)[kk]);
                            assert(oc[kk] == oc.subrange(0, out.len() as int)[kk]);
                        }
                        assert(o2.subrange(0, out.len() as int) =~= out);
                        assert forall|kk: int| k <= kk < g[i].len() implies m2[#[trigger] g[i][kk]]
                            == 2u8 by {
                            if kk == k {
                                assert(mc[child] == 2u8);
                                assert(m2[child] == 2u8);
                            }
                        }
                    },
                    _ => {
                    },
                }
            },
            _ => {
            },
        }
    }
}

proof fn lemma_run_props(g: Seq<Seq<int>>, n: int, marks: Seq<u8>, out: Seq<int>, t: int)
    requires
        0 <= t,
        wf_graph(g, n),
        wf_marks(marks, n),
        dfs_inv(g, n, marks, out),
    ensures
        match run_all(g, marks, out, t, n) {
            Some(Some((m2, o2))) => {
                &&& wf_marks(m2, n)
                &&& dfs_inv(g, n, m2, o2)
                &&& (forall|j: int| 0 <= j < n && #[trigger] marks[j] == 2u8 ==> m2[j] == 2u8)
                &&& (forall|j: int| t <= j < n ==> #[trigger] m2[j] == 2u8)
            },
            _ => true,
        },
    decreases n - t,
{
    if t >= n {
    } else {
        lemma_visit_props(g, n, marks, out, t, (n + 1) as nat);
        match visit_s(g, marks, out, t, (n + 1) as nat) {
            Some(Some((mc, oc))) => {
                lemma_run_props(g, n, mc, oc, t + 1);
            },
            _ => {
            },
        }
    }
}

/// The successful mirrored search yields a permutation of the candidate
/// indices that respects every predecessor edge.
pub proof fn lemma_dfs_ord_props(g: Seq<Seq<int>>, n: int)
    requires
        wf_graph(g, n),
        dfs_ord(g, n) is Some,
    ensures
        ({
            let ord = dfs_ord(g, n)->Some_0;
            &&& ord.len() == n
            &&& (forall|k: int| 0 <= k < ord.len() ==> 0 <= #[trigger] ord[k] < n)
            &&& (forall|k1: int, k2: int| 0 <= k1 < k2 < ord.len() ==> ord[k1] != ord[k2])
            &&& (forall|j: int| 0 <= j < n ==> ord.contains(j))
            &&& (forall|k1: int, p: int|
                0 <= k1 < ord.len() && #[trigger] g[ord[k1]].contains(p) ==> exists|k2: int|
                    0 <= k2 < k1 && ord[k2] == p)
        }),
{
    let zeros = Seq::new(n as nat, |j: int| 0u8);
    assert(wf_marks(zeros, n));
    assert(dfs_inv(g, n, zeros, Seq::<int>::empty())) by {
        assert forall|j: int| 0 <= j < n implies ((#[trigger] zeros[j] == 2u8)
            <==> Seq::<int>::empty().contains(j)) by {
            assert(zeros[j] == 0u8);
        }
    }
    lemma_run_props(g, n, zeros, Seq::<int>::empty(), 0);
    match dfs_spec(g, n) {
        Some(Some((m2, ord))) => {
            assert forall|j: int| 0 <= j < n implies ord.contains(j) by {
                assert(m2[j] == 2u8);
            }
            // distinct entries in [0, n) that cover all of [0, n) number n
            assert(ord.len() == n) by {
                lemma_distinct_cover_len(ord, n);
            }
        },
        _ => {
            assert(false);
        },
    }
}

/// A sequence of distinct integers drawn from `[0, n)` and containing all of
/// them has length exactly `n`.
proof fn lemma_distinct_cover_len(ord: Seq<int>, n: int)
    requires
        n >= 0,
        forall|k: int| 0 <= k < ord.len() ==> 0 <= #[trigger] ord[k] < n,
        forall|k1: int, k2: int| 0 <= k1 < k2 < ord.len() ==> ord[k1] != ord[k2],
        forall|j: int| 0 <= j < n ==> ord.contains(j),
    ensures
        ord.len() == n,
{
    let s = ord.to_set();
    let r = vstd::set_lib::set_int_range(0, n);
    assert(s =~= r) by {
        assert forall|j: int| r.contains(j) implies s.contains(j) by {
            assert(ord.contains(j));
        }
        assert forall|j: int| s.contains(j) implies r.contains(j) by {
            let k = choose|k: int| 0 <= k < ord.len() && ord[k] == j;
        }
    }
    assert(ord.no_duplicates()) by {
        assert forall|k1: int, k2: int|
            0 <= k1 < ord.len() && 0 <= k2 < ord.len() && k1 != k2 implies ord[k1] != ord[k2] by {
            if k1 < k2 {
            } else {
                assert(ord[k2] != ord[k1]);
            }
        }
    }
    ord.unique_seq_to_set();
    vstd::set_lib::lemma_int_range(0, n);
    assert(s.len() == ord.len());
    assert(r.len() == n);
}


/// How often `x` occurs in `s`.
pub open spec fn count_occ(s: Seq<Seq<char>>, x: Seq<char>) -> int
    decreases s.len(),
{
    if s.len() == 0 {
        0
    } else {
        count_occ(s.drop_last(), x) + if s.last() == x {
            1int
        } else {
            0int
        }
    }
}

/// `c` copies of the identifier `x`.
pub open spec fn repeat_id(x: Seq<char>, c: int) -> Seq<Seq<char>>
    decreases c,
{
    if c <= 0 {
        Seq::empty()
    } else {
        repeat_id(x, c - 1).push(x)
    }
}

/// The final order: for each candidate index in `ord`, its identifier is
/// repeated as often as it occurs in the sorted candidate list.
pub open spec fn expand_spec(ord: Seq<int>, u: Seq<Seq<char>>, s: Seq<Seq<char>>) -> Seq<Seq<char>>
    decreases ord.len(),
{
    if ord.len() == 0 {
        Seq::empty()
    } else {
        expand_spec(ord.drop_last(), u, s) + repeat_id(u[ord.last()], count_occ(s, u[ord.last()]))
    }
}

proof fn lemma_empty_multiset(s: Seq<Seq<char>>)
    requires
        s.len() == 0,
    ensures
        s.to_multiset() =~= Multiset::empty(),
{
    broadcast use vstd::multiset::group_multiset_axioms;

    s.to_multiset_ensures();
    assert forall|a: Seq<char>| true implies s.to_multiset().count(a) == Multiset::<
        Seq<char>,
    >::empty().count(a) by {
        assert(!s.contains(a));
    }
}

proof fn lemma_count_occ_multiset(s: Seq<Seq<char>>, x: Seq<char>)
    ensures
        count_occ(s, x) == s.to_multiset().count(x),
    decreases s.len(),
{
    broadcast use vstd::multiset::group_multiset_axioms;

    s.to_multiset_ensures();
    if s.len() == 0 {
        lemma_empty_multiset(s);
    } else {
        lemma_count_occ_multiset(s.drop_last(), x);
        s.drop_last().to_multiset_ensures();
        assert(s =~= s.drop_last().push(s.last()));
        assert(s.drop_last().push(s.last()).to_multiset() == s.drop_last().to_multiset().insert(
            s.last(),
        ));
    }
}

proof fn lemma_repeat_props(y: Seq<char>, c: int, x: Seq<char>)
    ensures
        repeat_id(y, c).to_multiset().count(x) == if x == y && c > 0 {
            c
        } else {
            0
        },
        forall|k: int| 0 <= k < repeat_id(y, c).len() ==> repeat_id(y, c)[k] == y,
        repeat_id(y, c).len() == if c > 0 {
            c
        } else {
            0
        },
    decreases c,
{
    broadcast use vstd::multiset::group_multiset_axioms;

    if c <= 0 {
        lemma_empty_multiset(repeat_id(y, c));
    } else {
        lemma_repeat_props(y, c - 1, x);
        repeat_id(y, c - 1).to_multiset_ensures();
        assert(repeat_id(y, c) == repeat_id(y, c - 1).push(y));
        assert forall|k: int| 0 <= k < repeat_id(y, c).len() implies repeat_id(y, c)[k] == y by {
            if k < repeat_id(y, c - 1).len() {
                assert(repeat_id(y, c)[k] == repeat_id(y, c - 1)[k]);
            }
        }
    }
}

proof fn lemma_expand_count(ord: Seq<int>, u: Seq<Seq<char>>, s: Seq<Seq<char>>, x: Seq<char>)
    requires
        forall|k: int| 0 <= k < ord.len() ==> 0 <= #[trigger] ord[k] < u.len(),
        forall|t1: int, t2: int| 0 <= t1 < t2 < ord.len() ==> u[ord[t1]] != u[ord[t2]],
    ensures
        expand_spec(ord, u, s).to_multiset().count(x) == if exists|t: int|
            0 <= t < ord.len() && u[#[trigger] ord[t]] == x {
            count_occ(s, x)
        } else {
            0
        },
    decreases ord.len(),
{
    broadcast use vstd::multiset::group_multiset_axioms;

    if ord.len() == 0 {
        lemma_empty_multiset(expand_spec(ord, u, s));
    } else {
        let dl = ord.drop_last();
        lemma_expand_count(dl, u, s, x);
        let last_id = u[ord.last()];
        let block = repeat_id(last_id, count_occ(s, last_id));
        vstd::seq_lib::lemma_multiset_commutative(expand_spec(dl, u, s), block);
        lemma_repeat_props(last_id, count_occ(s, last_id), x);
        lemma_count_occ_multiset(s, x);
        assert(s.to_multiset().count(x) >= 0);
        if last_id == x {
            // no earlier block carries x
            assert(!(exists|t: int| 0 <= t < dl.len() && u[#[trigger] dl[t]] == x)) by {
                if exists|t: int| 0 <= t < dl.len() && u[#[trigger] dl[t]] == x {
                    let t = choose|t: int| 0 <= t < dl.len() && u[#[trigger] dl[t]] == x;
                    assert(u[ord[t]] != u[ord[ord.len() - 1]]);
                }
            }
            assert(u[ord[ord.len() - 1]] == x);
        } else {
            if exists|t: int| 0 <= t < ord.len() && u[#[trigger] ord[t]] == x {
                let t = choose|t: int| 0 <= t < ord.len() && u[#[trigger] ord[t]] == x;
                assert(t < dl.len());
                assert(dl[t] == ord[t]);
            }
            if exists|t: int| 0 <= t < dl.len() && u[#[trigger] dl[t]] == x {
                let t = choose|t: int| 0 <= t < dl.len() && u[#[trigger] dl[t]] == x;
                assert(u[ord[t]] == x);
            }
        }
    }
}

proof fn lemma_expand_no_value(ord: Seq<int>, u: Seq<Seq<char>>, s: Seq<Seq<char>>, x: Seq<char>)
    requires
        forall|t: int| 0 <= t < ord.len() ==> u[#[trigger] ord[t]] != x,
    ensures
        forall|k: int|
            0 <= k < expand_spec(ord, u, s).len() ==> #[trigger] expand_spec(ord, u, s)[k] != x,
    decreases ord.len(),
{
    if ord.len() == 0 {
    } else {
        let dl = ord.drop_last();
        assert forall|t: int| 0 <= t < dl.len() implies u[#[trigger] dl[t]] != x by {
            assert(dl[t] == ord[t]);
        }
        lemma_expand_no_value(dl, u, s, x);
        let last_id = u[ord.last()];
        lemma_repeat_props(last_id, count_occ(s, last_id), x);
        assert forall|k: int| 0 <= k < expand_spec(ord, u, s).len() implies #[trigger] expand_spec(
            ord,
            u,
            s,
        )[k] != x by {
            let e = expand_spec(ord, u, s);
            let ep = expand_spec(dl, u, s);
            let block = repeat_id(last_id, count_occ(s, last_id));
            assert(e == ep + block);
            if k < ep.len() {
                assert(e[k] == ep[k]);
            } else {
                assert(e[k] == block[k - ep.len()]);
                assert(block[k - ep.len()] == last_id);
                assert(u[ord[ord.len() - 1]] != x);
            }
        }
    }
}

proof fn lemma_expand_before(ord: Seq<int>, u: Seq<Seq<char>>, s: Seq<Seq<char>>, t1: int, t2: int)
    requires
        0 <= t1 < t2 < ord.len(),
        forall|t: int| 0 <= t < ord.len() && t != t1 ==> u[#[trigger] ord[t]] != u[ord[t1]],
        forall|t: int| 0 <= t < ord.len() && t != t2 ==> u[#[trigger] ord[t]] != u[ord[t2]],
    ensures
        forall|k1: int, k2: int|
            0 <= k1 < expand_spec(ord, u, s).len() && 0 <= k2 < expand_spec(ord, u, s).len()
                && #[trigger] expand_spec(ord, u, s)[k1] == u[ord[t1]] && #[trigger] expand_spec(
                ord,
                u,
                s,
            )[k2] == u[ord[t2]] ==> k1 < k2,
    decreases ord.len(),
{
    let e = expand_spec(ord, u, s);
    let dl = ord.drop_last();
    let ep = expand_spec(dl, u, s);
    let last_id = u[ord.last()];
    let block = repeat_id(last_id, count_occ(s, last_id));
    assert(e == ep + block);
    lemma_repeat_props(last_id, count_occ(s, last_id), last_id);
    if t2 == ord.len() - 1 {
        // the t2 block is the final block; no earlier block carries its id
        assert forall|t: int| 0 <= t < dl.len() implies u[#[trigger] dl[t]] != u[ord[t2]] by {
            assert(dl[t] == ord[t]);
        }
        lemma_expand_no_value(dl, u, s, u[ord[t2]]);
        assert forall|k1: int, k2: int|
            0 <= k1 < e.len() && 0 <= k2 < e.len() && #[trigger] e[k1] == u[ord[t1]]
                && #[trigger] e[k2] == u[ord[t2]] implies k1 < k2 by {
            assert(u[ord[t1]] != u[ord[t2]]);
            if k2 < ep.len() {
                assert(e[k2] == ep[k2]);
                assert(false);
            }
            if k1 >= ep.len() {
                assert(e[k1] == block[k1 - ep.len()]);
                assert(e[k1] == last_id);
                assert(false);
            }
        }
    } else {
        // both blocks lie in the prefix
        assert(ord.len() - 1 != t1);
        assert(u[ord[ord.len() - 1]] != u[ord[t1]]);
        assert(u[ord[ord.len() - 1]] != u[ord[t2]]);
        assert(dl[t1] == ord[t1]);
        assert(dl[t2] == ord[t2]);
        assert forall|t: int| 0 <= t < dl.len() && t != t1 implies u[#[trigger] dl[t]]
            != u[dl[t1]] by {
            assert(dl[t] == ord[t]);
        }
        assert forall|t: int| 0 <= t < dl.len() && t != t2 implies u[#[trigger] dl[t]]
            != u[dl[t2]] by {
            assert(dl[t] == ord[t]);
        }
        lemma_expand_before(dl, u, s, t1, t2);
        assert forall|k1: int, k2: int|
            0 <= k1 < e.len() && 0 <= k2 < e.len() && #[trigger] e[k1] == u[ord[t1]]
                && #[trigger] e[k2] == u[ord[t2]] implies k1 < k2 by {
            if k1 >= ep.len() {
                assert(e[k1] == block[k1 - ep.len()]);
                assert(e[k1] == last_id);
                assert(false);
            }
            if k2 >= ep.len() {
                assert(e[k2] == block[k2 - ep.len()]);
                assert(e[k2] == last_id);
                assert(false);
            }
            assert(e[k1] == ep[k1]);
            assert(e[k2] == ep[k2]);
        }
    }
}


proof fn lemma_contains_of_multiset(a: Seq<Seq<char>>, b: Seq<Seq<char>>)
    requires
        a.to_multiset() == b.to_multiset(),
    ensures
        forall|x: Seq<char>| a.contains(x) <==> b.contains(x),
{
    a.to_multiset_ensures();
    b.to_multiset_ensures();
    assert forall|x: Seq<char>| a.contains(x) implies b.contains(x) by {
        assert(a.to_multiset().count(x) > 0);
        assert(b.to_multiset().count(x) > 0);
    }
    assert forall|x: Seq<char>| b.contains(x) implies a.contains(x) by {
        assert(b.to_multiset().count(x) > 0);
        assert(a.to_multiset().count(x) > 0);
    }
}

/// Properties of deduplicating a sorted sequence: the result is sorted,
/// duplicate-free, and has the same members.
proof fn lemma_dedup_sorted_props(s: Seq<Seq<char>>)
    requires
        vstd::relations::sorted_by(s, lex_leq()),
    ensures
        vstd::relations::sorted_by(dedup_spec(s), lex_leq()),
        dedup_spec(s).no_duplicates(),
        forall|x: Seq<char>| dedup_spec(s).contains(x) <==> s.contains(x),
        s.len() > 0 ==> dedup_spec(s).len() > 0 && dedup_spec(s).last() == s.last(),
    decreases s.len(),
{
    if s.len() == 0 {
    } else {
        let sp = s.drop_last();
        assert(vstd::relations::sorted_by(sp, lex_leq())) by {
            assert forall|k1: int, k2: int| 0 <= k1 < k2 < sp.len() implies lex_leq()(
                sp[k1],
                sp[k2],
            ) by {
                assert(sp[k1] == s[k1]);
                assert(sp[k2] == s[k2]);
            }
        }
        lemma_dedup_sorted_props(sp);
        let rp = dedup_spec(sp);
        let r = dedup_spec(s);
        // every member of rp is lex_le the final element of s
        assert forall|k: int| 0 <= k < rp.len() implies lex_le(#[trigger] rp[k], s.last()) by {
            assert(sp.contains(rp[k]));
            let j = choose|j: int| 0 <= j < sp.len() && sp[j] == rp[k];
            assert(s[j] == sp[j]);
            lemma_sorted_le(s, j, s.len() - 1);
        }
        if rp.len() > 0 && rp.last() == s.last() {
            assert(r == rp);
            assert forall|x: Seq<char>| r.contains(x) <==> s.contains(x) by {
                if s.contains(x) {
                    let j = choose|j: int| 0 <= j < s.len() && s[j] == x;
                    if j < s.len() - 1 {
                        assert(sp[j] == x);
                        assert(sp.contains(x));
                    } else {
                        assert(rp[rp.len() - 1] == s.last());
                        assert(rp.contains(x));
                    }
                }
                if r.contains(x) {
                    assert(sp.contains(x));
                    let j = choose|j: int| 0 <= j < sp.len() && sp[j] == x;
                    assert(s[j] == x);
                }
            }
        } else {
            assert(r == rp.push(s.last()));
            assert(vstd::relations::sorted_by(r, lex_leq())) by {
                assert forall|k1: int, k2: int| 0 <= k1 < k2 < r.len() implies lex_leq()(
                    r[k1],
                    r[k2],
                ) by {
                    if k2 == r.len() - 1 {
                        assert(r[k1] == rp[k1]);
                        assert(lex_le(rp[k1], s.last()));
                    } else {
                        assert(r[k1] == rp[k1]);
                        assert(r[k2] == rp[k2]);
                    }
                }
            }
            assert(!rp.contains(s.last())) by {
                if rp.contains(s.last()) {
                    let k = choose|k: int| 0 <= k < rp.len() && rp[k] == s.last();
                    assert(lex_le(rp[rp.len() - 1], s.last()));
                    lemma_sorted_le(rp, k, rp.len() - 1);
                    lemma_lex_le_total(rp[rp.len() - 1], s.last());
                    assert(rp.last() == s.last());
                }
            }
            assert(r.no_duplicates()) by {
                assert forall|k1: int, k2: int|
                    0 <= k1 < r.len() && 0 <= k2 < r.len() && k1 != k2 implies r[k1] != r[k2] by {
                    if k1 < r.len() - 1 && k2 < r.len() - 1 {
                        assert(r[k1] == rp[k1]);
                        assert(r[k2] == rp[k2]);
                    } else if k1 == r.len() - 1 {
                        assert(r[k2] == rp[k2]);
                        assert(rp.contains(rp[k2]));
                    } else {
                        assert(r[k1] == rp[k1]);
                        assert(rp.contains(rp[k1]));
                    }
                }
            }
            assert forall|x: Seq<char>| r.contains(x) <==> s.contains(x) by {
                if s.contains(x) {
                    let j = choose|j: int| 0 <= j < s.len() && s[j] == x;
                    if j < s.len() - 1 {
                        assert(sp[j] == x);
                        assert(sp.contains(x));
                        let k = choose|k: int| 0 <= k < rp.len() && rp[k] == x;
                        assert(r[k] == x);
                    } else {
                        assert(r[r.len() - 1] == x);
                    }
                }
                if r.contains(x) {
                    let k = choose|k: int| 0 <= k < r.len() && r[k] == x;
                    if k < r.len() - 1 {
                        assert(rp[k] == x);
                        assert(rp.contains(x));
                        assert(sp.contains(x));
                        let j = choose|j: int| 0 <= j < sp.len() && sp[j] == x;
                        assert(s[j] == x);
                    } else {
                        assert(s.last() == x);
                    }
                }
            }
        }
    }
}

proof fn lemma_concat_contains(a: Seq<int>, b: Seq<int>, x: int)
    ensures
        (a + b).contains(x) <==> a.contains(x) || b.contains(x),
{
    if a.contains(x) {
        let k = choose|k: int| 0 <= k < a.len() && a[k] == x;
        assert((a + b)[k] == x);
    }
    if b.contains(x) {
        let k = choose|k: int| 0 <= k < b.len() && b[k] == x;
        assert((a + b)[a.len() + k] == x);
    }
    if (a + b).contains(x) {
        let k = choose|k: int| 0 <= k < (a + b).len() && (a + b)[k] == x;
        if k < a.len() {
            assert(a[k] == x);
        } else {
            assert(b[k - a.len()] == x);
        }
    }
}

proof fn lemma_idx_list_contains(ids: Seq<Seq<char>>, u: Seq<Seq<char>>, p: Seq<char>)
    requires
        ids.contains(p),
        idx_of(u, p) is Some,
    ensures
        idx_list(ids, u).contains(idx_of(u, p)->Some_0),
    decreases ids.len(),
{
    let ip = idx_of(u, p)->Some_0;
    if ids.last() == p {
        let part = idx_list(ids.drop_last(), u);
        assert(idx_list(ids, u) == part + seq![ip]);
        lemma_concat_contains(part, seq![ip], ip);
        assert(seq![ip][0] == ip);
    } else {
        let j = choose|j: int| 0 <= j < ids.len() && ids[j] == p;
        assert(ids.drop_last()[j] == p);
        assert(ids.drop_last().contains(p));
        lemma_idx_list_contains(ids.drop_last(), u, p);
        let part = idx_list(ids.drop_last(), u);
        match idx_of(u, ids.last()) {
            Some(k) => {
                lemma_concat_contains(part, seq![k], ip);
            },
            None => {
                lemma_concat_contains(part, Seq::empty(), ip);
            },
        }
    }
}

proof fn lemma_tgt_matches_contains(lst: Seq<Seq<char>>, x: Seq<char>, j: int)
    requires
        lst.contains(x),
    ensures
        tgt_matches(lst, x, j).contains(j),
    decreases lst.len(),
{
    if lst.last() == x {
        let part = tgt_matches(lst.drop_last(), x, j);
        lemma_concat_contains(part, seq![j], j);
        assert(seq![j][0] == j);
    } else {
        let k = choose|k: int| 0 <= k < lst.len() && lst[k] == x;
        assert(lst.drop_last()[k] == x);
        assert(lst.drop_last().contains(x));
        lemma_tgt_matches_contains(lst.drop_last(), x, j);
        lemma_concat_contains(tgt_matches(lst.drop_last(), x, j), Seq::empty(), j);
    }
}

proof fn lemma_before_row_contains(
    u: Seq<Seq<char>>,
    m: Map<Seq<char>, ModMetaData>,
    i: int,
    upto: int,
    j: int,
)
    requires
        0 <= j < upto,
        i != j,
        tgt_matches(m[u[j]].before_target_ids(), u[i], j).contains(j),
    ensures
        before_row(u, m, i, upto).contains(j),
    decreases upto,
{
    let part = before_row(u, m, i, upto - 1);
    if upto - 1 == j {
        lemma_concat_contains(part, tgt_matches(m[u[j]].before_target_ids(), u[i], j), j);
    } else {
        lemma_before_row_contains(u, m, i, upto - 1, j);
        if upto - 1 == i {
            lemma_concat_contains(part, Seq::empty(), j);
        } else {
            lemma_concat_contains(
                part,
                tgt_matches(m[u[upto - 1]].before_target_ids(), u[i], upto - 1),
                j,
            );
        }
    }
}

/// Ranges of the built rows: every entry is a candidate index.
proof fn lemma_idx_list_range(ids: Seq<Seq<char>>, u: Seq<Seq<char>>)
    ensures
        forall|k: int|
            0 <= k < idx_list(ids, u).len() ==> 0 <= #[trigger] idx_list(ids, u)[k] < u.len(),
    decreases ids.len(),
{
    if ids.len() == 0 {
    } else {
        lemma_idx_list_range(ids.drop_last(), u);
        lemma_idx_of(u, ids.last());
        let part = idx_list(ids.drop_last(), u);
        assert forall|k: int| 0 <= k < idx_list(ids, u).len() implies 0 <= #[trigger] idx_list(
            ids,
            u,
        )[k] < u.len() by {
            if k < part.len() {
                assert(idx_list(ids, u)[k] == part[k]);
            }
        }
    }
}

proof fn lemma_tgt_matches_range(lst: Seq<Seq<char>>, x: Seq<char>, j: int)
    ensures
        forall|k: int|
            0 <= k < tgt_matches(lst, x, j).len() ==> #[trigger] tgt_matches(lst, x, j)[k] == j,
    decreases lst.len(),
{
    if lst.len() == 0 {
    } else {
        lemma_tgt_matches_range(lst.drop_last(), x, j);
        let part = tgt_matches(lst.drop_last(), x, j);
        assert forall|k: int| 0 <= k < tgt_matches(lst, x, j).len() implies #[trigger] tgt_matches(
            lst,
            x,
            j,
        )[k] == j by {
            if k < part.len() {
                assert(tgt_matches(lst, x, j)[k] == part[k]);
            }
        }
    }
}

proof fn lemma_before_row_range(u: Seq<Seq<char>>, m: Map<Seq<char>, ModMetaData>, i: int, upto: int)
    ensures
        forall|k: int|
            0 <= k < before_row(u, m, i, upto).len() ==> 0 <= #[trigger] before_row(
                u,
                m,
                i,
                upto,
            )[k] < upto,
    decreases upto,
{
    if upto <= 0 {
    } else {
        lemma_before_row_range(u, m, i, upto - 1);
        let part = before_row(u, m, i, upto - 1);
        let extra = if upto - 1 == i {
            Seq::<int>::empty()
        } else {
            tgt_matches(m[u[upto - 1]].before_target_ids(), u[i], upto - 1)
        };
        lemma_tgt_matches_range(m[u[upto - 1]].before_target_ids(), u[i], upto - 1);
        assert forall|k: int| 0 <= k < before_row(u, m, i, upto).len() implies 0
            <= #[trigger] before_row(u, m, i, upto)[k] < upto by {
            if k < part.len() {
                assert(before_row(u, m, i, upto)[k] == part[k]);
            } else {
                assert(before_row(u, m, i, upto)[k] == extra[k - part.len()]);
            }
        }
    }
}

proof fn lemma_preds_wf(u: Seq<Seq<char>>, m: Map<Seq<char>, ModMetaData>)
    ensures
        wf_graph(preds_spec(u, m), u.len() as int),
{
    let g = preds_spec(u, m);
    let n = u.len() as int;
    assert forall|i: int, k: int| 0 <= i < n && 0 <= k < g[i].len() implies 0 <= #[trigger] g[i][k]
        < n by {
        assert(g[i] == pred_row(u, m, i));
        let a = idx_list(m[u[i]].after_source_ids(), u);
        let b = before_row(u, m, i, n);
        lemma_idx_list_range(m[u[i]].after_source_ids(), u);
        lemma_before_row_range(u, m, i, n);
        if k < a.len() {
            assert(g[i][k] == a[k]);
        } else {
            assert(g[i][k] == b[k - a.len()]);
        }
    }
}

/// A dependency or ordering edge between two candidate identifiers: `p` must
/// load before `q`, because `q` declares `p` as a hard dependency or in its
/// (force) load-after sets, or `p` declares `q` in its (force) load-before
/// sets.  Only identifiers that are themselves candidates form edges.
pub open spec fn is_pred_id(
    m: Map<Seq<char>, ModMetaData>,
    c: Seq<Seq<char>>,
    p: Seq<char>,
    q: Seq<char>,
) -> bool {
    &&& c.contains(p)
    &&& c.contains(q)
    &&& m.contains_key(p)
    &&& m.contains_key(q)
    &&& (m[q].after_source_ids().contains(p) || (p != q && m[p].before_target_ids().contains(q)))
}

proof fn lemma_edge_in_row(u: Seq<Seq<char>>, m: Map<Seq<char>, ModMetaData>, p: Seq<char>, q: Seq<char>)
    requires
        u.contains(p),
        u.contains(q),
        m[q].after_source_ids().contains(p) || (p != q && m[p].before_target_ids().contains(q)),
    ensures
        idx_of(u, p) is Some,
        idx_of(u, q) is Some,
        pred_row(u, m, idx_of(u, q)->Some_0).contains(idx_of(u, p)->Some_0),
{
    lemma_idx_of(u, p);
    lemma_idx_of(u, q);
    let ip = idx_of(u, p)->Some_0;
    let iq = idx_of(u, q)->Some_0;
    let a = idx_list(m[u[iq]].after_source_ids(), u);
    let b = before_row(u, m, iq, u.len() as int);
    if m[q].after_source_ids().contains(p) {
        lemma_idx_list_contains(m[u[iq]].after_source_ids(), u, p);
        lemma_concat_contains(a, b, ip);
    } else {
        assert(p != q);
        assert(ip != iq) by {
            assert(u[ip] == p);
            assert(u[iq] == q);
        }
        lemma_tgt_matches_contains(m[u[ip]].before_target_ids(), u[iq], ip);
        lemma_before_row_contains(u, m, iq, u.len() as int, ip);
        lemma_concat_contains(a, b, ip);
    }
}


/// Counts the occurrences of `x` in `s`.
fn count_occ_exec(s: &Vec<String>, x: &String) -> (c: usize)
    ensures
        c as int == count_occ(s.deep_view(), x@),
{
    let ghost dv = s.deep_view();
    let mut c: usize = 0;
    let mut i: usize = 0;
    proof {
        assert(dv.subrange(0, 0) =~= Seq::empty());
    }
    while i < s.len()
        invariant
            i <= s.len(),
            dv == s.deep_view(),
            dv.len() == s.len(),
            c <= i,
            c as int == count_occ(dv.subrange(0, i as int), x@),
        decreases s.len() - i,
    {
        let ghost pre = dv.subrange(0, i as int);
        if str_eq(s[i].as_str(), x.as_str()) {
            c = c + 1;
        }
        proof {
            let sub1 = dv.subrange(0, i + 1);
            assert(sub1.drop_last() =~= pre);
            assert(sub1.last() == dv[i as int]);
        }
        i = i + 1;
    }
    proof {
        assert(dv.subrange(0, dv.len() as int) =~= dv);
    }
    c
}

/// Expands the index order back to identifiers, repeating each identifier as
/// often as it occurs in the sorted candidate list.
fn expand(ord: &Vec<usize>, u: &Vec<String>, sorted: &Vec<String>) -> (out: Vec<String>)
    requires
        forall|k: int| 0 <= k < ord@.len() ==> (#[trigger] ord@[k] as int) < u@.len(),
    ensures
        out.deep_view() == expand_spec(row_ints(ord@), u.deep_view(), sorted.deep_view()),
{
    let ghost odv = row_ints(ord@);
    let ghost udv = u.deep_view();
    let ghost sdv = sorted.deep_view();
    let mut out: Vec<String> = Vec::new();
    let mut t: usize = 0;
    proof {
        assert(odv.subrange(0, 0) =~= Seq::empty());
        assert(out.deep_view() =~= expand_spec(odv.subrange(0, 0), udv, sdv));
    }
    while t < ord.len()
        invariant
            t <= ord.len(),
            odv == row_ints(ord@),
            udv == u.deep_view(),
            sdv == sorted.deep_view(),
            odv.len() == ord.len(),
            udv.len() == u.len(),
            forall|k: int| 0 <= k < ord@.len() ==> (#[trigger] ord@[k] as int) < u@.len(),
            out.deep_view() == expand_spec(odv.subrange(0, t as int), udv, sdv),
        decreases ord.len() - t,
    {
        let ix = ord[t];
        let c = count_occ_exec(sorted, &u[ix]);
        let ghost base = out.deep_view();
        let mut done: usize = 0;
        while done < c
            invariant
                done <= c,
                udv == u.deep_view(),
                udv.len() == u.len(),
                (ix as int) < u.len(),
                c as int == count_occ(sdv, udv[ix as int]),
                out.deep_view() == base + repeat_id(udv[ix as int], done as int),
            decreases c - done,
        {
            let s = clone_string(&u[ix]);
            let ghost pre = out.deep_view();
            out.push(s);
            proof {
                assert(out.deep_view() =~= pre.push(udv[ix as int]));
                assert(repeat_id(udv[ix as int], done + 1) == repeat_id(
                    udv[ix as int],
                    done as int,
                ).push(udv[ix as int]));
                assert(out.deep_view() =~= base + repeat_id(udv[ix as int], done + 1));
            }
            done = done + 1;
        }
        proof {
            let sub1 = odv.subrange(0, t + 1);
            assert(sub1.drop_last() =~= odv.subrange(0, t as int));
            assert(sub1.last() == odv[t as int]);
            assert(odv[t as int] == ix as int);
            assert(udv[odv[t as int]] == udv[ix as int]);
            if c == 0 {
                assert(repeat_id(udv[ix as int], 0) =~= Seq::<Seq<char>>::empty());
                assert(out.deep_view() =~= base + repeat_id(udv[ix as int], 0));
            }
            assert(out.deep_view() =~= expand_spec(sub1, udv, sdv));
        }
        t = t + 1;
    }
    proof {
        assert(odv.subrange(0, odv.len() as int) =~= odv);
    }
    out
}

/// The exact mirror of [`sort`]: the candidates are sorted and
/// deduplicated, checked against the store, topologically ordered, and
/// expanded back to one entry per input occurrence.
pub open spec fn sort_spec(c: Seq<Seq<char>>, m: Map<Seq<char>, ModMetaData>) -> Result<
    Seq<Seq<char>>,
    SortError,
> {
    let s = c.sort_by(lex_leq());
    let u = dedup_spec(s);
    if missing_some(u, m) {
        Err(SortError::MissingData)
    } else {
        match dfs_ord(preds_spec(u, m), u.len() as int) {
            Some(ord) => Ok(expand_spec(ord, u, s)),
            None => Err(SortError::CyclicError),
        }
    }
}

/// The view of an executable sort result.
pub open spec fn sort_result_view(r: Result<Vec<String>, SortError>) -> Result<
    Seq<Seq<char>>,
    SortError,
> {
    match r {
        Ok(v) => Ok(v.deep_view()),
        Err(e) => Err(e),
    }
}

/// Determinism: the sorted order depends only on the multiset of candidates
/// (so not on the order in which they are passed) and the store.
pub proof fn lemma_sort_deterministic(
    a: Seq<Seq<char>>,
    b: Seq<Seq<char>>,
    m: Map<Seq<char>, ModMetaData>,
)
    requires
        a.to_multiset() == b.to_multiset(),
    ensures
        sort_spec(a, m) == sort_spec(b, m),
{
    lemma_lex_leq_total_ordering();
    a.lemma_sort_by_ensures(lex_leq());
    b.lemma_sort_by_ensures(lex_leq());
    lemma_sorted_unique(a.sort_by(lex_leq()), b.sort_by(lex_leq()), lex_leq());
    assert(a.sort_by(lex_leq()) == b.sort_by(lex_leq()));
}

/// Performs a topological sort on the given list of mods, against the given
/// metadata store.
///
/// The result is pinned exactly by [`sort_spec`].  On success the output is
/// a permutation of the input that respects every dependency and ordering
/// edge ([`is_pred_id`]); the call fails with [`SortError::MissingData`]
/// exactly when some candidate has no metadata record, and with
/// [`SortError::CyclicError`] when the constraints are circular.
pub fn sort(mods: &Vec<String>, mod_metadata: &MetaMap) -> (r: Result<Vec<String>, SortError>)
    ensures
        sort_result_view(r) == sort_spec(mods.deep_view(), mod_metadata@),
        r == Err::<Vec<String>, SortError>(SortError::MissingData) <==> missing_some(
            mods.deep_view(),
            mod_metadata@,
        ),
        r is Ok ==> r->Ok_0.deep_view().to_multiset() == mods.deep_view().to_multiset(),
        r is Ok ==> forall|k1: int, k2: int|
            0 <= k1 < r->Ok_0.deep_view().len() && 0 <= k2 < r->Ok_0.deep_view().len()
                && #[trigger] is_pred_id(
                mod_metadata@,
                mods.deep_view(),
                r->Ok_0.deep_view()[k1],
                r->Ok_0.deep_view()[k2],
            ) && r->Ok_0.deep_view()[k1] != r->Ok_0.deep_view()[k2] ==> k1 < k2,
{
    let ghost c = mods.deep_view();
    let ghost m = mod_metadata@;
    let sorted = sort_strings(mods);
    let uniq = dedup_sorted(&sorted);
    let ghost sdv = sorted.deep_view();
    let ghost udv = uniq.deep_view();
    proof {
        lemma_lex_leq_total_ordering();
        c.lemma_sort_by_ensures(lex_leq());
        lemma_dedup_sorted_props(sdv);
        lemma_contains_of_multiset(sdv, c);
        // a candidate is missing from the store iff a deduplicated one is
        assert(missing_some(udv, m) <==> missing_some(c, m)) by {
            if missing_some(udv, m) {
                let i = choose|i: int| 0 <= i < udv.len() && !m.contains_key(udv[i]);
                assert(udv.contains(udv[i]));
                assert(c.contains(udv[i]));
                let j = choose|j: int| 0 <= j < c.len() && c[j] == udv[i];
                assert(!m.contains_key(c[j]));
            }
            if missing_some(c, m) {
                let i = choose|i: int| 0 <= i < c.len() && !m.contains_key(c[i]);
                assert(c.contains(c[i]));
                assert(sdv.contains(c[i]));
                assert(udv.contains(c[i]));
                let j = choose|j: int| 0 <= j < udv.len() && udv[j] == c[i];
                assert(!m.contains_key(udv[j]));
            }
        }
    }
    let preds = match build_deps(&uniq, mod_metadata) {
        Ok(p) => p,
        Err(e) => {
            return Err(e);
        },
    };
    proof {
        lemma_preds_wf(udv, m);
        assert(rows_view(preds@).len() == preds_spec(udv, m).len());
        assert(preds@.len() == udv.len());
        assert(wf_graph(rows_view(preds@), preds@.len() as int));
    }
    let ord = match topo(&preds) {
        Ok(o) => o,
        Err(e) => {
            return Err(e);
        },
    };
    let ghost n = udv.len() as int;
    let ghost g = preds_spec(udv, m);
    let ghost ov = row_ints(ord@);
    proof {
        assert(dfs_ord(g, n) == Some(ov));
        lemma_dfs_ord_props(g, n);
        assert forall|k: int| 0 <= k < ord@.len() implies (#[trigger] ord@[k] as int)
            < uniq@.len() by {
            assert(ov[k] == ord@[k] as int);
            assert(0 <= ov[k] < n);
        }
    }
    let out = expand(&ord, &uniq, &sorted);
    proof {
        let odv = out.deep_view();
        assert(odv == expand_spec(ov, udv, sdv));
        // the candidate indices in the order are pairwise distinct ids
        assert forall|t1: int, t2: int| 0 <= t1 < t2 < ov.len() implies udv[ov[t1]]
            != udv[ov[t2]] by {
            assert(ov[t1] != ov[t2]);
        }
        // permutation: count every identifier
        assert forall|x: Seq<char>| true implies odv.to_multiset().count(x) == c.to_multiset().count(
            x,
        ) by {
            lemma_expand_count(ov, udv, sdv, x);
            lemma_count_occ_multiset(sdv, x);
            sdv.to_multiset_ensures();
            c.to_multiset_ensures();
            udv.to_multiset_ensures();
            if udv.contains(x) {
                lemma_idx_of(udv, x);
                let ix = choose|ix: int| 0 <= ix < udv.len() && udv[ix] == x;
                assert(ov.contains(ix));
                let t = choose|t: int| 0 <= t < ov.len() && ov[t] == ix;
                assert(udv[ov[t]] == x);
            } else {
                if exists|t: int| 0 <= t < ov.len() && udv[#[trigger] ov[t]] == x {
                    let t = choose|t: int| 0 <= t < ov.len() && udv[#[trigger] ov[t]] == x;
                    assert(udv.contains(udv[ov[t]]));
                    assert(false);
                }
                assert(!sdv.contains(x));
                assert(sdv.to_multiset().count(x) == 0) by {
                    if sdv.to_multiset().count(x) > 0 {
                        assert(sdv.contains(x));
                    }
                }
                assert(!c.contains(x));
                assert(c.to_multiset().count(x) == 0) by {
                    if c.to_multiset().count(x) > 0 {
                        assert(c.contains(x));
                    }
                }
            }
        }
        assert(odv.to_multiset() =~= c.to_multiset());
        // ordering: every edge is respected, occurrence by occurrence
        assert forall|k1: int, k2: int|
            0 <= k1 < odv.len() && 0 <= k2 < odv.len() && #[trigger] is_pred_id(
                m,
                c,
                odv[k1],
                odv[k2],
            ) && odv[k1] != odv[k2] implies k1 < k2 by {
            let p = odv[k1];
            let q = odv[k2];
            assert(sdv.contains(p));
            assert(udv.contains(p));
            assert(sdv.contains(q));
            assert(udv.contains(q));
            lemma_edge_in_row(udv, m, p, q);
            let ip = idx_of(udv, p)->Some_0;
            let iq = idx_of(udv, q)->Some_0;
            lemma_idx_of(udv, p);
            lemma_idx_of(udv, q);
            assert(g[iq].contains(ip)) by {
                assert(g[iq] == pred_row(udv, m, iq));
            }
            assert(ov.contains(iq)) by {
                assert(0 <= iq < n);
            }
            let tq = choose|tq: int| 0 <= tq < ov.len() && ov[tq] == iq;
            assert(g[ov[tq]].contains(ip));
            let tp = choose|tp: int| 0 <= tp < tq && ov[tp] == ip;
            assert forall|t: int| 0 <= t < ov.len() && t != tp implies udv[#[trigger] ov[t]]
                != udv[ov[tp]] by {
                assert(ov[t] != ov[tp]);
            }
            assert forall|t: int| 0 <= t < ov.len() && t != tq implies udv[#[trigger] ov[t]]
                != udv[ov[tq]] by {
                assert(ov[t] != ov[tq]);
            }
            lemma_expand_before(ov, udv, sdv, tp, tq);
            assert(odv[k1] == udv[ov[tp]]);
            assert(odv[k2] == udv[ov[tq]]);
        }
    }
    Ok(out)
}


/// A cycle in the predecessor graph: consecutive entries are predecessors
/// of their forerunners, and the first entry is a predecessor of the last.
pub open spec fn cycle_in(g: Seq<Seq<int>>, n: int, cyc: Seq<int>) -> bool {
    &&& cyc.len() >= 1
    &&& (forall|k: int| 0 <= k < cyc.len() ==> 0 <= #[trigger] cyc[k] < n)
    &&& (forall|k: int| 0 <= k < cyc.len() - 1 ==> g[#[trigger] cyc[k]].contains(cyc[k + 1]))
    &&& g[cyc.last()].contains(cyc[0])
}

/// A well-formed chain of in-progress nodes: consecutive entries are
/// predecessors, and the grey marks are exactly the chain's entries.
spec fn chain_ok(g: Seq<Seq<int>>, n: int, c: Seq<int>) -> bool {
    &&& (forall|k: int| 0 <= k < c.len() ==> 0 <= #[trigger] c[k] < n)
    &&& (forall|k: int| 0 <= k < c.len() - 1 ==> g[#[trigger] c[k]].contains(c[k + 1]))
}

spec fn grey_match(marks: Seq<u8>, c: Seq<int>) -> bool {
    forall|j: int| 0 <= j < marks.len() ==> ((#[trigger] marks[j] == 1u8) <==> c.contains(j))
}

proof fn lemma_visit_cyc(
    g: Seq<Seq<int>>,
    n: int,
    marks: Seq<u8>,
    out: Seq<int>,
    i: int,
    fuel: nat,
    c: Seq<int>,
)
    requires
        wf_graph(g, n),
        wf_marks(marks, n),
        dfs_inv(g, n, marks, out),
        0 <= i < n,
        chain_ok(g, n, c),
        grey_match(marks, c),
        c.len() > 0 ==> g[c.last()].contains(i),
    ensures
        visit_s(g, marks, out, i, fuel) == Some(None::<(Seq<u8>, Seq<int>)>) ==> exists|
            cyc: Seq<int>,
        | cycle_in(g, n, cyc),
    decreases fuel, 0int,
{
    if 0 <= i < marks.len() && marks[i] == 2u8 {
    } else if 0 <= i < marks.len() && marks[i] == 1u8 {
        // the chain closes: the suffix of the chain from i is a cycle
        assert(c.contains(i));
        let t = choose|t: int| 0 <= t < c.len() && c[t] == i;
        let cyc = c.subrange(t, c.len() as int);
        assert(cycle_in(g, n, cyc)) by {
            assert(cyc[0] == i);
            assert(cyc.last() == c.last());
            assert forall|k: int| 0 <= k < cyc.len() - 1 implies g[#[trigger] cyc[k]].contains(
                cyc[k + 1],
            ) by {
                assert(cyc[k] == c[t + k]);
                assert(cyc[k + 1] == c[t + k + 1]);
            }
        }
    } else if fuel == 0 {
    } else {
        let m1 = marks.update(i, 1u8);
        let c1 = c.push(i);
        assert(wf_marks(m1, n));
        assert(dfs_inv(g, n, m1, out)) by {
            assert forall|j: int| 0 <= j < n implies ((#[trigger] m1[j] == 2u8) <==> out.contains(
                j,
            )) by {
                if j == i {
                    assert(marks[i] != 2u8);
                }
            }
        }
        assert(chain_ok(g, n, c1)) by {
            assert forall|k: int| 0 <= k < c1.len() - 1 implies g[#[trigger] c1[k]].contains(
                c1[k + 1],
            ) by {
                if k < c.len() - 1 {
                    assert(c1[k] == c[k]);
                    assert(c1[k + 1] == c[k + 1]);
                } else {
                    assert(c1[k] == c.last());
                    assert(c1[k + 1] == i);
                }
            }
        }
        assert(grey_match(m1, c1)) by {
            assert forall|j: int| 0 <= j < m1.len() implies ((#[trigger] m1[j] == 1u8)
                <==> c1.contains(j)) by {
                if j == i {
                    assert(c1[c1.len() - 1] == i);
                } else {
                    if c.contains(j) {
                        let k = choose|k: int| 0 <= k < c.len() && c[k] == j;
                        assert(c1[k] == j);
                    }
                    if c1.contains(j) {
                        let k = choose|k: int| 0 <= k < c1.len() && c1[k] == j;
                        assert(c[k] == j);
                    }
                }
            }
        }
        lemma_row_cyc(g, n, m1, out, i, 0, (fuel - 1) as nat, c1);
    }
}

proof fn lemma_row_cyc(
    g: Seq<Seq<int>>,
    n: int,
    marks: Seq<u8>,
    out: Seq<int>,
    i: int,
    k: int,
    fuel: nat,
    c: Seq<int>,
)
    requires
        0 <= k,
        wf_graph(g, n),
        wf_marks(marks, n),
        dfs_inv(g, n, marks, out),
        0 <= i < n,
        chain_ok(g, n, c),
        grey_match(marks, c),
        c.len() > 0 && c.last() == i,
    ensures
        visit_row(g, marks, out, i, k, fuel) == Some(None::<(Seq<u8>, Seq<int>)>) ==> exists|
            cyc: Seq<int>,
        | cycle_in(g, n, cyc),
    decreases fuel, g[i].len() - k + 1,
{
    if !(0 <= k < g[i].len()) {
    } else {
        let child = g[i][k];
        assert(0 <= child < n);
        assert(g[c.last()].contains(child));
        lemma_visit_cyc(g, n, marks, out, child, fuel, c);
        lemma_visit_props(g, n, marks, out, child, fuel);
        match visit_s(g, marks, out, child, fuel) {
            Some(Some((mc, oc))) => {
                assert(grey_match(mc, c)) by {
                    assert forall|j: int| 0 <= j < mc.len() implies ((#[trigger] mc[j] == 1u8)
                        <==> c.contains(j)) by {
                        assert((mc[j] == 1u8) <==> (marks[j] == 1u8));
                    }
                }
                lemma_row_cyc(g, n, mc, oc, i, k + 1, fuel, c);
            },
            _ => {},
        }
    }
}

proof fn lemma_run_cyc(g: Seq<Seq<int>>, n: int, marks: Seq<u8>, out: Seq<int>, t: int)
    requires
        0 <= t,
        wf_graph(g, n),
        wf_marks(marks, n),
        dfs_inv(g, n, marks, out),
        grey_match(marks, Seq::empty()),
    ensures
        run_all(g, marks, out, t, n) == Some(None::<(Seq<u8>, Seq<int>)>) ==> exists|
            cyc: Seq<int>,
        | cycle_in(g, n, cyc),
    decreases n - t,
{
    if t >= n {
    } else {
        lemma_visit_cyc(g, n, marks, out, t, (n + 1) as nat, Seq::empty());
        lemma_visit_props(g, n, marks, out, t, (n + 1) as nat);
        match visit_s(g, marks, out, t, (n + 1) as nat) {
            Some(Some((mc, oc))) => {
                assert(grey_match(mc, Seq::empty())) by {
                    assert forall|j: int| 0 <= j < mc.len() implies ((#[trigger] mc[j] == 1u8)
                        <==> Seq::<int>::empty().contains(j)) by {
                        assert((mc[j] == 1u8) <==> (marks[j] == 1u8));
                    }
                }
                lemma_run_cyc(g, n, mc, oc, t + 1);
            },
            _ => {},
        }
    }
}

/// An order respects the graph when every entry's predecessors appear
/// earlier in it.
pub open spec fn respects_edges(g: Seq<Seq<int>>, ord: Seq<int>) -> bool {
    forall|k1: int, p: int|
        0 <= k1 < ord.len() && #[trigger] g[ord[k1]].contains(p) ==> exists|k2: int|
            0 <= k2 < k1 && ord[k2] == p
}

/// When the mirrored search reports a cycle, the graph holds one, and no
/// arrangement of the candidate indices respects every edge.
pub proof fn lemma_cyclic_no_order(g: Seq<Seq<int>>, n: int, ord: Seq<int>)
    requires
        wf_graph(g, n),
        dfs_spec(g, n) == Some(None::<(Seq<u8>, Seq<int>)>),
        forall|k: int| 0 <= k < ord.len() ==> 0 <= #[trigger] ord[k] < n,
        forall|k1: int, k2: int| 0 <= k1 < k2 < ord.len() ==> ord[k1] != ord[k2],
        forall|j: int| 0 <= j < n ==> ord.contains(j),
    ensures
        !respects_edges(g, ord),
{
    let zeros = Seq::new(n as nat, |j: int| 0u8);
    assert(wf_marks(zeros, n));
    assert(dfs_inv(g, n, zeros, Seq::<int>::empty())) by {
        assert forall|j: int| 0 <= j < n implies ((#[trigger] zeros[j] == 2u8)
            <==> Seq::<int>::empty().contains(j)) by {
            assert(zeros[j] == 0u8);
        }
    }
    assert(grey_match(zeros, Seq::empty())) by {
        assert forall|j: int| 0 <= j < zeros.len() implies ((#[trigger] zeros[j] == 1u8)
            <==> Seq::<int>::empty().contains(j)) by {
            assert(zeros[j] == 0u8);
        }
    }
    lemma_run_cyc(g, n, zeros, Seq::<int>::empty(), 0);
    let cyc = choose|cyc: Seq<int>| cycle_in(g, n, cyc);
    lemma_cycle_blocks(g, n, ord, cyc);
}

/// The position of `x` in `ord`.
spec fn pos_in(ord: Seq<int>, x: int) -> int {
    choose|t: int| 0 <= t < ord.len() && ord[t] == x
}

proof fn lemma_pos_in(ord: Seq<int>, x: int)
    requires
        ord.contains(x),
        forall|k1: int, k2: int| 0 <= k1 < k2 < ord.len() ==> ord[k1] != ord[k2],
    ensures
        0 <= pos_in(ord, x) < ord.len(),
        ord[pos_in(ord, x)] == x,
        forall|t: int| 0 <= t < ord.len() && ord[t] == x ==> t == pos_in(ord, x),
{
    let w = choose|t: int| 0 <= t < ord.len() && ord[t] == x;
    assert(ord[pos_in(ord, x)] == x);
    assert forall|t: int| 0 <= t < ord.len() && ord[t] == x implies t == pos_in(ord, x) by {
        if t < pos_in(ord, x) {
        } else if t > pos_in(ord, x) {
        }
    }
}

proof fn lemma_cycle_blocks(g: Seq<Seq<int>>, n: int, ord: Seq<int>, cyc: Seq<int>)
    requires
        wf_graph(g, n),
        cycle_in(g, n, cyc),
        forall|k: int| 0 <= k < ord.len() ==> 0 <= #[trigger] ord[k] < n,
        forall|k1: int, k2: int| 0 <= k1 < k2 < ord.len() ==> ord[k1] != ord[k2],
        forall|j: int| 0 <= j < n ==> ord.contains(j),
    ensures
        !respects_edges(g, ord),
{
    if respects_edges(g, ord) {
        // along the cycle, positions strictly decrease
        assert forall|k: int| 0 <= k < cyc.len() - 1 implies pos_in(ord, cyc[k + 1]) < pos_in(
            ord,
            #[trigger] cyc[k],
        ) by {
            lemma_edge_pos(g, n, ord, cyc[k], cyc[k + 1]);
        }
        lemma_pos_chain(g, n, ord, cyc, cyc.len() - 1);
        // and the closing edge forces the opposite
        lemma_edge_pos(g, n, ord, cyc.last(), cyc[0]);
        assert(false);
    }
}

proof fn lemma_edge_pos(g: Seq<Seq<int>>, n: int, ord: Seq<int>, x: int, p: int)
    requires
        wf_graph(g, n),
        respects_edges(g, ord),
        0 <= x < n,
        g[x].contains(p),
        forall|k: int| 0 <= k < ord.len() ==> 0 <= #[trigger] ord[k] < n,
        forall|k1: int, k2: int| 0 <= k1 < k2 < ord.len() ==> ord[k1] != ord[k2],
        forall|j: int| 0 <= j < n ==> ord.contains(j),
    ensures
        pos_in(ord, p) < pos_in(ord, x),
{
    assert(ord.contains(x));
    lemma_pos_in(ord, x);
    let t = pos_in(ord, x);
    assert(g[ord[t]].contains(p));
    let k2 = choose|k2: int| 0 <= k2 < t && ord[k2] == p;
    assert(0 <= p < n) by {
        assert(ord[k2] == p);
    }
    assert(ord.contains(p)) by {
        assert(ord[k2] == p);
    }
    lemma_pos_in(ord, p);
    assert(pos_in(ord, p) == k2);
}

proof fn lemma_pos_chain(g: Seq<Seq<int>>, n: int, ord: Seq<int>, cyc: Seq<int>, k: int)
    requires
        0 <= k < cyc.len(),
        forall|j: int|
            0 <= j < cyc.len() - 1 ==> pos_in(ord, cyc[j + 1]) < pos_in(ord, #[trigger] cyc[j]),
    ensures
        pos_in(ord, cyc[k]) <= pos_in(ord, cyc[0]) - k,
    decreases k,
{
    if k == 0 {
    } else {
        lemma_pos_chain(g, n, ord, cyc, k - 1);
        assert(pos_in(ord, cyc[k]) < pos_in(ord, cyc[k - 1]));
    }
}


proof fn lemma_visit_no_out(g: Seq<Seq<int>>, n: int, marks: Seq<u8>, out: Seq<int>, i: int, fuel: nat)
    requires
        wf_graph(g, n),
        wf_marks(marks, n),
        0 <= i < n,
        fuel > cnt0(marks),
    ensures
        visit_s(g, marks, out, i, fuel) is Some,
        match visit_s(g, marks, out, i, fuel) {
            Some(Some((m2, o2))) => wf_marks(m2, n) && cnt0(m2) <= cnt0(marks),
            _ => true,
        },
    decreases fuel, 0int,
{
    lemma_cnt0_bounds(marks);
    if 0 <= i < marks.len() && marks[i] == 2u8 {
    } else if 0 <= i < marks.len() && marks[i] == 1u8 {
    } else {
        let m1 = marks.update(i, 1u8);
        lemma_cnt0_update(marks, i, 1u8);
        assert(wf_marks(m1, n));
        lemma_row_no_out(g, n, m1, out, i, 0, (fuel - 1) as nat);
        match visit_row(g, m1, out, i, 0, (fuel - 1) as nat) {
            Some(Some((m2, o2))) => {
                lemma_cnt0_update(m2, i, 2u8);
            },
            _ => {},
        }
    }
}

proof fn lemma_row_no_out(g: Seq<Seq<int>>, n: int, marks: Seq<u8>, out: Seq<int>, i: int, k: int, fuel: nat)
    requires
        0 <= k,
        wf_graph(g, n),
        wf_marks(marks, n),
        0 <= i < n,
        fuel > cnt0(marks),
    ensures
        visit_row(g, marks, out, i, k, fuel) is Some,
        match visit_row(g, marks, out, i, k, fuel) {
            Some(Some((m2, o2))) => wf_marks(m2, n) && cnt0(m2) <= cnt0(marks),
            _ => true,
        },
    decreases fuel, g[i].len() - k + 1,
{
    if !(0 <= k < g[i].len()) {
    } else {
        let child = g[i][k];
        lemma_visit_no_out(g, n, marks, out, child, fuel);
        match visit_s(g, marks, out, child, fuel) {
            Some(Some((mc, oc))) => {
                lemma_row_no_out(g, n, mc, oc, i, k + 1, fuel);
            },
            _ => {},
        }
    }
}

proof fn lemma_run_no_out(g: Seq<Seq<int>>, n: int, marks: Seq<u8>, out: Seq<int>, t: int)
    requires
        0 <= t,
        wf_graph(g, n),
        wf_marks(marks, n),
    ensures
        run_all(g, marks, out, t, n) is Some,
    decreases n - t,
{
    if t >= n {
    } else {
        lemma_cnt0_bounds(marks);
        lemma_visit_no_out(g, n, marks, out, t, (n + 1) as nat);
        match visit_s(g, marks, out, t, (n + 1) as nat) {
            Some(Some((mc, oc))) => {
                lemma_run_no_out(g, n, mc, oc, t + 1);
            },
            _ => {},
        }
    }
}

/// The search always has enough fuel: it either succeeds or reports a
/// cycle.
pub proof fn lemma_dfs_decided(g: Seq<Seq<int>>, n: int)
    requires
        wf_graph(g, n),
    ensures
        dfs_spec(g, n) is Some,
{
    let zeros = Seq::new(n as nat, |j: int| 0u8);
    assert(wf_marks(zeros, n));
    lemma_run_no_out(g, n, zeros, Seq::<int>::empty(), 0);
}

/// Cycle detection is sound: when [`sort_spec`] reports a cycle, no
/// arrangement of the candidate indices respects every edge of the graph
/// built over the sorted, deduplicated candidates.
pub proof fn lemma_cyclic_sort_unorderable(
    c: Seq<Seq<char>>,
    m: Map<Seq<char>, ModMetaData>,
    ord: Seq<int>,
)
    requires
        sort_spec(c, m) == Err::<Seq<Seq<char>>, SortError>(SortError::CyclicError),
        ({
            let u = dedup_spec(c.sort_by(lex_leq()));
            &&& (forall|k: int| 0 <= k < ord.len() ==> 0 <= #[trigger] ord[k] < u.len())
            &&& (forall|k1: int, k2: int| 0 <= k1 < k2 < ord.len() ==> ord[k1] != ord[k2])
            &&& (forall|j: int| 0 <= j < u.len() ==> ord.contains(j))
        }),
    ensures
        !respects_edges(preds_spec(dedup_spec(c.sort_by(lex_leq())), m), ord),
{
    let u = dedup_spec(c.sort_by(lex_leq()));
    let g = preds_spec(u, m);
    let n = u.len() as int;
    lemma_preds_wf(u, m);
    lemma_dfs_decided(g, n);
    assert(dfs_spec(g, n) == Some(None::<(Seq<u8>, Seq<int>)>));
    lemma_cyclic_no_order(g, n, ord);
}

} // verus!
