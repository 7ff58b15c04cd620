//! Verified string utilities: equality, lexicographic comparison and
//! lexicographic sorting of string vectors.

use vstd::prelude::*;
use vstd::relations::{sorted_by, total_ordering};
use vstd::seq_lib::lemma_sorted_unique;
use vstd::string::StringExecFns;

verus! {

/// Lexicographic "less or equal" over character sequences, ordering characters
/// by their Unicode scalar values.  This matches the ordering of Rust's
/// `Ord for str`, which compares UTF-8 bytes and thereby scalar values.
pub open spec fn lex_le(a: Seq<char>, b: Seq<char>) -> bool
    decreases a.len(),
{
    if a.len() == 0 {
        true
    } else if b.len() == 0 {
        false
    } else if a[0] == b[0] {
        lex_le(a.drop_first(), b.drop_first())
    } else {
        a[0] < b[0]
    }
}

/// The spec-level order used for sorting package identifiers.
pub open spec fn lex_leq() -> spec_fn(Seq<char>, Seq<char>) -> bool {
    |a: Seq<char>, b: Seq<char>| lex_le(a, b)
}

pub proof fn lemma_lex_le_total(a: Seq<char>, b: Seq<char>)
    ensures
        lex_le(a, b) || lex_le(b, a),
        lex_le(a, b) && lex_le(b, a) ==> a == b,
    decreases a.len(),
{
    if a.len() == 0 || b.len() == 0 {
        if lex_le(a, b) && lex_le(b, a) {
            assert(a =~= b);
        }
    } else if a[0] == b[0] {
        lemma_lex_le_total(a.drop_first(), b.drop_first());
        if lex_le(a, b) && lex_le(b, a) {
            assert(a =~= seq![a[0]] + a.drop_first());
            assert(b =~= seq![b[0]] + b.drop_first());
        }
    }
}

pub proof fn lemma_lex_le_trans(a: Seq<char>, b: Seq<char>, c: Seq<char>)
    requires
        lex_le(a, b),
        lex_le(b, c),
    ensures
        lex_le(a, c),
    decreases a.len(),
{
    if a.len() == 0 {
    } else if b.len() == 0 {
    } else if c.len() == 0 {
    } else {
        if a[0] == b[0] && b[0] == c[0] {
            lemma_lex_le_trans(a.drop_first(), b.drop_first(), c.drop_first());
        }
    }
}

pub proof fn lemma_lex_leq_total_ordering()
    ensures
        total_ordering(lex_leq()),
{
    let leq = lex_leq();
    assert forall|a: Seq<char>| #[trigger] leq(a, a) by {
        lemma_lex_le_total(a, a);
    }
    assert forall|a: Seq<char>, b: Seq<char>| #[trigger] leq(a, b) && #[trigger] leq(b, a)
        implies a == b by {
        lemma_lex_le_total(a, b);
    }
    assert forall|a: Seq<char>, b: Seq<char>, c: Seq<char>| #[trigger] leq(a, b) && #[trigger] leq(
        b,
        c,
    ) implies leq(a, c) by {
        lemma_lex_le_trans(a, b, c);
    }
    assert forall|a: Seq<char>, b: Seq<char>| !(#[trigger] leq(a, b)) implies leq(b, a) by {
        lemma_lex_le_total(a, b);
    }
}

/// Decides equality of two string slices at the level of their character views.
pub fn str_eq(a: &str, b: &str) -> (r: bool)
    ensures
        r == (a@ == b@),
{
    let sa = a.to_owned();
    let sb = b.to_owned();
    sa == sb
}

/// Decides [`lex_le`] on two string slices, character by character.
pub fn str_le(a: &str, b: &str) -> (r: bool)
    ensures
        r == lex_le(a@, b@),
{
    let la = a.unicode_len();
    let lb = b.unicode_len();
    let mut i: usize = 0;
    proof {
        assert(a@.skip(0) =~= a@);
        assert(b@.skip(0) =~= b@);
    }
    loop
        invariant
            i <= la,
            i <= lb,
            la == a@.len(),
            lb == b@.len(),
            lex_le(a@, b@) == lex_le(a@.skip(i as int), b@.skip(i as int)),
        decreases la - i,
    {
        if i >= la {
            return true;
        }
        if i >= lb {
            return false;
        }
        let ca = a.get_char(i);
        let cb = b.get_char(i);
        if ca == cb {
            proof {
                assert(a@.skip(i as int).drop_first() =~= a@.skip(i + 1));
                assert(b@.skip(i as int).drop_first() =~= b@.skip(i + 1));
            }
            i = i + 1;
        } else {
            return ca < cb;
        }
    }
}

/// Clones a string, keeping its character view.
pub fn clone_string(s: &String) -> (r: String)
    ensures
        r@ == s@,
{
    s.clone()
}

/// Scans the sorted vector for the position where `s` belongs: every string
/// before the result is `lex_le` to `s`, and the string at the result (if any)
/// is not.
fn find_insert_pos(out: &Vec<String>, s: &String) -> (j: usize)
    requires
        sorted_by(out.deep_view(), lex_leq()),
    ensures
        j <= out.len(),
        forall|k: int| 0 <= k < j ==> lex_le(#[trigger] out.deep_view()[k], s@),
        j < out.len() ==> !lex_le(out.deep_view()[j as int], s@),
{
    let mut j: usize = 0;
    while j < out.len()
        invariant
            j <= out.len(),
            forall|k: int| 0 <= k < j ==> lex_le(#[trigger] out.deep_view()[k], s@),
        decreases out.len() - j,
    {
        if !str_le(out[j].as_str(), s.as_str()) {
            return j;
        }
        j = j + 1;
    }
    j
}

/// Inserts `s` into the sorted vector `out`, keeping it sorted.
fn insert_sorted(out: &mut Vec<String>, s: String)
    requires
        sorted_by(old(out).deep_view(), lex_leq()),
    ensures
        sorted_by(final(out).deep_view(), lex_leq()),
        final(out).deep_view().to_multiset() == old(out).deep_view().to_multiset().insert(s@),
{
    broadcast use vstd::multiset::group_multiset_axioms;

    let ghost pre = old(out).deep_view();
    let ghost pre_strings: Seq<String> = old(out)@;
    let ghost sv = s@;
    let ghost s_ghost: String = s;
    let j = find_insert_pos(out, &s);
    proof {
        if j < out.len() {
            lemma_lex_le_total(pre[j as int], sv);
        }
    }
    out.insert(j, s);
    proof {
        let dv = out.deep_view();
        pre.insert_ensures(j as int, sv);
        pre_strings.insert_ensures(j as int, s_ghost);
        assert forall|k: int| 0 <= k < dv.len() implies #[trigger] dv[k] == pre.insert(
            j as int,
            sv,
        )[k] by {
            if k < j {
                assert(out@[k] == pre_strings[k]);
            } else if k == j {
                assert(out@[k] == s_ghost);
            } else {
                assert(out@[k] == pre_strings[k - 1]);
            }
        }
        assert(dv =~= pre.insert(j as int, sv));
        // Sortedness of the extended sequence.
        assert forall|k1: int, k2: int| 0 <= k1 <= k2 < dv.len() implies lex_le(
            #[trigger] dv[k1],
            #[trigger] dv[k2],
        ) by {
            lemma_lex_le_total(dv[k1], dv[k1]);
            if k2 < j {
                lemma_sorted_le(pre, k1, k2);
            } else if k1 < j && k2 == j {
                assert(lex_le(pre[k1], sv));
            } else if k2 > j {
                assert(lex_le(sv, pre[k2 - 1])) by {
                    assert(lex_le(sv, pre[j as int]));
                    lemma_sorted_le(pre, j as int, k2 - 1);
                    lemma_lex_le_trans(sv, pre[j as int], pre[k2 - 1]);
                }
                if k1 < j {
                    assert(lex_le(pre[k1], sv));
                    lemma_lex_le_trans(pre[k1], sv, pre[k2 - 1]);
                } else if k1 > j {
                    lemma_sorted_le(pre, k1 - 1, k2 - 1);
                }
            }
        }
        // Multiset bookkeeping: removing the inserted element gives back `pre`.
        dv.to_multiset_ensures();
        pre.to_multiset_ensures();
        assert(dv.remove(j as int) =~= pre);
        assert(dv.to_multiset().remove(sv) == pre.to_multiset());
        assert(dv.to_multiset().count(sv) > 0) by {
            assert(dv[j as int] == sv);
            assert(dv.contains(sv));
        }
        assert forall|a: Seq<char>| true implies #[trigger] dv.to_multiset().count(a)
            == pre.to_multiset().insert(sv).count(a) by {
            if a == sv {
                assert(pre.to_multiset().count(sv) == dv.to_multiset().remove(sv).count(sv));
            } else {
                assert(pre.to_multiset().count(a) == dv.to_multiset().remove(sv).count(a));
            }
        }
        assert(dv.to_multiset() =~= pre.to_multiset().insert(sv));
    }
}

pub proof fn lemma_sorted_le(s: Seq<Seq<char>>, i: int, k: int)
    requires
        sorted_by(s, lex_leq()),
        0 <= i <= k < s.len(),
    ensures
        lex_le(s[i], s[k]),
{
    if i == k {
        lemma_lex_le_total(s[i], s[i]);
    } else {
        assert(lex_leq()(s[i], s[k]));
    }
}

/// Sorts a vector of strings into lexicographic order; the result is exactly
/// the spec-level [`Seq::sort_by`] of the input under [`lex_leq`].
pub fn sort_strings(v: &Vec<String>) -> (r: Vec<String>)
    ensures
        r.deep_view() == v.deep_view().sort_by(lex_leq()),
        r.deep_view().to_multiset() == v.deep_view().to_multiset(),
        sorted_by(r.deep_view(), lex_leq()),
{
    let mut out: Vec<String> = Vec::new();
    let mut idx: usize = 0;
    proof {
        assert(out.deep_view() =~= Seq::<Seq<char>>::empty());
        assert(v.deep_view().subrange(0, 0) =~= Seq::<Seq<char>>::empty());
    }
    while idx < v.len()
        invariant
            idx <= v.len(),
            v.deep_view().len() == v.len(),
            sorted_by(out.deep_view(), lex_leq()),
            out.deep_view().to_multiset() == v.deep_view().subrange(0, idx as int).to_multiset(),
        decreases v.len() - idx,
    {
        let s = clone_string(&v[idx]);
        proof {
            assert(s@ == v.deep_view()[idx as int]);
        }
        insert_sorted(&mut out, s);
        proof {
            let dv = v.deep_view();
            let prefix = dv.subrange(0, idx as int);
            prefix.to_multiset_ensures();
            assert(dv.subrange(0, idx + 1) =~= prefix.push(dv[idx as int]));
        }
        idx = idx + 1;
    }
    proof {
        lemma_lex_leq_total_ordering();
        assert(v.deep_view().subrange(0, v.len() as int) =~= v.deep_view());
        v.deep_view().lemma_sort_by_ensures(lex_leq());
        lemma_sorted_unique(out.deep_view(), v.deep_view().sort_by(lex_leq()), lex_leq());
    }
    out
}


/// Whether the vector contains a string with the view `x@`.
pub fn contains_str(v: &Vec<String>, x: &str) -> (r: bool)
    ensures
        r == v.deep_view().contains(x@),
{
    let ghost dv = v.deep_view();
    let mut i: usize = 0;
    while i < v.len()
        invariant
            i <= v.len(),
            dv == v.deep_view(),
            dv.len() == v.len(),
            forall|k: int| 0 <= k < i ==> dv[k] != x@,
        decreases v.len() - i,
    {
        if str_eq(v[i].as_str(), x) {
            proof {
                assert(dv[i as int] == x@);
            }
            return true;
        }
        i = i + 1;
    }
    proof {
        if dv.contains(x@) {
            let k = choose|k: int| 0 <= k < dv.len() && dv[k] == x@;
        }
    }
    false
}

/// Concatenates three string slices.
pub fn concat3(a: &str, b: &str, c: &str) -> (r: String)
    ensures
        r@ == a@ + b@ + c@,
{
    let mut s = a.to_owned();
    s.append(b);
    s.append(c);
    s
}

} // verus!
