//! Pattern-based extraction of fields from `About.xml` text.
//!
//! A tag's content runs greedily from the first opening tag to the last
//! closing tag in the text, while `<li>` items are matched non-greedily,
//! one by one.

#![allow(non_snake_case)]

use crate::mods::Dependency;
use vstd::prelude::*;
use vstd::string::StrSliceExecFns;

verus! {

/// The pattern `p` occurs in `t` starting at position `i`.
pub open spec fn match_at(t: Seq<char>, p: Seq<char>, i: int) -> bool {
    0 <= i && i + p.len() <= t.len() && t.subrange(i, i + p.len()) == p
}

/// The first position at or after `from` where `p` matches, if any.
pub open spec fn first_at(t: Seq<char>, p: Seq<char>, from: int) -> Option<int>
    decreases t.len() + 1 - from,
{
    if !(0 <= from && from + p.len() <= t.len()) {
        None
    } else if match_at(t, p, from) {
        Some(from)
    } else {
        first_at(t, p, from + 1)
    }
}

/// The last position at or before `upto` where `p` matches, if any.
pub open spec fn last_at(t: Seq<char>, p: Seq<char>, upto: int) -> Option<int>
    decreases upto + 1,
{
    if upto < 0 {
        None
    } else if match_at(t, p, upto) {
        Some(upto)
    } else {
        last_at(t, p, upto - 1)
    }
}

pub proof fn lemma_first_at(t: Seq<char>, p: Seq<char>, from: int)
    requires
        0 <= from,
    ensures
        match first_at(t, p, from) {
            Some(i) => from <= i && match_at(t, p, i) && forall|k: int|
                from <= k < i ==> !match_at(t, p, k),
            None => forall|k: int| from <= k ==> !match_at(t, p, k),
        },
    decreases t.len() + 1 - from,
{
    if !(0 <= from && from + p.len() <= t.len()) {
        assert forall|k: int| from <= k implies !match_at(t, p, k) by {
            if match_at(t, p, k) {
                assert(k + p.len() <= t.len());
            }
        }
    } else if match_at(t, p, from) {
    } else {
        lemma_first_at(t, p, from + 1);
    }
}

pub proof fn lemma_last_at(t: Seq<char>, p: Seq<char>, upto: int)
    ensures
        match last_at(t, p, upto) {
            Some(j) => j <= upto && match_at(t, p, j) && forall|k: int|
                j < k <= upto ==> !match_at(t, p, k),
            None => forall|k: int| k <= upto ==> !match_at(t, p, k),
        },
    decreases upto + 1,
{
    if upto < 0 {
    } else if match_at(t, p, upto) {
    } else {
        lemma_last_at(t, p, upto - 1);
    }
}

/// The capture of the greedy pattern `o … c`: from the first occurrence of
/// `o` to the last occurrence of `c` after it.
pub open spec fn capture_spec(t: Seq<char>, o: Seq<char>, c: Seq<char>) -> Option<Seq<char>> {
    match (first_at(t, o, 0), last_at(t, c, t.len() as int)) {
        (Some(i), Some(j)) => if i + o.len() <= j {
            Some(t.subrange(i + o.len(), j))
        } else {
            None
        },
        _ => None,
    }
}

/// The whole greedy match `o … c`, tags included.
pub open spec fn region_spec(t: Seq<char>, o: Seq<char>, c: Seq<char>) -> Option<Seq<char>> {
    match (first_at(t, o, 0), last_at(t, c, t.len() as int)) {
        (Some(i), Some(j)) => if i + o.len() <= j {
            Some(t.subrange(i, j + c.len()))
        } else {
            None
        },
        _ => None,
    }
}

/// Decides [`match_at`].
fn check_match(t: &str, p: &str, i: usize) -> (r: bool)
    ensures
        r == match_at(t@, p@, i as int),
{
    let tl = t.unicode_len();
    let pl = p.unicode_len();
    if i > tl || pl > tl - i {
        return false;
    }
    let mut k: usize = 0;
    while k < pl
        invariant
            k <= pl,
            tl == t@.len(),
            pl == p@.len(),
            i + pl <= tl,
            forall|j: int| 0 <= j < k ==> t@[i + j] == p@[j],
        decreases pl - k,
    {
        if t.get_char(i + k) != p.get_char(k) {
            proof {
                assert(t@[i + k] != p@[k as int]);
                if match_at(t@, p@, i as int) {
                    assert(t@.subrange(i as int, i + p@.len())[k as int] == p@[k as int]);
                }
            }
            return false;
        }
        k = k + 1;
    }
    proof {
        assert(t@.subrange(i as int, i + p@.len()) =~= p@);
    }
    true
}

/// Finds the first occurrence of `p` in `t` at or after `from`.
fn find_first(t: &str, p: &str, from: usize) -> (r: Option<usize>)
    ensures
        match r {
            Some(i) => first_at(t@, p@, from as int) == Some(i as int),
            None => first_at(t@, p@, from as int) is None,
        },
{
    let tl = t.unicode_len();
    let pl = p.unicode_len();
    let mut i: usize = from;
    loop
        invariant
            from <= i,
            tl == t@.len(),
            pl == p@.len(),
            first_at(t@, p@, from as int) == first_at(t@, p@, i as int),
        decreases tl + 1 - i,
    {
        if i > tl || pl > tl - i {
            proof {
                assert(first_at(t@, p@, i as int) is None);
            }
            return None;
        }
        if check_match(t, p, i) {
            proof {
                assert(first_at(t@, p@, i as int) == Some(i as int));
            }
            return Some(i);
        }
        proof {
            if p@.len() == 0 {
                assert(t@.subrange(i as int, i as int) =~= p@);
                assert(match_at(t@, p@, i as int));
            }
        }
        i = i + 1;
    }
}

/// Finds the last occurrence of `p` in `t`.
fn find_last(t: &str, p: &str) -> (r: Option<usize>)
    ensures
        match r {
            Some(j) => last_at(t@, p@, t@.len() as int) == Some(j as int),
            None => last_at(t@, p@, t@.len() as int) is None,
        },
{
    let tl = t.unicode_len();
    let mut j: usize = tl;
    loop
        invariant
            j <= tl,
            tl == t@.len(),
            last_at(t@, p@, tl as int) == last_at(t@, p@, j as int),
        decreases j + 1,
    {
        if check_match(t, p, j) {
            proof {
                assert(last_at(t@, p@, j as int) == Some(j as int));
            }
            return Some(j);
        }
        if j == 0 {
            proof {
                assert(last_at(t@, p@, 0) is None);
                assert(last_at(t@, p@, -1) is None);
            }
            return None;
        }
        j = j - 1;
    }
}

/// Copies the characters `a .. b` of `t` into an owned string.
fn substring(t: &str, a: usize, b: usize) -> (r: String)
    requires
        a <= b <= t@.len(),
    ensures
        r@ == t@.subrange(a as int, b as int),
{
    t.substring_char(a, b).to_owned()
}

/// Extracts the greedy capture between `open_tag` and `close_tag`.
fn parse_tag(text: &str, open_tag: &str, close_tag: &str) -> (r: Option<String>)
    ensures
        match r {
            Some(s) => capture_spec(text@, open_tag@, close_tag@) == Some(s@),
            None => capture_spec(text@, open_tag@, close_tag@) is None,
        },
{
    let tl = text.unicode_len();
    let i = match find_first(text, open_tag, 0) {
        Some(i) => i,
        None => {
            return None;
        },
    };
    let j = match find_last(text, close_tag) {
        Some(j) => j,
        None => {
            return None;
        },
    };
    proof {
        lemma_first_at(text@, open_tag@, 0);
        lemma_last_at(text@, close_tag@, text@.len() as int);
        assert(i + open_tag@.len() <= text@.len());
    }
    let start = i + open_tag.unicode_len();
    if start <= j {
        Some(substring(text, start, j))
    } else {
        None
    }
}

/// Extracts the whole greedy region between `open_tag` and `close_tag`,
/// tags included.
fn parse_region(text: &str, open_tag: &str, close_tag: &str) -> (r: Option<String>)
    ensures
        match r {
            Some(s) => region_spec(text@, open_tag@, close_tag@) == Some(s@),
            None => region_spec(text@, open_tag@, close_tag@) is None,
        },
{
    let tl = text.unicode_len();
    let i = match find_first(text, open_tag, 0) {
        Some(i) => i,
        None => {
            return None;
        },
    };
    let j = match find_last(text, close_tag) {
        Some(j) => j,
        None => {
            return None;
        },
    };
    proof {
        lemma_first_at(text@, open_tag@, 0);
        lemma_last_at(text@, close_tag@, text@.len() as int);
        assert(i + open_tag@.len() <= text@.len());
        assert(j + close_tag@.len() <= text@.len());
    }
    let start = i + open_tag.unicode_len();
    if start <= j {
        Some(substring(text, i, j + close_tag.unicode_len()))
    } else {
        None
    }
}

/// The `<li>…</li>` items of `t`, matched non-greedily from `from` on.
pub open spec fn lis_spec(t: Seq<char>, from: int) -> Seq<Seq<char>>
    decreases t.len() - from,
    when from >= 0
    via lis_spec_dec
{
    match first_at(t, "<li>"@, from) {
        None => Seq::empty(),
        Some(i) => match first_at(t, "</li>"@, i + 4) {
            None => Seq::empty(),
            Some(j) => seq![t.subrange(i + 4, j)] + lis_spec(t, j + 5),
        },
    }
}

#[via_fn]
proof fn lis_spec_dec(t: Seq<char>, from: int) {
    lemma_first_at(t, "<li>"@, from);
    match first_at(t, "<li>"@, from) {
        None => {},
        Some(i) => {
            lemma_first_at(t, "</li>"@, i + 4);
            reveal_strlit("<li>");
            reveal_strlit("</li>");
        },
    }
}

/// Extracts the `<li>` items of `text`, in order.
pub fn parse_lis(text: &str) -> (r: Vec<String>)
    ensures
        r.deep_view() == lis_spec(text@, 0),
{
    let mut out: Vec<String> = Vec::new();
    let mut from: usize = 0;
    let ghost t = text@;
    let tl = text.unicode_len();
    proof {
        assert(out.deep_view() =~= Seq::<Seq<char>>::empty());
    }
    loop
        invariant
            t == text@,
            tl == t.len(),
            lis_spec(t, 0) == out.deep_view() + lis_spec(t, from as int),
            from <= t.len() + 5,
        decreases t.len() + 5 - from,
    {
        let i = match find_first(text, "<li>", from) {
            Some(i) => i,
            None => {
                proof {
                    assert(lis_spec(t, from as int) =~= Seq::<Seq<char>>::empty());
                    assert(lis_spec(t, 0) =~= out.deep_view());
                }
                return out;
            },
        };
        proof {
            lemma_first_at(t, "<li>"@, from as int);
            reveal_strlit("<li>");
            reveal_strlit("</li>");
            assert(i + 4 <= t.len());
        }
        let j = match find_first(text, "</li>", i + 4) {
            Some(j) => j,
            None => {
                proof {
                    assert(lis_spec(t, from as int) =~= Seq::<Seq<char>>::empty());
                    assert(lis_spec(t, 0) =~= out.deep_view());
                }
                return out;
            },
        };
        proof {
            lemma_first_at(t, "</li>"@, i + 4);
            assert(j + 5 <= t.len());
        }
        let ghost pre = out.deep_view();
        let item = substring(text, i + 4, j);
        out.push(item);
        proof {
            assert(out.deep_view() =~= pre.push(t.subrange(i + 4, j as int)));
            assert(lis_spec(t, from as int) == seq![t.subrange(i + 4, j as int)] + lis_spec(
                t,
                j + 5,
            ));
            assert(lis_spec(t, 0) =~= out.deep_view() + lis_spec(t, j + 5));
        }
        from = j + 5;
    }
}

/// Keeps the first occurrence of every item.
pub open spec fn dedup_first(s: Seq<Seq<char>>) -> Seq<Seq<char>>
    decreases s.len(),
{
    if s.len() == 0 {
        Seq::empty()
    } else {
        let r = dedup_first(s.drop_last());
        if r.contains(s.last()) {
            r
        } else {
            r.push(s.last())
        }
    }
}

/// Extracts the `<li>` items of `text` as a duplicate-free list, keeping
/// first occurrences in order.
pub fn parse_lis_hashset(text: &str) -> (r: Vec<String>)
    ensures
        r.deep_view() == dedup_first(lis_spec(text@, 0)),
{
    let items = parse_lis(text);
    dedup_strings(&items)
}

/// Removes repeated strings, keeping the first occurrence of each.
fn dedup_strings(items: &Vec<String>) -> (r: Vec<String>)
    ensures
        r.deep_view() == dedup_first(items.deep_view()),
{
    let ghost dv = items.deep_view();
    let mut out: Vec<String> = Vec::new();
    let mut i: usize = 0;
    proof {
        assert(dv.subrange(0, 0) =~= Seq::empty());
        assert(out.deep_view() =~= dedup_first(dv.subrange(0, 0)));
    }
    while i < items.len()
        invariant
            i <= items.len(),
            dv == items.deep_view(),
            dv.len() == items.len(),
            out.deep_view() == dedup_first(dv.subrange(0, i as int)),
        decreases items.len() - i,
    {
        let ghost pre = out.deep_view();
        if !crate::helpers::strings::contains_str(&out, items[i].as_str()) {
            let s = crate::helpers::strings::clone_string(&items[i]);
            out.push(s);
            proof {
                assert(out.deep_view() =~= pre.push(dv[i as int]));
            }
        }
        proof {
            let sub1 = dv.subrange(0, i + 1);
            assert(sub1.drop_last() =~= dv.subrange(0, i as int));
            assert(sub1.last() == dv[i as int]);
        }
        i = i + 1;
    }
    proof {
        assert(dv.subrange(0, dv.len() as int) =~= dv);
    }
    out
}

/// The mod's name.
pub fn parse_name(text: &str) -> (r: Option<String>)
    ensures
        match r {
            Some(s) => capture_spec(text@, "<name>"@, "</name>"@) == Some(s@),
            None => capture_spec(text@, "<name>"@, "</name>"@) is None,
        },
{
    parse_tag(text, "<name>", "</name>")
}

/// The mod's author.
pub fn parse_author(text: &str) -> (r: Option<String>)
    ensures
        match r {
            Some(s) => capture_spec(text@, "<author>"@, "</author>"@) == Some(s@),
            None => capture_spec(text@, "<author>"@, "</author>"@) is None,
        },
{
    parse_tag(text, "<author>", "</author>")
}

/// The mod's author list.
pub fn parse_authors(text: &str) -> (r: Option<Vec<String>>)
    ensures
        match (r, region_spec(text@, "<authors>"@, "</authors>"@)) {
            (Some(v), Some(reg)) => v.deep_view() == lis_spec(reg, 0),
            (None, None) => true,
            _ => false,
        },
{
    match parse_region(text, "<authors>", "</authors>") {
        Some(reg) => Some(parse_lis(reg.as_str())),
        None => None,
    }
}

/// The mod's homepage address.
pub fn parse_url(text: &str) -> (r: Option<String>)
    ensures
        match r {
            Some(s) => capture_spec(text@, "<url>"@, "</url>"@) == Some(s@),
            None => capture_spec(text@, "<url>"@, "</url>"@) is None,
        },
{
    parse_tag(text, "<url>", "</url>")
}

/// The mod's package identifier.
pub fn parse_packageId(text: &str) -> (r: Option<String>)
    ensures
        match r {
            Some(s) => capture_spec(text@, "<packageId>"@, "</packageId>"@) == Some(s@),
            None => capture_spec(text@, "<packageId>"@, "</packageId>"@) is None,
        },
{
    parse_tag(text, "<packageId>", "</packageId>")
}

/// The supported game versions.
pub fn parse_supportedVersions(text: &str) -> (r: Option<Vec<String>>)
    ensures
        match (r, region_spec(text@, "<supportedVersions>"@, "</supportedVersions>"@)) {
            (Some(v), Some(reg)) => v.deep_view() == dedup_first(lis_spec(reg, 0)),
            (None, None) => true,
            _ => false,
        },
{
    match parse_region(text, "<supportedVersions>", "</supportedVersions>") {
        Some(reg) => Some(parse_lis_hashset(reg.as_str())),
        None => None,
    }
}

/// The mod's description.
pub fn parse_description(text: &str) -> (r: Option<String>)
    ensures
        match r {
            Some(s) => capture_spec(text@, "<description>"@, "</description>"@) == Some(s@),
            None => capture_spec(text@, "<description>"@, "</description>"@) is None,
        },
{
    parse_tag(text, "<description>", "</description>")
}

/// The view of an optional string.
pub open spec fn opt_str_view(o: Option<String>) -> Option<Seq<char>> {
    match o {
        Some(s) => Some(s@),
        None => None,
    }
}

/// The hard dependencies: one `<li>` item each, with the four known fields
/// extracted from the item's text.
pub fn parse_modDependencies(text: &str) -> (r: Option<Vec<Dependency>>)
    ensures
        match (r, region_spec(text@, "<modDependencies>"@, "</modDependencies>"@)) {
            (Some(ds), Some(reg)) => {
                let lis = lis_spec(reg, 0);
                &&& ds@.len() == lis.len()
                &&& (forall|k: int|
                    0 <= k < lis.len() ==> opt_str_view(#[trigger] ds@[k].packageId)
                        == spec_opt_capture(lis[k], "<packageId>"@, "</packageId>"@))
                &&& (forall|k: int|
                    0 <= k < lis.len() ==> opt_str_view(#[trigger] ds@[k].displayName)
                        == spec_opt_capture(lis[k], "<displayName>"@, "</displayName>"@))
                &&& (forall|k: int|
                    0 <= k < lis.len() ==> opt_str_view(#[trigger] ds@[k].downloadUrl)
                        == spec_opt_capture(lis[k], "<downloadUrl>"@, "</downloadUrl>"@))
                &&& (forall|k: int|
                    0 <= k < lis.len() ==> opt_str_view(#[trigger] ds@[k].steamWorkshopUrl)
                        == spec_opt_capture(lis[k], "<steamWorkshopUrl>"@, "</steamWorkshopUrl>"@))
            },
            (None, None) => true,
            _ => false,
        },
{
    let reg = match parse_region(text, "<modDependencies>", "</modDependencies>") {
        Some(reg) => reg,
        None => {
            return None;
        },
    };
    let lis = parse_lis(reg.as_str());
    let ghost lv = lis.deep_view();
    let mut ds: Vec<Dependency> = Vec::new();
    let mut k: usize = 0;
    while k < lis.len()
        invariant
            k <= lis.len(),
            lv == lis.deep_view(),
            lv.len() == lis.len(),
            ds@.len() == k,
            forall|j: int|
                0 <= j < k ==> opt_str_view(#[trigger] ds@[j].packageId) == spec_opt_capture(
                    lv[j],
                    "<packageId>"@,
                    "</packageId>"@,
                ),
            forall|j: int|
                0 <= j < k ==> opt_str_view(#[trigger] ds@[j].displayName) == spec_opt_capture(
                    lv[j],
                    "<displayName>"@,
                    "</displayName>"@,
                ),
            forall|j: int|
                0 <= j < k ==> opt_str_view(#[trigger] ds@[j].downloadUrl) == spec_opt_capture(
                    lv[j],
                    "<downloadUrl>"@,
                    "</downloadUrl>"@,
                ),
            forall|j: int|
                0 <= j < k ==> opt_str_view(#[trigger] ds@[j].steamWorkshopUrl)
                    == spec_opt_capture(
                    lv[j],
                    "<steamWorkshopUrl>"@,
                    "</steamWorkshopUrl>"@,
                ),
        decreases lis.len() - k,
    {
        let li = &lis[k];
        let d = Dependency {
            packageId: parse_packageId(li.as_str()),
            displayName: parse_displayName(li.as_str()),
            downloadUrl: parse_downloadUrl(li.as_str()),
            steamWorkshopUrl: parse_steamWorkshopUrl(li.as_str()),
        };
        ds.push(d);
        k = k + 1;
    }
    Some(ds)
}

/// [`capture_spec`] lifted to an optional result.
pub open spec fn spec_opt_capture(t: Seq<char>, o: Seq<char>, c: Seq<char>) -> Option<Seq<char>> {
    capture_spec(t, o, c)
}

/// A dependency's display name.
pub fn parse_displayName(text: &str) -> (r: Option<String>)
    ensures
        match r {
            Some(s) => capture_spec(text@, "<displayName>"@, "</displayName>"@) == Some(s@),
            None => capture_spec(text@, "<displayName>"@, "</displayName>"@) is None,
        },
{
    parse_tag(text, "<displayName>", "</displayName>")
}

/// A dependency's download address.
pub fn parse_downloadUrl(text: &str) -> (r: Option<String>)
    ensures
        match r {
            Some(s) => capture_spec(text@, "<downloadUrl>"@, "</downloadUrl>"@) == Some(s@),
            None => capture_spec(text@, "<downloadUrl>"@, "</downloadUrl>"@) is None,
        },
{
    parse_tag(text, "<downloadUrl>", "</downloadUrl>")
}

/// A dependency's Steam Workshop address.
pub fn parse_steamWorkshopUrl(text: &str) -> (r: Option<String>)
    ensures
        match r {
            Some(s) => capture_spec(text@, "<steamWorkshopUrl>"@, "</steamWorkshopUrl>"@) == Some(
                s@,
            ),
            None => capture_spec(text@, "<steamWorkshopUrl>"@, "</steamWorkshopUrl>"@) is None,
        },
{
    parse_tag(text, "<steamWorkshopUrl>", "</steamWorkshopUrl>")
}

/// The `loadAfter` set.
pub fn parse_loadAfter(text: &str) -> (r: Option<Vec<String>>)
    ensures
        match (r, region_spec(text@, "<loadAfter>"@, "</loadAfter>"@)) {
            (Some(v), Some(reg)) => v.deep_view() == dedup_first(lis_spec(reg, 0)),
            (None, None) => true,
            _ => false,
        },
{
    match parse_region(text, "<loadAfter>", "</loadAfter>") {
        Some(reg) => Some(parse_lis_hashset(reg.as_str())),
        None => None,
    }
}

/// The `forceLoadAfter` set.
pub fn parse_forceLoadAfter(text: &str) -> (r: Option<Vec<String>>)
    ensures
        match (r, region_spec(text@, "<forceLoadAfter>"@, "</forceLoadAfter>"@)) {
            (Some(v), Some(reg)) => v.deep_view() == dedup_first(lis_spec(reg, 0)),
            (None, None) => true,
            _ => false,
        },
{
    match parse_region(text, "<forceLoadAfter>", "</forceLoadAfter>") {
        Some(reg) => Some(parse_lis_hashset(reg.as_str())),
        None => None,
    }
}

/// The `loadBefore` set.
pub fn parse_loadBefore(text: &str) -> (r: Option<Vec<String>>)
    ensures
        match (r, region_spec(text@, "<loadBefore>"@, "</loadBefore>"@)) {
            (Some(v), Some(reg)) => v.deep_view() == dedup_first(lis_spec(reg, 0)),
            (None, None) => true,
            _ => false,
        },
{
    match parse_region(text, "<loadBefore>", "</loadBefore>") {
        Some(reg) => Some(parse_lis_hashset(reg.as_str())),
        None => None,
    }
}

/// The `forceLoadBefore` set.
pub fn parse_forceLoadBefore(text: &str) -> (r: Option<Vec<String>>)
    ensures
        match (r, region_spec(text@, "<forceLoadBefore>"@, "</forceLoadBefore>"@)) {
            (Some(v), Some(reg)) => v.deep_view() == dedup_first(lis_spec(reg, 0)),
            (None, None) => true,
            _ => false,
        },
{
    match parse_region(text, "<forceLoadBefore>", "</forceLoadBefore>") {
        Some(reg) => Some(parse_lis_hashset(reg.as_str())),
        None => None,
    }
}

/// The `incompatibleWith` set.
pub fn parse_incompatibleWith(text: &str) -> (r: Option<Vec<String>>)
    ensures
        match (r, region_spec(text@, "<incompatibleWith>"@, "</incompatibleWith>"@)) {
            (Some(v), Some(reg)) => v.deep_view() == dedup_first(lis_spec(reg, 0)),
            (None, None) => true,
            _ => false,
        },
{
    match parse_region(text, "<incompatibleWith>", "</incompatibleWith>") {
        Some(reg) => Some(parse_lis_hashset(reg.as_str())),
        None => None,
    }
}

} // verus!
