//! Shared small helpers: the side marker for the two mod lists, byte-order
//! mark stripping, `<li>` folding for XML output, and line reading.

use vstd::prelude::*;
use vstd::slice::slice_subrange;
use vstd::string::StringExecFns;
use vstd::utf8::{decode_utf8, valid_utf8};

verus! {

/// Marks the inactive mod list ([`Side::Left`]) or the active one
/// ([`Side::Right`]).
#[derive(Debug, Clone, Copy, PartialEq, Eq, Structural)]
pub enum Side {
    Left,
    Right,
}

/// The UTF-8 byte-order mark.
pub open spec fn bom() -> Seq<u8> {
    seq![239u8, 187u8, 191u8]
}

/// Drops a leading UTF-8 byte-order mark, which XML parsing does not allow.
pub fn strip_bom(bytes: &[u8]) -> (r: &[u8])
    requires
        bytes@.len() >= 3,
    ensures
        r@ == if bytes@.subrange(0, 3) == bom() {
            bytes@.skip(3)
        } else {
            bytes@
        },
{
    if bytes[0] == 239 && bytes[1] == 187 && bytes[2] == 191 {
        proof {
            assert(bytes@.subrange(0, 3) =~= bom());
        }
        slice_subrange(bytes, 3, bytes.len())
    } else {
        proof {
            assert(bytes@.subrange(0, 3) != bom());
        }
        bytes
    }
}

/// `n` levels of four-space indentation.
pub open spec fn indent_sp(n: nat) -> Seq<char>
    decreases n,
{
    if n == 0 {
        Seq::empty()
    } else {
        indent_sp((n - 1) as nat) + "    "@
    }
}

/// The items wrapped in indented `<li>` tags, one line each.
pub open spec fn fold_lis_spec(items: Seq<Seq<char>>, ind: nat) -> Seq<char>
    decreases items.len(),
{
    if items.len() == 0 {
        Seq::empty()
    } else {
        fold_lis_spec(items.drop_last(), ind) + indent_sp(ind) + "<li>"@ + items.last()
            + "</li>\n"@
    }
}

/// Wraps every item in an indented `<li>` line.
pub fn fold_lis(items: &Vec<String>, indenting: usize) -> (r: String)
    ensures
        r@ == fold_lis_spec(items.deep_view(), indenting as nat),
{
    let ghost dv = items.deep_view();
    let mut indent = String::new();
    let mut j: usize = 0;
    while j < indenting
        invariant
            j <= indenting,
            indent@ == indent_sp(j as nat),
        decreases indenting - j,
    {
        indent.append("    ");
        j = j + 1;
    }
    let mut out = String::new();
    let mut i: usize = 0;
    proof {
        assert(dv.subrange(0, 0) =~= Seq::empty());
        assert(out@ =~= fold_lis_spec(dv.subrange(0, 0), indenting as nat));
    }
    while i < items.len()
        invariant
            i <= items.len(),
            dv == items.deep_view(),
            dv.len() == items.len(),
            indent@ == indent_sp(indenting as nat),
            out@ == fold_lis_spec(dv.subrange(0, i as int), indenting as nat),
        decreases items.len() - i,
    {
        out.append(indent.as_str());
        out.append("<li>");
        out.append(items[i].as_str());
        out.append("</li>\n");
        proof {
            let sub1 = dv.subrange(0, i + 1);
            assert(sub1.drop_last() =~= dv.subrange(0, i as int));
            assert(sub1.last() == dv[i as int]);
        }
        i = i + 1;
    }
    proof {
        assert(dv.subrange(0, dv.len() as int) =~= dv);
    }
    out
}

/// An ASCII whitespace byte.
pub open spec fn is_ws_byte(b: u8) -> bool {
    b == 32u8 || b == 9u8 || b == 13u8 || b == 10u8
}

/// The index of the first non-whitespace byte at or after `i`.
pub open spec fn skip_ws_at(bytes: Seq<u8>, i: int) -> int
    decreases bytes.len() - i,
{
    if i < 0 || i >= bytes.len() {
        i
    } else if is_ws_byte(bytes[i]) {
        skip_ws_at(bytes, i + 1)
    } else {
        i
    }
}

/// Drops leading ASCII whitespace, which strict XML parsing does not allow
/// before the document.
pub fn skip_leading_ws(bytes: &[u8]) -> (r: &[u8])
    ensures
        r@ == bytes@.skip(skip_ws_at(bytes@, 0)),
{
    let len = bytes.len();
    let mut i: usize = 0;
    loop
        invariant
            i <= len,
            len == bytes@.len(),
            skip_ws_at(bytes@, 0) == skip_ws_at(bytes@, i as int),
        ensures
            i as int == skip_ws_at(bytes@, 0),
        decreases len - i,
    {
        if i >= len {
            break;
        }
        let b = bytes[i];
        if !(b == 32u8 || b == 9u8 || b == 13u8 || b == 10u8) {
            break;
        }
        i = i + 1;
    }
    let r = slice_subrange(bytes, i, len);
    proof {
        assert(r@ =~= bytes@.skip(i as int));
    }
    r
}

/// Failure cases when reading a line of text.
#[derive(Debug, Clone, Copy, PartialEq, Eq, Structural)]
pub enum ReadLineError {
    FromUtf8Error,
}

/// The position of the next newline byte at or after `pos` (or the end).
pub open spec fn find_nl(bytes: Seq<u8>, pos: int) -> int
    decreases bytes.len() - pos,
{
    if pos < 0 || pos >= bytes.len() {
        pos
    } else if bytes[pos] == 10u8 {
        pos
    } else {
        find_nl(bytes, pos + 1)
    }
}

pub proof fn lemma_find_nl_bounds(bytes: Seq<u8>, pos: int)
    requires
        0 <= pos <= bytes.len(),
    ensures
        pos <= find_nl(bytes, pos) <= bytes.len(),
    decreases bytes.len() - pos,
{
    if pos < 0 || pos >= bytes.len() {
    } else if bytes[pos] == 10u8 {
    } else {
        lemma_find_nl_bounds(bytes, pos + 1);
    }
}

/// Relies on `String::from_utf8`: succeeds exactly on valid UTF-8 input, and
/// then decodes it.
#[verifier::external_body]
fn string_from_utf8(bytes: Vec<u8>) -> (r: Result<String, ReadLineError>)
    ensures
        r is Ok <==> valid_utf8(bytes@),
        r is Ok ==> r->Ok_0@ == decode_utf8(bytes@),
{
    String::from_utf8(bytes).map_err(|_| ReadLineError::FromUtf8Error)
}

/// Reads one newline-terminated line starting at `*pos`, advancing `*pos`
/// past the newline.  An empty line (or the end of the input) yields
/// `Ok(None)`; invalid UTF-8 yields an error.
pub fn read_line(bytes: &Vec<u8>, pos: &mut usize) -> (r: Result<Option<String>, ReadLineError>)
    requires
        *old(pos) <= bytes@.len(),
    ensures
        ({
            let e = find_nl(bytes@, *old(pos) as int);
            &&& *final(pos) == if e < bytes@.len() {
                e + 1
            } else {
                e
            }
            &&& *final(pos) <= bytes@.len()
            &&& ({
                let line = bytes@.subrange(*old(pos) as int, e);
                if line.len() == 0 {
                    r == Ok::<Option<String>, ReadLineError>(None)
                } else if valid_utf8(line) {
                    r matches Ok(Some(s)) && s@ == decode_utf8(line)
                } else {
                    r == Err::<Option<String>, ReadLineError>(ReadLineError::FromUtf8Error)
                }
            })
        }),
{
    let ghost start = *pos as int;
    let mut cur: usize = *pos;
    let mut line: Vec<u8> = Vec::new();
    proof {
        assert(bytes@.subrange(start, start) =~= Seq::empty());
    }
    loop
        invariant
            0 <= start,
            start <= cur as int <= bytes@.len(),
            line@ == bytes@.subrange(start, cur as int),
            find_nl(bytes@, start) == find_nl(bytes@, cur as int),
        ensures
            start <= cur as int <= bytes@.len(),
            line@ == bytes@.subrange(start, cur as int),
            find_nl(bytes@, start) == find_nl(bytes@, cur as int),
            cur as int == bytes@.len() || bytes@[cur as int] == 10u8,
        decreases bytes@.len() - cur as int,
    {
        if cur >= bytes.len() {
            break;
        }
        if bytes[cur] == 10u8 {
            break;
        }
        let b = bytes[cur];
        let ghost pre = line@;
        proof {
            assert(b == bytes@[cur as int]);
            assert(b != 10u8);
        }
        line.push(b);
        cur = cur + 1;
        proof {
            assert(line@ == pre.push(b));
            assert(pre == bytes@.subrange(start, cur as int - 1));
            assert(b == bytes@[cur as int - 1]);
            assert(line@ =~= bytes@.subrange(start, cur as int));
        }
    }
    proof {
        assert(find_nl(bytes@, cur as int) == cur as int);
        assert(line@ == bytes@.subrange(start, find_nl(bytes@, start)));
    }
    if cur < bytes.len() {
        *pos = cur + 1;
    } else {
        *pos = cur;
    }
    if line.len() == 0 {
        Ok(None)
    } else {
        match string_from_utf8(line) {
            Ok(s) => Ok(Some(s)),
            Err(e) => Err(e),
        }
    }
}

} // verus!
