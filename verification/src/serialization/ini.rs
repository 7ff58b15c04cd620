//! Reading files in the INI format: sections, comments, and `key = value`
//! pairs, produced one line at a time from an in-memory buffer.

use crate::helpers::basics::ReadLineError;
use crate::helpers::basics::{find_nl, lemma_find_nl_bounds};
use crate::helpers::read_line;
use vstd::prelude::*;
use vstd::string::{StrSliceExecFns, StringExecFns};
use vstd::utf8::{decode_utf8, valid_utf8};

verus! {

/// One `key = value` entry, with the section it appeared under.
#[derive(Debug, Clone, PartialEq, Eq)]
pub struct INIKeyValuePair {
    pub section: Option<String>,
    pub key: String,
    pub value: String,
}

/// Failure cases when reading an INI document.
#[derive(Debug, Clone, PartialEq, Eq)]
pub enum INIError {
    /// A line that is neither blank, comment, section header nor pair.
    InvalidData(String),
    /// A line that is not valid UTF-8.
    EncodingError,
}

/// Whitespace, as trimmed from keys and values.
pub open spec fn is_ws(c: char) -> bool {
    c == ' ' || c == '\t' || c == '\r' || c == '\n'
}

/// The index of the first non-whitespace character (or the length).
pub open spec fn ltrim_at(s: Seq<char>, i: int) -> int
    decreases s.len() - i,
{
    if i < 0 || i >= s.len() {
        i
    } else if is_ws(s[i]) {
        ltrim_at(s, i + 1)
    } else {
        i
    }
}

/// One past the index of the last non-whitespace character (or zero).
pub open spec fn rtrim_at(s: Seq<char>, i: int) -> int
    decreases i,
{
    if i <= 0 {
        0
    } else if is_ws(s[i - 1]) {
        rtrim_at(s, i - 1)
    } else {
        i
    }
}

/// The slice of `s` with surrounding whitespace removed.
pub open spec fn trim_spec(s: Seq<char>) -> Seq<char> {
    let a = ltrim_at(s, 0);
    let b = rtrim_at(s, s.len() as int);
    if a <= b {
        s.subrange(a, b)
    } else {
        Seq::empty()
    }
}

/// Removes the surrounding whitespace of `s`.
pub fn trim_str(s: &str) -> (r: String)
    ensures
        r@ == trim_spec(s@),
{
    let len = s.unicode_len();
    let mut a: usize = 0;
    loop
        invariant
            a <= len,
            len == s@.len(),
            ltrim_at(s@, 0) == ltrim_at(s@, a as int),
        ensures
            a as int == ltrim_at(s@, 0),
        decreases len - a,
    {
        if a >= len {
            break;
        }
        let c = s.get_char(a);
        if !(c == ' ' || c == '\t' || c == '\r' || c == '\n') {
            break;
        }
        a = a + 1;
    }
    let mut b: usize = len;
    loop
        invariant
            b <= len,
            len == s@.len(),
            rtrim_at(s@, len as int) == rtrim_at(s@, b as int),
        ensures
            b as int == rtrim_at(s@, len as int),
        decreases b,
    {
        if b == 0 {
            break;
        }
        let c = s.get_char(b - 1);
        if !(c == ' ' || c == '\t' || c == '\r' || c == '\n') {
            break;
        }
        b = b - 1;
    }
    if a <= b {
        s.substring_char(a, b).to_owned()
    } else {
        String::new()
    }
}

/// What one line of an INI document means.
#[derive(Debug, Clone)]
pub enum INILine {
    /// Blank, too short, or a `;` comment: carries no data.
    Skip,
    /// A `[section]` header, giving the new section name.
    SectionHeader(String),
    /// A `key = value` pair (trimmed key and value).
    Pair(String, String),
    /// Anything else.
    Bad,
}

/// The position of the first occurrence of `c` at or after `i`, if any.
pub open spec fn char_at(s: Seq<char>, c: char, i: int) -> Option<int>
    decreases s.len() - i,
{
    if i < 0 || i >= s.len() {
        None
    } else if s[i] == c {
        Some(i)
    } else {
        char_at(s, c, i + 1)
    }
}

/// Finds the first occurrence of `c` at or after `from`.
fn find_char(s: &str, c: char, from: usize) -> (r: Option<usize>)
    ensures
        match r {
            Some(i) => char_at(s@, c, from as int) == Some(i as int),
            None => char_at(s@, c, from as int) is None,
        },
{
    let len = s.unicode_len();
    let mut i: usize = from;
    loop
        invariant
            from <= i,
            len == s@.len(),
            char_at(s@, c, from as int) == char_at(s@, c, i as int),
        decreases len + 1 - i,
    {
        if i >= len {
            return None;
        }
        if s.get_char(i) == c {
            return Some(i);
        }
        i = i + 1;
    }
}

/// The view of a classified line.
pub open spec fn line_view(l: INILine) -> LineMeaning {
    match l {
        INILine::Skip => LineMeaning::SkipLine,
        INILine::SectionHeader(s) => LineMeaning::SectionName(s@),
        INILine::Pair(k, v) => LineMeaning::KeyValue(k@, v@),
        INILine::Bad => LineMeaning::Shapeless,
    }
}

/// The spec-level meaning of a line.
pub enum LineMeaning {
    SkipLine,
    SectionName(Seq<char>),
    KeyValue(Seq<char>, Seq<char>),
    Shapeless,
}

/// Classifies one line of INI text.
pub fn classify_line(line: &str) -> (r: INILine)
    ensures
        line_view(r) == line_spec(line@),
{
    let len = line.unicode_len();
    let trimmed = trim_str(line);
    if len < 3 || trimmed.unicode_len() == 0 || line.get_char(0) == ';' {
        return INILine::Skip;
    }
    if trimmed.get_char(0) == '[' {
        let a = match find_char(line, '[', 0) {
            Some(a) => a,
            None => {
                return INILine::Bad;
            },
        };
        let b = match find_char(line, ']', 0) {
            Some(b) => b,
            None => {
                return INILine::Bad;
            },
        };
        proof {
            lemma_char_at(line@, '[', 0);
            lemma_char_at(line@, ']', 0);
        }
        if a + 1 <= b {
            return INILine::SectionHeader(line.substring_char(a + 1, b).to_owned());
        }
        return INILine::Bad;
    }
    match find_char(line, '=', 0) {
        Some(e) => {
            proof {
                lemma_char_at(line@, '=', 0);
            }
            let key = trim_str(line.substring_char(0, e));
            let value = trim_str(line.substring_char(e + 1, len));
            INILine::Pair(key, value)
        },
        None => INILine::Bad,
    }
}

pub proof fn lemma_char_at(s: Seq<char>, c: char, i: int)
    requires
        0 <= i,
    ensures
        match char_at(s, c, i) {
            Some(j) => i <= j < s.len() && s[j] == c,
            None => true,
        },
    decreases s.len() - i,
{
    if i < 0 || i >= s.len() {
    } else if s[i] == c {
    } else {
        lemma_char_at(s, c, i + 1);
    }
}

/// The spec-level meaning of the line, see [`line_spec`].
pub open spec fn line_spec(line: Seq<char>) -> LineMeaning {
    if line.len() < 3 || trim_spec(line).len() == 0 || line[0] == ';' {
        LineMeaning::SkipLine
    } else if trim_spec(line)[0] == '[' {
        match (char_at(line, '[', 0), char_at(line, ']', 0)) {
            (Some(a), Some(b)) => if a + 1 <= b {
                LineMeaning::SectionName(line.subrange(a + 1, b))
            } else {
                LineMeaning::Shapeless
            },
            _ => LineMeaning::Shapeless,
        }
    } else {
        match char_at(line, '=', 0) {
            Some(e) => LineMeaning::KeyValue(
                trim_spec(line.subrange(0, e)),
                trim_spec(line.subrange(e + 1, line.len() as int)),
            ),
            None => LineMeaning::Shapeless,
        }
    }
}

/// What one call of [`INIReader::next`] decides: where reading stops, the
/// section afterwards, and the produced entry or failure, if any.
pub enum IniOutcome {
    /// A blank line or the end of the document: no more entries.
    Finished { pos: int, section: Option<Seq<char>> },
    /// A line that is not valid UTF-8.
    Undecodable { pos: int, section: Option<Seq<char>> },
    /// A `key = value` entry under the section current at that point.
    Entry { pos: int, section: Option<Seq<char>>, key: Seq<char>, value: Seq<char> },
    /// A line of no recognized shape.
    Shapeless { pos: int, section: Option<Seq<char>> },
}

/// The mirrored reading of the next entry: lines are consumed one at a
/// time; comments and short lines are skipped, section headers replace the
/// section, and the first pair, blank line, undecodable or shapeless line
/// decides the outcome.
pub open spec fn next_entry_spec(bytes: Seq<u8>, pos: int, section: Option<Seq<char>>) -> IniOutcome
    decreases bytes.len() - pos,
    when 0 <= pos <= bytes.len()
    via next_entry_dec
{
    let e = find_nl(bytes, pos);
    let line_b = bytes.subrange(pos, e);
    let pos2 = if e < bytes.len() {
        e + 1
    } else {
        e
    };
    if line_b.len() == 0 {
        IniOutcome::Finished { pos: pos2, section }
    } else if !valid_utf8(line_b) {
        IniOutcome::Undecodable { pos: pos2, section }
    } else {
        match line_spec(decode_utf8(line_b)) {
            LineMeaning::SkipLine => next_entry_spec(bytes, pos2, section),
            LineMeaning::SectionName(name) => next_entry_spec(bytes, pos2, Some(name)),
            LineMeaning::KeyValue(k, v) => IniOutcome::Entry { pos: pos2, section, key: k, value: v },
            LineMeaning::Shapeless => IniOutcome::Shapeless { pos: pos2, section },
        }
    }
}

#[via_fn]
proof fn next_entry_dec(bytes: Seq<u8>, pos: int, section: Option<Seq<char>>) {
    lemma_find_nl_bounds(bytes, pos);
}

/// Reads an INI document from an in-memory buffer, one entry per call.
pub struct INIReader {
    bytes: Vec<u8>,
    pos: usize,
    section: Option<String>,
}

impl INIReader {
    /// How far the reader has come.
    pub closed spec fn spec_pos(&self) -> int {
        self.pos as int
    }

    /// The document being read.
    pub closed spec fn spec_doc(&self) -> Seq<u8> {
        self.bytes@
    }

    /// The section current entries fall under.
    pub closed spec fn spec_section(&self) -> Option<Seq<char>> {
        match self.section {
            Some(s) => Some(s@),
            None => None,
        }
    }

    /// The buffer's length.
    pub closed spec fn spec_len(&self) -> int {
        self.bytes@.len() as int
    }

    /// Starts reading the given document.
    pub fn from_bytes(bytes: Vec<u8>) -> (r: INIReader)
        ensures
            r.spec_pos() == 0,
            r.spec_doc() == bytes@,
            r.spec_section() is None,
    {
        INIReader { bytes, pos: 0, section: None }
    }

    /// Returns the next `key = value` entry: `None` at a blank line or the
    /// end of the document, and an error for undecodable or shapeless
    /// lines.  Section headers and comments are consumed along the way; the
    /// whole step is pinned exactly by [`next_entry_spec`].
    pub fn next(&mut self) -> (r: Option<Result<INIKeyValuePair, INIError>>)
        requires
            old(self).spec_pos() <= old(self).spec_len(),
        ensures
            final(self).spec_doc() == old(self).spec_doc(),
            old(self).spec_pos() <= final(self).spec_pos() <= final(self).spec_len(),
            ({
                match next_entry_spec(
                    old(self).spec_doc(),
                    old(self).spec_pos(),
                    old(self).spec_section(),
                ) {
                    IniOutcome::Finished { pos, section } => r is None && final(self).spec_pos()
                        == pos && final(self).spec_section() == section,
                    IniOutcome::Undecodable { pos, section } => r == Some(
                        Err::<INIKeyValuePair, INIError>(INIError::EncodingError),
                    ) && final(self).spec_pos() == pos && final(self).spec_section() == section,
                    IniOutcome::Entry { pos, section, key, value } => (r matches Some(Ok(kvp))
                        && kvp.key@ == key && kvp.value@ == value && (match kvp.section {
                        Some(s) => Some(s@),
                        None => None,
                    }) == section) && final(self).spec_pos() == pos && final(self).spec_section()
                        == section,
                    IniOutcome::Shapeless { pos, section } => (r matches Some(Err(e)) && e
                        is InvalidData) && final(self).spec_pos() == pos
                        && final(self).spec_section() == section,
                }
            }),
    {
        let ghost doc = self.bytes@;
        let ghost pos_start = self.pos as int;
        let ghost sec_start = self.spec_section();
        loop
            invariant
                self.pos <= self.bytes@.len(),
                self.bytes@ == doc,
                doc == old(self).spec_doc(),
                pos_start == old(self).spec_pos(),
                sec_start == old(self).spec_section(),
                pos_start <= self.pos as int,
                next_entry_spec(doc, pos_start, sec_start) == next_entry_spec(
                    doc,
                    self.pos as int,
                    self.spec_section(),
                ),
            decreases self.bytes@.len() - self.pos,
        {
            let ghost pos0 = self.pos as int;
            let ghost sec0 = self.spec_section();
            proof {
                lemma_find_nl_bounds(self.bytes@, pos0);
            }
            let line = match read_line(&self.bytes, &mut self.pos) {
                Ok(Some(line)) => line,
                Ok(None) => {
                    proof {
                        assert(next_entry_spec(doc, pos0, sec0) == (IniOutcome::Finished {
                            pos: self.pos as int,
                            section: sec0,
                        }));
                    }
                    return None;
                },
                Err(_) => {
                    proof {
                        assert(next_entry_spec(doc, pos0, sec0) == (IniOutcome::Undecodable {
                            pos: self.pos as int,
                            section: sec0,
                        }));
                    }
                    return Some(Err(INIError::EncodingError));
                },
            };
            proof {
                assert(self.pos > pos0);
                assert(line@ == decode_utf8(doc.subrange(pos0, find_nl(doc, pos0))));
            }
            match classify_line(line.as_str()) {
                INILine::Skip => {},
                INILine::SectionHeader(name) => {
                    self.section = Some(name);
                },
                INILine::Pair(key, value) => {
                    let section = match &self.section {
                        Some(s) => Some(crate::helpers::strings::clone_string(s)),
                        None => None,
                    };
                    proof {
                        assert(next_entry_spec(doc, pos0, sec0) == (IniOutcome::Entry {
                            pos: self.pos as int,
                            section: sec0,
                            key: key@,
                            value: value@,
                        }));
                    }
                    return Some(Ok(INIKeyValuePair { section, key, value }));
                },
                INILine::Bad => {
                    proof {
                        assert(next_entry_spec(doc, pos0, sec0) == (IniOutcome::Shapeless {
                            pos: self.pos as int,
                            section: sec0,
                        }));
                    }
                    return Some(
                        Err(
                            INIError::InvalidData(
                                "Expected `=` sign when parsing line of INI file, found none.".to_owned(),
                            ),
                        ),
                    );
                },
            }
        }
    }
}

} // verus!
