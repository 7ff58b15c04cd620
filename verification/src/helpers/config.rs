//! Locating the mod manager's configuration files, given the value of the
//! user profile's application-data directory (the host reads the variable).

use crate::helpers::paths::push_mod_lists_path;
use crate::helpers::strings::lex_le;
use vstd::prelude::*;
use vstd::string::{StrSliceExecFns, StringExecFns};

verus! {

/// A path separator, as it appears in Windows-style application-data paths.
pub open spec fn is_sep(c: char) -> bool {
    c == '\\' || c == '/'
}

/// The position after the last separator, or zero when there is none.
pub open spec fn after_last_sep(s: Seq<char>) -> int
    decreases s.len(),
{
    if s.len() == 0 {
        0
    } else if is_sep(s.last()) {
        s.len() as int
    } else {
        after_last_sep(s.drop_last())
    }
}

/// The parent of a path: everything before the last separator.
pub open spec fn parent_dir(s: Seq<char>) -> Seq<char> {
    if after_last_sep(s) > 0 {
        s.subrange(0, after_last_sep(s) - 1)
    } else {
        Seq::empty()
    }
}

/// The manager's configuration directory, derived from the application-data
/// path: its parent, then `LocalLow\RimPy Mod Manager`.
pub fn get_config_dir(appdata: &str) -> (r: String)
    ensures
        r@ == parent_dir(appdata@) + "\\LocalLow\\RimPy Mod Manager"@,
{
    let len = appdata.unicode_len();
    let mut cut: usize = len;
    proof {
        assert(appdata@.subrange(0, len as int) =~= appdata@);
    }
    loop
        invariant
            cut <= len,
            len == appdata@.len(),
            after_last_sep(appdata@) == after_last_sep(appdata@.subrange(0, cut as int)),
        ensures
            cut as int == after_last_sep(appdata@),
        decreases cut,
    {
        proof {
            assert(appdata@.subrange(0, cut as int).len() == cut as int);
        }
        if cut == 0 {
            proof {
                assert(appdata@.subrange(0, 0) =~= Seq::empty());
            }
            break;
        }
        let c = appdata.get_char(cut - 1);
        proof {
            assert(appdata@.subrange(0, cut as int).last() == appdata@[cut - 1]);
        }
        if c == '\\' || c == '/' {
            break;
        }
        proof {
            assert(appdata@.subrange(0, cut as int).drop_last() =~= appdata@.subrange(
                0,
                cut - 1,
            ));
        }
        cut = cut - 1;
    }
    let mut out = if cut > 0 {
        appdata.substring_char(0, cut - 1).to_owned()
    } else {
        String::new()
    };
    proof {
        assert(out@ == parent_dir(appdata@));
    }
    out.append("\\LocalLow\\RimPy Mod Manager");
    out
}

/// The path of the manager's main configuration file.
pub fn get_config_ini_path(appdata: &str) -> (r: String)
    ensures
        r@ == parent_dir(appdata@) + "\\LocalLow\\RimPy Mod Manager"@ + "\\config.ini"@,
{
    let mut p = get_config_dir(appdata);
    p.append("\\config.ini");
    p
}

/// The directory holding saved mod lists.
pub fn get_mod_list_path(appdata: &str) -> (r: String)
    ensures
        r@ == parent_dir(appdata@) + "\\LocalLow\\RimPy Mod Manager"@ + "\\ModLists"@,
{
    let p = get_config_dir(appdata);
    push_mod_lists_path(p)
}

} // verus!
