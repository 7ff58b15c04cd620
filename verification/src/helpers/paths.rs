//! Path bookkeeping for the manager's own files, over plain strings; the
//! host application converts to filesystem paths at the boundary.

use vstd::prelude::*;
use vstd::string::StringExecFns;

verus! {

/// Appends the mods-config file name to a directory path.
pub fn push_mods_config_path(path: String) -> (r: String)
    ensures
        r@ == path@ + "\\ModsConfig.xml"@,
{
    let mut p = path;
    p.append("\\ModsConfig.xml");
    p
}

/// Appends the mod-list directory name to a directory path.
pub fn push_mod_lists_path(path: String) -> (r: String)
    ensures
        r@ == path@ + "\\ModLists"@,
{
    let mut p = path;
    p.append("\\ModLists");
    p
}

} // verus!
