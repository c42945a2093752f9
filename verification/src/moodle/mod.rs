//! Moodle-domain concepts layered on top of the generic path-finding tools.

pub mod categorise;
pub mod components;
pub mod entrypoints;
pub mod graph;
pub mod laws;
pub mod resolver;
pub mod scan;
pub mod scan_laws;
pub mod thirdparty;

use vstd::prelude::*;

use crate::text::same;

verus! {

/// The path from the repository root to $CFG->dirroot, given whether the codebase has
/// 'public/lib/setup.php'.
pub open spec fn spec_dirroot_prefix(has_public_setup: bool) -> Seq<char> {
    if has_public_setup {
        "public/"@
    } else {
        ""@
    }
}

/// The path from the repository root to $CFG->dirroot, with a trailing slash (e.g. 'public/'),
/// or '' if the two coincide, given whether the codebase has 'public/lib/setup.php'.
///
/// Since Moodle 5.1, $CFG->dirroot lives in a 'public/' subdirectory of the repository root;
/// earlier layouts have dirroot and the repository root coincide.
pub fn dirroot_prefix(has_public_setup: bool) -> (prefix: &'static str)
    ensures
        prefix@ == spec_dirroot_prefix(has_public_setup),
{
    if has_public_setup {
        "public/"
    } else {
        ""
    }
}

/// Whether `relative_path` (repository-root-relative, no leading slash) must be excluded from
/// path discovery entirely, rather than merely filtered out of one particular analysis.
///
/// 'config-dist.php' is a template showing what a user's config.php should look like: it is
/// never executed and never required by anything real. Left in, its example
/// `require_once(__DIR__ . '/lib/setup.php')` line would look like a genuine reference into the
/// bootstrap chain.
pub fn is_excluded_from_scan(relative_path: &str) -> (excluded: bool)
    ensures
        excluded == (relative_path@ == "config-dist.php"@),
{
    same(relative_path, "config-dist.php")
}

} // verus!
