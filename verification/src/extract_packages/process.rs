//! The whole extraction of packages from a codebase: the order of its steps, and what is computed in
//! between.

use vstd::prelude::*;

use crate::collections::StringMap;
use crate::collections::StringSet;
use crate::extract_packages::composer_json::Entrypoints;
use crate::extract_packages::composer_json::METAPACKAGE_DIR_NAME;
use crate::extract_packages::composer_json::json_file;
use crate::extract_packages::composer_json::package_json;
use crate::extract_packages::composer_json::package_members;
use crate::extract_packages::composer_json::root_json;
use crate::extract_packages::composer_json::root_members;
use crate::extract_packages::composer_json::upstream_members;
use crate::extract_packages::copy::component_dir_name;
use crate::extract_packages::copy::dir_name;
use crate::extract_packages::json::Members;
use crate::moodle::entrypoints::str_of;
use crate::moodle::resolver::ROOT_COMPONENT;
use crate::progress::Progress;
use crate::progress::stepped;
use crate::text::concat;
use crate::text::concat3;
use crate::text::copy;
use crate::text::decimal;
use crate::text::decimal_of;
use crate::text::same;
use crate::text::texts;

verus! {

// ---------------------------------------------------------------------------------------------
// The order of the steps.

/// One step of the extraction of packages.
#[derive(Debug, Clone, Copy, PartialEq, Eq, Structural)]
pub enum ExtractionStep {
    /// The destination must not lie inside the codebase.
    CheckDestination,
    /// What an earlier run left at the destination is deleted; only where that is asked for.
    CleanDestination,
    /// The destination is created where it does not exist.
    CreateDestination,
    /// The codebase is rewritten in place.
    Rewrite,
    /// Every file is copied into its package.
    CopyFiles,
    /// Every package gets its `composer.json`.
    DescribePackages,
    /// The metapackage's directory is created.
    CreateMetapackage,
    /// The metapackage gets its `composer.json`.
    DescribeMetapackage,
    /// Every package, the metapackage included, is committed to its own repository.
    CommitPackages,
}

/// The steps of an extraction, in order.
pub open spec fn extraction_steps(clean: bool) -> Seq<ExtractionStep> {
    let start = if clean {
        seq![ExtractionStep::CheckDestination, ExtractionStep::CleanDestination]
    } else {
        seq![ExtractionStep::CheckDestination]
    };
    start + seq![
        ExtractionStep::CreateDestination,
        ExtractionStep::Rewrite,
        ExtractionStep::CopyFiles,
        ExtractionStep::DescribePackages,
        ExtractionStep::CreateMetapackage,
        ExtractionStep::DescribeMetapackage,
        ExtractionStep::CommitPackages,
    ]
}

/// Where an extraction begins.
pub fn first_extraction_step() -> (r: ExtractionStep)
    ensures
        forall|clean: bool| r == (#[trigger] extraction_steps(clean))[0],
{
    ExtractionStep::CheckDestination
}

/// How far an extraction has come after `step`, given whether that succeeded and whether the
/// destination is to be cleaned. A step is one of the extraction's.
pub fn next_extraction_step(step: ExtractionStep, ok: bool, clean: bool) -> (r: Progress<ExtractionStep>)
    requires
        extraction_steps(clean).contains(step),
    ensures
        r == stepped(extraction_steps(clean), step, ok),
{
    proof {
        extraction_steps_differ(clean);
        let at = extraction_steps(clean).index_of(step);
        assert(extraction_steps(clean)[at] == step);
    }
    if !ok {
        return Progress::Failed;
    }
    match step {
        ExtractionStep::CheckDestination => if clean {
            Progress::Next(ExtractionStep::CleanDestination)
        } else {
            Progress::Next(ExtractionStep::CreateDestination)
        },
        ExtractionStep::CleanDestination => Progress::Next(ExtractionStep::CreateDestination),
        ExtractionStep::CreateDestination => Progress::Next(ExtractionStep::Rewrite),
        ExtractionStep::Rewrite => Progress::Next(ExtractionStep::CopyFiles),
        ExtractionStep::CopyFiles => Progress::Next(ExtractionStep::DescribePackages),
        ExtractionStep::DescribePackages => Progress::Next(ExtractionStep::CreateMetapackage),
        ExtractionStep::CreateMetapackage => Progress::Next(ExtractionStep::DescribeMetapackage),
        ExtractionStep::DescribeMetapackage => Progress::Next(ExtractionStep::CommitPackages),
        ExtractionStep::CommitPackages => Progress::Succeeded,
    }
}

/// An extraction takes no step twice, so that [`crate::progress::steps_are_taken_in_order`] speaks of
/// it.
pub proof fn extraction_steps_differ(clean: bool)
    ensures
        extraction_steps(clean).no_duplicates(),
{
}

// ---------------------------------------------------------------------------------------------
// What is computed.

/// The components of a path, as their bytes.
pub open spec fn component_bytes(path: Seq<Vec<u8>>) -> Seq<Seq<u8>> {
    Seq::new(path.len(), |i: int| path[i]@)
}

fn same_bytes(a: &Vec<u8>, b: &Vec<u8>) -> (r: bool)
    ensures
        r == (a@ == b@),
{
    if a.len() != b.len() {
        return false;
    }
    let mut i: usize = 0;
    while i < a.len()
        invariant
            i <= a.len(),
            a.len() == b.len(),
            forall|k: int| 0 <= k < i ==> a@[k] == b@[k],
        decreases a.len() - i,
    {
        if a[i] != b[i] {
            return false;
        }
        i += 1;
    }
    assert(a@ =~= b@);
    true
}

/// Whether a destination lies inside the codebase, both given by the components of their canonical
/// paths: `None` where a path has no canonical form, as that of a directory that does not exist.
pub open spec fn inside(root: Option<Seq<Seq<u8>>>, dest: Option<Seq<Seq<u8>>>) -> bool {
    root is Some && dest is Some && (root->0).is_prefix_of(dest->0)
}

/// The components of a path that may not have a canonical form, as their bytes.
pub open spec fn canonical_bytes(path: Option<Vec<Vec<u8>>>) -> Option<Seq<Seq<u8>>> {
    match path {
        Some(components) => Some(component_bytes(components@)),
        None => None,
    }
}

/// Whether a destination lies inside the codebase, both given by the components of their canonical
/// paths, since either may be relative or symlinked. Writing into the codebase being walked would feed
/// the copies back into the walk, so the run would never finish.
pub fn is_inside(root: &Option<Vec<Vec<u8>>>, dest: &Option<Vec<Vec<u8>>>) -> (r: bool)
    ensures
        r == inside(canonical_bytes(*root), canonical_bytes(*dest)),
{
    if let Some(above) = root {
        if let Some(below) = dest {
            let ghost outer = component_bytes(above@);
            let ghost whole = component_bytes(below@);
            if above.len() > below.len() {
                return false;
            }
            let mut i: usize = 0;
            while i < above.len()
                invariant
                    i <= above.len() <= below.len(),
                    outer == component_bytes(above@),
                    whole == component_bytes(below@),
                    canonical_bytes(*root) == Some(outer),
                    canonical_bytes(*dest) == Some(whole),
                    forall|k: int| 0 <= k < i ==> outer[k] == whole[k],
                decreases above.len() - i,
            {
                assert(outer[i as int] == above@[i as int]@ && whole[i as int] == below@[i as int]@);
                if !same_bytes(&above[i], &below[i]) {
                    assert(whole.subrange(0, outer.len() as int)[i as int] != outer[i as int]);
                    return false;
                }
                i += 1;
            }
            assert(whole.subrange(0, outer.len() as int) =~= outer);
            return true;
        }
    }
    false
}

/// The members of the `composer.json` of `component`'s package.
pub open spec fn described(
    component: Seq<char>,
    has_version_php: bool,
    upstream: Option<Seq<char>>,
    entry_points: Map<Seq<char>, Entrypoints>,
) -> Members {
    if component == ROOT_COMPONENT@ {
        root_members(upstream_members(upstream))
    } else {
        package_members(
            component,
            has_version_php,
            if entry_points.contains_key(component) {
                Some(entry_points[component]@)
            } else {
                None
            },
        )
    }
}

/// The text of the `composer.json` of `component`'s package, `root` included, given whether the package
/// has a `version.php` of its own, what its `composer.json` holds so far, and the entry points of all
/// components.
pub fn composer_json_of(
    component: &str,
    has_version_php: bool,
    upstream: Option<&str>,
    entry_points: &StringMap<Entrypoints>,
) -> (r: String)
    ensures
        r@ == json_file(described(component@, has_version_php, str_of(upstream), entry_points@)),
{
    if same(component, ROOT_COMPONENT) {
        root_json(upstream)
    } else {
        package_json(component, has_version_php, entry_points.get(component))
    }
}

/// The directories that are committed: the package of each component that received a file, and the
/// metapackage.
pub fn package_dirs(components_used: &StringSet) -> (r: Vec<String>)
    ensures
        texts(r@) == Seq::new(
            components_used.spec_members().len(),
            |i: int| dir_name(components_used.spec_members()[i]),
        ).push(METAPACKAGE_DIR_NAME@),
        components_used.valid(),
{
    let n = components_used.len();
    let ghost all = components_used.spec_members();
    let ghost dirs = Seq::new(all.len(), |i: int| dir_name(all[i]));
    let mut r: Vec<String> = Vec::new();
    let mut i: usize = 0;
    while i < n
        invariant
            i <= n,
            n == all.len(),
            all == components_used.spec_members(),
            dirs == Seq::new(all.len(), |i: int| dir_name(all[i])),
            texts(r@) == dirs.take(i as int),
        decreases n - i,
    {
        let ghost before = texts(r@);
        r.push(component_dir_name(components_used.at(i)));
        assert(texts(r@) =~= before.push(dirs[i as int]));
        assert(dirs.take(i + 1) =~= dirs.take(i as int).push(dirs[i as int]));
        i += 1;
    }
    assert(dirs.take(i as int) =~= dirs);
    r.push(copy(METAPACKAGE_DIR_NAME));
    assert(texts(r@) =~= dirs.push(METAPACKAGE_DIR_NAME@));
    r
}

/// How many of the files that went to `moodle-root` for want of a component are named.
pub const NAMED_AT_MOST: usize = 10;

/// What is said of the files that did not resolve to a component, line by line.
pub open spec fn unresolved_report(unresolved: Seq<Seq<char>>) -> Seq<Seq<char>> {
    let n = unresolved.len();
    let shown = if n <= NAMED_AT_MOST {
        n
    } else {
        NAMED_AT_MOST as nat
    };
    let named = seq![decimal(n) + " files did not resolve to a component and went to moodle-root:"@] + Seq::new(
        shown,
        |i: int| "  "@ + unresolved[i],
    );
    if n == 0 {
        Seq::<Seq<char>>::empty()
    } else if n <= NAMED_AT_MOST {
        named
    } else {
        named.push("  ... and "@ + decimal((n - NAMED_AT_MOST) as nat) + " more"@)
    }
}

/// What is said of the files that did not resolve to a component, line by line: nothing if there are
/// none, and the names of the first few otherwise.
pub fn unresolved_lines(unresolved: &Vec<String>) -> (r: Vec<String>)
    ensures
        texts(r@) == unresolved_report(texts(unresolved@)),
{
    let ghost all = texts(unresolved@);
    let n = unresolved.len();
    let mut r: Vec<String> = Vec::new();
    if n == 0 {
        assert(texts(r@) =~= unresolved_report(all));
        return r;
    }
    let shown: usize = if n <= NAMED_AT_MOST {
        n
    } else {
        NAMED_AT_MOST
    };
    let head = concat(&decimal_of(n as u64), " files did not resolve to a component and went to moodle-root:");
    let ghost top = head@;
    let ghost rows = Seq::new(shown as nat, |i: int| "  "@ + all[i]);
    r.push(head);
    assert(texts(r@) =~= seq![top] + rows.take(0));
    let mut i: usize = 0;
    while i < shown
        invariant
            i <= shown <= n,
            n == unresolved.len(),
            all == texts(unresolved@),
            rows == Seq::new(shown as nat, |i: int| "  "@ + all[i]),
            texts(r@) == seq![top] + rows.take(i as int),
        decreases shown - i,
    {
        let ghost before = texts(r@);
        r.push(concat("  ", &unresolved[i]));
        assert(texts(r@) =~= before.push(rows[i as int]));
        assert(seq![top] + rows.take(i + 1) =~= (seq![top] + rows.take(i as int)).push(rows[i as int]));
        i += 1;
    }
    assert(rows.take(i as int) =~= rows);
    if n > NAMED_AT_MOST {
        let ghost before = texts(r@);
        let last = concat3("  ... and ", &decimal_of((n - NAMED_AT_MOST) as u64), " more");
        let ghost bottom = last@;
        r.push(last);
        assert(texts(r@) =~= before.push(bottom));
    }
    assert(texts(r@) =~= unresolved_report(all));
    r
}

} // verus!
