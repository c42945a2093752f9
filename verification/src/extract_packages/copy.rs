//! Where the copy that turns a (rewritten) Moodle codebase into a directory of per-component trees
//! puts each file, one file write each.

use vstd::prelude::*;

use crate::collections::StringSet;
use crate::moodle::resolver::ComponentResolver;
use crate::moodle::resolver::Directories;
use crate::moodle::resolver::ROOT_COMPONENT;
use crate::moodle::resolver::resolution;
use crate::text::concat;
use crate::text::concat3;
use crate::text::copy;
use crate::text::same;
use crate::text::split;
use crate::text::split_at;
use crate::text::texts;
use crate::text::trim_start;
use crate::text::trim_start_of;

verus! {

/// The directory of a component's package.
pub open spec fn dir_name(component: Seq<char>) -> Seq<char> {
    "moodle-"@ + component
}

/// The directory a component's copy is written to, under the destination. `root`, the
/// pseudo-component covering everything no real component owns, is deliberately not special-cased:
/// it becomes `moodle-root` by exactly the same rule as every other name.
pub fn component_dir_name(component: &str) -> (r: String)
    ensures
        r@ == dir_name(component@),
{
    concat("moodle-", component)
}

/// Whether a file or directory called `name` is left out of the copy, `depth` levels below the root
/// of the codebase.
pub open spec fn left_out(depth: int, name: Seq<char>) -> bool {
    name == ".git"@ || depth == 1 && name == "composer.lock"@
}

/// Whether a file or directory called `name`, `depth` levels below the root of the codebase, is left
/// out of the copy, and all that it contains with it.
///
/// `.git` is left out wherever it appears in the tree: Moodle plugins occasionally vendor a
/// dependency as its own git checkout, and none of that history belongs in the package copy.
///
/// The root's own `composer.lock` (only ever at the top level) is left out too: it pins the resolved
/// versions for the dependency graph before the split, which no longer matches the `root` package's
/// own `composer.json`.
pub fn is_left_out(depth: usize, name: &str) -> (r: bool)
    ensures
        r == left_out(depth as int, name@),
{
    same(name, ".git") || depth == 1 && same(name, "composer.lock")
}

/// Whether neither the file at `relative` nor a directory that contains it is left out of the copy.
pub open spec fn walked(relative: Seq<char>) -> bool {
    forall|i: int|
        0 <= i < split(relative, '/').len() ==> !left_out(i + 1, #[trigger] split(relative, '/')[i])
}

/// Whether neither the file at `relative` nor a directory that contains it is left out of the copy.
pub fn is_walked(relative: &str) -> (r: bool)
    ensures
        r == walked(relative@),
{
    let parts = split_at(relative, '/');
    let ghost all = split(relative@, '/');
    assert(texts(parts@).len() == parts.len());
    let mut i: usize = 0;
    while i < parts.len()
        invariant
            i <= parts.len(),
            texts(parts@) == all,
            all == split(relative@, '/'),
            all.len() == parts.len(),
            forall|k: int| 0 <= k < i ==> !left_out(k + 1, #[trigger] all[k]),
        decreases parts.len() - i,
    {
        assert(all[i as int] == parts@[i as int]@);
        if is_left_out(i + 1, &parts[i]) {
            return false;
        }
        i += 1;
    }
    true
}

/// Where one file is copied to.
#[derive(Debug, Clone, PartialEq, Eq)]
pub struct Placement {
    /// The file, relative to the root of the codebase.
    pub relative: String,
    /// The component whose package the file goes to.
    pub component: String,
    /// The copy, relative to the destination.
    pub target: String,
    /// Whether the file resolved to a path within a component (or within `root`), as opposed to
    /// having fallen back to `root`.
    pub resolved: bool,
}

/// Where one file is copied to, as plain values.
pub struct PlacementView {
    pub relative: Seq<char>,
    pub component: Seq<char>,
    pub target: Seq<char>,
    pub resolved: bool,
}

impl View for Placement {
    type V = PlacementView;

    open spec fn view(&self) -> PlacementView {
        PlacementView {
            relative: self.relative@,
            component: self.component@,
            target: self.target@,
            resolved: self.resolved,
        }
    }
}

/// The path of a copy below the destination.
pub open spec fn target_of(component: Seq<char>, path: Seq<char>) -> Seq<char> {
    dir_name(component) + "/"@ + trim_start(path, '/')
}

/// Where the file at `relative` is copied to: into the package of the component that owns it. One
/// that does not resolve, or resolves to a component's own directory, which a file can never be,
/// goes to `root`.
pub open spec fn placement(dirs: Directories, relative: Seq<char>) -> PlacementView {
    let found = resolution(dirs, relative);
    if found is Some && found->0.path_in_component.len() > 0 {
        PlacementView {
            relative,
            component: found->0.component,
            target: target_of(found->0.component, found->0.path_in_component),
            resolved: true,
        }
    } else {
        PlacementView {
            relative,
            component: ROOT_COMPONENT@,
            target: target_of(ROOT_COMPONENT@, "/"@ + relative),
            resolved: false,
        }
    }
}

/// Where the file at `relative` is copied to.
pub fn place(resolver: &ComponentResolver, relative: &str) -> (r: Placement)
    ensures
        r@ == placement(resolver.directories(), relative@),
{
    if let Some(found) = resolver.resolve(relative) {
        if !found.path_in_component.as_str().is_empty() {
            let path = trim_start_of(&found.path_in_component, '/');
            let target = concat3(&component_dir_name(&found.component), "/", &path);
            return Placement { relative: copy(relative), component: found.component, target, resolved: true };
        }
    }
    let path = trim_start_of(&concat("/", relative), '/');
    let target = concat3(&component_dir_name(ROOT_COMPONENT), "/", &path);
    Placement { relative: copy(relative), component: copy(ROOT_COMPONENT), target, resolved: false }
}

/// Where each of a codebase's files is copied to.
#[derive(Debug)]
pub struct Placements {
    pub placements: Vec<Placement>,
    /// Every file that fell back to `root`: reported rather than silently absorbed.
    pub unresolved: Vec<String>,
    /// Every component (real or `root`) that receives at least one file: the set of packages that
    /// genuinely need a `composer.json`, as opposed to every component that is known of (a subsystem
    /// with no directory of its own, e.g., never receives a file, so never becomes a package).
    pub components_used: StringSet,
}

/// The placements of `files` that are not left out, in order.
pub open spec fn placements_of(dirs: Directories, files: Seq<Seq<char>>) -> Seq<PlacementView>
    decreases files.len(),
{
    if files.len() == 0 {
        Seq::<PlacementView>::empty()
    } else {
        let rest = placements_of(dirs, files.drop_last());
        if walked(files.last()) {
            rest.push(placement(dirs, files.last()))
        } else {
            rest
        }
    }
}

/// The files that fell back to `root`, in order.
pub open spec fn unresolved_in(placements: Seq<PlacementView>) -> Seq<Seq<char>>
    decreases placements.len(),
{
    if placements.len() == 0 {
        Seq::<Seq<char>>::empty()
    } else {
        let rest = unresolved_in(placements.drop_last());
        if placements.last().resolved {
            rest
        } else {
            rest.push(placements.last().relative)
        }
    }
}

/// Whether `component` receives a file.
pub open spec fn receives(placements: Seq<PlacementView>, component: Seq<char>) -> bool {
    exists|i: int| 0 <= i < placements.len() && (#[trigger] placements[i]).component == component
}

/// The views of placements.
pub open spec fn placement_views(placements: Seq<Placement>) -> Seq<PlacementView> {
    Seq::new(placements.len(), |i: int| placements[i]@)
}

impl Placements {
    /// Whether these are the placements of `files`.
    pub open spec fn of(&self, dirs: Directories, files: Seq<Seq<char>>) -> bool {
        &&& placement_views(self.placements@) == placements_of(dirs, files)
        &&& texts(self.unresolved@) == unresolved_in(placements_of(dirs, files))
        &&& forall|c: Seq<char>| #[trigger]
            self.components_used@.contains(c) == receives(placements_of(dirs, files), c)
    }
}

/// Where each of `files`, relative to the root of the codebase, is copied to; those that are left out
/// of the copy aside.
pub fn place_all(resolver: &ComponentResolver, files: &[String]) -> (r: Placements)
    ensures
        r.of(resolver.directories(), texts(files@)),
{
    let ghost dirs = resolver.directories();
    let ghost all = texts(files@);
    let mut r = Placements {
        placements: Vec::new(),
        unresolved: Vec::new(),
        components_used: StringSet::new(),
    };
    proof {
        assert(placement_views(r.placements@) =~= Seq::<PlacementView>::empty());
        assert(texts(r.unresolved@) =~= Seq::<Seq<char>>::empty());
    }
    let mut i: usize = 0;
    while i < files.len()
        invariant
            i <= files.len(),
            dirs == resolver.directories(),
            all == texts(files@),
            r.of(dirs, all.take(i as int)),
        decreases files.len() - i,
    {
        let ghost next = all.take(i + 1);
        assert(next.drop_last() =~= all.take(i as int));
        assert(next.last() == files@[i as int]@);
        if is_walked(&files[i]) {
            let ghost done = placements_of(dirs, all.take(i as int));
            let placed = place(resolver, &files[i]);
            let ghost view = placed@;
            let ghost unresolved = texts(r.unresolved@);
            let ghost placements = placement_views(r.placements@);
            r.components_used.insert(copy(&placed.component));
            if !placed.resolved {
                r.unresolved.push(copy(&placed.relative));
                assert(texts(r.unresolved@) =~= unresolved.push(view.relative));
            }
            r.placements.push(placed);
            proof {
                assert(placement_views(r.placements@) =~= placements.push(view));
                assert(done.push(view).drop_last() =~= done);
                assert(placements_of(dirs, next) == done.push(view));
                assert forall|c: Seq<char>| #[trigger]
                    r.components_used@.contains(c) == receives(done.push(view), c) by {
                    if receives(done, c) {
                        let k = choose|k: int| 0 <= k < done.len() && (#[trigger] done[k]).component == c;
                        assert(done.push(view)[k].component == c);
                    }
                    if c == view.component {
                        assert(done.push(view).last().component == c);
                    }
                    if receives(done.push(view), c) {
                        let k = choose|k: int|
                            0 <= k < done.push(view).len() && (#[trigger] done.push(view)[k]).component == c;
                        if k < done.len() {
                            assert(done[k].component == c);
                        }
                    }
                }
            }
        }
        i += 1;
    }
    assert(all.take(i as int) =~= all);
    r
}

/// What the copy actually did.
#[derive(Debug, Clone, Copy, PartialEq, Eq)]
pub struct CopyOutcome {
    pub copied: usize,
    pub bytes: usize,
    pub failed: usize,
}

/// How many copies succeeded.
pub open spec fn count_copied(results: Seq<Option<usize>>) -> nat
    decreases results.len(),
{
    if results.len() == 0 {
        0
    } else {
        count_copied(results.drop_last()) + if results.last() is Some {
            1nat
        } else {
            0nat
        }
    }
}

/// How many bytes the copies hold in all.
pub open spec fn total_size(results: Seq<Option<usize>>) -> nat
    decreases results.len(),
{
    if results.len() == 0 {
        0
    } else {
        total_size(results.drop_last()) + match results.last() {
            Some(size) => size as nat,
            None => 0nat,
        }
    }
}

/// What the copy did, given the size of each copy that succeeded. The number of bytes wraps around
/// where it exceeds `usize::MAX`.
pub fn tally(results: &[Option<usize>]) -> (r: CopyOutcome)
    ensures
        r.copied == count_copied(results@),
        r.copied + r.failed == results@.len(),
        r.bytes as int == total_size(results@) as int % (usize::MAX + 1),
{
    let mut r = CopyOutcome { copied: 0, bytes: 0, failed: 0 };
    proof {
        vstd::arithmetic::div_mod::lemma_small_mod(0, (usize::MAX + 1) as nat);
    }
    let mut i: usize = 0;
    while i < results.len()
        invariant
            i <= results.len(),
            r.copied == count_copied(results@.take(i as int)),
            r.copied + r.failed == i,
            r.bytes as int == total_size(results@.take(i as int)) as int % (usize::MAX + 1),
        decreases results.len() - i,
    {
        let ghost done = total_size(results@.take(i as int)) as int;
        assert(results@.take(i + 1).drop_last() =~= results@.take(i as int));
        match results[i] {
            Some(size) => {
                let ghost before = r.bytes as int;
                r.copied = r.copied + 1;
                r.bytes = r.bytes.wrapping_add(size);
                proof {
                    let m = usize::MAX + 1;
                    vstd::arithmetic::div_mod::lemma_add_mod_noop(done, size as int, m);
                    vstd::arithmetic::div_mod::lemma_small_mod(size as nat, m as nat);
                    if before + size < m {
                        vstd::arithmetic::div_mod::lemma_small_mod((before + size) as nat, m as nat);
                    } else {
                        vstd::arithmetic::div_mod::lemma_mod_sub_multiples_vanish(before + size, m);
                        vstd::arithmetic::div_mod::lemma_small_mod((before + size - m) as nat, m as nat);
                    }
                }
            },
            None => {
                r.failed = r.failed + 1;
            },
        }
        i += 1;
    }
    assert(results@.take(i as int) =~= results@);
    r
}

/// No file of a `.git` directory is copied, whatever its depth, and neither is the root's own
/// `composer.lock`.
pub proof fn nothing_left_out_is_copied(dirs: Directories, files: Seq<Seq<char>>, k: int)
    requires
        0 <= k < placements_of(dirs, files).len(),
    ensures
        walked(placements_of(dirs, files)[k].relative),
        !split(placements_of(dirs, files)[k].relative, '/').contains(".git"@),
        placements_of(dirs, files)[k].relative != "composer.lock"@,
    decreases files.len(),
{
    let relative = placements_of(dirs, files)[k].relative;
    if k < placements_of(dirs, files.drop_last()).len() {
        nothing_left_out_is_copied(dirs, files.drop_last(), k);
    } else {
        assert(relative == files.last());
    }
    let parts = split(relative, '/');
    if parts.contains(".git"@) {
        let i = choose|i: int| 0 <= i < parts.len() && parts[i] == ".git"@;
        assert(left_out(i + 1, parts[i]));
    }
    if relative == "composer.lock"@ {
        reveal_strlit("composer.lock");
        crate::text::split_without_separator(relative, '/');
        assert(left_out(1, parts[0]));
    }
}

/// Every file that is not left out is copied.
pub proof fn everything_else_is_copied(dirs: Directories, files: Seq<Seq<char>>, k: int)
    requires
        0 <= k < files.len(),
        walked(files[k]),
    ensures
        placements_of(dirs, files).contains(placement(dirs, files[k])),
    decreases files.len(),
{
    let before = placements_of(dirs, files.drop_last());
    let now = placements_of(dirs, files);
    if k == files.len() - 1 {
        assert(now.last() == placement(dirs, files[k]));
    } else {
        everything_else_is_copied(dirs, files.drop_last(), k);
        let i = choose|i: int| 0 <= i < before.len() && before[i] == placement(dirs, files.drop_last()[k]);
        assert(now[i] == before[i]);
    }
}

/// A file goes to the package of the component that receives it, at a path that does not leave it
/// through a leading slash.
pub proof fn copies_stay_in_their_package(dirs: Directories, relative: Seq<char>)
    ensures
        (dir_name(placement(dirs, relative).component) + "/"@).is_prefix_of(placement(dirs, relative).target),
        ({
            let start = dir_name(placement(dirs, relative).component) + "/"@;
            let below = placement(dirs, relative).target.skip(start.len() as int);
            below.len() > 0 ==> below[0] != '/'
        }),
{
    let found = resolution(dirs, relative);
    let path = if placement(dirs, relative).resolved {
        found->0.path_in_component
    } else {
        "/"@ + relative
    };
    let start = dir_name(placement(dirs, relative).component) + "/"@;
    assert(placement(dirs, relative).target =~= start + trim_start(path, '/'));
    assert(placement(dirs, relative).target.skip(start.len() as int) =~= trim_start(path, '/'));
    trimmed_start_is_clear(path, '/');
}

proof fn trimmed_start_is_clear(text: Seq<char>, c: char)
    ensures
        trim_start(text, c).len() > 0 ==> trim_start(text, c)[0] != c,
    decreases text.len(),
{
    if text.len() > 0 && text[0] == c {
        trimmed_start_is_clear(text.drop_first(), c);
    }
}

} // verus!
