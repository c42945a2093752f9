//! The report of which component owns each file with pre-component code of its own: core, root
//! (unowned files, copied wholesale regardless), or an actual plugin. The plugin case is the one that
//! matters: such a file only exists inside that plugin's own package unless copied back, so it would
//! silently go missing from the project root a real install needs it at.

use vstd::prelude::*;

use crate::moodle::entrypoints::BootstrapKind;
use crate::moodle::entrypoints::BoundaryEdge;
use crate::moodle::entrypoints::ClassificationView;
use crate::moodle::entrypoints::ExtentView;
use crate::moodle::entrypoints::FileClassification;
use crate::moodle::entrypoints::PreComponentExtent;
use crate::moodle::entrypoints::ScannedFiles;
use crate::moodle::entrypoints::classification_views;
use crate::moodle::entrypoints::is_require_like;
use crate::moodle::entrypoints::require_like;
use crate::moodle::resolver::ComponentResolver;
use crate::moodle::resolver::Directories;
use crate::moodle::resolver::ROOT_COMPONENT;
use crate::moodle::scan::owner;
use crate::path_finder::PathResult;
use crate::path_finder::text_of;
use crate::text::chars_of;
use crate::text::concat;
use crate::text::concat3;
use crate::text::copy;
use crate::text::same;
use crate::text::texts;

verus! {

/// The references of the file called `name`: those of the last such file.
pub open spec fn references_of(files: ScannedFiles, name: Seq<char>) -> Seq<PathResult>
    decreases files.len(),
{
    if files.len() == 0 {
        Seq::<PathResult>::empty()
    } else if files.last().0@ == name {
        files.last().1@
    } else {
        references_of(files.drop_last(), name)
    }
}

/// Whether `result` is a require or include that runs before all of `edges`.
pub open spec fn runs_before(result: PathResult, edges: Seq<BoundaryEdge>) -> bool {
    &&& require_like(text_of(result.parent))
    &&& edges.len() > 0
    &&& forall|k: int| 0 <= k < edges.len() ==> result.line < (#[trigger] edges[k]).line
}

/// Whether some require or include of a file runs before all of `edges`.
pub open spec fn some_runs_before(results: Seq<PathResult>, edges: Seq<BoundaryEdge>) -> bool {
    exists|i: int| 0 <= i < results.len() && runs_before(#[trigger] results[i], edges)
}

/// Whether a file has pre-component code worth reporting: it is a bootstrap dependency or runs before
/// the boundary as a whole, or requires something before its own boundary line. Almost every file that
/// reaches the boundary has an extent, usually just up to its own config.php line with nothing before
/// it.
pub open spec fn has_own_work(classification: ClassificationView, results: Seq<PathResult>) -> bool {
    classification.kind == BootstrapKind::BootstrapDependency || match classification.extent {
        Some(ExtentView::UpToLine(edges)) => some_runs_before(results, edges),
        Some(ExtentView::WholeFile) => true,
        None => false,
    }
}

/// A text filled up with spaces to a width.
pub open spec fn padded(text: Seq<char>, width: nat) -> Seq<char> {
    if text.len() >= width {
        text
    } else {
        text + Seq::new((width - text.len()) as nat, |i: int| ' ')
    }
}

/// The line on a file: its name, its kind, how much of it is pre-component, and its component, with a
/// flag if that is a plugin or a subsystem.
pub open spec fn ownership_line(dirs: Directories, classification: ClassificationView) -> Seq<char> {
    let component = match owner(dirs, classification.file) {
        Some(name) => name,
        None => ROOT_COMPONENT@,
    };
    let extent = match classification.extent {
        Some(extent) => extent.name(),
        None => "-"@,
    };
    padded(classification.file, 55) + " "@ + classification.kind.name() + " "@ + padded(extent, 12) + " "@
        + component + if component != "core"@ && component != ROOT_COMPONENT@ {
        " <-- PLUGIN"@
    } else {
        ""@
    }
}

/// The lines on the classified files that have pre-component code of their own.
pub open spec fn ownership_lines(
    dirs: Directories,
    files: ScannedFiles,
    classifications: Seq<ClassificationView>,
) -> Seq<Seq<char>>
    decreases classifications.len(),
{
    if classifications.len() == 0 {
        Seq::<Seq<char>>::empty()
    } else {
        let before = ownership_lines(dirs, files, classifications.drop_last());
        let last = classifications.last();
        if has_own_work(last, references_of(files, last.file)) {
            before.push(ownership_line(dirs, last))
        } else {
            before
        }
    }
}

fn pad(text: &str, width: usize) -> (r: String)
    ensures
        r@ == padded(text@, width as nat),
{
    let mut n = chars_of(text).len();
    let ghost start = n;
    let mut r = copy(text);
    while n < width
        invariant
            start <= n,
            n <= width || n == start,
            start == text@.len(),
            r@ == text@ + Seq::new((n - start) as nat, |i: int| ' '),
        decreases width - n,
    {
        let ghost before = r@;
        r.push(' ');
        assert(before.push(' ') =~= text@ + Seq::new((n + 1 - start) as nat, |i: int| ' '));
        n += 1;
    }
    assert(r@ =~= padded(text@, width as nat));
    r
}

/// Whether `line` comes before all of `edges`, of which there must be one.
fn precedes_all(line: u32, edges: &Vec<BoundaryEdge>) -> (r: bool)
    ensures
        r == (edges.len() > 0 && forall|k: int| 0 <= k < edges.len() ==> line < (#[trigger] edges@[k]).line),
{
    let mut k: usize = 0;
    while k < edges.len()
        invariant
            k <= edges.len(),
            forall|j: int| 0 <= j < k ==> line < (#[trigger] edges@[j]).line,
        decreases edges.len() - k,
    {
        if line >= edges[k].line {
            assert(!(line < edges@[k as int].line));
            return false;
        }
        k += 1;
    }
    edges.len() > 0
}

fn has_work_before(results: &Vec<PathResult>, edges: &Vec<BoundaryEdge>) -> (r: bool)
    ensures
        r == some_runs_before(results@, edges@),
{
    let mut i: usize = 0;
    while i < results.len()
        invariant
            i <= results.len(),
            forall|k: int| 0 <= k < i ==> !runs_before(#[trigger] results@[k], edges@),
        decreases results.len() - i,
    {
        let parent = match &results[i].parent {
            Some(name) => Some(name.as_str()),
            None => None,
        };
        assert(crate::moodle::entrypoints::str_of(parent) == text_of(results@[i as int].parent));
        if is_require_like(parent) && precedes_all(results[i].line, edges) {
            assert(runs_before(results@[i as int], edges@));
            return true;
        }
        i += 1;
    }
    false
}

/// Whether the file of a classification has pre-component code worth reporting.
fn is_reported(classification: &FileClassification, files: &[(String, Vec<PathResult>)]) -> (r: bool)
    ensures
        r == has_own_work(classification@, references_of(files@, classification.file@)),
{
    if let BootstrapKind::BootstrapDependency = classification.kind {
        return true;
    }
    match &classification.extent {
        Some(PreComponentExtent::UpToLine(edges)) => {
            let ghost all = files@;
            let mut n: usize = files.len();
            assert(all.take(n as int) =~= all);
            while n > 0
                invariant
                    n <= files.len(),
                    all == files@,
                    references_of(all, classification.file@) == references_of(
                        all.take(n as int),
                        classification.file@,
                    ),
                    classification@.kind != BootstrapKind::BootstrapDependency,
                    classification@.extent == Some(ExtentView::UpToLine(edges@)),
                decreases n,
            {
                assert(all.take(n as int).last() == all[n - 1]);
                assert(all.take(n as int).drop_last() =~= all.take(n - 1));
                if same(&files[n - 1].0, &classification.file) {
                    return has_work_before(&files[n - 1].1, edges);
                }
                n -= 1;
            }
            assert(references_of(all, classification.file@) =~= Seq::<PathResult>::empty());
            false
        },
        Some(PreComponentExtent::WholeFile) => true,
        None => false,
    }
}

fn line_of(resolver: &ComponentResolver, classification: &FileClassification) -> (r: String)
    ensures
        r@ == ownership_line(resolver.directories(), classification@),
{
    let component = match resolver.resolve(&classification.file) {
        Some(found) => found.component,
        None => copy(ROOT_COMPONENT),
    };
    let extent = match &classification.extent {
        Some(extent) => extent.to_string(),
        None => copy("-"),
    };
    let flag = if !same(&component, "core") && !same(&component, ROOT_COMPONENT) {
        " <-- PLUGIN"
    } else {
        ""
    };
    let start = concat3(&pad(&classification.file, 55), " ", &classification.kind.to_string());
    let middle = concat3(&start, " ", &pad(&extent, 12));
    concat(&concat3(&middle, " ", &component), flag)
}

/// The lines on the files among `classifications` that have pre-component code of their own, given the
/// references in all `files`.
pub fn ownership_report(
    resolver: &ComponentResolver,
    files: &[(String, Vec<PathResult>)],
    classifications: &[FileClassification],
) -> (r: Vec<String>)
    ensures
        texts(r@) == ownership_lines(resolver.directories(), files@, classification_views(classifications@)),
{
    let ghost dirs = resolver.directories();
    let ghost all = classification_views(classifications@);
    let mut r: Vec<String> = Vec::new();
    let mut i: usize = 0;
    assert(texts(r@) =~= ownership_lines(dirs, files@, all.take(0)));
    while i < classifications.len()
        invariant
            i <= classifications.len(),
            dirs == resolver.directories(),
            all == classification_views(classifications@),
            texts(r@) == ownership_lines(dirs, files@, all.take(i as int)),
        decreases classifications.len() - i,
    {
        assert(all.take(i + 1).drop_last() =~= all.take(i as int));
        assert(all.take(i + 1).last() == classifications@[i as int]@);
        if is_reported(&classifications[i], files) {
            let ghost before = texts(r@);
            let line = line_of(resolver, &classifications[i]);
            let ghost text = line@;
            r.push(line);
            assert(texts(r@) =~= before.push(text));
        }
        i += 1;
    }
    assert(all.take(i as int) =~= all);
    r
}

} // verus!
