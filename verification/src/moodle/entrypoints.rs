//! Classifies every file in a Moodle codebase's require/include graph by its relationship to
//! `core\component`'s own source file (component.php): the file that `core\component`'s own lookup
//! is made of, and which that lookup therefore cannot find. Works purely from the require/include
//! graph a codebase-wide [`crate::path_finder::find_paths`] scan produces.
//!
//! [`pre_component_extents`] answers exactly one question per file: how much of it runs before
//! `core\component` exists to be loaded, if any, as a [`PreComponentExtent`]:
//!
//! - No entry at all: nothing in the file ever runs before `core\component` is available.
//! - [`PreComponentExtent::UpToLine`]: the file has a real require/include chain, however many
//!   hops, into component.php. Up to and including that chain's own earliest line *in this
//!   file*, `core\component` is not yet available; past it, it is.
//! - [`PreComponentExtent::WholeFile`]: the file never reaches the boundary on its own, but is
//!   required, at or before its own referrer's boundary line, by a file that has one of the above,
//!   or by another `WholeFile` file, discovered the same way, with no line limit of its own.
//!
//! [`classify`] reports every file with an extent (plus component.php itself) as a
//! [`BootstrapKind`]: the set of files a Composer plugin must place back at their original
//! location.
//!
//! ## The synthetic config.php node
//!
//! A real Moodle checkout's config.php (the file a user or the installer creates at the repository
//! root) always begins by requiring `lib/setup.php`, which leads on to component.php; but that
//! line can never be scanned, because config.php itself does not exist in a bare checkout. So
//! 'config.php' is taken to require 'lib/setup.php' in the search back from component.php.
//!
//! ## Files the graph can never reach
//!
//! A handful of files need the same fixed placement, but nothing in the codebase requires or
//! includes them into that graph: the only thing that reaches them is a subprocess spawn (e.g.
//! `admin/tool/phpunit/cli/init.php`). [`UNDETECTED_ENTRY_POINTS`] is a short, hand-maintained list
//! of such files. Each one that exists counts as a [`PreComponentExtent::WholeFile`], and its
//! [`BootstrapKind`] is taken from its own path.

use vstd::prelude::*;

use crate::collections::StringMap;
use crate::collections::StringSet;
use crate::collections::ascending;
use crate::collections::contains_push;
use crate::collections::in_order;
use crate::collections::listable;
use crate::collections::listable_with;
use crate::collections::listing_is_in_order;
use crate::collections::lists;
use crate::moodle::graph::adjacent;
use crate::moodle::graph::reach;
use crate::moodle::graph::reached;
use crate::moodle::graph::reached_is_not_avoided;
use crate::moodle::graph::starts_are_reached;
use crate::moodle::graph::steps_are_reached;
use crate::path_finder::PathNotation;
use crate::path_finder::PathResult;
use crate::path_finder::PathView;
use crate::path_finder::path_views;
use crate::text::concat3;
use crate::text::copy;
use crate::text::decimal;
use crate::text::decimal_of;
use crate::text::is_before;
use crate::text::join;
use crate::text::join_with;
use crate::text::precedes;
use crate::text::precedes_is_total;
use crate::text::precedes_is_transitive;
use crate::text::same;
use crate::text::split;
use crate::text::split_at;
use crate::text::starts_with;
use crate::text::texts;
use crate::text::trim;
use crate::text::trim_start;
use crate::text::trim_start_of;
use crate::text::trimmed;

verus! {

// ---------------------------------------------------------------------------------------------
// Types.

/// Why a file appears in a [`FileClassification`] at all.
#[derive(Debug, Clone, Copy, PartialEq, Eq, Structural)]
pub enum BootstrapKind {
    /// Reaches the boundary directly (has a [`PreComponentExtent::UpToLine`] of its own, or, for
    /// component.php itself, is the boundary), and lives under a directory named 'cli'.
    Cli,
    /// Reaches the boundary directly, same as [`Self::Cli`], but not under a 'cli' directory.
    Other,
    /// Never reaches the boundary itself: pulled in only because it is required, at or before its
    /// own referrer's boundary line, by a file that does.
    BootstrapDependency,
}

impl BootstrapKind {
    /// The name of the kind.
    pub open spec fn name(self) -> Seq<char> {
        match self {
            BootstrapKind::Cli => "cli"@,
            BootstrapKind::Other => "other"@,
            BootstrapKind::BootstrapDependency => "bootstrap-dependency"@,
        }
    }

    /// The name of the kind.
    pub fn to_string(&self) -> (name: String)
        ensures
            name@ == self.name(),
    {
        copy(match self {
            BootstrapKind::Cli => "cli",
            BootstrapKind::Other => "other",
            BootstrapKind::BootstrapDependency => "bootstrap-dependency",
        })
    }
}

/// One require/include statement, in some file, confirmed to reach component.php or config.php
/// (directly, or by requiring another file with a boundary of its own), together with how far past
/// its own line it can be trusted to mean `core\component` is now available.
///
/// A file can have more than one of these: an early-exit guard clause and the real, unconditional
/// bootstrap sequence later in the same file both count, and neither's reach can be inferred from
/// the other.
#[derive(Debug, Clone, Copy, PartialEq, Eq, Structural)]
pub struct BoundaryEdge {
    /// The edge's own line: still pre-component itself.
    pub line: u32,
    /// The last line this edge can be trusted to apply to. `None` for an edge that sits at its
    /// file's own top level: it reaches all the way to the end. `Some(line)` for an edge inside an
    /// `if`/`elseif`/`else` body: its reach stops at that body's own closing line.
    pub reach_end: Option<u32>,
}

impl BoundaryEdge {
    /// A [`BoundaryEdge`] with no conditional to scope it to: reaches to the end of the file.
    pub fn unbounded(line: u32) -> (edge: Self)
        ensures
            edge == (BoundaryEdge { line, reach_end: None }),
    {
        BoundaryEdge { line, reach_end: None }
    }

    /// The edge's own line.
    pub fn line(&self) -> (line: u32)
        ensures
            line == self.line,
    {
        self.line
    }

    /// Whether `line` is past this edge's own line, and still within its reach.
    pub open spec fn reaches(self, line: u32) -> bool {
        line > self.line && (self.reach_end matches Some(end) ==> line <= end)
    }

    /// Whether `line` is past this edge's own line, and still within its reach.
    pub fn covers(self, line: u32) -> (r: bool)
        ensures
            r == self.reaches(line),
    {
        line > self.line && match self.reach_end {
            Some(end) => line <= end,
            None => true,
        }
    }
}

/// How much of a file's own code runs before `core\component` exists.
#[derive(Debug, Clone, PartialEq, Eq)]
pub enum PreComponentExtent {
    /// One or more [`BoundaryEdge`]s, each scoped to whatever conditional (if any) it sits inside:
    /// a line is pre-component unless *some* edge's own reach covers it.
    UpToLine(Vec<BoundaryEdge>),
    /// The entire file. It never reaches the boundary on its own, so every reference in it is
    /// pre-component, regardless of where it sits.
    WholeFile,
}

/// How much of a file's own code runs before `core\component` exists, as a plain value.
pub enum ExtentView {
    UpToLine(Seq<BoundaryEdge>),
    WholeFile,
}

impl View for PreComponentExtent {
    type V = ExtentView;

    open spec fn view(&self) -> ExtentView {
        match self {
            PreComponentExtent::UpToLine(edges) => ExtentView::UpToLine(edges@),
            PreComponentExtent::WholeFile => ExtentView::WholeFile,
        }
    }
}

/// Whether some edge's own reach covers `line`.
pub open spec fn some_reaches(edges: Seq<BoundaryEdge>, line: u32) -> bool {
    exists|i: int| 0 <= i < edges.len() && (#[trigger] edges[i]).reaches(line)
}

impl ExtentView {
    /// Whether `line` falls inside this extent.
    pub open spec fn holds(self, line: u32) -> bool {
        match self {
            ExtentView::UpToLine(edges) => !some_reaches(edges, line),
            ExtentView::WholeFile => true,
        }
    }

    /// The lines of the boundary, or 'whole-file'.
    pub open spec fn name(self) -> Seq<char> {
        match self {
            ExtentView::UpToLine(edges) => join(
                Seq::new(edges.len(), |i: int| decimal(edges[i].line as nat)),
                "+"@,
            ),
            ExtentView::WholeFile => "whole-file"@,
        }
    }
}

/// Whether some edge's own reach covers `line`.
fn some_covers(edges: &Vec<BoundaryEdge>, line: u32) -> (r: bool)
    ensures
        r == some_reaches(edges@, line),
{
    let mut i: usize = 0;
    while i < edges.len()
        invariant
            i <= edges.len(),
            forall|k: int| 0 <= k < i ==> !(#[trigger] edges@[k]).reaches(line),
        decreases edges.len() - i,
    {
        if edges[i].covers(line) {
            assert(edges@[i as int].reaches(line));
            return true;
        }
        i += 1;
    }
    false
}

impl PreComponentExtent {
    /// Whether `line` falls inside this extent.
    pub fn covers(&self, line: u32) -> (r: bool)
        ensures
            r == self@.holds(line),
    {
        match self {
            PreComponentExtent::UpToLine(edges) => !some_covers(edges, line),
            PreComponentExtent::WholeFile => true,
        }
    }

    /// The lines of the boundary, joined with '+', or 'whole-file'.
    pub fn to_string(&self) -> (name: String)
        ensures
            name@ == self@.name(),
    {
        match self {
            PreComponentExtent::UpToLine(edges) => {
                let ghost numerals = Seq::new(edges@.len(), |i: int| decimal(edges@[i].line as nat));
                let mut lines: Vec<String> = Vec::new();
                let mut i: usize = 0;
                while i < edges.len()
                    invariant
                        i <= edges.len(),
                        numerals == Seq::new(edges@.len(), |i: int| decimal(edges@[i].line as nat)),
                        texts(lines@) == numerals.take(i as int),
                    decreases edges.len() - i,
                {
                    let ghost before = texts(lines@);
                    let numeral = decimal_of(edges[i].line as u64);
                    lines.push(numeral);
                    assert(texts(lines@) =~= before.push(numeral@));
                    assert(numerals.take(i + 1) =~= numerals.take(i as int).push(numerals[i as int]));
                    i += 1;
                }
                assert(texts(lines@) =~= numerals);
                join_with(&lines, "+")
            },
            PreComponentExtent::WholeFile => copy("whole-file"),
        }
    }
}

/// One file's classification.
#[derive(Debug, Clone, PartialEq, Eq)]
pub struct FileClassification {
    /// Repository-root-relative path, no leading slash.
    pub file: String,
    pub kind: BootstrapKind,
    /// This file's own [`PreComponentExtent`]; `None` only for component.php itself.
    pub extent: Option<PreComponentExtent>,
}

/// One file's classification, as plain values.
pub struct ClassificationView {
    pub file: Seq<char>,
    pub kind: BootstrapKind,
    pub extent: Option<ExtentView>,
}

/// An optional extent, as a plain value.
pub open spec fn extent_view(extent: Option<PreComponentExtent>) -> Option<ExtentView> {
    match extent {
        Some(e) => Some(e@),
        None => None,
    }
}

impl View for FileClassification {
    type V = ClassificationView;

    open spec fn view(&self) -> ClassificationView {
        ClassificationView { file: self.file@, kind: self.kind, extent: extent_view(self.extent) }
    }
}

/// Some classifications, as plain values.
pub open spec fn classification_views(classifications: Seq<FileClassification>) -> Seq<ClassificationView> {
    Seq::new(classifications.len(), |i: int| classifications[i]@)
}

// ---------------------------------------------------------------------------------------------
// Fixed places.

/// A repository-root-relative path (no leading slash) to `suffix` inside dirroot.
pub open spec fn in_dirroot(segment: Seq<char>, suffix: Seq<char>) -> Seq<char> {
    trim_start(segment + "/"@ + suffix, '/')
}

/// The repository-root-relative path of `core\component`'s own source file.
pub open spec fn component_file(segment: Seq<char>) -> Seq<char> {
    in_dirroot(segment, "lib/classes/component.php"@)
}

/// A repository-root-relative path (no leading slash) to `suffix` inside dirroot.
pub fn dirroot_relative(notation: &PathNotation, suffix: &str) -> (r: String)
    ensures
        r@ == in_dirroot(notation.segment(), suffix@),
{
    trim_start_of(&concat3(notation.dirroot_segment(), "/", suffix), '/')
}

/// The repository-root-relative paths a real Moodle checkout's config.php can live at: the
/// `public/config.php` forwarding copy on a post-5.1 layout, and the root one.
pub fn config_locations(notation: &PathNotation) -> (r: StringSet)
    ensures
        r@ == set![in_dirroot(notation.segment(), "config.php"@), "config.php"@],
{
    let mut locations = StringSet::new();
    locations.insert(dirroot_relative(notation, "config.php"));
    locations.insert(copy("config.php"));
    assert(locations@ =~= set![in_dirroot(notation.segment(), "config.php"@), "config.php"@]);
    locations
}

/// The repository-root-relative paths of `core\component`'s own source file and its unit test.
/// References in either must never be rewritten.
pub fn component_locations(notation: &PathNotation) -> (r: StringSet)
    ensures
        r@ == set![
            component_file(notation.segment()),
            in_dirroot(notation.segment(), "lib/tests/component_test.php"@),
        ],
{
    let mut locations = StringSet::new();
    locations.insert(dirroot_relative(notation, "lib/classes/component.php"));
    locations.insert(dirroot_relative(notation, "lib/tests/component_test.php"));
    assert(locations@ =~= set![
        component_file(notation.segment()),
        in_dirroot(notation.segment(), "lib/tests/component_test.php"@),
    ]);
    locations
}

/// Whether any directory component of `file` is named 'cli'.
pub open spec fn cli_path(file: Seq<char>) -> bool {
    split(file, '/').contains("cli"@)
}

/// The heuristic stand-in for checking `define('CLI_SCRIPT', true)`: whether any directory
/// component of `file` is named 'cli'.
fn is_cli_path(file: &str) -> (r: bool)
    ensures
        r == cli_path(file@),
{
    let parts = split_at(file, '/');
    let mut i: usize = 0;
    while i < parts.len()
        invariant
            i <= parts.len(),
            texts(parts@) == split(file@, '/'),
            forall|k: int| 0 <= k < i ==> texts(parts@)[k] != "cli"@,
        decreases parts.len() - i,
    {
        if same(&parts[i], "cli") {
            assert(texts(parts@)[i as int] == "cli"@);
            return true;
        }
        i += 1;
    }
    false
}

/// Hand-maintained list of files the require/include graph can never discover on its own: one
/// dirroot-relative path per line, blank lines and lines starting with '#' ignored.
pub const UNDETECTED_ENTRY_POINTS: &'static str = "admin/tool/phpunit/cli/init.php\n";

/// The paths listed by the first lines of a list of entry points.
pub open spec fn listed_entry_points(lines: Seq<Seq<char>>, segment: Seq<char>) -> Seq<Seq<char>>
    decreases lines.len(),
{
    if lines.len() == 0 {
        lines
    } else {
        let before = listed_entry_points(lines.drop_last(), segment);
        let line = trimmed(lines.last());
        if line.len() == 0 || line[0] == '#' {
            before
        } else {
            before.push(in_dirroot(segment, line))
        }
    }
}

/// The paths of a list of entry points: one dirroot-relative path per line, blank lines and lines
/// starting with '#' ignored.
pub fn parse_undetected_entry_points(source: &str, notation: &PathNotation) -> (r: Vec<String>)
    ensures
        texts(r@) == listed_entry_points(split(source@, '\n'), notation.segment()),
{
    let lines = split_at(source, '\n');
    let ghost all = texts(lines@);
    let mut r: Vec<String> = Vec::new();
    let mut i: usize = 0;
    assert(texts(r@) =~= listed_entry_points(all.take(0), notation.segment()));
    while i < lines.len()
        invariant
            i <= lines.len(),
            all == texts(lines@),
            texts(r@) == listed_entry_points(all.take(i as int), notation.segment()),
        decreases lines.len() - i,
    {
        assert(all.take(i + 1).drop_last() =~= all.take(i as int));
        let line = trim(&lines[i]);
        let ghost before = texts(r@);
        proof {
            reveal_strlit("#");
            assert("#"@ =~= seq!['#']);
            if line@.len() > 0 && line@[0] == '#' {
                assert(line@.subrange(0, 1) =~= "#"@);
            } else if "#"@.is_prefix_of(line@) {
                assert(line@.subrange(0, 1)[0] == '#');
            }
        }
        if !line.as_str().is_empty() && !starts_with(&line, "#") {
            let path = dirroot_relative(notation, &line);
            r.push(path);
            assert(texts(r@) =~= before.push(path@));
        }
        i += 1;
    }
    assert(all.take(i as int) =~= all);
    r
}

// ---------------------------------------------------------------------------------------------
// The graph.

/// One require/include statement: the file it requires/includes, its line, and the last line it can
/// be trusted to apply to if it sits inside a conditional branch.
#[derive(Debug)]
struct Edge {
    target: String,
    line: u32,
    scope_end_line: Option<u32>,
}

/// One require/include statement, as plain values.
pub struct EdgeView {
    pub target: Seq<char>,
    pub line: u32,
    pub scope_end_line: Option<u32>,
}

spec fn edge_views(edges: Seq<Edge>) -> Seq<EdgeView> {
    Seq::new(
        edges.len(),
        |i: int|
            EdgeView { target: edges[i].target@, line: edges[i].line, scope_end_line: edges[i].scope_end_line },
    )
}

/// The scanned files of a codebase: each with the references found in it.
pub type ScannedFiles = Seq<(String, Vec<PathResult>)>;

/// The four constructs that execute their target at the point they appear: the only ones that can
/// anchor a bootstrap or entry-point chain.
pub open spec fn require_like(parent: Option<Seq<char>>) -> bool {
    ||| parent == Some("require"@)
    ||| parent == Some("require_once"@)
    ||| parent == Some("include"@)
    ||| parent == Some("include_once"@)
}

/// The text of an optional string slice.
pub open spec fn str_of(text: Option<&str>) -> Option<Seq<char>> {
    match text {
        Some(t) => Some(t@),
        None => None,
    }
}

/// Whether `parent`, the name of whatever construct a path reference sits inside, `None` if it is
/// not inside any recognised one, is a require or include. Only those have PHP's same-directory
/// fallback: a path-shaped argument to, say, `file_exists()` is resolved against the current
/// working directory.
pub fn is_require_like(parent: Option<&str>) -> (r: bool)
    ensures
        r == require_like(str_of(parent)),
{
    match parent {
        Some(name) => same(name, "require") || same(name, "require_once") || same(name, "include") || same(
            name,
            "include_once",
        ),
        None => false,
    }
}

/// The require/include statements among some references, in order.
pub open spec fn file_edges(results: Seq<PathResult>) -> Seq<EdgeView>
    decreases results.len(),
{
    if results.len() == 0 {
        Seq::<EdgeView>::empty()
    } else {
        let before = file_edges(results.drop_last());
        let last = results.last()@;
        if require_like(last.parent) {
            before.push(EdgeView { target: last.real_path, line: last.line, scope_end_line: last.scope_end_line })
        } else {
            before
        }
    }
}

/// The require/include statements of the file `name`, in order.
pub open spec fn edges_of(files: ScannedFiles, name: Seq<char>) -> Seq<EdgeView>
    decreases files.len(),
{
    if files.len() == 0 {
        Seq::<EdgeView>::empty()
    } else if files.last().0@ == name {
        edges_of(files.drop_last(), name) + file_edges(files.last().1@)
    } else {
        edges_of(files.drop_last(), name)
    }
}

/// Whether the codebase has the file `name`.
pub open spec fn is_file(files: ScannedFiles, name: Seq<char>) -> bool {
    exists|i: int| 0 <= i < files.len() && (#[trigger] files[i]).0@ == name
}

/// Whether some of `edges` leads to `target`.
pub open spec fn leads_to(edges: Seq<EdgeView>, target: Seq<char>) -> bool {
    exists|k: int| 0 <= k < edges.len() && (#[trigger] edges[k]).target == target
}

/// Whether `name` requires or includes `target`. The root config.php, which no codebase has before
/// it is installed, is taken to require lib/setup.php.
pub open spec fn required_by(files: ScannedFiles, target: Seq<char>, name: Seq<char>) -> bool {
    leads_to(edges_of(files, name), target) || name == "config.php"@ && target == "lib/setup.php"@
}

/// Whether `name` is component.php, or requires or includes it, directly or transitively.
pub open spec fn reaches_boundary(files: ScannedFiles, segment: Seq<char>, name: Seq<char>) -> bool {
    reached(
        |a: Seq<char>| a == component_file(segment),
        |a: Seq<char>, b: Seq<char>| required_by(files, a, b),
        |a: Seq<char>| false,
        name,
    )
}

/// Those of `edges` that lead to something which reaches the boundary.
pub open spec fn edges_to_boundary(files: ScannedFiles, segment: Seq<char>, edges: Seq<EdgeView>) -> Seq<BoundaryEdge>
    decreases edges.len(),
{
    if edges.len() == 0 {
        Seq::<BoundaryEdge>::empty()
    } else {
        let before = edges_to_boundary(files, segment, edges.drop_last());
        if reaches_boundary(files, segment, edges.last().target) {
            before.push(BoundaryEdge { line: edges.last().line, reach_end: edges.last().scope_end_line })
        } else {
            before
        }
    }
}

/// The places in the file `name` where a chain toward the boundary begins.
pub open spec fn boundary_edges(files: ScannedFiles, segment: Seq<char>, name: Seq<char>) -> Seq<BoundaryEdge> {
    edges_to_boundary(files, segment, edges_of(files, name))
}

/// The earliest line of some edges.
pub open spec fn earliest(edges: Seq<BoundaryEdge>) -> u32
    decreases edges.len(),
{
    if edges.len() == 0 {
        u32::MAX
    } else {
        let before = earliest(edges.drop_last());
        if edges.last().line < before {
            edges.last().line
        } else {
            before
        }
    }
}

/// Whether the file `name` begins a chain toward the boundary.
pub open spec fn has_boundary(files: ScannedFiles, segment: Seq<char>, name: Seq<char>) -> bool {
    is_file(files, name) && reaches_boundary(files, segment, name) && boundary_edges(files, segment, name).len() > 0
}

/// Whether the file `name` requires or includes `target` at or before its boundary line.
pub open spec fn pulls_in(files: ScannedFiles, segment: Seq<char>, name: Seq<char>, target: Seq<char>) -> bool {
    &&& has_boundary(files, segment, name)
    &&& exists|k: int|
        0 <= k < edges_of(files, name).len() && (#[trigger] edges_of(files, name)[k]).target == target
            && edges_of(files, name)[k].line <= earliest(boundary_edges(files, segment, name))
}

/// Whether `name` is required, at or before its referrer's boundary line, by a file that has one,
/// or by another such file, and does not reach the boundary itself.
pub open spec fn is_dependency(files: ScannedFiles, segment: Seq<char>, name: Seq<char>) -> bool {
    reached(
        |a: Seq<char>| exists|seed: Seq<char>| #[trigger] pulls_in(files, segment, seed, a),
        |a: Seq<char>, b: Seq<char>| leads_to(edges_of(files, a), b),
        |a: Seq<char>| reaches_boundary(files, segment, a),
        name,
    )
}

/// Whether `name` is one of the files that the graph can never reach.
pub open spec fn is_undetected(segment: Seq<char>, name: Seq<char>) -> bool {
    listed_entry_points(split(UNDETECTED_ENTRY_POINTS@, '\n'), segment).contains(name)
}

/// How much of the file `name` runs before `core\component` exists.
pub open spec fn extent_of(files: ScannedFiles, segment: Seq<char>, name: Seq<char>) -> Option<ExtentView> {
    if !is_file(files, name) {
        None
    } else if has_boundary(files, segment, name) {
        Some(ExtentView::UpToLine(boundary_edges(files, segment, name)))
    } else if is_dependency(files, segment, name) || is_undetected(segment, name) {
        Some(ExtentView::WholeFile)
    } else {
        None
    }
}

/// The require/include graph of a codebase.
struct Graph {
    /// The statements of each file.
    forward: StringMap<Vec<Edge>>,
    /// What each file requires/includes.
    targets: StringMap<Vec<String>>,
    /// What requires/includes each file.
    reverse: StringMap<Vec<String>>,
    /// The files.
    files: StringSet,
}

spec fn targets_of(edges: Seq<EdgeView>) -> Seq<Seq<char>> {
    Seq::new(edges.len(), |i: int| edges[i].target)
}

impl Graph {
    /// Whether this is the graph of `files`, without the synthetic config.php.
    spec fn is_graph_of(&self, files: ScannedFiles) -> bool {
        &&& forall|name: Seq<char>| edge_views(#[trigger] self.forward.listed(name)) == edges_of(files, name)
        &&& forall|name: Seq<char>|
            texts(#[trigger] self.targets.listed(name)) == targets_of(edges_of(files, name))
        &&& forall|name: Seq<char>, target: Seq<char>| #[trigger]
            texts(self.reverse.listed(target)).contains(name) == #[trigger] leads_to(edges_of(files, name), target)
        &&& forall|name: Seq<char>| #[trigger] self.files@.contains(name) == is_file(files, name)
    }
}

proof fn leads_to_push(edges: Seq<EdgeView>, edge: EdgeView, target: Seq<char>)
    ensures
        leads_to(edges.push(edge), target) == (leads_to(edges, target) || edge.target == target),
{
    let longer = edges.push(edge);
    if leads_to(edges, target) {
        let k = choose|k: int| 0 <= k < edges.len() && (#[trigger] edges[k]).target == target;
        assert(longer[k].target == target);
    }
    if edge.target == target {
        assert(longer[edges.len() as int].target == target);
    }
    if leads_to(longer, target) {
        let k = choose|k: int| 0 <= k < longer.len() && (#[trigger] longer[k]).target == target;
        if k < edges.len() {
            assert(edges[k].target == target);
        }
    }
}

/// The require/include graph of some files.
fn build_graph(files: &[(String, Vec<PathResult>)]) -> (graph: Graph)
    ensures
        graph.is_graph_of(files@),
{
    let mut graph = Graph {
        forward: StringMap::new(),
        targets: StringMap::new(),
        reverse: StringMap::new(),
        files: StringSet::new(),
    };
    let mut i: usize = 0;
    proof {
        let none = files@.take(0);
        assert forall|name: Seq<char>| edge_views(#[trigger] graph.forward.listed(name)) == edges_of(none, name) by {
            assert(edge_views(graph.forward.listed(name)) =~= edges_of(none, name));
        }
        assert forall|name: Seq<char>| texts(#[trigger] graph.targets.listed(name)) == targets_of(
            edges_of(none, name),
        ) by {
            assert(texts(graph.targets.listed(name)) =~= targets_of(edges_of(none, name)));
        }
        assert forall|name: Seq<char>, target: Seq<char>| #[trigger]
            texts(graph.reverse.listed(target)).contains(name) == #[trigger] leads_to(edges_of(none, name), target) by {
            assert(texts(graph.reverse.listed(target)) =~= Seq::<Seq<char>>::empty());
        }
    }
    while i < files.len()
        invariant
            i <= files.len(),
            graph.is_graph_of(files@.take(i as int)),
        decreases files.len() - i,
    {
        let file = &files[i].0;
        let results = &files[i].1;
        let ghost before = files@.take(i as int);
        let ghost after = files@.take(i + 1);
        let ghost name = file@;
        assert(after.drop_last() =~= before);
        let mut k: usize = 0;
        let ghost start = graph;
        proof {
            assert(edges_of(before, name) =~= edges_of(before, name) + file_edges(results@.take(0)));
        }
        graph.files.insert(copy(file));
        proof {
            assert forall|x: Seq<char>| #[trigger] graph.files@.contains(x) == is_file(after, x) by {
                assert(start.files@.contains(x) == is_file(before, x));
                if is_file(before, x) {
                    let m = choose|m: int| 0 <= m < before.len() && (#[trigger] before[m]).0@ == x;
                    assert(after[m].0@ == x);
                }
                if x == name {
                    assert(after[i as int].0@ == x);
                }
                if is_file(after, x) && x != name {
                    let m = choose|m: int| 0 <= m < after.len() && (#[trigger] after[m]).0@ == x;
                    assert(before[m].0@ == x);
                }
            }
        }
        while k < results.len()
            invariant
                i < files.len(),
                k <= results.len(),
                name == file@,
                before == files@.take(i as int),
                after == files@.take(i + 1),
                forall|x: Seq<char>| #[trigger] graph.files@.contains(x) == is_file(after, x),
                forall|x: Seq<char>| x != name ==> edge_views(#[trigger] graph.forward.listed(x)) == edges_of(before, x),
                edge_views(graph.forward.listed(name)) == edges_of(before, name) + file_edges(results@.take(k as int)),
                forall|x: Seq<char>|
                    x != name ==> texts(#[trigger] graph.targets.listed(x)) == targets_of(edges_of(before, x)),
                texts(graph.targets.listed(name)) == targets_of(
                    edges_of(before, name) + file_edges(results@.take(k as int)),
                ),
                forall|x: Seq<char>, target: Seq<char>|
                    x != name ==> #[trigger] texts(graph.reverse.listed(target)).contains(x) == #[trigger] leads_to(
                        edges_of(before, x),
                        target,
                    ),
                forall|target: Seq<char>| #[trigger]
                    texts(graph.reverse.listed(target)).contains(name) == leads_to(
                        edges_of(before, name) + file_edges(results@.take(k as int)),
                        target,
                    ),
            decreases results.len() - k,
        {
            let result = &results[k];
            let ghost so_far = edges_of(before, name) + file_edges(results@.take(k as int));
            let ghost next = edges_of(before, name) + file_edges(results@.take(k + 1));
            assert(results@.take(k + 1).drop_last() =~= results@.take(k as int));
            let parent = match &result.parent {
                Some(parent) => Some(parent.as_str()),
                None => None,
            };
            assert(str_of(parent) == result@.parent);
            if is_require_like(parent) {
                let ghost edge = EdgeView {
                    target: result.real_path@,
                    line: result.line,
                    scope_end_line: result.scope_end_line,
                };
                let ghost had_forward = graph.forward;
                let ghost had_targets = graph.targets;
                let ghost had_reverse = graph.reverse;
                assert(next =~= so_far.push(edge));
                graph.forward.append(
                    copy(file),
                    Edge {
                        target: copy(&result.real_path),
                        line: result.line,
                        scope_end_line: result.scope_end_line,
                    },
                );
                graph.targets.append(copy(file), copy(&result.real_path));
                graph.reverse.append(copy(&result.real_path), copy(file));
                proof {
                    assert(edge_views(graph.forward.listed(name)) =~= so_far.push(edge));
                    assert(targets_of(so_far.push(edge)) =~= targets_of(so_far).push(edge.target));
                    assert(texts(graph.targets.listed(name)) =~= texts(had_targets.listed(name)).push(edge.target));
                    assert(texts(graph.reverse.listed(edge.target)) =~= texts(had_reverse.listed(edge.target)).push(
                        name,
                    ));
                    assert forall|x: Seq<char>, target: Seq<char>| x != name implies #[trigger] texts(
                        graph.reverse.listed(target),
                    ).contains(x) == #[trigger] leads_to(edges_of(before, x), target) by {
                        contains_push(texts(had_reverse.listed(edge.target)), name, x);
                        assert(texts(had_reverse.listed(target)).contains(x) == leads_to(edges_of(before, x), target));
                    }
                    assert forall|target: Seq<char>| #[trigger]
                        texts(graph.reverse.listed(target)).contains(name) == leads_to(next, target) by {
                        contains_push(texts(had_reverse.listed(edge.target)), name, name);
                        leads_to_push(so_far, edge, target);
                        assert(texts(had_reverse.listed(target)).contains(name) == leads_to(so_far, target));
                    }
                }
            }
            k += 1;
        }
        proof {
            assert(results@.take(results.len() as int) =~= results@);
            assert forall|x: Seq<char>| x != name implies edges_of(after, x) == edges_of(before, x) by {}
            assert(edges_of(after, name) == edges_of(before, name) + file_edges(results@));
            assert(graph.is_graph_of(after));
        }
        i += 1;
    }
    assert(files@.take(i as int) =~= files@);
    graph
}

/// Every file that is component.php, or requires or includes it, directly or transitively.
fn boundary_closure(graph: Graph, files: Ghost<ScannedFiles>, notation: &PathNotation) -> (r: (Graph, StringSet))
    requires
        graph.is_graph_of(files@),
    ensures
        r.0.forward == graph.forward,
        r.0.targets == graph.targets,
        r.0.files == graph.files,
        forall|name: Seq<char>| #[trigger] r.1@.contains(name) == reaches_boundary(files@, notation.segment(), name),
{
    let ghost segment = notation.segment();
    let mut graph = graph;
    let ghost had = graph.reverse;
    let ghost setup = "lib/setup.php"@;
    let ghost config = "config.php"@;
    graph.reverse.append(copy("lib/setup.php"), copy("config.php"));
    let mut starts: Vec<String> = Vec::new();
    starts.push(dirroot_relative(notation, "lib/classes/component.php"));
    let none = StringSet::new();
    let closure = reach(&starts, &graph.reverse, &none);
    proof {
        let f1 = |a: Seq<char>| texts(starts@).contains(a);
        let g1 = |a: Seq<char>| a == component_file(segment);
        assert forall|a: Seq<char>| #[trigger] f1(a) == g1(a) by {
            assert(texts(starts@)[0] == component_file(segment));
        }
        assert(f1 =~= g1);
        let f2 = |a: Seq<char>, b: Seq<char>| adjacent(&graph.reverse, a, b);
        let g2 = |a: Seq<char>, b: Seq<char>| required_by(files@, a, b);
        assert(texts(graph.reverse.listed(setup)) =~= texts(had.listed(setup)).push(config));
        assert forall|a: Seq<char>, b: Seq<char>| #[trigger] f2(a, b) == g2(a, b) by {
            assert(texts(had.listed(a)).contains(b) == leads_to(edges_of(files@, b), a));
            if a == setup {
                contains_push(texts(had.listed(setup)), config, b);
            }
        }
        assert(f2 =~= g2);
        let f3 = |a: Seq<char>| none@.contains(a);
        let g3 = |a: Seq<char>| false;
        assert(f3 =~= g3);
    }
    (graph, closure)
}

/// Those of the statements of a file that lead to something in the closure, the earliest line
/// among them, and what is required or included at or before that line.
fn boundary_of(
    edges: &Vec<Edge>,
    closure: &StringSet,
    files: Ghost<ScannedFiles>,
    segment: Ghost<Seq<char>>,
) -> (r: (Vec<BoundaryEdge>, u32))
    requires
        forall|name: Seq<char>| #[trigger] closure@.contains(name) == reaches_boundary(files@, segment@, name),
    ensures
        r.0@ == edges_to_boundary(files@, segment@, edge_views(edges@)),
        r.1 == earliest(r.0@),
{
    let ghost all = edge_views(edges@);
    let mut found: Vec<BoundaryEdge> = Vec::new();
    let mut first: u32 = u32::MAX;
    let mut i: usize = 0;
    assert(found@ =~= edges_to_boundary(files@, segment@, all.take(0)));
    while i < edges.len()
        invariant
            i <= edges.len(),
            all == edge_views(edges@),
            forall|name: Seq<char>| #[trigger] closure@.contains(name) == reaches_boundary(files@, segment@, name),
            found@ == edges_to_boundary(files@, segment@, all.take(i as int)),
            first == earliest(found@),
        decreases edges.len() - i,
    {
        assert(all.take(i + 1).drop_last() =~= all.take(i as int));
        assert(all.take(i + 1).last() == all[i as int]);
        if closure.contains(&edges[i].target) {
            let ghost before = found@;
            found.push(BoundaryEdge { line: edges[i].line, reach_end: edges[i].scope_end_line });
            assert(found@.drop_last() =~= before);
            if edges[i].line < first {
                first = edges[i].line;
            }
        }
        i += 1;
    }
    assert(all.take(i as int) =~= all);
    (found, first)
}

/// For every file in `files`, its own [`PreComponentExtent`].
pub fn pre_component_extents(
    files: &[(String, Vec<PathResult>)],
    notation: &PathNotation,
) -> (extents: StringMap<PreComponentExtent>)
    ensures
        forall|name: Seq<char>| #[trigger]
            extents@.contains_key(name) == extent_of(files@, notation.segment(), name) is Some,
        forall|name: Seq<char>| #[trigger]
            extents@.contains_key(name) ==> extent_of(files@, notation.segment(), name) == Some(extents@[name]@),
{
    let ghost all = files@;
    let ghost segment = notation.segment();
    let (graph, closure) = boundary_closure(build_graph(files), Ghost(all), notation);
    let n = graph.files.len();
    let ghost names = graph.files.spec_members();
    let mut extents: StringMap<PreComponentExtent> = StringMap::new();
    let mut starts: Vec<String> = Vec::new();
    let mut i: usize = 0;
    while i < n
        invariant
            i <= n,
            n == names.len(),
            names == graph.files.spec_members(),
            graph.files.valid(),
            ascending(names),
            all == files@,
            segment == notation.segment(),
            forall|name: Seq<char>| #[trigger] graph.files@.contains(name) == is_file(all, name),
            forall|name: Seq<char>| edge_views(#[trigger] graph.forward.listed(name)) == edges_of(all, name),
            forall|name: Seq<char>| #[trigger] closure@.contains(name) == reaches_boundary(all, segment, name),
            forall|name: Seq<char>| #[trigger]
                extents@.contains_key(name) == (names.take(i as int).contains(name) && has_boundary(all, segment, name)),
            forall|name: Seq<char>| #[trigger]
                extents@.contains_key(name) ==> extents@[name]@ == ExtentView::UpToLine(
                    boundary_edges(all, segment, name),
                ),
            forall|target: Seq<char>| #[trigger]
                texts(starts@).contains(target) == exists|k: int|
                    0 <= k < i && pulls_in(all, segment, #[trigger] names[k], target),
        decreases n - i,
    {
        let file = graph.files.at(i);
        let ghost name = file@;
        let ghost old_extents = extents@;
        let ghost old_starts = texts(starts@);
        let ghost earlier = names.take(i as int);
        assert(names.take(i + 1) =~= earlier.push(name));
        assert(is_file(all, name));
        proof {
            assert forall|x: Seq<char>| names.take(i + 1).contains(x) == (earlier.contains(x) || x == name) by {
                contains_push(earlier, name, x);
            }
        }
        let mut pulled = false;
        if closure.contains(file) {
            if let Some(edges) = graph.forward.get(file) {
                let (found, first) = boundary_of(edges, &closure, Ghost(all), Ghost(segment));
                assert(edges@ == graph.forward.listed(name));
                assert(edge_views(edges@) == edges_of(all, name));
                if found.len() > 0 {
                    pulled = true;
                    assert(has_boundary(all, segment, name));
                    extents.insert(copy(file), PreComponentExtent::UpToLine(found));
                    pull_in(edges, first, &mut starts);
                    proof {
                        assert forall|target: Seq<char>| #[trigger]
                            texts(starts@).contains(target) == (old_starts.contains(target) || pulls_in(
                                all,
                                segment,
                                name,
                                target,
                            )) by {
                            pulled_are_in(edges@, first, target);
                            let own = edges_of(all, name);
                            assert(pulls_in(all, segment, name, target) == exists|k: int|
                                0 <= k < own.len() && (#[trigger] own[k]).target == target && own[k].line <= first);
                        }
                    }
                }
            } else {
                assert(edge_views(graph.forward.listed(name)) =~= Seq::<EdgeView>::empty());
                assert(boundary_edges(all, segment, name) =~= Seq::<BoundaryEdge>::empty());
            }
        }
        proof {
            assert(pulled == has_boundary(all, segment, name));
            assert forall|x: Seq<char>| #[trigger] extents@.contains_key(x) == (names.take(i + 1).contains(x)
                && has_boundary(all, segment, x)) by {
                assert(old_extents.contains_key(x) == (earlier.contains(x) && has_boundary(all, segment, x)));
                contains_push(earlier, name, x);
            }
            assert forall|target: Seq<char>| #[trigger]
                texts(starts@).contains(target) == exists|k: int|
                    0 <= k < i + 1 && pulls_in(all, segment, #[trigger] names[k], target) by {
                assert(names[i as int] == name);
                assert(old_starts.contains(target) == exists|k: int|
                    0 <= k < i && pulls_in(all, segment, #[trigger] names[k], target));
                if exists|k: int| 0 <= k < i && pulls_in(all, segment, #[trigger] names[k], target) {
                    let k = choose|k: int| 0 <= k < i && pulls_in(all, segment, #[trigger] names[k], target);
                    assert(0 <= k < i + 1 && pulls_in(all, segment, names[k], target));
                }
            }
        }
        i += 1;
    }
    let dependencies = reach(&starts, &graph.targets, &closure);
    proof {
        let f1 = |a: Seq<char>| texts(starts@).contains(a);
        let g1 = |a: Seq<char>| exists|seed: Seq<char>| #[trigger] pulls_in(all, segment, seed, a);
        assert forall|a: Seq<char>| #[trigger] f1(a) == g1(a) by {
            if g1(a) {
                let seed = choose|seed: Seq<char>| #[trigger] pulls_in(all, segment, seed, a);
                assert(graph.files@.contains(seed));
                assert(names.contains(seed));
                let k = choose|k: int| 0 <= k < names.len() && names[k] == seed;
                assert(pulls_in(all, segment, names[k], a));
            }
        }
        assert(f1 =~= g1);
        let f2 = |a: Seq<char>, b: Seq<char>| adjacent(&graph.targets, a, b);
        let g2 = |a: Seq<char>, b: Seq<char>| leads_to(edges_of(all, a), b);
        assert forall|a: Seq<char>, b: Seq<char>| #[trigger] f2(a, b) == g2(a, b) by {
            let edges = edges_of(all, a);
            assert(texts(graph.targets.listed(a)) == targets_of(edges));
            if targets_of(edges).contains(b) {
                let k = choose|k: int| 0 <= k < targets_of(edges).len() && targets_of(edges)[k] == b;
                assert(edges[k].target == b);
            }
            if leads_to(edges, b) {
                let k = choose|k: int| 0 <= k < edges.len() && (#[trigger] edges[k]).target == b;
                assert(targets_of(edges)[k] == b);
            }
        }
        assert(f2 =~= g2);
        let f3 = |a: Seq<char>| closure@.contains(a);
        let g3 = |a: Seq<char>| reaches_boundary(all, segment, a);
        assert(f3 =~= g3);
        assert(names.take(n as int) =~= names);
        assert forall|name: Seq<char>| #[trigger] extents@.contains_key(name) == has_boundary(all, segment, name) by {
            if has_boundary(all, segment, name) {
                assert(graph.files@.contains(name));
                assert(names.contains(name));
            }
        }
    }
    let undetected = parse_undetected_entry_points(UNDETECTED_ENTRY_POINTS, notation);
    let ghost bounded = extents@;
    let mut j: usize = 0;
    while j < n
        invariant
            j <= n,
            n == names.len(),
            names == graph.files.spec_members(),
            graph.files.valid(),
            all == files@,
            segment == notation.segment(),
            forall|name: Seq<char>| #[trigger] graph.files@.contains(name) == is_file(all, name),
            forall|name: Seq<char>| #[trigger] dependencies@.contains(name) == is_dependency(all, segment, name),
            texts(undetected@) == listed_entry_points(split(UNDETECTED_ENTRY_POINTS@, '\n'), segment),
            forall|name: Seq<char>| #[trigger] bounded.contains_key(name) == has_boundary(all, segment, name),
            forall|name: Seq<char>| #[trigger]
                bounded.contains_key(name) ==> bounded[name]@ == ExtentView::UpToLine(
                    boundary_edges(all, segment, name),
                ),
            forall|name: Seq<char>| #[trigger]
                extents@.contains_key(name) == (bounded.contains_key(name) || names.take(j as int).contains(name) && (
                is_dependency(all, segment, name) || is_undetected(segment, name))),
            forall|name: Seq<char>| #[trigger]
                extents@.contains_key(name) ==> if bounded.contains_key(name) {
                    extents@[name] == bounded[name]
                } else {
                    extents@[name]@ == ExtentView::WholeFile
                },
        decreases n - j,
    {
        let file = graph.files.at(j);
        let ghost name = file@;
        let ghost earlier = names.take(j as int);
        let ghost had = extents@;
        assert(names.take(j + 1) =~= earlier.push(name));
        assert forall|x: Seq<char>| names.take(j + 1).contains(x) == (earlier.contains(x) || x == name) by {
            contains_push(earlier, name, x);
        }
        if !extents.contains_key(file) && (dependencies.contains(file) || is_listed(&undetected, file)) {
            extents.insert(copy(file), PreComponentExtent::WholeFile);
        }
        j += 1;
    }
    proof {
        assert(names.take(n as int) =~= names);
        assert forall|name: Seq<char>| #[trigger] extents@.contains_key(name) == extent_of(
            all,
            segment,
            name,
        ) is Some by {
            if is_file(all, name) {
                assert(graph.files@.contains(name));
                assert(names.contains(name));
            }
            if names.contains(name) {
                assert(graph.files@.contains(name));
            }
        }
    }
    extents
}

/// Whether `name` is one of `names`.
fn is_listed(names: &Vec<String>, name: &str) -> (r: bool)
    ensures
        r == texts(names@).contains(name@),
{
    let mut i: usize = 0;
    while i < names.len()
        invariant
            i <= names.len(),
            forall|k: int| 0 <= k < i ==> texts(names@)[k] != name@,
        decreases names.len() - i,
    {
        if same(&names[i], name) {
            assert(texts(names@)[i as int] == name@);
            return true;
        }
        i += 1;
    }
    false
}

/// The targets of the edges up to the line `first`.
spec fn pulled(edges: Seq<Edge>, first: u32) -> Seq<Seq<char>>
    decreases edges.len(),
{
    if edges.len() == 0 {
        Seq::<Seq<char>>::empty()
    } else if edges.last().line <= first {
        pulled(edges.drop_last(), first).push(edges.last().target@)
    } else {
        pulled(edges.drop_last(), first)
    }
}

/// Adds to `starts` what is required or included up to the line `first`.
fn pull_in(edges: &Vec<Edge>, first: u32, starts: &mut Vec<String>)
    ensures
        forall|target: Seq<char>| #[trigger]
            texts(final(starts)@).contains(target) == (texts(old(starts)@).contains(target) || pulled(
                edges@,
                first,
            ).contains(target)),
{
    let ghost before = texts(starts@);
    let mut i: usize = 0;
    assert(before =~= before + pulled(edges@.take(0), first));
    while i < edges.len()
        invariant
            i <= edges.len(),
            texts(starts@) == before + pulled(edges@.take(i as int), first),
        decreases edges.len() - i,
    {
        assert(edges@.take(i + 1).drop_last() =~= edges@.take(i as int));
        let ghost now = texts(starts@);
        if edges[i].line <= first {
            starts.push(copy(&edges[i].target));
            assert(texts(starts@) =~= now.push(edges@[i as int].target@));
        }
        assert(texts(starts@) =~= before + pulled(edges@.take(i + 1), first));
        i += 1;
    }
    assert(edges@.take(i as int) =~= edges@);
    let ghost own = pulled(edges@, first);
    assert forall|target: Seq<char>| #[trigger] texts(starts@).contains(target) == (before.contains(target)
        || own.contains(target)) by {
        let both = before + own;
        if before.contains(target) {
            let k = choose|k: int| 0 <= k < before.len() && before[k] == target;
            assert(both[k] == target);
        }
        if own.contains(target) {
            let k = choose|k: int| 0 <= k < own.len() && own[k] == target;
            assert(both[before.len() + k] == target);
        }
        if both.contains(target) {
            let k = choose|k: int| 0 <= k < both.len() && both[k] == target;
            if k < before.len() {
                assert(before[k] == target);
            } else {
                assert(own[k - before.len()] == target);
            }
        }
    }
}

proof fn pulled_are_in(edges: Seq<Edge>, first: u32, target: Seq<char>)
    ensures
        pulled(edges, first).contains(target) == exists|k: int|
            0 <= k < edge_views(edges).len() && (#[trigger] edge_views(edges)[k]).target == target
                && edge_views(edges)[k].line <= first,
    decreases edges.len(),
{
    let views = edge_views(edges);
    if edges.len() > 0 {
        let front = edges.drop_last();
        pulled_are_in(front, first, target);
        assert(edge_views(front) =~= views.drop_last());
        if edges.last().line <= first {
            contains_push(pulled(front, first), edges.last().target@, target);
        }
        if exists|k: int| 0 <= k < views.len() && (#[trigger] views[k]).target == target && views[k].line <= first {
            let k = choose|k: int|
                0 <= k < views.len() && (#[trigger] views[k]).target == target && views[k].line <= first;
            if k < views.len() - 1 {
                assert(edge_views(front)[k].target == target);
            }
        }
        if exists|k: int|
            0 <= k < edge_views(front).len() && (#[trigger] edge_views(front)[k]).target == target && edge_views(
                front,
            )[k].line <= first {
            let k = choose|k: int|
                0 <= k < edge_views(front).len() && (#[trigger] edge_views(front)[k]).target == target && edge_views(
                    front,
                )[k].line <= first;
            assert(views[k].target == target);
        }
        if edges.last().line <= first && edges.last().target@ == target {
            assert(views[views.len() - 1].target == target);
        }
    }
}

// ---------------------------------------------------------------------------------------------
// Classification.

/// The kind of a file with an extent. A file the graph can never reach is meant to be invoked
/// directly, so its kind is that which its own path implies.
pub open spec fn kind_of(segment: Seq<char>, name: Seq<char>, extent: ExtentView) -> BootstrapKind {
    if extent is WholeFile && !is_undetected(segment, name) {
        BootstrapKind::BootstrapDependency
    } else if cli_path(name) {
        BootstrapKind::Cli
    } else {
        BootstrapKind::Other
    }
}

/// The classification of a file with an extent.
pub open spec fn classification_of(files: ScannedFiles, segment: Seq<char>, name: Seq<char>) -> ClassificationView {
    ClassificationView {
        file: name,
        kind: kind_of(segment, name, extent_of(files, segment, name)->0),
        extent: extent_of(files, segment, name),
    }
}

/// How many of the ascending `names` come before a further name `name`.
pub open spec fn place_after(names: Seq<Seq<char>>, name: Seq<char>) -> int
    decreases names.len(),
{
    if names.len() > 0 && precedes(name, names.last()) {
        place_after(names.drop_last(), name)
    } else {
        names.len() as int
    }
}

/// The classifications of `names`, the ascending names of the files with an extent; with
/// component.php, which is always reported where it exists, at its place.
pub open spec fn listing(files: ScannedFiles, segment: Seq<char>, names: Seq<Seq<char>>) -> Seq<ClassificationView> {
    let own = Seq::new(names.len(), |i: int| classification_of(files, segment, names[i]));
    let component = component_file(segment);
    if is_file(files, component) {
        own.insert(
            place_after(names, component),
            ClassificationView { file: component, kind: BootstrapKind::Other, extent: None },
        )
    } else {
        own
    }
}

/// The files with an extent.
pub open spec fn files_with_extent(files: ScannedFiles, segment: Seq<char>) -> Set<Seq<char>> {
    Set::new(|name: Seq<char>| extent_of(files, segment, name) is Some)
}

/// The classifications of all bootstrap-relevant files of a codebase, in the order of their names.
pub open spec fn classified(files: ScannedFiles, segment: Seq<char>) -> Seq<ClassificationView> {
    listing(files, segment, in_order(files_with_extent(files, segment)))
}

fn copy_extent(extent: &PreComponentExtent) -> (r: PreComponentExtent)
    ensures
        r@ == extent@,
{
    match extent {
        PreComponentExtent::UpToLine(edges) => {
            let mut r: Vec<BoundaryEdge> = Vec::new();
            let mut i: usize = 0;
            while i < edges.len()
                invariant
                    i <= edges.len(),
                    r@ == edges@.take(i as int),
                decreases edges.len() - i,
            {
                r.push(edges[i]);
                assert(edges@.take(i + 1) =~= edges@.take(i as int).push(edges@[i as int]));
                i += 1;
            }
            assert(r@ =~= edges@);
            PreComponentExtent::UpToLine(r)
        },
        PreComponentExtent::WholeFile => PreComponentExtent::WholeFile,
    }
}

fn place_after_of(extents: &StringMap<PreComponentExtent>, name: &str) -> (place: usize)
    ensures
        place == place_after(extents.spec_keys(), name@),
        place <= extents.spec_keys().len(),
{
    let ghost names = extents.spec_keys();
    let mut n = extents.len();
    assert(names.take(n as int) =~= names);
    while n > 0 && is_before(name, extents.key_at(n - 1))
        invariant
            n <= names.len(),
            names == extents.spec_keys(),
            place_after(names, name@) == place_after(names.take(n as int), name@),
        decreases n,
    {
        assert(names.take(n as int).drop_last() =~= names.take(n - 1));
        n -= 1;
    }
    n
}

/// Classifies every file in `files`, the codebase-wide output of
/// [`crate::path_finder::find_paths`] as `(file, that file's results)` pairs, as bootstrap-relevant
/// or not, in the order of their names.
pub fn classify(files: &[(String, Vec<PathResult>)], notation: &PathNotation) -> (r: Vec<FileClassification>)
    ensures
        classification_views(r@) == classified(files@, notation.segment()),
{
    let ghost all = files@;
    let ghost segment = notation.segment();
    let extents = pre_component_extents(files, notation);
    let undetected = parse_undetected_entry_points(UNDETECTED_ENTRY_POINTS, notation);
    let n = extents.len();
    let ghost names = extents.spec_keys();
    let ghost own = Seq::new(names.len(), |i: int| classification_of(all, segment, names[i]));
    let mut r: Vec<FileClassification> = Vec::new();
    let mut i: usize = 0;
    while i < n
        invariant
            i <= n,
            n == names.len(),
            names == extents.spec_keys(),
            extents.valid(),
            own == Seq::new(names.len(), |i: int| classification_of(all, segment, names[i])),
            texts(undetected@) == listed_entry_points(split(UNDETECTED_ENTRY_POINTS@, '\n'), segment),
            forall|name: Seq<char>| #[trigger]
                extents@.contains_key(name) ==> extent_of(all, segment, name) == Some(extents@[name]@),
            classification_views(r@) == own.take(i as int),
        decreases n - i,
    {
        let file = extents.key_at(i);
        let extent = copy_extent(extents.value_at(i));
        let ghost before = classification_views(r@);
        let kind = if matches!(extent, PreComponentExtent::WholeFile) && !is_listed(&undetected, file) {
            BootstrapKind::BootstrapDependency
        } else if is_cli_path(file) {
            BootstrapKind::Cli
        } else {
            BootstrapKind::Other
        };
        let classification = FileClassification { file: copy(file), kind, extent: Some(extent) };
        assert(classification@ == own[i as int]);
        r.push(classification);
        assert(classification_views(r@) =~= before.push(classification@));
        assert(own.take(i + 1) =~= own.take(i as int).push(own[i as int]));
        i += 1;
    }
    assert(own.take(n as int) =~= own);
    let component = dirroot_relative(notation, "lib/classes/component.php");
    if has_file(files, &component) {
        let place = place_after_of(&extents, &component);
        let ghost before = classification_views(r@);
        let ghost entry = ClassificationView { file: component@, kind: BootstrapKind::Other, extent: None };
        r.insert(place, FileClassification { file: component, kind: BootstrapKind::Other, extent: None });
        assert(classification_views(r@) =~= before.insert(place as int, entry));
    }
    proof {
        assert forall|name: Seq<char>| #[trigger] names.contains(name) == extent_of(all, segment, name) is Some by {
            assert(extents@.contains_key(name) == names.contains(name));
        }
        listing_is_in_order(names, files_with_extent(all, segment));
    }
    r
}

/// Whether the codebase has the file `name`.
fn has_file(files: &[(String, Vec<PathResult>)], name: &str) -> (r: bool)
    ensures
        r == is_file(files@, name@),
{
    let mut i: usize = 0;
    while i < files.len()
        invariant
            i <= files.len(),
            forall|k: int| 0 <= k < i ==> (#[trigger] files@[k]).0@ != name@,
        decreases files.len() - i,
    {
        if same(&files[i].0, name) {
            assert(files@[i as int].0@ == name@);
            return true;
        }
        i += 1;
    }
    false
}

// ---------------------------------------------------------------------------------------------
// Laws.

/// What requires or includes something that reaches the boundary reaches it too.
pub proof fn boundary_is_closed(files: ScannedFiles, segment: Seq<char>, target: Seq<char>, name: Seq<char>)
    requires
        reaches_boundary(files, segment, target),
        required_by(files, target, name),
    ensures
        reaches_boundary(files, segment, name),
{
    steps_are_reached(
        |a: Seq<char>| a == component_file(segment),
        |a: Seq<char>, b: Seq<char>| required_by(files, a, b),
        |a: Seq<char>| false,
        target,
        name,
    );
}

/// component.php itself reaches the boundary: it is the boundary.
pub proof fn component_is_the_boundary(files: ScannedFiles, segment: Seq<char>)
    ensures
        reaches_boundary(files, segment, component_file(segment)),
{
    starts_are_reached(
        |a: Seq<char>| a == component_file(segment),
        |a: Seq<char>, b: Seq<char>| required_by(files, a, b),
        |a: Seq<char>| false,
        component_file(segment),
    );
}

/// Wherever lib/setup.php leads to component.php, every file that requires the root config.php
/// reaches the boundary, though no scan ever finds a config.php there.
pub proof fn config_leads_to_the_boundary(files: ScannedFiles, segment: Seq<char>, name: Seq<char>)
    requires
        reaches_boundary(files, segment, "lib/setup.php"@),
        leads_to(edges_of(files, name), "config.php"@),
    ensures
        reaches_boundary(files, segment, name),
{
    boundary_is_closed(files, segment, "lib/setup.php"@, "config.php"@);
    boundary_is_closed(files, segment, "config.php"@, name);
}

/// A file with a statement that leads to something which reaches the boundary has boundary edges.
proof fn edges_to_boundary_found(files: ScannedFiles, segment: Seq<char>, edges: Seq<EdgeView>, target: Seq<char>)
    requires
        leads_to(edges, target),
        reaches_boundary(files, segment, target),
    ensures
        edges_to_boundary(files, segment, edges).len() > 0,
    decreases edges.len(),
{
    if edges.last().target != target {
        let k = choose|k: int| 0 <= k < edges.len() && (#[trigger] edges[k]).target == target;
        assert(edges.drop_last()[k].target == target);
        edges_to_boundary_found(files, segment, edges.drop_last(), target);
    }
}

/// A file of the codebase that requires or includes something which reaches the boundary is
/// pre-component up to its own boundary lines.
pub proof fn chains_give_an_extent(files: ScannedFiles, segment: Seq<char>, name: Seq<char>, target: Seq<char>)
    requires
        is_file(files, name),
        leads_to(edges_of(files, name), target),
        reaches_boundary(files, segment, target),
    ensures
        extent_of(files, segment, name) == Some(ExtentView::UpToLine(boundary_edges(files, segment, name))),
        boundary_edges(files, segment, name).len() > 0,
{
    boundary_is_closed(files, segment, target, name);
    edges_to_boundary_found(files, segment, edges_of(files, name), target);
}

/// The earliest line is no later than any.
pub proof fn earliest_is_least(edges: Seq<BoundaryEdge>, i: int)
    requires
        0 <= i < edges.len(),
    ensures
        earliest(edges) <= edges[i].line,
    decreases edges.len(),
{
    if i < edges.len() - 1 {
        earliest_is_least(edges.drop_last(), i);
    }
}

/// Up to and including its earliest boundary line, a file is pre-component: the statement that
/// hands off into the chain is itself still resolved before what it leads to has run.
pub proof fn pre_component_up_to_the_earliest_line(edges: Seq<BoundaryEdge>, line: u32)
    requires
        line <= earliest(edges),
    ensures
        ExtentView::UpToLine(edges).holds(line),
{
    if some_reaches(edges, line) {
        let i = choose|i: int| 0 <= i < edges.len() && (#[trigger] edges[i]).reaches(line);
        earliest_is_least(edges, i);
    }
}

/// Past an unconditional boundary line, nothing is pre-component, whatever other edges there are.
pub proof fn not_pre_component_past_an_unconditional_line(edges: Seq<BoundaryEdge>, i: int, line: u32)
    requires
        0 <= i < edges.len(),
        edges[i].reach_end is None,
        line > edges[i].line,
    ensures
        !ExtentView::UpToLine(edges).holds(line),
{
    assert(edges[i].reaches(line));
}

/// A boundary line inside a conditional says nothing of the lines past that conditional.
pub proof fn conditional_line_says_nothing_past_its_branch(edge: BoundaryEdge, line: u32)
    requires
        edge.reach_end matches Some(end) && line > end,
    ensures
        ExtentView::UpToLine(seq![edge]).holds(line),
{
    if some_reaches(seq![edge], line) {
        let i = choose|i: int| 0 <= i < seq![edge].len() && (#[trigger] seq![edge][i]).reaches(line);
        assert(seq![edge][i] == edge);
    }
}

/// A bootstrap dependency never reaches the boundary itself.
pub proof fn dependencies_stay_off_the_boundary(files: ScannedFiles, segment: Seq<char>, name: Seq<char>)
    requires
        is_dependency(files, segment, name),
    ensures
        !reaches_boundary(files, segment, name),
{
    reached_is_not_avoided(
        |a: Seq<char>| exists|seed: Seq<char>| #[trigger] pulls_in(files, segment, seed, a),
        |a: Seq<char>, b: Seq<char>| leads_to(edges_of(files, a), b),
        |a: Seq<char>| reaches_boundary(files, segment, a),
        name,
    );
}

/// What a bootstrap dependency requires or includes, anywhere in it, is one too, unless it reaches
/// the boundary; and if the codebase has it, all of it is pre-component.
pub proof fn dependencies_of_dependencies_are_whole(
    files: ScannedFiles,
    segment: Seq<char>,
    name: Seq<char>,
    target: Seq<char>,
)
    requires
        is_dependency(files, segment, name),
        leads_to(edges_of(files, name), target),
        !reaches_boundary(files, segment, target),
    ensures
        is_dependency(files, segment, target),
        is_file(files, target) ==> extent_of(files, segment, target) == Some(ExtentView::WholeFile),
{
    steps_are_reached(
        |a: Seq<char>| exists|seed: Seq<char>| #[trigger] pulls_in(files, segment, seed, a),
        |a: Seq<char>, b: Seq<char>| leads_to(edges_of(files, a), b),
        |a: Seq<char>| reaches_boundary(files, segment, a),
        name,
        target,
    );
}

/// component.php has no extent of its own, as long as it requires nothing that reaches back to it
/// and is not in the hand-maintained list.
pub proof fn component_has_no_extent(files: ScannedFiles, segment: Seq<char>)
    requires
        boundary_edges(files, segment, component_file(segment)).len() == 0,
        !is_undetected(segment, component_file(segment)),
    ensures
        extent_of(files, segment, component_file(segment)) is None,
{
    component_is_the_boundary(files, segment);
    if is_dependency(files, segment, component_file(segment)) {
        dependencies_stay_off_the_boundary(files, segment, component_file(segment));
    }
}

/// The place of a further name parts the names that come after it from the others.
pub proof fn place_after_parts(names: Seq<Seq<char>>, name: Seq<char>)
    requires
        ascending(names),
    ensures
        0 <= place_after(names, name) <= names.len(),
        forall|i: int|
            0 <= i < place_after(names, name) ==> #[trigger] names[i] == name || precedes(names[i], name),
        forall|i: int| place_after(names, name) <= i < names.len() ==> precedes(name, #[trigger] names[i]),
    decreases names.len(),
{
    if names.len() > 0 {
        if precedes(name, names.last()) {
            place_after_parts(names.drop_last(), name);
            assert forall|i: int| 0 <= i < place_after(names, name) implies #[trigger] names[i] == name || precedes(
                names[i],
                name,
            ) by {
                assert(names.drop_last()[i] == names[i]);
            }
            assert forall|i: int| place_after(names, name) <= i < names.len() implies precedes(
                name,
                #[trigger] names[i],
            ) by {
                if i < names.len() - 1 {
                    assert(names.drop_last()[i] == names[i]);
                }
            }
        } else {
            precedes_is_total(name, names.last());
            assert forall|i: int| 0 <= i < names.len() implies #[trigger] names[i] == name || precedes(
                names[i],
                name,
            ) by {
                if i < names.len() - 1 && names.last() != name {
                    assert(precedes(names[i], names[names.len() - 1]));
                    precedes_is_transitive(names[i], names.last(), name);
                }
            }
        }
    }
}

/// The files with an extent can be listed in order.
pub proof fn files_with_extent_are_listed(files: ScannedFiles, segment: Seq<char>)
    ensures
        lists(in_order(files_with_extent(files, segment)), files_with_extent(files, segment)),
{
    let some = files_with_extent(files, segment);
    some_files_are_listable(files, some, files.len() as int);
    let part = Set::new(|name: Seq<char>| some.contains(name) && is_file(files.take(files.len() as int), name));
    assert(files.take(files.len() as int) =~= files);
    assert(part =~= some);
}

proof fn some_files_are_listable(files: ScannedFiles, some: Set<Seq<char>>, n: int)
    requires
        0 <= n <= files.len(),
    ensures
        listable(Set::new(|name: Seq<char>| some.contains(name) && is_file(files.take(n), name))),
    decreases n,
{
    let part = Set::new(|name: Seq<char>| some.contains(name) && is_file(files.take(n), name));
    if n == 0 {
        assert(lists(Seq::empty(), part));
    } else {
        let before = Set::new(|name: Seq<char>| some.contains(name) && is_file(files.take(n - 1), name));
        let last = files[n - 1].0@;
        some_files_are_listable(files, some, n - 1);
        listable_with(before, last);
        assert forall|name: Seq<char>| #[trigger] is_file(files.take(n), name) == (is_file(files.take(n - 1), name)
            || name == last) by {
            if is_file(files.take(n), name) && name != last {
                let k = choose|k: int| 0 <= k < n && (#[trigger] files.take(n)[k]).0@ == name;
                assert(files.take(n - 1)[k].0@ == name);
            }
            if is_file(files.take(n - 1), name) {
                let k = choose|k: int| 0 <= k < n - 1 && (#[trigger] files.take(n - 1)[k]).0@ == name;
                assert(files.take(n)[k].0@ == name);
            }
            if name == last {
                assert(files.take(n)[n - 1].0@ == name);
            }
        }
        if some.contains(last) {
            assert(part =~= before.insert(last));
        } else {
            assert(part =~= before);
        }
    }
}

/// The classifications are in the order of the file names, each file once; only component.php is
/// reported a second time where it has an extent of its own.
pub proof fn classifications_are_sorted(files: ScannedFiles, segment: Seq<char>, i: int, j: int)
    requires
        0 <= i < j < classified(files, segment).len(),
    ensures
        ({
            let list = classified(files, segment);
            precedes(list[i].file, list[j].file) || list[i].file == list[j].file && list[i].file == component_file(
                segment,
            ) && extent_of(files, segment, component_file(segment)) is Some
        }),
{
    let names = in_order(files_with_extent(files, segment));
    files_with_extent_are_listed(files, segment);
    let component = component_file(segment);
    let place = place_after(names, component);
    place_after_parts(names, component);
    if is_file(files, component) {
        if j == place {
            assert(names[i] == component || precedes(names[i], component));
            assert(names.contains(names[i]));
        } else if i == place {
            assert(precedes(component, names[j - 1]));
        } else {
            let a = if i < place {
                i
            } else {
                i - 1
            };
            let b = if j < place {
                j
            } else {
                j - 1
            };
            assert(precedes(names[a], names[b]));
        }
    } else {
        assert(precedes(names[i], names[j]));
    }
}

/// Exactly the files with an extent are classified, and component.php where it exists.
pub proof fn every_bootstrap_file_is_classified(files: ScannedFiles, segment: Seq<char>, name: Seq<char>)
    ensures
        (exists|i: int| 0 <= i < classified(files, segment).len() && (#[trigger] classified(files, segment)[i]).file
            == name) == (extent_of(files, segment, name) is Some || name == component_file(segment) && is_file(
            files,
            name,
        )),
{
    let names = in_order(files_with_extent(files, segment));
    let list = classified(files, segment);
    let component = component_file(segment);
    let place = place_after(names, component);
    files_with_extent_are_listed(files, segment);
    place_after_parts(names, component);
    if extent_of(files, segment, name) is Some {
        assert(names.contains(name));
        let k = choose|k: int| 0 <= k < names.len() && names[k] == name;
        let i = if is_file(files, component) && k >= place {
            k + 1
        } else {
            k
        };
        assert(list[i].file == name);
    }
    if name == component && is_file(files, name) {
        assert(list[place].file == name);
    }
    if exists|i: int| 0 <= i < list.len() && (#[trigger] list[i]).file == name {
        let i = choose|i: int| 0 <= i < list.len() && (#[trigger] list[i]).file == name;
        if is_file(files, component) && i == place {
        } else {
            let k = if is_file(files, component) && i > place {
                i - 1
            } else {
                i
            };
            assert(names[k] == name);
            assert(names.contains(names[k]));
        }
    }
}

/// Whether two scans have the same files, with the same require/include statements.
pub open spec fn same_graph(a: ScannedFiles, b: ScannedFiles) -> bool {
    forall|name: Seq<char>| #![trigger is_file(a, name)] #![trigger edges_of(a, name)]
        is_file(a, name) == is_file(b, name) && edges_of(a, name) == edges_of(b, name)
}

proof fn same_boundary(a: ScannedFiles, b: ScannedFiles, segment: Seq<char>)
    requires
        same_graph(a, b),
    ensures
        forall|name: Seq<char>| #[trigger] reaches_boundary(a, segment, name) == reaches_boundary(b, segment, name),
{
    assert forall|x: Seq<char>, y: Seq<char>| required_by(a, x, y) == required_by(b, x, y) by {
        assert(edges_of(a, y) == edges_of(b, y));
    }
    let in_a = |x: Seq<char>, y: Seq<char>| required_by(a, x, y);
    let in_b = |x: Seq<char>, y: Seq<char>| required_by(b, x, y);
    assert(in_a =~= in_b);
}

proof fn same_edges_to_boundary(a: ScannedFiles, b: ScannedFiles, segment: Seq<char>, edges: Seq<EdgeView>)
    requires
        same_graph(a, b),
    ensures
        edges_to_boundary(a, segment, edges) == edges_to_boundary(b, segment, edges),
    decreases edges.len(),
{
    if edges.len() > 0 {
        same_boundary(a, b, segment);
        same_edges_to_boundary(a, b, segment, edges.drop_last());
    }
}

proof fn same_dependencies(a: ScannedFiles, b: ScannedFiles, segment: Seq<char>)
    requires
        same_graph(a, b),
    ensures
        forall|name: Seq<char>| #[trigger] has_boundary(a, segment, name) == has_boundary(b, segment, name),
        forall|name: Seq<char>| #[trigger] boundary_edges(a, segment, name) == boundary_edges(b, segment, name),
        forall|name: Seq<char>| #[trigger] is_dependency(a, segment, name) == is_dependency(b, segment, name),
{
    same_boundary(a, b, segment);
    assert forall|name: Seq<char>| #[trigger] boundary_edges(a, segment, name) == boundary_edges(b, segment, name) by {
        assert(edges_of(a, name) == edges_of(b, name));
        same_edges_to_boundary(a, b, segment, edges_of(a, name));
    }
    assert forall|name: Seq<char>| #[trigger] has_boundary(a, segment, name) == has_boundary(b, segment, name) by {
        assert(is_file(a, name) == is_file(b, name));
        assert(reaches_boundary(a, segment, name) == reaches_boundary(b, segment, name));
        assert(boundary_edges(a, segment, name) == boundary_edges(b, segment, name));
    }
    assert forall|seed: Seq<char>, x: Seq<char>| #[trigger]
        pulls_in(a, segment, seed, x) == pulls_in(b, segment, seed, x) by {
        assert(edges_of(a, seed) == edges_of(b, seed));
        assert(has_boundary(a, segment, seed) == has_boundary(b, segment, seed));
        assert(boundary_edges(a, segment, seed) == boundary_edges(b, segment, seed));
    }
    let start_a = |x: Seq<char>| exists|seed: Seq<char>| #[trigger] pulls_in(a, segment, seed, x);
    let start_b = |x: Seq<char>| exists|seed: Seq<char>| #[trigger] pulls_in(b, segment, seed, x);
    assert forall|x: Seq<char>| #[trigger] start_a(x) == start_b(x) by {
        if start_a(x) {
            let seed = choose|seed: Seq<char>| #[trigger] pulls_in(a, segment, seed, x);
            assert(pulls_in(b, segment, seed, x));
        }
        if start_b(x) {
            let seed = choose|seed: Seq<char>| #[trigger] pulls_in(b, segment, seed, x);
            assert(pulls_in(a, segment, seed, x) == pulls_in(b, segment, seed, x));
        }
    }
    assert(start_a =~= start_b);
    let step_a = |x: Seq<char>, y: Seq<char>| leads_to(edges_of(a, x), y);
    let step_b = |x: Seq<char>, y: Seq<char>| leads_to(edges_of(b, x), y);
    assert(step_a =~= step_b);
    let avoided_a = |x: Seq<char>| reaches_boundary(a, segment, x);
    let avoided_b = |x: Seq<char>| reaches_boundary(b, segment, x);
    assert(avoided_a =~= avoided_b);
}

/// Extents and classifications depend on nothing but which files there are and what each requires or
/// includes.
pub proof fn classification_follows_the_graph(a: ScannedFiles, b: ScannedFiles, segment: Seq<char>)
    requires
        same_graph(a, b),
    ensures
        forall|name: Seq<char>| #[trigger] extent_of(a, segment, name) == extent_of(b, segment, name),
        classified(a, segment) == classified(b, segment),
{
    same_dependencies(a, b, segment);
    assert forall|name: Seq<char>| #[trigger] extent_of(a, segment, name) == extent_of(b, segment, name) by {
        assert(is_file(a, name) == is_file(b, name));
        assert(has_boundary(a, segment, name) == has_boundary(b, segment, name));
        assert(boundary_edges(a, segment, name) == boundary_edges(b, segment, name));
        assert(is_dependency(a, segment, name) == is_dependency(b, segment, name));
    }
    assert(files_with_extent(a, segment) =~= files_with_extent(b, segment));
    let names = in_order(files_with_extent(a, segment));
    let own_a = Seq::new(names.len(), |i: int| classification_of(a, segment, names[i]));
    let own_b = Seq::new(names.len(), |i: int| classification_of(b, segment, names[i]));
    assert forall|i: int| 0 <= i < names.len() implies classification_of(a, segment, names[i]) == classification_of(
        b,
        segment,
        names[i],
    ) by {
        assert(extent_of(a, segment, names[i]) == extent_of(b, segment, names[i]));
    }
    assert(own_a =~= own_b);
    assert(is_file(a, component_file(segment)) == is_file(b, component_file(segment)));
}

/// Whether no two files have the same name.
pub open spec fn distinct_names(files: ScannedFiles) -> bool {
    forall|i: int, j: int| 0 <= i < j < files.len() ==> (#[trigger] files[i]).0@ != (#[trigger] files[j]).0@
}

/// The statements of a file with a name of its own are those in it.
proof fn edges_of_own_file(files: ScannedFiles, k: int)
    requires
        distinct_names(files),
        0 <= k < files.len(),
    ensures
        edges_of(files, files[k].0@) == file_edges(files[k].1@),
    decreases files.len(),
{
    let rest = files.drop_last();
    let name = files[k].0@;
    assert(distinct_names(rest)) by {
        assert forall|i: int, j: int| 0 <= i < j < rest.len() implies (#[trigger] rest[i]).0@ != (
        #[trigger] rest[j]).0@ by {
            assert(files[i].0@ != files[j].0@);
        }
    }
    if k == files.len() - 1 {
        assert forall|i: int| 0 <= i < rest.len() implies (#[trigger] rest[i]).0@ != name by {
            assert(files[i].0@ != files[k].0@);
        }
        edges_of_no_file(rest, name);
        assert(edges_of(rest, name) + file_edges(files[k].1@) =~= file_edges(files[k].1@));
    } else {
        assert(files[k].0@ != files[files.len() - 1].0@);
        assert(rest[k] == files[k]);
        edges_of_own_file(rest, k);
    }
}

/// Where there is no file of a name, there are no statements of it.
proof fn edges_of_no_file(files: ScannedFiles, name: Seq<char>)
    requires
        forall|i: int| 0 <= i < files.len() ==> (#[trigger] files[i]).0@ != name,
    ensures
        edges_of(files, name) == Seq::<EdgeView>::empty(),
    decreases files.len(),
{
    if files.len() > 0 {
        assert(files[files.len() - 1].0@ != name);
        assert forall|i: int| 0 <= i < files.drop_last().len() implies (#[trigger] files.drop_last()[i]).0@ != name by {
            assert(files[i].0@ != name);
        }
        edges_of_no_file(files.drop_last(), name);
    }
}

/// The order in which a scan delivers the files makes no difference to their extents and
/// classifications.
pub proof fn order_of_files_makes_no_difference(files: ScannedFiles, others: ScannedFiles, segment: Seq<char>)
    requires
        distinct_names(files),
        files.to_multiset() == others.to_multiset(),
    ensures
        classified(files, segment) == classified(others, segment),
        forall|name: Seq<char>| #[trigger] extent_of(files, segment, name) == extent_of(others, segment, name),
{
    files.to_multiset_ensures();
    others.to_multiset_ensures();
    assert(files.no_duplicates()) by {
        assert forall|i: int, j: int| 0 <= i < files.len() && 0 <= j < files.len() && i != j implies files[i]
            != files[j] by {
            if i < j {
                assert(files[i].0@ != files[j].0@);
            } else {
                assert(files[j].0@ != files[i].0@);
            }
        }
    }
    files.lemma_multiset_has_no_duplicates();
    others.lemma_multiset_has_no_duplicates_conv();
    assert forall|x: (String, Vec<PathResult>)| files.contains(x) == others.contains(x) by {
        assert(files.contains(x) == (files.to_multiset().count(x) > 0));
        assert(others.contains(x) == (others.to_multiset().count(x) > 0));
    }
    assert(distinct_names(others)) by {
        assert forall|i: int, j: int| 0 <= i < j < others.len() implies (#[trigger] others[i]).0@ != (
        #[trigger] others[j]).0@ by {
            if others[i].0@ == others[j].0@ {
                assert(others.contains(others[i]) && others.contains(others[j]));
                assert(files.contains(others[i]) && files.contains(others[j]));
                let m = choose|m: int| 0 <= m < files.len() && files[m] == others[i];
                let n = choose|n: int| 0 <= n < files.len() && files[n] == others[j];
                if m < n {
                    assert(files[m].0@ != files[n].0@);
                } else if n < m {
                    assert(files[n].0@ != files[m].0@);
                }
                assert(others[i] == others[j]);
            }
        }
    }
    assert forall|name: Seq<char>| #![trigger is_file(files, name)] #![trigger edges_of(files, name)]
        is_file(files, name) == is_file(others, name) && edges_of(files, name) == edges_of(others, name) by {
        if is_file(files, name) {
            let k = choose|k: int| 0 <= k < files.len() && (#[trigger] files[k]).0@ == name;
            assert(files.contains(files[k]));
            let m = choose|m: int| 0 <= m < others.len() && others[m] == files[k];
            assert(others[m].0@ == name);
            edges_of_own_file(files, k);
            edges_of_own_file(others, m);
        } else {
            assert(!is_file(others, name)) by {
                if is_file(others, name) {
                    let m = choose|m: int| 0 <= m < others.len() && (#[trigger] others[m]).0@ == name;
                    assert(others.contains(others[m]));
                    let k = choose|k: int| 0 <= k < files.len() && files[k] == others[m];
                    assert(files[k].0@ == name);
                }
            }
            edges_of_no_file(files, name);
            edges_of_no_file(others, name);
        }
    }
    classification_follows_the_graph(files, others, segment);
}

/// The references that are the value of a require or include.
pub open spec fn only_required(results: Seq<PathView>) -> Seq<PathView>
    decreases results.len(),
{
    if results.len() == 0 {
        results
    } else if require_like(results.last().parent) {
        only_required(results.drop_last()).push(results.last())
    } else {
        only_required(results.drop_last())
    }
}

/// The statements among references, given as plain values.
spec fn view_edges(results: Seq<PathView>) -> Seq<EdgeView>
    decreases results.len(),
{
    if results.len() == 0 {
        Seq::<EdgeView>::empty()
    } else {
        let before = view_edges(results.drop_last());
        let last = results.last();
        if require_like(last.parent) {
            before.push(EdgeView { target: last.real_path, line: last.line, scope_end_line: last.scope_end_line })
        } else {
            before
        }
    }
}

proof fn edges_of_views(results: Seq<PathResult>)
    ensures
        file_edges(results) == view_edges(path_views(results)),
    decreases results.len(),
{
    if results.len() > 0 {
        edges_of_views(results.drop_last());
        assert(path_views(results).drop_last() =~= path_views(results.drop_last()));
    }
}

proof fn only_required_matter(results: Seq<PathView>)
    ensures
        view_edges(only_required(results)) == view_edges(results),
    decreases results.len(),
{
    if results.len() > 0 {
        only_required_matter(results.drop_last());
        if require_like(results.last().parent) {
            assert(only_required(results).drop_last() =~= only_required(results.drop_last()));
        }
    }
}

/// Whether `others` are `files` without the references that are not the value of a require or include.
pub open spec fn without_mentions(files: ScannedFiles, others: ScannedFiles) -> bool {
    &&& files.len() == others.len()
    &&& forall|i: int|
        0 <= i < files.len() ==> {
            &&& (#[trigger] others[i]).0@ == files[i].0@
            &&& path_views(others[i].1@) == only_required(path_views(files[i].1@))
        }
}

proof fn mentions_are_no_edges(files: ScannedFiles, others: ScannedFiles, name: Seq<char>)
    requires
        without_mentions(files, others),
    ensures
        edges_of(files, name) == edges_of(others, name),
    decreases files.len(),
{
    if files.len() > 0 {
        let last = files.len() - 1;
        assert(without_mentions(files.drop_last(), others.drop_last())) by {
            assert forall|i: int| 0 <= i < files.drop_last().len() implies {
                &&& (#[trigger] others.drop_last()[i]).0@ == files.drop_last()[i].0@
                &&& path_views(others.drop_last()[i].1@) == only_required(path_views(files.drop_last()[i].1@))
            } by {
                assert(others[i].0@ == files[i].0@);
            }
        }
        mentions_are_no_edges(files.drop_last(), others.drop_last(), name);
        assert(others[last].0@ == files[last].0@);
        edges_of_views(files[last].1@);
        edges_of_views(others[last].1@);
        only_required_matter(path_views(files[last].1@));
    }
}

/// A path that is merely mentioned (an existence check, an error message) makes no difference to extents
/// and classifications: only what is required or included does.
pub proof fn mentions_make_no_difference(files: ScannedFiles, others: ScannedFiles, segment: Seq<char>)
    requires
        without_mentions(files, others),
    ensures
        classified(files, segment) == classified(others, segment),
        forall|name: Seq<char>| #[trigger] extent_of(files, segment, name) == extent_of(others, segment, name),
{
    assert forall|name: Seq<char>| #![trigger is_file(files, name)] #![trigger edges_of(files, name)]
        is_file(files, name) == is_file(others, name) && edges_of(files, name) == edges_of(others, name) by {
        mentions_are_no_edges(files, others, name);
        if is_file(files, name) {
            let k = choose|k: int| 0 <= k < files.len() && (#[trigger] files[k]).0@ == name;
            assert(others[k].0@ == name);
        }
        if is_file(others, name) {
            let k = choose|k: int| 0 <= k < others.len() && (#[trigger] others[k]).0@ == name;
            assert(files[k].0@ == name);
        }
    }
    classification_follows_the_graph(files, others, segment);
}

} // verus!
