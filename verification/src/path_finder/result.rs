//! What is recorded of a path reference.

use vstd::prelude::*;

use crate::text::copy;

verus! {

/// One internal-path reference found in a Moodle file.
#[derive(Debug, Clone, PartialEq, Eq)]
pub struct PathResult {
    /// The resolved path, in glyph notation (e.g. '@/lib/setup.php'): a rendering of `real_path`,
    /// see [`crate::path_finder::PathNotation::to_glyph`].
    pub path: String,
    /// The resolved path, relative to the repository root, with no leading slash (e.g.
    /// 'public/lib/setup.php').
    pub real_path: String,
    /// The expression that anchors this path.
    pub kind: PathKind,
    /// 1-indexed source line of the matched expression.
    pub line: u32,
    /// The exact source text of the matched expression.
    pub code: String,
    /// The name of the enclosing include/require, or the function/method/static call this
    /// expression was passed to as an argument, if any (e.g. "require_once", "dirname",
    /// "Foo::bar").
    pub parent: Option<String>,
    /// Byte offset of the start of the matched expression (inclusive).
    pub start_pos: Option<usize>,
    /// Byte offset of the end of the matched expression (exclusive).
    pub end_pos: Option<usize>,
    /// The literal that immediately follows the path root in a concatenation, if it is a
    /// recognised separator ('/' or 'DIRECTORY_SEPARATOR'); empty otherwise.
    pub separator: String,
    /// The faithful PHP expression for the part of a dirroot-rooted path after $CFG->dirroot,
    /// ready to pass to core\component::from_mono_path(). Empty for paths not rooted at
    /// $CFG->dirroot.
    pub mono_path_expr: String,
    /// The last line still inside this reference's own innermost enclosing `if`/`elseif`/`else`
    /// body, if it sits inside one; `None` if it sits at its file's own top level. A reference
    /// that is only reached on one conditional branch cannot be assumed to have run for code
    /// outside that branch.
    pub scope_end_line: Option<u32>,
}

/// What is recorded of a path reference, as plain values.
pub struct PathView {
    pub path: Seq<char>,
    pub real_path: Seq<char>,
    pub kind: PathKind,
    pub line: u32,
    pub code: Seq<char>,
    pub parent: Option<Seq<char>>,
    pub start_pos: Option<usize>,
    pub end_pos: Option<usize>,
    pub separator: Seq<char>,
    pub mono_path_expr: Seq<char>,
    pub scope_end_line: Option<u32>,
}

/// The text of an optional string.
pub open spec fn text_of(text: Option<String>) -> Option<Seq<char>> {
    match text {
        Some(t) => Some(t@),
        None => None,
    }
}

impl View for PathResult {
    type V = PathView;

    open spec fn view(&self) -> PathView {
        PathView {
            path: self.path@,
            real_path: self.real_path@,
            kind: self.kind,
            line: self.line,
            code: self.code@,
            parent: text_of(self.parent),
            start_pos: self.start_pos,
            end_pos: self.end_pos,
            separator: self.separator@,
            mono_path_expr: self.mono_path_expr@,
            scope_end_line: self.scope_end_line,
        }
    }
}

impl PathResult {
    /// A copy of what is recorded.
    pub fn copy(&self) -> (r: PathResult)
        ensures
            r@ == self@,
    {
        PathResult {
            path: copy(&self.path),
            real_path: copy(&self.real_path),
            kind: self.kind,
            line: self.line,
            code: copy(&self.code),
            parent: match &self.parent {
                Some(parent) => Some(copy(parent)),
                None => None,
            },
            start_pos: self.start_pos,
            end_pos: self.end_pos,
            separator: copy(&self.separator),
            mono_path_expr: copy(&self.mono_path_expr),
            scope_end_line: self.scope_end_line,
        }
    }
}

/// What is recorded of some path references, as plain values.
pub open spec fn path_views(results: Seq<PathResult>) -> Seq<PathView> {
    Seq::new(results.len(), |i: int| results[i]@)
}

/// The kind of expression that anchors a [`PathResult`].
#[derive(Debug, Clone, Copy, PartialEq, Eq, Structural)]
pub enum PathKind {
    /// Rooted at $CFG->dirroot.
    Dirroot,
    /// Rooted at $CFG->libdir.
    Libdir,
    /// Rooted at $CFG->root, the repository root.
    Root,
    /// Rooted at __DIR__, or a dirname(__FILE__)/dirname(__DIR__) chain.
    Dir,
    /// Rooted at __FILE__.
    File,
    /// A bare string literal used as the sole value of a require/include construct, and so
    /// treated as definitely a path.
    RequireLiteral,
    /// A bare variable used as the sole value of a require/include construct, resolved by tracing
    /// back to the nearest earlier assignment to that variable in the same file whose own
    /// right-hand side is one of the other recognised shapes above: one hop only.
    TracedVariable,
}

impl PathKind {
    /// The name of the kind.
    pub open spec fn name(self) -> Seq<char> {
        match self {
            PathKind::Dirroot => "dirroot"@,
            PathKind::Libdir => "libdir"@,
            PathKind::Root => "root"@,
            PathKind::Dir => "dir"@,
            PathKind::File => "file"@,
            PathKind::RequireLiteral => "require-literal"@,
            PathKind::TracedVariable => "traced-variable"@,
        }
    }

    /// The name of the kind.
    pub fn to_string(&self) -> (name: String)
        ensures
            name@ == self.name(),
    {
        copy(match self {
            PathKind::Dirroot => "dirroot",
            PathKind::Libdir => "libdir",
            PathKind::Root => "root",
            PathKind::Dir => "dir",
            PathKind::File => "file",
            PathKind::RequireLiteral => "require-literal",
            PathKind::TracedVariable => "traced-variable",
        })
    }
}

} // verus!
