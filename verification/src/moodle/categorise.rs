//! Categorises every path reference found anywhere in a scanned codebase by how it relates to
//! Moodle's own bootstrap sequence and its component system.
//!
//! The point of this is to help judge which references could plausibly be rewritten to use
//! `core\component` to locate their own files, and which categorically cannot: a reference
//! categorised `PreComponent`, for instance, is real file-loading work done before
//! `core\component` could exist to be loaded, no matter what the reference itself resolves to.

use vstd::prelude::*;

use crate::collections::StringSet;
use crate::moodle::entrypoints::ExtentView;
use crate::moodle::entrypoints::PreComponentExtent;
use crate::moodle::entrypoints::str_of;
use crate::moodle::resolver::ROOT_COMPONENT;
use crate::moodle::resolver::Resolution;
use crate::moodle::resolver::ResolutionView;
use crate::path_finder::PathKind;
use crate::path_finder::PathResult;
use crate::path_finder::PathView;
use crate::text::chars_of;
use crate::text::concat;
use crate::text::copy;
use crate::text::has_char;
use crate::text::same;
use crate::text::split;
use crate::text::split_at;
use crate::text::starts_with;
use crate::text::string_of;
use crate::text::texts;

verus! {

/// One path reference's category, most-specific rule first: a reference can only be `Config` if
/// it targets config.php outright, and can only be `PreComponent` if it runs before the
/// containing file's own boundary; either check settles the category regardless of what
/// the reference's target itself resolves to. `PluginTypeRoot` is checked next, ahead of
/// everything resolution-based, since it too is a plain match against a fixed, known set of
/// locations. Past those, `DynamicComponent`, `DirrootWrangling` and `RootWrangling` are specific
/// shapes checked ahead of the plain same/different-component fallback that everything else
/// resolved lands in.
#[derive(Debug, Clone, Copy, PartialEq, Eq, Structural)]
pub enum PathCategory {
    /// Sits in `core\component`'s own source file or its unit test, whatever it targets.
    Component,
    /// Targets config.php itself (root or `public/`).
    Config,
    /// Sits in a bootstrap file, before that file's own boundary: real file-loading work done with
    /// no possible access to `core\component` yet, regardless of what it leads to.
    PreComponent,
    /// The same, for a bare literal used as the sole value of a require/include.
    PreComponentLiteral,
    /// A bare literal that is resolved via PHP's include path, not the directory of the file it is
    /// in: Moodle's bundled PEAR library under `lib/pear`.
    IncludePathRelative,
    /// The reference is exactly a plugin type's own root directory: the directory that holds
    /// every plugin of that type (e.g. `mod/`, `theme/`).
    PluginTypeRoot,
    /// Resolved to a component synthesised from a dynamic plugin-name segment (e.g.
    /// `mod_{$modname}`) rather than a literal one.
    DynamicComponent,
    /// The reference is exactly `$CFG->dirroot` itself, or that plus a single trailing separator.
    DirrootWrangling,
    /// The same idea as [`Self::DirrootWrangling`], for `$CFG->root` itself.
    RootWrangling,
    /// Resolved to a literal file or directory in the same component as the file containing the
    /// reference.
    StaticSameComponent,
    /// Resolved to a literal file or directory in a different component than the one containing
    /// the reference.
    StaticDifferentComponent,
    /// Did not resolve, but has the shape of a real path with one or more runtime-only segments
    /// (e.g. `$CFG->dirroot . $includefile`): unknowable statically, but not malformed.
    VariableOnly,
    /// Nothing above applies (e.g. a path that escapes the repository root entirely).
    Uncategorised,
}

impl PathCategory {
    /// The name of the category.
    pub open spec fn name(self) -> Seq<char> {
        match self {
            PathCategory::Component => "component"@,
            PathCategory::Config => "config"@,
            PathCategory::PreComponent => "pre-component"@,
            PathCategory::PreComponentLiteral => "pre-component-literal"@,
            PathCategory::IncludePathRelative => "include-path-relative"@,
            PathCategory::PluginTypeRoot => "plugin-type-root"@,
            PathCategory::DynamicComponent => "dynamic-component"@,
            PathCategory::DirrootWrangling => "dirroot-wrangling"@,
            PathCategory::RootWrangling => "root-wrangling"@,
            PathCategory::StaticSameComponent => "static-same-component"@,
            PathCategory::StaticDifferentComponent => "static-different-component"@,
            PathCategory::VariableOnly => "variable-only"@,
            PathCategory::Uncategorised => "uncategorised"@,
        }
    }

    /// The name of the category.
    pub fn to_string(&self) -> (name: String)
        ensures
            name@ == self.name(),
    {
        copy(match self {
            PathCategory::Component => "component",
            PathCategory::Config => "config",
            PathCategory::PreComponent => "pre-component",
            PathCategory::PreComponentLiteral => "pre-component-literal",
            PathCategory::IncludePathRelative => "include-path-relative",
            PathCategory::PluginTypeRoot => "plugin-type-root",
            PathCategory::DynamicComponent => "dynamic-component",
            PathCategory::DirrootWrangling => "dirroot-wrangling",
            PathCategory::RootWrangling => "root-wrangling",
            PathCategory::StaticSameComponent => "static-same-component",
            PathCategory::StaticDifferentComponent => "static-different-component",
            PathCategory::VariableOnly => "variable-only",
            PathCategory::Uncategorised => "uncategorised",
        })
    }
}

/// What the category of a reference depends on besides the reference and what it resolves to.
pub struct Places {
    /// Where config.php can live.
    pub config_locations: Set<Seq<char>>,
    /// Every plugin type's own root directory.
    pub plugin_type_roots: Set<Seq<char>>,
    /// The dirroot path relative to the repository root, with no leading or trailing slash.
    pub dirroot: Seq<char>,
}

/// Whether `path` is a plugin type's root, with or without a trailing slash.
pub open spec fn plugin_type_root(path: Seq<char>, roots: Set<Seq<char>>) -> bool {
    roots.contains(path) || path.len() > 0 && path.last() == '/' && roots.contains(path.drop_last())
}

/// Whether `path` is dirroot, with or without a trailing separator.
pub open spec fn dirroot_wrangling(path: Seq<char>, dirroot: Seq<char>) -> bool {
    path == dirroot || path == dirroot.push('/') || path == dirroot.push('\\')
}

/// Whether all segments of `path` are empty.
pub open spec fn only_slashes(path: Seq<char>) -> bool {
    forall|i: int| 0 <= i < split(path, '/').len() ==> (#[trigger] split(path, '/')[i]).len() == 0
}

/// Whether `path` is the repository root, with or without a trailing separator.
pub open spec fn root_wrangling(path: Seq<char>) -> bool {
    only_slashes(path) || path == seq!['\\']
}

/// Whether `path` has the shape of a path within the repository with runtime-only parts.
pub open spec fn variable_shaped(path: Seq<char>) -> bool {
    path.contains('{') && !path.contains('\\') && !split(path, '/').contains(".."@)
}

/// The category of a reference that resolves to `target`.
pub open spec fn resolved_category(
    path: Seq<char>,
    source_component: Option<Seq<char>>,
    target: ResolutionView,
    dirroot: Seq<char>,
) -> PathCategory {
    if target.component.contains('{') {
        PathCategory::DynamicComponent
    } else if target.component == ROOT_COMPONENT@ && dirroot_wrangling(path, dirroot) {
        PathCategory::DirrootWrangling
    } else if target.component == ROOT_COMPONENT@ && root_wrangling(path) {
        PathCategory::RootWrangling
    } else if source_component == Some(target.component) {
        PathCategory::StaticSameComponent
    } else {
        PathCategory::StaticDifferentComponent
    }
}

/// The category of a reference that does not resolve.
pub open spec fn unresolved_category(path: Seq<char>, dirroot: Seq<char>) -> PathCategory {
    if dirroot_wrangling(path, dirroot) {
        PathCategory::DirrootWrangling
    } else if root_wrangling(path) {
        PathCategory::RootWrangling
    } else if variable_shaped(path) {
        PathCategory::VariableOnly
    } else {
        PathCategory::Uncategorised
    }
}

/// The category of a reference to `path` on line `line` of a file with the boundary line
/// `boundary_line`.
pub open spec fn category(
    path: Seq<char>,
    line: u32,
    boundary_line: Option<u32>,
    places: Places,
    source_component: Option<Seq<char>>,
    target: Option<ResolutionView>,
) -> PathCategory {
    if places.config_locations.contains(path) {
        PathCategory::Config
    } else if boundary_line matches Some(boundary) && line < boundary {
        PathCategory::PreComponent
    } else if plugin_type_root(path, places.plugin_type_roots) {
        PathCategory::PluginTypeRoot
    } else {
        match target {
            Some(target) => resolved_category(path, source_component, target, places.dirroot),
            None => unresolved_category(path, places.dirroot),
        }
    }
}

/// Whether a reference is a bare literal that PHP finds via its include path: the text of the
/// literal, inside its quotes, starts with 'HTML/' or 'PEAR/'.
pub open spec fn include_path_relative(result: PathView) -> bool {
    let quoted = without_prefix(result.code);
    &&& result.kind == PathKind::RequireLiteral
    &&& quoted.len() > 0
    &&& "HTML/"@.is_prefix_of(quoted.skip(1)) || "PEAR/"@.is_prefix_of(quoted.skip(1))
}

/// The code of a string literal without the prefix that says it is binary.
pub open spec fn without_prefix(code: Seq<char>) -> Seq<char> {
    if code.len() > 0 && (code[0] == 'b' || code[0] == 'B') {
        code.skip(1)
    } else {
        code
    }
}

/// The category of a reference in a file, of which `extent` runs before `core\component` exists.
pub open spec fn category_in(
    in_component_file: bool,
    result: PathView,
    extent: Option<ExtentView>,
    places: Places,
    source_component: Option<Seq<char>>,
    target: Option<ResolutionView>,
) -> PathCategory {
    if in_component_file {
        PathCategory::Component
    } else if places.config_locations.contains(result.real_path) {
        PathCategory::Config
    } else if include_path_relative(result) {
        PathCategory::IncludePathRelative
    } else if extent matches Some(extent) && extent.holds(result.line) {
        if result.kind == PathKind::RequireLiteral {
            PathCategory::PreComponentLiteral
        } else {
            PathCategory::PreComponent
        }
    } else {
        category(result.real_path, result.line, None, places, source_component, target)
    }
}

/// Categorises `result`, one path reference from anywhere in the scanned codebase.
///
/// `config_locations` is [`crate::moodle::entrypoints::config_locations`]. `file_boundary_line`
/// is the first line of the containing file that does not run before `core\component` exists, if
/// there is anything that does. `plugin_type_roots` is every plugin type's own
/// root directory, repository-relative (e.g. 'public/mod', 'public/theme'). `source_component` is
/// the component owning the containing file itself; `target` is the resolution of
/// `result.real_path`, both via [`crate::moodle::resolver::ComponentResolver`]. `dirroot` is
/// dirroot's own path relative to the repository root, with no leading or trailing slash (e.g.
/// 'public', or '' pre-Moodle-5.1 where dirroot and the repository root coincide); used only to
/// recognise dirroot-wrangling by shape.
pub fn categorise(
    result: &PathResult,
    config_locations: &StringSet,
    file_boundary_line: Option<u32>,
    plugin_type_roots: &StringSet,
    source_component: Option<&str>,
    target: Option<&Resolution>,
    dirroot: &str,
) -> (r: PathCategory)
    ensures
        r == category(
            result.real_path@,
            result.line,
            file_boundary_line,
            (Places {
                config_locations: config_locations@,
                plugin_type_roots: plugin_type_roots@,
                dirroot: dirroot@,
            }),
            str_of(source_component),
            target_view(target),
        ),
{
    let path = result.real_path.as_str();
    if config_locations.contains(path) {
        return PathCategory::Config;
    }
    if let Some(boundary_line) = file_boundary_line {
        if result.line < boundary_line {
            return PathCategory::PreComponent;
        }
    }
    if is_plugin_type_root(path, plugin_type_roots) {
        return PathCategory::PluginTypeRoot;
    }
    match target {
        Some(resolution) => {
            let is_root = same(&resolution.component, ROOT_COMPONENT);
            if has_char(&resolution.component, '{') {
                PathCategory::DynamicComponent
            } else if is_root && is_dirroot_wrangling(path, dirroot) {
                PathCategory::DirrootWrangling
            } else if is_root && is_root_wrangling(path) {
                PathCategory::RootWrangling
            } else {
                let same_component = match source_component {
                    Some(component) => same(component, &resolution.component),
                    None => false,
                };
                if same_component {
                    PathCategory::StaticSameComponent
                } else {
                    PathCategory::StaticDifferentComponent
                }
            }
        },
        // Nothing with a backslash in it resolves: a backslash is generally a Windows separator or
        // a namespace. But code that is explicitly checking for a Windows-style path legitimately
        // means dirroot/root plus a trailing separator, so it is recognised here.
        None => if is_dirroot_wrangling(path, dirroot) {
            PathCategory::DirrootWrangling
        } else if is_root_wrangling(path) {
            PathCategory::RootWrangling
        } else if is_variable_shaped(path) {
            PathCategory::VariableOnly
        } else {
            PathCategory::Uncategorised
        },
    }
}

/// What an optional target says, as texts.
pub open spec fn target_view(target: Option<&Resolution>) -> Option<ResolutionView> {
    match target {
        Some(resolution) => Some(resolution@),
        None => None,
    }
}

/// What is fixed for all references of a codebase.
pub struct KnownPlaces {
    /// Where `core\component`'s own source file and its unit test live.
    pub component_locations: StringSet,
    /// Where config.php can live.
    pub config_locations: StringSet,
    /// Every plugin type's own root directory.
    pub plugin_type_roots: StringSet,
    /// The dirroot path relative to the repository root, with no leading or trailing slash.
    pub dirroot: String,
}

impl KnownPlaces {
    /// The places that decide the category of a reference outside `core\component`'s own files, which
    /// `component_locations` are.
    pub open spec fn places(&self) -> Places {
        Places {
            config_locations: self.config_locations@,
            plugin_type_roots: self.plugin_type_roots@,
            dirroot: self.dirroot@,
        }
    }
}

/// What an optional extent says.
pub open spec fn extent_ref_view(extent: Option<&PreComponentExtent>) -> Option<ExtentView> {
    match extent {
        Some(extent) => Some(extent@),
        None => None,
    }
}

/// Categorises `result`, a path reference in `file`, of which `extent` runs before
/// `core\component` exists.
pub fn categorise_in(
    file: &str,
    result: &PathResult,
    extent: Option<&PreComponentExtent>,
    known: &KnownPlaces,
    source_component: Option<&str>,
    target: Option<&Resolution>,
) -> (r: PathCategory)
    ensures
        r == category_in(
            known.component_locations@.contains(file@),
            result@,
            extent_ref_view(extent),
            known.places(),
            str_of(source_component),
            target_view(target),
        ),
{
    if known.component_locations.contains(file) {
        return PathCategory::Component;
    }
    if known.config_locations.contains(&result.real_path) {
        return PathCategory::Config;
    }
    if is_include_path_relative(result) {
        return PathCategory::IncludePathRelative;
    }
    if let Some(extent) = extent {
        if extent.covers(result.line) {
            return if let PathKind::RequireLiteral = result.kind {
                PathCategory::PreComponentLiteral
            } else {
                PathCategory::PreComponent
            };
        }
    }
    categorise(
        result,
        &known.config_locations,
        None,
        &known.plugin_type_roots,
        source_component,
        target,
        &known.dirroot,
    )
}

fn is_include_path_relative(result: &PathResult) -> (r: bool)
    ensures
        r == include_path_relative(result@),
{
    if let PathKind::RequireLiteral = result.kind {
        let code = chars_of(&result.code);
        let prefix: usize = if code.len() > 0 && (code[0] == 'b' || code[0] == 'B') {
            1
        } else {
            0
        };
        if code.len() > prefix {
            let unquoted = string_of(&code, prefix + 1, code.len());
            assert(unquoted@ =~= without_prefix(result@.code).skip(1));
            return starts_with(&unquoted, "HTML/") || starts_with(&unquoted, "PEAR/");
        }
    }
    false
}

/// Whether `real_path` is exactly one of `plugin_type_roots`, or one of them with a single
/// trailing '/' appended by how it was concatenated (e.g. `$CFG->dirroot . '/mod/'`).
fn is_plugin_type_root(real_path: &str, plugin_type_roots: &StringSet) -> (r: bool)
    ensures
        r == plugin_type_root(real_path@, plugin_type_roots@),
{
    if plugin_type_roots.contains(real_path) {
        return true;
    }
    let path = chars_of(real_path);
    if path.len() == 0 || path[path.len() - 1] != '/' {
        return false;
    }
    plugin_type_roots.contains(&string_of(&path, 0, path.len() - 1))
}

/// Whether `real_path` is exactly `dirroot` itself, or that same location with a single trailing
/// separator appended by how it was concatenated (e.g. `$CFG->dirroot . '/'` or, for code
/// explicitly checking a Windows-style path, `$CFG->dirroot . '\\'`).
fn is_dirroot_wrangling(real_path: &str, dirroot: &str) -> (r: bool)
    ensures
        r == dirroot_wrangling(real_path@, dirroot@),
{
    proof {
        reveal_strlit("/");
        reveal_strlit("\\");
        assert(dirroot@ + "/"@ =~= dirroot@.push('/'));
        assert(dirroot@ + "\\"@ =~= dirroot@.push('\\'));
    }
    same(real_path, dirroot) || same(real_path, &concat(dirroot, "/")) || same(real_path, &concat(dirroot, "\\"))
}

/// Whether `real_path` is exactly `$CFG->root` itself, or that same location with a trailing
/// separator: every segment is empty, or it is a lone backslash.
fn is_root_wrangling(real_path: &str) -> (r: bool)
    ensures
        r == root_wrangling(real_path@),
{
    proof {
        reveal_strlit("\\");
        assert("\\"@ =~= seq!['\\']);
    }
    has_only_slashes(real_path) || same(real_path, "\\")
}

fn has_only_slashes(real_path: &str) -> (r: bool)
    ensures
        r == only_slashes(real_path@),
{
    let parts = split_at(real_path, '/');
    let mut i: usize = 0;
    while i < parts.len()
        invariant
            i <= parts.len(),
            texts(parts@) == split(real_path@, '/'),
            forall|k: int| 0 <= k < i ==> (#[trigger] split(real_path@, '/')[k]).len() == 0,
        decreases parts.len() - i,
    {
        assert(texts(parts@)[i as int] == parts@[i as int]@);
        if !parts[i].as_str().is_empty() {
            return false;
        }
        i += 1;
    }
    true
}

/// Whether `real_path` looks like a real path that simply has one or more runtime-only segments,
/// rather than something that was rightly refused outright: it holds a `{...}` marker, no `..`
/// segment (the path escapes the repository root) and no backslash (a Windows separator or a
/// namespace).
fn is_variable_shaped(real_path: &str) -> (r: bool)
    ensures
        r == variable_shaped(real_path@),
{
    if !has_char(real_path, '{') || has_char(real_path, '\\') {
        return false;
    }
    let parts = split_at(real_path, '/');
    let mut i: usize = 0;
    while i < parts.len()
        invariant
            i <= parts.len(),
            texts(parts@) == split(real_path@, '/'),
            forall|k: int| 0 <= k < i ==> split(real_path@, '/')[k] != ".."@,
        decreases parts.len() - i,
    {
        assert(texts(parts@)[i as int] == parts@[i as int]@);
        if same(&parts[i], "..") {
            return false;
        }
        i += 1;
    }
    true
}

/// A reference in `core\component`'s own source file or its unit test is `Component`, whatever it
/// targets.
pub proof fn component_files_come_first(
    result: PathView,
    extent: Option<ExtentView>,
    places: Places,
    source_component: Option<Seq<char>>,
    target: Option<ResolutionView>,
)
    ensures
        category_in(true, result, extent, places, source_component, target) == PathCategory::Component,
{
}

/// A reference that targets config.php is `Config` regardless of anything else but the file it is
/// in.
pub proof fn config_comes_before_all_others(
    result: PathView,
    extent: Option<ExtentView>,
    places: Places,
    source_component: Option<Seq<char>>,
    target: Option<ResolutionView>,
)
    requires
        places.config_locations.contains(result.real_path),
    ensures
        category_in(false, result, extent, places, source_component, target) == PathCategory::Config,
{
}

/// Before a file's boundary, what a reference resolves to makes no difference to its category.
pub proof fn pre_component_does_not_depend_on_the_target(
    result: PathView,
    extent: ExtentView,
    places: Places,
    source_component: Option<Seq<char>>,
    target: Option<ResolutionView>,
)
    requires
        extent.holds(result.line),
        !places.config_locations.contains(result.real_path),
        !include_path_relative(result),
    ensures
        category_in(false, result, Some(extent), places, source_component, target) == if result.kind
            == PathKind::RequireLiteral {
            PathCategory::PreComponentLiteral
        } else {
            PathCategory::PreComponent
        },
{
}

/// A reference categorised by its component has one: it resolved.
pub proof fn static_categories_have_a_target(
    in_component_file: bool,
    result: PathView,
    extent: Option<ExtentView>,
    places: Places,
    source_component: Option<Seq<char>>,
    target: Option<ResolutionView>,
)
    ensures
        ({
            let category = category_in(in_component_file, result, extent, places, source_component, target);
            &&& category == PathCategory::StaticSameComponent ==> target is Some && source_component == Some(
                target->0.component,
            )
            &&& category == PathCategory::StaticDifferentComponent ==> target is Some && source_component != Some(
                target->0.component,
            )
            &&& category == PathCategory::DynamicComponent ==> target is Some
            &&& category == PathCategory::VariableOnly ==> target is None
            &&& category == PathCategory::Uncategorised ==> target is None
        }),
{
}

} // verus!
