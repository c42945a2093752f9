//! Decides what a single eligible path reference should be rewritten to, if anything. This module
//! only decides; see [`crate::rewrite::splice`] for where a decision is turned into an edit.

use vstd::prelude::*;

use crate::collections::StringSet;
use crate::moodle::categorise::PathCategory;
use crate::moodle::resolver::ROOT_COMPONENT;
use crate::moodle::resolver::Resolution;
use crate::moodle::resolver::named;
use crate::moodle::scan::CategorisedReference;
use crate::moodle::scan::ReferenceView;
use crate::path_finder::PathKind;
use crate::path_finder::notation::above_root_only;
use crate::path_finder::notation::descend_all;
use crate::path_finder::notation::descend_all_keeps_resolved;
use crate::path_finder::notation::descend_all_skips_leading_empty;
use crate::path_finder::expression::dirname;
use crate::path_finder::expression::dirname_up;
use crate::path_finder::expression::last_slash;
use crate::path_finder::expression::quote_single;
use crate::path_finder::expression::rooted_dir;
use crate::path_finder::expression::single_quoted;
use crate::path_finder::notation::join_starts_with_first;
use crate::path_finder::notation::normalised;
use crate::path_finder::same_text;
use crate::text::chars_of;
use crate::text::concat;
use crate::text::concat3;
use crate::text::copy;
use crate::text::decimal;
use crate::text::decimal_of;
use crate::text::join;
use crate::text::join_with;
use crate::text::same;
use crate::text::split;
use crate::text::split_around_separator;
use crate::text::split_at;
use crate::text::split_undoes_join;
use crate::text::string_of;
use crate::text::texts;

verus! {

/// Whether references of a category are ever rewritten.
pub open spec fn eligible(category: PathCategory) -> bool {
    ||| category == PathCategory::Config
    ||| category == PathCategory::PreComponentLiteral
    ||| category == PathCategory::StaticSameComponent
    ||| category == PathCategory::StaticDifferentComponent
    ||| category == PathCategory::VariableOnly
}

/// Whether a category is that of a reference which resolves to a known component.
pub open spec fn is_static(category: PathCategory) -> bool {
    category == PathCategory::StaticSameComponent || category == PathCategory::StaticDifferentComponent
}

/// Whether `category` is one that is ever rewritten at all. Every other category is left untouched
/// unconditionally. For some categories, eligibility here is not a guarantee that [`decide`] will
/// produce a replacement.
pub fn is_eligible(category: PathCategory) -> (r: bool)
    ensures
        r == eligible(category),
{
    matches!(
        category,
        PathCategory::Config
            | PathCategory::PreComponentLiteral
            | PathCategory::StaticSameComponent
            | PathCategory::StaticDifferentComponent
            | PathCategory::VariableOnly
    )
}

// ---------------------------------------------------------------------------------------------
// The expressions.

/// The second argument of component_path(): the path within the component without its leading
/// slash, unless it is that slash alone.
pub open spec fn path_argument(path_in_component: Seq<char>) -> Seq<char> {
    if path_in_component.len() > 1 && path_in_component[0] == '/' {
        path_in_component.skip(1)
    } else {
        path_in_component
    }
}

/// `\core\component::component_path($component, $path)`.
pub open spec fn component_path_call(component: Seq<char>, path_in_component: Seq<char>) -> Seq<char> {
    "\\core\\component::component_path("@ + single_quoted(component) + ", "@ + single_quoted(
        path_argument(path_in_component),
    ) + ")"@
}

/// `$CFG->root . '<path>'` for a repository-root-relative path.
pub open spec fn root_concat(target_file: Seq<char>) -> Seq<char> {
    "$CFG->root . "@ + single_quoted(seq!['/'] + target_file)
}

/// The directory of a file, repository-relative with no trailing slash; empty for a file at the
/// repository root.
pub open spec fn parent_dir(file: Seq<char>) -> Seq<char> {
    match last_slash(file) {
        Some(at) => file.take(at),
        None => Seq::<char>::empty(),
    }
}

/// How many segments two paths have in common at their start.
pub open spec fn common(a: Seq<Seq<char>>, b: Seq<Seq<char>>) -> nat
    decreases a.len(),
{
    if a.len() > 0 && b.len() > 0 && a[0] == b[0] {
        common(a.drop_first(), b.drop_first()) + 1
    } else {
        0
    }
}

/// The segments of a path that name something.
pub open spec fn path_segments(path: Seq<char>) -> Seq<Seq<char>> {
    named(split(path, '/'))
}

/// How many levels lie between a file's directory and the deepest ancestor it shares with a target.
pub open spec fn levels_up(file: Seq<char>, target: Seq<char>) -> nat {
    let source = path_segments(parent_dir(file));
    (source.len() - common(source, path_segments(target))) as nat
}

/// The segments of a target below the deepest ancestor it shares with a file's directory.
pub open spec fn segments_down(file: Seq<char>, target: Seq<char>) -> Seq<Seq<char>> {
    let source = path_segments(parent_dir(file));
    path_segments(target).skip(common(source, path_segments(target)) as int)
}

/// What leads from the shared ancestor down to the target: nothing where that is the target itself
/// and it has no trailing separator.
pub open spec fn way_down(file: Seq<char>, target: Seq<char>) -> Option<Seq<char>> {
    let down = segments_down(file, target);
    let separator = if target.len() > 0 && target.last() == '/' {
        seq!['/']
    } else {
        Seq::<char>::empty()
    };
    if down.len() > 0 {
        Some(seq!['/'] + join(down, seq!['/']) + separator)
    } else if separator.len() > 0 {
        Some(separator)
    } else {
        None
    }
}

/// The expression for a directory so many levels above that of the file.
pub open spec fn climb(levels: nat) -> Seq<char> {
    if levels == 0 {
        "__DIR__"@
    } else if levels == 1 {
        "dirname(__DIR__)"@
    } else {
        "dirname(__DIR__, "@ + decimal(levels) + ")"@
    }
}

/// The `__DIR__`-relative expression for a target, in a file.
pub open spec fn dir_relative(file: Seq<char>, target: Seq<char>) -> Seq<char> {
    match way_down(file, target) {
        Some(suffix) => climb(levels_up(file, target)) + " . "@ + single_quoted(suffix),
        None => climb(levels_up(file, target)),
    }
}

/// `\core\component::from_mono_path(<expression>)`.
pub open spec fn from_mono_path_call(expression: Seq<char>) -> Seq<char> {
    "\\core\\component::from_mono_path("@ + expression + ")"@
}

// ---------------------------------------------------------------------------------------------
// The decision.

/// What a reference with a known target is rewritten to.
///
/// An entry-point target is placed at its original path under the repository root, so a reference
/// to one always goes through `$CFG->root`. An entry point itself never gets a `__DIR__`-relative
/// path.
pub open spec fn static_decision(reference: ReferenceView, entry_points: Set<Seq<char>>) -> Seq<char> {
    let target = reference.target->0;
    let target_file = reference.result.real_path;
    let is_root = target.component == ROOT_COMPONENT@;
    let from_entry_point = entry_points.contains(reference.file);
    let to_entry_point = entry_points.contains(target_file);
    let same_component = reference.category == PathCategory::StaticSameComponent;
    if !is_root && to_entry_point || is_root && (!same_component || from_entry_point) {
        root_concat(target_file)
    } else if same_component && !from_entry_point {
        dir_relative(reference.file, target_file)
    } else {
        component_path_call(target.component, target.path_in_component)
    }
}

/// What an eligible reference is rewritten to, if anything. A traced variable is never rewritten:
/// the source text is the variable, not the path. A reference to config.php, or a bare literal in
/// pre-component code, is rewritten unless it is `__DIR__`-relative already; one with runtime-only
/// parts is rewritten if it is rooted at `$CFG->dirroot`.
pub open spec fn decision(reference: ReferenceView, entry_points: Set<Seq<char>>) -> Option<Seq<char>> {
    if reference.result.kind == PathKind::TracedVariable {
        None
    } else if reference.category == PathCategory::VariableOnly {
        if reference.result.mono_path_expr.len() == 0 {
            None
        } else {
            Some(from_mono_path_call(reference.result.mono_path_expr))
        }
    } else if is_static(reference.category) {
        Some(static_decision(reference, entry_points))
    } else if reference.result.kind == PathKind::Dir {
        None
    } else {
        Some(dir_relative(reference.file, reference.result.real_path))
    }
}

/// Whether a reference can be decided on: its category is eligible, and it has a target where its
/// category says so.
pub open spec fn decidable(reference: ReferenceView) -> bool {
    eligible(reference.category) && (is_static(reference.category) ==> reference.target is Some)
}

/// Whether a reference still relies on `$CFG->dirroot` or `$CFG->libdir` in some form that is yet
/// to be eliminated. Nothing is outstanding in `core\component`'s own source, for what is found via
/// the include path, and for pre-component code other than bare literals; for the eligible
/// categories, whatever the decision would change is; and all that there is no rule for is.
pub open spec fn outstanding(reference: ReferenceView, entry_points: Set<Seq<char>>) -> bool {
    let differs = decision(reference, entry_points) matches Some(replacement) && replacement != reference.result.code;
    match reference.category {
        PathCategory::Component | PathCategory::IncludePathRelative | PathCategory::PreComponent => false,
        PathCategory::Config
        | PathCategory::PreComponentLiteral
        | PathCategory::StaticSameComponent
        | PathCategory::StaticDifferentComponent => differs,
        PathCategory::VariableOnly => reference.result.mono_path_expr.len() == 0 || differs,
        _ => true,
    }
}

/// Decides what `reference` should be rewritten to.
///
/// `entry_point_files` is every file the entrypoint scan classified. It is checked on both sides of
/// a reference with a known target: whether the *source* file is an entry point affects how an
/// ordinary target gets addressed; whether the *target* file is one overrides that entirely. It
/// makes no difference to any other reference.
pub fn decide(reference: &CategorisedReference, entry_point_files: &StringSet) -> (r: Option<String>)
    requires
        decidable(reference@),
    ensures
        same_text(r, decision(reference@, entry_point_files@)),
{
    if let PathKind::TracedVariable = reference.result.kind {
        return None;
    }
    match reference.category {
        PathCategory::VariableOnly => if reference.result.mono_path_expr.as_str().is_empty() {
            None
        } else {
            Some(concat3("\\core\\component::from_mono_path(", &reference.result.mono_path_expr, ")"))
        },
        PathCategory::StaticSameComponent | PathCategory::StaticDifferentComponent => {
            match &reference.target {
                Some(target) => Some(decide_static(reference, target, entry_point_files)),
                None => None,
            }
        },
        _ => if let PathKind::Dir = reference.result.kind {
            None
        } else {
            Some(dir_relative_expression(&reference.file, &reference.result.real_path))
        },
    }
}

fn decide_static(reference: &CategorisedReference, target: &Resolution, entry_point_files: &StringSet) -> (r: String)
    requires
        reference.target == Some(*target),
    ensures
        r@ == static_decision(reference@, entry_point_files@),
{
    let target_file = &reference.result.real_path;
    let is_root = same(&target.component, ROOT_COMPONENT);
    let from_entry_point = entry_point_files.contains(&reference.file);
    let same_component = matches!(reference.category, PathCategory::StaticSameComponent);
    if !is_root && entry_point_files.contains(target_file) || is_root && (!same_component || from_entry_point) {
        root_expression(target_file)
    } else if same_component && !from_entry_point {
        dir_relative_expression(&reference.file, target_file)
    } else {
        component_path_expression(target)
    }
}

/// Whether `reference` still relies on `$CFG->dirroot`/`$CFG->libdir` in some form that is yet to be
/// eliminated, which is a broader question than whether there is a rule to rewrite it.
pub fn still_needs_rewrite(reference: &CategorisedReference, entry_point_files: &StringSet) -> (r: bool)
    requires
        is_static(reference.category) ==> reference.target is Some,
    ensures
        r == outstanding(reference@, entry_point_files@),
{
    match reference.category {
        PathCategory::Component | PathCategory::IncludePathRelative | PathCategory::PreComponent => false,
        PathCategory::Config
        | PathCategory::PreComponentLiteral
        | PathCategory::StaticSameComponent
        | PathCategory::StaticDifferentComponent
        | PathCategory::VariableOnly => {
            let empty = reference.result.mono_path_expr.as_str().is_empty();
            if matches!(reference.category, PathCategory::VariableOnly) && empty {
                return true;
            }
            match decide(reference, entry_point_files) {
                Some(replacement) => !same(&replacement, &reference.result.code),
                None => false,
            }
        },
        _ => true,
    }
}

/// `\core\component::component_path($component, $path)` for `target`. The path within the component
/// is passed as it is if it is empty (the component's own directory) or a lone slash (the same, with
/// an explicit trailing separator); otherwise its leading slash is trimmed, never a trailing one.
fn component_path_expression(target: &Resolution) -> (r: String)
    ensures
        r@ == component_path_call(target.component@, target.path_in_component@),
{
    let path = chars_of(&target.path_in_component);
    let argument = if path.len() > 1 && path[0] == '/' {
        string_of(&path, 1, path.len())
    } else {
        copy(&target.path_in_component)
    };
    let call = concat3("\\core\\component::component_path(", &quote_single(&target.component), ", ");
    concat3(&call, &quote_single(&argument), ")")
}

/// `$CFG->root . '<path>'` for `target_file`, a plain repository-root-relative path (no leading
/// slash), used verbatim with a leading slash spliced on.
fn root_expression(target_file: &str) -> (r: String)
    ensures
        r@ == root_concat(target_file@),
{
    proof {
        reveal_strlit("/");
        assert("/"@ =~= seq!['/']);
    }
    concat("$CFG->root . ", &quote_single(&concat("/", target_file)))
}

/// The `__DIR__`-relative replacement expression for a reference in `source_file` targeting
/// `target_path`.
fn dir_relative_expression(source_file: &str, target_path: &str) -> (r: String)
    ensures
        r@ == dir_relative(source_file@, target_path@),
{
    let (levels, suffix) = climb_and_descend(source_file, target_path);
    let base = match levels {
        0 => copy("__DIR__"),
        1 => copy("dirname(__DIR__)"),
        _ => concat3("dirname(__DIR__, ", &decimal_of(levels as u64), ")"),
    };
    match suffix {
        Some(literal) => concat3(&base, " . ", &quote_single(&literal)),
        None => base,
    }
}

fn parent_dir_of(file: &str) -> (r: String)
    ensures
        r@ == parent_dir(file@),
{
    let chars = chars_of(file);
    let mut n: usize = chars.len();
    assert(file@.take(n as int) =~= file@);
    while n > 0 && chars[n - 1] != '/'
        invariant
            n <= chars.len(),
            chars@ == file@,
            last_slash(file@) == last_slash(file@.take(n as int)),
        decreases n,
    {
        assert(file@.take(n as int).drop_last() =~= file@.take(n - 1));
        n -= 1;
    }
    if n == 0 {
        String::new()
    } else {
        string_of(&chars, 0, n - 1)
    }
}

fn segments_of(path: &str) -> (r: Vec<String>)
    ensures
        texts(r@) == path_segments(path@),
{
    let parts = split_at(path, '/');
    let ghost all = texts(parts@);
    let mut r: Vec<String> = Vec::new();
    let mut i: usize = 0;
    assert(texts(r@) =~= named(all.take(0)));
    while i < parts.len()
        invariant
            i <= parts.len(),
            all == texts(parts@),
            texts(r@) == named(all.take(i as int)),
        decreases parts.len() - i,
    {
        assert(all.take(i + 1).drop_last() =~= all.take(i as int));
        assert(all.take(i + 1).last() == parts@[i as int]@);
        if !parts[i].as_str().is_empty() {
            let ghost before = texts(r@);
            r.push(copy(&parts[i]));
            assert(texts(r@) =~= before.push(parts@[i as int]@));
        }
        i += 1;
    }
    assert(all.take(i as int) =~= all);
    r
}

/// How far the directory of `source_file` has to climb to reach the deepest ancestor directory it
/// shares with `target_path`, and the literal suffix (leading `/`, with any trailing separator on
/// `target_path` preserved) needed to descend from there back down to the target. The suffix is
/// `None` when the climb lands exactly on the target, with nothing left to append.
fn climb_and_descend(source_file: &str, target_path: &str) -> (r: (usize, Option<String>))
    ensures
        r.0 == levels_up(source_file@, target_path@),
        same_text(r.1, way_down(source_file@, target_path@)),
{
    let source = segments_of(&parent_dir_of(source_file));
    let target = segments_of(target_path);
    let ghost a = texts(source@);
    let ghost b = texts(target@);
    let mut shared: usize = 0;
    assert(a.skip(0) =~= a && b.skip(0) =~= b);
    while shared < source.len() && shared < target.len() && same(&source[shared], &target[shared])
        invariant
            shared <= source.len(),
            shared <= target.len(),
            a == texts(source@),
            b == texts(target@),
            common(a, b) == shared + common(a.skip(shared as int), b.skip(shared as int)),
        decreases source.len() - shared,
    {
        assert(a.skip(shared as int).drop_first() =~= a.skip(shared + 1));
        assert(b.skip(shared as int).drop_first() =~= b.skip(shared + 1));
        shared += 1;
    }
    assert(common(a, b) == shared);
    let mut down: Vec<String> = Vec::new();
    let mut i: usize = shared;
    while i < target.len()
        invariant
            shared <= i <= target.len(),
            b == texts(target@),
            texts(down@) == b.subrange(shared as int, i as int),
        decreases target.len() - i,
    {
        let ghost before = texts(down@);
        down.push(copy(&target[i]));
        assert(texts(down@) =~= before.push(b[i as int]));
        assert(b.subrange(shared as int, i + 1) =~= b.subrange(shared as int, i as int).push(b[i as int]));
        i += 1;
    }
    assert(texts(down@) =~= b.skip(shared as int));
    let chars = chars_of(target_path);
    let trailing = chars.len() > 0 && chars[chars.len() - 1] == '/';
    proof {
        reveal_strlit("/");
        reveal_strlit("");
        assert("/"@ =~= seq!['/']);
        assert(""@ =~= Seq::<char>::empty());
    }
    let suffix = if down.len() > 0 {
        Some(concat3("/", &join_with(&down, "/"), if trailing {
            "/"
        } else {
            ""
        }))
    } else if trailing {
        Some(copy("/"))
    } else {
        None
    };
    (source.len() - shared, suffix)
}

// ---------------------------------------------------------------------------------------------
// Laws.

/// What two paths have in common at their start is the same in both, and as long as it can be.
pub proof fn common_is_shared(a: Seq<Seq<char>>, b: Seq<Seq<char>>)
    ensures
        common(a, b) <= a.len(),
        common(a, b) <= b.len(),
        a.take(common(a, b) as int) == b.take(common(a, b) as int),
        common(a, b) < a.len() && common(a, b) < b.len() ==> a[common(a, b) as int] != b[common(a, b) as int],
    decreases a.len(),
{
    if a.len() > 0 && b.len() > 0 && a[0] == b[0] {
        common_is_shared(a.drop_first(), b.drop_first());
        let n = common(a, b) as int;
        assert forall|i: int| 0 <= i < n implies a.take(n)[i] == b.take(n)[i] by {
            if i > 0 {
                assert(a.drop_first().take(n - 1)[i - 1] == b.drop_first().take(n - 1)[i - 1]);
            }
        }
        assert(a.take(n) =~= b.take(n));
    } else {
        assert(a.take(0) =~= b.take(0));
    }
}

/// Climbing from a file's directory and then descending lands on the target.
pub proof fn climb_lands_on_the_target(file: Seq<char>, target: Seq<char>)
    ensures
        levels_up(file, target) <= path_segments(parent_dir(file)).len(),
        path_segments(parent_dir(file)).take(
            path_segments(parent_dir(file)).len() - levels_up(file, target),
        ) + segments_down(file, target) == path_segments(target),
{
    let source = path_segments(parent_dir(file));
    let goal = path_segments(target);
    common_is_shared(source, goal);
    let n = common(source, goal) as int;
    assert(source.take(n) + goal.skip(n) =~= goal);
}

/// No shorter climb would do: a directory fewer levels up does not contain the target.
pub proof fn climb_is_the_shortest(file: Seq<char>, target: Seq<char>, levels: nat)
    requires
        levels < levels_up(file, target),
    ensures
        ({
            let source = path_segments(parent_dir(file));
            !source.take(source.len() - levels).is_prefix_of(path_segments(target))
        }),
{
    let source = path_segments(parent_dir(file));
    let goal = path_segments(target);
    common_is_shared(source, goal);
    let n = common(source, goal) as int;
    let ancestor = source.take(source.len() - levels);
    if ancestor.is_prefix_of(goal) {
        assert(goal.subrange(0, ancestor.len() as int)[n] == goal[n]);
        assert(ancestor[n] == source[n]);
    }
}

/// In an entry point, a reference with a known target is never rewritten to a `__DIR__`-relative
/// path: it goes through `$CFG->root` or component_path().
pub proof fn entry_points_get_no_dir_relative_path(reference: ReferenceView, entry_points: Set<Seq<char>>)
    requires
        decidable(reference),
        is_static(reference.category),
        entry_points.contains(reference.file),
    ensures
        ({
            let target = reference.target->0;
            decision(reference, entry_points) matches Some(replacement) ==> replacement == root_concat(
                reference.result.real_path,
            ) || replacement == component_path_call(target.component, target.path_in_component)
        }),
{
}

/// A reference to an entry point of a real component always goes through `$CFG->root`, whatever the
/// component and the file it is in.
pub proof fn entry_point_targets_go_through_root(reference: ReferenceView, entry_points: Set<Seq<char>>)
    requires
        decidable(reference),
        is_static(reference.category),
        reference.result.kind != PathKind::TracedVariable,
        reference.target->0.component != ROOT_COMPONENT@,
        entry_points.contains(reference.result.real_path),
    ensures
        decision(reference, entry_points) == Some(root_concat(reference.result.real_path)),
{
}

/// Entry points make no difference to references to config.php, to bare literals in pre-component
/// code and to references with runtime-only parts.
pub proof fn entry_points_only_matter_to_known_targets(
    reference: ReferenceView,
    some: Set<Seq<char>>,
    others: Set<Seq<char>>,
)
    requires
        decidable(reference),
        !is_static(reference.category),
    ensures
        decision(reference, some) == decision(reference, others),
{
}

/// Once a reference reads as was decided, nothing is outstanding.
pub proof fn rewritten_references_are_done(reference: ReferenceView, entry_points: Set<Seq<char>>)
    requires
        decidable(reference),
        decision(reference, entry_points) == Some(reference.result.code),
    ensures
        !outstanding(reference, entry_points),
{
}

/// A traced variable is never rewritten.
pub proof fn traced_variables_are_never_rewritten(reference: ReferenceView, entry_points: Set<Seq<char>>)
    requires
        reference.result.kind == PathKind::TracedVariable,
    ensures
        decision(reference, entry_points) is None,
{
}

/// Whether `segments` are the names of directories and files, none of them '.' or '..'.
pub open spec fn are_names(segments: Seq<Seq<char>>) -> bool {
    forall|i: int|
        0 <= i < segments.len() ==> (#[trigger] segments[i]).len() > 0 && !segments[i].contains('/') && segments[i]
            != "."@ && segments[i] != ".."@
}

pub proof fn names_of_part(segments: Seq<Seq<char>>, n: int)
    requires
        are_names(segments),
        0 <= n <= segments.len(),
    ensures
        are_names(segments.take(n)),
        are_names(segments.skip(n)),
{
    assert forall|i: int| 0 <= i < n implies (#[trigger] segments.take(n)[i]).len() > 0 && !segments.take(
        n,
    )[i].contains('/') && segments.take(n)[i] != "."@ && segments.take(n)[i] != ".."@ by {
        assert(segments[i].len() > 0);
    }
    assert forall|i: int| 0 <= i < segments.skip(n).len() implies (#[trigger] segments.skip(n)[i]).len() > 0
        && !segments.skip(n)[i].contains('/') && segments.skip(n)[i] != "."@ && segments.skip(n)[i] != ".."@ by {
        assert(segments[n + i].len() > 0);
    }
}

/// The segments of a joined path are those that were joined.
pub proof fn segments_of_join(segments: Seq<Seq<char>>)
    requires
        are_names(segments),
    ensures
        path_segments(join(segments, seq!['/'])) == segments,
        segments.len() > 0 ==> split(join(segments, seq!['/']), '/') == segments,
{
    if segments.len() > 0 {
        split_undoes_join(segments, '/');
    } else {
        let none = Seq::<char>::empty();
        assert(join(segments, seq!['/']) =~= none);
        assert(split(none, '/') =~= seq![none]);
        assert(seq![none].drop_last() =~= Seq::<Seq<char>>::empty());
        assert(named(seq![none].drop_last()) =~= Seq::<Seq<char>>::empty());
        assert(named(seq![none]) =~= segments);
    }
    named_keeps_names(segments);
}

proof fn named_keeps_names(segments: Seq<Seq<char>>)
    requires
        are_names(segments),
    ensures
        named(segments) == segments,
    decreases segments.len(),
{
    if segments.len() > 0 {
        names_of_part(segments, segments.len() - 1);
        assert(segments.take(segments.len() - 1) =~= segments.drop_last());
        named_keeps_names(segments.drop_last());
        assert(segments[segments.len() - 1].len() > 0);
        assert(segments.drop_last().push(segments.last()) =~= segments);
    }
}

/// The last slash of a path is the one before its last name.
proof fn last_slash_before(front: Seq<char>, name: Seq<char>)
    requires
        !name.contains('/'),
    ensures
        last_slash(front + seq!['/'] + name) == Some(front.len() as int),
    decreases name.len(),
{
    let whole = front + seq!['/'] + name;
    if name.len() > 0 {
        assert(name[name.len() - 1] != '/');
        assert forall|i: int| 0 <= i < name.drop_last().len() implies name.drop_last()[i] != '/' by {
            assert(name[i] != '/');
        }
        last_slash_before(front, name.drop_last());
        assert(whole.drop_last() =~= front + seq!['/'] + name.drop_last());
    }
}

proof fn no_last_slash(name: Seq<char>)
    requires
        !name.contains('/'),
    ensures
        last_slash(name) is None,
    decreases name.len(),
{
    if name.len() > 0 {
        assert(name[name.len() - 1] != '/');
        assert forall|i: int| 0 <= i < name.drop_last().len() implies name.drop_last()[i] != '/' by {
            assert(name[i] != '/');
        }
        no_last_slash(name.drop_last());
    }
}

/// dirname() of a path of names is the path without the last.
pub proof fn dirname_of_join(segments: Seq<Seq<char>>)
    requires
        are_names(segments),
        segments.len() > 0,
    ensures
        dirname(join(segments, seq!['/'])) == if segments.len() == 1 {
            "."@
        } else {
            join(segments.drop_last(), seq!['/'])
        },
        parent_dir(join(segments, seq!['/'])) == join(segments.drop_last(), seq!['/']),
{
    assert(!segments[segments.len() - 1].contains('/'));
    if segments.len() == 1 {
        no_last_slash(segments[0]);
        assert(join(segments.drop_last(), seq!['/']) =~= Seq::<char>::empty());
    } else {
        let front = join(segments.drop_last(), seq!['/']);
        last_slash_before(front, segments.last());
        assert(segments.drop_last()[0].len() > 0) by {
            assert(segments[0].len() > 0);
        }
        join_starts_with_first(segments.drop_last());
        assert(front.len() > 0);
        assert((front + seq!['/'] + segments.last()).take(front.len() as int) =~= front);
    }
}

pub proof fn dirname_up_of_join(segments: Seq<Seq<char>>, levels: nat)
    requires
        are_names(segments),
        segments.len() > 0,
        levels <= segments.len(),
    ensures
        dirname_up(join(segments, seq!['/']), levels) == if levels == segments.len() {
            "."@
        } else {
            join(segments.take(segments.len() - levels), seq!['/'])
        },
    decreases levels,
{
    if levels == 0 {
        assert(segments.take(segments.len() as int) =~= segments);
    } else {
        dirname_of_join(segments);
        names_of_part(segments, segments.len() - 1);
        assert(segments.take(segments.len() - 1) =~= segments.drop_last());
        if segments.len() == 1 {
            assert(levels == 1);
            assert(dirname_up("."@, 0) == "."@);
        } else {
            dirname_up_of_join(segments.drop_last(), (levels - 1) as nat);
            if levels < segments.len() {
                assert(segments.drop_last().take(segments.len() - levels) =~= segments.take(
                    segments.len() - levels,
                ));
            }
        }
    }
}

/// Joining two lists one after the other.
proof fn join_of_both(a: Seq<Seq<char>>, b: Seq<Seq<char>>)
    requires
        a.len() > 0,
        b.len() > 0,
    ensures
        join(a + b, seq!['/']) == join(a, seq!['/']) + seq!['/'] + join(b, seq!['/']),
    decreases b.len(),
{
    assert((a + b).drop_last() =~= a + b.drop_last());
    if b.len() > 1 {
        join_of_both(a, b.drop_last());
        assert(join(a + b, seq!['/']) =~= join(a, seq!['/']) + seq!['/'] + join(b, seq!['/']));
    } else {
        assert(a + b.drop_last() =~= a);
        assert(join(a + b, seq!['/']) =~= join(a, seq!['/']) + seq!['/'] + join(b, seq!['/']));
    }
}

/// Normalising changes nothing about a path of names.
proof fn names_are_normalised(segments: Seq<Seq<char>>, trailing: bool)
    requires
        are_names(segments),
        segments.len() > 0,
    ensures
        ({
            let path = if trailing {
                seq!['/'] + join(segments, seq!['/']) + seq!['/']
            } else {
                seq!['/'] + join(segments, seq!['/'])
            };
            normalised(path) == path
        }),
{
    let none = Seq::<char>::empty();
    let joined = join(segments, seq!['/']);
    segments_of_join(segments);
    assert forall|i: int| 0 <= i < segments.len() implies #[trigger] segments[i] != "."@ by {
        assert(segments[i].len() > 0);
    }
    assert forall|i: int, j: int| 0 <= i < j < segments.len() && segments[j] == ".."@ implies #[trigger] segments[i]
        == #[trigger] segments[j] by {
        assert(segments[j].len() > 0);
    }
    assert(segments[0].len() > 0);
    assert(above_root_only(segments));
    descend_all_keeps_resolved(segments);
    assert(split(none, '/') =~= seq![none]);
    if trailing {
        let path = seq!['/'] + joined + seq!['/'];
        let longer = segments.push(none);
        split_around_separator(none, joined + seq!['/'], '/');
        split_around_separator(joined, none, '/');
        assert(joined + seq!['/'] + none =~= joined + seq!['/']);
        assert(none + seq!['/'] + (joined + seq!['/']) =~= path);
        assert(segments + seq![none] =~= longer);
        descend_all_skips_leading_empty(longer);
        reveal_strlit(".");
        reveal_strlit("..");
        assert("."@.len() == 1 && ".."@.len() == 2);
        assert(longer.drop_last() =~= segments);
        assert(longer.last() == none);
        assert(descend_all(longer) == longer);
        assert(join(longer, seq!['/']) =~= joined + seq!['/']);
        assert(normalised(path) =~= path);
    } else {
        let path = seq!['/'] + joined;
        split_around_separator(none, joined, '/');
        assert(none + seq!['/'] + joined =~= path);
        descend_all_skips_leading_empty(segments);
    }
}

/// A `__DIR__`-relative replacement stands for the path that it replaces: climbing from the file's
/// directory as the replacement says, and appending what it says, gives the target, for any file
/// and target that are made of names.
pub proof fn dir_relative_stands_for_the_target(
    file: Seq<Seq<char>>,
    target: Seq<Seq<char>>,
    trailing: bool,
)
    requires
        are_names(file),
        file.len() > 0,
        are_names(target),
        target.len() > 0,
    ensures
        ({
            let file_path = join(file, seq!['/']);
            let target_path = if trailing {
                join(target, seq!['/']) + seq!['/']
            } else {
                join(target, seq!['/'])
            };
            let dir = dirname_up(dirname(file_path), levels_up(file_path, target_path));
            let suffix = match way_down(file_path, target_path) {
                Some(suffix) => suffix,
                None => Seq::<char>::empty(),
            };
            &&& rooted_dir(dir) + suffix == seq!['/'] + target_path
            &&& normalised(rooted_dir(dir) + suffix) == seq!['/'] + target_path
        }),
{
    let slash = seq!['/'];
    let none = Seq::<char>::empty();
    let file_path = join(file, slash);
    let joined = join(target, slash);
    let target_path = if trailing {
        joined + slash
    } else {
        joined
    };
    segments_of_join(target);
    assert(path_segments(target_path) == target) by {
        if trailing {
            split_around_separator(joined, none, '/');
            assert(joined + slash + none =~= target_path);
            assert(split(none, '/') =~= seq![none]);
            let longer = target + seq![none];
            assert(longer.drop_last() =~= target);
            named_keeps_names(target);
        }
    }
    dirname_of_join(file);
    names_of_part(file, file.len() - 1);
    let source = file.drop_last();
    assert(file.take(file.len() - 1) =~= source);
    segments_of_join(source);
    common_is_shared(source, target);
    let n = common(source, target) as int;
    let levels = levels_up(file_path, target_path);
    assert(levels == source.len() - n);
    dirname_up_of_join(file, (levels + 1) as nat);
    assert(dirname_up(dirname(file_path), levels) == dirname_up(file_path, (levels + 1) as nat));
    let ancestor = source.take(n);
    assert(file.take(file.len() - levels - 1) =~= ancestor);
    let dir = dirname_up(dirname(file_path), levels);
    let down = target.skip(n);
    assert(ancestor + down =~= target);
    names_of_part(source, n);
    names_of_part(target, n);
    if n == 0 {
        assert(rooted_dir(dir) =~= none);
        assert(down =~= target);
    } else {
        assert(dir == join(ancestor, slash));
        assert(dir != "."@) by {
            join_starts_with_first(ancestor);
            assert(ancestor[0].len() > 0 && ancestor[0] != "."@);
            reveal_strlit(".");
            assert("."@ =~= seq!['.']);
            if dir == "."@ {
                assert(dir[0] == ancestor[0][0]);
                assert(ancestor[0] =~= "."@);
            }
        }
    }
    if down.len() > 0 && n > 0 {
        join_of_both(ancestor, down);
    }
    assert(target_path.len() > 0 && (target_path.last() == '/') == trailing) by {
        join_starts_with_first(target);
        assert(target[0].len() > 0);
        join_ends_with_last(target);
        assert(!target[target.len() - 1].contains('/'));
        assert(target.last().last() != '/') by {
            assert(target.last()[target.last().len() - 1] == target.last().last());
        }
    }
    let suffix = match way_down(file_path, target_path) {
        Some(suffix) => suffix,
        None => none,
    };
    assert(rooted_dir(dir) + suffix =~= slash + target_path);
    names_are_normalised(target, trailing);
    assert(slash + joined + slash =~= slash + (joined + slash));
}

/// A joined text ends with its last piece.
proof fn join_ends_with_last(parts: Seq<Seq<char>>)
    requires
        parts.len() > 0,
        parts.last().len() > 0,
    ensures
        join(parts, seq!['/']).len() > 0,
        join(parts, seq!['/']).last() == parts.last().last(),
{
}

} // verus!
