//! What rewritten references look like, as text.

use vstd::prelude::*;

use crate::moodle::categorise::PathCategory;
use crate::moodle::entrypoints::classified;
use crate::moodle::entrypoints::every_bootstrap_file_is_classified;
use crate::moodle::entrypoints::extent_of;
use crate::moodle::entrypoints::in_dirroot;
use crate::moodle::entrypoints::is_file;
use crate::moodle::resolver::named;
use crate::moodle::scan::ReferenceView;
use crate::moodle::scan::Scan;
use crate::path_finder::PathKind;
use crate::path_finder::expression::escaped;
use crate::path_finder::expression::single_quoted;
use crate::report::document::single_line;
use crate::report::paths::reference_fields;
use crate::rewrite::apply::patch_error;
use crate::rewrite::decide::are_names;
use crate::rewrite::decide::climb;
use crate::rewrite::decide::common;
use crate::rewrite::decide::component_path_call;
use crate::rewrite::decide::decision;
use crate::rewrite::decide::dir_relative;
use crate::rewrite::decide::dirname_of_join;
use crate::rewrite::decide::levels_up;
use crate::rewrite::decide::names_of_part;
use crate::rewrite::decide::outstanding;
use crate::rewrite::decide::parent_dir;
use crate::rewrite::decide::path_segments;
use crate::rewrite::decide::segments_down;
use crate::rewrite::decide::segments_of_join;
use crate::rewrite::decide::way_down;
use crate::rewrite::output::after_row;
use crate::rewrite::output::audit_row;
use crate::rewrite::patches::EntryView;
use crate::rewrite::patches::PatchView;
use crate::rewrite::patches::is_patch;
use crate::rewrite::patches::patches_in;
use crate::rewrite::patches::put_in_order;
use crate::rewrite::process::RewriteStep;
use crate::rewrite::process::entry_point_names;
use crate::rewrite::process::file_names;
use crate::rewrite::process::rewrite_steps;
use crate::rewrite::splice::EditView;
use crate::rewrite::splice::back_to_front;
use crate::rewrite::splice::edits_of;
use crate::rewrite::splice::is_edit_of;
use crate::rewrite::splice::put_in_place;
use crate::rewrite::splice::replacement;
use crate::rewrite::splice::rewritten_count;
use crate::rewrite::splice::rewritten_text;
use crate::text::decimal;
use crate::text::join;
use crate::text::precedes;
use crate::text::split;
use crate::text::split_around_separator;
use crate::text::split_without_separator;

verus! {

/// Whether a text needs no escapes between single quotes.
pub open spec fn is_plain(text: Seq<char>) -> bool {
    forall|i: int| 0 <= i < text.len() ==> #[trigger] text[i] != '\'' && text[i] != '\\'
}

/// A text that needs no escapes stands between single quotes as it is.
pub proof fn plain_text_is_quoted_as_it_is(text: Seq<char>)
    requires
        is_plain(text),
    ensures
        single_quoted(text) == seq!['\''] + text + seq!['\''],
{
    escaped_plain(text);
}

proof fn escaped_plain(text: Seq<char>)
    requires
        is_plain(text),
    ensures
        escaped(text) == text,
    decreases text.len(),
{
    if text.len() > 0 {
        assert(text[text.len() - 1] != '\'');
        assert(is_plain(text.drop_last())) by {
            assert forall|i: int| 0 <= i < text.drop_last().len() implies #[trigger] text.drop_last()[i] != '\''
                && text.drop_last()[i] != '\\' by {
                assert(text[i] != '\'');
            }
        }
        escaped_plain(text.drop_last());
        assert(text.drop_last().push(text.last()) =~= text);
    }
}

/// What PHP reads between single quotes: a backslash before a quote or a backslash is left out.
pub open spec fn read_quoted(text: Seq<char>) -> Seq<char>
    decreases text.len(),
{
    if text.len() == 0 {
        text
    } else if text.len() > 1 && text[0] == '\\' && (text[1] == '\'' || text[1] == '\\') {
        seq![text[1]] + read_quoted(text.skip(2))
    } else {
        seq![text[0]] + read_quoted(text.skip(1))
    }
}

/// PHP reads the text back that was quoted, whatever it is.
pub proof fn quoted_text_reads_back(text: Seq<char>)
    ensures
        single_quoted(text).len() >= 2,
        single_quoted(text)[0] == '\'',
        single_quoted(text).last() == '\'',
        read_quoted(single_quoted(text).subrange(1, single_quoted(text).len() - 1)) == text,
{
    let inner = single_quoted(text).subrange(1, single_quoted(text).len() - 1);
    assert(inner =~= escaped(text));
    escaped_reads_back(text, Seq::empty());
    assert(escaped(text) + Seq::<char>::empty() =~= escaped(text));
    assert(text + read_quoted(Seq::<char>::empty()) =~= text);
}

proof fn escaped_reads_back(text: Seq<char>, more: Seq<char>)
    ensures
        read_quoted(escaped(text) + more) == text + read_quoted(more),
    decreases text.len(),
{
    if text.len() == 0 {
        assert(escaped(text) + more =~= more);
        assert(text + read_quoted(more) =~= read_quoted(more));
    } else {
        let front = text.drop_last();
        let c = text.last();
        if c == '\'' || c == '\\' {
            let tail = seq!['\\', c] + more;
            escaped_reads_back(front, tail);
            assert(escaped(text) + more =~= escaped(front) + tail);
            assert(tail.skip(2) =~= more);
            assert(front + (seq![c] + read_quoted(more)) =~= text + read_quoted(more));
        } else {
            let tail = seq![c] + more;
            escaped_reads_back(front, tail);
            assert(escaped(text) + more =~= escaped(front) + tail);
            assert(tail.skip(1) =~= more);
            assert(front + (seq![c] + read_quoted(more)) =~= text + read_quoted(more));
        }
    }
}

/// Whether a reference has a known target, and is not the value of a traced variable.
pub open spec fn has_known_target(reference: ReferenceView) -> bool {
    &&& reference.category == PathCategory::StaticSameComponent || reference.category
        == PathCategory::StaticDifferentComponent
    &&& reference.target is Some
    &&& reference.result.kind != PathKind::TracedVariable
}

/// Whether the target of a reference is placed at its own path below the repository root: it is an entry
/// point, or no component owns it.
pub open spec fn lies_at_its_path(reference: ReferenceView, entry_points: Set<Seq<char>>) -> bool {
    entry_points.contains(reference.result.real_path) || reference.target->0.component == "root"@
}

proof fn root_is_root()
    ensures
        crate::moodle::resolver::ROOT_COMPONENT@ == "root"@,
{
}

/// A target that lies at its path below the repository root is addressed there wherever the reference is
/// in another component or in an entry point, and where an entry point of a real component is the target;
/// as the text `$CFG->root . '/<path>'`.
pub proof fn targets_at_their_path_go_through_root(reference: ReferenceView, entry_points: Set<Seq<char>>)
    requires
        has_known_target(reference),
        lies_at_its_path(reference, entry_points),
        reference.target->0.component == "root"@ ==> reference.category == PathCategory::StaticDifferentComponent
            || entry_points.contains(reference.file),
    ensures
        decision(reference, entry_points) == Some(
            "$CFG->root . "@ + single_quoted("/"@ + reference.result.real_path),
        ),
{
    root_is_root();
    reveal_strlit("/");
    assert("/"@ =~= seq!['/']);
}

/// A target in a real component that is no entry point is addressed by its component wherever the
/// reference is in another component or in an entry point: a file that is packaged with its component lies
/// at no fixed path. The path within the component is passed as it is, without its leading slash unless it
/// is that alone.
pub proof fn targets_in_components_go_through_their_component(
    reference: ReferenceView,
    entry_points: Set<Seq<char>>,
)
    requires
        has_known_target(reference),
        !lies_at_its_path(reference, entry_points),
        reference.category == PathCategory::StaticDifferentComponent || entry_points.contains(reference.file),
    ensures
        ({
            let path = reference.target->0.path_in_component;
            decision(reference, entry_points) == Some(
                "\\core\\component::component_path("@ + single_quoted(reference.target->0.component) + ", "@
                    + single_quoted(
                    if path.len() > 1 && path[0] == '/' {
                        path.skip(1)
                    } else {
                        path
                    },
                ) + ")"@,
            )
        }),
{
    root_is_root();
}

/// Nothing goes through `$CFG->root` but what lies at its path below the repository root, whatever its
/// name.
pub proof fn only_fixed_paths_go_through_root(
    reference: ReferenceView,
    entry_points: Set<Seq<char>>,
    text: Seq<char>,
)
    requires
        has_known_target(reference),
        decision(reference, entry_points) == Some(text),
        "$CFG->root"@.is_prefix_of(text),
    ensures
        lies_at_its_path(reference, entry_points),
{
    root_is_root();
    reveal_strlit("$CFG->root");
    assert(text.subrange(0, "$CFG->root"@.len() as int)[0] == '$');
    assert(text[0] == '$');
    let target = reference.target->0;
    let call = component_path_call(target.component, target.path_in_component);
    reveal_strlit("\\core\\component::component_path(");
    assert(call[0] == '\\');
    starts_of_dir_relative(reference.file, reference.result.real_path);
}

/// A `__DIR__`-relative text starts with `__DIR__` or `dirname(__DIR__`.
proof fn starts_of_dir_relative(file: Seq<char>, target: Seq<char>)
    ensures
        "__DIR__"@.is_prefix_of(dir_relative(file, target)) || "dirname(__DIR__"@.is_prefix_of(
            dir_relative(file, target),
        ),
        dir_relative(file, target).len() > 0,
        dir_relative(file, target)[0] == '_' || dir_relative(file, target)[0] == 'd',
{
    reveal_strlit("__DIR__");
    reveal_strlit("dirname(__DIR__");
    reveal_strlit("dirname(__DIR__)");
    reveal_strlit("dirname(__DIR__, ");
    let text = dir_relative(file, target);
    let n = levels_up(file, target);
    if n == 0 {
        assert(text.subrange(0, 7) =~= "__DIR__"@);
    } else {
        assert(text.subrange(0, 15) =~= "dirname(__DIR__"@);
    }
}

/// Between two files of the same component, neither of which is an entry point, the path is relative to
/// the directory of the file; `root` counts as a component here.
pub proof fn siblings_are_addressed_relative_to_each_other(reference: ReferenceView, entry_points: Set<Seq<char>>)
    requires
        has_known_target(reference),
        reference.category == PathCategory::StaticSameComponent,
        !entry_points.contains(reference.file),
        reference.target->0.component == "root"@ || !entry_points.contains(reference.result.real_path),
    ensures
        decision(reference, entry_points) is Some,
        "__DIR__"@.is_prefix_of(decision(reference, entry_points)->0) || "dirname(__DIR__"@.is_prefix_of(
            decision(reference, entry_points)->0,
        ),
        decision(reference, entry_points) == Some(dir_relative(reference.file, reference.result.real_path)),
{
    root_is_root();
    starts_of_dir_relative(reference.file, reference.result.real_path);
}

/// A reference to config.php, or a bare literal in pre-component code, becomes relative to the directory
/// of the file, unless it is so already; wherever it is and whatever it resolves to.
pub proof fn config_and_literals_become_dir_relative(reference: ReferenceView, entry_points: Set<Seq<char>>)
    requires
        reference.category == PathCategory::Config || reference.category == PathCategory::PreComponentLiteral,
        reference.result.kind != PathKind::TracedVariable,
    ensures
        reference.result.kind == PathKind::Dir ==> decision(reference, entry_points) is None,
        reference.result.kind != PathKind::Dir ==> decision(reference, entry_points) == Some(
            dir_relative(reference.file, reference.result.real_path),
        ),
{
}

/// A reference with runtime-only parts hands what follows `$CFG->dirroot` to from_mono_path(), and is left
/// alone where nothing follows it.
pub proof fn variable_references_go_through_mono_path(reference: ReferenceView, entry_points: Set<Seq<char>>)
    requires
        reference.category == PathCategory::VariableOnly,
        reference.result.kind != PathKind::TracedVariable,
    ensures
        decision(reference, entry_points) == if reference.result.mono_path_expr.len() == 0 {
            None
        } else {
            Some("\\core\\component::from_mono_path("@ + reference.result.mono_path_expr + ")"@)
        },
{
}

/// The text of a `__DIR__`-relative path: a file below `shared` and `up`, and a target below `shared` and
/// `down`, where these part, are one `dirname()` apart for each directory of `up`.
pub proof fn dir_relative_text(
    shared: Seq<Seq<char>>,
    up: Seq<Seq<char>>,
    name: Seq<char>,
    down: Seq<Seq<char>>,
)
    requires
        are_names(shared + up + seq![name]),
        are_names(shared + down),
        up.len() > 0 && down.len() > 0 ==> up[0] != down[0],
        shared.len() > 0 || down.len() > 0,
    ensures
        dir_relative(join(shared + up + seq![name], seq!['/']), join(shared + down, seq!['/'])) == (if up.len()
            == 0 {
            "__DIR__"@
        } else if up.len() == 1 {
            "dirname(__DIR__)"@
        } else {
            "dirname(__DIR__, "@ + decimal(up.len()) + ")"@
        }) + (if down.len() == 0 {
            ""@
        } else {
            " . "@ + single_quoted(seq!['/'] + join(down, seq!['/']))
        }),
{
    let slash = seq!['/'];
    let all = shared + up + seq![name];
    let file = join(all, slash);
    let goal = shared + down;
    let target = join(goal, slash);
    dirname_of_join(all);
    let dirs = shared + up;
    assert(all.drop_last() =~= dirs);
    names_of_part(all, dirs.len() as int);
    assert(all.take(dirs.len() as int) =~= dirs);
    segments_of_join(dirs);
    segments_of_join(goal);
    assert(path_segments(parent_dir(file)) == dirs);
    assert(path_segments(target) == goal);
    common_of_parted(shared, up, down);
    assert(levels_up(file, target) == up.len());
    assert(goal.skip(shared.len() as int) =~= down);
    assert(segments_down(file, target) == down);
    assert(goal.last().len() > 0 && !goal.last().contains('/')) by {
        assert(goal[goal.len() - 1].len() > 0);
    }
    joined_ends_with_last(goal);
    assert(target.last() != '/') by {
        assert(target.last() == goal.last().last());
        assert(goal.last().contains(goal.last().last()));
    }
    reveal_strlit("");
    if down.len() > 0 {
        let suffix = slash + join(down, slash);
        assert(slash + join(down, slash) + Seq::<char>::empty() =~= suffix);
        assert(way_down(file, target) == Some(suffix));
        assert(climb(up.len()) + " . "@ + single_quoted(suffix) =~= climb(up.len()) + (" . "@ + single_quoted(suffix)));
    } else {
        assert(way_down(file, target) is None);
        assert(climb(up.len()) + ""@ =~= climb(up.len()));
    }
}

/// A slash behind a target stays behind it, and makes no other difference.
pub proof fn slashes_behind_targets_stay(file: Seq<char>, segments: Seq<Seq<char>>)
    requires
        are_names(segments),
        segments.len() > 0,
    ensures
        ({
            let target = join(segments, seq!['/']);
            let down = match way_down(file, target) {
                Some(suffix) => suffix,
                None => ""@,
            };
            &&& levels_up(file, target + "/"@) == levels_up(file, target)
            &&& way_down(file, target + "/"@) == Some(down + "/"@)
        }),
{
    let target = join(segments, seq!['/']);
    let nothing = Seq::<char>::empty();
    reveal_strlit("/");
    reveal_strlit("");
    assert("/"@ =~= seq!['/']);
    assert(""@ =~= nothing);
    segments_of_join(segments);
    split_around_separator(target, nothing, '/');
    split_without_separator(nothing, '/');
    assert(target + seq!['/'] + nothing =~= target + "/"@);
    assert(split(target + "/"@, '/') =~= segments.push(nothing));
    assert(segments.push(nothing).drop_last() =~= segments);
    assert(named(segments) == segments);
    assert(path_segments(target + "/"@) == path_segments(target));
    assert(segments.last().len() > 0 && !segments.last().contains('/')) by {
        assert(segments[segments.len() - 1].len() > 0);
    }
    joined_ends_with_last(segments);
    assert(target.last() != '/') by {
        assert(segments.last().contains(segments.last().last()));
    }
    let down = segments_down(file, target);
    if down.len() > 0 {
        assert(seq!['/'] + join(down, seq!['/']) + nothing + "/"@ =~= seq!['/'] + join(down, seq!['/']) + seq!['/']);
    } else {
        assert(nothing + "/"@ =~= "/"@);
    }
}

/// A `__DIR__`-relative path is the climb to the shared ancestor, and where there is a way down from it,
/// that as a string behind it.
pub proof fn dir_relative_is_climb_and_descent(file: Seq<char>, target: Seq<char>)
    ensures
        ({
            let n = levels_up(file, target);
            let up = if n == 0 {
                "__DIR__"@
            } else if n == 1 {
                "dirname(__DIR__)"@
            } else {
                "dirname(__DIR__, "@ + decimal(n) + ")"@
            };
            dir_relative(file, target) == match way_down(file, target) {
                Some(suffix) => up + " . "@ + single_quoted(suffix),
                None => up,
            }
        }),
{
}

proof fn joined_ends_with_last(segments: Seq<Seq<char>>)
    requires
        segments.len() > 0,
        segments.last().len() > 0,
    ensures
        join(segments, seq!['/']).len() > 0,
        join(segments, seq!['/']).last() == segments.last().last(),
{
}

proof fn common_of_parted(shared: Seq<Seq<char>>, up: Seq<Seq<char>>, down: Seq<Seq<char>>)
    requires
        up.len() > 0 && down.len() > 0 ==> up[0] != down[0],
    ensures
        common(shared + up, shared + down) == shared.len(),
    decreases shared.len(),
{
    let a = shared + up;
    let b = shared + down;
    if shared.len() > 0 {
        common_of_parted(shared.drop_first(), up, down);
        assert(a.drop_first() =~= shared.drop_first() + up);
        assert(b.drop_first() =~= shared.drop_first() + down);
    } else {
        assert(a =~= up);
        assert(b =~= down);
    }
}

/// What is outstanding, category by category.
pub proof fn outstanding_by_category(reference: ReferenceView, entry_points: Set<Seq<char>>)
    ensures
        ({
            let differs = decision(reference, entry_points) is Some && decision(reference, entry_points)->0
                != reference.result.code;
            outstanding(reference, entry_points) == match reference.category {
                PathCategory::Component => false,
                PathCategory::IncludePathRelative => false,
                PathCategory::PreComponent => false,
                PathCategory::Config => differs,
                PathCategory::PreComponentLiteral => differs,
                PathCategory::StaticSameComponent => differs,
                PathCategory::StaticDifferentComponent => differs,
                PathCategory::VariableOnly => differs || reference.result.mono_path_expr.len() == 0,
                PathCategory::PluginTypeRoot => true,
                PathCategory::DynamicComponent => true,
                PathCategory::DirrootWrangling => true,
                PathCategory::RootWrangling => true,
                PathCategory::Uncategorised => true,
            }
        }),
{
}

/// A reference is replaced with what was decided on it exactly if its category is one of those that are
/// ever rewritten.
pub proof fn replacements_by_category(reference: ReferenceView, entry_points: Set<Seq<char>>)
    ensures
        replacement(reference, entry_points) == match reference.category {
            PathCategory::Config => decision(reference, entry_points),
            PathCategory::PreComponentLiteral => decision(reference, entry_points),
            PathCategory::StaticSameComponent => decision(reference, entry_points),
            PathCategory::StaticDifferentComponent => decision(reference, entry_points),
            PathCategory::VariableOnly => decision(reference, entry_points),
            _ => None,
        },
        rewritten_text(reference, entry_points) == match replacement(reference, entry_points) {
            Some(text) => text,
            None => ""@,
        },
{
    reveal_strlit("");
    assert(""@ =~= Seq::<char>::empty());
}

/// Every reference of a file that is replaced makes an edit of its place.
pub proof fn every_replacement_makes_an_edit(
    references: Seq<ReferenceView>,
    entry_points: Set<Seq<char>>,
    file: Seq<char>,
    i: int,
)
    requires
        0 <= i < references.len(),
        references[i].file == file,
        replacement(references[i], entry_points) is Some,
    ensures
        exists|k: int|
            0 <= k < edits_of(references, entry_points, file).len() && is_edit_of(
                #[trigger] edits_of(references, entry_points, file)[k],
                references[i],
                entry_points,
            ),
    decreases references.len(),
{
    let before = edits_of(references.drop_last(), entry_points, file);
    let all = edits_of(references, entry_points, file);
    if i == references.len() - 1 {
        assert(is_edit_of(all[all.len() - 1], references[i], entry_points));
    } else {
        every_replacement_makes_an_edit(references.drop_last(), entry_points, file, i);
        let k = choose|k: int|
            0 <= k < before.len() && is_edit_of(#[trigger] before[k], references.drop_last()[i], entry_points);
        assert(all[k] == before[k]);
    }
}

/// One more reference is one more to count exactly if it is replaced, and one more edit of its own file
/// only.
pub proof fn one_more_reference(
    references: Seq<ReferenceView>,
    more: ReferenceView,
    entry_points: Set<Seq<char>>,
    file: Seq<char>,
)
    ensures
        rewritten_count(references.push(more), entry_points) == rewritten_count(references, entry_points) + (
        if replacement(more, entry_points) is Some {
            1int
        } else {
            0
        }),
        replacement(more, entry_points) is None || more.file != file ==> edits_of(
            references.push(more),
            entry_points,
            file,
        ) == edits_of(references, entry_points, file),
        replacement(more, entry_points) is Some && more.file == file ==> edits_of(
            references.push(more),
            entry_points,
            file,
        ) == edits_of(references, entry_points, file).push(
            (EditView {
                start: more.result.start_pos->0 as int,
                end: more.result.end_pos->0 as int,
                replacement: replacement(more, entry_points)->0,
            }),
        ),
{
    assert(references.push(more).drop_last() =~= references);
}

// ---------------------------------------------------------------------------------------------
// The process.

/// A codebase is checked and patched before it is scanned, and scanned before it is rewritten, and once more
/// after that; what is found is written down, before and after, exactly where that is asked for.
pub proof fn steps_of_a_rewrite(with_output: bool)
    ensures
        ({
            let steps = rewrite_steps(with_output);
            &&& steps[0] == RewriteStep::CheckRoot
            &&& steps[1] == RewriteStep::ReadPatches
            &&& steps[2] == RewriteStep::ApplyPatches
            &&& steps[3] == RewriteStep::Scan
            &&& with_output ==> steps.len() == 9 && steps[4] == RewriteStep::OpenAudit && steps[5]
                == RewriteStep::RewriteFiles && steps[6] == RewriteStep::FinishAudit && steps[7] == RewriteStep::Rescan
                && steps[8] == RewriteStep::WriteAfter
            &&& !with_output ==> steps.len() == 6 && steps[4] == RewriteStep::RewriteFiles && steps[5]
                == RewriteStep::Rescan
        }),
{
}

/// The record of a reference after a rewrite says whether it is outstanding, and that in the audit trail what
/// it is rewritten to, behind all that is said of it otherwise.
pub proof fn rewritten_references_have_records(
    reference: ReferenceView,
    entry_points: Set<Seq<char>>,
    rewritten_to: Seq<char>,
)
    ensures
        after_row(reference, entry_points).drop_last() == reference_fields(reference),
        after_row(reference, entry_points).last() == (if outstanding(reference, entry_points) {
            "true"@
        } else {
            "false"@
        }),
        audit_row(reference, rewritten_to).drop_last() == reference_fields(reference),
        audit_row(reference, rewritten_to).last() == single_line(rewritten_to),
{
    assert(after_row(reference, entry_points).drop_last() =~= reference_fields(reference));
    assert(audit_row(reference, rewritten_to).drop_last() =~= reference_fields(reference));
}

/// A regular file is a patch exactly if its name ends in '.patch'.
pub proof fn patches_end_in_patch(stem: Seq<char>, name: Seq<char>, contents: Seq<u8>)
    ensures
        is_patch(EntryView { name: stem + ".patch"@, is_file: true, contents }),
        !is_patch(EntryView { name: stem + ".patch"@, is_file: false, contents }),
        !".patch"@.is_suffix_of(name) ==> !is_patch(EntryView { name, is_file: true, contents }),
{
    let whole = stem + ".patch"@;
    assert(whole.subrange(whole.len() - ".patch"@.len(), whole.len() as int) =~= ".patch"@);
}

/// What git says of a patch that it cannot apply comes before what went wrong while it was written, and
/// nothing is said where neither went wrong.
pub proof fn failures_of_git_come_first(name: Seq<char>, stderr: Seq<u8>, write_error: Option<Seq<char>>)
    ensures
        patch_error(name, false, stderr, write_error) == patch_error(name, false, stderr, None),
        patch_error(name, false, stderr, None) is Some,
        patch_error(name, true, stderr, write_error) is Some == write_error is Some,
{
}

/// A patch goes behind all that its name does not come before, so that those of one name stay in the order of
/// the archive; what is no patch makes no difference.
pub proof fn patches_of_one_name_stay_in_order(entries: Seq<EntryView>, more: EntryView)
    ensures
        !is_patch(more) ==> patches_in(entries.push(more)) == patches_in(entries),
        is_patch(more) && (patches_in(entries).len() == 0 || !precedes(more.name, patches_in(entries).last().name))
            ==> patches_in(entries.push(more)) == patches_in(entries).push(
            PatchView { name: more.name, contents: more.contents },
        ),
        is_patch(more) ==> patches_in(entries.push(more)).len() == patches_in(entries).len() + 1,
{
    assert(entries.push(more).drop_last() =~= entries);
    put_in_order_adds_one(patches_in(entries), PatchView { name: more.name, contents: more.contents });
}

proof fn put_in_order_adds_one(patches: Seq<PatchView>, patch: PatchView)
    ensures
        put_in_order(patches, patch).len() == patches.len() + 1,
    decreases patches.len(),
{
    if patches.len() > 0 && precedes(patch.name, patches.last().name) {
        put_in_order_adds_one(patches.drop_last(), patch);
    }
}

/// An edit that starts no later than all others is made last, so that of two that start at the same place the
/// first is made first.
pub proof fn edits_of_one_place_stay_in_order(edits: Seq<EditView>, edit: EditView)
    requires
        forall|i: int| 0 <= i < edits.len() ==> edit.start <= (#[trigger] edits[i]).start,
    ensures
        back_to_front(edits.push(edit)) == back_to_front(edits).push(edit),
        back_to_front(Seq::empty()).len() == 0,
{
    assert(edits.push(edit).drop_last() =~= edits);
    let ordered = back_to_front(edits);
    if ordered.len() > 0 {
        ordering_adds_nothing(edits, ordered.len() - 1);
    }
}

proof fn ordering_adds_nothing(edits: Seq<EditView>, k: int)
    requires
        0 <= k < back_to_front(edits).len(),
    ensures
        edits.contains(back_to_front(edits)[k]),
    decreases edits.len(),
{
    let front = edits.drop_last();
    let j = putting_adds_nothing(back_to_front(front), edits.last(), k);
    if j >= 0 {
        ordering_adds_nothing(front, j);
        let i = choose|i: int| 0 <= i < front.len() && front[i] == back_to_front(front)[j];
        assert(edits[i] == front[i]);
    } else {
        assert(edits[edits.len() - 1] == edits.last());
    }
}

proof fn putting_adds_nothing(edits: Seq<EditView>, edit: EditView, k: int) -> (j: int)
    requires
        0 <= k < put_in_place(edits, edit).len(),
    ensures
        j < edits.len(),
        j >= 0 ==> put_in_place(edits, edit)[k] == edits[j],
        j < 0 ==> put_in_place(edits, edit)[k] == edit,
    decreases edits.len(),
{
    if edits.len() > 0 && edits.last().start < edit.start {
        let inside = put_in_place(edits.drop_last(), edit);
        if k < inside.len() {
            putting_adds_nothing(edits.drop_last(), edit, k)
        } else {
            edits.len() - 1
        }
    } else if k < edits.len() {
        k
    } else {
        -1
    }
}

/// The entry points of a codebase are the files of which something runs before the boundary, and component.php.
pub proof fn entry_points_are_the_classified_files(scan: &Scan, file: Seq<char>)
    ensures
        ({
            let segment = scan.notation.segment();
            entry_point_names(scan).contains(file) <==> extent_of(scan.files@, segment, file) is Some || file
                == in_dirroot(segment, "lib/classes/component.php"@) && is_file(scan.files@, file)
        }),
{
    let segment = scan.notation.segment();
    let list = classified(scan.files@, segment);
    every_bootstrap_file_is_classified(scan.files@, segment, file);
    if file_names(list).contains(file) {
        let i = choose|i: int| 0 <= i < file_names(list).len() && file_names(list)[i] == file;
        assert(list[i].file == file);
    }
    if exists|i: int| 0 <= i < list.len() && (#[trigger] list[i]).file == file {
        let i = choose|i: int| 0 <= i < list.len() && (#[trigger] list[i]).file == file;
        assert(file_names(list)[i] == file);
    }
}

} // verus!
