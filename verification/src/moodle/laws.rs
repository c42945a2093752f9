//! What the kinds of files and the names of plugins come to, in terms of their texts.

use vstd::prelude::*;

use crate::collections::in_order;
use crate::collections::listable;
use crate::collections::listable_with;
use crate::collections::lists;
use crate::moodle::categorise::PathCategory;
use crate::moodle::categorise::Places;
use crate::moodle::categorise::category;
use crate::moodle::categorise::category_in;
use crate::moodle::categorise::only_slashes;
use crate::moodle::categorise::without_prefix;
use crate::moodle::components::ComponentDiscovery;
use crate::moodle::components::ComponentsJson;
use crate::moodle::components::Declaration;
use crate::moodle::components::Found;
use crate::moodle::components::Locations;
use crate::moodle::components::SubpluginsJson;
use crate::moodle::components::accepted;
use crate::moodle::components::all_components;
use crate::moodle::components::all_declarations;
use crate::moodle::components::components_stay;
use crate::moodle::components::core_components;
use crate::moodle::components::declarations;
use crate::moodle::components::declared_types;
use crate::moodle::components::every_plugin_is_a_component;
use crate::moodle::components::frankenstyle;
use crate::moodle::components::generic_plugin_name;
use crate::moodle::components::has_subplugins;
use crate::moodle::components::is_digit;
use crate::moodle::components::is_ignored_dir;
use crate::moodle::components::is_lower;
use crate::moodle::components::listed_in;
use crate::moodle::components::plugin_components;
use crate::moodle::components::plugin_declarations;
use crate::moodle::components::plugins_of;
use crate::moodle::components::rejections;
use crate::moodle::components::subplugin_locations;
use crate::moodle::components::subplugin_type_locations;
use crate::moodle::components::subplugins_at;
use crate::moodle::components::type_declarations;
use crate::moodle::components::types_are_listed;
use crate::moodle::components::valid_plugin_name;
use crate::moodle::components::with_plugins;
use crate::moodle::entrypoints::BootstrapKind;
use crate::moodle::entrypoints::BoundaryEdge;
use crate::moodle::entrypoints::EdgeView;
use crate::moodle::entrypoints::ExtentView;
use crate::moodle::entrypoints::ScannedFiles;
use crate::moodle::entrypoints::UNDETECTED_ENTRY_POINTS;
use crate::moodle::entrypoints::boundary_edges;
use crate::moodle::entrypoints::classification_of;
use crate::moodle::entrypoints::classified;
use crate::moodle::entrypoints::component_file;
use crate::moodle::entrypoints::dependencies_stay_off_the_boundary;
use crate::moodle::entrypoints::earliest;
use crate::moodle::entrypoints::earliest_is_least;
use crate::moodle::entrypoints::edges_of;
use crate::moodle::entrypoints::edges_to_boundary;
use crate::moodle::entrypoints::extent_of;
use crate::moodle::entrypoints::file_edges;
use crate::moodle::entrypoints::files_with_extent;
use crate::moodle::entrypoints::files_with_extent_are_listed;
use crate::moodle::entrypoints::has_boundary;
use crate::moodle::entrypoints::in_dirroot;
use crate::moodle::entrypoints::is_dependency;
use crate::moodle::entrypoints::is_file;
use crate::moodle::entrypoints::is_undetected;
use crate::moodle::entrypoints::leads_to;
use crate::moodle::entrypoints::listed_entry_points;
use crate::moodle::entrypoints::place_after;
use crate::moodle::entrypoints::place_after_parts;
use crate::moodle::entrypoints::pulls_in;
use crate::moodle::entrypoints::reaches_boundary;
use crate::moodle::entrypoints::required_by;
use crate::moodle::graph::is_chain;
use crate::moodle::graph::starts_are_reached;
use crate::moodle::resolver::ResolutionView;
use crate::moodle::thirdparty::can_have_manifest;
use crate::path_finder::PathKind;
use crate::path_finder::PathResult;
use crate::path_finder::PathView;
use crate::text::has_part;
use crate::text::is_part_at;
use crate::text::is_piece_at;
use crate::text::is_white;
use crate::text::pieces_lie_between_separators;
use crate::text::split;
use crate::text::split_around_separator;
use crate::text::split_without_separator;
use crate::text::texts;
use crate::text::trim_start;
use crate::text::trimmed;
use crate::text::trimmed_takes_the_white_space;

verus! {

// ---------------------------------------------------------------------------------------------
// The kinds of files.

/// Whether 'cli' is one of the names in the path `file`.
pub open spec fn goes_through_cli(file: Seq<char>) -> bool {
    ||| has_part(file, "/cli/"@)
    ||| "cli/"@.is_prefix_of(file)
    ||| "/cli"@.is_suffix_of(file)
    ||| file == "cli"@
}

proof fn cli_texts()
    ensures
        "cli"@ == seq!['c', 'l', 'i'],
        "cli/"@ == "cli"@ + seq!['/'],
        "/cli"@ == seq!['/'] + "cli"@,
        "/cli/"@ == seq!['/'] + "cli"@ + seq!['/'],
        !"cli"@.contains('/'),
        "cli"@.len() == 3,
{
    reveal_strlit("cli");
    reveal_strlit("cli/");
    reveal_strlit("/cli");
    reveal_strlit("/cli/");
    assert("cli"@ =~= seq!['c', 'l', 'i']);
    assert("cli/"@ =~= "cli"@ + seq!['/']);
    assert("/cli"@ =~= seq!['/'] + "cli"@);
    assert("/cli/"@ =~= seq!['/'] + "cli"@ + seq!['/']);
}

/// A piece, with what comes before and after it.
proof fn piece_in_its_place(file: Seq<char>, piece: Seq<char>, start: int)
    requires
        is_piece_at(file, '/', piece, start),
        !piece.contains('/'),
    ensures
        split(file, '/').contains(piece),
{
    let end = start + piece.len();
    let before = file.take(start - 1);
    let after = file.skip(end + 1);
    split_without_separator(piece, '/');
    if start == 0 && end == file.len() {
        assert(file =~= file.subrange(0, end));
        assert(split(file, '/')[0] == piece);
    } else if start == 0 {
        assert(file =~= file.subrange(0, end) + seq!['/'] + after);
        split_around_separator(piece, after, '/');
        assert(split(file, '/')[0] == piece);
    } else if end == file.len() {
        assert(file =~= before + seq!['/'] + file.subrange(start, end));
        split_around_separator(before, piece, '/');
        assert(split(file, '/')[split(before, '/').len() as int] == piece);
    } else {
        let rest = piece + seq!['/'] + after;
        assert(file =~= before + seq!['/'] + (file.subrange(start, end) + seq!['/'] + after));
        split_around_separator(before, rest, '/');
        split_around_separator(piece, after, '/');
        assert(split(rest, '/')[0] == piece);
        assert(split(file, '/')[split(before, '/').len() as int] == piece);
    }
}

proof fn cli_at(file: Seq<char>, start: int)
    requires
        is_piece_at(file, '/', "cli"@, start),
    ensures
        goes_through_cli(file),
{
    cli_texts();
    let part = file.subrange(start, start + 3);
    if start == 0 && file.len() == 3 {
        assert(file =~= part);
    } else if start == 0 {
        assert(file.subrange(0, 4) =~= part + seq!['/']);
    } else if start + 3 == file.len() {
        assert(file.subrange(start - 1, file.len() as int) =~= seq!['/'] + part);
    } else {
        assert(file.subrange(start - 1, start + 4) =~= seq!['/'] + part + seq!['/']);
        assert(is_part_at(file, "/cli/"@, start - 1));
    }
}

proof fn cli_is_there(file: Seq<char>) -> (start: int)
    requires
        goes_through_cli(file),
    ensures
        is_piece_at(file, '/', "cli"@, start),
{
    cli_texts();
    let n = file.len() as int;
    if has_part(file, "/cli/"@) {
        let i = choose|i: int| is_part_at(file, "/cli/"@, i);
        let part = file.subrange(i, i + 5);
        assert(file.subrange(i + 1, i + 4) =~= part.subrange(1, 4));
        assert("/cli/"@.subrange(1, 4) =~= "cli"@);
        assert(file[i] == part[0] && file[i + 4] == part[4]);
        i + 1
    } else if "cli/"@.is_prefix_of(file) {
        let part = file.subrange(0, 4);
        assert(file.subrange(0, 3) =~= part.subrange(0, 3));
        assert("cli/"@.subrange(0, 3) =~= "cli"@);
        assert(file[3] == part[3]);
        0
    } else if "/cli"@.is_suffix_of(file) {
        let part = file.subrange(n - 4, n);
        assert(file.subrange(n - 3, n) =~= part.subrange(1, 4));
        assert("/cli"@.subrange(1, 4) =~= "cli"@);
        assert(file[n - 4] == part[0]);
        n - 3
    } else {
        assert(file.subrange(0, 3) =~= file);
        0
    }
}

proof fn cli_is_a_piece(file: Seq<char>)
    ensures
        split(file, '/').contains("cli"@) <==> goes_through_cli(file),
{
    if split(file, '/').contains("cli"@) {
        let i = choose|i: int| 0 <= i < split(file, '/').len() && split(file, '/')[i] == "cli"@;
        let start = pieces_lie_between_separators(file, '/', i);
        cli_at(file, start);
    }
    if goes_through_cli(file) {
        let start = cli_is_there(file);
        cli_texts();
        piece_in_its_place(file, "cli"@, start);
    }
}

/// What is classified is either component.php, of kind 'other', or a file with an extent.
proof fn classified_files(files: ScannedFiles, segment: Seq<char>, i: int)
    requires
        0 <= i < classified(files, segment).len(),
        classified(files, segment)[i].extent is Some,
    ensures
        ({
            let one = classified(files, segment)[i];
            &&& one == classification_of(files, segment, one.file)
            &&& is_file(files, one.file)
        }),
{
    let names = in_order(files_with_extent(files, segment));
    let component = component_file(segment);
    files_with_extent_are_listed(files, segment);
    place_after_parts(names, component);
    let place = place_after(names, component);
    let k = if is_file(files, component) && i > place {
        i - 1
    } else {
        i
    };
    assert(classified(files, segment)[i] == classification_of(files, segment, names[k]));
    assert(names.contains(names[k]));
}

/// A file that starts a chain toward the boundary itself is a command-line script exactly if 'cli' is one of
/// the names in its path.
pub proof fn command_line_scripts_lie_under_cli(files: ScannedFiles, segment: Seq<char>, i: int)
    requires
        0 <= i < classified(files, segment).len(),
        classified(files, segment)[i].extent matches Some(ExtentView::UpToLine(_)),
    ensures
        classified(files, segment)[i].kind == (if goes_through_cli(classified(files, segment)[i].file) {
            BootstrapKind::Cli
        } else {
            BootstrapKind::Other
        }),
{
    classified_files(files, segment, i);
    cli_is_a_piece(classified(files, segment)[i].file);
}

/// Whatever lies below a directory called 'cli', in any directory, goes through 'cli'.
pub proof fn below_cli_goes_through_cli(dir: Seq<char>, rest: Seq<char>)
    ensures
        goes_through_cli(dir + "/cli/"@ + rest),
        goes_through_cli("cli/"@ + rest),
{
    reveal_strlit("cli/");
    reveal_strlit("/cli/");
    let file = dir + "/cli/"@ + rest;
    assert(file.subrange(dir.len() as int, dir.len() + 5int) =~= "/cli/"@);
    assert(is_part_at(file, "/cli/"@, dir.len() as int));
    assert(("cli/"@ + rest).subrange(0, 4) =~= "cli/"@);
}

/// A file that runs as a whole before the boundary is a dependency, unless it is the one file that is known
/// to be invoked directly.
pub proof fn whole_files_are_dependencies(files: ScannedFiles, segment: Seq<char>, i: int)
    requires
        0 <= i < classified(files, segment).len(),
        classified(files, segment)[i].extent == Some(ExtentView::WholeFile),
    ensures
        classified(files, segment)[i].kind == (if classified(files, segment)[i].file == in_dirroot(
            segment,
            "admin/tool/phpunit/cli/init.php"@,
        ) {
            BootstrapKind::Cli
        } else {
            BootstrapKind::BootstrapDependency
        }),
{
    classified_files(files, segment, i);
    let file = classified(files, segment)[i].file;
    only_one_file_is_undetected(segment, file);
    if is_undetected(segment, file) {
        undetected_goes_through_cli(segment);
        cli_is_a_piece(file);
    }
}

proof fn undetected_line(line: Seq<char>)
    requires
        line == "admin/tool/phpunit/cli/init.php"@,
    ensures
        line.len() == 31,
        !line.contains('\n'),
        line[0] == 'a',
        line[30] == 'p',
        line.subrange(18, 23) == "/cli/"@,
        UNDETECTED_ENTRY_POINTS@ == line + seq!['\n'],
{
    reveal_strlit("admin/tool/phpunit/cli/init.php");
    reveal_strlit("admin/tool/phpunit/cli/init.php\n");
    reveal_strlit("/cli/");
    assert(line.subrange(18, 23) =~= "/cli/"@);
    assert(UNDETECTED_ENTRY_POINTS@ =~= line + seq!['\n']);
    assert(line =~= seq![
        'a', 'd', 'm', 'i', 'n', '/', 't', 'o', 'o', 'l', '/', 'p', 'h', 'p', 'u', 'n', 'i', 't', '/', 'c', 'l', 'i',
        '/', 'i', 'n', 'i', 't', '.', 'p', 'h', 'p',
    ]);
    if line.contains('\n') {
        let i = choose|i: int| 0 <= i < line.len() && line[i] == '\n';
        assert(line[i] != '\n');
    }
}

/// There is one file that no chain leads to.
pub proof fn only_one_file_is_undetected(segment: Seq<char>, file: Seq<char>)
    ensures
        is_undetected(segment, file) <==> file == in_dirroot(segment, "admin/tool/phpunit/cli/init.php"@),
{
    let line = "admin/tool/phpunit/cli/init.php"@;
    let nothing = Seq::<char>::empty();
    undetected_line(line);
    split_around_separator(line, nothing, '\n');
    split_without_separator(line, '\n');
    split_without_separator(nothing, '\n');
    let lines = split(UNDETECTED_ENTRY_POINTS@, '\n');
    assert(line + seq!['\n'] + nothing =~= line + seq!['\n']);
    assert(lines =~= seq![line, nothing]);
    assert(trimmed(line) == line);
    assert(trimmed(nothing) == nothing);
    assert(lines.drop_last() =~= seq![line]);
    assert(lines.drop_last().drop_last() =~= Seq::<Seq<char>>::empty());
    assert(listed_entry_points(lines.drop_last().drop_last(), segment) =~= Seq::<Seq<char>>::empty());
    assert(listed_entry_points(lines.drop_last(), segment) =~= seq![in_dirroot(segment, line)]);
    let listed = listed_entry_points(lines, segment);
    assert(listed =~= seq![in_dirroot(segment, line)]);
    assert(listed[0] == in_dirroot(segment, line));
}

proof fn undetected_goes_through_cli(segment: Seq<char>)
    ensures
        goes_through_cli(in_dirroot(segment, "admin/tool/phpunit/cli/init.php"@)),
{
    let line = "admin/tool/phpunit/cli/init.php"@;
    undetected_line(line);
    reveal_strlit("/");
    let whole = segment + "/"@ + line;
    trimmed_ends_alike(whole, line);
    let file = in_dirroot(segment, line);
    let start = file.len() - line.len() + 18;
    assert(file.subrange(start, start + 5) =~= line.subrange(18, 23)) by {
        assert(file.subrange(file.len() - line.len(), file.len() as int) == line);
        assert(file.subrange(start, start + 5) =~= file.subrange(file.len() - line.len(), file.len() as int).subrange(
            18,
            23,
        ));
    }
    reveal_strlit("/cli/");
    assert(is_part_at(file, "/cli/"@, start));
}

/// Trimming slashes at the start leaves an end that does not start with one.
proof fn trimmed_ends_alike(whole: Seq<char>, end: Seq<char>)
    requires
        end.len() > 0,
        end[0] != '/',
        end.is_suffix_of(whole),
    ensures
        end.is_suffix_of(trim_start(whole, '/')),
    decreases whole.len(),
{
    if whole[0] == '/' {
        if whole.len() == end.len() {
            assert(whole.subrange(0, whole.len() as int) =~= whole);
        }
        let rest = whole.drop_first();
        assert(rest.subrange(rest.len() - end.len(), rest.len() as int) =~= whole.subrange(
            whole.len() - end.len(),
            whole.len() as int,
        ));
        trimmed_ends_alike(rest, end);
    }
}

// ---------------------------------------------------------------------------------------------
// The names of plugins.

/// Whether `rest` ends a plugin name of which `underscores` underscores come right before it: letters and
/// digits, of which each two neighbours may have one or two underscores between them.
pub open spec fn ends_a_name(rest: Seq<char>, underscores: nat) -> bool
    decreases rest.len(),
{
    if rest.len() == 0 {
        underscores == 0
    } else if rest[0] == '_' {
        underscores < 2 && ends_a_name(rest.drop_first(), underscores + 1)
    } else {
        ('a' <= rest[0] <= 'z' || '0' <= rest[0] <= '9') && ends_a_name(rest.drop_first(), 0)
    }
}

/// Whether all of `text` is lower-case letters, digits and underscores.
pub open spec fn is_name_text(text: Seq<char>) -> bool {
    forall|i: int|
        0 <= i < text.len() ==> 'a' <= (#[trigger] text[i]) <= 'z' || '0' <= text[i] <= '9' || text[i] == '_'
}

/// Whether three underscores in a row stand in `text`.
spec fn has_three(text: Seq<char>) -> bool {
    exists|i: int| three_at(text, i)
}

spec fn three_at(text: Seq<char>, i: int) -> bool {
    0 <= i < text.len() - 2 && text[i] == '_' && text[i + 1] == '_' && text[i + 2] == '_'
}

spec fn after_underscores(underscores: nat, rest: Seq<char>) -> Seq<char> {
    Seq::new(underscores, |i: int| '_') + rest
}

proof fn ends_of_names(rest: Seq<char>, underscores: nat)
    requires
        underscores <= 2,
    ensures
        ends_a_name(rest, underscores) <==> {
            let whole = after_underscores(underscores, rest);
            &&& is_name_text(rest)
            &&& !has_three(whole)
            &&& whole.len() > 0 ==> whole.last() != '_'
        },
    decreases rest.len(),
{
    let whole = after_underscores(underscores, rest);
    if rest.len() == 0 {
        if has_three(whole) {
            let i = choose|i: int| three_at(whole, i);
        }
    } else {
        let after = rest.drop_first();
        if is_name_text(rest) {
            assert forall|i: int| 0 <= i < after.len() implies 'a' <= (#[trigger] after[i]) <= 'z' || '0' <= after[i]
                <= '9' || after[i] == '_' by {
                assert(after[i] == rest[i + 1]);
            }
        }
        if is_name_text(after) && ('a' <= rest[0] <= 'z' || '0' <= rest[0] <= '9' || rest[0] == '_') {
            assert forall|i: int| 0 <= i < rest.len() implies 'a' <= (#[trigger] rest[i]) <= 'z' || '0' <= rest[i]
                <= '9' || rest[i] == '_' by {
                if i > 0 {
                    assert(rest[i] == after[i - 1]);
                }
            }
        }
        if rest[0] == '_' {
            if underscores < 2 {
                ends_of_names(after, underscores + 1);
                assert(after_underscores(underscores + 1, after) =~= whole);
            } else {
                assert(three_at(whole, 0));
            }
        } else {
            ends_of_names(after, 0);
            let u = underscores as int;
            assert(after_underscores(0, after) =~= after);
            assert(whole[u] == rest[0]);
            if has_three(whole) {
                let i = choose|i: int| three_at(whole, i);
                assert(i > u);
                assert(whole[i] == after[i - u - 1] && whole[i + 1] == after[i - u]);
                assert(whole[i + 2] == after[i - u + 1]);
                assert(three_at(after, i - u - 1));
            }
            if has_three(after) {
                let i = choose|i: int| three_at(after, i);
                assert(whole[i + u + 1] == after[i] && whole[i + u + 2] == after[i + 1] && whole[i + u + 3]
                    == after[i + 2]);
                assert(three_at(whole, i + u + 1));
            }
            if after.len() > 0 {
                assert(whole.last() == after.last());
            }
        }
    }
}

proof fn three_underscores(text: Seq<char>)
    ensures
        has_part(text, "___"@) <==> has_three(text),
{
    reveal_strlit("___");
    assert("___"@ =~= seq!['_', '_', '_']);
    if has_part(text, "___"@) {
        let i = choose|i: int| is_part_at(text, "___"@, i);
        let part = text.subrange(i, i + 3);
        assert(part[0] == text[i] && part[1] == text[i + 1] && part[2] == text[i + 2]);
        assert(three_at(text, i));
    }
    if has_three(text) {
        let i = choose|i: int| three_at(text, i);
        assert(text.subrange(i, i + 3) =~= "___"@);
        assert(is_part_at(text, "___"@, i));
    }
}

/// The names of plugins of any type but 'mod' are the texts of a grammar: a lower-case letter, then lower-case
/// letters and digits, at least one, with one or two underscores between any two characters of these.
pub proof fn names_of_plugins_are_those_of_the_grammar(name: Seq<char>)
    ensures
        generic_plugin_name(name) <==> name.len() >= 2 && 'a' <= name[0] <= 'z' && ends_a_name(name.drop_first(), 0),
{
    three_underscores(name);
    if name.len() >= 2 {
        let rest = name.drop_first();
        ends_of_names(rest, 0);
        assert(after_underscores(0, rest) =~= rest);
        if 'a' <= name[0] <= 'z' {
            if has_three(name) {
                let i = choose|i: int| three_at(name, i);
                assert(three_at(rest, i - 1));
            }
            if has_three(rest) {
                let i = choose|i: int| three_at(rest, i);
                assert(three_at(name, i + 1));
            }
            if generic_plugin_name(name) {
                assert forall|i: int| 0 <= i < rest.len() implies 'a' <= (#[trigger] rest[i]) <= 'z' || '0'
                    <= rest[i] <= '9' || rest[i] == '_' by {
                    assert(rest[i] == name[i + 1]);
                }
            }
            if is_name_text(rest) {
                assert forall|i: int| 0 <= i < name.len() implies is_lower(
                    #[trigger] name[i],
                ) || is_digit(name[i]) || name[i] == '_' by {
                    if i > 0 {
                        assert(name[i] == rest[i - 1]);
                    }
                }
            }
        }
    }
}

/// Whether `name` matches `^[a-z](?:[a-z0-9_](?!__))*[a-z0-9]+$` with the first `k` characters taken before
/// the last group.
pub open spec fn matches_at(name: Seq<char>, k: int) -> bool {
    &&& 1 <= k < name.len()
    &&& 'a' <= name[0] <= 'z'
    &&& forall|i: int|
        1 <= i < k ==> ('a' <= (#[trigger] name[i]) <= 'z' || '0' <= name[i] <= '9' || name[i] == '_') && !(i + 2
            < name.len() && name[i + 1] == '_' && name[i + 2] == '_')
    &&& forall|i: int| k <= i < name.len() ==> 'a' <= (#[trigger] name[i]) <= 'z' || '0' <= name[i] <= '9'
}

/// What matches the pattern is a name; and a name matches it if none of its characters but the first comes
/// before two underscores.
pub proof fn what_matches_is_a_name(name: Seq<char>)
    ensures
        (exists|k: int| matches_at(name, k)) ==> generic_plugin_name(name),
        generic_plugin_name(name) && (forall|i: int|
            1 <= i < name.len() - 2 ==> !((#[trigger] name[i + 1]) == '_' && name[i + 2] == '_')) ==> exists|k: int|
            matches_at(name, k),
{
    three_underscores(name);
    if exists|k: int| matches_at(name, k) {
        let k = choose|k: int| matches_at(name, k);
        assert forall|i: int| 0 <= i < name.len() implies is_lower(#[trigger] name[i])
            || is_digit(name[i]) || name[i] == '_' by {
            if i >= k {
                assert('a' <= name[i] <= 'z' || '0' <= name[i] <= '9');
            } else if i >= 1 {
                assert('a' <= name[i] <= 'z' || '0' <= name[i] <= '9' || name[i] == '_');
            }
        }
        assert(name[name.len() - 1] != '_');
        if has_three(name) {
            let i = choose|i: int| three_at(name, i);
            assert(i < k) by {
                if i >= k {
                    assert('a' <= name[i] <= 'z' || '0' <= name[i] <= '9');
                }
            }
            assert(i > 0);
            assert(name[i + 1] == '_' && name[i + 2] == '_');
            assert(false);
        }
    }
    if generic_plugin_name(name) && (forall|i: int|
        1 <= i < name.len() - 2 ==> !((#[trigger] name[i + 1]) == '_' && name[i + 2] == '_')) {
        let k = name.len() - 1;
        assert forall|i: int| 1 <= i < k implies ('a' <= (#[trigger] name[i]) <= 'z' || '0' <= name[i] <= '9'
            || name[i] == '_') && !(i + 2 < name.len() && name[i + 1] == '_' && name[i + 2] == '_') by {
            assert(is_lower(name[i]) || is_digit(name[i])
                || name[i] == '_');
            if i + 2 < name.len() {
                assert(!(name[i + 1] == '_' && name[i + 2] == '_'));
            }
        }
        assert(is_lower(name[k]) || is_digit(name[k]));
        assert(matches_at(name, k));
    }
}

/// Whether `name` is a lower-case letter and then lower-case letters and digits.
pub open spec fn is_plain_name(name: Seq<char>) -> bool {
    &&& name.len() > 0
    &&& 'a' <= name[0] <= 'z'
    &&& forall|i: int| 0 < i < name.len() ==> 'a' <= (#[trigger] name[i]) <= 'z' || '0' <= name[i] <= '9'
}

/// Every plain name of two characters or more is a name for a plugin of any type but 'mod' and one of any
/// length for a 'mod', with the two exceptions that there are.
pub proof fn plain_names_are_names_of_plugins(
    plugin_type: Seq<char>,
    name: Seq<char>,
    subsystems: Map<Seq<char>, Option<String>>,
)
    requires
        is_plain_name(name),
    ensures
        plugin_type != "mod"@ && name.len() >= 2 && !(plugin_type == "qtype"@ && name == "random"@)
            ==> valid_plugin_name(plugin_type, name, subsystems),
        plugin_type == "mod"@ && (subsystems.contains_key(name) ==> subsystems[name] is None) ==> valid_plugin_name(
            plugin_type,
            name,
            subsystems,
        ),
{
    assert forall|i: int| 0 <= i < name.len() implies is_lower(#[trigger] name[i])
        || is_digit(name[i]) by {
        if i > 0 {
            assert('a' <= name[i] <= 'z' || '0' <= name[i] <= '9');
        }
    }
    if name.len() >= 2 {
        three_underscores(name);
        if has_three(name) {
            let i = choose|i: int| three_at(name, i);
            assert(is_lower(name[i]) || is_digit(name[i]));
        }
        let last = name.len() - 1;
        assert(is_lower(name[last]) || is_digit(name[last]));
    }
}

/// A name for a 'mod' is plain, and not that of a subsystem with a directory; a name for a plugin of another
/// type has no capital letter, no punctuation but underscores, no digit or underscore first and no
/// underscore last. 'qtype_random' is none.
pub proof fn other_names_are_none(
    plugin_type: Seq<char>,
    name: Seq<char>,
    subsystems: Map<Seq<char>, Option<String>>,
)
    requires
        valid_plugin_name(plugin_type, name, subsystems),
    ensures
        plugin_type == "mod"@ ==> is_plain_name(name) && !(subsystems.contains_key(name) && subsystems[name] is Some),
        plugin_type != "mod"@ ==> name.len() >= 2 && is_name_text(name) && 'a' <= name[0] <= 'z' && name.last() != '_',
        plugin_type == "qtype"@ ==> name != "random"@,
{
    reveal_strlit("mod");
    reveal_strlit("qtype");
    assert("mod"@.len() == 3 && "qtype"@.len() == 5);
    assert forall|i: int| 0 <= i < name.len() implies 'a' <= (#[trigger] name[i]) <= 'z' || '0' <= name[i] <= '9'
        || name[i] == '_' && plugin_type != "mod"@ by {
        assert(is_lower(name[i]) || is_digit(name[i]) || name[i]
            == '_');
    }
}

/// The directory names that are never plugins.
pub open spec fn never_a_plugin() -> Seq<Seq<char>> {
    seq![
        "CVS"@,
        "_vti_cnf"@,
        "amd"@,
        "classes"@,
        "db"@,
        "fonts"@,
        "lang"@,
        "pix"@,
        "simpletest"@,
        "templates"@,
        "tests"@,
        "yui"@,
    ]
}

proof fn never_a_plugin_is(name: Seq<char>)
    ensures
        never_a_plugin().contains(name) <==> is_ignored_dir(name),
{
    let all = never_a_plugin();
    assert(all[0] == "CVS"@ && all[1] == "_vti_cnf"@ && all[2] == "amd"@ && all[3] == "classes"@ && all[4] == "db"@);
    assert(all[5] == "fonts"@ && all[6] == "lang"@ && all[7] == "pix"@ && all[8] == "simpletest"@);
    assert(all[9] == "templates"@ && all[10] == "tests"@ && all[11] == "yui"@);
    if all.contains(name) {
        let i = choose|i: int| 0 <= i < all.len() && all[i] == name;
    }
}

/// Every directory in the root directory of a declared plugin type is a component, if its name is plain, of
/// two characters or more, and not one of those that are never plugins. Its directory lies in that root
/// directory.
pub proof fn plainly_named_directories_are_components(
    json: &ComponentsJson,
    prefix: Seq<char>,
    found: Found,
    plugin_type: Seq<char>,
    name: Seq<char>,
)
    requires
        json.valid(),
        declared_types(json).contains_key(plugin_type),
        listed_in(found.listings, declared_types(json)[plugin_type]).contains(name),
        is_plain_name(name),
        name.len() >= 2,
        !never_a_plugin().contains(name) || plugin_type == "auth"@ && name == "db"@,
        plugin_type == "mod"@ ==> !found.subsystems.contains_key(name),
        !(plugin_type == "qtype"@ && name == "random"@),
    ensures
        all_components(json, prefix, found).contains_key(plugin_type + "_"@ + name),
        plugins_of(found, plugin_type, declared_types(json)[plugin_type]).contains_key(name),
        plugins_of(found, plugin_type, declared_types(json)[plugin_type])[name] == declared_types(json)[plugin_type]
            + "/"@ + name,
{
    plain_names_are_names_of_plugins(plugin_type, name, found.subsystems);
    never_a_plugin_is(name);
    every_plugin_is_a_component(json, prefix, found, plugin_type, name);
    assert(frankenstyle(plugin_type, name) == plugin_type + "_"@ + name);
}

/// The same holds of the root directory of a subplugin type.
pub proof fn plainly_named_subplugins_are_components(
    json: &ComponentsJson,
    prefix: Seq<char>,
    found: Found,
    plugin_type: Seq<char>,
    name: Seq<char>,
)
    requires
        json.valid(),
        subplugin_type_locations(json, found).contains_key(plugin_type),
        listed_in(found.listings, subplugin_type_locations(json, found)[plugin_type]).contains(name),
        is_plain_name(name),
        name.len() >= 2,
        !never_a_plugin().contains(name) || plugin_type == "auth"@ && name == "db"@,
        plugin_type == "mod"@ ==> !found.subsystems.contains_key(name),
        !(plugin_type == "qtype"@ && name == "random"@),
    ensures
        all_components(json, prefix, found).contains_key(plugin_type + "_"@ + name),
{
    plain_names_are_names_of_plugins(plugin_type, name, found.subsystems);
    never_a_plugin_is(name);
    every_plugin_is_a_component(json, prefix, found, plugin_type, name);
    assert(frankenstyle(plugin_type, name) == plugin_type + "_"@ + name);
}

/// A directory with one of the names that are never plugins is none, whatever the type; 'auth_db' is.
pub proof fn reserved_directories_are_no_plugins(found: Found, plugin_type: Seq<char>, dir: Seq<char>, name: Seq<char>)
    requires
        plugins_of(found, plugin_type, dir).contains_key(name),
    ensures
        never_a_plugin().contains(name) ==> plugin_type == "auth"@ && name == "db"@,
        listed_in(found.listings, dir).contains(name),
        plugins_of(found, plugin_type, dir)[name] == dir + "/"@ + name,
{
    never_a_plugin_is(name);
}

// ---------------------------------------------------------------------------------------------
// What a codebase declares.

/// A plugin type lies where it is declared; one that is declared more than once, where it is said to be
/// deleted, else where it is said to be deprecated.
pub proof fn plugin_types_lie_where_they_are_declared(json: &ComponentsJson, plugin_type: Seq<char>)
    ensures
        declared_types(json).contains_key(plugin_type) <==> json.plugintypes@.contains_key(plugin_type)
            || json.deprecatedplugintypes@.contains_key(plugin_type) || json.deletedplugintypes@.contains_key(
            plugin_type,
        ),
        json.deletedplugintypes@.contains_key(plugin_type) ==> declared_types(json)[plugin_type]
            == json.deletedplugintypes@[plugin_type]@,
        json.deprecatedplugintypes@.contains_key(plugin_type) && !json.deletedplugintypes@.contains_key(plugin_type)
            ==> declared_types(json)[plugin_type] == json.deprecatedplugintypes@[plugin_type]@,
        json.plugintypes@.contains_key(plugin_type) && !json.deprecatedplugintypes@.contains_key(plugin_type)
            && !json.deletedplugintypes@.contains_key(plugin_type) ==> declared_types(json)[plugin_type]
            == json.plugintypes@[plugin_type]@,
{
}

/// A subplugin type lies in the directory of the plugin that declares it, unless the plugin declares it in
/// the older form alone: then it lies in dirroot, whether or not the declaration says so.
pub proof fn subplugin_types_lie_where_they_are_declared(
    plugin_dir: Seq<char>,
    json: SubpluginsJson,
    subtype: Seq<char>,
)
    requires
        subplugin_locations(plugin_dir, json).contains_key(subtype),
        json.subplugintypes.valid(),
    ensures
        ({
            let location = subplugin_locations(plugin_dir, json)[subtype];
            let newer = json.subplugintypes@;
            let older = json.plugintypes@;
            &&& newer.contains_key(subtype) ==> location == plugin_dir + "/"@ + newer[subtype]@
            &&& !newer.contains_key(subtype) ==> older.contains_key(subtype) && newer.dom() =~= Set::empty()
            &&& !newer.contains_key(subtype) ==> "public/"@.is_prefix_of(location) && (location == older[subtype]@
                || location == "public/"@ + older[subtype]@ && !"public/"@.is_prefix_of(older[subtype]@))
        }),
{
    if json.subplugintypes.spec_keys().len() == 0 {
        assert(json.subplugintypes@.dom() =~= Set::empty());
        let location = subplugin_locations(plugin_dir, json)[subtype];
        if !"public/"@.is_prefix_of(json.plugintypes@[subtype]@) {
            assert(location.subrange(0, "public/"@.len() as int) =~= "public/"@);
        }
    }
}

/// Every subsystem is a component of core, with the directory it is declared with, or without one.
pub proof fn subsystems_are_components_of_core(
    json: &ComponentsJson,
    prefix: Seq<char>,
    found: Found,
    subsystem: Seq<char>,
)
    requires
        json.subsystems@.contains_key(subsystem),
    ensures
        all_components(json, prefix, found).contains_key("core_"@ + subsystem),
        core_components(prefix, json.subsystems@)["core_"@ + subsystem] == match json.subsystems@[subsystem] {
            Some(path) => path@,
            None => ""@,
        },
{
    reveal_strlit("core");
    reveal_strlit("_");
    reveal_strlit("core_");
    reveal_strlit("");
    assert("core_"@ =~= "core"@ + "_"@);
    let component = "core_"@ + subsystem;
    let core = core_components(prefix, json.subsystems@);
    assert(component == frankenstyle("core"@, subsystem));
    assert(core.contains_key(component));
    assert(component.skip(("core"@.len() + 1) as int) =~= subsystem);
    assert(component.len() > 4);
    assert(""@ =~= Seq::<char>::empty());
    let types = declared_types(json);
    let subtypes = subplugin_type_locations(json, found);
    let plugins = with_plugins(found, core, types, in_order(types.dom()));
    components_stay(found, core, types, in_order(types.dom()), component);
    components_stay(found, plugins, subtypes, in_order(subtypes.dom()), component);
}

/// The directories that are plugins of a type can be listed in order.
proof fn plugins_are_listed(found: Found, plugin_type: Seq<char>, dir: Seq<char>)
    ensures
        lists(in_order(plugins_of(found, plugin_type, dir).dom()), plugins_of(found, plugin_type, dir).dom()),
{
    let names = listed_in(found.listings, dir);
    let all = plugins_of(found, plugin_type, dir).dom();
    some_of_a_list_are_listable(names, all);
}

proof fn some_of_a_list_are_listable(names: Seq<Seq<char>>, some: Set<Seq<char>>)
    requires
        forall|name: Seq<char>| #[trigger] some.contains(name) ==> names.contains(name),
    ensures
        listable(some),
    decreases names.len(),
{
    if names.len() == 0 {
        assert(lists(Seq::empty(), some));
    } else {
        let rest = names.drop_last();
        let less = some.remove(names.last());
        assert forall|name: Seq<char>| #[trigger] less.contains(name) implies rest.contains(name) by {
            assert(some.contains(name));
            let i = choose|i: int| 0 <= i < names.len() && names[i] == name;
            assert(rest[i] == name);
        }
        some_of_a_list_are_listable(rest, less);
        if some.contains(names.last()) {
            listable_with(less, names.last());
            assert(less.insert(names.last()) =~= some);
        } else {
            assert(less =~= some);
        }
    }
}

/// Every subplugin type that an activity module, an editor, a tool or a local plugin declares is heard of,
/// with the location that it declares and as the declaration of that plugin.
pub proof fn declarations_are_heard(
    json: &ComponentsJson,
    found: Found,
    plugin_type: Seq<char>,
    name: Seq<char>,
    subtype: Seq<char>,
)
    requires
        json.valid(),
        plugin_type == "mod"@ || plugin_type == "editor"@ || plugin_type == "tool"@ || plugin_type == "local"@,
        declared_types(json).contains_key(plugin_type),
        plugins_of(found, plugin_type, declared_types(json)[plugin_type]).contains_key(name),
        ({
            let dir = declared_types(json)[plugin_type] + "/"@ + name;
            &&& found.subplugins.contains_key(dir)
            &&& found.subplugins[dir].subplugintypes.valid()
            &&& found.subplugins[dir].plugintypes.valid()
            &&& subplugin_locations(dir, found.subplugins[dir]).contains_key(subtype)
        }),
    ensures
        ({
            let dir = declared_types(json)[plugin_type] + "/"@ + name;
            all_declarations(json, found).contains(
                Declaration {
                    subtype,
                    dir: subplugin_locations(dir, found.subplugins[dir])[subtype],
                    by: plugin_type + "_"@ + name,
                },
            )
        }),
{
    let types = declared_types(json);
    let dir = types[plugin_type] + "/"@ + name;
    let plugins = plugins_of(found, plugin_type, types[plugin_type]);
    let subtypes = subplugins_at(found, dir);
    let by = frankenstyle(plugin_type, name);
    let own = Declaration { subtype, dir: subtypes[subtype], by };
    types_are_listed(json, found);
    plugins_are_listed(found, plugin_type, types[plugin_type]);
    let declared = found.subplugins[dir];
    if declared.subplugintypes.spec_keys().len() > 0 {
        assert(subtypes.dom() =~= declared.subplugintypes@.dom());
        declared.subplugintypes.keys_are_in_order();
    } else {
        assert(subtypes.dom() =~= declared.plugintypes@.dom());
        declared.plugintypes.keys_are_in_order();
    }
    let keys = in_order(subtypes.dom());
    assert(keys.contains(subtype));
    let k = choose|k: int| 0 <= k < keys.len() && keys[k] == subtype;
    assert(plugin_declarations(subtypes, by)[k] == own);
    assert(plugin_declarations(subtypes, by).contains(own));
    let names = in_order(plugins.dom());
    assert(names.contains(name));
    declared_among_the_plugins(found, plugin_type, plugins, names, name, own);
    let all = in_order(types.dom());
    assert(all.contains(plugin_type));
    declared_among_the_types(found, types, all, plugin_type, own);
}

proof fn declared_among_the_plugins(
    found: Found,
    plugin_type: Seq<char>,
    plugins: Locations,
    names: Seq<Seq<char>>,
    name: Seq<char>,
    own: Declaration,
)
    requires
        names.contains(name),
        plugin_declarations(subplugins_at(found, plugins[name]), frankenstyle(plugin_type, name)).contains(own),
    ensures
        type_declarations(found, plugin_type, plugins, names).contains(own),
    decreases names.len(),
{
    let before = type_declarations(found, plugin_type, plugins, names.drop_last());
    let last = plugin_declarations(
        subplugins_at(found, plugins[names.last()]),
        frankenstyle(plugin_type, names.last()),
    );
    let all = type_declarations(found, plugin_type, plugins, names);
    assert(all == before + last);
    if names.last() == name {
        let k = choose|k: int| 0 <= k < last.len() && last[k] == own;
        assert(all[before.len() + k] == own);
    } else {
        let i = choose|i: int| 0 <= i < names.len() && names[i] == name;
        assert(names.drop_last()[i] == name);
        declared_among_the_plugins(found, plugin_type, plugins, names.drop_last(), name, own);
        let k = choose|k: int| 0 <= k < before.len() && before[k] == own;
        assert(all[k] == own);
    }
}

proof fn declared_among_the_types(
    found: Found,
    types: Locations,
    names: Seq<Seq<char>>,
    plugin_type: Seq<char>,
    own: Declaration,
)
    requires
        names.contains(plugin_type),
        has_subplugins(plugin_type),
        ({
            let plugins = plugins_of(found, plugin_type, types[plugin_type]);
            type_declarations(found, plugin_type, plugins, in_order(plugins.dom())).contains(own)
        }),
    ensures
        declarations(found, types, names).contains(own),
    decreases names.len(),
{
    let before = declarations(found, types, names.drop_last());
    let all = declarations(found, types, names);
    if names.last() == plugin_type {
        let plugins = plugins_of(found, plugin_type, types[plugin_type]);
        let last = type_declarations(found, plugin_type, plugins, in_order(plugins.dom()));
        let k = choose|k: int| 0 <= k < last.len() && last[k] == own;
        assert(all[before.len() + k] == own);
    } else {
        let i = choose|i: int| 0 <= i < names.len() && names[i] == plugin_type;
        assert(names.drop_last()[i] == plugin_type);
        declared_among_the_types(found, types, names.drop_last(), plugin_type, own);
        let k = choose|k: int| 0 <= k < before.len() && before[k] == own;
        assert(all[k] == own);
    }
}

/// Nothing is heard of a subplugin type from a plugin of any other type.
pub proof fn other_plugins_declare_nothing(json: &ComponentsJson, found: Found, k: int)
    requires
        0 <= k < all_declarations(json, found).len(),
    ensures
        ({
            let by = all_declarations(json, found)[k].by;
            "mod_"@.is_prefix_of(by) || "editor_"@.is_prefix_of(by) || "tool_"@.is_prefix_of(by)
                || "local_"@.is_prefix_of(by)
        }),
{
    declared_by_one_of_four(found, declared_types(json), in_order(declared_types(json).dom()), k);
}

proof fn declared_by_one_of_four(found: Found, types: Locations, names: Seq<Seq<char>>, k: int)
    requires
        0 <= k < declarations(found, types, names).len(),
    ensures
        ({
            let by = declarations(found, types, names)[k].by;
            "mod_"@.is_prefix_of(by) || "editor_"@.is_prefix_of(by) || "tool_"@.is_prefix_of(by)
                || "local_"@.is_prefix_of(by)
        }),
    decreases names.len(),
{
    let before = declarations(found, types, names.drop_last());
    if k < before.len() {
        declared_by_one_of_four(found, types, names.drop_last(), k);
    } else {
        let plugin_type = names.last();
        let plugins = plugins_of(found, plugin_type, types[plugin_type]);
        declared_by_the_type(found, plugin_type, plugins, in_order(plugins.dom()), k - before.len());
        reveal_strlit("_");
        reveal_strlit("mod");
        reveal_strlit("mod_");
        reveal_strlit("editor");
        reveal_strlit("editor_");
        reveal_strlit("tool");
        reveal_strlit("tool_");
        reveal_strlit("local");
        reveal_strlit("local_");
        assert("mod"@ + "_"@ =~= "mod_"@);
        assert("editor"@ + "_"@ =~= "editor_"@);
        assert("tool"@ + "_"@ =~= "tool_"@);
        assert("local"@ + "_"@ =~= "local_"@);
    }
}

proof fn declared_by_the_type(
    found: Found,
    plugin_type: Seq<char>,
    plugins: Locations,
    names: Seq<Seq<char>>,
    k: int,
)
    requires
        0 <= k < type_declarations(found, plugin_type, plugins, names).len(),
    ensures
        (plugin_type + "_"@).is_prefix_of(type_declarations(found, plugin_type, plugins, names)[k].by),
    decreases names.len(),
{
    let before = type_declarations(found, plugin_type, plugins, names.drop_last());
    if k < before.len() {
        declared_by_the_type(found, plugin_type, plugins, names.drop_last(), k);
    } else {
        let by = frankenstyle(plugin_type, names.last());
        assert(by.subrange(0, (plugin_type + "_"@).len() as int) =~= plugin_type + "_"@);
    }
}

// ---------------------------------------------------------------------------------------------
// The graph.

/// Whether `parent` is one of the four statements that run a file.
pub open spec fn runs_its_target(parent: Option<Seq<char>>) -> bool {
    parent == Some("require"@) || parent == Some("require_once"@) || parent == Some("include"@) || parent == Some(
        "include_once"@,
    )
}

/// Every reference of a file that is the value of a require or include is a statement of the file, to the
/// path it stands for, on its line and within its scope; and there are no other statements.
pub proof fn statements_are_the_required_references(files: ScannedFiles, name: Seq<char>, edge: EdgeView)
    ensures
        edges_of(files, name).contains(edge) <==> exists|i: int, k: int|
            #![trigger files[i].1@[k]]
            {
                &&& 0 <= i < files.len() && files[i].0@ == name
                &&& 0 <= k < files[i].1@.len()
                &&& runs_its_target(files[i].1@[k]@.parent)
                &&& edge.target == files[i].1@[k]@.real_path
                &&& edge.line == files[i].1@[k]@.line
                &&& edge.scope_end_line == files[i].1@[k]@.scope_end_line
            },
    decreases files.len(),
{
    if files.len() > 0 {
        let front = files.drop_last();
        let last = files.len() - 1;
        let before = edges_of(front, name);
        let all = edges_of(files, name);
        let own = file_edges(files[last].1@);
        statements_are_the_required_references(front, name, edge);
        statements_of_one_file(files[last].1@, edge);
        if all.contains(edge) {
            let j = choose|j: int| 0 <= j < all.len() && all[j] == edge;
            if j < before.len() {
                assert(before[j] == edge);
                let (i, k) = choose|i: int, k: int|
                    #![trigger front[i].1@[k]]
                    {
                        &&& 0 <= i < front.len() && front[i].0@ == name
                        &&& 0 <= k < front[i].1@.len()
                        &&& runs_its_target(front[i].1@[k]@.parent)
                        &&& edge.target == front[i].1@[k]@.real_path
                        &&& edge.line == front[i].1@[k]@.line
                        &&& edge.scope_end_line == front[i].1@[k]@.scope_end_line
                    };
                assert(files[i].1@[k] == front[i].1@[k]);
            } else {
                assert(own[j - before.len()] == edge);
                let k = choose|k: int|
                    0 <= k < files[last].1@.len() && is_statement(#[trigger] files[last].1@[k]@, edge);
                assert(runs_its_target(files[last].1@[k]@.parent));
            }
        }
        if exists|i: int, k: int|
            #![trigger files[i].1@[k]]
            {
                &&& 0 <= i < files.len() && files[i].0@ == name
                &&& 0 <= k < files[i].1@.len()
                &&& runs_its_target(files[i].1@[k]@.parent)
                &&& edge.target == files[i].1@[k]@.real_path
                &&& edge.line == files[i].1@[k]@.line
                &&& edge.scope_end_line == files[i].1@[k]@.scope_end_line
            } {
            let (i, k) = choose|i: int, k: int|
                #![trigger files[i].1@[k]]
                {
                    &&& 0 <= i < files.len() && files[i].0@ == name
                    &&& 0 <= k < files[i].1@.len()
                    &&& runs_its_target(files[i].1@[k]@.parent)
                    &&& edge.target == files[i].1@[k]@.real_path
                    &&& edge.line == files[i].1@[k]@.line
                    &&& edge.scope_end_line == files[i].1@[k]@.scope_end_line
                };
            if i < last {
                assert(front[i].1@[k] == files[i].1@[k]);
                assert(front[i].0@ == name);
                let j = choose|j: int| 0 <= j < before.len() && before[j] == edge;
                assert(all[j] == edge);
            } else {
                assert(is_statement(files[last].1@[k]@, edge));
                let j = choose|j: int| 0 <= j < own.len() && own[j] == edge;
                assert(all[before.len() + j] == edge);
            }
        }
    }
}

/// Whether a reference is a statement that runs its target, and `edge` says so.
pub open spec fn is_statement(result: PathView, edge: EdgeView) -> bool {
    runs_its_target(result.parent) && edge.target == result.real_path && edge.line == result.line
        && edge.scope_end_line == result.scope_end_line
}

proof fn statements_of_one_file(results: Seq<PathResult>, edge: EdgeView)
    ensures
        file_edges(results).contains(edge) <==> exists|k: int|
            0 <= k < results.len() && is_statement(#[trigger] results[k]@, edge),
    decreases results.len(),
{
    if results.len() > 0 {
        let front = results.drop_last();
        let last = results.len() - 1;
        let before = file_edges(front);
        let all = file_edges(results);
        statements_of_one_file(front, edge);
        if all.contains(edge) {
            let j = choose|j: int| 0 <= j < all.len() && all[j] == edge;
            if j < before.len() {
                assert(before[j] == edge);
                let k = choose|k: int| 0 <= k < front.len() && is_statement(#[trigger] front[k]@, edge);
                assert(is_statement(results[k]@, edge));
            } else {
                assert(is_statement(results[last]@, edge));
            }
        }
        if exists|k: int| 0 <= k < results.len() && is_statement(#[trigger] results[k]@, edge) {
            let k = choose|k: int| 0 <= k < results.len() && is_statement(#[trigger] results[k]@, edge);
            if k < last {
                assert(is_statement(front[k]@, edge));
                let j = choose|j: int| 0 <= j < before.len() && before[j] == edge;
                assert(all[j] == edge);
            } else {
                assert(all.last() == edge);
            }
        }
    }
}

/// The boundary of a file is where its statements lead to something that reaches component.php: each such
/// statement counts, with its line and scope, and no other.
pub proof fn the_boundary_is_where_chains_begin(
    files: ScannedFiles,
    segment: Seq<char>,
    name: Seq<char>,
    edge: BoundaryEdge,
)
    ensures
        boundary_edges(files, segment, name).contains(edge) <==> exists|k: int|
            #![trigger edges_of(files, name)[k]]
            0 <= k < edges_of(files, name).len() && reaches_boundary(files, segment, edges_of(files, name)[k].target)
                && edges_of(files, name)[k].line == edge.line && edges_of(files, name)[k].scope_end_line
                == edge.reach_end,
{
    chains_begin_at(files, segment, edges_of(files, name), edge);
}

proof fn chains_begin_at(files: ScannedFiles, segment: Seq<char>, edges: Seq<EdgeView>, edge: BoundaryEdge)
    ensures
        edges_to_boundary(files, segment, edges).contains(edge) <==> exists|k: int|
            0 <= k < edges.len() && begins_at(files, segment, #[trigger] edges[k], edge),
    decreases edges.len(),
{
    if edges.len() > 0 {
        let front = edges.drop_last();
        let last = edges.len() - 1;
        let before = edges_to_boundary(files, segment, front);
        let all = edges_to_boundary(files, segment, edges);
        chains_begin_at(files, segment, front, edge);
        if all.contains(edge) {
            let j = choose|j: int| 0 <= j < all.len() && all[j] == edge;
            if j < before.len() {
                assert(before[j] == edge);
                let k = choose|k: int| 0 <= k < front.len() && begins_at(files, segment, #[trigger] front[k], edge);
                assert(begins_at(files, segment, edges[k], edge));
            } else {
                assert(begins_at(files, segment, edges[last], edge));
            }
        }
        if exists|k: int| 0 <= k < edges.len() && begins_at(files, segment, #[trigger] edges[k], edge) {
            let k = choose|k: int| 0 <= k < edges.len() && begins_at(files, segment, #[trigger] edges[k], edge);
            if k < last {
                assert(begins_at(files, segment, front[k], edge));
                let j = choose|j: int| 0 <= j < before.len() && before[j] == edge;
                assert(all[j] == edge);
            } else {
                assert(all.last() == edge);
            }
        }
    }
}

/// Whether a statement leads to something that reaches the boundary, and `edge` says where.
pub open spec fn begins_at(files: ScannedFiles, segment: Seq<char>, statement: EdgeView, edge: BoundaryEdge) -> bool {
    reaches_boundary(files, segment, statement.target) && statement.line == edge.line && statement.scope_end_line
        == edge.reach_end
}

/// What a file with a boundary runs no later than at any line of it, and what does not reach the boundary,
/// runs as a whole before the boundary.
pub proof fn what_runs_before_the_boundary_is_whole(
    files: ScannedFiles,
    segment: Seq<char>,
    name: Seq<char>,
    k: int,
)
    requires
        extent_of(files, segment, name) matches Some(ExtentView::UpToLine(_)),
        0 <= k < edges_of(files, name).len(),
        forall|j: int|
            0 <= j < boundary_edges(files, segment, name).len() ==> edges_of(files, name)[k].line <= (
            #[trigger] boundary_edges(files, segment, name)[j]).line,
        is_file(files, edges_of(files, name)[k].target),
        !reaches_boundary(files, segment, edges_of(files, name)[k].target),
    ensures
        extent_of(files, segment, edges_of(files, name)[k].target) == Some(ExtentView::WholeFile),
{
    let target = edges_of(files, name)[k].target;
    earliest_is_one(boundary_edges(files, segment, name));
    assert(pulls_in(files, segment, name, target));
    starts_are_reached(
        |a: Seq<char>| exists|seed: Seq<char>| #[trigger] pulls_in(files, segment, seed, a),
        |a: Seq<char>, b: Seq<char>| leads_to(edges_of(files, a), b),
        |a: Seq<char>| reaches_boundary(files, segment, a),
        target,
    );
}

proof fn earliest_is_one(edges: Seq<BoundaryEdge>)
    requires
        edges.len() > 0,
    ensures
        exists|i: int| 0 <= i < edges.len() && (#[trigger] edges[i]).line <= earliest(edges),
    decreases edges.len(),
{
    reveal_with_fuel(earliest, 2);
    let last = edges.len() - 1;
    if edges.len() == 1 {
        assert(edges[last].line <= earliest(edges));
    } else {
        let front = edges.drop_last();
        earliest_is_one(front);
        let i = choose|i: int| 0 <= i < front.len() && (#[trigger] front[i]).line <= earliest(front);
        if edges[last].line < earliest(front) {
            assert(edges[last].line <= earliest(edges));
        } else {
            assert(edges[i].line <= earliest(edges));
        }
    }
}

/// A line runs before `core\component` exists unless it comes behind some boundary line and, where that is
/// in a branch, no later than the end of the branch.
pub proof fn lines_before_the_boundary(edges: Seq<BoundaryEdge>, line: u32)
    ensures
        ExtentView::WholeFile.holds(line),
        ExtentView::UpToLine(edges).holds(line) <==> forall|i: int|
            0 <= i < edges.len() ==> line <= (#[trigger] edges[i]).line || (edges[i].reach_end is Some && line
                > edges[i].reach_end->0),
{
    if ExtentView::UpToLine(edges).holds(line) {
        assert forall|i: int| 0 <= i < edges.len() implies line <= (#[trigger] edges[i]).line || (edges[i].reach_end
            is Some && line > edges[i].reach_end->0) by {
            assert(!edges[i].reaches(line));
        }
    }
}

/// Places in dirroot are told from the repository root, without a slash in front.
pub proof fn places_in_dirroot(dirroot: Seq<char>, suffix: Seq<char>)
    requires
        dirroot.len() > 0 && dirroot[0] != '/',
        suffix.len() > 0 && suffix[0] != '/',
    ensures
        in_dirroot("/"@ + dirroot, suffix) == dirroot + "/"@ + suffix,
        in_dirroot(""@, suffix) == suffix,
{
    reveal_strlit("/");
    reveal_strlit("");
    let whole = "/"@ + dirroot + "/"@ + suffix;
    let rest = dirroot + "/"@ + suffix;
    assert(whole[0] == '/');
    assert(whole.drop_first() =~= rest);
    assert(trim_start(rest, '/') == rest);
    let short = ""@ + "/"@ + suffix;
    assert(short[0] == '/');
    assert(short.drop_first() =~= suffix);
    assert(trim_start(suffix, '/') == suffix);
}

/// A list of entry points is read line by line: a line with nothing but white space and one whose first
/// other character is '#' say nothing, and any other is a path in dirroot, without the white space around it.
pub proof fn entry_points_are_listed_line_by_line(
    lines: Seq<Seq<char>>,
    before: Seq<char>,
    path: Seq<char>,
    after: Seq<char>,
    segment: Seq<char>,
)
    requires
        forall|i: int| 0 <= i < before.len() ==> is_white(#[trigger] before[i]),
        forall|i: int| 0 <= i < after.len() ==> is_white(#[trigger] after[i]),
        path.len() > 0 ==> !is_white(path[0]) && !is_white(path.last()),
    ensures
        path.len() == 0 || path[0] == '#' ==> listed_entry_points(lines.push(before + path + after), segment)
            == listed_entry_points(lines, segment),
        path.len() > 0 && path[0] != '#' ==> listed_entry_points(lines.push(before + path + after), segment)
            == listed_entry_points(lines, segment).push(in_dirroot(segment, path)),
        listed_entry_points(Seq::empty(), segment).len() == 0,
{
    trimmed_takes_the_white_space(before, path, after);
    assert(lines.push(before + path + after).drop_last() =~= lines);
}

// ---------------------------------------------------------------------------------------------
// Categories.

/// Whether a reference is to nothing that is known by its place: not in `core\component`'s own files, not to
/// config.php, not before the boundary and not found along the include path.
pub open spec fn is_late(result: PathView, extent: Option<ExtentView>, places: Places) -> bool {
    &&& !places.config_locations.contains(result.real_path)
    &&& extent is None || !(extent->0).holds(result.line)
    &&& result.kind != PathKind::RequireLiteral
}

/// The root directory of a plugin type is told from what is in it, whatever it resolves to, with a slash
/// behind it or without.
pub proof fn roots_of_plugin_types_are_categorised(
    result: PathView,
    extent: Option<ExtentView>,
    places: Places,
    source_component: Option<Seq<char>>,
    target: Option<ResolutionView>,
    root: Seq<char>,
)
    requires
        is_late(result, extent, places),
        places.plugin_type_roots.contains(root),
        result.real_path == root || result.real_path == root + "/"@,
    ensures
        category_in(false, result, extent, places, source_component, target) == PathCategory::PluginTypeRoot,
{
    reveal_strlit("/");
    if result.real_path == root + "/"@ {
        assert(result.real_path.drop_last() =~= root);
    }
}

/// Dirroot and the repository root, each with one separator behind it or without, are told from the files in
/// them wherever they are not a component's directory.
pub proof fn roots_are_categorised(
    result: PathView,
    extent: Option<ExtentView>,
    places: Places,
    source_component: Option<Seq<char>>,
    target: Option<ResolutionView>,
)
    requires
        is_late(result, extent, places),
        !places.plugin_type_roots.contains(result.real_path),
        !places.plugin_type_roots.contains(result.real_path.drop_last()),
        target is Some ==> target->0.component == "root"@,
    ensures
        ({
            let category = category_in(false, result, extent, places, source_component, target);
            let path = result.real_path;
            let dirroot = places.dirroot;
            &&& path == dirroot || path == dirroot + "/"@ || path == dirroot + "\\"@ ==> category
                == PathCategory::DirrootWrangling
            &&& dirroot.len() > 0 && dirroot[0] != '/' && dirroot[0] != '\\' && (path == ""@ || path == "/"@ || path
                == "\\"@) ==> category == PathCategory::RootWrangling
        }),
{
    reveal_strlit("/");
    reveal_strlit("");
    reveal_strlit("\\");
    reveal_strlit("root");
    let path = result.real_path;
    let dirroot = places.dirroot;
    assert(!"root"@.contains('{'));
    assert(dirroot + "/"@ =~= dirroot.push('/'));
    assert(dirroot + "\\"@ =~= dirroot.push('\\'));
    let nothing = Seq::<char>::empty();
    split_without_separator(nothing, '/');
    split_around_separator(nothing, nothing, '/');
    if path == ""@ {
        assert(path =~= nothing);
        assert(only_slashes(path));
    }
    if path == "/"@ {
        assert(path =~= nothing + seq!['/'] + nothing);
        assert(split(path, '/') =~= seq![nothing, nothing]);
        assert(only_slashes(path));
    }
    if path == "\\"@ {
        assert(path =~= seq!['\\']);
    }
    if dirroot.len() > 0 && dirroot[0] != '/' && dirroot[0] != '\\' && path.len() > 0 {
        assert(dirroot.push('/')[0] == dirroot[0]);
        assert(dirroot.push('\\')[0] == dirroot[0]);
    }
}

/// A reference that resolves to a component is static, in the same component exactly if its file is in that
/// one; unless the component's name holds something that is only known when the code runs.
pub proof fn resolved_references_are_categorised(
    result: PathView,
    extent: Option<ExtentView>,
    places: Places,
    source_component: Option<Seq<char>>,
    component: Seq<char>,
    path_in_component: Seq<char>,
)
    requires
        is_late(result, extent, places),
        !places.plugin_type_roots.contains(result.real_path),
        !places.plugin_type_roots.contains(result.real_path.drop_last()),
        component != "root"@,
    ensures
        category_in(
            false,
            result,
            extent,
            places,
            source_component,
            Some(ResolutionView { component, path_in_component }),
        ) == (if component.contains('{') {
            PathCategory::DynamicComponent
        } else if source_component is Some && source_component->0 == component {
            PathCategory::StaticSameComponent
        } else {
            PathCategory::StaticDifferentComponent
        }),
{
}

/// A reference that does not resolve and is to neither root depends on what is only known when the code runs,
/// if it holds a marker for that, no backslash, and no way up.
pub proof fn other_references_are_categorised(
    result: PathView,
    extent: Option<ExtentView>,
    places: Places,
    source_component: Option<Seq<char>>,
)
    requires
        is_late(result, extent, places),
        !places.plugin_type_roots.contains(result.real_path),
        !places.plugin_type_roots.contains(result.real_path.drop_last()),
        result.real_path.len() > 0,
        result.real_path[0] != '/',
        result.real_path != "\\"@,
        result.real_path != places.dirroot,
        result.real_path != places.dirroot + "/"@,
        result.real_path != places.dirroot + "\\"@,
    ensures
        category_in(false, result, extent, places, source_component, None) == (if result.real_path.contains('{')
            && !result.real_path.contains('\\') && !split(result.real_path, '/').contains(".."@) {
            PathCategory::VariableOnly
        } else {
            PathCategory::Uncategorised
        }),
{
    reveal_strlit("/");
    reveal_strlit("\\");
    let path = result.real_path;
    let dirroot = places.dirroot;
    assert(dirroot + "/"@ =~= dirroot.push('/'));
    assert(dirroot + "\\"@ =~= dirroot.push('\\'));
    assert("\\"@ =~= seq!['\\']);
    if only_slashes(path) {
        first_piece_is_not_empty(path);
    }
}

proof fn first_piece_is_not_empty(path: Seq<char>)
    requires
        path.len() > 0,
        path[0] != '/',
    ensures
        split(path, '/').len() > 0,
        split(path, '/')[0].len() > 0,
    decreases path.len(),
{
    if path.len() > 1 {
        first_piece_is_not_empty(path.drop_last());
    } else {
        assert(path.drop_last() =~= Seq::<char>::empty());
        split_without_separator(path.drop_last(), '/');
    }
}

/// A bare literal that starts with 'HTML/' or 'PEAR/' inside its quotes is found along the include path,
/// even before the boundary; any other is before the boundary or behind it, by its line.
pub proof fn literals_are_categorised(
    result: PathView,
    extent: Option<ExtentView>,
    places: Places,
    source_component: Option<Seq<char>>,
    target: Option<ResolutionView>,
    quote: char,
    rest: Seq<char>,
)
    requires
        result.kind == PathKind::RequireLiteral,
        !places.config_locations.contains(result.real_path),
        quote == '"' || quote == '\'',
        result.code == seq![quote] + rest || result.code == seq!['b', quote] + rest,
    ensures
        "HTML/"@.is_prefix_of(rest) || "PEAR/"@.is_prefix_of(rest) ==> category_in(
            false,
            result,
            extent,
            places,
            source_component,
            target,
        ) == PathCategory::IncludePathRelative,
        !"HTML/"@.is_prefix_of(rest) && !"PEAR/"@.is_prefix_of(rest) && extent is Some && (extent->0).holds(
            result.line,
        ) ==> category_in(false, result, extent, places, source_component, target)
            == PathCategory::PreComponentLiteral,
        !"HTML/"@.is_prefix_of(rest) && !"PEAR/"@.is_prefix_of(rest) ==> category_in(
            false,
            result,
            extent,
            places,
            source_component,
            target,
        ) != PathCategory::IncludePathRelative,
{
    let quoted = without_prefix(result.code);
    if result.code == seq!['b', quote] + rest {
        assert(quoted =~= seq![quote] + rest);
    }
    assert(quoted.skip(1) =~= rest);
}

/// Where only a boundary line is known, what stands before it comes before the boundary, whatever it resolves
/// to, unless it is to config.php.
pub proof fn references_before_a_line_are_categorised(
    path: Seq<char>,
    line: u32,
    boundary: u32,
    places: Places,
    source_component: Option<Seq<char>>,
    target: Option<ResolutionView>,
)
    ensures
        places.config_locations.contains(path) ==> category(
            path,
            line,
            Some(boundary),
            places,
            source_component,
            target,
        ) == PathCategory::Config,
        !places.config_locations.contains(path) && line < boundary ==> category(
            path,
            line,
            Some(boundary),
            places,
            source_component,
            target,
        ) == PathCategory::PreComponent,
        line >= boundary ==> category(path, line, Some(boundary), places, source_component, target) == category(
            path,
            line,
            None,
            places,
            source_component,
            target,
        ),
{
}

/// A declaration that does not count is reported, with the subplugin type and the plugin that declares it; one
/// that counts is not.
pub proof fn declarations_that_do_not_count_are_reported(
    list: Seq<Declaration>,
    known: Set<Seq<char>>,
    more: Declaration,
)
    ensures
        known.contains(more.subtype) || accepted(list, known).contains_key(more.subtype) ==> rejections(
            list.push(more),
            known,
        ) == rejections(list, known).push(
            "warning: ignoring duplicate subplugin type '"@ + more.subtype + "' declared by '"@ + more.by + "'"@,
        ) && accepted(list.push(more), known) == accepted(list, known),
        !known.contains(more.subtype) && !accepted(list, known).contains_key(more.subtype) ==> rejections(
            list.push(more),
            known,
        ) == rejections(list, known) && accepted(list.push(more), known) == accepted(list, known).insert(
            more.subtype,
            more.dir,
        ),
        rejections(Seq::empty(), known).len() == 0,
        accepted(Seq::empty(), known).dom() == Set::<Seq<char>>::empty(),
{
    assert(list.push(more).drop_last() =~= list);
    assert(accepted(Seq::empty(), known).dom() =~= Set::<Seq<char>>::empty());
}

/// Third-party libraries are declared by the components with a directory, and by the root's own 'lib'.
pub proof fn manifests_are_looked_for_in_components(discovery: &ComponentDiscovery, i: int, dir: Seq<char>)
    ensures
        can_have_manifest(discovery, "lib"@),
        0 <= i < discovery.components.spec_values().len() && discovery.components.spec_values()[i]@.len() > 0
            ==> can_have_manifest(discovery, discovery.components.spec_values()[i]@),
        can_have_manifest(discovery, dir) && dir != "lib"@ ==> dir.len() > 0 && exists|k: int|
            0 <= k < discovery.components.spec_values().len() && (#[trigger] discovery.components.spec_values()[k])@
                == dir,
{
    let all = texts(discovery.components.spec_values());
    if 0 <= i < discovery.components.spec_values().len() {
        assert(all[i] == discovery.components.spec_values()[i]@);
    }
    if all.contains(dir) {
        let k = choose|k: int| 0 <= k < all.len() && all[k] == dir;
        assert(discovery.components.spec_values()[k]@ == dir);
    }
}

// ---------------------------------------------------------------------------------------------
// More of the graph.

/// The one file that no chain leads to runs before the boundary as a whole, unless it has a boundary of its
/// own.
pub proof fn the_undetected_file_has_an_extent(files: ScannedFiles, segment: Seq<char>)
    ensures
        ({
            let file = in_dirroot(segment, "admin/tool/phpunit/cli/init.php"@);
            is_file(files, file) ==> extent_of(files, segment, file) == Some(ExtentView::WholeFile) || extent_of(
                files,
                segment,
                file,
            ) == Some(ExtentView::UpToLine(boundary_edges(files, segment, file)))
        }),
{
    only_one_file_is_undetected(segment, in_dirroot(segment, "admin/tool/phpunit/cli/init.php"@));
}

/// Only component.php is classified without an extent, and always as 'other'.
pub proof fn component_is_classified_as_other(files: ScannedFiles, segment: Seq<char>, i: int)
    requires
        0 <= i < classified(files, segment).len(),
        classified(files, segment)[i].extent is None,
    ensures
        classified(files, segment)[i].file == in_dirroot(segment, "lib/classes/component.php"@),
        classified(files, segment)[i].kind == BootstrapKind::Other,
{
    let names = in_order(files_with_extent(files, segment));
    let component = component_file(segment);
    files_with_extent_are_listed(files, segment);
    place_after_parts(names, component);
    let place = place_after(names, component);
    if !(is_file(files, component) && i == place) {
        let k = if is_file(files, component) && i > place {
            i - 1
        } else {
            i
        };
        assert(classified(files, segment)[i] == classification_of(files, segment, names[k]));
        assert(names.contains(names[k]));
    }
}

/// What reaches the boundary is component.php, or requires something that does, where the root's config.php
/// is taken to require lib/setup.php.
pub proof fn the_boundary_is_reached_step_by_step(files: ScannedFiles, segment: Seq<char>, name: Seq<char>)
    requires
        reaches_boundary(files, segment, name),
    ensures
        name == in_dirroot(segment, "lib/classes/component.php"@) || (name == "config.php"@ && reaches_boundary(
            files,
            segment,
            "lib/setup.php"@,
        )) || exists|k: int|
            #![trigger edges_of(files, name)[k]]
            0 <= k < edges_of(files, name).len() && reaches_boundary(files, segment, edges_of(files, name)[k].target),
{
    let start = |a: Seq<char>| a == component_file(segment);
    let step = |a: Seq<char>, b: Seq<char>| required_by(files, a, b);
    let avoided = |a: Seq<char>| false;
    let chain = choose|chain: Seq<Seq<char>>| #[trigger]
        is_chain(step, avoided, chain) && start(chain[0]) && chain.last() == name;
    if chain.len() > 1 {
        let front = chain.drop_last();
        let last = chain.len() - 1;
        let target = chain[last - 1];
        chain_without_its_end(step, avoided, chain);
        assert(front[0] == chain[0] && front.last() == target);
        assert(reaches_boundary(files, segment, target));
        assert(step(target, name));
        if leads_to(edges_of(files, name), target) {
            let k = choose|k: int|
                0 <= k < edges_of(files, name).len() && (#[trigger] edges_of(files, name)[k]).target == target;
            assert(reaches_boundary(files, segment, edges_of(files, name)[k].target));
        }
    }
}

proof fn chain_without_its_end(
    step: spec_fn(Seq<char>, Seq<char>) -> bool,
    avoided: spec_fn(Seq<char>) -> bool,
    chain: Seq<Seq<char>>,
)
    requires
        is_chain(step, avoided, chain),
        chain.len() > 1,
    ensures
        is_chain(step, avoided, chain.drop_last()),
        step(chain[chain.len() - 2], chain.last()),
        !avoided(chain.last()),
{
}

/// Whether a line comes no later than any of some boundary lines.
pub open spec fn is_no_later(line: u32, edges: Seq<BoundaryEdge>) -> bool {
    forall|j: int| 0 <= j < edges.len() ==> line <= (#[trigger] edges[j]).line
}

/// A file that runs as a whole before the boundary is the one that no chain leads to, or does not reach the
/// boundary and is required by a file that has one, no later than all of it, or by another such file.
pub proof fn whole_files_are_required_by_something(files: ScannedFiles, segment: Seq<char>, name: Seq<char>)
    requires
        extent_of(files, segment, name) == Some(ExtentView::WholeFile),
        name != in_dirroot(segment, "admin/tool/phpunit/cli/init.php"@),
    ensures
        !reaches_boundary(files, segment, name),
        exists|other: Seq<char>, k: int|
            #![trigger edges_of(files, other)[k]]
            {
                &&& 0 <= k < edges_of(files, other).len()
                &&& edges_of(files, other)[k].target == name
                &&& is_dependency(files, segment, other) || has_boundary(files, segment, other) && is_no_later(
                    edges_of(files, other)[k].line,
                    boundary_edges(files, segment, other),
                )
            },
{
    only_one_file_is_undetected(segment, name);
    dependencies_stay_off_the_boundary(files, segment, name);
    let start = |a: Seq<char>| exists|seed: Seq<char>| #[trigger] pulls_in(files, segment, seed, a);
    let step = |a: Seq<char>, b: Seq<char>| leads_to(edges_of(files, a), b);
    let avoided = |a: Seq<char>| reaches_boundary(files, segment, a);
    let chain = choose|chain: Seq<Seq<char>>| #[trigger]
        is_chain(step, avoided, chain) && start(chain[0]) && chain.last() == name;
    if chain.len() > 1 {
        let front = chain.drop_last();
        let other = chain[chain.len() - 2];
        chain_without_its_end(step, avoided, chain);
        assert(front[0] == chain[0] && front.last() == other);
        assert(is_dependency(files, segment, other));
        assert(leads_to(edges_of(files, other), name));
        let k = choose|k: int|
            0 <= k < edges_of(files, other).len() && (#[trigger] edges_of(files, other)[k]).target == name;
        assert(edges_of(files, other)[k].target == name);
    } else {
        assert(start(name));
        let seed = choose|seed: Seq<char>| #[trigger] pulls_in(files, segment, seed, name);
        let k = choose|k: int|
            0 <= k < edges_of(files, seed).len() && (#[trigger] edges_of(files, seed)[k]).target == name
                && edges_of(files, seed)[k].line <= earliest(boundary_edges(files, segment, seed));
        let edges = boundary_edges(files, segment, seed);
        assert forall|j: int| 0 <= j < edges.len() implies edges_of(files, seed)[k].line <= (
        #[trigger] edges[j]).line by {
            earliest_is_least(edges, j);
        }
        assert(edges_of(files, seed)[k].target == name);
    }
}

/// A reference to something that nothing owns, and that is neither root itself, is static like any other: in
/// the same component exactly if nothing owns its file either.
pub proof fn unowned_targets_are_categorised(
    result: PathView,
    extent: Option<ExtentView>,
    places: Places,
    source_component: Option<Seq<char>>,
    path_in_component: Seq<char>,
)
    requires
        is_late(result, extent, places),
        !places.plugin_type_roots.contains(result.real_path),
        !places.plugin_type_roots.contains(result.real_path.drop_last()),
        result.real_path.len() > 0,
        result.real_path[0] != '/',
        result.real_path != "\\"@,
        result.real_path != places.dirroot,
        result.real_path != places.dirroot + "/"@,
        result.real_path != places.dirroot + "\\"@,
    ensures
        category_in(
            false,
            result,
            extent,
            places,
            source_component,
            Some(ResolutionView { component: "root"@, path_in_component }),
        ) == (if source_component is Some && source_component->0 == "root"@ {
            PathCategory::StaticSameComponent
        } else {
            PathCategory::StaticDifferentComponent
        }),
{
    reveal_strlit("/");
    reveal_strlit("\\");
    reveal_strlit("root");
    assert(!"root"@.contains('{'));
    let path = result.real_path;
    let dirroot = places.dirroot;
    assert(dirroot + "/"@ =~= dirroot.push('/'));
    assert(dirroot + "\\"@ =~= dirroot.push('\\'));
    assert("\\"@ =~= seq!['\\']);
    if only_slashes(path) {
        first_piece_is_not_empty(path);
    }
}

/// Where two plugin types make a component of the same name, the later counts: each plugin of the type that
/// comes last lies in that type's root directory.
pub proof fn later_types_count(
    found: Found,
    before: Locations,
    types: Locations,
    names: Seq<Seq<char>>,
    plugin_type: Seq<char>,
    name: Seq<char>,
)
    requires
        plugins_of(found, plugin_type, types[plugin_type]).contains_key(name),
    ensures
        with_plugins(found, before, types, names.push(plugin_type)).contains_key(plugin_type + "_"@ + name),
        with_plugins(found, before, types, names.push(plugin_type))[plugin_type + "_"@ + name] == types[plugin_type]
            + "/"@ + name,
{
    let plugins = plugins_of(found, plugin_type, types[plugin_type]);
    let component = frankenstyle(plugin_type, name);
    reveal_strlit("_");
    assert(names.push(plugin_type).drop_last() =~= names);
    assert(component == plugin_type + "_"@ + name);
    assert(component.skip((plugin_type.len() + 1) as int) =~= name);
    assert(plugin_components(plugin_type, plugins).contains_key(component));
}

} // verus!
