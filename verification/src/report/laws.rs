//! What the reports say of each thing that they report.

use vstd::prelude::*;

use crate::moodle::components::ComponentDiscovery;
use crate::moodle::entrypoints::BootstrapKind;
use crate::moodle::entrypoints::BoundaryEdge;
use crate::moodle::entrypoints::ClassificationView;
use crate::moodle::entrypoints::ExtentView;
use crate::moodle::entrypoints::ScannedFiles;
use crate::moodle::laws::runs_its_target;
use crate::moodle::resolver::Directories;
use crate::moodle::resolver::resolution;
use crate::moodle::scan::Codebase;
use crate::moodle::scan::ReferenceView;
use crate::path_finder::PathResult;
use crate::path_finder::PathView;
use crate::report::components::component_rows;
use crate::report::components::plugin_type_rows;
use crate::report::components::subsystem_rows;
use crate::report::document::single_line;
use crate::report::entrypoints::classification_fields;
use crate::report::entrypoints::kind_count;
use crate::report::ownership::has_own_work;
use crate::report::ownership::ownership_line;
use crate::report::ownership::ownership_lines;
use crate::report::ownership::padded;
use crate::report::ownership::references_of;
use crate::report::ownership::runs_before;
use crate::report::paths::path_count;
use crate::report::paths::path_fields;
use crate::report::paths::path_header;
use crate::report::paths::path_row;
use crate::report::paths::path_rows;
use crate::report::paths::reference_fields;
use crate::text::decimal;

verus! {

// ---------------------------------------------------------------------------------------------
// Fields.

/// A field is put on a single line character by character: only tabs and line feeds change.
pub proof fn single_lines_are_made_character_by_character(a: Seq<char>, b: Seq<char>)
    ensures
        single_line(a + b) == single_line(a) + single_line(b),
        single_line(seq!['\t']) == " "@,
        single_line(seq!['\n']) == "\\n"@,
        forall|c: char| c != '\t' && c != '\n' ==> #[trigger] single_line(seq![c]) == seq![c],
    decreases b.len(),
{
    reveal_strlit(" ");
    reveal_strlit("\\n");
    reveal_with_fuel(single_line, 2);
    if b.len() == 0 {
        assert(a + b =~= a);
        assert(single_line(a) + single_line(b) =~= single_line(a));
    } else {
        single_lines_are_made_character_by_character(a, b.drop_last());
        assert((a + b).drop_last() =~= a + b.drop_last());
        assert(single_line(a + b) =~= single_line(a) + single_line(b));
    }
    assert(single_line(seq!['\t']) =~= " "@);
    assert(single_line(seq!['\n']) =~= "\\n"@);
    assert forall|c: char| c != '\t' && c != '\n' implies #[trigger] single_line(seq![c]) == seq![c] by {
        assert(single_line(seq![c]) =~= seq![c]);
    }
}

/// The columns of a path reference are headed by what they hold.
pub proof fn columns_of_a_path(file: Seq<char>, result: PathView, resolve_components: bool, categorise: bool)
    ensures
        ({
            let header = path_header(resolve_components, categorise);
            let fields = path_fields(file, result);
            &&& header[0] == "file"@ && fields[0] == single_line(file)
            &&& header[1] == "line"@ && fields[1] == decimal(result.line as nat)
            &&& header[2] == "start"@ && (result.start_pos is Some ==> fields[2] == decimal(
                result.start_pos->0 as nat,
            )) && (result.start_pos is None ==> fields[2] == ""@)
            &&& header[3] == "end"@ && (result.end_pos is Some ==> fields[3] == decimal(result.end_pos->0 as nat)) && (
            result.end_pos is None ==> fields[3] == ""@)
            &&& header[4] == "code"@ && fields[4] == single_line(result.code)
            &&& header[5] == "kind"@ && fields[5] == result.kind.name()
            &&& header[6] == "glyph_path"@ && fields[6] == single_line(result.path)
            &&& header[7] == "normalised_path"@ && fields[7] == single_line(result.real_path)
            &&& fields.len() == 8
            &&& header.len() == (if categorise {
                12int
            } else if resolve_components {
                11
            } else {
                8
            })
        }),
{
    reveal_strlit("");
    assert(""@ =~= Seq::<char>::empty());
}

/// The columns of what it resolves to, and of its category, are too.
pub proof fn columns_of_a_categorised_path(reference: ReferenceView)
    ensures
        ({
            let header = path_header(true, true);
            let fields = reference_fields(reference);
            &&& fields.len() == header.len()
            &&& fields.take(8) == path_fields(reference.file, reference.result)
            &&& header[8] == "source_component"@ && (reference.source_component is Some ==> fields[8]
                == reference.source_component->0) && (reference.source_component is None ==> fields[8] == ""@)
            &&& header[9] == "target_component"@ && (reference.target is Some ==> fields[9]
                == reference.target->0.component) && (reference.target is None ==> fields[9] == ""@)
            &&& header[10] == "path_in_component"@ && (reference.target is Some ==> fields[10]
                == reference.target->0.path_in_component) && (reference.target is None ==> fields[10] == ""@)
            &&& header[11] == "category"@ && fields[11] == reference.category.name()
        }),
{
    reveal_strlit("");
    assert(""@ =~= Seq::<char>::empty());
    assert(reference_fields(reference).take(8) =~= path_fields(reference.file, reference.result));
}

/// Without categories, the columns of the components say what owns the file and the target.
pub proof fn columns_of_a_resolved_path(base: Codebase, file: Seq<char>, result: PathView)
    ensures
        ({
            let fields = path_row(base, file, result, true);
            let target = resolution(base.directories, result.real_path);
            let source = resolution(base.directories, file);
            &&& fields.len() == 11
            &&& fields.take(8) == path_fields(file, result)
            &&& source is Some ==> fields[8] == source->0.component
            &&& target is Some ==> fields[9] == target->0.component && fields[10] == target->0.path_in_component
            &&& source is None ==> fields[8] == ""@
            &&& target is None ==> fields[9] == ""@ && fields[10] == ""@
            &&& path_row(base, file, result, false) == path_fields(file, result)
        }),
{
    reveal_strlit("");
    assert(""@ =~= Seq::<char>::empty());
    assert(path_row(base, file, result, true).take(8) =~= path_fields(file, result));
}

// ---------------------------------------------------------------------------------------------
// Records.

/// Every reference of every file has a record, in order, and there are as many as are counted.
pub proof fn every_path_has_a_record(
    base: Codebase,
    files: ScannedFiles,
    file: (String, Vec<PathResult>),
    resolve_components: bool,
    k: int,
)
    requires
        0 <= k < file.1@.len(),
    ensures
        ({
            let before = path_rows(base, files, resolve_components);
            let all = path_rows(base, files.push(file), resolve_components);
            &&& all.len() == before.len() + file.1@.len()
            &&& all.take(before.len() as int) == before
            &&& all[before.len() + k] == path_row(base, file.0@, file.1@[k]@, resolve_components)
        }),
        path_count(files.push(file)) == path_count(files) + file.1@.len(),
        path_count(Seq::empty()) == 0,
{
    assert(files.push(file).drop_last() =~= files);
    let before = path_rows(base, files, resolve_components);
    let all = path_rows(base, files.push(file), resolve_components);
    assert(all.take(before.len() as int) =~= before);
}

/// Each component has a record with its name and location, and so has each plugin type and each subsystem,
/// the latter without a location if it has no directory.
pub proof fn every_component_has_a_record(discovered: &ComponentDiscovery, i: int)
    requires
        discovered.components.valid(),
        discovered.plugin_types.valid(),
        discovered.subsystems.valid(),
    ensures
        component_rows(discovered).len() == discovered.components.spec_keys().len(),
        plugin_type_rows(discovered).len() == discovered.plugin_types.spec_keys().len(),
        subsystem_rows(discovered).len() == discovered.subsystems.spec_keys().len(),
        0 <= i < component_rows(discovered).len() ==> ({
            let name = component_rows(discovered)[i][0];
            discovered.components@.contains_key(name) && component_rows(discovered)[i] == seq![
                name,
                discovered.components@[name]@,
            ]
        }),
        0 <= i < plugin_type_rows(discovered).len() ==> ({
            let name = plugin_type_rows(discovered)[i][1];
            discovered.plugin_types@.contains_key(name) && plugin_type_rows(discovered)[i] == seq![
                "plugintype"@,
                name,
                discovered.plugin_types@[name]@,
            ]
        }),
        0 <= i < subsystem_rows(discovered).len() ==> ({
            let name = subsystem_rows(discovered)[i][1];
            discovered.subsystems@.contains_key(name) && subsystem_rows(discovered)[i] == seq![
                "subsystem"@,
                name,
                match discovered.subsystems@[name] {
                    Some(path) => path@,
                    None => ""@,
                },
            ]
        }),
{
    reveal_strlit("");
    assert(""@ =~= Seq::<char>::empty());
    if 0 <= i < component_rows(discovered).len() {
        discovered.components.lookup_at(i);
    }
    if 0 <= i < plugin_type_rows(discovered).len() {
        discovered.plugin_types.lookup_at(i);
    }
    if 0 <= i < subsystem_rows(discovered).len() {
        discovered.subsystems.lookup_at(i);
    }
}

/// The record of a classified file: its name, its kind, and how much of it comes before the boundary.
pub proof fn classified_files_have_records(file: Seq<char>, edge: BoundaryEdge)
    ensures
        classification_fields(
            ClassificationView {
                file,
                kind: BootstrapKind::Cli,
                extent: Some(ExtentView::UpToLine(seq![edge])),
            },
        ) == seq![single_line(file), "cli"@, decimal(edge.line as nat)],
        classification_fields(
            ClassificationView { file, kind: BootstrapKind::Other, extent: None },
        ) == seq![single_line(file), "other"@, ""@],
        classification_fields(
            ClassificationView {
                file,
                kind: BootstrapKind::BootstrapDependency,
                extent: Some(ExtentView::WholeFile),
            },
        ) == seq![single_line(file), "bootstrap-dependency"@, "whole-file"@],
{
    reveal_strlit("");
    assert(""@ =~= Seq::<char>::empty());
    let numerals = Seq::new(seq![edge].len(), |i: int| decimal(seq![edge][i].line as nat));
    assert(numerals =~= seq![decimal(edge.line as nat)]);
}

/// One more boundary line is named behind the others, with a plus sign before it.
pub proof fn boundary_lines_are_named_in_order(edges: Seq<BoundaryEdge>, edge: BoundaryEdge)
    requires
        edges.len() > 0,
    ensures
        ExtentView::UpToLine(edges.push(edge)).name() == ExtentView::UpToLine(edges).name() + "+"@ + decimal(
            edge.line as nat,
        ),
{
    let more = edges.push(edge);
    let before = Seq::new(edges.len(), |i: int| decimal(edges[i].line as nat));
    let after = Seq::new(more.len(), |i: int| decimal(more[i].line as nat));
    assert(after.drop_last() =~= before);
}

/// The files of each kind are counted one by one.
pub proof fn kinds_are_counted_one_by_one(
    some: Seq<ClassificationView>,
    one: ClassificationView,
    kind: BootstrapKind,
)
    ensures
        kind_count(Seq::empty(), kind) == 0,
        one.kind == kind ==> kind_count(some.push(one), kind) == kind_count(some, kind) + 1,
        one.kind != kind ==> kind_count(some.push(one), kind) == kind_count(some, kind),
{
    assert(some.push(one).drop_last() =~= some);
}

// ---------------------------------------------------------------------------------------------
// Ownership.

/// A padded text starts with the text, has spaces behind it, and is as wide as asked for, or as the text.
pub proof fn padding_is_spaces(text: Seq<char>, width: nat, i: int)
    requires
        0 <= i < padded(text, width).len(),
    ensures
        padded(text, width).len() == (if text.len() >= width {
            text.len()
        } else {
            width
        }),
        padded(text, width)[i] == (if i < text.len() {
            text[i]
        } else {
            ' '
        }),
{
}

/// Of a file that starts a chain toward the boundary, a require or include before the first line of the
/// boundary is reported, and nothing else; a file that runs as a whole before it always is.
pub proof fn what_is_reported(
    file: Seq<char>,
    kind: BootstrapKind,
    edges: Seq<BoundaryEdge>,
    results: Seq<PathResult>,
)
    requires
        kind != BootstrapKind::BootstrapDependency,
        edges.len() > 0,
    ensures
        has_own_work(
            ClassificationView { file, kind, extent: Some(ExtentView::UpToLine(edges)) },
            results,
        ) <==> exists|i: int|
            0 <= i < results.len() && runs_its_target((#[trigger] results[i])@.parent) && forall|k: int|
                0 <= k < edges.len() ==> results[i].line < (#[trigger] edges[k]).line,
        has_own_work(ClassificationView { file, kind, extent: Some(ExtentView::WholeFile) }, results),
        !has_own_work(ClassificationView { file, kind, extent: None }, results),
        has_own_work(
            ClassificationView { file, kind: BootstrapKind::BootstrapDependency, extent: None },
            results,
        ),
{
    if exists|i: int|
        0 <= i < results.len() && runs_its_target((#[trigger] results[i])@.parent) && forall|k: int|
            0 <= k < edges.len() ==> results[i].line < (#[trigger] edges[k]).line {
        let i = choose|i: int|
            0 <= i < results.len() && runs_its_target((#[trigger] results[i])@.parent) && forall|k: int|
                0 <= k < edges.len() ==> results[i].line < (#[trigger] edges[k]).line;
        assert(runs_before(results[i], edges));
    }
    if exists|i: int| 0 <= i < results.len() && runs_before(#[trigger] results[i], edges) {
        let i = choose|i: int| 0 <= i < results.len() && runs_before(#[trigger] results[i], edges);
        assert(runs_its_target(results[i]@.parent));
    }
}

/// Each classified file that has work of its own has a line, in order, and no other has one.
pub proof fn owners_are_reported_one_by_one(
    dirs: Directories,
    files: ScannedFiles,
    some: Seq<ClassificationView>,
    one: ClassificationView,
)
    ensures
        ownership_lines(dirs, files, Seq::empty()).len() == 0,
        ownership_lines(dirs, files, some.push(one)) == (if has_own_work(one, references_of(files, one.file)) {
            ownership_lines(dirs, files, some).push(ownership_line(dirs, one))
        } else {
            ownership_lines(dirs, files, some)
        }),
{
    assert(some.push(one).drop_last() =~= some);
}

/// The references of a file are those that it was scanned with, wherever it stands among the others.
pub proof fn references_of_a_file(files: ScannedFiles, i: int)
    requires
        0 <= i < files.len(),
        forall|k: int| i < k < files.len() ==> (#[trigger] files[k]).0@ != files[i].0@,
    ensures
        references_of(files, files[i].0@) == files[i].1@,
    decreases files.len(),
{
    if i < files.len() - 1 {
        assert(files[files.len() - 1].0@ != files[i].0@);
        references_of_a_file(files.drop_last(), i);
    }
}

/// The owner of a file is flagged exactly if it is neither core nor root, which is what owns a file that
/// nothing else does.
pub proof fn plugins_are_flagged(dirs: Directories, file: Seq<char>, kind: BootstrapKind)
    ensures
        ({
            let line = ownership_line(dirs, ClassificationView { file, kind, extent: None });
            let start = padded(file, 55) + " "@ + kind.name() + " "@ + padded("-"@, 12) + " "@;
            let found = resolution(dirs, file);
            &&& found is None ==> line == start + "root"@
            &&& found is Some && found->0.component == "core"@ ==> line == start + "core"@
            &&& found is Some && found->0.component == "root"@ ==> line == start + "root"@
            &&& found is Some && found->0.component != "core"@ && found->0.component != "root"@ ==> line == start
                + found->0.component + " <-- PLUGIN"@
        }),
{
    reveal_strlit("");
    let start = padded(file, 55) + " "@ + kind.name() + " "@ + padded("-"@, 12) + " "@;
    let line = ownership_line(dirs, ClassificationView { file, kind, extent: None });
    assert(start + "root"@ + ""@ =~= start + "root"@);
    assert(start + "core"@ + ""@ =~= start + "core"@);
}

} // verus!
