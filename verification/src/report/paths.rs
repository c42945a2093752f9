//! The report of the path references of a codebase.

use vstd::prelude::*;

use crate::moodle::entrypoints::ScannedFiles;
use crate::moodle::resolver::ComponentResolver;
use crate::moodle::resolver::Resolution;
use crate::moodle::resolver::ResolutionView;
use crate::moodle::resolver::resolution;
use crate::moodle::resolver::resolution_view;
use crate::moodle::scan::CategorisedReference;
use crate::moodle::scan::Codebase;
use crate::moodle::scan::ReferenceView;
use crate::moodle::scan::Scan;
use crate::moodle::scan::categorise_all;
use crate::moodle::scan::categorised_files;
use crate::moodle::scan::codebase;
use crate::moodle::scan::owner;
use crate::moodle::scan::reference_views;
use crate::path_finder::PathResult;
use crate::path_finder::PathView;
use crate::path_finder::text_of;
use crate::report::document::Document;
use crate::report::document::csv_document;
use crate::report::document::document_grows;
use crate::report::document::number_field;
use crate::report::document::opt_to_string;
use crate::report::document::sanitize;
use crate::report::document::single_line;
use crate::report::document::text_field;
use crate::report::document::text_or_empty;
use crate::text::concat3;
use crate::text::copy;
use crate::text::decimal;
use crate::text::decimal_of;
use crate::text::texts;

verus! {

/// The columns of a path reference, up to its normalised path.
pub open spec fn path_columns() -> Seq<Seq<char>> {
    seq!["file"@, "line"@, "start"@, "end"@, "code"@, "kind"@, "glyph_path"@, "normalised_path"@]
}

/// The columns of what a path reference resolves to.
pub open spec fn component_columns() -> Seq<Seq<char>> {
    seq!["source_component"@, "target_component"@, "path_in_component"@]
}

/// The header of a report of path references.
pub open spec fn path_header(resolve_components: bool, categorise: bool) -> Seq<Seq<char>> {
    path_columns() + if resolve_components || categorise {
        component_columns()
    } else {
        Seq::<Seq<char>>::empty()
    } + if categorise {
        seq!["category"@]
    } else {
        Seq::<Seq<char>>::empty()
    }
}

/// The fields of a path reference, up to its normalised path.
pub open spec fn path_fields(file: Seq<char>, result: PathView) -> Seq<Seq<char>> {
    seq![
        single_line(file),
        decimal(result.line as nat),
        number_field(result.start_pos),
        number_field(result.end_pos),
        single_line(result.code),
        result.kind.name(),
        single_line(result.path),
        single_line(result.real_path),
    ]
}

/// The fields of what a path reference resolves to.
pub open spec fn component_fields(
    source_component: Option<Seq<char>>,
    target: Option<ResolutionView>,
) -> Seq<Seq<char>> {
    seq![
        text_field(source_component),
        match target {
            Some(target) => target.component,
            None => Seq::<char>::empty(),
        },
        match target {
            Some(target) => target.path_in_component,
            None => Seq::<char>::empty(),
        },
    ]
}

/// The fields of a categorised path reference.
pub open spec fn reference_fields(reference: ReferenceView) -> Seq<Seq<char>> {
    path_fields(reference.file, reference.result) + component_fields(
        reference.source_component,
        reference.target,
    ) + seq![reference.category.name()]
}

/// The record of a path reference that is not categorised.
pub open spec fn path_row(base: Codebase, file: Seq<char>, result: PathView, resolve_components: bool) -> Seq<Seq<char>> {
    if resolve_components {
        path_fields(file, result) + component_fields(
            owner(base.directories, file),
            resolution(base.directories, result.real_path),
        )
    } else {
        path_fields(file, result)
    }
}

/// The records of the path references of some files.
pub open spec fn path_rows(base: Codebase, files: ScannedFiles, resolve_components: bool) -> Seq<Seq<Seq<char>>>
    decreases files.len(),
{
    if files.len() == 0 {
        Seq::<Seq<Seq<char>>>::empty()
    } else {
        path_rows(base, files.drop_last(), resolve_components) + Seq::new(
            files.last().1@.len(),
            |k: int| path_row(base, files.last().0@, files.last().1@[k]@, resolve_components),
        )
    }
}

/// The records of a report of path references.
pub open spec fn report_rows(base: Codebase, resolve_components: bool, categorise: bool) -> Seq<Seq<Seq<char>>> {
    if categorise {
        let references = categorised_files(base, base.files);
        Seq::new(references.len(), |i: int| reference_fields(references[i]))
    } else {
        path_rows(base, base.files, resolve_components)
    }
}

/// Adds texts to a record.
pub fn add_all(fields: &mut Vec<String>, more: &[&str])
    ensures
        texts(final(fields)@) == texts(old(fields)@) + Seq::new(more@.len(), |i: int| more@[i]@),
{
    let ghost before = texts(fields@);
    let ghost all = Seq::new(more@.len(), |i: int| more@[i]@);
    let mut i: usize = 0;
    assert(before =~= before + all.take(0));
    while i < more.len()
        invariant
            i <= more.len(),
            all == Seq::new(more@.len(), |i: int| more@[i]@),
            texts(fields@) == before + all.take(i as int),
        decreases more.len() - i,
    {
        let ghost now = texts(fields@);
        fields.push(copy(more[i]));
        assert(texts(fields@) =~= now.push(all[i as int]));
        assert(all.take(i + 1) =~= all.take(i as int).push(all[i as int]));
        assert(texts(fields@) =~= before + all.take(i + 1));
        i += 1;
    }
    assert(all.take(i as int) =~= all);
}

/// The header of a report of path references.
pub fn header(resolve_components: bool, categorise: bool) -> (r: Vec<String>)
    ensures
        texts(r@) == path_header(resolve_components, categorise),
{
    let mut r: Vec<String> = Vec::new();
    let columns: [&str; 8] = ["file", "line", "start", "end", "code", "kind", "glyph_path", "normalised_path"];
    add_all(&mut r, &columns);
    assert(texts(r@) =~= path_columns());
    if resolve_components || categorise {
        let columns: [&str; 3] = ["source_component", "target_component", "path_in_component"];
        add_all(&mut r, &columns);
        assert(texts(r@) =~= path_columns() + component_columns());
    }
    if categorise {
        let columns: [&str; 1] = ["category"];
        add_all(&mut r, &columns);
    }
    assert(texts(r@) =~= path_header(resolve_components, categorise));
    r
}

fn fields_of(file: &str, result: &PathResult) -> (r: Vec<String>)
    ensures
        texts(r@) == path_fields(file@, result@),
{
    let mut r: Vec<String> = Vec::new();
    r.push(sanitize(file));
    r.push(decimal_of(result.line as u64));
    r.push(opt_to_string(result.start_pos));
    r.push(opt_to_string(result.end_pos));
    r.push(sanitize(&result.code));
    r.push(result.kind.to_string());
    r.push(sanitize(&result.path));
    r.push(sanitize(&result.real_path));
    assert(texts(r@) =~= path_fields(file@, result@));
    r
}

fn add_component_fields(fields: &mut Vec<String>, source_component: &Option<String>, target: &Option<Resolution>)
    ensures
        texts(final(fields)@) == texts(old(fields)@) + component_fields(
            text_of(*source_component),
            resolution_view(*target),
        ),
{
    let ghost before = texts(fields@);
    fields.push(text_or_empty(source_component));
    match target {
        Some(target) => {
            fields.push(copy(&target.component));
            fields.push(copy(&target.path_in_component));
        },
        None => {
            fields.push(String::new());
            fields.push(String::new());
        },
    }
    assert(texts(fields@) =~= before + component_fields(text_of(*source_component), resolution_view(*target)));
}

/// The fields of a categorised path reference.
pub fn record_fields(reference: &CategorisedReference) -> (r: Vec<String>)
    ensures
        texts(r@) == reference_fields(reference@),
{
    let mut r = fields_of(&reference.file, &reference.result);
    add_component_fields(&mut r, &reference.source_component, &reference.target);
    let ghost before = texts(r@);
    r.push(reference.category.to_string());
    assert(texts(r@) =~= before.push(reference.category.name()));
    assert(texts(r@) =~= reference_fields(reference@));
    r
}

/// The report of the path references of a scanned codebase, as a CSV document. Categories imply
/// the columns of the components: it takes those to categorise.
pub fn paths_report(scan: &Scan, dirroot: &str, resolve_components: bool, categorise: bool) -> (r: String)
    ensures
        r@ == csv_document(
            seq![path_header(resolve_components, categorise)] + report_rows(
                codebase(scan, dirroot@),
                resolve_components || categorise,
                categorise,
            ),
        ),
{
    let ghost base = codebase(scan, dirroot@);
    let head = header(resolve_components, categorise);
    let ghost top = seq![texts(head@)];
    let mut document = Document::new(&head);
    if categorise {
        let references = categorise_all(scan, dirroot);
        let ghost all = reference_views(references@);
        let ghost rows = Seq::new(all.len(), |i: int| reference_fields(all[i]));
        let mut i: usize = 0;
        assert(top + rows.take(0) =~= top);
        while i < references.len()
            invariant
                i <= references.len(),
                all == reference_views(references@),
                rows == Seq::new(all.len(), |i: int| reference_fields(all[i])),
                document.written() == csv_document(top + rows.take(i as int)),
            decreases references.len() - i,
        {
            let fields = record_fields(&references[i]);
            assert(texts(fields@) == rows[i as int]);
            assert(texts(fields@).len() == fields.len());
            document.add_record(&fields);
            proof {
                document_grows(top + rows.take(i as int), rows[i as int]);
                assert((top + rows.take(i as int)).push(rows[i as int]) =~= top + rows.take(i + 1));
            }
            i += 1;
        }
        assert(rows.take(i as int) =~= rows);
        return document.finish();
    }
    let resolver = ComponentResolver::new(&scan.discovered);
    let mut i: usize = 0;
    assert(top + path_rows(base, scan.files@.take(0), resolve_components) =~= top);
    while i < scan.files.len()
        invariant
            i <= scan.files.len(),
            base == codebase(scan, dirroot@),
            resolver.directories() == base.directories,
            document.written() == csv_document(top + path_rows(base, scan.files@.take(i as int), resolve_components)),
        decreases scan.files.len() - i,
    {
        let file = &scan.files[i].0;
        let results = &scan.files[i].1;
        let source_component = match resolver.resolve(file) {
            Some(resolved) => Some(resolved.component),
            None => None,
        };
        assert(text_of(source_component) == owner(base.directories, file@));
        let ghost before = top + path_rows(base, scan.files@.take(i as int), resolve_components);
        let ghost own = Seq::new(
            results@.len(),
            |k: int| path_row(base, file@, results@[k]@, resolve_components),
        );
        let mut k: usize = 0;
        assert(before + own.take(0) =~= before);
        while k < results.len()
            invariant
                k <= results.len(),
                resolver.directories() == base.directories,
                text_of(source_component) == owner(base.directories, file@),
                own == Seq::new(
                    results@.len(),
                    |k: int| path_row(base, file@, results@[k]@, resolve_components),
                ),
                document.written() == csv_document(before + own.take(k as int)),
            decreases results.len() - k,
        {
            let result = &results[k];
            let mut fields = fields_of(file, result);
            if resolve_components {
                let target = resolver.resolve(&result.real_path);
                add_component_fields(&mut fields, &source_component, &target);
            }
            assert(texts(fields@) == own[k as int]);
            assert(texts(fields@).len() == fields.len());
            document.add_record(&fields);
            proof {
                document_grows(before + own.take(k as int), own[k as int]);
                assert((before + own.take(k as int)).push(own[k as int]) =~= before + own.take(k + 1));
            }
            k += 1;
        }
        proof {
            assert(own.take(k as int) =~= own);
            let next = scan.files@.take(i + 1);
            assert(next.drop_last() =~= scan.files@.take(i as int));
            assert(next.last() == scan.files@[i as int]);
            assert(own =~= Seq::new(
                next.last().1@.len(),
                |k: int| path_row(base, next.last().0@, next.last().1@[k]@, resolve_components),
            ));
            assert(before + own =~= top + path_rows(base, next, resolve_components));
        }
        i += 1;
    }
    assert(scan.files@.take(i as int) =~= scan.files@);
    document.finish()
}

/// How many path references some files hold.
pub open spec fn path_count(files: ScannedFiles) -> nat
    decreases files.len(),
{
    if files.len() == 0 {
        0
    } else {
        path_count(files.drop_last()) + files.last().1@.len()
    }
}

/// How many path references a scan found, up to what can be counted.
pub fn count_paths(scan: &Scan) -> (n: usize)
    ensures
        n == if path_count(scan.files@) <= usize::MAX {
            path_count(scan.files@)
        } else {
            usize::MAX as nat
        },
{
    let mut n: usize = 0;
    let mut i: usize = 0;
    while i < scan.files.len()
        invariant
            i <= scan.files.len(),
            n == if path_count(scan.files@.take(i as int)) <= usize::MAX {
                path_count(scan.files@.take(i as int))
            } else {
                usize::MAX as nat
            },
        decreases scan.files.len() - i,
    {
        assert(scan.files@.take(i + 1).drop_last() =~= scan.files@.take(i as int));
        let own = scan.files[i].1.len();
        n = if own <= usize::MAX - n {
            n + own
        } else {
            usize::MAX
        };
        i += 1;
    }
    assert(scan.files@.take(i as int) =~= scan.files@);
    n
}

/// The summary of a path scan that took `elapsed`.
pub open spec fn paths_summary_text(scanned: nat, elapsed: Seq<char>, found: nat) -> Seq<char> {
    "Scanned "@ + decimal(scanned) + " PHP files in "@ + elapsed + ", found "@ + decimal(found) + " paths"@
}

/// The summary of a path scan that took `elapsed`.
pub fn paths_summary(scanned: usize, elapsed: &str, found: usize) -> (r: String)
    ensures
        r@ == paths_summary_text(scanned as nat, elapsed@, found as nat),
{
    let start = concat3("Scanned ", &decimal_of(scanned as u64), " PHP files in ");
    let middle = concat3(&start, elapsed, ", found ");
    concat3(&middle, &decimal_of(found as u64), " paths")
}

/// What is said of files that could not be read: nothing if there are none.
pub fn failed_reads_message(failed: usize) -> (r: Option<String>)
    ensures
        r is Some == (failed > 0),
        r matches Some(message) ==> message@ == "Failed to read "@ + decimal(failed as nat) + " files"@,
{
    if failed > 0 {
        Some(concat3("Failed to read ", &decimal_of(failed as u64), " files"))
    } else {
        None
    }
}

} // verus!
