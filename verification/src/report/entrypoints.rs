//! The report of the files that must be placed back at a fixed location.

use vstd::prelude::*;

use crate::moodle::entrypoints::BootstrapKind;
use crate::moodle::entrypoints::ClassificationView;
use crate::moodle::entrypoints::FileClassification;
use crate::moodle::entrypoints::classification_views;
use crate::report::document::Document;
use crate::report::document::csv_document;
use crate::report::document::document_grows;
use crate::report::document::sanitize;
use crate::report::document::single_line;
use crate::text::concat3;
use crate::text::copy;
use crate::text::decimal;
use crate::text::decimal_of;
use crate::text::texts;

verus! {

/// The record of a classified file: its name, its kind, and how much of it is pre-component.
pub open spec fn classification_fields(classification: ClassificationView) -> Seq<Seq<char>> {
    seq![
        single_line(classification.file),
        classification.kind.name(),
        match classification.extent {
            Some(extent) => extent.name(),
            None => Seq::<char>::empty(),
        },
    ]
}

fn fields_of(classification: &FileClassification) -> (r: Vec<String>)
    ensures
        texts(r@) == classification_fields(classification@),
        r.len() == 3,
{
    let mut r: Vec<String> = Vec::new();
    r.push(sanitize(&classification.file));
    r.push(classification.kind.to_string());
    let extent = match &classification.extent {
        Some(extent) => extent.to_string(),
        None => String::new(),
    };
    r.push(extent);
    assert(texts(r@) =~= classification_fields(classification@));
    r
}

/// The classified files of a codebase, as a CSV document.
pub fn entrypoints_report(classifications: &[FileClassification]) -> (r: String)
    ensures
        r@ == csv_document(
            seq![seq!["file"@, "kind"@, "line"@]] + Seq::new(
                classifications@.len(),
                |i: int| classification_fields(classifications@[i]@),
            ),
        ),
{
    let mut header: Vec<String> = Vec::new();
    header.push(copy("file"));
    header.push(copy("kind"));
    header.push(copy("line"));
    let ghost top = seq![seq!["file"@, "kind"@, "line"@]];
    assert(texts(header@) =~= seq!["file"@, "kind"@, "line"@]);
    let mut document = Document::new(&header);
    let ghost rows = Seq::new(classifications@.len(), |i: int| classification_fields(classifications@[i]@));
    let mut i: usize = 0;
    assert(top + rows.take(0) =~= top);
    while i < classifications.len()
        invariant
            i <= classifications.len(),
            rows == Seq::new(classifications@.len(), |i: int| classification_fields(classifications@[i]@)),
            document.written() == csv_document(top + rows.take(i as int)),
        decreases classifications.len() - i,
    {
        document.add_record(&fields_of(&classifications[i]));
        proof {
            document_grows(top + rows.take(i as int), rows[i as int]);
            assert((top + rows.take(i as int)).push(rows[i as int]) =~= top + rows.take(i + 1));
        }
        i += 1;
    }
    assert(rows.take(i as int) =~= rows);
    document.finish()
}

/// How many of some classified files are of a kind.
pub open spec fn kind_count(classifications: Seq<ClassificationView>, kind: BootstrapKind) -> nat
    decreases classifications.len(),
{
    if classifications.len() == 0 {
        0
    } else {
        kind_count(classifications.drop_last(), kind) + if classifications.last().kind == kind {
            1nat
        } else {
            0nat
        }
    }
}

/// How many of some classified files are of each kind: cli, other and bootstrap-dependency.
pub fn count_kinds(classifications: &[FileClassification]) -> (r: (usize, usize, usize))
    ensures
        r.0 == kind_count(classification_views(classifications@), BootstrapKind::Cli),
        r.1 == kind_count(classification_views(classifications@), BootstrapKind::Other),
        r.2 == kind_count(classification_views(classifications@), BootstrapKind::BootstrapDependency),
        r.0 + r.1 + r.2 == classifications@.len(),
{
    let ghost all = classification_views(classifications@);
    let mut cli: usize = 0;
    let mut other: usize = 0;
    let mut dependency: usize = 0;
    let mut i: usize = 0;
    while i < classifications.len()
        invariant
            i <= classifications.len(),
            all == classification_views(classifications@),
            cli == kind_count(all.take(i as int), BootstrapKind::Cli),
            other == kind_count(all.take(i as int), BootstrapKind::Other),
            dependency == kind_count(all.take(i as int), BootstrapKind::BootstrapDependency),
            cli + other + dependency == i,
        decreases classifications.len() - i,
    {
        assert(all.take(i + 1).drop_last() =~= all.take(i as int));
        assert(all.take(i + 1).last() == classifications@[i as int]@);
        match classifications[i].kind {
            BootstrapKind::Cli => {
                cli += 1;
            },
            BootstrapKind::Other => {
                other += 1;
            },
            BootstrapKind::BootstrapDependency => {
                dependency += 1;
            },
        }
        i += 1;
    }
    assert(all.take(i as int) =~= all);
    (cli, other, dependency)
}

/// The summary of an entry point scan that took `elapsed`.
pub open spec fn summary_text(
    scanned: nat,
    elapsed: Seq<char>,
    cli_count: nat,
    other_count: nat,
    dependency_count: nat,
) -> Seq<char> {
    "Scanned "@ + decimal(scanned) + " PHP files in "@ + elapsed + ", found "@ + decimal(cli_count) + " cli, "@
        + decimal(other_count) + " other, "@ + decimal(dependency_count) + " bootstrap-dependency files"@
}

/// The summary of an entry point scan that took `elapsed`.
pub fn format_summary(
    scanned: usize,
    elapsed: &str,
    cli_count: usize,
    other_count: usize,
    dependency_count: usize,
) -> (r: String)
    ensures
        r@ == summary_text(
            scanned as nat,
            elapsed@,
            cli_count as nat,
            other_count as nat,
            dependency_count as nat,
        ),
{
    let a = concat3("Scanned ", &decimal_of(scanned as u64), " PHP files in ");
    let b = concat3(&a, elapsed, ", found ");
    let c = concat3(&b, &decimal_of(cli_count as u64), " cli, ");
    let d = concat3(&c, &decimal_of(other_count as u64), " other, ");
    concat3(&d, &decimal_of(dependency_count as u64), " bootstrap-dependency files")
}

} // verus!
