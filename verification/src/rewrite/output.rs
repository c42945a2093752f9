//! Writes a path scan out as a CSV document, in the same format as the report of path references
//! with categories, plus a `still_needs_rewrite` column (see
//! [`crate::rewrite::decide::still_needs_rewrite`]) so the scan after a rewrite, most of which is
//! expected to already be in its final form, can be filtered down to whatever isn't yet.
//!
//! [`AuditWriter`] additionally supports the audit trail of a rewrite: the scan before it plus a
//! `rewritten_to` column recording what each reference was rewritten to, if anything.

use vstd::prelude::*;

use crate::collections::StringSet;
use crate::moodle::scan::CategorisedReference;
use crate::moodle::scan::ReferenceView;
use crate::moodle::scan::reference_views;
use crate::report::document::Document;
use crate::report::document::csv_document;
use crate::report::document::csv_line;
use crate::report::document::document_grows;
use crate::report::document::sanitize;
use crate::report::document::single_line;
use crate::report::paths::header;
use crate::report::paths::path_header;
use crate::report::paths::record_fields;
use crate::report::paths::reference_fields;
use crate::rewrite::decide::is_static;
use crate::rewrite::decide::outstanding;
use crate::rewrite::decide::still_needs_rewrite;
use crate::text::copy;
use crate::text::texts;

verus! {

/// The name of a truth value.
pub open spec fn truth(value: bool) -> Seq<char> {
    if value {
        "true"@
    } else {
        "false"@
    }
}

/// The record of a reference after a rewrite.
pub open spec fn after_row(reference: ReferenceView, entry_points: Set<Seq<char>>) -> Seq<Seq<char>> {
    reference_fields(reference).push(truth(outstanding(reference, entry_points)))
}

/// The record of a reference in the audit trail.
pub open spec fn audit_row(reference: ReferenceView, rewritten_to: Seq<char>) -> Seq<Seq<char>> {
    reference_fields(reference).push(single_line(rewritten_to))
}

fn header_with(column: &str) -> (r: Vec<String>)
    ensures
        texts(r@) == path_header(true, true).push(column@),
        r.len() >= 2,
{
    let mut r = header(true, true);
    let ghost before = texts(r@);
    r.push(copy(column));
    assert(texts(r@) =~= before.push(column@));
    assert(texts(r@).len() == r.len());
    r
}

/// The `references` as a CSV document. Each record carries one more column than the report of path
/// references, `still_needs_rewrite` ("true"/"false").
pub fn write_csv(references: &[CategorisedReference], entry_point_files: &StringSet) -> (r: String)
    requires
        forall|i: int|
            0 <= i < references@.len() ==> (is_static((#[trigger] references@[i]).category) ==> references@[i].target
                is Some),
    ensures
        r@ == csv_document(
            seq![path_header(true, true).push("still_needs_rewrite"@)] + Seq::new(
                references@.len(),
                |i: int| after_row(references@[i]@, entry_point_files@),
            ),
        ),
{
    let head = header_with("still_needs_rewrite");
    let ghost top = seq![texts(head@)];
    let ghost rows = Seq::new(references@.len(), |i: int| after_row(references@[i]@, entry_point_files@));
    let mut document = Document::new(&head);
    let mut i: usize = 0;
    assert(top + rows.take(0) =~= top);
    while i < references.len()
        invariant
            i <= references.len(),
            forall|i: int|
                0 <= i < references@.len() ==> (is_static((#[trigger] references@[i]).category)
                    ==> references@[i].target is Some),
            rows == Seq::new(references@.len(), |i: int| after_row(references@[i]@, entry_point_files@)),
            document.written() == csv_document(top + rows.take(i as int)),
        decreases references.len() - i,
    {
        let reference = &references[i];
        let mut fields = record_fields(reference);
        let ghost before = texts(fields@);
        let outstanding = still_needs_rewrite(reference, entry_point_files);
        fields.push(copy(if outstanding {
            "true"
        } else {
            "false"
        }));
        assert(texts(fields@) =~= before.push(truth(outstanding)));
        assert(texts(fields@).len() == fields.len());
        document.add_record(&fields);
        proof {
            document_grows(top + rows.take(i as int), rows[i as int]);
            assert((top + rows.take(i as int)).push(rows[i as int]) =~= top + rows.take(i + 1));
        }
        i += 1;
    }
    assert(rows.take(i as int) =~= rows);
    document.finish()
}

/// The audit trail of a rewrite: the same records as [`write_csv`] makes, with a `rewritten_to`
/// column in place of its last, one at a time as each reference is decided.
#[derive(Debug)]
pub struct AuditWriter {
    document: Document,
}

impl AuditWriter {
    /// What has been written.
    pub closed spec fn written(&self) -> Seq<char> {
        self.document.written()
    }

    /// An audit trail with no records yet but its header.
    pub fn create() -> (audit: Self)
        ensures
            audit.written() == csv_document(seq![path_header(true, true).push("rewritten_to"@)]),
    {
        AuditWriter { document: Document::new(&header_with("rewritten_to")) }
    }

    /// Writes one record for `reference`. `rewritten_to` is the expression `reference` was rewritten
    /// to, or empty if it was left unchanged.
    pub fn write_row(&mut self, reference: &CategorisedReference, rewritten_to: &str)
        ensures
            final(self).written() == old(self).written() + csv_line(audit_row(reference@, rewritten_to@)),
    {
        let mut fields = record_fields(reference);
        let ghost common = texts(fields@);
        let last = sanitize(rewritten_to);
        fields.push(last);
        assert(texts(fields@) =~= common.push(last@));
        assert(texts(fields@).len() == fields.len());
        self.document.add_record(&fields);
    }

    /// The audit trail as a CSV document.
    pub fn finish(self) -> (text: String)
        ensures
            text@ == self.written(),
    {
        self.document.finish()
    }
}

/// The records of the audit trail of some references, given what each is rewritten to.
pub open spec fn audit_rows(references: Seq<ReferenceView>, rewritten_to: Seq<Seq<char>>) -> Seq<Seq<Seq<char>>> {
    Seq::new(references.len(), |i: int| audit_row(references[i], rewritten_to[i]))
}

/// The audit trail of all of some references, given what each is rewritten to.
pub fn write_audit(references: &[CategorisedReference], rewritten_to: &Vec<String>) -> (r: String)
    requires
        references@.len() == rewritten_to.len(),
    ensures
        r@ == csv_document(
            seq![path_header(true, true).push("rewritten_to"@)] + audit_rows(
                reference_views(references@),
                texts(rewritten_to@),
            ),
        ),
{
    let ghost rows = audit_rows(reference_views(references@), texts(rewritten_to@));
    let ghost top = seq![path_header(true, true).push("rewritten_to"@)];
    let mut audit = AuditWriter::create();
    let mut i: usize = 0;
    assert(top + rows.take(0) =~= top);
    while i < references.len()
        invariant
            i <= references.len(),
            references@.len() == rewritten_to.len(),
            rows == audit_rows(reference_views(references@), texts(rewritten_to@)),
            audit.written() == csv_document(top + rows.take(i as int)),
        decreases references.len() - i,
    {
        audit.write_row(&references[i], &rewritten_to[i]);
        proof {
            assert(rows[i as int] == audit_row(references@[i as int]@, rewritten_to@[i as int]@));
            document_grows(top + rows.take(i as int), rows[i as int]);
            assert((top + rows.take(i as int)).push(rows[i as int]) =~= top + rows.take(i + 1));
        }
        i += 1;
    }
    assert(rows.take(i as int) =~= rows);
    audit.finish()
}

} // verus!
