//! CSV documents that Excel can read: a byte-order mark, and records that end with CRLF.

use csv::Terminator;
use csv::WriterBuilder;
use vstd::prelude::*;
use vstd::string::*;

use crate::text::chars_of;
use crate::text::copy;
use crate::text::decimal;
use crate::text::decimal_of;
use crate::text::join;
use crate::text::texts;

verus! {

/// Whether a field has to be quoted: it holds a quote, a comma or a line end.
pub open spec fn needs_quotes(field: Seq<char>) -> bool {
    field.contains('"') || field.contains(',') || field.contains('\r') || field.contains('\n')
}

/// A text with each quote doubled.
pub open spec fn doubled(text: Seq<char>) -> Seq<char>
    decreases text.len(),
{
    if text.len() == 0 {
        text
    } else if text.last() == '"' {
        doubled(text.drop_last()).push('"').push('"')
    } else {
        doubled(text.drop_last()).push(text.last())
    }
}

/// A field as it stands in a record.
pub open spec fn csv_field(field: Seq<char>) -> Seq<char> {
    if needs_quotes(field) {
        seq!['"'] + doubled(field) + seq!['"']
    } else {
        field
    }
}

/// A record: its fields with commas between them, and a line end.
pub open spec fn csv_line(fields: Seq<Seq<char>>) -> Seq<char> {
    join(Seq::new(fields.len(), |i: int| csv_field(fields[i])), seq![',']) + seq!['\r', '\n']
}

/// Calls `csv::Writer::write_record`, with CRLF as the terminator and all else as
/// `csv::WriterBuilder` has it by default, on one record of at least two fields, and returns the
/// text it writes. The claim is that the fields are written with commas between them and CRLF
/// after them, those that hold a quote, a comma, CR or LF being put in quotes with their own quotes
/// doubled.
#[verifier::external_body]
fn write_record(fields: &Vec<String>) -> (line: String)
    requires
        fields.len() >= 2,
    ensures
        line@ == csv_line(texts(fields@)),
{
    let mut writer = WriterBuilder::new().terminator(Terminator::CRLF).from_writer(Vec::new());
    writer.write_record(fields).ok();
    String::from_utf8(writer.into_inner().unwrap_or_default()).unwrap_or_default()
}

/// Some records, one after the other.
pub open spec fn csv_lines(rows: Seq<Seq<Seq<char>>>) -> Seq<char>
    decreases rows.len(),
{
    if rows.len() == 0 {
        Seq::<char>::empty()
    } else {
        csv_lines(rows.drop_last()) + csv_line(rows.last())
    }
}

/// A CSV document: the byte-order mark that hints to Excel that what follows is UTF-8, and the
/// records, the first of which is the header.
pub open spec fn csv_document(rows: Seq<Seq<Seq<char>>>) -> Seq<char> {
    seq!['\u{feff}'] + csv_lines(rows)
}

/// A CSV document that is being written.
#[derive(Debug)]
pub struct Document {
    text: String,
}

impl Document {
    /// What has been written.
    pub closed spec fn written(&self) -> Seq<char> {
        self.text@
    }

    /// A document with the record `header`.
    pub fn new(header: &Vec<String>) -> (document: Self)
        requires
            header.len() >= 2,
        ensures
            document.written() == csv_document(seq![texts(header@)]),
    {
        let mut text = String::new();
        text.push('\u{feff}');
        text.append(&write_record(header));
        proof {
            let rows = seq![texts(header@)];
            assert(rows.drop_last() =~= Seq::<Seq<Seq<char>>>::empty());
            assert(csv_lines(rows.drop_last()) =~= Seq::<char>::empty());
            assert(text@ =~= csv_document(rows));
        }
        Document { text }
    }

    /// Adds a record.
    pub fn add_record(&mut self, fields: &Vec<String>)
        requires
            fields.len() >= 2,
        ensures
            final(self).written() == old(self).written() + csv_line(texts(fields@)),
    {
        self.text.append(&write_record(fields));
    }

    /// The text of the document.
    pub fn finish(self) -> (text: String)
        ensures
            text@ == self.written(),
    {
        self.text
    }
}

/// A document grows by its records.
pub proof fn document_grows(rows: Seq<Seq<Seq<char>>>, row: Seq<Seq<char>>)
    ensures
        csv_document(rows.push(row)) == csv_document(rows) + csv_line(row),
{
    assert(rows.push(row).drop_last() =~= rows);
    assert(csv_document(rows.push(row)) =~= csv_document(rows) + csv_line(row));
}

/// A field on a single line: tabs become spaces, and line feeds are written as '\n'.
pub open spec fn single_line(field: Seq<char>) -> Seq<char>
    decreases field.len(),
{
    if field.len() == 0 {
        field
    } else if field.last() == '\t' {
        single_line(field.drop_last()).push(' ')
    } else if field.last() == '\n' {
        single_line(field.drop_last()).push('\\').push('n')
    } else {
        single_line(field.drop_last()).push(field.last())
    }
}

/// Collapses a field onto a single line so each CSV record stays one row in Excel.
pub fn sanitize(field: &str) -> (r: String)
    ensures
        r@ == single_line(field@),
{
    let chars = chars_of(field);
    let mut r = String::new();
    let mut i: usize = 0;
    while i < chars.len()
        invariant
            i <= chars.len(),
            chars@ == field@,
            r@ == single_line(field@.take(i as int)),
        decreases chars.len() - i,
    {
        let c = chars[i];
        assert(field@.take(i + 1).drop_last() =~= field@.take(i as int));
        if c == '\t' {
            r.push(' ');
        } else if c == '\n' {
            r.push('\\');
            r.push('n');
        } else {
            r.push(c);
        }
        i += 1;
    }
    assert(field@.take(i as int) =~= field@);
    r
}

/// No record spans two lines: a sanitized field holds no line feed.
pub proof fn single_line_has_no_line_feed(field: Seq<char>)
    ensures
        !single_line(field).contains('\n'),
        !single_line(field).contains('\t'),
    decreases field.len(),
{
    if field.len() > 0 {
        single_line_has_no_line_feed(field.drop_last());
        let before = single_line(field.drop_last());
        let after = single_line(field);
        assert forall|i: int| 0 <= i < after.len() implies after[i] != '\n' && after[i] != '\t' by {
            if i < before.len() {
                assert(before[i] == after[i]);
                assert(before[i] != '\n' && before[i] != '\t');
            }
        }
    }
}

/// The digits of an optional number; nothing if there is none.
pub open spec fn number_field(n: Option<usize>) -> Seq<char> {
    match n {
        Some(n) => decimal(n as nat),
        None => Seq::<char>::empty(),
    }
}

/// `Some(value)` as its string form, `None` as an empty string.
pub fn opt_to_string(n: Option<usize>) -> (r: String)
    ensures
        r@ == number_field(n),
{
    match n {
        Some(n) => decimal_of(n as u64),
        None => String::new(),
    }
}

/// An optional text; nothing if there is none.
pub open spec fn text_field(text: Option<Seq<char>>) -> Seq<char> {
    match text {
        Some(text) => text,
        None => Seq::<char>::empty(),
    }
}

/// An optional text; nothing if there is none.
pub fn text_or_empty(text: &Option<String>) -> (r: String)
    ensures
        r@ == text_field(crate::path_finder::text_of(*text)),
{
    match text {
        Some(text) => copy(text),
        None => String::new(),
    }
}

} // verus!
