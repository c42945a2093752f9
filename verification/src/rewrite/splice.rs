//! Turns the decisions of [`crate::rewrite::decide`] into edits, and applies them to the contents
//! of files.

use vstd::prelude::*;
use vstd::utf8::decode_utf8_encode_utf8;
use vstd::utf8::encode_utf8;
use vstd::utf8::encode_utf8_valid_utf8;
use vstd::utf8::is_char_boundary;
use vstd::utf8::is_char_boundary_iff_not_is_continuation_byte;
use vstd::utf8::is_char_boundary_start_end_of_seq;
use vstd::utf8::is_continuation_byte;
use vstd::utf8::valid_utf8;
use vstd::utf8::valid_utf8_concat;
use vstd::utf8::valid_utf8_split;

use crate::collections::StringMap;
use crate::collections::StringSet;
use crate::moodle::categorise::PathCategory;
use crate::moodle::scan::CategorisedReference;
use crate::moodle::scan::Codebase;
use crate::moodle::scan::ReferenceView;
use crate::moodle::scan::categorised_file;
use crate::moodle::scan::reference_views;
use crate::path_finder::PathResult;
use crate::path_finder::expression::Source;
use crate::path_finder::finder::overlap;
use crate::path_finder::finder::references_are_distinct;
use crate::path_finder::path_views;
use crate::path_finder::syntax::Syntax;
use crate::path_finder::syntax::lossy_text;
use crate::path_finder::syntax::utf8_lossy;
use crate::rewrite::decide::decide;
use crate::rewrite::decide::decision;
use crate::rewrite::decide::eligible;
use crate::rewrite::decide::is_eligible;
use crate::rewrite::decide::is_static;
use crate::text::copy;
use crate::text::texts;

verus! {

/// The replacement of the bytes from `start` up to `end` of a file.
#[derive(Debug)]
pub struct Edit {
    pub start: usize,
    pub end: usize,
    pub replacement: String,
}

/// The replacement of some bytes, as plain values.
pub struct EditView {
    pub start: int,
    pub end: int,
    pub replacement: Seq<char>,
}

impl View for Edit {
    type V = EditView;

    open spec fn view(&self) -> EditView {
        EditView { start: self.start as int, end: self.end as int, replacement: self.replacement@ }
    }
}

/// Some edits, as plain values.
pub open spec fn edit_views(edits: Seq<Edit>) -> Seq<EditView> {
    Seq::new(edits.len(), |i: int| edits[i]@)
}

// ---------------------------------------------------------------------------------------------
// Planning.

/// What a reference is replaced with, if it is: every category but the eligible ones is left
/// untouched.
pub open spec fn replacement(reference: ReferenceView, entry_points: Set<Seq<char>>) -> Option<Seq<char>> {
    if eligible(reference.category) {
        decision(reference, entry_points)
    } else {
        None
    }
}

/// What the reference is replaced with, or nothing.
pub open spec fn rewritten_text(reference: ReferenceView, entry_points: Set<Seq<char>>) -> Seq<char> {
    match replacement(reference, entry_points) {
        Some(text) => text,
        None => Seq::<char>::empty(),
    }
}

/// Whether the place of a reference is known, if it is replaced.
pub open spec fn placed(reference: ReferenceView, entry_points: Set<Seq<char>>) -> bool {
    replacement(reference, entry_points) is Some ==> reference.result.start_pos is Some
        && reference.result.end_pos is Some
}

/// Whether it can be planned what to do with a reference: one that is categorised by its component has
/// a target, and one that is replaced has a place.
pub open spec fn plannable(reference: ReferenceView, entry_points: Set<Seq<char>>) -> bool {
    &&& is_static(reference.category) ==> reference.target is Some
    &&& placed(reference, entry_points)
}

/// How many of some references are replaced.
pub open spec fn rewritten_count(references: Seq<ReferenceView>, entry_points: Set<Seq<char>>) -> nat
    decreases references.len(),
{
    if references.len() == 0 {
        0
    } else {
        rewritten_count(references.drop_last(), entry_points) + if replacement(
            references.last(),
            entry_points,
        ) is Some {
            1nat
        } else {
            0nat
        }
    }
}

/// The edits of the file `file`, in the order of the references.
pub open spec fn edits_of(
    references: Seq<ReferenceView>,
    entry_points: Set<Seq<char>>,
    file: Seq<char>,
) -> Seq<EditView>
    decreases references.len(),
{
    if references.len() == 0 {
        Seq::<EditView>::empty()
    } else {
        let before = edits_of(references.drop_last(), entry_points, file);
        let last = references.last();
        match replacement(last, entry_points) {
            Some(text) => if last.file == file {
                before.push(
                    EditView {
                        start: last.result.start_pos->0 as int,
                        end: last.result.end_pos->0 as int,
                        replacement: text,
                    },
                )
            } else {
                before
            },
            None => before,
        }
    }
}

/// What is to be done with some references.
#[derive(Debug)]
pub struct Plan {
    /// The edits of each file that has any.
    pub edits: StringMap<Vec<Edit>>,
    /// What each reference is replaced with; empty for those left untouched.
    pub rewritten_to: Vec<String>,
    /// How many references are replaced.
    pub rewritten: usize,
}

impl Plan {
    /// Whether this is what is to be done with `references`.
    pub open spec fn of(&self, references: Seq<ReferenceView>, entry_points: Set<Seq<char>>) -> bool {
        &&& forall|file: Seq<char>|
            edit_views(#[trigger] self.edits.listed(file)) == edits_of(references, entry_points, file)
        &&& texts(self.rewritten_to@) == Seq::new(
            references.len(),
            |i: int| rewritten_text(references[i], entry_points),
        )
        &&& self.rewritten == rewritten_count(references, entry_points)
    }
}

/// Whether it can be planned what to do with all of some references.
pub open spec fn all_plannable(references: Seq<ReferenceView>, entry_points: Set<Seq<char>>) -> bool {
    forall|i: int| 0 <= i < references.len() ==> plannable(#[trigger] references[i], entry_points)
}

/// Whether it can be planned what to do with all of some references.
pub fn can_plan(references: &[CategorisedReference], entry_point_files: &StringSet) -> (r: bool)
    ensures
        r == all_plannable(reference_views(references@), entry_point_files@),
{
    let ghost all = reference_views(references@);
    let ghost entry_points = entry_point_files@;
    let mut i: usize = 0;
    while i < references.len()
        invariant
            i <= references.len(),
            all == reference_views(references@),
            entry_points == entry_point_files@,
            forall|k: int| 0 <= k < i ==> plannable(#[trigger] all[k], entry_points),
        decreases references.len() - i,
    {
        let reference = &references[i];
        assert(all[i as int] == reference@);
        let by_component = matches!(
            reference.category,
            PathCategory::StaticSameComponent | PathCategory::StaticDifferentComponent
        );
        if by_component && reference.target.is_none() {
            assert(!plannable(all[i as int], entry_points));
            return false;
        }
        if is_eligible(reference.category) && (reference.result.start_pos.is_none()
            || reference.result.end_pos.is_none()) && decide(reference, entry_point_files).is_some() {
            assert(!plannable(all[i as int], entry_points));
            return false;
        }
        i += 1;
    }
    true
}

/// Decides on every reference, and gathers the edits by file.
pub fn plan(references: &[CategorisedReference], entry_point_files: &StringSet) -> (r: Plan)
    requires
        all_plannable(reference_views(references@), entry_point_files@),
    ensures
        r.of(reference_views(references@), entry_point_files@),
{
    let ghost all = reference_views(references@);
    let ghost entry_points = entry_point_files@;
    let ghost rows = Seq::new(all.len(), |i: int| rewritten_text(all[i], entry_points));
    let mut edits: StringMap<Vec<Edit>> = StringMap::new();
    let mut rewritten_to: Vec<String> = Vec::new();
    let mut rewritten: usize = 0;
    let mut i: usize = 0;
    assert forall|file: Seq<char>| edit_views(#[trigger] edits.listed(file)) == edits_of(
        all.take(0),
        entry_points,
        file,
    ) by {
        assert(edit_views(edits.listed(file)) =~= edits_of(all.take(0), entry_points, file));
    }
    while i < references.len()
        invariant
            i <= references.len(),
            all == reference_views(references@),
            entry_points == entry_point_files@,
            rows == Seq::new(all.len(), |i: int| rewritten_text(all[i], entry_points)),
            all_plannable(all, entry_points),
            forall|file: Seq<char>|
                edit_views(#[trigger] edits.listed(file)) == edits_of(all.take(i as int), entry_points, file),
            texts(rewritten_to@) == rows.take(i as int),
            rewritten == rewritten_count(all.take(i as int), entry_points),
            rewritten <= i,
        decreases references.len() - i,
    {
        let reference = &references[i];
        assert(all[i as int] == reference@);
        assert(plannable(all[i as int], entry_points));
        assert(all.take(i + 1).drop_last() =~= all.take(i as int));
        assert(all.take(i + 1).last() == reference@);
        let ghost before = texts(rewritten_to@);
        let mut text = String::new();
        if is_eligible(reference.category) {
            if let Some(found) = decide(reference, entry_point_files) {
                let start = match reference.result.start_pos {
                    Some(start) => start,
                    None => 0,
                };
                let end = match reference.result.end_pos {
                    Some(end) => end,
                    None => 0,
                };
                let ghost had = edits;
                let edit = Edit { start, end, replacement: copy(&found) };
                let ghost view = edit@;
                edits.append(copy(&reference.file), edit);
                assert(edit_views(edits.listed(reference.file@)) =~= edit_views(had.listed(reference.file@)).push(view));
                text = found;
                rewritten += 1;
            }
        }
        rewritten_to.push(text);
        assert(texts(rewritten_to@) =~= before.push(rows[i as int]));
        assert(rows.take(i + 1) =~= rows.take(i as int).push(rows[i as int]));
        assert forall|file: Seq<char>| edit_views(#[trigger] edits.listed(file)) == edits_of(
            all.take(i + 1),
            entry_points,
            file,
        ) by {}
        i += 1;
    }
    assert(all.take(i as int) =~= all);
    assert(rows.take(i as int) =~= rows);
    Plan { edits, rewritten_to, rewritten }
}

// ---------------------------------------------------------------------------------------------
// Applying.

/// `edit` put at its place among edits that are in descending order of their start: before the first
/// that starts earlier.
pub open spec fn put_in_place(edits: Seq<EditView>, edit: EditView) -> Seq<EditView>
    decreases edits.len(),
{
    if edits.len() > 0 && edits.last().start < edit.start {
        put_in_place(edits.drop_last(), edit).push(edits.last())
    } else {
        edits.push(edit)
    }
}

/// Edits in descending order of their start, those of the same start in their given order: back to
/// front, so that the place of each edit is still valid once those after it have been made.
pub open spec fn back_to_front(edits: Seq<EditView>) -> Seq<EditView>
    decreases edits.len(),
{
    if edits.len() == 0 {
        edits
    } else {
        put_in_place(back_to_front(edits.drop_last()), edits.last())
    }
}

/// What one edit makes of some bytes.
pub open spec fn replaced(bytes: Seq<u8>, edit: EditView) -> Seq<u8> {
    bytes.take(edit.start) + encode_utf8(edit.replacement) + bytes.skip(edit.end)
}

/// What some edits, made one after the other, make of some bytes.
pub open spec fn spliced(bytes: Seq<u8>, edits: Seq<EditView>) -> Seq<u8>
    decreases edits.len(),
{
    if edits.len() == 0 {
        bytes
    } else {
        replaced(spliced(bytes, edits.drop_last()), edits.last())
    }
}

/// Whether the place of each edit lies within what the edits before it have made.
pub open spec fn within(bytes: Seq<u8>, edits: Seq<EditView>) -> bool
    decreases edits.len(),
{
    edits.len() > 0 ==> {
        &&& within(bytes, edits.drop_last())
        &&& 0 <= edits.last().start <= edits.last().end <= spliced(bytes, edits.drop_last()).len()
    }
}

/// Whether a character starts at `at`, or the text ends there: no character is cut in two.
pub open spec fn between_chars(bytes: Seq<u8>, at: int) -> bool {
    at == 0 || at == bytes.len() || 0 < at < bytes.len() && !is_continuation_byte(bytes[at])
}

/// Whether the place of each edit lies within what the edits before it have made, and starts and ends
/// between two characters of it.
pub open spec fn fit(bytes: Seq<u8>, edits: Seq<EditView>) -> bool
    decreases edits.len(),
{
    edits.len() > 0 ==> {
        let so_far = spliced(bytes, edits.drop_last());
        &&& fit(bytes, edits.drop_last())
        &&& 0 <= edits.last().start <= edits.last().end <= so_far.len()
        &&& between_chars(so_far, edits.last().start)
        &&& between_chars(so_far, edits.last().end)
    }
}

fn is_between_chars(bytes: &Vec<u8>, at: usize) -> (r: bool)
    ensures
        r == between_chars(bytes@, at as int),
{
    at == 0 || at == bytes.len() || at < bytes.len() && (bytes[at] < 0x80 || bytes[at] > 0xbf)
}

/// The places of some edits in the order in which they are to be made.
fn order_of(edits: &Vec<Edit>) -> (order: Vec<usize>)
    ensures
        order.len() == edits.len(),
        forall|k: int| 0 <= k < order.len() ==> order@[k] < edits.len(),
        Seq::new(order@.len(), |k: int| edits@[order@[k] as int]@) == back_to_front(edit_views(edits@)),
{
    let ghost all = edit_views(edits@);
    let mut order: Vec<usize> = Vec::new();
    let mut i: usize = 0;
    assert(Seq::new(order@.len(), |k: int| edits@[order@[k] as int]@) =~= back_to_front(all.take(0)));
    while i < edits.len()
        invariant
            i <= edits.len(),
            all == edit_views(edits@),
            order.len() == i,
            forall|k: int| 0 <= k < order.len() ==> order@[k] < edits.len(),
            Seq::new(order@.len(), |k: int| edits@[order@[k] as int]@) == back_to_front(all.take(i as int)),
        decreases edits.len() - i,
    {
        assert(all.take(i + 1).drop_last() =~= all.take(i as int));
        let ghost before = Seq::new(order@.len(), |k: int| edits@[order@[k] as int]@);
        let ghost edit = edits@[i as int]@;
        let ghost had = order@;
        let mut place: usize = order.len();
        assert(before.take(place as int) =~= before);
        assert(before.skip(place as int) =~= Seq::<EditView>::empty());
        assert(put_in_place(before, edit) =~= put_in_place(before.take(place as int), edit) + before.skip(place as int));
        while place > 0 && edits[order[place - 1]].start < edits[i].start
            invariant
                i < edits.len(),
                place <= order.len(),
                order@ == had,
                edit == edits@[i as int]@,
                forall|k: int| 0 <= k < order.len() ==> order@[k] < edits.len(),
                before == Seq::new(order@.len(), |k: int| edits@[order@[k] as int]@),
                put_in_place(before, edit) == put_in_place(before.take(place as int), edit) + before.skip(
                    place as int,
                ),
            decreases place,
        {
            let ghost front = before.take(place as int);
            assert(front.last() == edits@[order@[place - 1] as int]@);
            assert(front.drop_last() =~= before.take(place - 1));
            assert(put_in_place(front, edit) == put_in_place(front.drop_last(), edit).push(front.last()));
            assert(put_in_place(front, edit) + before.skip(place as int) =~= put_in_place(
                before.take(place - 1),
                edit,
            ) + before.skip(place - 1));
            place -= 1;
        }
        assert(put_in_place(before.take(place as int), edit) == before.take(place as int).push(edit));
        order.insert(place, i);
        assert(Seq::new(order@.len(), |k: int| edits@[order@[k] as int]@) =~= before.take(place as int).push(edit)
            + before.skip(place as int));
        i += 1;
    }
    assert(all.take(i as int) =~= all);
    order
}

/// Makes one edit.
fn replace(bytes: &Vec<u8>, edit: &Edit) -> (r: Vec<u8>)
    requires
        edit.start <= edit.end <= bytes.len(),
    ensures
        r@ == replaced(bytes@, edit@),
{
    let mut r: Vec<u8> = Vec::new();
    let mut i: usize = 0;
    while i < edit.start
        invariant
            i <= edit.start <= bytes.len(),
            r@ == bytes@.take(i as int),
        decreases edit.start - i,
    {
        r.push(bytes[i]);
        assert(bytes@.take(i + 1) =~= bytes@.take(i as int).push(bytes@[i as int]));
        i += 1;
    }
    let text = edit.replacement.as_str().as_bytes();
    let ghost new = encode_utf8(edit.replacement@);
    let mut k: usize = 0;
    assert(r@ =~= bytes@.take(edit.start as int) + new.take(0));
    while k < text.len()
        invariant
            k <= text.len(),
            text@ == new,
            r@ == bytes@.take(edit.start as int) + new.take(k as int),
        decreases text.len() - k,
    {
        r.push(text[k]);
        assert(new.take(k + 1) =~= new.take(k as int).push(new[k as int]));
        assert(r@ =~= bytes@.take(edit.start as int) + new.take(k + 1));
        k += 1;
    }
    assert(new.take(k as int) =~= new);
    let ghost front = bytes@.take(edit.start as int) + new;
    let mut j: usize = edit.end;
    assert(r@ =~= front + bytes@.subrange(edit.end as int, j as int));
    while j < bytes.len()
        invariant
            edit.end <= j <= bytes.len(),
            r@ == front + bytes@.subrange(edit.end as int, j as int),
        decreases bytes.len() - j,
    {
        r.push(bytes[j]);
        assert(bytes@.subrange(edit.end as int, j + 1) =~= bytes@.subrange(edit.end as int, j as int).push(
            bytes@[j as int],
        ));
        assert(r@ =~= front + bytes@.subrange(edit.end as int, j + 1));
        j += 1;
    }
    assert(r@ =~= replaced(bytes@, edit@));
    r
}

/// Makes all edits of a file, back to front; `None` if the place of one does not lie within the
/// file, or cuts a character in two.
pub fn splice(bytes: &[u8], edits: &Vec<Edit>) -> (r: Option<Vec<u8>>)
    ensures
        r is Some == fit(bytes@, back_to_front(edit_views(edits@))),
        r matches Some(new) ==> new@ == spliced(bytes@, back_to_front(edit_views(edits@))),
{
    let order = order_of(edits);
    let ghost all = back_to_front(edit_views(edits@));
    let mut current: Vec<u8> = vstd::slice::slice_to_vec(bytes);
    let mut i: usize = 0;
    assert(all.take(0) =~= Seq::<EditView>::empty());
    while i < order.len()
        invariant
            i <= order.len(),
            order.len() == all.len(),
            all == back_to_front(edit_views(edits@)),
            all == Seq::new(order@.len(), |k: int| edits@[order@[k] as int]@),
            forall|k: int| 0 <= k < order.len() ==> order@[k] < edits.len(),
            fit(bytes@, all.take(i as int)),
            current@ == spliced(bytes@, all.take(i as int)),
        decreases order.len() - i,
    {
        let edit = &edits[order[i]];
        assert(all[i as int] == edit@);
        assert(all.take(i + 1).drop_last() =~= all.take(i as int));
        assert(all.take(i + 1).last() == edit@);
        if edit.start > edit.end || edit.end > current.len() || !is_between_chars(&current, edit.start)
            || !is_between_chars(&current, edit.end) {
            proof {
                assert(!fit(bytes@, all.take(i + 1)));
                unfit_stays_unfit(bytes@, all, i + 1);
            }
            return None;
        }
        current = replace(&current, edit);
        i += 1;
    }
    assert(all.take(i as int) =~= all);
    Some(current)
}

/// Edits of which the first do not fit do not fit.
proof fn unfit_stays_unfit(bytes: Seq<u8>, edits: Seq<EditView>, n: int)
    requires
        0 <= n <= edits.len(),
        !fit(bytes, edits.take(n)),
    ensures
        !fit(bytes, edits),
    decreases edits.len(),
{
    if n < edits.len() {
        assert(edits.drop_last().take(n) =~= edits.take(n));
        unfit_stays_unfit(bytes, edits.drop_last(), n);
    } else {
        assert(edits.take(n) =~= edits);
    }
}

/// The contents of a file after all its edits, back to front; `None` if the place of one does not
/// lie within the file, or cuts a character in two. The file is decoded exactly as it was for scanning,
/// so the byte offsets recorded against it still land on the same characters; one that is valid UTF-8
/// keeps every byte outside its edits.
pub fn rewrite_file(bytes: &[u8], edits: &Vec<Edit>) -> (r: Option<Vec<u8>>)
    ensures
        ({
            let source = encode_utf8(utf8_lossy(bytes@));
            let ordered = back_to_front(edit_views(edits@));
            &&& r is Some == fit(source, ordered)
            &&& r matches Some(new) ==> new@ == spliced(source, ordered) && valid_utf8(new@)
            &&& valid_utf8(bytes@) ==> source == bytes@
        }),
{
    let source = lossy_text(bytes);
    let ghost text = encode_utf8(source@);
    proof {
        encode_utf8_valid_utf8(source@);
        if valid_utf8(bytes@) {
            decode_utf8_encode_utf8(bytes@);
        }
        if fit(text, back_to_front(edit_views(edits@))) {
            edits_keep_text_valid(text, back_to_front(edit_views(edits@)));
        }
    }
    splice(source.as_str().as_bytes(), edits)
}

// ---------------------------------------------------------------------------------------------
// Laws.

/// A reference of a category that is not eligible makes no edit and is replaced with nothing.
pub proof fn other_categories_are_left_untouched(
    references: Seq<ReferenceView>,
    entry_points: Set<Seq<char>>,
    file: Seq<char>,
)
    requires
        forall|i: int| 0 <= i < references.len() ==> !eligible((#[trigger] references[i]).category),
    ensures
        edits_of(references, entry_points, file).len() == 0,
        rewritten_count(references, entry_points) == 0,
        forall|i: int| 0 <= i < references.len() ==> rewritten_text(#[trigger] references[i], entry_points).len() == 0,
    decreases references.len(),
{
    if references.len() > 0 {
        assert forall|i: int| 0 <= i < references.drop_last().len() implies !eligible(
            (#[trigger] references.drop_last()[i]).category,
        ) by {
            assert(!eligible(references[i].category));
        }
        other_categories_are_left_untouched(references.drop_last(), entry_points, file);
        assert(!eligible(references[references.len() - 1].category));
    }
}

/// Edits that fit make text of text: none cuts a character in two.
pub proof fn edits_keep_text_valid(bytes: Seq<u8>, edits: Seq<EditView>)
    requires
        valid_utf8(bytes),
        fit(bytes, edits),
    ensures
        valid_utf8(spliced(bytes, edits)),
    decreases edits.len(),
{
    if edits.len() > 0 {
        let so_far = spliced(bytes, edits.drop_last());
        let edit = edits.last();
        edits_keep_text_valid(bytes, edits.drop_last());
        between_chars_is_boundary(so_far, edit.start);
        between_chars_is_boundary(so_far, edit.end);
        valid_utf8_split(so_far, edit.start);
        valid_utf8_split(so_far, edit.end);
        assert(so_far.subrange(0, edit.start) =~= so_far.take(edit.start));
        assert(so_far.subrange(edit.end, so_far.len() as int) =~= so_far.skip(edit.end));
        encode_utf8_valid_utf8(edit.replacement);
        valid_utf8_concat(so_far.take(edit.start), encode_utf8(edit.replacement));
        valid_utf8_concat(
            so_far.take(edit.start) + encode_utf8(edit.replacement),
            so_far.skip(edit.end),
        );
    }
}

/// In valid UTF-8, a place between two characters is a character boundary.
proof fn between_chars_is_boundary(bytes: Seq<u8>, at: int)
    requires
        valid_utf8(bytes),
        between_chars(bytes, at),
    ensures
        is_char_boundary(bytes, at),
{
    is_char_boundary_start_end_of_seq(bytes);
    if 0 < at < bytes.len() {
        is_char_boundary_iff_not_is_continuation_byte(bytes, at);
    }
}

/// What is encoded starts with a character.
proof fn encoded_starts_with_a_char(text: Seq<char>)
    ensures
        encode_utf8(text).len() > 0 ==> !is_continuation_byte(encode_utf8(text)[0]),
{
    encode_utf8_valid_utf8(text);
    if encode_utf8(text).len() > 0 {
        is_char_boundary_start_end_of_seq(encode_utf8(text));
        is_char_boundary_iff_not_is_continuation_byte(encode_utf8(text), 0);
    }
}

/// Edits within the first part of a text leave what follows it as it is.
pub proof fn edits_leave_the_rest_as_it_is(part: Seq<u8>, rest: Seq<u8>, edits: Seq<EditView>)
    requires
        within(part, edits),
    ensures
        within(part + rest, edits),
        spliced(part + rest, edits) == spliced(part, edits) + rest,
    decreases edits.len(),
{
    if edits.len() > 0 {
        edits_leave_the_rest_as_it_is(part, rest, edits.drop_last());
        let so_far = spliced(part, edits.drop_last());
        assert(replaced(so_far + rest, edits.last()) =~= replaced(so_far, edits.last()) + rest);
    }
}

/// Whether two edits have nothing in common, and neither is empty.
pub open spec fn apart(a: EditView, b: EditView) -> bool {
    &&& a.start < a.end
    &&& b.start < b.end
    &&& a.end <= b.start || b.end <= a.start
}

/// Whether all of some edits lie within a text of length `len`, and each two are apart.
pub open spec fn separate(edits: Seq<EditView>, len: int) -> bool {
    &&& forall|i: int| 0 <= i < edits.len() ==> 0 <= (#[trigger] edits[i]).start < edits[i].end <= len
    &&& forall|i: int, j: int| 0 <= i < j < edits.len() ==> apart(#[trigger] edits[i], #[trigger] edits[j])
}

/// Whether each of some edits ends before all those ahead of it start.
pub open spec fn descending(edits: Seq<EditView>) -> bool {
    forall|i: int, j: int| 0 <= i < j < edits.len() ==> (#[trigger] edits[j]).end <= (#[trigger] edits[i]).start
}

proof fn put_in_place_facts(edits: Seq<EditView>, edit: EditView, len: int)
    requires
        separate(edits, len),
        descending(edits),
        0 <= edit.start < edit.end <= len,
        forall|i: int| 0 <= i < edits.len() ==> apart(#[trigger] edits[i], edit),
    ensures
        separate(put_in_place(edits, edit), len),
        descending(put_in_place(edits, edit)),
        forall|other: EditView| #[trigger]
            put_in_place(edits, edit).contains(other) ==> other == edit || edits.contains(other),
        put_in_place(edits, edit).len() == edits.len() + 1,
    decreases edits.len(),
{
    let after = put_in_place(edits, edit);
    if edits.len() > 0 && edits.last().start < edit.start {
        let front = edits.drop_last();
        assert forall|i: int, j: int| 0 <= i < j < front.len() implies apart(#[trigger] front[i], #[trigger] front[j])
            && front[j].end <= front[i].start by {
            assert(apart(edits[i], edits[j]));
            assert(edits[j].end <= edits[i].start);
        }
        assert forall|i: int| 0 <= i < front.len() implies apart(#[trigger] front[i], edit) && 0 <= front[i].start
            < front[i].end <= len by {
            assert(apart(edits[i], edit));
        }
        put_in_place_facts(front, edit, len);
        let inner = put_in_place(front, edit);
        let last = edits.last();
        assert(apart(edits[edits.len() - 1], edit));
        assert forall|i: int| 0 <= i < inner.len() implies apart(#[trigger] inner[i], last) && last.end
            <= inner[i].start by {
            assert(inner.contains(inner[i]));
            if inner[i] != edit {
                let k = choose|k: int| 0 <= k < front.len() && front[k] == inner[i];
                assert(apart(edits[k], edits[edits.len() - 1]));
                assert(edits[edits.len() - 1].end <= edits[k].start);
            }
        }
        assert forall|other: EditView| #[trigger] after.contains(other) implies other == edit || edits.contains(
            other,
        ) by {
            let k = choose|k: int| 0 <= k < after.len() && after[k] == other;
            if k < inner.len() {
                assert(inner.contains(inner[k]));
                if other != edit {
                    let m = choose|m: int| 0 <= m < front.len() && front[m] == other;
                    assert(edits[m] == other);
                }
            } else {
                assert(edits[edits.len() - 1] == other);
            }
        }
    } else {
        assert forall|i: int| 0 <= i < edits.len() implies edit.end <= (#[trigger] edits[i]).start by {
            assert(apart(edits[i], edit));
            if i < edits.len() - 1 {
                assert(edits[edits.len() - 1].end <= edits[i].start);
                assert(edits[edits.len() - 1].start >= edit.start);
            }
            assert(apart(edits[edits.len() - 1], edit));
        }
        assert forall|other: EditView| #[trigger] after.contains(other) implies other == edit || edits.contains(
            other,
        ) by {
            let k = choose|k: int| 0 <= k < after.len() && after[k] == other;
            if k < edits.len() {
                assert(edits[k] == other);
            }
        }
    }
}

/// Ordering separate edits back to front keeps them separate, and puts each behind those that end
/// before it.
proof fn back_to_front_facts(edits: Seq<EditView>, len: int)
    requires
        separate(edits, len),
    ensures
        separate(back_to_front(edits), len),
        descending(back_to_front(edits)),
        forall|other: EditView| #[trigger] back_to_front(edits).contains(other) ==> edits.contains(other),
        back_to_front(edits).len() == edits.len(),
    decreases edits.len(),
{
    if edits.len() > 0 {
        let front = edits.drop_last();
        let last = edits.last();
        assert forall|i: int, j: int| 0 <= i < j < front.len() implies apart(
            #[trigger] front[i],
            #[trigger] front[j],
        ) by {
            assert(apart(edits[i], edits[j]));
        }
        assert forall|i: int| 0 <= i < front.len() implies 0 <= (#[trigger] front[i]).start < front[i].end
            <= len by {
            assert(edits[i].start >= 0);
        }
        back_to_front_facts(front, len);
        let ordered = back_to_front(front);
        assert(edits[edits.len() - 1].start >= 0);
        assert forall|i: int| 0 <= i < ordered.len() implies apart(#[trigger] ordered[i], last) by {
            assert(ordered.contains(ordered[i]));
            let k = choose|k: int| 0 <= k < front.len() && front[k] == ordered[i];
            assert(apart(edits[k], edits[edits.len() - 1]));
        }
        put_in_place_facts(ordered, last, len);
        assert forall|other: EditView| #[trigger] back_to_front(edits).contains(other) implies edits.contains(
            other,
        ) by {
            if other == last {
                assert(edits[edits.len() - 1] == other);
            } else {
                assert(ordered.contains(other));
                let k = choose|k: int| 0 <= k < front.len() && front[k] == other;
                assert(edits[k] == other);
            }
        }
    }
}

/// Descending edits lie within the file, and leave what comes before the last of them as it was.
proof fn descending_edits_are_within(bytes: Seq<u8>, edits: Seq<EditView>)
    requires
        separate(edits, bytes.len() as int),
        descending(edits),
    ensures
        within(bytes, edits),
        edits.len() > 0 ==> edits.last().start <= spliced(bytes, edits).len(),
        edits.len() > 0 ==> spliced(bytes, edits).take(edits.last().start) == bytes.take(edits.last().start),
    decreases edits.len(),
{
    if edits.len() > 0 {
        let front = edits.drop_last();
        let last = edits.last();
        assert forall|i: int, j: int| 0 <= i < j < front.len() implies apart(#[trigger] front[i], #[trigger] front[j])
            && front[j].end <= front[i].start by {
            assert(apart(edits[i], edits[j]));
            assert(edits[j].end <= edits[i].start);
        }
        assert forall|i: int| 0 <= i < front.len() implies 0 <= (#[trigger] front[i]).start < front[i].end
            <= bytes.len() by {
            assert(edits[i].start >= 0);
        }
        descending_edits_are_within(bytes, front);
        assert(edits[edits.len() - 1].end <= bytes.len());
        let so_far = spliced(bytes, front);
        if front.len() > 0 {
            assert(edits[edits.len() - 1].end <= edits[front.len() - 1].start);
            let cut = front.last().start;
            assert forall|i: int| 0 <= i < last.start implies so_far[i] == bytes[i] by {
                assert(so_far.take(cut)[i] == bytes.take(cut)[i]);
            }
        }
        assert(so_far.take(last.start) =~= bytes.take(last.start));
        assert(spliced(bytes, edits).take(last.start) =~= bytes.take(last.start));
    }
}

/// Whether the place of each edit starts and ends between two characters of the file.
pub open spec fn all_between_chars(bytes: Seq<u8>, edits: Seq<EditView>) -> bool {
    forall|i: int|
        0 <= i < edits.len() ==> between_chars(bytes, (#[trigger] edits[i]).start) && between_chars(bytes, edits[i].end)
}

/// Descending edits of places between characters fit, and the last of them leaves a character, or the
/// end, at its start.
proof fn descending_edits_fit(bytes: Seq<u8>, edits: Seq<EditView>)
    requires
        separate(edits, bytes.len() as int),
        descending(edits),
        all_between_chars(bytes, edits),
    ensures
        fit(bytes, edits),
        edits.len() > 0 ==> between_chars(spliced(bytes, edits), edits.last().start),
    decreases edits.len(),
{
    if edits.len() > 0 {
        let front = edits.drop_last();
        let last = edits.last();
        assert forall|i: int, j: int| 0 <= i < j < front.len() implies apart(#[trigger] front[i], #[trigger] front[j])
            && front[j].end <= front[i].start by {
            assert(apart(edits[i], edits[j]));
            assert(edits[j].end <= edits[i].start);
        }
        assert forall|i: int| 0 <= i < front.len() implies 0 <= (#[trigger] front[i]).start < front[i].end
            <= bytes.len() && between_chars(bytes, front[i].start) && between_chars(bytes, front[i].end) by {
            assert(edits[i].start >= 0);
            assert(between_chars(bytes, edits[i].start));
        }
        descending_edits_fit(bytes, front);
        descending_edits_are_within(bytes, front);
        assert(0 <= edits[edits.len() - 1].start < edits[edits.len() - 1].end <= bytes.len());
        assert(between_chars(bytes, edits[edits.len() - 1].start));
        let so_far = spliced(bytes, front);
        if front.len() > 0 {
            assert(edits[edits.len() - 1].end <= edits[front.len() - 1].start);
            let cut = front.last().start;
            assert forall|i: int| 0 <= i < cut implies so_far[i] == bytes[i] by {
                assert(so_far.take(cut)[i] == bytes.take(cut)[i]);
            }
            assert(cut <= bytes.len()) by {
                assert(edits[front.len() - 1].end <= bytes.len());
            }
        }
        assert(between_chars(so_far, last.start));
        assert(between_chars(so_far, last.end));
        encoded_starts_with_a_char(last.replacement);
        let done = replaced(so_far, last);
        let new = encode_utf8(last.replacement);
        if last.start > 0 && last.start < done.len() {
            if new.len() > 0 {
                assert(done[last.start] == new[0]);
            } else {
                assert(done[last.start] == so_far[last.end]);
            }
        }
    }
}

/// Edits of separate places within a file can always be made, in whatever order they are given, as long
/// as none cuts a character in two.
pub proof fn separate_edits_fit(bytes: Seq<u8>, edits: Seq<EditView>)
    requires
        separate(edits, bytes.len() as int),
        all_between_chars(bytes, edits),
    ensures
        fit(bytes, back_to_front(edits)),
{
    let ordered = back_to_front(edits);
    back_to_front_facts(edits, bytes.len() as int);
    assert forall|i: int| 0 <= i < ordered.len() implies between_chars(bytes, (#[trigger] ordered[i]).start)
        && between_chars(bytes, ordered[i].end) by {
        assert(ordered.contains(ordered[i]));
        let k = choose|k: int| 0 <= k < edits.len() && edits[k] == ordered[i];
        assert(between_chars(bytes, edits[k].start));
    }
    descending_edits_fit(bytes, ordered);
}

/// The text between two neighbouring edits, from the one further back to the start of the file.
pub open spec fn pieces(bytes: Seq<u8>, edits: Seq<EditView>, end: int) -> Seq<u8>
    decreases edits.len(),
{
    if edits.len() == 0 {
        bytes.take(end)
    } else {
        pieces(bytes, edits.drop_first(), edits[0].start) + encode_utf8(edits[0].replacement) + bytes.subrange(
            edits[0].end,
            end,
        )
    }
}

/// Edits that end before a point act on what comes before it only, each at its own place of the
/// text as it was, and leave all else as it is.
proof fn descending_edits_act_in_place(bytes: Seq<u8>, edits: Seq<EditView>)
    requires
        separate(edits, bytes.len() as int),
        descending(edits),
    ensures
        spliced(bytes, edits) == pieces(bytes, edits, bytes.len() as int),
    decreases edits.len(),
{
    if edits.len() == 0 {
        assert(bytes.take(bytes.len() as int) =~= bytes);
    } else {
        let first = edits[0];
        let others = edits.drop_first();
        let part = bytes.take(first.start);
        let rest = encode_utf8(first.replacement) + bytes.skip(first.end);
        assert(edits[0].end <= bytes.len());
        assert(edits.take(1) =~= seq![first]);
        spliced_in_two_steps(bytes, edits, 1);
        assert(edits.skip(1) =~= others);
        assert(spliced(bytes, Seq::<EditView>::empty()) == bytes);
        assert(seq![first].drop_last() =~= Seq::<EditView>::empty());
        assert(spliced(bytes, seq![first]) =~= part + rest);
        assert forall|i: int, j: int| 0 <= i < j < others.len() implies apart(
            #[trigger] others[i],
            #[trigger] others[j],
        ) && others[j].end <= others[i].start by {
            assert(apart(edits[i + 1], edits[j + 1]));
            assert(edits[j + 1].end <= edits[i + 1].start);
        }
        assert forall|i: int| 0 <= i < others.len() implies 0 <= (#[trigger] others[i]).start < others[i].end
            <= part.len() by {
            assert(edits[i + 1].end <= edits[0].start);
        }
        descending_edits_are_within(part, others);
        edits_leave_the_rest_as_it_is(part, rest, others);
        descending_edits_act_in_place(part, others);
        pieces_of_part(bytes, others, first.start);
        assert(bytes.subrange(first.end, bytes.len() as int) =~= bytes.skip(first.end));
        assert(pieces(bytes, edits, bytes.len() as int) =~= pieces(bytes, others, first.start) + rest);
    }
}

/// Making some edits is making the first of them and then the others.
proof fn spliced_in_two_steps(bytes: Seq<u8>, edits: Seq<EditView>, n: int)
    requires
        0 <= n <= edits.len(),
    ensures
        spliced(bytes, edits) == spliced(spliced(bytes, edits.take(n)), edits.skip(n)),
    decreases edits.len(),
{
    if n < edits.len() {
        spliced_in_two_steps(bytes, edits.drop_last(), n);
        assert(edits.drop_last().take(n) =~= edits.take(n));
        assert(edits.skip(n).drop_last() =~= edits.drop_last().skip(n));
        assert(edits.skip(n).last() == edits.last());
    } else {
        assert(edits.take(n) =~= edits);
        assert(edits.skip(n) =~= Seq::<EditView>::empty());
    }
}

proof fn pieces_of_part(bytes: Seq<u8>, edits: Seq<EditView>, end: int)
    requires
        0 <= end <= bytes.len(),
        separate(edits, end),
        descending(edits),
    ensures
        pieces(bytes.take(end), edits, end) == pieces(bytes, edits, end),
    decreases edits.len(),
{
    let part = bytes.take(end);
    if edits.len() == 0 {
        assert(part.take(end) =~= bytes.take(end));
    } else {
        let first = edits[0];
        let others = edits.drop_first();
        assert(edits[0].end <= end);
        assert forall|i: int, j: int| 0 <= i < j < others.len() implies apart(
            #[trigger] others[i],
            #[trigger] others[j],
        ) && others[j].end <= others[i].start by {
            assert(apart(edits[i + 1], edits[j + 1]));
            assert(edits[j + 1].end <= edits[i + 1].start);
        }
        assert forall|i: int| 0 <= i < others.len() implies 0 <= (#[trigger] others[i]).start < others[i].end
            <= first.start by {
            assert(edits[i + 1].end <= edits[0].start);
        }
        pieces_of_part(bytes, others, first.start);
        pieces_of_part(part, others, first.start);
        assert(part.take(first.start) =~= bytes.take(first.start));
        assert(part.subrange(first.end, end) =~= bytes.subrange(first.end, end));
    }
}

/// Edits of separate places, made back to front, each replace their own place of the file as it
/// was, and nothing else: the result is made of the replacements and of the text between them.
pub proof fn separate_edits_act_in_place(bytes: Seq<u8>, edits: Seq<EditView>)
    requires
        separate(edits, bytes.len() as int),
    ensures
        spliced(bytes, back_to_front(edits)) == pieces(bytes, back_to_front(edits), bytes.len() as int),
{
    back_to_front_facts(edits, bytes.len() as int);
    descending_edits_act_in_place(bytes, back_to_front(edits));
}

/// Whether the references of a file lie within its `bytes`, no two of them overlap, and none is empty or
/// cuts a character in two.
pub open spec fn lie_apart(references: Seq<ReferenceView>, file: Seq<char>, bytes: Seq<u8>) -> bool {
    &&& forall|i: int|
        0 <= i < references.len() && (#[trigger] references[i]).file == file ==> {
            &&& references[i].result.start_pos is Some && references[i].result.end_pos is Some
            &&& references[i].result.start_pos->0 < references[i].result.end_pos->0 <= bytes.len()
            &&& between_chars(bytes, references[i].result.start_pos->0 as int)
            &&& between_chars(bytes, references[i].result.end_pos->0 as int)
        }
    &&& forall|i: int, j: int|
        0 <= i < j < references.len() && (#[trigger] references[i]).file == file && (#[trigger] references[j]).file
            == file ==> !overlap(references[i].result, references[j].result)
}

/// Whether `edit` puts what was decided on `reference` in its place.
pub open spec fn is_edit_of(edit: EditView, reference: ReferenceView, entry_points: Set<Seq<char>>) -> bool {
    &&& replacement(reference, entry_points) == Some(edit.replacement)
    &&& edit.start == reference.result.start_pos->0
    &&& edit.end == reference.result.end_pos->0
}

/// Each edit of a file is that of one of its references.
proof fn edits_come_from_references(
    references: Seq<ReferenceView>,
    entry_points: Set<Seq<char>>,
    file: Seq<char>,
    k: int,
) -> (i: int)
    requires
        0 <= k < edits_of(references, entry_points, file).len(),
    ensures
        0 <= i < references.len(),
        references[i].file == file,
        is_edit_of(edits_of(references, entry_points, file)[k], references[i], entry_points),
    decreases references.len(),
{
    if k < edits_of(references.drop_last(), entry_points, file).len() {
        edits_come_from_references(references.drop_last(), entry_points, file, k)
    } else {
        references.len() - 1
    }
}

proof fn references_make_separate_edits(
    references: Seq<ReferenceView>,
    entry_points: Set<Seq<char>>,
    file: Seq<char>,
    bytes: Seq<u8>,
)
    requires
        lie_apart(references, file, bytes),
    ensures
        separate(edits_of(references, entry_points, file), bytes.len() as int),
        all_between_chars(bytes, edits_of(references, entry_points, file)),
    decreases references.len(),
{
    if references.len() > 0 {
        let rest = references.drop_last();
        let before = edits_of(rest, entry_points, file);
        let edits = edits_of(references, entry_points, file);
        let last = references.len() - 1;
        references_make_separate_edits(rest, entry_points, file, bytes);
        assert forall|i: int, j: int| 0 <= i < j < edits.len() implies apart(#[trigger] edits[i], #[trigger] edits[j]) by {
            if j < before.len() {
                assert(apart(before[i], before[j]));
            } else {
                let k = edits_come_from_references(rest, entry_points, file, i);
                assert(references[k].file == file && references[last].file == file);
            }
        }
        assert forall|i: int| 0 <= i < edits.len() implies 0 <= (#[trigger] edits[i]).start < edits[i].end
            <= bytes.len() && between_chars(bytes, edits[i].start) && between_chars(bytes, edits[i].end) by {
            if i < before.len() {
                assert(0 <= before[i].start < before[i].end <= bytes.len());
            } else {
                assert(references[last].file == file);
            }
        }
    }
}

/// Where the references of a file lie apart, its edits can all be made, and each replaces
/// one of the references with what was decided on it. All else in the file stays as it is: `bytes` are
/// the file's own where they are valid UTF-8, see [`rewrite_file`].
pub proof fn rewriting_replaces_references_only(
    bytes: Seq<u8>,
    references: Seq<ReferenceView>,
    entry_points: Set<Seq<char>>,
    file: Seq<char>,
)
    requires
        lie_apart(references, file, bytes),
    ensures
        ({
            let edits = edits_of(references, entry_points, file);
            &&& fit(bytes, back_to_front(edits))
            &&& spliced(bytes, back_to_front(edits)) == pieces(bytes, back_to_front(edits), bytes.len() as int)
            &&& forall|k: int|
                0 <= k < edits.len() ==> exists|i: int|
                    0 <= i < references.len() && is_edit_of(#[trigger] edits[k], #[trigger] references[i], entry_points)
        }),
{
    let edits = edits_of(references, entry_points, file);
    references_make_separate_edits(references, entry_points, file, bytes);
    separate_edits_fit(bytes, edits);
    separate_edits_act_in_place(bytes, edits);
    assert forall|k: int| 0 <= k < edits.len() implies exists|i: int|
        0 <= i < references.len() && is_edit_of(#[trigger] edits[k], #[trigger] references[i], entry_points) by {
        let i = edits_come_from_references(references, entry_points, file, k);
        assert(is_edit_of(edits[k], references[i], entry_points));
    }
}

/// The references found in a file lie apart, provided they lie within it and none is empty or cuts a
/// character in two: so [`rewriting_replaces_references_only`] speaks of every such file that was
/// scanned.
pub proof fn found_references_lie_apart(
    base: Codebase,
    source: Source,
    trees: Seq<Syntax>,
    file: (String, Vec<PathResult>),
)
    requires
        path_views(file.1@) == crate::path_finder::references(source, trees),
        forall|i: int|
            0 <= i < file.1@.len() ==> {
                &&& (#[trigger] file.1@[i]).start_pos is Some && file.1@[i].end_pos is Some
                &&& file.1@[i].start_pos->0 < file.1@[i].end_pos->0 <= source.bytes.len()
                &&& between_chars(source.bytes, file.1@[i].start_pos->0 as int)
                &&& between_chars(source.bytes, file.1@[i].end_pos->0 as int)
            },
    ensures
        lie_apart(categorised_file(base, file), file.0@, source.bytes),
{
    references_are_distinct(source, trees);
    let found = path_views(file.1@);
    let all = categorised_file(base, file);
    assert forall|i: int| 0 <= i < all.len() implies (#[trigger] all[i]).result == found[i] by {}
    assert forall|i: int, j: int|
        0 <= i < j < all.len() && (#[trigger] all[i]).file == file.0@ && (#[trigger] all[j]).file
            == file.0@ implies !overlap(all[i].result, all[j].result) by {
        assert(!overlap(found[i], found[j]));
    }
    assert forall|i: int| 0 <= i < all.len() implies found[i].start_pos == file.1@[i].start_pos && found[i].end_pos
        == file.1@[i].end_pos by {}
}

} // verus!
