//! Text as a sequence of characters: the string operations that the rest of the library is built
//! from, each with an exact contract over `Seq<char>`.

use vstd::prelude::*;
use vstd::string::*;

verus! {

/// `String::push` appends one character.
pub assume_specification[ String::push ](text: &mut String, c: char)
    ensures
        final(text)@ == old(text)@.push(c),
;

/// `str == str` compares the two texts character by character.
pub assume_specification[ <str as PartialEq>::eq ](a: &str, b: &str) -> (r: bool)
    ensures
        r == (a@ == b@),
;

/// The texts held by a sequence of strings.
pub open spec fn texts(parts: Seq<String>) -> Seq<Seq<char>> {
    Seq::new(parts.len(), |i: int| parts[i]@)
}

/// The pieces of `text` between the occurrences of `separator`: always one more than there are
/// separators.
pub open spec fn split(text: Seq<char>, separator: char) -> Seq<Seq<char>>
    decreases text.len(),
{
    if text.len() == 0 {
        seq![Seq::<char>::empty()]
    } else {
        let before = split(text.drop_last(), separator);
        if text.last() == separator {
            before.push(Seq::<char>::empty())
        } else {
            before.drop_last().push(before.last().push(text.last()))
        }
    }
}

/// `parts` in order, with `separator` between each two neighbours.
pub open spec fn join(parts: Seq<Seq<char>>, separator: Seq<char>) -> Seq<char>
    decreases parts.len(),
{
    if parts.len() == 0 {
        Seq::<char>::empty()
    } else if parts.len() == 1 {
        parts[0]
    } else {
        join(parts.drop_last(), separator) + separator + parts.last()
    }
}

/// `text` without the occurrences of `c` that it starts with.
pub open spec fn trim_start(text: Seq<char>, c: char) -> Seq<char>
    decreases text.len(),
{
    if text.len() > 0 && text[0] == c {
        trim_start(text.drop_first(), c)
    } else {
        text
    }
}

/// `text` without the occurrences of `c` that it ends with.
pub open spec fn trim_end(text: Seq<char>, c: char) -> Seq<char>
    decreases text.len(),
{
    if text.len() > 0 && text.last() == c {
        trim_end(text.drop_last(), c)
    } else {
        text
    }
}

/// The characters with the Unicode property White_Space.
pub open spec fn is_white(c: char) -> bool {
    ||| '\u{9}' <= c <= '\u{d}'
    ||| c == ' '
    ||| c == '\u{85}'
    ||| c == '\u{a0}'
    ||| c == '\u{1680}'
    ||| '\u{2000}' <= c <= '\u{200a}'
    ||| c == '\u{2028}'
    ||| c == '\u{2029}'
    ||| c == '\u{202f}'
    ||| c == '\u{205f}'
    ||| c == '\u{3000}'
}

/// `text` without the white space that it starts with.
pub open spec fn trim_white_start(text: Seq<char>) -> Seq<char>
    decreases text.len(),
{
    if text.len() > 0 && is_white(text[0]) {
        trim_white_start(text.drop_first())
    } else {
        text
    }
}

/// `text` without the white space that it ends with.
pub open spec fn trim_white_end(text: Seq<char>) -> Seq<char>
    decreases text.len(),
{
    if text.len() > 0 && is_white(text.last()) {
        trim_white_end(text.drop_last())
    } else {
        text
    }
}

/// `text` without the white space around it.
pub open spec fn trimmed(text: Seq<char>) -> Seq<char> {
    trim_white_end(trim_white_start(text))
}

/// Whether `part` occurs in `text`.
pub open spec fn has_part(text: Seq<char>, part: Seq<char>) -> bool {
    exists|i: int| is_part_at(text, part, i)
}

/// Whether `part` occurs in `text` at position `i`.
pub open spec fn is_part_at(text: Seq<char>, part: Seq<char>, i: int) -> bool {
    0 <= i && i + part.len() <= text.len() && text.subrange(i, i + part.len()) == part
}

/// The order of texts: by the first character that differs, a text before its extensions.
pub open spec fn precedes(a: Seq<char>, b: Seq<char>) -> bool
    decreases a.len(),
{
    if b.len() == 0 {
        false
    } else if a.len() == 0 {
        true
    } else if a[0] != b[0] {
        a[0] < b[0]
    } else {
        precedes(a.drop_first(), b.drop_first())
    }
}

/// The decimal digits of `n`.
pub open spec fn decimal(n: nat) -> Seq<char>
    decreases n,
{
    if n < 10 {
        seq![digit(n)]
    } else {
        decimal(n / 10).push(digit(n % 10))
    }
}

/// The character of a digit.
pub open spec fn digit(n: nat) -> char {
    (('0' as u32) + n) as char
}

/// The order of texts has no cycles of one or two texts.
pub proof fn precedes_is_asymmetric(a: Seq<char>, b: Seq<char>)
    ensures
        precedes(a, b) ==> !precedes(b, a),
    decreases a.len(),
{
    if a.len() > 0 && b.len() > 0 {
        precedes_is_asymmetric(a.drop_first(), b.drop_first());
    }
}

/// The order of texts can be chained.
pub proof fn precedes_is_transitive(a: Seq<char>, b: Seq<char>, c: Seq<char>)
    requires
        precedes(a, b),
        precedes(b, c),
    ensures
        precedes(a, c),
    decreases a.len(),
{
    if a.len() > 0 && a[0] == b[0] && b[0] == c[0] {
        precedes_is_transitive(a.drop_first(), b.drop_first(), c.drop_first());
    }
}

/// Any two different texts are ordered.
pub proof fn precedes_is_total(a: Seq<char>, b: Seq<char>)
    ensures
        precedes(a, b) || precedes(b, a) || a == b,
    decreases a.len(),
{
    if a.len() > 0 && b.len() > 0 && a[0] == b[0] {
        precedes_is_total(a.drop_first(), b.drop_first());
        if a.drop_first() == b.drop_first() {
            assert(a =~= seq![a[0]] + a.drop_first());
            assert(b =~= seq![b[0]] + b.drop_first());
        }
    } else if a.len() == 0 && b.len() == 0 {
        assert(a =~= b);
    }
}

/// Trimming takes away a run of the character, all of it, and nothing else.
pub proof fn trim_start_takes_the_run(text: Seq<char>, c: char)
    ensures
        trim_start(text, c).len() <= text.len(),
        trim_start(text, c) == text.skip(text.len() - trim_start(text, c).len()),
        forall|i: int| 0 <= i < text.len() - trim_start(text, c).len() ==> #[trigger] text[i] == c,
        trim_start(text, c).len() > 0 ==> trim_start(text, c)[0] != c,
    decreases text.len(),
{
    if text.len() > 0 && text[0] == c {
        let rest = text.drop_first();
        trim_start_takes_the_run(rest, c);
        let n = text.len() - trim_start(text, c).len();
        assert forall|i: int| 0 <= i < n implies #[trigger] text[i] == c by {
            if i > 0 {
                assert(rest[i - 1] == c);
            }
        }
        assert(rest.skip(n - 1) =~= text.skip(n));
    } else {
        assert(text.skip(0) =~= text);
    }
}

/// Trimming at the end takes away a run of the character, all of it, and nothing else.
pub proof fn trim_end_takes_the_run(text: Seq<char>, c: char)
    ensures
        trim_end(text, c).len() <= text.len(),
        trim_end(text, c) == text.take(trim_end(text, c).len() as int),
        forall|i: int| trim_end(text, c).len() <= i < text.len() ==> #[trigger] text[i] == c,
        trim_end(text, c).len() > 0 ==> trim_end(text, c).last() != c,
    decreases text.len(),
{
    if text.len() > 0 && text.last() == c {
        let rest = text.drop_last();
        trim_end_takes_the_run(rest, c);
        let n = trim_end(text, c).len() as int;
        assert forall|i: int| n <= i < text.len() implies #[trigger] text[i] == c by {
            if i < text.len() - 1 {
                assert(rest[i] == c);
            }
        }
        assert(rest.take(n) =~= text.take(n));
    } else {
        assert(text.take(text.len() as int) =~= text);
    }
}

/// Trimming white space takes away what there is of it on both sides, and nothing between.
pub proof fn trimmed_takes_the_white_space(before: Seq<char>, inner: Seq<char>, after: Seq<char>)
    requires
        forall|i: int| 0 <= i < before.len() ==> is_white(#[trigger] before[i]),
        forall|i: int| 0 <= i < after.len() ==> is_white(#[trigger] after[i]),
        inner.len() > 0 ==> !is_white(inner[0]) && !is_white(inner.last()),
    ensures
        trimmed(before + inner + after) == inner,
    decreases before.len() + after.len(),
{
    let text = before + inner + after;
    if inner.len() == 0 {
        all_white_goes(text);
        assert(inner =~= Seq::<char>::empty());
    } else {
        white_start_goes(before, inner + after);
        white_end_goes(inner, after);
        assert(text =~= before + (inner + after));
    }
}

proof fn all_white_goes(text: Seq<char>)
    requires
        forall|i: int| 0 <= i < text.len() ==> is_white(#[trigger] text[i]),
    ensures
        trim_white_start(text) == Seq::<char>::empty(),
    decreases text.len(),
{
    if text.len() > 0 {
        assert forall|i: int| 0 <= i < text.drop_first().len() implies is_white(#[trigger] text.drop_first()[i]) by {
            assert(text.drop_first()[i] == text[i + 1]);
        }
        assert(is_white(text[0]));
        all_white_goes(text.drop_first());
    } else {
        assert(text =~= Seq::<char>::empty());
    }
}

proof fn white_start_goes(before: Seq<char>, rest: Seq<char>)
    requires
        forall|i: int| 0 <= i < before.len() ==> is_white(#[trigger] before[i]),
        rest.len() > 0,
        !is_white(rest[0]),
    ensures
        trim_white_start(before + rest) == rest,
    decreases before.len(),
{
    let text = before + rest;
    if before.len() > 0 {
        let less = before.drop_first();
        assert forall|i: int| 0 <= i < less.len() implies is_white(#[trigger] less[i]) by {
            assert(less[i] == before[i + 1]);
        }
        white_start_goes(less, rest);
        assert(text.drop_first() =~= less + rest);
        assert(is_white(before[0]));
        assert(text[0] == before[0]);
    } else {
        assert(text =~= rest);
    }
}

proof fn white_end_goes(rest: Seq<char>, after: Seq<char>)
    requires
        forall|i: int| 0 <= i < after.len() ==> is_white(#[trigger] after[i]),
        rest.len() > 0,
        !is_white(rest.last()),
    ensures
        trim_white_end(rest + after) == rest,
    decreases after.len(),
{
    let text = rest + after;
    if after.len() > 0 {
        let less = after.drop_last();
        assert forall|i: int| 0 <= i < less.len() implies is_white(#[trigger] less[i]) by {
            assert(less[i] == after[i]);
        }
        white_end_goes(rest, less);
        assert(text.drop_last() =~= rest + less);
        assert(is_white(after[after.len() - 1]));
        assert(text.last() == after.last());
    } else {
        assert(text =~= rest);
    }
}

/// Of two texts, the one with the lesser character where they first differ comes first, and a text comes
/// before its extensions.
pub proof fn texts_are_ordered_where_they_differ(same: Seq<char>, a: Seq<char>, b: Seq<char>)
    ensures
        a.len() > 0 && b.len() > 0 && a[0] < b[0] ==> precedes(same + a, same + b),
        a.len() > 0 && b.len() > 0 && a[0] > b[0] ==> !precedes(same + a, same + b),
        b.len() > 0 ==> precedes(same, same + b),
        !precedes(same + a, same),
    decreases same.len(),
{
    if same.len() > 0 {
        let less = same.drop_first();
        texts_are_ordered_where_they_differ(less, a, b);
        assert((same + a).drop_first() =~= less + a);
        assert((same + b).drop_first() =~= less + b);
    } else {
        assert(same + a =~= a);
        assert(same + b =~= b);
    }
}

/// No piece of a split text holds the separator, and there is at least one piece.
pub proof fn split_parts_hold_no_separator(text: Seq<char>, separator: char)
    ensures
        split(text, separator).len() >= 1,
        forall|i: int|
            0 <= i < split(text, separator).len() ==> !(#[trigger] split(text, separator)[i]).contains(separator),
    decreases text.len(),
{
    if text.len() > 0 {
        split_parts_hold_no_separator(text.drop_last(), separator);
        let before = split(text.drop_last(), separator);
        let after = split(text, separator);
        assert forall|i: int| 0 <= i < after.len() implies !(#[trigger] after[i]).contains(separator) by {
            if i < before.len() - 1 {
                assert(after[i] == before[i]);
            } else if text.last() == separator {
                if i < before.len() {
                    assert(after[i] == before[i]);
                }
            } else {
                assert(after[i] == before.last().push(text.last()));
                assert(!before[before.len() - 1].contains(separator));
                if after[i].contains(separator) {
                    let j = choose|j: int| 0 <= j < after[i].len() && after[i][j] == separator;
                    assert(before.last()[j] == separator);
                }
            }
        }
    }
}

/// A text without separators is a single piece.
pub proof fn split_without_separator(text: Seq<char>, separator: char)
    requires
        !text.contains(separator),
    ensures
        split(text, separator) == seq![text],
    decreases text.len(),
{
    if text.len() > 0 {
        assert forall|i: int| 0 <= i < text.len() - 1 implies text.drop_last()[i] != separator by {
            assert(text[i] != separator);
        }
        split_without_separator(text.drop_last(), separator);
        assert(text[text.len() - 1] != separator);
        assert(text.drop_last().push(text.last()) =~= text);
        assert(split(text, separator) =~= seq![text]);
    } else {
        assert(text =~= Seq::<char>::empty());
    }
}

/// A separator parts the pieces before it from those after it.
pub proof fn split_around_separator(before: Seq<char>, after: Seq<char>, separator: char)
    ensures
        split(before + seq![separator] + after, separator) == split(before, separator) + split(after, separator),
    decreases after.len(),
{
    let whole = before + seq![separator] + after;
    split_parts_hold_no_separator(after, separator);
    if after.len() == 0 {
        assert(whole.drop_last() =~= before);
        assert(split(whole, separator) =~= split(before, separator) + split(after, separator));
    } else {
        split_around_separator(before, after.drop_last(), separator);
        split_parts_hold_no_separator(after.drop_last(), separator);
        assert(whole.drop_last() =~= before + seq![separator] + after.drop_last());
        assert(split(whole, separator) =~= split(before, separator) + split(after, separator));
    }
}

/// Whether `text` holds `piece` at `start`, between two separators or ends of the text.
pub open spec fn is_piece_at(text: Seq<char>, separator: char, piece: Seq<char>, start: int) -> bool {
    &&& is_part_at(text, piece, start)
    &&& start == 0 || text[start - 1] == separator
    &&& start + piece.len() == text.len() || text[start + piece.len()] == separator
}

/// Every piece lies between two separators or ends of the text; only the last at its end.
pub proof fn pieces_lie_between_separators(text: Seq<char>, separator: char, i: int) -> (start: int)
    requires
        0 <= i < split(text, separator).len(),
    ensures
        is_piece_at(text, separator, split(text, separator)[i], start),
        i < split(text, separator).len() - 1 <==> start + split(text, separator)[i].len() < text.len(),
    decreases text.len(),
{
    let piece = split(text, separator)[i];
    if text.len() == 0 {
        assert(text.subrange(0, 0) =~= piece);
        0
    } else {
        split_parts_hold_no_separator(text.drop_last(), separator);
        let before = split(text.drop_last(), separator);
        if text.last() == separator {
            if i < before.len() {
                let start = pieces_lie_between_separators(text.drop_last(), separator, i);
                assert(text.subrange(start, start + piece.len()) =~= text.drop_last().subrange(
                    start,
                    start + piece.len(),
                ));
                start
            } else {
                let n = text.len() as int;
                assert(text.subrange(n, n) =~= piece);
                n
            }
        } else {
            let start = pieces_lie_between_separators(text.drop_last(), separator, i);
            if i < before.len() - 1 {
                assert(text.subrange(start, start + piece.len()) =~= text.drop_last().subrange(
                    start,
                    start + piece.len(),
                ));
            } else {
                assert(piece == before.last().push(text.last()));
                assert(text.subrange(start, start + piece.len()) =~= text.drop_last().subrange(
                    start,
                    start + before.last().len(),
                ).push(text.last()));
            }
            start
        }
    }
}

/// Splitting undoes joining, for pieces that do not hold the separator.
pub proof fn split_undoes_join(parts: Seq<Seq<char>>, separator: char)
    requires
        parts.len() > 0,
        forall|i: int| 0 <= i < parts.len() ==> !(#[trigger] parts[i]).contains(separator),
    ensures
        split(join(parts, seq![separator]), separator) == parts,
    decreases parts.len(),
{
    if parts.len() == 1 {
        split_without_separator(parts[0], separator);
        assert(seq![parts[0]] =~= parts);
    } else {
        assert forall|i: int| 0 <= i < parts.drop_last().len() implies !(#[trigger] parts.drop_last()[i]).contains(
            separator,
        ) by {
            assert(!parts[i].contains(separator));
        }
        split_undoes_join(parts.drop_last(), separator);
        assert(!parts[parts.len() - 1].contains(separator));
        split_without_separator(parts.last(), separator);
        split_around_separator(join(parts.drop_last(), seq![separator]), parts.last(), separator);
        assert(parts.drop_last() + seq![parts.last()] =~= parts);
    }
}

/// Joining undoes splitting.
pub proof fn join_undoes_split(text: Seq<char>, separator: char)
    ensures
        join(split(text, separator), seq![separator]) == text,
    decreases text.len(),
{
    if text.len() > 0 {
        join_undoes_split(text.drop_last(), separator);
        split_parts_hold_no_separator(text.drop_last(), separator);
        let before = split(text.drop_last(), separator);
        let after = split(text, separator);
        assert(text =~= text.drop_last().push(text.last()));
        if text.last() == separator {
            assert(after.drop_last() =~= before);
            assert(join(after, seq![separator]) =~= text);
        } else {
            assert(after.drop_last() =~= before.drop_last());
            assert(join(after, seq![separator]) =~= text);
        }
    } else {
        assert(join(split(text, separator), seq![separator]) =~= text);
    }
}

/// Whether two texts are the same.
pub fn same(a: &str, b: &str) -> (r: bool)
    ensures
        r == (a@ == b@),
{
    a.eq(b)
}

/// The characters of `text`.
pub fn chars_of(text: &str) -> (chars: Vec<char>)
    ensures
        chars@ == text@,
{
    let mut chars: Vec<char> = Vec::new();
    for c in it: text.chars()
        invariant
            chars@ == it.seq().take(it.index() as int),
            it.seq() == text@,
    {
        chars.push(c);
        assert(it.seq().take(it.index() + 1) == it.seq().take(it.index() as int).push(c));
    }
    chars
}

/// The text made of the characters of `chars` from `from` up to `to`.
pub fn string_of(chars: &Vec<char>, from: usize, to: usize) -> (text: String)
    requires
        from <= to <= chars.len(),
    ensures
        text@ == chars@.subrange(from as int, to as int),
{
    let mut text = String::new();
    let mut i: usize = from;
    while i < to
        invariant
            from <= i <= to <= chars.len(),
            text@ == chars@.subrange(from as int, i as int),
        decreases to - i,
    {
        text.push(chars[i]);
        assert(chars@.subrange(from as int, i + 1) == chars@.subrange(from as int, i as int).push(
            chars@[i as int],
        ));
        i += 1;
    }
    text
}

/// A copy of `text`.
pub fn copy(text: &str) -> (r: String)
    ensures
        r@ == text@,
{
    text.to_owned()
}

/// `a` followed by `b`.
pub fn concat(a: &str, b: &str) -> (r: String)
    ensures
        r@ == a@ + b@,
{
    let mut r = a.to_owned();
    r.append(b);
    r
}

/// `a` followed by `b` followed by `c`.
pub fn concat3(a: &str, b: &str, c: &str) -> (r: String)
    ensures
        r@ == a@ + b@ + c@,
{
    let mut r = a.to_owned();
    r.append(b);
    r.append(c);
    r
}

/// Whether `text` starts with `prefix`.
pub fn starts_with(text: &str, prefix: &str) -> (r: bool)
    ensures
        r == prefix@.is_prefix_of(text@),
{
    let t = chars_of(text);
    let p = chars_of(prefix);
    if p.len() > t.len() {
        return false;
    }
    let mut i: usize = 0;
    while i < p.len()
        invariant
            i <= p.len() <= t.len(),
            t@ == text@,
            p@ == prefix@,
            forall|j: int| 0 <= j < i ==> t@[j] == p@[j],
        decreases p.len() - i,
    {
        if t[i] != p[i] {
            assert(text@.subrange(0, prefix@.len() as int)[i as int] != prefix@[i as int]);
            return false;
        }
        i += 1;
    }
    assert(text@.subrange(0, prefix@.len() as int) == prefix@);
    true
}

/// Whether `text` ends with `suffix`.
pub fn ends_with(text: &str, suffix: &str) -> (r: bool)
    ensures
        r == suffix@.is_suffix_of(text@),
{
    let t = chars_of(text);
    let p = chars_of(suffix);
    if p.len() > t.len() {
        return false;
    }
    let start: usize = t.len() - p.len();
    let mut i: usize = 0;
    while i < p.len()
        invariant
            i <= p.len() <= t.len(),
            start == t.len() - p.len(),
            t@ == text@,
            p@ == suffix@,
            forall|j: int| 0 <= j < i ==> t@[start + j] == p@[j],
        decreases p.len() - i,
    {
        if t[start + i] != p[i] {
            assert(text@.subrange(start as int, text@.len() as int)[i as int] != suffix@[i as int]);
            return false;
        }
        i += 1;
    }
    assert(text@.subrange(start as int, text@.len() as int) == suffix@);
    true
}

/// What follows `prefix` in `text`, if `text` starts with it.
pub fn strip_prefix(text: &str, prefix: &str) -> (r: Option<String>)
    ensures
        r is Some == prefix@.is_prefix_of(text@),
        r matches Some(rest) ==> rest@ == text@.skip(prefix@.len() as int) && text@ == prefix@ + rest@,
{
    if !starts_with(text, prefix) {
        return None;
    }
    let t = chars_of(text);
    let p = chars_of(prefix);
    let rest = string_of(&t, p.len(), t.len());
    assert(text@ == text@.subrange(0, prefix@.len() as int) + text@.skip(prefix@.len() as int));
    Some(rest)
}

/// Whether the character `c` occurs in `text`.
pub fn has_char(text: &str, c: char) -> (r: bool)
    ensures
        r == text@.contains(c),
{
    let t = chars_of(text);
    let mut i: usize = 0;
    while i < t.len()
        invariant
            i <= t.len(),
            t@ == text@,
            forall|j: int| 0 <= j < i ==> t@[j] != c,
        decreases t.len() - i,
    {
        if t[i] == c {
            assert(text@[i as int] == c);
            return true;
        }
        i += 1;
    }
    false
}

/// Whether `part` occurs in `text`.
pub fn contains(text: &str, part: &str) -> (r: bool)
    ensures
        r == has_part(text@, part@),
{
    let t = chars_of(text);
    let p = chars_of(part);
    if p.len() > t.len() {
        return false;
    }
    let mut i: usize = 0;
    while i <= t.len() - p.len()
        invariant
            p.len() <= t.len(),
            i <= t.len() - p.len() + 1,
            t@ == text@,
            p@ == part@,
            forall|k: int| 0 <= k < i ==> !is_part_at(text@, part@, k),
        decreases t.len() - p.len() + 1 - i,
    {
        let mut j: usize = 0;
        while j < p.len() && t[i + j] == p[j]
            invariant
                i + p.len() <= t.len(),
                j <= p.len(),
                forall|k: int| 0 <= k < j ==> t@[i + k] == p@[k],
            decreases p.len() - j,
        {
            j += 1;
        }
        if j == p.len() {
            assert(text@.subrange(i as int, i + part@.len()) == part@);
            assert(is_part_at(text@, part@, i as int));
            return true;
        }
        assert(text@.subrange(i as int, i + part@.len())[j as int] != part@[j as int]);
        i += 1;
    }
    assert forall|k: int| !is_part_at(text@, part@, k) by {
        if 0 <= k < i {
        }
    }
    false
}

/// `text` without the occurrences of `c` that it starts with.
pub fn trim_start_of(text: &str, c: char) -> (r: String)
    ensures
        r@ == trim_start(text@, c),
{
    let t = chars_of(text);
    let mut i: usize = 0;
    assert(text@.skip(0) == text@);
    while i < t.len() && t[i] == c
        invariant
            i <= t.len(),
            t@ == text@,
            trim_start(text@, c) == trim_start(text@.skip(i as int), c),
        decreases t.len() - i,
    {
        assert(text@.skip(i as int).drop_first() == text@.skip(i + 1));
        i += 1;
    }
    string_of(&t, i, t.len())
}

/// `text` without the occurrences of `c` that it ends with.
pub fn trim_end_of(text: &str, c: char) -> (r: String)
    ensures
        r@ == trim_end(text@, c),
{
    let t = chars_of(text);
    let mut n: usize = t.len();
    assert(text@.take(n as int) == text@);
    while n > 0 && t[n - 1] == c
        invariant
            n <= t.len(),
            t@ == text@,
            trim_end(text@, c) == trim_end(text@.take(n as int), c),
        decreases n,
    {
        assert(text@.take(n as int).drop_last() == text@.take(n - 1));
        n -= 1;
    }
    string_of(&t, 0, n)
}

fn is_white_char(c: char) -> (r: bool)
    ensures
        r == is_white(c),
{
    '\u{9}' <= c && c <= '\u{d}' || c == ' ' || c == '\u{85}' || c == '\u{a0}' || c == '\u{1680}' || '\u{2000}' <= c
        && c <= '\u{200a}' || c == '\u{2028}' || c == '\u{2029}' || c == '\u{202f}' || c == '\u{205f}' || c == '\u{3000}'
}

/// `text` without the white space around it.
pub fn trim(text: &str) -> (r: String)
    ensures
        r@ == trimmed(text@),
{
    let t = chars_of(text);
    let mut from: usize = 0;
    assert(text@.skip(0) == text@);
    while from < t.len() && is_white_char(t[from])
        invariant
            from <= t.len(),
            t@ == text@,
            trim_white_start(text@) == trim_white_start(text@.skip(from as int)),
        decreases t.len() - from,
    {
        assert(text@.skip(from as int).drop_first() == text@.skip(from + 1));
        from += 1;
    }
    let ghost rest = text@.skip(from as int);
    let mut to: usize = t.len();
    assert(text@.subrange(from as int, to as int) == rest);
    while to > from && is_white_char(t[to - 1])
        invariant
            from <= to <= t.len(),
            t@ == text@,
            trim_white_end(rest) == trim_white_end(text@.subrange(from as int, to as int)),
        decreases to,
    {
        assert(text@.subrange(from as int, to as int).drop_last() == text@.subrange(from as int, to - 1));
        to -= 1;
    }
    string_of(&t, from, to)
}

/// The pieces of `text` between the occurrences of `separator`.
pub fn split_at(text: &str, separator: char) -> (parts: Vec<String>)
    ensures
        texts(parts@) == split(text@, separator),
        parts.len() >= 1,
{
    let t = chars_of(text);
    let mut parts: Vec<String> = Vec::new();
    let mut current = String::new();
    let mut i: usize = 0;
    assert(text@.take(0) == Seq::<char>::empty());
    assert(texts(parts@).push(current@) == split(text@.take(0), separator));
    while i < t.len()
        invariant
            i <= t.len(),
            t@ == text@,
            texts(parts@).push(current@) == split(text@.take(i as int), separator),
        decreases t.len() - i,
    {
        let ghost before = split(text@.take(i as int), separator);
        assert(text@.take(i + 1).drop_last() == text@.take(i as int));
        assert(before.drop_last() == texts(parts@));
        if t[i] == separator {
            parts.push(current);
            assert(texts(parts@) == before);
            current = String::new();
        } else {
            current.push(t[i]);
        }
        i += 1;
    }
    assert(text@.take(i as int) == text@);
    parts.push(current);
    assert(texts(parts@) == split(text@, separator));
    parts
}

/// `parts` in order, with `separator` between each two neighbours.
pub fn join_with(parts: &Vec<String>, separator: &str) -> (r: String)
    ensures
        r@ == join(texts(parts@), separator@),
{
    if parts.len() == 0 {
        return String::new();
    }
    let mut r = copy(&parts[0]);
    let mut i: usize = 1;
    while i < parts.len()
        invariant
            1 <= i <= parts.len(),
            r@ == join(texts(parts@).take(i as int), separator@),
        decreases parts.len() - i,
    {
        assert(texts(parts@).take(i + 1).drop_last() == texts(parts@).take(i as int));
        r.append(separator);
        r.append(&parts[i]);
        i += 1;
    }
    assert(texts(parts@).take(i as int) == texts(parts@));
    r
}

/// Whether `a` comes before `b` in the order of texts.
pub fn is_before(a: &str, b: &str) -> (r: bool)
    ensures
        r == precedes(a@, b@),
{
    let x = chars_of(a);
    let y = chars_of(b);
    let mut i: usize = 0;
    assert(a@.skip(0) == a@);
    assert(b@.skip(0) == b@);
    while i < x.len() && i < y.len() && x[i] == y[i]
        invariant
            i <= x.len(),
            i <= y.len(),
            x@ == a@,
            y@ == b@,
            precedes(a@, b@) == precedes(a@.skip(i as int), b@.skip(i as int)),
        decreases x.len() - i,
    {
        assert(a@.skip(i as int).drop_first() == a@.skip(i + 1));
        assert(b@.skip(i as int).drop_first() == b@.skip(i + 1));
        i += 1;
    }
    if i == y.len() {
        false
    } else if i == x.len() {
        true
    } else {
        x[i] < y[i]
    }
}

/// The decimal digits of `n`.
pub fn decimal_of(n: u64) -> (r: String)
    ensures
        r@ == decimal(n as nat),
    decreases n,
{
    let mut r = if n < 10 {
        String::new()
    } else {
        decimal_of(n / 10)
    };
    let d: u8 = (n % 10) as u8;
    r.push((48 + d) as char);
    assert(r@ == decimal(n as nat));
    r
}

} // verus!
