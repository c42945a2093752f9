//! The bytes that a double-quoted PHP string stands for, where they are no text.

use vstd::prelude::*;
use vstd::utf8::encode_utf8;

use crate::path_finder::expression::digit_of;
use crate::path_finder::expression::is_digit_to;
use crate::path_finder::expression::numeral;

verus! {

/// The byte that a backslash and `c` stand for, if it is a single one whatever follows.
pub open spec fn simple_escape(c: char) -> Option<u8> {
    match c {
        '\\' => Some(0x5c),
        '"' => Some(0x22),
        '$' => Some(0x24),
        'n' => Some(0x0a),
        't' => Some(0x09),
        'r' => Some(0x0d),
        'v' => Some(0x0b),
        'e' => Some(0x1b),
        'f' => Some(0x0c),
        _ => None,
    }
}

/// How many digits to the base `radix` stand in a text from `from` on, `most` of them at most.
pub open spec fn digit_run(text: Seq<char>, from: int, radix: nat, most: nat) -> nat
    decreases most,
{
    if most > 0 && 0 <= from < text.len() && is_digit_to(text[from], radix) {
        1 + digit_run(text, from + 1, radix, (most - 1) as nat)
    } else {
        0
    }
}

/// The value of `n` digits from `from` on, as a byte.
pub open spec fn digits_byte(text: Seq<char>, from: int, n: nat, radix: nat) -> u8 {
    (numeral(text.subrange(from, from + n), radix)->0 % 256) as u8
}

/// The bytes that the first character or escape of a text between double quotes stands for, and how many
/// characters it has. `\x` and up to two hexadecimal digits, or a backslash and up to three octal digits,
/// are a byte; a backslash that begins no escape stands for itself.
pub open spec fn first_piece(text: Seq<char>) -> (Seq<u8>, int) {
    let hex = digit_run(text, 2, 16, 2);
    let octal = digit_run(text, 1, 8, 3);
    if text.len() == 1 || text[0] != '\\' {
        (encode_utf8(text.take(1)), 1)
    } else if let Some(byte) = simple_escape(text[1]) {
        (seq![byte], 2)
    } else if text[1] == 'x' && hex > 0 {
        (seq![digits_byte(text, 2, hex, 16)], (2 + hex) as int)
    } else if octal > 0 {
        (seq![digits_byte(text, 1, octal, 8)], (1 + octal) as int)
    } else {
        (encode_utf8(text.take(2)), 2)
    }
}

/// The bytes that a text between double quotes stands for.
pub open spec fn unescaped(text: Seq<char>) -> Seq<u8>
    decreases text.len(),
    via unescaped_ends
{
    if text.len() == 0 {
        Seq::<u8>::empty()
    } else {
        first_piece(text).0 + unescaped(text.skip(first_piece(text).1))
    }
}

#[via_fn]
proof fn unescaped_ends(text: Seq<char>) {
    if text.len() > 0 {
        first_piece_is_within(text);
    }
}

/// The first character or escape ends with the text at the latest.
proof fn first_piece_is_within(text: Seq<char>)
    requires
        text.len() > 0,
    ensures
        1 <= first_piece(text).1 <= text.len(),
{
    run_is_within(text, 2, 16, 2);
    run_is_within(text, 1, 8, 3);
}

/// A run of digits ends with the text at the latest.
proof fn run_is_within(text: Seq<char>, from: int, radix: nat, most: nat)
    requires
        0 <= from,
    ensures
        digit_run(text, from, radix, most) > 0 ==> from + digit_run(text, from, radix, most) <= text.len(),
    decreases most,
{
    if most > 0 {
        run_is_within(text, from + 1, radix, (most - 1) as nat);
    }
}

fn simple_escape_of(c: char) -> (r: Option<u8>)
    ensures
        r == simple_escape(c),
{
    match c {
        '\\' => Some(0x5c),
        '"' => Some(0x22),
        '$' => Some(0x24),
        'n' => Some(0x0a),
        't' => Some(0x09),
        'r' => Some(0x0d),
        'v' => Some(0x0b),
        'e' => Some(0x1b),
        'f' => Some(0x0c),
        _ => None,
    }
}

/// Adds the bytes of the characters from `from` up to `to`.
fn add_chars(out: &mut Vec<u8>, chars: &Vec<char>, from: usize, to: usize)
    requires
        from <= to <= chars.len(),
    ensures
        final(out)@ == old(out)@ + encode_utf8(chars@.subrange(from as int, to as int)),
{
    let text = crate::text::string_of(chars, from, to);
    let bytes = text.as_str().as_bytes();
    let ghost before = out@;
    let ghost all = bytes@;
    let mut i: usize = 0;
    assert(before + all.take(0) =~= before);
    while i < bytes.len()
        invariant
            i <= bytes.len(),
            all == bytes@,
            out@ == before + all.take(i as int),
        decreases bytes.len() - i,
    {
        out.push(bytes[i]);
        assert(all.take(i + 1) =~= all.take(i as int).push(all[i as int]));
        assert(out@ =~= before + all.take(i + 1));
        i += 1;
    }
    assert(all.take(i as int) =~= all);
}

/// How many digits stand from `from` on, `most` of them at most, and their value as a byte.
fn read_digits(chars: &Vec<char>, from: usize, radix: u32, most: usize) -> (r: (usize, u8))
    requires
        from <= chars.len(),
        radix == 8 || radix == 16,
        most <= 3,
    ensures
        r.0 == digit_run(chars@, from as int, radix as nat, most as nat),
        r.0 <= most,
        from + r.0 <= chars.len(),
        r.0 > 0 ==> r.1 == digits_byte(chars@, from as int, r.0 as nat, radix as nat),
{
    let ghost text = chars@;
    let ghost base = radix as nat;
    let mut n: usize = 0;
    let mut value: u32 = 0;
    let mut more = true;
    while more && n < most
        invariant
            n <= most <= 3,
            from + n <= chars.len(),
            radix == 8 || radix == 16,
            base == radix,
            text == chars@,
            digit_run(text, from as int, base, most as nat) == n + if more {
                digit_run(text, from + n, base, (most - n) as nat)
            } else {
                0
            },
            n == 0 ==> value == 0,
            n == 1 ==> value < 16,
            n == 2 ==> value < 256,
            n == 3 ==> value < 4096,
            n > 0 ==> numeral(text.subrange(from as int, from + n), base) == Some(value as nat),
        decreases most - n + if more {
            1int
        } else {
            0
        },
    {
        let digit: u64 = if from + n < chars.len() {
            match digit_of(chars[from + n]) {
                Some(d) => d,
                None => 16,
            }
        } else {
            16
        };
        if digit < radix as u64 {
            proof {
                let now = text.subrange(from as int, from + n + 1);
                assert(now.drop_last() =~= text.subrange(from as int, from + n));
                assert(now.last() == text[from + n]);
                assert(is_digit_to(text[from + n], base));
            }
            value = radix * value + digit as u32;
            n += 1;
        } else {
            more = false;
        }
    }
    (n, (value % 256) as u8)
}

/// Adds the bytes of the character or escape at `i`, and says how many characters it has.
fn add_next(out: &mut Vec<u8>, chars: &Vec<char>, i: usize) -> (used: usize)
    requires
        i < chars.len(),
    ensures
        used == first_piece(chars@.skip(i as int)).1,
        final(out)@ == old(out)@ + first_piece(chars@.skip(i as int)).0,
{
    let ghost all = chars@;
    let ghost before = out@;
    let ghost rest = all.skip(i as int);
    if i + 1 == chars.len() || chars[i] != '\\' {
        add_chars(out, chars, i, i + 1);
        assert(all.subrange(i as int, i + 1) =~= rest.take(1));
        return 1;
    }
    assert(rest[0] == all[i as int] && rest[1] == all[i + 1]);
    if let Some(byte) = simple_escape_of(chars[i + 1]) {
        out.push(byte);
        assert(out@ =~= before + seq![byte]);
        return 2;
    }
    proof {
        runs_agree(all, i as int, 2, 16, 2);
        runs_agree(all, i as int, 1, 8, 3);
    }
    let (hex, hex_byte) = read_digits(chars, i + 2, 16, 2);
    if chars[i + 1] == 'x' && hex > 0 {
        out.push(hex_byte);
        assert(all.subrange(i + 2, i + 2 + hex) =~= rest.subrange(2, 2 + hex));
        assert(out@ =~= before + seq![hex_byte]);
        return 2 + hex;
    }
    let (octal, octal_byte) = read_digits(chars, i + 1, 8, 3);
    if octal > 0 {
        out.push(octal_byte);
        assert(all.subrange(i + 1, i + 1 + octal) =~= rest.subrange(1, 1 + octal));
        assert(out@ =~= before + seq![octal_byte]);
        return 1 + octal;
    }
    add_chars(out, chars, i, i + 2);
    assert(all.subrange(i as int, i + 2) =~= rest.take(2));
    2
}

/// The bytes that a text between double quotes stands for.
pub fn unescape(chars: &Vec<char>) -> (r: Vec<u8>)
    ensures
        r@ == unescaped(chars@),
{
    let ghost all = chars@;
    let mut r: Vec<u8> = Vec::new();
    let mut i: usize = 0;
    assert(all.skip(0) =~= all);
    assert(r@ + unescaped(all) =~= unescaped(all));
    while i < chars.len()
        invariant
            i <= chars.len(),
            all == chars@,
            unescaped(all) == r@ + unescaped(all.skip(i as int)),
        decreases chars.len() - i,
    {
        let ghost before = r@;
        let ghost rest = all.skip(i as int);
        proof {
            first_piece_is_within(rest);
        }
        let used = add_next(&mut r, chars, i);
        proof {
            assert(rest.skip(used as int) =~= all.skip(i + used));
            assert(before + (first_piece(rest).0 + unescaped(rest.skip(used as int))) =~= r@ + unescaped(
                all.skip(i + used),
            ));
        }
        i += used;
    }
    assert(all.skip(i as int) =~= Seq::<char>::empty());
    assert(r@ + unescaped(all.skip(i as int)) =~= r@);
    r
}

/// A run of digits is the same in a text and in its end.
proof fn runs_agree(text: Seq<char>, skipped: int, from: int, radix: nat, most: nat)
    requires
        0 <= skipped <= text.len(),
        0 <= from,
    ensures
        digit_run(text, skipped + from, radix, most) == digit_run(text.skip(skipped), from, radix, most),
    decreases most,
{
    if most > 0 {
        runs_agree(text, skipped, from + 1, radix, (most - 1) as nat);
        if from < text.skip(skipped).len() {
            assert(text.skip(skipped)[from] == text[skipped + from]);
        }
    }
}

} // verus!
