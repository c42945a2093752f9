//! What source text is read as: syntax trees, numbers and escapes.

use vstd::prelude::*;
use vstd::utf8::*;

use crate::path_finder::expression::digit_value;
use crate::path_finder::expression::integer_literal;
use crate::path_finder::expression::is_digit_to;
use crate::path_finder::expression::numeral;
use crate::path_finder::expression::ungrouped;
use crate::path_finder::literal::digit_run;
use crate::path_finder::literal::first_piece;
use crate::path_finder::literal::unescaped;
use crate::path_finder::notation::segment_of;
use crate::path_finder::syntax::NodeView;
use crate::path_finder::syntax::Syntax;
use crate::path_finder::syntax::forest;
use crate::text::trim_end;
use crate::text::trim_end_takes_the_run;
use crate::text::trim_start;
use crate::text::trim_start_takes_the_run;

verus! {

// ---------------------------------------------------------------------------------------------
// Trees.

/// The nodes of a tree, each after its children.
pub open spec fn nodes_of(tree: Syntax) -> Seq<NodeView>
    decreases tree, tree.children.len() + 1,
{
    nodes_below(tree, tree.children.len()).push(
        NodeView {
            kind: tree.kind,
            start: tree.start,
            end: tree.end,
            line: tree.line,
            end_line: tree.end_line,
            arity: tree.children.len() as usize,
        },
    )
}

/// The nodes of the first `n` children of a tree, each after its children.
pub open spec fn nodes_below(tree: Syntax, n: nat) -> Seq<NodeView>
    decreases tree, n,
{
    if n == 0 || n > tree.children.len() {
        Seq::<NodeView>::empty()
    } else {
        nodes_below(tree, (n - 1) as nat) + nodes_of(tree.children[n - 1])
    }
}

/// Whether no node of a tree has more children than can be counted.
pub open spec fn countable(tree: Syntax) -> bool
    decreases tree,
{
    tree.children.len() <= usize::MAX && forall|i: int|
        0 <= i < tree.children.len() ==> countable(#[trigger] tree.children[i])
}

/// The nodes of a tree, each after its children, are read as that tree, behind whatever was read before.
pub proof fn trees_read_back(before: Seq<NodeView>, tree: Syntax)
    requires
        countable(tree),
    ensures
        forest(before + nodes_of(tree)) == forest(before).push(tree),
    decreases tree, tree.children.len() + 1,
{
    let n = tree.children.len();
    let all = before + nodes_of(tree);
    children_read_back(before, tree, n);
    let below = before + nodes_below(tree, n);
    assert(all.drop_last() =~= below);
    let stack = forest(below);
    let children = tree.children.take(n as int);
    assert(children =~= tree.children);
    assert(stack == forest(before) + children);
    assert(stack.take(stack.len() - n) =~= forest(before));
    assert(stack.skip(stack.len() - n) =~= tree.children);
}

proof fn children_read_back(before: Seq<NodeView>, tree: Syntax, n: nat)
    requires
        countable(tree),
        n <= tree.children.len(),
    ensures
        forest(before + nodes_below(tree, n)) == forest(before) + tree.children.take(n as int),
    decreases tree, n,
{
    if n == 0 {
        assert(before + nodes_below(tree, n) =~= before);
        assert(forest(before) + tree.children.take(0) =~= forest(before));
    } else {
        let child = tree.children[n - 1];
        let less = before + nodes_below(tree, (n - 1) as nat);
        children_read_back(before, tree, (n - 1) as nat);
        assert(countable(child));
        trees_read_back(less, child);
        assert(before + nodes_below(tree, n) =~= less + nodes_of(child));
        assert(forest(before) + tree.children.take(n as int) =~= (forest(before) + tree.children.take(n - 1)).push(
            child,
        ));
    }
}

// ---------------------------------------------------------------------------------------------
// Numbers.

/// The value of a character as a digit.
pub open spec fn value_of_digit(c: char) -> int {
    if '0' <= c <= '9' {
        c as u32 - '0' as u32
    } else if 'a' <= c <= 'f' {
        c as u32 - 'a' as u32 + 10
    } else if 'A' <= c <= 'F' {
        c as u32 - 'A' as u32 + 10
    } else {
        99
    }
}

/// A numeral with one more digit is worth the base times what it was worth, and the digit; with anything
/// else it is none.
pub proof fn numerals_grow_by_digits(text: Seq<char>, c: char, radix: nat)
    requires
        2 <= radix <= 16,
    ensures
        value_of_digit(c) < radix ==> numeral(seq![c], radix) == Some(value_of_digit(c) as nat),
        value_of_digit(c) >= radix ==> numeral(text.push(c), radix) is None,
        text.len() > 0 && numeral(text, radix) is None ==> numeral(text.push(c), radix) is None,
        numeral(text, radix) is Some && value_of_digit(c) < radix ==> numeral(text.push(c), radix) == Some(
            (radix * numeral(text, radix)->0 + value_of_digit(c)) as nat,
        ),
        numeral(Seq::empty(), radix) is None,
{
    assert(text.push(c).drop_last() =~= text);
    assert(digit_value(c) is Some ==> digit_value(c)->0 == value_of_digit(c));
    assert(is_digit_to(c, radix) == (value_of_digit(c) < radix));
    assert(radix * (if numeral(text, radix) is Some {
        numeral(text, radix)->0
    } else {
        0
    }) >= 0) by (nonlinear_arith);
}

proof fn ungrouped_in_two(a: Seq<char>, b: Seq<char>)
    ensures
        ungrouped(a + b) == ungrouped(a) + ungrouped(b),
    decreases b.len(),
{
    if b.len() == 0 {
        assert(a + b =~= a);
        assert(ungrouped(a) + ungrouped(b) =~= ungrouped(a));
    } else {
        ungrouped_in_two(a, b.drop_last());
        assert((a + b).drop_last() =~= a + b.drop_last());
        assert(ungrouped(a + b) =~= ungrouped(a) + ungrouped(b));
    }
}

/// Underscores between digits make no difference.
pub proof fn underscores_make_no_difference(a: Seq<char>, b: Seq<char>)
    ensures
        integer_literal(a + "_"@ + b) == integer_literal(a + b),
{
    reveal_strlit("_");
    let one = "_"@;
    assert(one =~= seq!['_']);
    assert(one.drop_last() =~= Seq::<char>::empty());
    assert(ungrouped(one.drop_last()) =~= Seq::<char>::empty());
    assert(ungrouped(one) =~= Seq::<char>::empty());
    ungrouped_in_two(a + one, b);
    ungrouped_in_two(a, one);
    ungrouped_in_two(a, b);
    assert(ungrouped(a) + ungrouped(one) =~= ungrouped(a));
}

/// The start of a number says its base: '0x' sixteen, '0b' two, and '0o' or a bare '0' eight.
pub proof fn prefixes_say_the_base(digits: Seq<char>)
    requires
        digits.len() > 0,
        forall|i: int| 0 <= i < digits.len() ==> '0' <= (#[trigger] digits[i]) <= '9' || 'a' <= digits[i] <= 'f',
    ensures
        integer_literal("0x"@ + digits) == numeral(digits, 16),
        integer_literal("0X"@ + digits) == numeral(digits, 16),
        integer_literal("0o"@ + digits) == numeral(digits, 8),
        integer_literal("0O"@ + digits) == numeral(digits, 8),
        digits[0] != 'b' ==> integer_literal("0"@ + digits) == numeral(digits, 8),
        integer_literal("0b"@ + digits) == numeral(digits, 2),
        integer_literal("0B"@ + digits) == numeral(digits, 2),
        digits[0] != '0' ==> integer_literal(digits) == numeral(digits, 10),
{
    reveal_strlit("0x");
    reveal_strlit("0X");
    reveal_strlit("0o");
    reveal_strlit("0O");
    reveal_strlit("0b");
    reveal_strlit("0B");
    reveal_strlit("0");
    prefixed("0x"@, digits);
    prefixed("0X"@, digits);
    prefixed("0o"@, digits);
    prefixed("0O"@, digits);
    prefixed("0b"@, digits);
    prefixed("0B"@, digits);
    prefixed("0"@, digits);
    prefixed(Seq::empty(), digits);
    assert(Seq::<char>::empty() + digits =~= digits);
    assert(digits.skip(0) =~= digits);
    assert('0' <= digits[0] <= '9' || 'a' <= digits[0] <= 'f');
}

proof fn prefixed(prefix: Seq<char>, digits: Seq<char>)
    requires
        forall|i: int| 0 <= i < prefix.len() ==> #[trigger] prefix[i] != '_',
        forall|i: int| 0 <= i < digits.len() ==> '0' <= (#[trigger] digits[i]) <= '9' || 'a' <= digits[i] <= 'f',
    ensures
        ungrouped(prefix + digits) == prefix + digits,
        (prefix + digits).skip(prefix.len() as int) == digits,
{
    let text = prefix + digits;
    assert forall|i: int| 0 <= i < text.len() implies #[trigger] text[i] != '_' by {
        if i >= prefix.len() {
            assert('0' <= digits[i - prefix.len()] <= '9' || 'a' <= digits[i - prefix.len()] <= 'f');
        }
    }
    nothing_to_ungroup(text);
    assert(text.skip(prefix.len() as int) =~= digits);
}

proof fn nothing_to_ungroup(text: Seq<char>)
    requires
        forall|i: int| 0 <= i < text.len() ==> #[trigger] text[i] != '_',
    ensures
        ungrouped(text) == text,
    decreases text.len(),
{
    if text.len() > 0 {
        assert(text[text.len() - 1] != '_');
        assert forall|i: int| 0 <= i < text.drop_last().len() implies #[trigger] text.drop_last()[i] != '_' by {
            assert(text[i] != '_');
        }
        nothing_to_ungroup(text.drop_last());
        assert(text.drop_last().push(text.last()) =~= text);
    }
}

// ---------------------------------------------------------------------------------------------
// Escapes.

/// The characters that stand for one byte behind a backslash, and that byte.
pub open spec fn named_escapes() -> Seq<(char, u8)> {
    seq![
        ('n', 10u8),
        ('t', 9u8),
        ('r', 13u8),
        ('v', 11u8),
        ('e', 27u8),
        ('f', 12u8),
        ('\\', 92u8),
        ('$', 36u8),
        ('"', 34u8),
    ]
}

/// A character that is no backslash stands for itself, wherever it stands.
pub proof fn characters_stand_for_themselves(c: char, rest: Seq<char>)
    requires
        c != '\\',
    ensures
        unescaped(seq![c] + rest) == encode_utf8(seq![c]) + unescaped(rest),
        unescaped(Seq::empty()) == Seq::<u8>::empty(),
{
    let text = seq![c] + rest;
    assert(text.take(1) =~= seq![c]);
    assert(text.skip(1) =~= rest);
}

/// Each of the named escapes stands for its byte.
pub proof fn named_escapes_stand_for_their_byte(i: int, rest: Seq<char>)
    requires
        0 <= i < named_escapes().len(),
    ensures
        unescaped(seq!['\\', named_escapes()[i].0] + rest) == seq![named_escapes()[i].1] + unescaped(rest),
{
    let text = seq!['\\', named_escapes()[i].0] + rest;
    assert(text.skip(2) =~= rest);
    assert(text[0] == '\\' && text[1] == named_escapes()[i].0);
    assert(first_piece(text) == (seq![named_escapes()[i].1], 2int));
}

/// Two hexadecimal digits behind '\x' stand for the byte of that value, and so does one that no other
/// follows.
pub proof fn hexadecimal_escapes_stand_for_their_byte(a: char, b: char, rest: Seq<char>)
    requires
        value_of_digit(a) < 16,
    ensures
        value_of_digit(b) < 16 ==> unescaped(seq!['\\', 'x', a, b] + rest) == seq![
            (16 * value_of_digit(a) + value_of_digit(b)) as u8,
        ] + unescaped(rest),
        value_of_digit(b) >= 16 ==> unescaped(seq!['\\', 'x', a, b] + rest) == seq![value_of_digit(a) as u8]
            + unescaped(seq![b] + rest),
{
    let text = seq!['\\', 'x', a, b] + rest;
    reveal_with_fuel(digit_run, 3);
    assert(text[0] == '\\' && text[1] == 'x' && text[2] == a && text[3] == b);
    assert(is_digit_to(a, 16));
    assert(is_digit_to(b, 16) == (value_of_digit(b) < 16));
    numerals_grow_by_digits(seq![a], b, 16);
    numerals_grow_by_digits(seq![a], a, 16);
    assert(seq![a].push(b) =~= seq![a, b]);
    if value_of_digit(b) < 16 {
        assert(digit_run(text, 2, 16, 2) == 2);
        assert(text.subrange(2, 4) =~= seq![a, b]);
        assert(text.skip(4) =~= rest);
    } else {
        assert(digit_run(text, 2, 16, 2) == 1);
        assert(text.subrange(2, 3) =~= seq![a]);
        assert(text.skip(3) =~= seq![b] + rest);
    }
}

/// Three octal digits behind a backslash stand for the byte of that value, of which only the last eight bits
/// count.
pub proof fn octal_escapes_stand_for_their_byte(a: char, b: char, c: char, rest: Seq<char>)
    requires
        '0' <= a <= '7',
        '0' <= b <= '7',
        '0' <= c <= '7',
    ensures
        unescaped(seq!['\\', a, b, c] + rest) == seq![
            ((64 * value_of_digit(a) + 8 * value_of_digit(b) + value_of_digit(c)) % 256) as u8,
        ] + unescaped(rest),
{
    let text = seq!['\\', a, b, c] + rest;
    reveal_with_fuel(digit_run, 4);
    assert(text[0] == '\\' && text[1] == a && text[2] == b && text[3] == c);
    assert(is_digit_to(a, 8) && is_digit_to(b, 8) && is_digit_to(c, 8));
    numerals_grow_by_digits(seq![a], a, 8);
    numerals_grow_by_digits(seq![a], b, 8);
    assert(seq![a].push(b) =~= seq![a, b]);
    numerals_grow_by_digits(seq![a, b], c, 8);
    assert(seq![a, b].push(c) =~= seq![a, b, c]);
    assert(digit_run(text, 1, 8, 3) == 3);
    assert(text.subrange(1, 4) =~= seq![a, b, c]);
    assert(text.skip(4) =~= rest);
}

/// A shorter run of octal digits ends where the digits do.
pub proof fn short_octal_escapes_stand_for_their_byte(a: char, b: char, c: char, rest: Seq<char>)
    requires
        '0' <= a <= '7',
        !('0' <= c <= '7'),
    ensures
        '0' <= b <= '7' ==> unescaped(seq!['\\', a, b, c] + rest) == seq![
            (8 * value_of_digit(a) + value_of_digit(b)) as u8,
        ] + unescaped(seq![c] + rest),
        unescaped(seq!['\\', a, c] + rest) == seq![value_of_digit(a) as u8] + unescaped(seq![c] + rest),
{
    reveal_with_fuel(digit_run, 4);
    numerals_grow_by_digits(seq![a], a, 8);
    numerals_grow_by_digits(seq![a], b, 8);
    assert(seq![a].push(b) =~= seq![a, b]);
    assert(is_digit_to(a, 8) && !is_digit_to(c, 8));
    let short = seq!['\\', a, c] + rest;
    assert(short[0] == '\\' && short[1] == a && short[2] == c);
    assert(digit_run(short, 1, 8, 3) == 1);
    assert(short.subrange(1, 2) =~= seq![a]);
    assert(short.skip(2) =~= seq![c] + rest);
    if '0' <= b <= '7' {
        let text = seq!['\\', a, b, c] + rest;
        assert(text[0] == '\\' && text[1] == a && text[2] == b && text[3] == c);
        assert(is_digit_to(b, 8));
        assert(digit_run(text, 1, 8, 3) == 2);
        assert(text.subrange(1, 3) =~= seq![a, b]);
        assert(text.skip(3) =~= seq![c] + rest);
    }
}

/// A backslash before anything else stands for itself, and so does what is behind it.
pub proof fn other_backslashes_stand_for_themselves(c: char, rest: Seq<char>)
    requires
        forall|i: int| 0 <= i < named_escapes().len() ==> (#[trigger] named_escapes()[i]).0 != c,
        c != 'x',
        !('0' <= c <= '7'),
    ensures
        unescaped(seq!['\\', c] + rest) == encode_utf8(seq!['\\', c]) + unescaped(rest),
{
    let text = seq!['\\', c] + rest;
    let all = named_escapes();
    assert(all[0].0 != c && all[1].0 != c && all[2].0 != c && all[3].0 != c && all[4].0 != c);
    assert(all[5].0 != c && all[6].0 != c && all[7].0 != c && all[8].0 != c);
    assert(text[0] == '\\' && text[1] == c);
    assert(!is_digit_to(c, 8));
    assert(digit_run(text, 1, 8, 3) == 0);
    assert(text.take(2) =~= seq!['\\', c]);
    assert(text.skip(2) =~= rest);
}

// ---------------------------------------------------------------------------------------------
// Notation.

/// The path of dirroot is told with one slash before it and none behind it, however it is given.
pub proof fn slashes_around_dirroot_make_no_difference(before: Seq<char>, dirroot: Seq<char>, after: Seq<char>)
    requires
        forall|i: int| 0 <= i < before.len() ==> #[trigger] before[i] == '/',
        forall|i: int| 0 <= i < after.len() ==> #[trigger] after[i] == '/',
        dirroot.len() > 0 ==> dirroot[0] != '/' && dirroot.last() != '/',
    ensures
        dirroot.len() > 0 ==> segment_of(before + dirroot + after) == "/"@ + dirroot,
        dirroot.len() == 0 ==> segment_of(before + dirroot + after) == ""@,
{
    reveal_strlit("/");
    reveal_strlit("");
    let text = before + dirroot + after;
    let left = trim_start(text, '/');
    trim_start_takes_the_run(text, '/');
    let cut = text.len() - left.len();
    if dirroot.len() > 0 {
        assert(text[before.len() as int] == dirroot[0]);
        assert(cut == before.len()) by {
            if cut < before.len() {
                assert(left[0] == text[cut]);
                assert(text[cut] == before[cut]);
            }
        }
        assert(left =~= dirroot + after);
        let right = trim_end(left, '/');
        trim_end_takes_the_run(left, '/');
        assert(left[dirroot.len() - 1] == dirroot.last());
        assert(right.len() == dirroot.len()) by {
            if right.len() > dirroot.len() {
                assert(right.last() == left[right.len() - 1]);
                assert(left[right.len() - 1] == after[right.len() - 1 - dirroot.len()]);
            }
        }
        assert(right =~= dirroot);
        assert(segment_of(text) =~= "/"@ + dirroot);
    } else {
        assert(left.len() == 0) by {
            if left.len() > 0 {
                assert(left[0] == text[cut]);
                if cut < before.len() {
                    assert(text[cut] == before[cut]);
                } else {
                    assert(text[cut] == after[cut - before.len()]);
                }
            }
        }
        assert(segment_of(text) =~= ""@);
    }
}

} // verus!
