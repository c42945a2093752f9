//! What path expressions stand for, shape by shape.

use vstd::prelude::*;

use crate::path_finder::expression::Source;
use crate::path_finder::expression::code_of;
use crate::path_finder::expression::concat_sides;
use crate::path_finder::expression::dirname;
use crate::path_finder::expression::dirname_up;
use crate::path_finder::expression::file_relative;
use crate::path_finder::expression::integer_literal;
use crate::path_finder::expression::last_slash;
use crate::path_finder::expression::lowercase;
use crate::path_finder::expression::mono_path;
use crate::path_finder::expression::numeral;
use crate::path_finder::expression::operands;
use crate::path_finder::expression::path_kind;
use crate::path_finder::expression::rooted_path;
use crate::path_finder::expression::segment;
use crate::path_finder::expression::segments;
use crate::path_finder::expression::ungrouped;
use crate::path_finder::notation::descend_all;
use crate::path_finder::notation::glyph_of;
use crate::path_finder::notation::normalised;
use crate::path_finder::result::PathKind;
use crate::path_finder::syntax::Syntax;
use crate::path_finder::syntax::literal_value;
use crate::text::decimal;
use crate::text::join;
use crate::text::split;
use crate::text::split_around_separator;
use crate::text::split_without_separator;

verus! {

// ---------------------------------------------------------------------------------------------
// The shapes of expressions.

/// Whether `expr` is an expression of kind `kind`.
pub open spec fn wraps(expr: Syntax, kind: Seq<char>) -> bool {
    expr.kind == "Expression"@ && expr.children.len() == 1 && expr.children[0].kind == kind
}

/// Whether the only child of `node` is of kind `kind`.
pub open spec fn only(node: Syntax, kind: Seq<char>) -> bool {
    node.children.len() == 1 && node.children[0].kind == kind
}

/// Whether `expr` is `$CFG->name`.
pub open spec fn is_cfg(source: Source, expr: Syntax, name: Seq<char>) -> bool {
    let access = expr.children[0];
    let property = access.children[0];
    let object = property.children[0];
    &&& wraps(expr, "Access"@)
    &&& only(access, "PropertyAccess"@)
    &&& property.children.len() == 2
    &&& wraps(object, "Variable"@)
    &&& only(object.children[0], "DirectVariable"@)
    &&& code_of(source, object.children[0]) == "$CFG"@
    &&& only(property.children[1], "LocalIdentifier"@)
    &&& code_of(source, property.children[1]) == name
}

/// Whether `expr` is the magic constant `name`.
pub open spec fn is_magic(source: Source, expr: Syntax, name: Seq<char>) -> bool {
    wraps(expr, "MagicConstant"@) && code_of(source, expr.children[0]) == name
}

/// Whether `expr` is a string literal that stands for `value`.
pub open spec fn is_string(source: Source, expr: Syntax, value: Seq<char>) -> bool {
    &&& wraps(expr, "Literal"@)
    &&& only(expr.children[0], "LiteralString"@)
    &&& literal_value(code_of(source, expr.children[0]), None, true) == Some(value)
}

/// Whether `expr` is an integer literal, written as `code`.
pub open spec fn is_integer(source: Source, expr: Syntax, code: Seq<char>) -> bool {
    &&& wraps(expr, "Literal"@)
    &&& only(expr.children[0], "LiteralInteger"@)
    &&& code_of(source, expr.children[0]) == code
}

/// Whether `expr` is the constant `name`.
pub open spec fn is_constant(source: Source, expr: Syntax, name: Seq<char>) -> bool {
    wraps(expr, "ConstantAccess"@) && code_of(source, expr.children[0]) == name
}

/// Whether `expr` is `lhs . rhs`.
pub open spec fn is_concat(source: Source, expr: Syntax, lhs: Syntax, rhs: Syntax) -> bool {
    let binary = expr.children[0];
    &&& wraps(expr, "Binary"@)
    &&& binary.children.len() == 3
    &&& binary.children[0] == lhs
    &&& code_of(source, binary.children[1]) == "."@
    &&& binary.children[2] == rhs
}

/// Whether `expr` is the call `name(arguments)`.
pub open spec fn is_call(source: Source, expr: Syntax, name: Seq<char>, arguments: Seq<Syntax>) -> bool {
    let call = expr.children[0].children[0];
    let function = call.children[0];
    let list = call.children[1];
    &&& wraps(expr, "Call"@)
    &&& only(expr.children[0], "FunctionCall"@)
    &&& call.children.len() == 2
    &&& wraps(function, "Identifier"@)
    &&& code_of(source, function.children[0]) == name
    &&& list.children.len() == arguments.len()
    &&& forall|i: int|
        0 <= i < arguments.len() ==> only(#[trigger] list.children[i], "PositionalArgument"@)
            && list.children[i].children[0].children.len() == 1 && list.children[i].children[0].children[0]
            == arguments[i]
}

/// The kinds of expressions differ.
proof fn kinds_differ()
    ensures
        "MagicConstant"@ != "Call"@,
        "MagicConstant"@ != "Literal"@,
        "MagicConstant"@ != "Access"@,
        "MagicConstant"@ != "ConstantAccess"@,
        "MagicConstant"@ != "Binary"@,
        "MagicConstant"@ != "Variable"@,
        "MagicConstant"@ != "CompositeString"@,
        "Call"@ != "Literal"@,
        "Call"@ != "Access"@,
        "Call"@ != "Binary"@,
        "Call"@ != "ConstantAccess"@,
        "Call"@ != "CompositeString"@,
        "Call"@ != "Variable"@,
        "Literal"@ != "Access"@,
        "Literal"@ != "Binary"@,
        "Literal"@ != "ConstantAccess"@,
        "Literal"@ != "CompositeString"@,
        "Literal"@ != "Variable"@,
        "Access"@ != "Binary"@,
        "Access"@ != "ConstantAccess"@,
        "Access"@ != "CompositeString"@,
        "Access"@ != "Variable"@,
        "ConstantAccess"@ != "Binary"@,
        "ConstantAccess"@ != "CompositeString"@,
        "ConstantAccess"@ != "Variable"@,
        "Variable"@ != "Binary"@,
        "Variable"@ != "CompositeString"@,
        "CompositeString"@ != "Binary"@,
        "LiteralString"@ != "LiteralInteger"@,
        "dirroot"@ != "libdir"@,
        "dirroot"@ != "root"@,
        "dirroot"@ != "admin"@,
        "libdir"@ != "root"@,
        "libdir"@ != "admin"@,
        "root"@ != "admin"@,
{
    reveal_strlit("MagicConstant");
    reveal_strlit("Call");
    reveal_strlit("Literal");
    reveal_strlit("Access");
    reveal_strlit("ConstantAccess");
    reveal_strlit("Binary");
    reveal_strlit("Variable");
    reveal_strlit("CompositeString");
    reveal_strlit("LiteralString");
    reveal_strlit("LiteralInteger");
    reveal_strlit("dirroot");
    reveal_strlit("libdir");
    reveal_strlit("root");
    reveal_strlit("admin");
    assert("MagicConstant"@.len() == 13 && "Call"@.len() == 4 && "Literal"@.len() == 7);
    assert("Access"@.len() == 6 && "ConstantAccess"@.len() == 14 && "Binary"@.len() == 6);
    assert("Access"@[0] == 'A' && "Binary"@[0] == 'B');
    assert("Variable"@.len() == 8 && "CompositeString"@.len() == 15);
    assert("LiteralString"@.len() == 13 && "LiteralInteger"@.len() == 14);
    assert("dirroot"@.len() == 7 && "libdir"@.len() == 6 && "root"@.len() == 4 && "admin"@.len() == 5);
}

/// The magic constants in lower case.
proof fn lowercase_magic()
    ensures
        crate::path_finder::expression::lowercase("__DIR__"@) == "__dir__"@,
        crate::path_finder::expression::lowercase("__FILE__"@) == "__file__"@,
        "__dir__"@ != "__file__"@,
{
    reveal_strlit("__DIR__");
    reveal_strlit("__dir__");
    reveal_strlit("__FILE__");
    reveal_strlit("__file__");
    assert(crate::path_finder::expression::lowercase("__DIR__"@) =~= "__dir__"@);
    assert(crate::path_finder::expression::lowercase("__FILE__"@) =~= "__file__"@);
    assert("__dir__"@.len() == 7 && "__file__"@.len() == 8);
}

// ---------------------------------------------------------------------------------------------
// dirname().

/// dirname() of a path leaves out its last name.
pub proof fn dirname_leaves_out_the_last_name(dir: Seq<char>, name: Seq<char>)
    requires
        !name.contains('/'),
    ensures
        dir.len() > 0 ==> dirname(dir + seq!['/'] + name) == dir,
        dirname(seq!['/'] + name) == "/"@,
        dirname(name) == "."@,
{
    last_slash_is_before(dir, name);
    last_slash_is_before(Seq::empty(), name);
    assert(Seq::<char>::empty() + seq!['/'] + name =~= seq!['/'] + name);
    assert((dir + seq!['/'] + name).take(dir.len() as int) =~= dir);
    without_slash(name);
}

proof fn last_slash_is_before(front: Seq<char>, name: Seq<char>)
    requires
        !name.contains('/'),
    ensures
        last_slash(front + seq!['/'] + name) == Some(front.len() as int),
    decreases name.len(),
{
    let whole = front + seq!['/'] + name;
    if name.len() > 0 {
        assert(name.contains(name.last()));
        assert(!name.drop_last().contains('/')) by {
            if name.drop_last().contains('/') {
                let i = choose|i: int| 0 <= i < name.drop_last().len() && name.drop_last()[i] == '/';
                assert(name[i] == '/');
            }
        }
        last_slash_is_before(front, name.drop_last());
        assert(whole.drop_last() =~= front + seq!['/'] + name.drop_last());
    }
}

proof fn without_slash(name: Seq<char>)
    requires
        !name.contains('/'),
    ensures
        last_slash(name) is None,
    decreases name.len(),
{
    if name.len() > 0 {
        assert(name.contains(name.last()));
        assert(!name.drop_last().contains('/')) by {
            if name.drop_last().contains('/') {
                let i = choose|i: int| 0 <= i < name.drop_last().len() && name.drop_last()[i] == '/';
                assert(name[i] == '/');
            }
        }
        without_slash(name.drop_last());
    }
}

/// Going up two numbers of levels, one after the other, is going up their sum; one level is dirname().
pub proof fn levels_add_up(path: Seq<char>, first: nat, second: nat)
    ensures
        dirname_up(dirname_up(path, first), second) == dirname_up(path, first + second),
        dirname_up(path, 1) == dirname(path),
        dirname_up(path, 0) == path,
    decreases first,
{
    reveal_with_fuel(dirname_up, 2);
    if first > 0 {
        levels_add_up(dirname(path), (first - 1) as nat, second);
    }
}

/// __FILE__ stands for the path of the file, and __DIR__ for its directory.
pub proof fn magic_constants_stand_for_the_file(source: Source, expr: Syntax)
    ensures
        is_magic(source, expr, "__FILE__"@) ==> file_relative(source, expr) == Some(source.file),
        is_magic(source, expr, "__DIR__"@) ==> file_relative(source, expr) == Some(dirname(source.file)),
{
    lowercase_magic();
}

/// dirname() of what stands for a path stands for its directory, however deep the calls nest.
pub proof fn dirname_goes_up_one_level(source: Source, expr: Syntax, value: Syntax)
    requires
        is_call(source, expr, "dirname"@, seq![value]),
    ensures
        file_relative(source, expr) == match file_relative(source, value) {
            Some(path) => Some(dirname(path)),
            None => None,
        },
{
    kinds_differ();
    reveal_strlit("dirname");
    let list = expr.children[0].children[0].children[1];
    assert(only(list.children[0], "PositionalArgument"@));
    assert(seq![value][0] == value);
    assert("dirname"@[0] == 'd');
    if let Some(path) = file_relative(source, value) {
        levels_add_up(path, 1, 0);
    }
}

/// dirname() with a number goes up as many levels.
pub proof fn dirname_goes_up_as_many_levels_as_it_says(
    source: Source,
    expr: Syntax,
    value: Syntax,
    levels: Syntax,
    n: nat,
)
    requires
        is_call(source, expr, "dirname"@, seq![value, levels]),
        is_integer(source, levels, decimal(n)),
        1 <= n <= i64::MAX,
    ensures
        file_relative(source, expr) == match file_relative(source, value) {
            Some(path) => Some(dirname_up(path, n)),
            None => None,
        },
{
    kinds_differ();
    reveal_strlit("dirname");
    assert("dirname"@[0] == 'd');
    let list = expr.children[0].children[0].children[1];
    assert(only(list.children[0], "PositionalArgument"@));
    assert(only(list.children[1], "PositionalArgument"@));
    assert(seq![value, levels][0] == value && seq![value, levels][1] == levels);
    decimal_reads_back(n);
}

/// Two nested calls of dirname() stand for the same path as one that goes up two levels.
pub proof fn nested_dirname_is_two_levels(
    source: Source,
    nested: Syntax,
    inside: Syntax,
    flat: Syntax,
    value: Syntax,
    two: Syntax,
)
    requires
        is_call(source, nested, "dirname"@, seq![inside]),
        is_call(source, inside, "dirname"@, seq![value]),
        is_call(source, flat, "dirname"@, seq![value, two]),
        is_integer(source, two, "2"@),
    ensures
        file_relative(source, nested) == file_relative(source, flat),
{
    dirname_goes_up_one_level(source, nested, inside);
    dirname_goes_up_one_level(source, inside, value);
    reveal_strlit("2");
    assert(decimal(2) =~= "2"@);
    dirname_goes_up_as_many_levels_as_it_says(source, flat, value, two, 2);
    if let Some(path) = file_relative(source, value) {
        levels_add_up(path, 1, 1);
        levels_add_up(dirname(path), 1, 0);
    }
}

/// Whether each of `chain` but the first is a call of dirname() on the one before it.
pub open spec fn is_nested_dirname(source: Source, chain: Seq<Syntax>) -> bool {
    &&& chain.len() > 0
    &&& forall|i: int| 0 < i < chain.len() ==> is_call(source, #[trigger] chain[i], "dirname"@, seq![chain[i - 1]])
}

/// So many calls of dirname() around __FILE__ or __DIR__ go up so many levels from it.
pub proof fn nested_dirname_goes_up_one_level_each(source: Source, chain: Seq<Syntax>)
    requires
        is_nested_dirname(source, chain),
    ensures
        is_magic(source, chain[0], "__FILE__"@) ==> file_relative(source, chain.last()) == Some(
            dirname_up(source.file, (chain.len() - 1) as nat),
        ),
        is_magic(source, chain[0], "__DIR__"@) ==> file_relative(source, chain.last()) == Some(
            dirname_up(source.file, chain.len()),
        ),
    decreases chain.len(),
{
    magic_constants_stand_for_the_file(source, chain[0]);
    levels_add_up(source.file, 1, 0);
    if chain.len() > 1 {
        let front = chain.drop_last();
        let count = (chain.len() - 1) as nat;
        assert(is_nested_dirname(source, front)) by {
            assert forall|i: int| 0 < i < front.len() implies is_call(
                source,
                #[trigger] front[i],
                "dirname"@,
                seq![front[i - 1]],
            ) by {
                assert(is_call(source, chain[i], "dirname"@, seq![chain[i - 1]]));
            }
        }
        nested_dirname_goes_up_one_level_each(source, front);
        assert(is_call(source, chain[chain.len() - 1], "dirname"@, seq![chain[chain.len() - 2]]));
        dirname_goes_up_one_level(source, chain.last(), front.last());
        levels_add_up(source.file, (count - 1) as nat, 1);
        levels_add_up(source.file, count, 1);
        levels_add_up(dirname_up(source.file, (count - 1) as nat), 1, 0);
        levels_add_up(dirname_up(source.file, count), 1, 0);
    }
}

// ---------------------------------------------------------------------------------------------
// Numbers.

/// A decimal number reads back as itself.
pub proof fn decimal_reads_back(n: nat)
    ensures
        integer_literal(decimal(n)) == Some(n),
        numeral(decimal(n), 10) == Some(n),
        decimal(n).len() > 1 ==> decimal(n)[0] != '0',
    decreases n,
{
    decimal_is_numeral(n);
    digits_are_ungrouped(decimal(n));
    assert(decimal(n).skip(0) =~= decimal(n));
}

proof fn decimal_is_numeral(n: nat)
    ensures
        decimal(n).len() > 0,
        numeral(decimal(n), 10) == Some(n),
        n > 0 ==> decimal(n)[0] != '0',
        decimal(n).len() > 1 ==> n > 0,
        forall|i: int| 0 <= i < decimal(n).len() ==> '0' <= #[trigger] decimal(n)[i] <= '9',
    decreases n,
{
    if n >= 10 {
        decimal_is_numeral(n / 10);
        assert(decimal(n).drop_last() =~= decimal(n / 10));
        assert(10 * (n / 10) + n % 10 == n);
    }
}

proof fn digits_are_ungrouped(text: Seq<char>)
    requires
        forall|i: int| 0 <= i < text.len() ==> '0' <= #[trigger] text[i] <= '9',
    ensures
        ungrouped(text) == text,
    decreases text.len(),
{
    if text.len() > 0 {
        assert('0' <= text[text.len() - 1] <= '9');
        assert forall|i: int| 0 <= i < text.drop_last().len() implies '0' <= #[trigger] text.drop_last()[i] <= '9' by {
            assert('0' <= text[i] <= '9');
        }
        digits_are_ungrouped(text.drop_last());
        assert(text.drop_last().push(text.last()) =~= text);
    }
}

// ---------------------------------------------------------------------------------------------
// What expressions contribute to a path.

/// What each property of $CFG contributes: dirroot its own path, libdir that of 'lib' in it, root nothing,
/// admin the name of the directory; any other one is only known at run time.
pub proof fn properties_contribute(source: Source, expr: Syntax, name: Seq<char>)
    requires
        is_cfg(source, expr, name),
    ensures
        name == "dirroot"@ ==> segment(source, expr) == source.segment,
        name == "libdir"@ ==> segment(source, expr) == source.segment + "/lib"@,
        name == "root"@ ==> segment(source, expr) == ""@,
        name == "admin"@ ==> segment(source, expr) == "admin"@,
        name != "dirroot"@ && name != "libdir"@ && name != "root"@ && name != "admin"@ ==> segment(source, expr)
            == "{"@ + code_of(source, expr) + "}"@,
{
    kinds_differ();
    reveal_strlit("");
    reveal_strlit("{");
    reveal_strlit("}");
    assert(""@ =~= Seq::<char>::empty());
    assert("{"@ =~= seq!['{'] && "}"@ =~= seq!['}']);
}

/// What literals and constants contribute: a string its value, DIRECTORY_SEPARATOR a slash, any other
/// constant its name in braces.
pub proof fn literals_contribute(source: Source, expr: Syntax, text: Seq<char>)
    ensures
        is_string(source, expr, text) ==> segment(source, expr) == text,
        is_constant(source, expr, "DIRECTORY_SEPARATOR"@) ==> segment(source, expr) == "/"@,
        is_constant(source, expr, text) && text != "DIRECTORY_SEPARATOR"@ && (text.len() > 0 ==> text[0] != '\\')
            ==> segment(source, expr) == "{"@ + text + "}"@,
{
    kinds_differ();
    reveal_strlit("{");
    reveal_strlit("}");
    reveal_strlit("DIRECTORY_SEPARATOR");
    assert("DIRECTORY_SEPARATOR"@[0] == 'D');
    assert("{"@ =~= seq!['{'] && "}"@ =~= seq!['}']);
}

/// What stands for a path relative to the file contributes that path, from the repository root.
pub proof fn file_relative_paths_contribute(source: Source, expr: Syntax, value: Syntax)
    requires
        is_magic(source, expr, "__DIR__"@) || is_magic(source, expr, "__FILE__"@) || is_call(
            source,
            expr,
            "dirname"@,
            seq![value],
        ) && file_relative(source, value) is Some,
    ensures
        file_relative(source, expr) is Some,
        is_magic(source, expr, "__FILE__"@) || file_relative(source, expr)->0 != "."@ ==> segment(source, expr)
            == "/"@ + file_relative(source, expr)->0,
        !is_magic(source, expr, "__FILE__"@) && file_relative(source, expr)->0 == "."@ ==> segment(source, expr)
            == ""@,
{
    kinds_differ();
    lowercase_magic();
    reveal_strlit("/");
    reveal_strlit("");
    reveal_strlit("dirname");
    assert("/"@ =~= seq!['/']);
    assert(""@ =~= Seq::<char>::empty());
    assert("dirname"@[0] == 'd');
    magic_constants_stand_for_the_file(source, expr);
    if !is_magic(source, expr, "__DIR__"@) && !is_magic(source, expr, "__FILE__"@) {
        let list = expr.children[0].children[0].children[1];
        assert(only(list.children[0], "PositionalArgument"@));
        assert(seq![value][0] == value);
        dirname_goes_up_one_level(source, expr, value);
    }
}

/// What is only known at run time contributes its source text in braces: a variable, for one.
pub proof fn variables_contribute_their_code(source: Source, expr: Syntax)
    requires
        wraps(expr, "Variable"@),
    ensures
        segment(source, expr) == "{"@ + code_of(source, expr) + "}"@,
{
    kinds_differ();
    reveal_strlit("{");
    reveal_strlit("}");
    assert("{"@ =~= seq!['{'] && "}"@ =~= seq!['}']);
}

proof fn segments_of_both(source: Source, a: Seq<Syntax>, b: Seq<Syntax>)
    ensures
        segments(source, a + b) == segments(source, a) + segments(source, b),
    decreases b.len(),
{
    if b.len() == 0 {
        assert(a + b =~= a);
        assert(segments(source, a) + segments(source, b) =~= segments(source, a));
    } else {
        segments_of_both(source, a, b.drop_last());
        assert((a + b).drop_last() =~= a + b.drop_last());
        assert(segments(source, a + b) =~= segments(source, a) + segments(source, b));
    }
}

/// A concatenation stands for what its sides contribute, one behind the other, with '.' and '..' resolved.
pub proof fn concatenations_contribute_both_sides(source: Source, expr: Syntax, lhs: Syntax, rhs: Syntax)
    requires
        is_concat(source, expr, lhs, rhs),
    ensures
        segments(source, operands(source, expr)) == segments(source, operands(source, lhs)) + segments(
            source,
            operands(source, rhs),
        ),
        rooted_path(source, expr) == normalised(segments(source, operands(source, expr))),
{
    kinds_differ();
    segments_of_both(source, operands(source, lhs), operands(source, rhs));
}

/// What is no concatenation contributes itself.
pub proof fn others_contribute_themselves(source: Source, expr: Syntax)
    requires
        !wraps(expr, "Binary"@),
        expr.kind == "Expression"@,
        expr.children.len() == 1,
    ensures
        segments(source, operands(source, expr)) == segment(source, expr),
{
    assert(seq![expr].drop_last() =~= Seq::<Syntax>::empty());
    assert(segments(source, seq![expr].drop_last()) + segment(source, expr) =~= segment(source, expr));
}

/// The kinds of paths: $CFG->dirroot, libdir and root are paths of their own, and so is what begins with
/// one of them, with __DIR__, __FILE__ or dirname() of what stands for a path; nothing else of these
/// shapes is.
pub proof fn kinds_of_paths(source: Source, expr: Syntax, lhs: Syntax, rhs: Syntax, name: Seq<char>)
    requires
        is_concat(source, expr, lhs, rhs),
    ensures
        is_cfg(source, lhs, "dirroot"@) ==> path_kind(source, lhs) == Some(PathKind::Dirroot) && path_kind(
            source,
            expr,
        ) == Some(PathKind::Dirroot),
        is_cfg(source, lhs, "libdir"@) ==> path_kind(source, lhs) == Some(PathKind::Libdir) && path_kind(
            source,
            expr,
        ) == Some(PathKind::Libdir),
        is_cfg(source, lhs, "root"@) ==> path_kind(source, lhs) == Some(PathKind::Root) && path_kind(source, expr)
            == Some(PathKind::Root),
        is_cfg(source, lhs, name) && name != "dirroot"@ && name != "libdir"@ && name != "root"@ ==> path_kind(
            source,
            lhs,
        ) is None && path_kind(source, expr) is None,
        is_magic(source, lhs, "__DIR__"@) ==> path_kind(source, lhs) is None && path_kind(source, expr) == Some(
            PathKind::Dir,
        ),
        is_magic(source, lhs, "__FILE__"@) ==> path_kind(source, lhs) is None && path_kind(source, expr) == Some(
            PathKind::File,
        ),
        is_string(source, lhs, name) ==> path_kind(source, lhs) is None && path_kind(source, expr) is None,
        wraps(lhs, "Variable"@) ==> path_kind(source, lhs) is None && path_kind(source, expr) is None,
{
    kinds_differ();
    lowercase_magic();
}

/// A concatenation that begins with dirname() of what stands for a path is one relative to the file, and
/// one that begins with another concatenation is what that is.
pub proof fn kinds_of_nested_paths(source: Source, expr: Syntax, lhs: Syntax, rhs: Syntax, value: Syntax)
    requires
        is_concat(source, expr, lhs, rhs),
    ensures
        is_call(source, lhs, "dirname"@, seq![value]) && file_relative(source, value) is Some ==> path_kind(
            source,
            expr,
        ) == Some(PathKind::Dir),
        concat_sides(source, lhs) is Some ==> path_kind(source, expr) == path_kind(source, lhs),
{
    kinds_differ();
    reveal_strlit("dirname");
    assert("dirname"@[0] == 'd');
    if is_call(source, lhs, "dirname"@, seq![value]) {
        let list = lhs.children[0].children[0].children[1];
        assert(only(list.children[0], "PositionalArgument"@));
        assert(seq![value][0] == value);
    }
}

/// What follows $CFG->dirroot in a concatenation is handed on as the source has it, with ' . ' between the
/// operands.
pub proof fn what_follows_dirroot(source: Source, expr: Syntax, inside: Syntax, root: Syntax, a: Syntax, b: Syntax)
    requires
        is_cfg(source, root, "dirroot"@),
        is_concat(source, inside, root, a),
        concat_sides(source, a) is None,
        is_concat(source, expr, inside, b),
        concat_sides(source, b) is None,
    ensures
        mono_path(source, inside) == code_of(source, a),
        mono_path(source, expr) == code_of(source, a) + " . "@ + code_of(source, b),
        mono_path(source, root) == ""@,
{
    kinds_differ();
    reveal_strlit("");
    assert(""@ =~= Seq::<char>::empty());
    assert(operands(source, root) =~= seq![root]);
    assert(operands(source, a) =~= seq![a]);
    assert(operands(source, b) =~= seq![b]);
    assert(concat_sides(source, inside) == Some((root, a)));
    assert(concat_sides(source, expr) == Some((inside, b)));
    assert(operands(source, inside) =~= seq![root, a]);
    assert(operands(source, expr) =~= seq![root, a, b]);
    let one = Seq::new(1, |i: int| code_of(source, operands(source, inside)[i + 1]));
    assert(one =~= seq![code_of(source, a)]);
    let two = Seq::new(2, |i: int| code_of(source, operands(source, expr)[i + 1]));
    assert(two =~= seq![code_of(source, a), code_of(source, b)]);
    assert(two.drop_last() =~= seq![code_of(source, a)]);
}

// ---------------------------------------------------------------------------------------------
// Paths.

proof fn split_with_one_more(path: Seq<char>, part: Seq<char>)
    requires
        !part.contains('/'),
    ensures
        descend_all(split(path + seq!['/'] + part, '/')) == crate::path_finder::notation::descend(
            descend_all(split(path, '/')),
            part,
        ),
{
    split_around_separator(path, part, '/');
    split_without_separator(part, '/');
    let parts = split(path, '/') + seq![part];
    assert(parts.drop_last() =~= split(path, '/'));
}

/// Normalising, segment by segment: a name or an empty segment is appended, '.' changes nothing, and '..'
/// takes back the name before it, or stays where there is none.
pub proof fn normalised_segment_by_segment(path: Seq<char>, part: Seq<char>)
    requires
        !part.contains('/'),
    ensures
        part == "."@ ==> normalised(path + seq!['/'] + part) == normalised(path),
        part.len() > 0 && part != "."@ && part != ".."@ ==> normalised(path + seq!['/'] + part) == (if normalised(
            path,
        ) == "/"@ {
            ""@
        } else {
            normalised(path)
        }) + "/"@ + part,
        part.len() == 0 && normalised(path) != "/"@ ==> normalised(path + seq!['/'] + part) == normalised(path)
            + "/"@,
        part.len() == 0 && normalised(path) == "/"@ ==> normalised(path + seq!['/'] + part) == "/"@,
        part.len() > 0 && part != "."@ && part != ".."@ ==> normalised(
            path + seq!['/'] + part + seq!['/'] + ".."@,
        ) == normalised(path),
        normalised(path) == "/"@ ==> normalised(path + seq!['/'] + ".."@) == "/.."@,
        normalised(path) == "/.."@ ==> normalised(path + seq!['/'] + ".."@) == "/../.."@,
{
    reveal_strlit("/");
    reveal_strlit("");
    reveal_strlit(".");
    reveal_strlit("..");
    reveal_strlit("/..");
    reveal_strlit("/../..");
    assert("/"@ =~= seq!['/']);
    assert(""@ =~= Seq::<char>::empty());
    assert("."@.len() == 1 && ".."@.len() == 2);
    assert(!".."@.contains('/')) by {
        assert(".."@ =~= seq!['.', '.']);
    }
    let slash = seq!['/'];
    let open = descend_all(split(path, '/'));
    crate::path_finder::notation::normalised_is_resolved(path);
    if open.len() > 0 {
        crate::path_finder::notation::join_starts_with_first(open);
        assert(normalised(path).len() > 1);
    } else {
        assert(normalised(path) =~= "/"@);
    }
    split_with_one_more(path, part);
    split_with_one_more(path, ".."@);
    let longer = open.push(part);
    assert(longer.drop_last() =~= open);
    if open.len() == 0 {
        assert(join(longer, slash) =~= part);
    } else {
        assert(join(longer, slash) == join(open, slash) + slash + part);
    }
    if part.len() > 0 && part != "."@ && part != ".."@ {
        assert(normalised(path + slash + part) == slash + join(longer, slash));
        if open.len() == 0 {
            assert(""@ + "/"@ + part =~= slash + part);
        } else {
            assert(slash + join(longer, slash) =~= normalised(path) + "/"@ + part);
        }
        split_with_one_more(path + slash + part, ".."@);
    }
    if part.len() == 0 && open.len() > 0 {
        assert(slash + join(longer, slash) =~= normalised(path) + "/"@);
    }
    let up = open.push(".."@);
    assert(up.drop_last() =~= open);
    if open.len() == 0 {
        assert(join(up, slash) =~= ".."@);
        assert(slash + ".."@ =~= "/.."@);
    } else if normalised(path) == "/.."@ {
        assert(split(normalised(path).drop_first(), '/') == open);
        assert(normalised(path).drop_first() =~= ".."@);
        split_without_separator(".."@, '/');
        assert(open =~= seq![".."@]);
        assert(join(up, slash) == ".."@ + slash + ".."@);
        assert(slash + join(up, slash) =~= "/../.."@);
    }
}

/// A single name, or nothing, is normalised to itself below the root.
pub proof fn normalised_names(name: Seq<char>)
    requires
        !name.contains('/'),
        name != "."@,
        name != ".."@,
    ensures
        normalised(name) == "/"@ + name,
        normalised(""@) == "/"@,
{
    reveal_strlit("/");
    reveal_strlit("");
    reveal_strlit(".");
    reveal_strlit("..");
    assert("/"@ =~= seq!['/']);
    let none = Seq::<char>::empty();
    assert(""@ =~= none);
    assert("."@.len() == 1 && ".."@.len() == 2);
    split_without_separator(name, '/');
    split_without_separator(none, '/');
    assert(seq![name].drop_last() =~= Seq::<Seq<char>>::empty());
    assert(seq![none].drop_last() =~= Seq::<Seq<char>>::empty());
    assert(descend_all(Seq::<Seq<char>>::empty()) =~= Seq::<Seq<char>>::empty());
    assert(descend_all(seq![none]) =~= Seq::<Seq<char>>::empty());
    if name.len() > 0 {
        assert(descend_all(seq![name]) =~= seq![name]);
        assert(join(seq![name], seq!['/']) == name);
    } else {
        assert(name =~= none);
    }
    assert(normalised(none) =~= "/"@);
    assert(normalised(name) =~= "/"@ + name);
}

/// A path in glyph notation: what follows dirroot behind '@', and a path outside dirroot behind '#'.
pub proof fn glyphs_replace_dirroot(segment: Seq<char>, rest: Seq<char>, path: Seq<char>)
    ensures
        glyph_of(segment, segment + rest) == "@"@ + rest,
        !segment.is_prefix_of(path) ==> glyph_of(segment, path) == "#"@ + path,
{
    reveal_strlit("@");
    reveal_strlit("#");
    assert("@"@ =~= seq!['@']);
    assert("#"@ =~= seq!['#']);
    assert((segment + rest).subrange(0, segment.len() as int) =~= segment);
    assert((segment + rest).skip(segment.len() as int) =~= rest);
}

// ---------------------------------------------------------------------------------------------
// More of dirname().

/// A fully qualified name of the function makes no difference, and neither does a level of one.
pub proof fn qualified_dirname_goes_up_one_level(source: Source, expr: Syntax, value: Syntax)
    requires
        is_call(source, expr, "\\dirname"@, seq![value]),
    ensures
        file_relative(source, expr) == match file_relative(source, value) {
            Some(path) => Some(dirname(path)),
            None => None,
        },
{
    kinds_differ();
    reveal_strlit("dirname");
    reveal_strlit("\\dirname");
    let list = expr.children[0].children[0].children[1];
    assert(only(list.children[0], "PositionalArgument"@));
    assert(seq![value][0] == value);
    assert("\\dirname"@[0] == '\\');
    assert("\\dirname"@.skip(1) =~= "dirname"@);
    if let Some(path) = file_relative(source, value) {
        levels_add_up(path, 1, 0);
    }
}

/// A call that goes up no level at all stands for no path, and neither does one of any other function.
pub proof fn other_calls_stand_for_nothing(
    source: Source,
    expr: Syntax,
    name: Seq<char>,
    value: Syntax,
    levels: Syntax,
)
    requires
        name.len() > 0,
        name[0] != '\\',
    ensures
        is_call(source, expr, name, seq![value]) && name != "dirname"@ ==> file_relative(source, expr) is None,
        is_call(source, expr, "dirname"@, seq![value, levels]) && is_integer(source, levels, "0"@) ==> file_relative(
            source,
            expr,
        ) is None,
{
    kinds_differ();
    reveal_strlit("dirname");
    assert("dirname"@[0] == 'd');
    if is_call(source, expr, "dirname"@, seq![value, levels]) && is_integer(source, levels, "0"@) {
        let list = expr.children[0].children[0].children[1];
        assert(only(list.children[0], "PositionalArgument"@));
        assert(only(list.children[1], "PositionalArgument"@));
        assert(seq![value, levels][0] == value && seq![value, levels][1] == levels);
        reveal_strlit("0");
        assert(decimal(0) =~= "0"@);
        decimal_reads_back(0);
    }
}

/// The name of an argument makes no difference.
pub proof fn named_arguments_go_up_too(source: Source, expr: Syntax, value: Syntax)
    requires
        wraps(expr, "Call"@),
        only(expr.children[0], "FunctionCall"@),
        ({
            let call = expr.children[0].children[0];
            let list = call.children[1];
            &&& call.children.len() == 2
            &&& wraps(call.children[0], "Identifier"@)
            &&& code_of(source, call.children[0].children[0]) == "dirname"@
            &&& list.children.len() == 1
            &&& only(list.children[0], "NamedArgument"@)
            &&& list.children[0].children[0].children.len() == 2
            &&& list.children[0].children[0].children[1] == value
        }),
    ensures
        file_relative(source, expr) == match file_relative(source, value) {
            Some(path) => Some(dirname(path)),
            None => None,
        },
{
    kinds_differ();
    reveal_strlit("dirname");
    reveal_strlit("NamedArgument");
    reveal_strlit("PositionalArgument");
    assert("NamedArgument"@.len() == 13 && "PositionalArgument"@.len() == 18);
    assert("dirname"@[0] == 'd');
    if let Some(path) = file_relative(source, value) {
        levels_add_up(path, 1, 0);
    }
}

/// Whether two texts differ at most in which of their letters are capitals.
pub open spec fn same_letters(text: Seq<char>, small: Seq<char>) -> bool {
    text.len() == small.len() && forall|i: int|
        0 <= i < text.len() ==> (#[trigger] text[i]) == small[i] && !('A' <= text[i] <= 'Z') || 'A' <= text[i] <= 'Z'
            && small[i] == ((text[i] as u32) + 32) as char
}

/// Magic constants are written in any case.
pub proof fn magic_constants_in_any_case(source: Source, expr: Syntax, code: Seq<char>)
    requires
        is_magic(source, expr, code),
    ensures
        same_letters(code, "__dir__"@) ==> file_relative(source, expr) == Some(dirname(source.file)),
        same_letters(code, "__file__"@) ==> file_relative(source, expr) == Some(source.file),
{
    kinds_differ();
    reveal_strlit("__dir__");
    reveal_strlit("__file__");
    assert("__dir__"@.len() == 7 && "__file__"@.len() == 8);
    if same_letters(code, "__dir__"@) {
        letters_in_lower_case(code, "__dir__"@);
    }
    if same_letters(code, "__file__"@) {
        letters_in_lower_case(code, "__file__"@);
    }
}

proof fn letters_in_lower_case(text: Seq<char>, small: Seq<char>)
    requires
        same_letters(text, small),
    ensures
        lowercase(text) == small,
{
    assert forall|i: int| 0 <= i < text.len() implies #[trigger] lowercase(text)[i] == small[i] by {
        assert(text[i] == small[i] || small[i] == ((text[i] as u32) + 32) as char);
    }
    assert(lowercase(text) =~= small);
}

} // verus!
