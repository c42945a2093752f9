//! Which expressions refer to a path within the codebase, and what path they refer to.
//!
//! Two glyphs are used for the two roots that exist since Moodle 5.1:
//!   - '#' is the repository root ($CFG->root), the parent of $CFG->dirroot.
//!   - '@' is $CFG->dirroot, which from Moodle 5.1 is the 'public/' subdirectory of the repo.
//!
//! Pre-5.1 the two coincide (dirroot prefix is '') and only '@' appears.
//!
//! Detection: recognises paths starting with $CFG->dirroot, $CFG->libdir, $CFG->root, __DIR__,
//! __FILE__, dirname(__FILE__), or an interpolated string whose first interpolated value is
//! $CFG->dirroot/libdir/root. For concat chains, the leftmost leaf is checked so 'a . b . c' is
//! identified by its first element.
//!
//! Extraction: maps each node in the expression to a path segment, relative to the repository
//! root:
//!   - $CFG->dirroot => the dirroot prefix (e.g. '/public'), $CFG->libdir => '<dirroot>/lib',
//!     $CFG->root => '', $CFG->admin => 'admin' (the bare directory name, always used as
//!     "$CFG->dirroot/$CFG->admin")
//!   - __DIR__ => '/dir/of/current/file', dirname(__FILE__) => directory N levels up
//!   - String literals => their value
//!   - Interpolated strings => recursively built from their parts
//!   - DIRECTORY_SEPARATOR => '/', other PHP constants => {CONSTANT_NAME}
//!   - Any other expression => its exact source text, wrapped in {}
//!
//! Normalisation: resolves '.' and '..' segments, rejoins with a leading '/', then converts the
//! dirroot portion to '@'.

use vstd::prelude::*;
use vstd::utf8::decode_utf8;
use vstd::utf8::valid_utf8;

use crate::path_finder::literal::unescape;
use crate::path_finder::literal::unescaped;
use crate::path_finder::notation::PathNotation;
use crate::path_finder::notation::glyph_of;
use crate::path_finder::notation::normalised;
use crate::path_finder::result::PathKind;
use crate::path_finder::syntax::Syntax;
use crate::path_finder::syntax::Tree;
use crate::path_finder::syntax::literal_value;
use crate::path_finder::syntax::lossy_text;
use crate::path_finder::syntax::parse_literal;
use crate::path_finder::syntax::utf8_lossy;
use crate::text::chars_of;
use crate::text::concat;
use crate::text::concat3;
use crate::text::copy;
use crate::text::join;
use crate::text::join_with;
use crate::text::same;
use crate::text::string_of;
use crate::text::strip_prefix;
use crate::text::texts;
use crate::text::trim_start;
use crate::text::trim_start_of;

verus! {

/// The file that references are looked for in.
pub struct Source {
    /// Its contents.
    pub bytes: Seq<u8>,
    /// Its path relative to the repository root.
    pub file: Seq<char>,
    /// The dirroot path relative to the repository root, with a leading slash.
    pub segment: Seq<char>,
}

/// The file that references are looked for in.
pub struct Context<'a> {
    pub bytes: &'a [u8],
    pub file: &'a str,
    pub notation: &'a PathNotation,
}

impl<'a> Context<'a> {
    /// The file as plain values.
    pub open spec fn source(&self) -> Source {
        Source { bytes: self.bytes@, file: self.file@, segment: self.notation.segment() }
    }
}

// ---------------------------------------------------------------------------------------------
// Source text.

/// The bytes from `start` up to `end`; none where these do not lie within the source.
pub open spec fn span(bytes: Seq<u8>, start: usize, end: usize) -> Seq<u8> {
    if start <= end <= bytes.len() {
        bytes.subrange(start as int, end as int)
    } else {
        Seq::<u8>::empty()
    }
}

/// The source text of a node.
pub open spec fn code_of(source: Source, node: Syntax) -> Seq<char> {
    utf8_lossy(span(source.bytes, node.start, node.end))
}

fn span_bytes<'s>(bytes: &'s [u8], start: usize, end: usize) -> (r: &'s [u8])
    ensures
        r@ == span(bytes@, start, end),
{
    if start <= end && end <= bytes.len() {
        vstd::slice::slice_subrange(bytes, start, end)
    } else {
        let none = vstd::slice::slice_subrange(bytes, 0, 0);
        assert(none@ =~= Seq::<u8>::empty());
        none
    }
}

/// The source text of a node.
pub fn source_text(context: &Context, node: &Tree) -> (r: String)
    ensures
        r@ == code_of(context.source(), node.syntax()),
        ({
            let bytes = span(context.source().bytes, node.syntax().start, node.syntax().end);
            valid_utf8(bytes) ==> r@ == decode_utf8(bytes)
        }),
{
    lossy_text(span_bytes(context.bytes, node.start, node.end))
}

// ---------------------------------------------------------------------------------------------
// The shapes of expressions.

/// What kind of expression an expression is.
pub open spec fn inner(expr: Syntax) -> Syntax {
    if expr.kind == "Expression"@ && expr.children.len() == 1 {
        expr.children[0]
    } else {
        expr
    }
}

/// Whether the only child of `node` is of kind `kind`.
pub open spec fn holds(node: Syntax, kind: Seq<char>) -> bool {
    node.children.len() == 1 && node.children[0].kind == kind
}

/// The two sides of a string concatenation.
pub open spec fn concat_sides(source: Source, expr: Syntax) -> Option<(Syntax, Syntax)> {
    let binary = inner(expr);
    if binary.kind == "Binary"@ && binary.children.len() == 3 && code_of(source, binary.children[1]) == "."@ {
        Some((binary.children[0], binary.children[2]))
    } else {
        None
    }
}

/// The first operand of a concatenation, or the expression itself.
pub open spec fn leftmost(source: Source, expr: Syntax) -> Syntax
    decreases expr,
{
    match concat_sides(source, expr) {
        Some((lhs, _)) => leftmost(source, lhs),
        None => expr,
    }
}

/// All operands of a concatenation, or the expression itself.
pub open spec fn operands(source: Source, expr: Syntax) -> Seq<Syntax>
    decreases expr,
{
    match concat_sides(source, expr) {
        Some((lhs, rhs)) => operands(source, lhs) + operands(source, rhs),
        None => seq![expr],
    }
}

/// A name without the backslash that makes it fully qualified.
pub open spec fn unqualified(name: Seq<char>) -> Seq<char> {
    if name.len() > 0 && name[0] == '\\' {
        name.skip(1)
    } else {
        name
    }
}

/// The name that an expression is, if it is a plain name.
pub open spec fn plain_name(source: Source, expr: Syntax) -> Option<Seq<char>> {
    if inner(expr).kind == "Identifier"@ {
        Some(unqualified(code_of(source, inner(expr))))
    } else {
        None
    }
}

/// The constant that an expression reads, if it is one.
pub open spec fn constant_name(source: Source, expr: Syntax) -> Option<Seq<char>> {
    if inner(expr).kind == "ConstantAccess"@ {
        Some(unqualified(code_of(source, inner(expr))))
    } else {
        None
    }
}

/// The variable that an expression is, with its dollar sign, if it is a plain one.
pub open spec fn variable_name(source: Source, expr: Syntax) -> Option<Seq<char>> {
    if inner(expr).kind == "Variable"@ && holds(inner(expr), "DirectVariable"@) {
        Some(code_of(source, inner(expr)))
    } else {
        None
    }
}

/// The member that a selector names, if it is a plain name.
pub open spec fn member_name(source: Source, selector: Syntax) -> Option<Seq<char>> {
    if holds(selector, "LocalIdentifier"@) {
        Some(code_of(source, selector))
    } else {
        None
    }
}

/// The property of $CFG that an expression reads, if it is one.
pub open spec fn cfg_property(source: Source, expr: Syntax) -> Option<Seq<char>> {
    let access = inner(expr);
    if access.kind == "Access"@ && holds(access, "PropertyAccess"@) && access.children[0].children.len() == 2
        && variable_name(source, access.children[0].children[0]) == Some("$CFG"@) {
        member_name(source, access.children[0].children[1])
    } else {
        None
    }
}

/// The parts of a double-quoted string with interpolation, if the expression is one.
pub open spec fn interpolated(expr: Syntax) -> Option<Syntax> {
    if inner(expr).kind == "CompositeString"@ && holds(inner(expr), "InterpolatedString"@) {
        Some(inner(expr).children[0])
    } else {
        None
    }
}

/// The expression interpolated by a part of a string, unless the part is literal text.
pub open spec fn part_expr(part: Syntax) -> Option<Syntax> {
    if holds(part, "Expression"@) {
        Some(part.children[0])
    } else if holds(part, "BracedExpressionStringPart"@) && holds(part.children[0], "Expression"@) {
        Some(part.children[0].children[0])
    } else {
        None
    }
}

/// Whether a part of a string is literal text of no length: such parts stand between interpolated
/// expressions.
pub open spec fn is_empty_part(source: Source, part: Syntax) -> bool {
    part_expr(part) is None && span(source.bytes, part.start, part.end).len() == 0
}

/// The first `n` parts of a string, without those that are empty.
pub open spec fn meaningful_parts(source: Source, parts: Seq<Syntax>) -> Seq<Syntax>
    decreases parts.len(),
{
    if parts.len() == 0 {
        parts
    } else if is_empty_part(source, parts.last()) {
        meaningful_parts(source, parts.drop_last())
    } else {
        meaningful_parts(source, parts.drop_last()).push(parts.last())
    }
}

/// What stands inside the parentheses around an expression, however many.
pub open spec fn unparenthesized(expr: Syntax) -> Syntax
    decreases expr,
{
    if inner(expr).kind == "Parenthesized"@ && holds(inner(expr), "Expression"@) {
        unparenthesized(inner(expr).children[0])
    } else {
        expr
    }
}

/// What stands between the quotes of a double-quoted string literal, which may have a prefix that says it
/// is binary.
pub open spec fn double_quoted(raw: Seq<char>) -> Option<Seq<char>> {
    let from = if raw.len() > 0 && (raw[0] == 'b' || raw[0] == 'B') {
        1int
    } else {
        0
    };
    if raw.len() >= from + 2 && raw[from] == '"' && raw.last() == '"' {
        Some(raw.subrange(from + 1, raw.len() - 1))
    } else {
        None
    }
}

/// The value of a string literal, if the expression is one. Escapes can make bytes of it that are no
/// text, which are decoded lossily.
pub open spec fn string_value(source: Source, expr: Syntax) -> Option<Seq<char>> {
    if inner(expr).kind == "Literal"@ && holds(inner(expr), "LiteralString"@) {
        let raw = code_of(source, inner(expr));
        Some(
            match literal_value(raw, None, true) {
                Some(value) => value,
                None => match double_quoted(raw) {
                    Some(text) => utf8_lossy(unescaped(text)),
                    None => raw,
                },
            },
        )
    } else {
        None
    }
}

/// The text of a literal part of a double-quoted string. Escapes can make bytes of it that are no text,
/// which are decoded lossily.
pub open spec fn part_value(source: Source, part: Syntax) -> Seq<char> {
    let raw = code_of(source, part);
    match literal_value(raw, Some('"'), false) {
        Some(value) => value,
        None => utf8_lossy(unescaped(raw)),
    }
}

/// Child `i` of a node.
pub fn child<'t>(node: &'t Tree, i: usize) -> (r: &'t Tree)
    requires
        i < node.children.len(),
    ensures
        r.syntax() == node.syntax().children[i as int],
        decreases_to!(node => r),
{
    &node.children[i]
}

pub fn arity(node: &Tree) -> (n: usize)
    ensures
        n == node.children.len(),
        n == node.syntax().children.len(),
{
    node.children.len()
}

pub fn is_kind(node: &Tree, kind: &str) -> (r: bool)
    ensures
        r == (node.syntax().kind == kind@),
{
    same(&node.kind, kind)
}

pub fn inner_of<'t>(expr: &'t Tree) -> (r: &'t Tree)
    ensures
        r.syntax() == inner(expr.syntax()),
        r == expr || decreases_to!(expr => r),
{
    if is_kind(expr, "Expression") && arity(expr) == 1 {
        child(expr, 0)
    } else {
        expr
    }
}

pub fn holds_only(node: &Tree, kind: &str) -> (r: bool)
    ensures
        r == holds(node.syntax(), kind@),
        r ==> node.children.len() == 1,
{
    arity(node) == 1 && is_kind(child(node, 0), kind)
}

fn concat_of<'t>(context: &Context, expr: &'t Tree) -> (r: Option<(&'t Tree, &'t Tree)>)
    ensures
        match r {
            Some((lhs, rhs)) => concat_sides(context.source(), expr.syntax()) == Some((lhs.syntax(), rhs.syntax())),
            None => concat_sides(context.source(), expr.syntax()) is None,
        },
        r matches Some((lhs, rhs)) ==> decreases_to!(expr => lhs) && decreases_to!(expr => rhs),
{
    let binary = inner_of(expr);
    if is_kind(binary, "Binary") && arity(binary) == 3 && same(&source_text(context, child(binary, 1)), ".") {
        Some((child(binary, 0), child(binary, 2)))
    } else {
        None
    }
}

fn leftmost_of<'t>(context: &Context, expr: &'t Tree) -> (r: &'t Tree)
    ensures
        r.syntax() == leftmost(context.source(), expr.syntax()),
    decreases expr,
{
    match concat_of(context, expr) {
        Some((lhs, _)) => leftmost_of(context, lhs),
        None => expr,
    }
}

/// The syntax of some trees, in order.
pub open spec fn syntax_of(trees: Seq<&Tree>) -> Seq<Syntax> {
    Seq::new(trees.len(), |i: int| trees[i].syntax())
}

fn operands_of<'t>(context: &Context, expr: &'t Tree) -> (r: Vec<&'t Tree>)
    ensures
        syntax_of(r@) == operands(context.source(), expr.syntax()),
        r.len() >= 1,
    decreases expr,
{
    match concat_of(context, expr) {
        Some((lhs, rhs)) => {
            let mut parts = operands_of(context, lhs);
            let mut more = operands_of(context, rhs);
            let ghost before = syntax_of(parts@);
            let ghost after = syntax_of(more@);
            parts.append(&mut more);
            assert(syntax_of(parts@) =~= before + after);
            parts
        },
        None => {
            let mut parts: Vec<&'t Tree> = Vec::new();
            parts.push(expr);
            assert(syntax_of(parts@) =~= seq![expr.syntax()]);
            parts
        },
    }
}

fn unqualified_of(name: String) -> (r: String)
    ensures
        r@ == unqualified(name@),
{
    proof {
        reveal_strlit("\\");
        assert("\\"@ =~= seq!['\\']);
        if name@.len() > 0 && name@[0] == '\\' {
            assert(name@.subrange(0, 1) =~= "\\"@);
        } else if "\\"@.is_prefix_of(name@) {
            assert(name@.subrange(0, 1)[0] == '\\');
        }
    }
    match strip_prefix(&name, "\\") {
        Some(rest) => rest,
        None => name,
    }
}

/// Whether an optional text is what the specification says.
pub open spec fn same_text(a: Option<String>, b: Option<Seq<char>>) -> bool {
    match a {
        Some(text) => b == Some(text@),
        None => b is None,
    }
}

pub fn plain_name_of(context: &Context, expr: &Tree) -> (r: Option<String>)
    ensures
        same_text(r, plain_name(context.source(), expr.syntax())),
{
    let name = inner_of(expr);
    if is_kind(name, "Identifier") {
        Some(unqualified_of(source_text(context, name)))
    } else {
        None
    }
}

fn constant_name_of(context: &Context, expr: &Tree) -> (r: Option<String>)
    ensures
        same_text(r, constant_name(context.source(), expr.syntax())),
{
    let name = inner_of(expr);
    if is_kind(name, "ConstantAccess") {
        Some(unqualified_of(source_text(context, name)))
    } else {
        None
    }
}

/// The variable that an expression is, if it is a plain one.
pub fn variable_name_of(context: &Context, expr: &Tree) -> (r: Option<String>)
    ensures
        same_text(r, variable_name(context.source(), expr.syntax())),
{
    let variable = inner_of(expr);
    if is_kind(variable, "Variable") && holds_only(variable, "DirectVariable") {
        Some(source_text(context, variable))
    } else {
        None
    }
}

pub fn member_name_of(context: &Context, selector: &Tree) -> (r: Option<String>)
    ensures
        same_text(r, member_name(context.source(), selector.syntax())),
{
    if holds_only(selector, "LocalIdentifier") {
        Some(source_text(context, selector))
    } else {
        None
    }
}

fn is_text(text: &Option<String>, expected: &str) -> (r: bool)
    ensures
        r == (*text matches Some(t) && t@ == expected@),
{
    match text {
        Some(t) => same(t, expected),
        None => false,
    }
}

fn cfg_property_of(context: &Context, expr: &Tree) -> (r: Option<String>)
    ensures
        same_text(r, cfg_property(context.source(), expr.syntax())),
{
    let access = inner_of(expr);
    if is_kind(access, "Access") && holds_only(access, "PropertyAccess") {
        let property = child(access, 0);
        if arity(property) == 2 && is_text(&variable_name_of(context, child(property, 0)), "$CFG") {
            return member_name_of(context, child(property, 1));
        }
    }
    None
}

fn interpolated_of<'t>(expr: &'t Tree) -> (r: Option<&'t Tree>)
    ensures
        match r {
            Some(string) => interpolated(expr.syntax()) == Some(string.syntax()),
            None => interpolated(expr.syntax()) is None,
        },
        r matches Some(string) ==> decreases_to!(expr => string),
{
    let string = inner_of(expr);
    if is_kind(string, "CompositeString") && holds_only(string, "InterpolatedString") {
        Some(child(string, 0))
    } else {
        None
    }
}

fn part_expr_of<'t>(part: &'t Tree) -> (r: Option<&'t Tree>)
    ensures
        match r {
            Some(expr) => part_expr(part.syntax()) == Some(expr.syntax()),
            None => part_expr(part.syntax()) is None,
        },
        r matches Some(expr) ==> decreases_to!(part => expr),
{
    if holds_only(part, "Expression") {
        Some(child(part, 0))
    } else if holds_only(part, "BracedExpressionStringPart") && holds_only(child(part, 0), "Expression") {
        Some(child(child(part, 0), 0))
    } else {
        None
    }
}

fn meaningful_parts_of<'t>(context: &Context, string: &'t Tree) -> (r: Vec<&'t Tree>)
    ensures
        syntax_of(r@) == meaningful_parts(context.source(), string.syntax().children),
{
    let ghost all = string.syntax().children;
    let mut parts: Vec<&'t Tree> = Vec::new();
    let mut i: usize = 0;
    assert(syntax_of(parts@) =~= meaningful_parts(context.source(), all.take(0)));
    let n = arity(string);
    while i < n
        invariant
            i <= n,
            n == all.len(),
            n == string.children.len(),
            all == string.syntax().children,
            syntax_of(parts@) == meaningful_parts(context.source(), all.take(i as int)),
        decreases n - i,
    {
        let part = child(string, i);
        assert(all.take(i + 1).drop_last() =~= all.take(i as int));
        let ghost before = syntax_of(parts@);
        if part_expr_of(part).is_some() || span_bytes(context.bytes, part.start, part.end).len() > 0 {
            parts.push(part);
            assert(syntax_of(parts@) =~= before.push(part.syntax()));
        }
        i += 1;
    }
    assert(all.take(n as int) =~= all);
    parts
}

/// What stands inside the parentheses around an expression, however many.
pub fn unparenthesized_of<'t>(expr: &'t Tree) -> (r: &'t Tree)
    ensures
        r.syntax() == unparenthesized(expr.syntax()),
        r == expr || decreases_to!(expr => r),
    decreases expr,
{
    let parenthesized = inner_of(expr);
    if is_kind(parenthesized, "Parenthesized") && holds_only(parenthesized, "Expression") {
        unparenthesized_of(child(parenthesized, 0))
    } else {
        expr
    }
}

/// The value of a string literal, if the expression is one.
fn double_quoted_of(raw: &str) -> (r: Option<Vec<char>>)
    ensures
        match r {
            Some(text) => double_quoted(raw@) == Some(text@),
            None => double_quoted(raw@) is None,
        },
{
    let chars = chars_of(raw);
    let from: usize = if chars.len() > 0 && (chars[0] == 'b' || chars[0] == 'B') {
        1
    } else {
        0
    };
    if chars.len() >= from + 2 && chars[from] == '"' && chars[chars.len() - 1] == '"' {
        Some(chars_of(&string_of(&chars, from + 1, chars.len() - 1)))
    } else {
        None
    }
}

pub fn string_value_of(context: &Context, expr: &Tree) -> (r: Option<String>)
    ensures
        same_text(r, string_value(context.source(), expr.syntax())),
{
    let literal = inner_of(expr);
    if is_kind(literal, "Literal") && holds_only(literal, "LiteralString") {
        let raw = source_text(context, literal);
        if let Some(value) = parse_literal(&raw, None, true) {
            return Some(value);
        }
        match double_quoted_of(&raw) {
            Some(text) => Some(lossy_text(&unescape(&text))),
            None => Some(raw),
        }
    } else {
        None
    }
}

fn part_value_of(context: &Context, part: &Tree) -> (r: String)
    ensures
        r@ == part_value(context.source(), part.syntax()),
{
    let raw = source_text(context, part);
    match parse_literal(&raw, Some('"'), false) {
        Some(value) => value,
        None => lossy_text(&unescape(&chars_of(&raw))),
    }
}

// ---------------------------------------------------------------------------------------------
// The anchors of paths.

/// A text with its ASCII letters in lower case.
pub open spec fn lowercase(text: Seq<char>) -> Seq<char> {
    Seq::new(
        text.len(),
        |i: int|
            if 'A' <= text[i] <= 'Z' {
                ((text[i] as u32) + 32) as char
            } else {
                text[i]
            },
    )
}

/// The kind of a path that starts with a magic constant; magic constants are written in any case.
pub open spec fn magic_kind(source: Source, expr: Syntax) -> Option<PathKind> {
    if inner(expr).kind != "MagicConstant"@ {
        None
    } else if lowercase(code_of(source, inner(expr))) == "__dir__"@ {
        Some(PathKind::Dir)
    } else if lowercase(code_of(source, inner(expr))) == "__file__"@ {
        Some(PathKind::File)
    } else {
        None
    }
}

/// The kind of a path that starts with a property of $CFG.
pub open spec fn cfg_kind(source: Source, expr: Syntax) -> Option<PathKind> {
    match cfg_property(source, expr) {
        Some(property) => if property == "dirroot"@ {
            Some(PathKind::Dirroot)
        } else if property == "libdir"@ {
            Some(PathKind::Libdir)
        } else if property == "root"@ {
            Some(PathKind::Root)
        } else {
            None
        },
        None => None,
    }
}

/// The kind of a path that starts with a double-quoted string: that of the value it starts with.
pub open spec fn interpolated_kind(source: Source, expr: Syntax) -> Option<PathKind> {
    match interpolated(expr) {
        Some(string) => {
            let parts = meaningful_parts(source, string.children);
            if parts.len() > 0 {
                match part_expr(parts[0]) {
                    Some(first) => cfg_kind(source, first),
                    None => None,
                }
            } else {
                None
            }
        },
        None => None,
    }
}

/// The position of the last slash in a path.
pub open spec fn last_slash(path: Seq<char>) -> Option<int>
    decreases path.len(),
{
    if path.len() == 0 {
        None
    } else if path.last() == '/' {
        Some(path.len() - 1)
    } else {
        last_slash(path.drop_last())
    }
}

/// PHP's `dirname()` of a path with forward slashes.
pub open spec fn dirname(path: Seq<char>) -> Seq<char> {
    match last_slash(path) {
        None => "."@,
        Some(at) => if at == 0 {
            "/"@
        } else {
            path.take(at)
        },
    }
}

/// PHP's `dirname()`, applied `levels` times.
pub open spec fn dirname_up(path: Seq<char>, levels: nat) -> Seq<char>
    decreases levels,
{
    if levels == 0 {
        path
    } else {
        dirname_up(dirname(path), (levels - 1) as nat)
    }
}

/// The value of a digit, if the character is one of a number with up to sixteen digits.
pub open spec fn digit_value(c: char) -> Option<nat> {
    if '0' <= c <= '9' {
        Some(((c as u32) - ('0' as u32)) as nat)
    } else if 'a' <= c <= 'f' {
        Some(((c as u32) - ('a' as u32) + 10) as nat)
    } else if 'A' <= c <= 'F' {
        Some(((c as u32) - ('A' as u32) + 10) as nat)
    } else {
        None
    }
}

/// Whether the character is a digit to the base `radix`.
pub open spec fn is_digit_to(c: char, radix: nat) -> bool {
    digit_value(c) matches Some(d) && d < radix
}

/// The value of a numeral to the base `radix`, if the text is one.
pub open spec fn numeral(text: Seq<char>, radix: nat) -> Option<nat>
    decreases text.len(),
{
    if text.len() == 0 || !is_digit_to(text.last(), radix) {
        None
    } else if text.len() == 1 {
        digit_value(text.last())
    } else {
        match numeral(text.drop_last(), radix) {
            Some(n) => Some(radix * n + digit_value(text.last())->0),
            None => None,
        }
    }
}

/// A text without the underscores that group digits.
pub open spec fn ungrouped(text: Seq<char>) -> Seq<char>
    decreases text.len(),
{
    if text.len() == 0 {
        text
    } else if text.last() == '_' {
        ungrouped(text.drop_last())
    } else {
        ungrouped(text.drop_last()).push(text.last())
    }
}

/// Where the digits of a PHP integer begin, and their base: '0x', '0o' and '0b' stand before
/// hexadecimal, octal and binary digits, and a leading zero before octal ones too.
pub open spec fn notation_of(text: Seq<char>) -> (int, nat) {
    if text.len() < 2 || text[0] != '0' {
        (0, 10)
    } else if text[1] == 'x' || text[1] == 'X' {
        (2, 16)
    } else if text[1] == 'o' || text[1] == 'O' {
        (2, 8)
    } else if text[1] == 'b' || text[1] == 'B' {
        (2, 2)
    } else {
        (1, 8)
    }
}

/// The value of a PHP integer literal, if the text is one.
pub open spec fn integer_literal(text: Seq<char>) -> Option<nat> {
    let digits = ungrouped(text);
    let (from, radix) = notation_of(digits);
    numeral(digits.skip(from), radix)
}

/// The value of an integer literal, if the expression is one.
pub open spec fn integer_value(source: Source, expr: Syntax) -> Option<nat> {
    if inner(expr).kind == "Literal"@ && holds(inner(expr), "LiteralInteger"@) {
        integer_literal(code_of(source, inner(expr)))
    } else {
        None
    }
}

/// The value of a call argument.
pub open spec fn argument_value(argument: Syntax) -> Option<Syntax> {
    if holds(argument, "PositionalArgument"@) && argument.children[0].children.len() == 1 {
        Some(argument.children[0].children[0])
    } else if holds(argument, "NamedArgument"@) && argument.children[0].children.len() == 2 {
        Some(argument.children[0].children[1])
    } else {
        None
    }
}

/// What a call of dirname() is applied to, and how many levels it goes up: PHP reads a number above its
/// largest integer as a floating point one.
pub open spec fn dirname_call(source: Source, expr: Syntax) -> Option<(Syntax, nat)> {
    let call = inner(expr);
    if call.kind == "Call"@ && holds(call, "FunctionCall"@) && call.children[0].children.len() == 2 && plain_name(
        source,
        call.children[0].children[0],
    ) == Some("dirname"@) {
        let arguments = call.children[0].children[1].children;
        if arguments.len() == 1 {
            match argument_value(arguments[0]) {
                Some(value) => Some((value, 1)),
                None => None,
            }
        } else if arguments.len() == 2 {
            match (argument_value(arguments[0]), argument_value(arguments[1])) {
                (Some(value), Some(levels)) => match integer_value(source, levels) {
                    Some(n) => if 1 <= n <= i64::MAX {
                        Some((value, n))
                    } else {
                        None
                    },
                    None => None,
                },
                _ => None,
            }
        } else {
            None
        }
    } else {
        None
    }
}

/// The path that __FILE__, __DIR__ or dirname() of one of them stands for, dirname() calls being
/// nested to any depth.
pub open spec fn file_relative(source: Source, expr: Syntax) -> Option<Seq<char>>
    decreases expr,
{
    match magic_kind(source, expr) {
        Some(PathKind::Dir) => Some(dirname(source.file)),
        Some(_) => Some(source.file),
        None => match dirname_call(source, expr) {
            Some((value, levels)) => match file_relative(source, value) {
                Some(path) => Some(dirname_up(path, levels)),
                None => None,
            },
            None => None,
        },
    }
}

/// Whether an expression is dirname() of __FILE__ or __DIR__, nested to any depth.
pub open spec fn is_dirname_of_file_or_dir(source: Source, expr: Syntax) -> bool {
    dirname_call(source, expr) matches Some((value, _)) && file_relative(source, value) is Some
}

/// The kind of a path whose first operand is `leaf`.
pub open spec fn leaf_kind(source: Source, leaf: Syntax) -> Option<PathKind> {
    match cfg_kind(source, leaf) {
        Some(kind) => Some(kind),
        None => match magic_kind(source, leaf) {
            Some(kind) => Some(kind),
            None => if is_dirname_of_file_or_dir(source, leaf) {
                Some(PathKind::Dir)
            } else {
                interpolated_kind(source, leaf)
            },
        },
    }
}

/// The kind of path that an expression is, if it refers to a path within the codebase: a
/// concatenation by its first operand, else a double-quoted string or a bare property of $CFG.
pub open spec fn path_kind(source: Source, expr: Syntax) -> Option<PathKind> {
    if concat_sides(source, expr) is Some {
        leaf_kind(source, leftmost(source, expr))
    } else {
        match cfg_kind(source, expr) {
            Some(kind) => Some(kind),
            None => interpolated_kind(source, expr),
        }
    }
}

fn lowercase_of(text: &str) -> (r: String)
    ensures
        r@ == lowercase(text@),
{
    let chars = chars_of(text);
    let mut r = String::new();
    let mut i: usize = 0;
    while i < chars.len()
        invariant
            i <= chars.len(),
            chars@ == text@,
            r@ == lowercase(text@).take(i as int),
        decreases chars.len() - i,
    {
        let c = chars[i];
        if 'A' <= c && c <= 'Z' {
            r.push((c as u8 + 32) as char);
        } else {
            r.push(c);
        }
        assert(lowercase(text@).take(i + 1) =~= lowercase(text@).take(i as int).push(lowercase(text@)[i as int]));
        i += 1;
    }
    assert(lowercase(text@).take(i as int) =~= lowercase(text@));
    r
}

fn magic_kind_of(context: &Context, expr: &Tree) -> (r: Option<PathKind>)
    ensures
        r == magic_kind(context.source(), expr.syntax()),
{
    let constant = inner_of(expr);
    if !is_kind(constant, "MagicConstant") {
        return None;
    }
    let name = lowercase_of(&source_text(context, constant));
    if same(&name, "__dir__") {
        Some(PathKind::Dir)
    } else if same(&name, "__file__") {
        Some(PathKind::File)
    } else {
        None
    }
}

fn cfg_kind_of(context: &Context, expr: &Tree) -> (r: Option<PathKind>)
    ensures
        r == cfg_kind(context.source(), expr.syntax()),
{
    match cfg_property_of(context, expr) {
        Some(property) => if same(&property, "dirroot") {
            Some(PathKind::Dirroot)
        } else if same(&property, "libdir") {
            Some(PathKind::Libdir)
        } else if same(&property, "root") {
            Some(PathKind::Root)
        } else {
            None
        },
        None => None,
    }
}

fn interpolated_kind_of(context: &Context, expr: &Tree) -> (r: Option<PathKind>)
    ensures
        r == interpolated_kind(context.source(), expr.syntax()),
{
    match interpolated_of(expr) {
        Some(string) => {
            let parts = meaningful_parts_of(context, string);
            assert(syntax_of(parts@).len() == parts.len());
            if parts.len() > 0 {
                assert(syntax_of(parts@)[0] == parts@[0].syntax());
                match part_expr_of(parts[0]) {
                    Some(first) => cfg_kind_of(context, first),
                    None => None,
                }
            } else {
                None
            }
        },
        None => None,
    }
}

/// PHP's `dirname()`.
fn php_dirname(path: &str) -> (r: String)
    ensures
        r@ == dirname(path@),
{
    let chars = chars_of(path);
    let mut n: usize = chars.len();
    assert(path@.take(n as int) =~= path@);
    while n > 0 && chars[n - 1] != '/'
        invariant
            n <= chars.len(),
            chars@ == path@,
            last_slash(path@) == last_slash(path@.take(n as int)),
        decreases n,
    {
        assert(path@.take(n as int).drop_last() =~= path@.take(n - 1));
        n -= 1;
    }
    if n == 0 {
        copy(".")
    } else if n == 1 {
        copy("/")
    } else {
        string_of(&chars, 0, n - 1)
    }
}

/// Once dirname() changes nothing, more of it does not either.
proof fn dirname_up_settles(path: Seq<char>, levels: nat)
    requires
        dirname(path) == path,
    ensures
        dirname_up(path, levels) == path,
    decreases levels,
{
    if levels > 0 {
        dirname_up_settles(path, (levels - 1) as nat);
    }
}

fn php_dirname_up(path: String, levels: u64) -> (r: String)
    ensures
        r@ == dirname_up(path@, levels as nat),
{
    let ghost goal = dirname_up(path@, levels as nat);
    let mut current = path;
    let mut left: u64 = levels;
    while left > 0
        invariant
            dirname_up(current@, left as nat) == goal,
        ensures
            current@ == goal,
        decreases left,
    {
        let up = php_dirname(&current);
        if same(&up, &current) {
            proof {
                dirname_up_settles(current@, left as nat);
            }
            break;
        }
        current = up;
        left -= 1;
    }
    current
}

pub(crate) fn digit_of(c: char) -> (r: Option<u64>)
    ensures
        match r {
            Some(d) => digit_value(c) == Some(d as nat) && d < 16,
            None => digit_value(c) is None,
        },
{
    if '0' <= c && c <= '9' {
        Some((c as u32 - '0' as u32) as u64)
    } else if 'a' <= c && c <= 'f' {
        Some((c as u32 - 'a' as u32 + 10) as u64)
    } else if 'A' <= c && c <= 'F' {
        Some((c as u32 - 'A' as u32 + 10) as u64)
    } else {
        None
    }
}

fn ungrouped_of(text: &str) -> (r: Vec<char>)
    ensures
        r@ == ungrouped(text@),
{
    let chars = chars_of(text);
    let mut r: Vec<char> = Vec::new();
    let mut i: usize = 0;
    while i < chars.len()
        invariant
            i <= chars.len(),
            chars@ == text@,
            r@ == ungrouped(text@.take(i as int)),
        decreases chars.len() - i,
    {
        assert(text@.take(i + 1).drop_last() =~= text@.take(i as int));
        if chars[i] != '_' {
            r.push(chars[i]);
        }
        i += 1;
    }
    assert(text@.take(i as int) =~= text@);
    r
}

/// The value of a numeral of at most `i64::MAX`, if the characters from `from` on are one.
fn small_numeral(chars: &Vec<char>, from: usize, radix: u64) -> (r: Option<u64>)
    requires
        from <= chars.len(),
        2 <= radix <= 16,
    ensures
        match r {
            Some(n) => numeral(chars@.skip(from as int), radix as nat) == Some(n as nat),
            None => numeral(chars@.skip(from as int), radix as nat) matches Some(n) ==> n > i64::MAX,
        },
        r matches Some(n) ==> n <= i64::MAX,
{
    let ghost digits = chars@.skip(from as int);
    if chars.len() == from {
        return None;
    }
    let mut value: u128 = 0;
    let mut over = false;
    let mut i: usize = from;
    while i < chars.len()
        invariant
            from <= i <= chars.len(),
            from < chars.len(),
            2 <= radix <= 16,
            digits == chars@.skip(from as int),
            value <= i64::MAX,
            i == from ==> value == 0 && !over,
            i > from ==> numeral(digits.take(i - from), radix as nat) is Some,
            i > from && !over ==> numeral(digits.take(i - from), radix as nat) == Some(value as nat),
            i > from && over ==> numeral(digits.take(i - from), radix as nat)->0 > i64::MAX,
        decreases chars.len() - i,
    {
        let c = chars[i];
        let ghost n = numeral(digits.take(i - from), radix as nat);
        assert(digits[i - from] == c);
        assert(digits.take(i - from + 1).drop_last() =~= digits.take(i - from));
        assert(digits.take(i - from + 1).last() == c);
        let digit: u64 = match digit_of(c) {
            Some(d) => d,
            None => 16,
        };
        if digit >= radix {
            proof {
                not_a_numeral(digits, radix as nat, i - from);
            }
            return None;
        }
        if over {
            assert(radix * n->0 >= n->0) by (nonlinear_arith)
                requires
                    radix >= 1,
                    n->0 >= 0,
            ;
        } else {
            assert(0 <= radix * value <= 16 * (i64::MAX as int)) by (nonlinear_arith)
                requires
                    2 <= radix <= 16,
                    0 <= value <= i64::MAX,
            ;
            let more: u128 = radix as u128 * value + digit as u128;
            assert(i == from ==> radix * value == 0) by (nonlinear_arith)
                requires
                    i == from ==> value == 0,
            ;
            if more > i64::MAX as u128 {
                over = true;
            } else {
                value = more;
            }
        }
        i += 1;
    }
    assert(digits.take(i - from) =~= digits);
    if over {
        None
    } else {
        Some(value as u64)
    }
}

/// A text with a character that is no digit is no numeral.
proof fn not_a_numeral(text: Seq<char>, radix: nat, i: int)
    requires
        0 <= i < text.len(),
        !is_digit_to(text[i], radix),
    ensures
        numeral(text, radix) is None,
    decreases text.len(),
{
    if i < text.len() - 1 {
        not_a_numeral(text.drop_last(), radix, i);
    }
}

/// The value of a PHP integer literal of at most `i64::MAX`, if the text is one.
fn small_integer(text: &str) -> (r: Option<u64>)
    ensures
        match r {
            Some(n) => integer_literal(text@) == Some(n as nat),
            None => integer_literal(text@) matches Some(n) ==> n > i64::MAX,
        },
        r matches Some(n) ==> n <= i64::MAX,
{
    let chars = ungrouped_of(text);
    if chars.len() < 2 || chars[0] != '0' {
        assert(chars@.skip(0) =~= chars@);
        return small_numeral(&chars, 0, 10);
    }
    match chars[1] {
        'x' | 'X' => small_numeral(&chars, 2, 16),
        'o' | 'O' => small_numeral(&chars, 2, 8),
        'b' | 'B' => small_numeral(&chars, 2, 2),
        _ => small_numeral(&chars, 1, 8),
    }
}

fn argument_value_of<'t>(argument: &'t Tree) -> (r: Option<&'t Tree>)
    ensures
        match r {
            Some(value) => argument_value(argument.syntax()) == Some(value.syntax()),
            None => argument_value(argument.syntax()) is None,
        },
        r matches Some(value) ==> decreases_to!(argument => value),
{
    if holds_only(argument, "PositionalArgument") && arity(child(argument, 0)) == 1 {
        Some(child(child(argument, 0), 0))
    } else if holds_only(argument, "NamedArgument") && arity(child(argument, 0)) == 2 {
        Some(child(child(argument, 0), 1))
    } else {
        None
    }
}

fn dirname_call_of<'t>(context: &Context, expr: &'t Tree) -> (r: Option<(&'t Tree, u64)>)
    ensures
        match r {
            Some((value, levels)) => dirname_call(context.source(), expr.syntax()) == Some(
                (value.syntax(), levels as nat),
            ),
            None => dirname_call(context.source(), expr.syntax()) is None,
        },
        r matches Some((value, _)) ==> decreases_to!(expr => value),
{
    let call = inner_of(expr);
    if !(is_kind(call, "Call") && holds_only(call, "FunctionCall")) {
        return None;
    }
    let function_call = child(call, 0);
    if arity(function_call) != 2 || !is_text(&plain_name_of(context, child(function_call, 0)), "dirname") {
        return None;
    }
    let arguments = child(function_call, 1);
    let n = arity(arguments);
    if n == 1 {
        match argument_value_of(child(arguments, 0)) {
            Some(value) => Some((value, 1)),
            None => None,
        }
    } else if n == 2 {
        match (argument_value_of(child(arguments, 0)), argument_value_of(child(arguments, 1))) {
            (Some(value), Some(levels)) => {
                let literal = inner_of(levels);
                if is_kind(literal, "Literal") && holds_only(literal, "LiteralInteger") {
                    match small_integer(&source_text(context, literal)) {
                        Some(n) => if n >= 1 {
                            Some((value, n))
                        } else {
                            None
                        },
                        None => None,
                    }
                } else {
                    None
                }
            },
            _ => None,
        }
    } else {
        None
    }
}

fn file_relative_of(context: &Context, expr: &Tree) -> (r: Option<String>)
    ensures
        same_text(r, file_relative(context.source(), expr.syntax())),
    decreases expr,
{
    match magic_kind_of(context, expr) {
        Some(PathKind::Dir) => Some(php_dirname(context.file)),
        Some(_) => Some(copy(context.file)),
        None => match dirname_call_of(context, expr) {
            Some((value, levels)) => match file_relative_of(context, value) {
                Some(path) => Some(php_dirname_up(path, levels)),
                None => None,
            },
            None => None,
        },
    }
}

fn leaf_kind_of(context: &Context, leaf: &Tree) -> (r: Option<PathKind>)
    ensures
        r == leaf_kind(context.source(), leaf.syntax()),
{
    if let Some(kind) = cfg_kind_of(context, leaf) {
        return Some(kind);
    }
    if let Some(kind) = magic_kind_of(context, leaf) {
        return Some(kind);
    }
    if let Some((value, _)) = dirname_call_of(context, leaf) {
        if file_relative_of(context, value).is_some() {
            return Some(PathKind::Dir);
        }
    }
    interpolated_kind_of(context, leaf)
}

/// The kind of path that an expression is, if it refers to a path within the codebase.
pub fn path_kind_of(context: &Context, expr: &Tree) -> (r: Option<PathKind>)
    ensures
        r == path_kind(context.source(), expr.syntax()),
{
    if concat_of(context, expr).is_some() {
        leaf_kind_of(context, leftmost_of(context, expr))
    } else {
        match cfg_kind_of(context, expr) {
            Some(kind) => Some(kind),
            None => interpolated_kind_of(context, expr),
        }
    }
}

/// Whether an expression refers to a path within the codebase.
pub fn is_potential_path(context: &Context, expr: &Tree) -> (r: bool)
    ensures
        r == path_kind(context.source(), expr.syntax()) is Some,
{
    path_kind_of(context, expr).is_some()
}

// ---------------------------------------------------------------------------------------------
// The paths themselves.

/// A text in braces: the marker of a value that is only known when the code runs.
pub open spec fn marker(text: Seq<char>) -> Seq<char> {
    seq!['{'] + text + seq!['}']
}

/// A directory relative to the repository root, as the start of a path.
pub open spec fn rooted_dir(dir: Seq<char>) -> Seq<char> {
    if dir == "."@ {
        Seq::<char>::empty()
    } else {
        seq!['/'] + dir
    }
}

/// What an expression contributes to a path, relative to the repository root.
pub open spec fn segment(source: Source, expr: Syntax) -> Seq<char>
    decreases expr, 0nat,
{
    if let Some(value) = string_value(source, expr) {
        value
    } else if magic_kind(source, expr) == Some(PathKind::Dir) {
        rooted_dir(dirname(source.file))
    } else if magic_kind(source, expr) == Some(PathKind::File) {
        seq!['/'] + source.file
    } else if is_dirname_of_file_or_dir(source, expr) {
        rooted_dir(file_relative(source, expr)->0)
    } else if let Some(property) = cfg_property(source, expr) {
        if property == "dirroot"@ {
            source.segment
        } else if property == "libdir"@ {
            source.segment + "/lib"@
        } else if property == "root"@ {
            Seq::<char>::empty()
        } else if property == "admin"@ {
            "admin"@
        } else {
            marker(code_of(source, expr))
        }
    } else if let Some(string) = interpolated(expr) {
        interpolated_text(source, string, string.children.len())
    } else if let Some(name) = constant_name(source, expr) {
        if name == "DIRECTORY_SEPARATOR"@ {
            "/"@
        } else {
            marker(name)
        }
    } else {
        marker(code_of(source, expr))
    }
}

/// What the first `n` parts of a double-quoted string contribute to a path.
pub open spec fn interpolated_text(source: Source, string: Syntax, n: nat) -> Seq<char>
    decreases string, n,
{
    if n == 0 || n > string.children.len() {
        Seq::<char>::empty()
    } else {
        let part = string.children[n - 1];
        interpolated_text(source, string, (n - 1) as nat) + match part_expr(part) {
            Some(expr) => segment(source, expr),
            None => part_value(source, part),
        }
    }
}

/// What some expressions contribute to a path, one after the other.
pub open spec fn segments(source: Source, exprs: Seq<Syntax>) -> Seq<char>
    decreases exprs.len(),
{
    if exprs.len() == 0 {
        Seq::<char>::empty()
    } else {
        segments(source, exprs.drop_last()) + segment(source, exprs.last())
    }
}

/// The path that a path expression refers to, relative to the repository root, with a leading
/// slash. A bare property of $CFG is not normalised, so that e.g. "$CFG->dirroot . '/'" stays
/// distinct from it.
pub open spec fn rooted_path(source: Source, expr: Syntax) -> Seq<char> {
    if concat_sides(source, expr) is Some {
        normalised(segments(source, operands(source, expr)))
    } else if interpolated(expr) is Some {
        normalised(segment(source, expr))
    } else {
        segment(source, expr)
    }
}

/// The literal that follows the path root, if it is a recognised separator.
pub open spec fn separator(source: Source, expr: Syntax) -> Seq<char> {
    if concat_sides(source, expr) is Some {
        let parts = operands(source, expr);
        if parts.len() >= 2 && string_value(source, parts[1]) == Some("/"@) {
            "/"@
        } else if parts.len() >= 2 && constant_name(source, parts[1]) == Some("DIRECTORY_SEPARATOR"@) {
            "DIRECTORY_SEPARATOR"@
        } else {
            Seq::<char>::empty()
        }
    } else if let Some(string) = interpolated(expr) {
        let parts = meaningful_parts(source, string.children);
        if parts.len() >= 2 && part_expr(parts[1]) is None && part_value(source, parts[1]) == "/"@ {
            "/"@
        } else {
            Seq::<char>::empty()
        }
    } else {
        Seq::<char>::empty()
    }
}

/// A text with a backslash before each quote and backslash.
pub open spec fn escaped(text: Seq<char>) -> Seq<char>
    decreases text.len(),
{
    if text.len() == 0 {
        text
    } else if text.last() == '\'' || text.last() == '\\' {
        escaped(text.drop_last()).push('\\').push(text.last())
    } else {
        escaped(text.drop_last()).push(text.last())
    }
}

/// A text as a single-quoted PHP string.
pub open spec fn single_quoted(text: Seq<char>) -> Seq<char> {
    seq!['\''] + escaped(text) + seq!['\'']
}

/// Whether an expression is the $CFG->dirroot root of a concatenation: $CFG->dirroot itself, or the
/// string "{$CFG->dirroot}".
pub open spec fn is_dirroot_root(source: Source, expr: Syntax) -> bool {
    ||| cfg_kind(source, expr) == Some(PathKind::Dirroot)
    ||| {
        &&& interpolated(expr) is Some
        &&& meaningful_parts(source, interpolated(expr)->0.children).len() == 1
        &&& interpolated_kind(source, expr) == Some(PathKind::Dirroot)
    }
}

/// The PHP expression for a part of a double-quoted string.
pub open spec fn part_code(source: Source, part: Syntax) -> Seq<char> {
    match part_expr(part) {
        Some(expr) => code_of(source, expr),
        None => single_quoted(part_value(source, part)),
    }
}

/// The PHP expression for the part of a dirroot-rooted path after $CFG->dirroot, as the source has
/// it; empty for other paths.
pub open spec fn mono_path(source: Source, expr: Syntax) -> Seq<char> {
    if concat_sides(source, expr) is Some {
        let parts = operands(source, expr);
        if is_dirroot_root(source, parts[0]) {
            join(Seq::new((parts.len() - 1) as nat, |i: int| code_of(source, parts[i + 1])), " . "@)
        } else {
            Seq::<char>::empty()
        }
    } else if interpolated_kind(source, expr) == Some(PathKind::Dirroot) {
        let parts = meaningful_parts(source, interpolated(expr)->0.children);
        join(Seq::new((parts.len() - 1) as nat, |i: int| part_code(source, parts[i + 1])), " . "@)
    } else {
        Seq::<char>::empty()
    }
}

fn marker_of(text: &str) -> (r: String)
    ensures
        r@ == marker(text@),
{
    proof {
        reveal_strlit("{");
        reveal_strlit("}");
        assert("{"@ =~= seq!['{']);
        assert("}"@ =~= seq!['}']);
    }
    concat3("{", text, "}")
}

fn rooted_dir_of(dir: String) -> (r: String)
    ensures
        r@ == rooted_dir(dir@),
{
    proof {
        reveal_strlit("/");
        assert("/"@ =~= seq!['/']);
    }
    if same(&dir, ".") {
        String::new()
    } else {
        concat("/", &dir)
    }
}

/// The directory of the file, as the start of a path.
pub fn file_dir(context: &Context) -> (r: String)
    ensures
        r@ == rooted_dir(dirname(context.source().file)),
{
    rooted_dir_of(php_dirname(context.file))
}

fn node_to_segment(context: &Context, expr: &Tree) -> (r: String)
    ensures
        r@ == segment(context.source(), expr.syntax()),
    decreases expr, 0nat,
{
    proof {
        reveal_strlit("/");
        assert("/"@ =~= seq!['/']);
    }
    if let Some(value) = string_value_of(context, expr) {
        return value;
    }
    match magic_kind_of(context, expr) {
        Some(PathKind::Dir) => {
            return file_dir(context);
        },
        Some(PathKind::File) => {
            return concat("/", context.file);
        },
        _ => {},
    }
    if dirname_call_of(context, expr).is_some() {
        if let Some(dir) = file_relative_of(context, expr) {
            return rooted_dir_of(dir);
        }
    }
    if let Some(property) = cfg_property_of(context, expr) {
        return if same(&property, "dirroot") {
            copy(context.notation.dirroot_segment())
        } else if same(&property, "libdir") {
            concat(context.notation.dirroot_segment(), "/lib")
        } else if same(&property, "root") {
            String::new()
        } else if same(&property, "admin") {
            // $CFG->admin is the admin directory *name* (default 'admin'), always written as
            // "$CFG->dirroot/$CFG->admin/...", so it contributes only the bare segment.
            copy("admin")
        } else {
            marker_of(&source_text(context, expr))
        };
    }
    if let Some(string) = interpolated_of(expr) {
        return build_from_interpolated(context, string, arity(string));
    }
    if let Some(name) = constant_name_of(context, expr) {
        return if same(&name, "DIRECTORY_SEPARATOR") {
            copy("/")
        } else {
            marker_of(&name)
        };
    }
    marker_of(&source_text(context, expr))
}

fn build_from_interpolated(context: &Context, string: &Tree, n: usize) -> (r: String)
    requires
        n <= string.children.len(),
    ensures
        r@ == interpolated_text(context.source(), string.syntax(), n as nat),
    decreases string, n as nat,
{
    if n == 0 {
        return String::new();
    }
    let text = build_from_interpolated(context, string, n - 1);
    let part = child(string, n - 1);
    assert(string.syntax().children.len() == string.children.len());
    match part_expr_of(part) {
        Some(expr) => concat(&text, &node_to_segment(context, expr)),
        None => concat(&text, &part_value_of(context, part)),
    }
}

fn build_from_parts(context: &Context, parts: &Vec<&Tree>) -> (r: String)
    ensures
        r@ == segments(context.source(), syntax_of(parts@)),
{
    let ghost all = syntax_of(parts@);
    let mut text = String::new();
    let mut i: usize = 0;
    while i < parts.len()
        invariant
            i <= parts.len(),
            all == syntax_of(parts@),
            text@ == segments(context.source(), all.take(i as int)),
        decreases parts.len() - i,
    {
        assert(all.take(i + 1).drop_last() =~= all.take(i as int));
        assert(all.take(i + 1).last() == parts@[i as int].syntax());
        text = concat(&text, &node_to_segment(context, parts[i]));
        i += 1;
    }
    assert(all.take(i as int) =~= all);
    text
}

/// The repository-root-relative path (no leading slash) that a path expression refers to, along
/// with its glyph-notation rendering.
pub fn extract_path(context: &Context, expr: &Tree) -> (r: (String, String))
    ensures
        r.0@ == trim_start(rooted_path(context.source(), expr.syntax()), '/'),
        r.1@ == glyph_of(context.source().segment, rooted_path(context.source(), expr.syntax())),
{
    let rooted = if concat_of(context, expr).is_some() {
        PathNotation::normalise(&build_from_parts(context, &operands_of(context, expr)))
    } else if interpolated_of(expr).is_some() {
        PathNotation::normalise(&node_to_segment(context, expr))
    } else {
        node_to_segment(context, expr)
    };
    (trim_start_of(&rooted, '/'), context.notation.to_glyph(&rooted))
}

/// The literal that follows the path root, if it is a recognised separator.
pub fn extract_separator(context: &Context, expr: &Tree) -> (r: String)
    ensures
        r@ == separator(context.source(), expr.syntax()),
{
    if concat_of(context, expr).is_some() {
        let parts = operands_of(context, expr);
        assert(syntax_of(parts@).len() == parts.len());
        if parts.len() >= 2 {
            assert(syntax_of(parts@)[1] == parts@[1].syntax());
            if is_text(&string_value_of(context, parts[1]), "/") {
                return copy("/");
            }
            if is_text(&constant_name_of(context, parts[1]), "DIRECTORY_SEPARATOR") {
                return copy("DIRECTORY_SEPARATOR");
            }
        }
        return String::new();
    }
    if let Some(string) = interpolated_of(expr) {
        let parts = meaningful_parts_of(context, string);
        assert(syntax_of(parts@).len() == parts.len());
        if parts.len() >= 2 {
            assert(syntax_of(parts@)[1] == parts@[1].syntax());
            if part_expr_of(parts[1]).is_none() && same(&part_value_of(context, parts[1]), "/") {
                return copy("/");
            }
        }
    }
    String::new()
}

/// A text as a single-quoted PHP string.
pub fn quote_single(text: &str) -> (r: String)
    ensures
        r@ == single_quoted(text@),
{
    let chars = chars_of(text);
    let mut r = String::new();
    r.push('\'');
    let mut i: usize = 0;
    assert(r@ =~= seq!['\''] + escaped(text@.take(0)));
    while i < chars.len()
        invariant
            i <= chars.len(),
            chars@ == text@,
            r@ == seq!['\''] + escaped(text@.take(i as int)),
        decreases chars.len() - i,
    {
        let c = chars[i];
        assert(text@.take(i + 1).drop_last() =~= text@.take(i as int));
        if c == '\'' || c == '\\' {
            r.push('\\');
        }
        r.push(c);
        assert(r@ =~= seq!['\''] + escaped(text@.take(i + 1)));
        i += 1;
    }
    assert(text@.take(i as int) =~= text@);
    r.push('\'');
    assert(r@ =~= single_quoted(text@));
    r
}

fn is_dirroot_root_of(context: &Context, expr: &Tree) -> (r: bool)
    ensures
        r == is_dirroot_root(context.source(), expr.syntax()),
{
    if let Some(PathKind::Dirroot) = cfg_kind_of(context, expr) {
        return true;
    }
    match interpolated_of(expr) {
        Some(string) => {
            let parts = meaningful_parts_of(context, string);
            assert(syntax_of(parts@).len() == parts.len());
            parts.len() == 1 && matches!(interpolated_kind_of(context, expr), Some(PathKind::Dirroot))
        },
        None => false,
    }
}

fn part_code_of(context: &Context, part: &Tree) -> (r: String)
    ensures
        r@ == part_code(context.source(), part.syntax()),
{
    match part_expr_of(part) {
        Some(expr) => source_text(context, expr),
        None => quote_single(&part_value_of(context, part)),
    }
}

/// The faithful PHP expression for the part of a dirroot-rooted path after $CFG->dirroot, i.e.
/// the path relative to dirroot, ready to pass to core\component::from_mono_path().
///
/// Unlike the normalised path, this preserves the source exactly: in particular
/// DIRECTORY_SEPARATOR stays as the constant rather than being flattened to '/', and the leading
/// separator (if any) is kept. Empty for paths not rooted at $CFG->dirroot.
pub fn extract_mono_path_expr(context: &Context, expr: &Tree) -> (r: String)
    ensures
        r@ == mono_path(context.source(), expr.syntax()),
{
    let is_concat = concat_of(context, expr).is_some();
    let parts = if is_concat {
        operands_of(context, expr)
    } else {
        match interpolated_of(expr) {
            Some(string) => meaningful_parts_of(context, string),
            None => Vec::new(),
        }
    };
    let ghost all = syntax_of(parts@);
    let ghost source = context.source();
    assert(all.len() == parts.len());
    if is_concat {
        assert(all[0] == parts@[0].syntax());
        if !is_dirroot_root_of(context, parts[0]) {
            return String::new();
        }
    } else {
        match interpolated_kind_of(context, expr) {
            Some(PathKind::Dirroot) => {},
            _ => {
                return String::new();
            },
        }
    }
    let ghost pieces = Seq::new(
        (all.len() - 1) as nat,
        |i: int|
            if is_concat {
                code_of(source, all[i + 1])
            } else {
                part_code(source, all[i + 1])
            },
    );
    let mut codes: Vec<String> = Vec::new();
    let mut i: usize = 1;
    while i < parts.len()
        invariant
            1 <= i <= parts.len(),
            all == syntax_of(parts@),
            source == context.source(),
            pieces == Seq::new(
                (all.len() - 1) as nat,
                |i: int|
                    if is_concat {
                        code_of(source, all[i + 1])
                    } else {
                        part_code(source, all[i + 1])
                    },
            ),
            texts(codes@) == pieces.take(i - 1),
        decreases parts.len() - i,
    {
        assert(all[i as int] == parts@[i as int].syntax());
        let ghost before = texts(codes@);
        let code = if is_concat {
            source_text(context, parts[i])
        } else {
            part_code_of(context, parts[i])
        };
        codes.push(code);
        assert(texts(codes@) =~= before.push(code@));
        assert(pieces.take(i as int) =~= pieces.take(i - 1).push(pieces[i - 1]));
        i += 1;
    }
    assert(texts(codes@) =~= pieces);
    proof {
        if is_concat {
            assert(pieces =~= Seq::new((all.len() - 1) as nat, |i: int| code_of(source, all[i + 1])));
        } else {
            assert(pieces =~= Seq::new((all.len() - 1) as nat, |i: int| part_code(source, all[i + 1])));
        }
    }
    join_with(&codes, " . ")
}

} // verus!
