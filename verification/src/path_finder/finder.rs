//! Finds the references to internal paths in a PHP file.

use vstd::prelude::*;
use vstd::utf8::decode_utf8;
use vstd::utf8::encode_utf8;
use vstd::utf8::valid_utf8;

use crate::path_finder::expression::Context;
use crate::path_finder::expression::Source;
use crate::path_finder::expression::code_of;
use crate::path_finder::expression::concat_sides;
use crate::path_finder::expression::dirname;
use crate::path_finder::expression::extract_mono_path_expr;
use crate::path_finder::expression::extract_path;
use crate::path_finder::expression::extract_separator;
use crate::path_finder::expression::file_dir;
use crate::path_finder::expression::holds;
use crate::path_finder::expression::inner;
use crate::path_finder::expression::member_name;
use crate::path_finder::expression::member_name_of;
use crate::path_finder::expression::leftmost;
use crate::path_finder::expression::mono_path;
use crate::path_finder::expression::operands;
use crate::path_finder::expression::path_kind;
use crate::path_finder::expression::path_kind_of;
use crate::path_finder::expression::plain_name;
use crate::path_finder::expression::plain_name_of;
use crate::path_finder::expression::rooted_dir;
use crate::path_finder::expression::rooted_path;
use crate::path_finder::expression::same_text;
use crate::path_finder::expression::separator;
use crate::path_finder::expression::source_text;
use crate::path_finder::expression::span;
use crate::path_finder::expression::string_value;
use crate::path_finder::expression::string_value_of;
use crate::path_finder::expression::unparenthesized;
use crate::path_finder::expression::unparenthesized_of;
use crate::path_finder::expression::variable_name;
use crate::path_finder::expression::variable_name_of;
use crate::path_finder::expression::arity;
use crate::path_finder::expression::child;
use crate::path_finder::expression::holds_only;
use crate::path_finder::expression::inner_of;
use crate::path_finder::expression::is_kind;
use crate::path_finder::notation::PathNotation;
use crate::path_finder::notation::glyph_of;
use crate::path_finder::notation::normalised;
use crate::path_finder::notation::repo_path_of;
use crate::path_finder::notation::repo_path_undoes_glyph;
use crate::path_finder::result::PathKind;
use crate::path_finder::result::PathResult;
use crate::path_finder::result::PathView;
use crate::path_finder::result::path_views;
use crate::path_finder::result::text_of;
use crate::path_finder::syntax::Syntax;
use crate::path_finder::syntax::Tree;
use crate::path_finder::syntax::forest;
use crate::path_finder::syntax::parse_php;
use crate::path_finder::syntax::php_nodes;
use crate::path_finder::syntax::syntaxes;
use crate::path_finder::syntax::trees_of;
use crate::text::concat3;
use crate::text::copy;
use crate::text::same;
use crate::text::trim_start;
use crate::text::trim_start_of;

verus! {

// ---------------------------------------------------------------------------------------------
// Assignments that a variable can be traced back to.

/// An assignment of a path to a variable.
pub struct Assigned {
    pub name: Seq<char>,
    pub start: usize,
    pub value: Syntax,
}

/// An assignment of a path to a variable.
pub struct Assignment<'t> {
    pub name: String,
    pub start: usize,
    pub value: &'t Tree,
}

impl<'t> Assignment<'t> {
    /// The assignment as plain values.
    pub open spec fn assigned(&self) -> Assigned {
        Assigned { name: self.name@, start: self.start, value: self.value.syntax() }
    }
}

/// Some assignments, as plain values.
pub open spec fn all_assigned(assignments: Seq<Assignment>) -> Seq<Assigned> {
    Seq::new(assignments.len(), |i: int| assignments[i].assigned())
}

/// The assignment of a path to a plain variable that a node is, if it is one.
pub open spec fn own_assignment(source: Source, node: Syntax) -> Option<Assigned> {
    if node.kind == "Assignment"@ && node.children.len() == 3 && code_of(source, node.children[1]) == "="@
        && path_kind(source, unparenthesized(node.children[2])) is Some {
        match variable_name(source, node.children[0]) {
            Some(name) => Some(Assigned { name, start: node.start, value: unparenthesized(node.children[2]) }),
            None => None,
        }
    } else {
        None
    }
}

/// The assignments of paths to plain variables in a tree, in source order.
pub open spec fn assignments_in(source: Source, node: Syntax) -> Seq<Assigned>
    decreases node, node.children.len() + 1,
{
    match own_assignment(source, node) {
        Some(own) => seq![own] + assignments_below(source, node, node.children.len()),
        None => assignments_below(source, node, node.children.len()),
    }
}

/// The assignments of paths to plain variables below the first `n` children of a node.
pub open spec fn assignments_below(source: Source, node: Syntax, n: nat) -> Seq<Assigned>
    decreases node, n,
{
    if n == 0 || n > node.children.len() {
        Seq::<Assigned>::empty()
    } else {
        assignments_below(source, node, (n - 1) as nat) + assignments_in(source, node.children[n - 1])
    }
}

/// The assignments of paths to plain variables in some trees.
pub open spec fn assignments_among(source: Source, trees: Seq<Syntax>) -> Seq<Assigned>
    decreases trees.len(),
{
    if trees.len() == 0 {
        Seq::<Assigned>::empty()
    } else {
        assignments_among(source, trees.drop_last()) + assignments_in(source, trees.last())
    }
}

/// What the variable `name` was last assigned before `position`: the nearest earlier assignment of
/// a path.
pub open spec fn traced(assigned: Seq<Assigned>, name: Seq<char>, position: usize) -> Option<Syntax>
    decreases assigned.len(),
{
    if assigned.len() == 0 {
        None
    } else if assigned.last().name == name && assigned.last().start < position {
        Some(assigned.last().value)
    } else {
        traced(assigned.drop_last(), name, position)
    }
}

// ---------------------------------------------------------------------------------------------
// The references.

/// A 1-indexed line for a 0-indexed one.
pub open spec fn one_based(line: u32) -> u32 {
    if line < u32::MAX {
        (line + 1) as u32
    } else {
        line
    }
}

/// The name of a require or include construct.
pub open spec fn construct_name(node: Syntax) -> Option<Seq<char>> {
    if node.children.len() != 2 {
        None
    } else if node.kind == "IncludeConstruct"@ {
        Some("include"@)
    } else if node.kind == "IncludeOnceConstruct"@ {
        Some("include_once"@)
    } else if node.kind == "RequireConstruct"@ {
        Some("require"@)
    } else if node.kind == "RequireOnceConstruct"@ {
        Some("require_once"@)
    } else {
        None
    }
}

/// The name of a static call.
pub open spec fn static_call_name(source: Source, class: Syntax, method: Syntax) -> Option<Seq<char>> {
    let class_name = if inner(class).kind == "Keyword"@ {
        Some(code_of(source, inner(class)))
    } else {
        plain_name(source, class)
    };
    match (class_name, member_name(source, method)) {
        (Some(class), Some(method)) => Some(class + "::"@ + method),
        (None, Some(method)) => Some(method),
        (_, None) => None,
    }
}

/// What child `i` of a node is directly passed to: the construct or call it is the value or an
/// argument of. Parentheses make no difference.
pub open spec fn child_parent(source: Source, node: Syntax, i: int, parent: Option<Seq<char>>) -> Option<Seq<char>> {
    if construct_name(node) is Some {
        if i == 1 {
            construct_name(node)
        } else {
            None
        }
    } else if node.kind == "FunctionCall"@ && node.children.len() == 2 && i == 1 {
        plain_name(source, node.children[0])
    } else if node.kind == "MethodCall"@ && node.children.len() == 3 && i == 2 {
        member_name(source, node.children[1])
    } else if node.kind == "StaticMethodCall"@ && node.children.len() == 3 && i == 2 {
        static_call_name(source, node.children[0], node.children[1])
    } else if node.kind == "ArgumentList"@ || node.kind == "Argument"@ || node.kind == "PositionalArgument"@
        || node.kind == "NamedArgument"@ || node.kind == "Parenthesized"@ || node.kind == "Expression"@ && holds(
        node,
        "Parenthesized"@,
    ) {
        parent
    } else {
        None
    }
}

/// Whether child `i` of a node is the body of an `if`, `elseif` or `else`.
pub open spec fn is_branch(node: Syntax, i: int) -> bool {
    ||| node.kind == "IfStatementBody"@ && i == 0
    ||| node.kind == "IfStatementBodyElseIfClause"@ && i == 2
    ||| node.kind == "IfStatementBodyElseClause"@ && i == 1
}

/// Whether child `i` of a node is a statement of the body of an `if`, `elseif` or `else` that is
/// written with a colon.
pub open spec fn is_branch_statement(node: Syntax, i: int) -> bool {
    &&& node.kind == "IfColonDelimitedBody"@ || node.kind == "IfColonDelimitedBodyElseIfClause"@ || node.kind
        == "IfColonDelimitedBodyElseClause"@
    &&& node.children[i].kind == "Statement"@
}

/// The line on which the last statement among `children` ends.
pub open spec fn last_statement_line(children: Seq<Syntax>) -> u32
    decreases children.len(),
{
    if children.len() == 0 {
        0
    } else if children.last().kind == "Statement"@ {
        children.last().end_line
    } else {
        last_statement_line(children.drop_last())
    }
}

/// The last line of the innermost branch that child `i` of a node lies in.
pub open spec fn child_scope(node: Syntax, i: int, scope: Option<u32>) -> Option<u32> {
    if is_branch(node, i) {
        Some(one_based(node.children[i].end_line))
    } else if is_branch_statement(node, i) {
        Some(one_based(last_statement_line(node.children)))
    } else {
        scope
    }
}

/// Whether the code of a reference is the text of its place in the source, wherever that is valid UTF-8.
pub open spec fn is_code_of_its_place(source: Source, reference: PathView) -> bool {
    match (reference.start_pos, reference.end_pos) {
        (Some(start), Some(end)) => valid_utf8(span(source.bytes, start, end)) ==> reference.code == decode_utf8(
            span(source.bytes, start, end),
        ),
        _ => false,
    }
}

/// Whether the code of each of some references is the text of its place in the source.
pub open spec fn all_code_in_place(source: Source, references: Seq<PathView>) -> bool {
    forall|i: int| 0 <= i < references.len() ==> is_code_of_its_place(source, #[trigger] references[i])
}

/// A reference by an expression that is a path of kind `kind`.
pub open spec fn ordinary_reference(
    source: Source,
    expr: Syntax,
    kind: PathKind,
    parent: Option<Seq<char>>,
    scope: Option<u32>,
) -> PathView {
    PathView {
        path: glyph_of(source.segment, rooted_path(source, expr)),
        real_path: trim_start(rooted_path(source, expr), '/'),
        kind,
        line: one_based(expr.line),
        code: code_of(source, expr),
        parent,
        start_pos: Some(expr.start),
        end_pos: Some(expr.end),
        separator: separator(source, expr),
        mono_path_expr: mono_path(source, expr),
        scope_end_line: scope,
    }
}

/// A reference by the sole value of a require or include, to the path `rooted`.
pub open spec fn value_reference(
    source: Source,
    value: Syntax,
    rooted: Seq<char>,
    kind: PathKind,
    parent: Option<Seq<char>>,
    scope: Option<u32>,
) -> PathView {
    PathView {
        path: glyph_of(source.segment, rooted),
        real_path: trim_start(rooted, '/'),
        kind,
        line: one_based(value.line),
        code: code_of(source, value),
        parent,
        start_pos: Some(value.start),
        end_pos: Some(value.end),
        separator: Seq::<char>::empty(),
        mono_path_expr: Seq::<char>::empty(),
        scope_end_line: scope,
    }
}

/// The reference that a require or include makes by a bare literal, resolved against the directory
/// of the file, or by a bare variable that can be traced back to a path.
pub open spec fn bare_reference(
    source: Source,
    assigned: Seq<Assigned>,
    node: Syntax,
    scope: Option<u32>,
) -> Option<PathView> {
    match construct_name(node) {
        Some(name) => {
            let value = unparenthesized(node.children[1]);
            if let Some(literal) = string_value(source, value) {
                let rooted = normalised(rooted_dir(dirname(source.file)) + "/"@ + literal);
                Some(value_reference(source, value, rooted, PathKind::RequireLiteral, Some(name), scope))
            } else if let Some(variable) = variable_name(source, value) {
                match traced(assigned, variable, value.start) {
                    Some(path) => Some(
                        value_reference(
                            source,
                            value,
                            rooted_path(source, path),
                            PathKind::TracedVariable,
                            Some(name),
                            scope,
                        ),
                    ),
                    None => None,
                }
            } else {
                None
            }
        },
        None => None,
    }
}

/// The references in a tree. Nothing is looked for inside an expression that is a path.
pub open spec fn references_in(
    source: Source,
    assigned: Seq<Assigned>,
    node: Syntax,
    parent: Option<Seq<char>>,
    scope: Option<u32>,
) -> Seq<PathView>
    decreases node, node.children.len() + 1,
{
    if node.kind == "Expression"@ && path_kind(source, node) is Some {
        seq![ordinary_reference(source, node, path_kind(source, node)->0, parent, scope)]
    } else if let Some(reference) = bare_reference(source, assigned, node, scope) {
        seq![reference]
    } else {
        references_below(source, assigned, node, node.children.len(), parent, scope)
    }
}

/// The references below the first `n` children of a node. The left-hand side of an assignment
/// defines the variable rather than referring to a file, so it is not itself a reference, but may
/// hold some.
pub open spec fn references_below(
    source: Source,
    assigned: Seq<Assigned>,
    node: Syntax,
    n: nat,
    parent: Option<Seq<char>>,
    scope: Option<u32>,
) -> Seq<PathView>
    decreases node, n,
{
    if n == 0 || n > node.children.len() {
        Seq::<PathView>::empty()
    } else {
        let i = n - 1;
        let child = node.children[i];
        references_below(source, assigned, node, i as nat, parent, scope) + if node.kind == "Assignment"@ && i == 0
            && path_kind(source, child) is Some {
            references_below(source, assigned, child, child.children.len(), None, scope)
        } else {
            references_in(
                source,
                assigned,
                child,
                child_parent(source, node, i, parent),
                child_scope(node, i, scope),
            )
        }
    }
}

/// The references in some trees.
pub open spec fn references_among(source: Source, assigned: Seq<Assigned>, trees: Seq<Syntax>) -> Seq<PathView>
    decreases trees.len(),
{
    if trees.len() == 0 {
        Seq::<PathView>::empty()
    } else {
        references_among(source, assigned, trees.drop_last()) + references_in(
            source,
            assigned,
            trees.last(),
            None,
            None,
        )
    }
}

/// Whether the places of two references have something in common.
pub open spec fn overlap(a: PathView, b: PathView) -> bool {
    a.start_pos->0 < b.end_pos->0 && b.start_pos->0 < a.end_pos->0
}

/// Whether `reference` overlaps one of `others`.
pub open spec fn overlaps_some(others: Seq<PathView>, reference: PathView) -> bool {
    exists|k: int| 0 <= k < others.len() && overlap(#[trigger] others[k], reference)
}

/// Distinct references never overlap: what overlaps a reference before it is none of its own. Where the
/// nodes of the syntax trees nest there is no such thing, see [`references_lie_one_after_another`].
pub open spec fn distinct(found: Seq<PathView>) -> Seq<PathView>
    decreases found.len(),
{
    if found.len() == 0 {
        found
    } else {
        let before = distinct(found.drop_last());
        if overlaps_some(before, found.last()) {
            before
        } else {
            before.push(found.last())
        }
    }
}

/// The references in a file, given its syntax trees.
pub open spec fn references(source: Source, trees: Seq<Syntax>) -> Seq<PathView> {
    distinct(references_among(source, assignments_among(source, trees), trees))
}

/// Whether no two of some references overlap.
pub open spec fn no_overlap(references: Seq<PathView>) -> bool {
    forall|i: int, j: int| 0 <= i < j < references.len() ==> !overlap(#[trigger] references[i], #[trigger] references[j])
}

/// Distinct references do not overlap, and are among those that were found.
proof fn distinct_facts(found: Seq<PathView>)
    ensures
        no_overlap(distinct(found)),
        distinct(found).len() <= found.len(),
        forall|i: int| 0 <= i < distinct(found).len() ==> found.contains(#[trigger] distinct(found)[i]),
    decreases found.len(),
{
    if found.len() > 0 {
        let before = distinct(found.drop_last());
        let all = distinct(found);
        distinct_facts(found.drop_last());
        assert forall|i: int| 0 <= i < all.len() implies found.contains(#[trigger] all[i]) by {
            if i < before.len() {
                assert(found.drop_last().contains(before[i]));
                let k = choose|k: int| 0 <= k < found.drop_last().len() && found.drop_last()[k] == before[i];
                assert(found[k] == all[i]);
            } else {
                assert(found[found.len() - 1] == all[i]);
            }
        }
        assert forall|i: int, j: int| 0 <= i < j < all.len() implies !overlap(#[trigger] all[i], #[trigger] all[j]) by {
            if j < before.len() {
                assert(!overlap(before[i], before[j]));
            } else {
                assert(all[i] == before[i]);
            }
        }
    }
}

/// References that lie one behind the other are all distinct.
proof fn distinct_keeps_what_is_in_order(found: Seq<PathView>, from: int, to: int)
    requires
        lie_in_order(found, from, to),
    ensures
        distinct(found) == found,
    decreases found.len(),
{
    if found.len() > 0 {
        let front = found.drop_last();
        let last = found.len() - 1;
        assert forall|i: int| 0 <= i < front.len() implies (#[trigger] front[i]).start_pos is Some
            && front[i].end_pos is Some && from <= front[i].start_pos->0 <= front[i].end_pos->0 <= to by {
            assert(found[i].start_pos is Some);
        }
        assert forall|i: int, j: int| 0 <= i < j < front.len() implies (#[trigger] front[i]).end_pos->0 <= (
        #[trigger] front[j]).start_pos->0 by {
            assert(found[i].end_pos->0 <= found[j].start_pos->0);
        }
        distinct_keeps_what_is_in_order(front, from, to);
        assert(!overlaps_some(front, found.last())) by {
            assert forall|k: int| 0 <= k < front.len() implies !overlap(#[trigger] front[k], found.last()) by {
                assert(found[k].end_pos->0 <= found[last].start_pos->0);
            }
        }
        assert(front.push(found.last()) =~= found);
    }
}

/// The file that references are looked for in.
pub open spec fn source_of(source: Seq<char>, current_file: Seq<char>, segment: Seq<char>) -> Source {
    Source { bytes: encode_utf8(source), file: current_file, segment }
}

// ---------------------------------------------------------------------------------------------
// Finding them.

fn collect_assignments<'t>(context: &Context, node: &'t Tree, out: &mut Vec<Assignment<'t>>)
    ensures
        all_assigned(final(out)@) == all_assigned(old(out)@) + assignments_in(context.source(), node.syntax()),
    decreases node,
{
    let ghost source = context.source();
    let ghost before = all_assigned(out@);
    let n = arity(node);
    if is_kind(node, "Assignment") && n == 3 && same(&source_text(context, child(node, 1)), "=") {
        let value = unparenthesized_of(child(node, 2));
        if path_kind_of(context, value).is_some() {
            if let Some(name) = variable_name_of(context, child(node, 0)) {
                out.push(Assignment { name, start: node.start, value });
                assert(all_assigned(out@) =~= before.push(own_assignment(source, node.syntax())->0));
            }
        }
    }
    let ghost own = match own_assignment(source, node.syntax()) {
        Some(own) => seq![own],
        None => Seq::<Assigned>::empty(),
    };
    assert(all_assigned(out@) =~= before + own);
    let mut i: usize = 0;
    while i < n
        invariant
            i <= n,
            n == node.children.len(),
            n == node.syntax().children.len(),
            source == context.source(),
            all_assigned(out@) == before + own + assignments_below(source, node.syntax(), i as nat),
        decreases n - i,
    {
        let ghost earlier = all_assigned(out@);
        let c = child(node, i);
        collect_assignments(context, c, out);
        assert(all_assigned(out@) =~= before + own + assignments_below(source, node.syntax(), (i + 1) as nat));
        i += 1;
    }
    assert(before + own + assignments_below(source, node.syntax(), n as nat) =~= before + assignments_in(
        source,
        node.syntax(),
    ));
}

fn trace<'t>(assignments: &Vec<Assignment<'t>>, name: &str, position: usize) -> (r: Option<&'t Tree>)
    ensures
        match r {
            Some(value) => traced(all_assigned(assignments@), name@, position) == Some(value.syntax()),
            None => traced(all_assigned(assignments@), name@, position) is None,
        },
{
    let ghost all = all_assigned(assignments@);
    let mut n: usize = assignments.len();
    assert(all.take(n as int) =~= all);
    while n > 0
        invariant
            n <= assignments.len(),
            all == all_assigned(assignments@),
            traced(all.take(n as int), name@, position) == traced(all, name@, position),
        decreases n,
    {
        let last = &assignments[n - 1];
        assert(all.take(n as int).last() == last.assigned());
        assert(all.take(n as int).drop_last() =~= all.take(n - 1));
        if same(&last.name, name) && last.start < position {
            return Some(last.value);
        }
        n -= 1;
    }
    None
}

fn next_line(line: u32) -> (r: u32)
    ensures
        r == one_based(line),
{
    if line < u32::MAX {
        line + 1
    } else {
        line
    }
}

fn construct_name_of(node: &Tree) -> (r: Option<&'static str>)
    ensures
        match r {
            Some(name) => construct_name(node.syntax()) == Some(name@),
            None => construct_name(node.syntax()) is None,
        },
{
    if arity(node) != 2 {
        None
    } else if is_kind(node, "IncludeConstruct") {
        Some("include")
    } else if is_kind(node, "IncludeOnceConstruct") {
        Some("include_once")
    } else if is_kind(node, "RequireConstruct") {
        Some("require")
    } else if is_kind(node, "RequireOnceConstruct") {
        Some("require_once")
    } else {
        None
    }
}

fn static_call_name_of(context: &Context, class: &Tree, method: &Tree) -> (r: Option<String>)
    ensures
        same_text(r, static_call_name(context.source(), class.syntax(), method.syntax())),
{
    let class_name = if is_kind(inner_of(class), "Keyword") {
        Some(source_text(context, inner_of(class)))
    } else {
        plain_name_of(context, class)
    };
    match (class_name, member_name_of(context, method)) {
        (Some(class), Some(method)) => Some(concat3(&class, "::", &method)),
        (None, Some(method)) => Some(method),
        (_, None) => None,
    }
}

fn copy_name(name: &Option<String>) -> (r: Option<String>)
    ensures
        text_of(r) == text_of(*name),
{
    match name {
        Some(name) => Some(copy(name)),
        None => None,
    }
}

fn child_parent_of(context: &Context, node: &Tree, i: usize, parent: &Option<String>) -> (r: Option<String>)
    ensures
        text_of(r) == child_parent(
            context.source(),
            node.syntax(),
            i as int,
            text_of(*parent),
        ),
{
    if let Some(name) = construct_name_of(node) {
        return if i == 1 {
            Some(copy(name))
        } else {
            None
        };
    }
    let n = arity(node);
    if is_kind(node, "FunctionCall") && n == 2 && i == 1 {
        plain_name_of(context, child(node, 0))
    } else if is_kind(node, "MethodCall") && n == 3 && i == 2 {
        member_name_of(context, child(node, 1))
    } else if is_kind(node, "StaticMethodCall") && n == 3 && i == 2 {
        static_call_name_of(context, child(node, 0), child(node, 1))
    } else if is_kind(node, "ArgumentList") || is_kind(node, "Argument") || is_kind(node, "PositionalArgument")
        || is_kind(node, "NamedArgument") || is_kind(node, "Parenthesized") || is_kind(node, "Expression")
        && holds_only(node, "Parenthesized") {
        copy_name(parent)
    } else {
        None
    }
}

fn last_statement_line_of(node: &Tree) -> (r: u32)
    ensures
        r == last_statement_line(node.syntax().children),
{
    let ghost children = node.syntax().children;
    let n = arity(node);
    let mut k: usize = n;
    assert(children.take(k as int) =~= children);
    while k > 0 && !is_kind(child(node, k - 1), "Statement")
        invariant
            k <= n,
            n == node.children.len(),
            n == children.len(),
            children == node.syntax().children,
            last_statement_line(children.take(k as int)) == last_statement_line(children),
        decreases k,
    {
        assert(children.take(k as int).drop_last() =~= children.take(k - 1));
        k -= 1;
    }
    if k > 0 {
        let last = child(node, k - 1);
        assert(children.take(k as int).last() == children[k - 1]);
        assert(last.syntax() == children[k - 1]);
        last.end_line
    } else {
        assert(children.take(0).len() == 0);
        0
    }
}

fn child_scope_of(node: &Tree, i: usize, scope: Option<u32>) -> (r: Option<u32>)
    requires
        i < node.children.len(),
    ensures
        r == child_scope(node.syntax(), i as int, scope),
{
    if is_kind(node, "IfStatementBody") && i == 0 || is_kind(node, "IfStatementBodyElseIfClause") && i == 2 || is_kind(
        node,
        "IfStatementBodyElseClause",
    ) && i == 1 {
        return Some(next_line(child(node, i).end_line));
    }
    if (is_kind(node, "IfColonDelimitedBody") || is_kind(node, "IfColonDelimitedBodyElseIfClause") || is_kind(
        node,
        "IfColonDelimitedBodyElseClause",
    )) && is_kind(child(node, i), "Statement") {
        return Some(next_line(last_statement_line_of(node)));
    }
    scope
}

fn value_result(
    context: &Context,
    value: &Tree,
    real_path: String,
    path: String,
    kind: PathKind,
    name: &str,
    scope: Option<u32>,
) -> (r: PathResult)
    ensures
        forall|rooted: Seq<char>|
            real_path@ == trim_start(rooted, '/') && path@ == glyph_of(context.source().segment, rooted) ==> r@
                == #[trigger] value_reference(context.source(), value.syntax(), rooted, kind, Some(name@), scope),
        is_code_of_its_place(context.source(), r@),
{
    PathResult {
        path,
        real_path,
        kind,
        line: next_line(value.line),
        code: source_text(context, value),
        parent: Some(copy(name)),
        start_pos: Some(value.start),
        end_pos: Some(value.end),
        separator: String::new(),
        mono_path_expr: String::new(),
        scope_end_line: scope,
    }
}

fn bare_reference_of(
    context: &Context,
    assignments: &Vec<Assignment>,
    node: &Tree,
    scope: Option<u32>,
) -> (r: Option<PathResult>)
    ensures
        match r {
            Some(result) => bare_reference(context.source(), all_assigned(assignments@), node.syntax(), scope) == Some(
                result@,
            ),
            None => bare_reference(context.source(), all_assigned(assignments@), node.syntax(), scope) is None,
        },
        r matches Some(result) ==> is_code_of_its_place(context.source(), result@),
{
    let name = match construct_name_of(node) {
        Some(name) => name,
        None => {
            return None;
        },
    };
    let value = unparenthesized_of(child(node, 1));
    if let Some(literal) = string_value_of(context, value) {
        let rooted = PathNotation::normalise(&concat3(&file_dir(context), "/", &literal));
        let real_path = trim_start_of(&rooted, '/');
        let path = context.notation.to_glyph(&rooted);
        return Some(value_result(context, value, real_path, path, PathKind::RequireLiteral, name, scope));
    }
    match variable_name_of(context, value) {
        Some(variable) => match trace(assignments, &variable, value.start) {
            Some(expr) => {
                let (real_path, path) = extract_path(context, expr);
                let r = value_result(context, value, real_path, path, PathKind::TracedVariable, name, scope);
                assert(r@ == value_reference(
                    context.source(),
                    value.syntax(),
                    rooted_path(context.source(), expr.syntax()),
                    PathKind::TracedVariable,
                    Some(name@),
                    scope,
                ));
                Some(r)
            },
            None => None,
        },
        None => None,
    }
}

fn build_result(
    context: &Context,
    expr: &Tree,
    kind: PathKind,
    parent: Option<String>,
    scope: Option<u32>,
) -> (r: PathResult)
    ensures
        r@ == ordinary_reference(
            context.source(),
            expr.syntax(),
            kind,
            text_of(parent),
            scope,
        ),
        is_code_of_its_place(context.source(), r@),
{
    let (real_path, path) = extract_path(context, expr);
    PathResult {
        path,
        real_path,
        kind,
        line: next_line(expr.line),
        code: source_text(context, expr),
        parent,
        start_pos: Some(expr.start),
        end_pos: Some(expr.end),
        separator: extract_separator(context, expr),
        mono_path_expr: extract_mono_path_expr(context, expr),
        scope_end_line: scope,
    }
}

fn walk(
    context: &Context,
    assignments: &Vec<Assignment>,
    node: &Tree,
    parent: Option<String>,
    scope: Option<u32>,
    out: &mut Vec<PathResult>,
)
    ensures
        path_views(final(out)@) == path_views(old(out)@) + references_in(
            context.source(),
            all_assigned(assignments@),
            node.syntax(),
            text_of(parent),
            scope,
        ),
        all_code_in_place(context.source(), path_views(old(out)@)) ==> all_code_in_place(
            context.source(),
            path_views(final(out)@),
        ),
    decreases node, 1nat,
{
    let ghost before = path_views(out@);
    if is_kind(node, "Expression") {
        if let Some(kind) = path_kind_of(context, node) {
            let result = build_result(context, node, kind, parent, scope);
            out.push(result);
            assert(path_views(out@) =~= before + seq![result@]);
            return ;
        }
    }
    if let Some(result) = bare_reference_of(context, assignments, node, scope) {
        out.push(result);
        assert(path_views(out@) =~= before + seq![result@]);
        return ;
    }
    walk_children(context, assignments, node, parent, scope, out);
}

fn walk_children(
    context: &Context,
    assignments: &Vec<Assignment>,
    node: &Tree,
    parent: Option<String>,
    scope: Option<u32>,
    out: &mut Vec<PathResult>,
)
    ensures
        path_views(final(out)@) == path_views(old(out)@) + references_below(
            context.source(),
            all_assigned(assignments@),
            node.syntax(),
            node.syntax().children.len(),
            text_of(parent),
            scope,
        ),
        all_code_in_place(context.source(), path_views(old(out)@)) ==> all_code_in_place(
            context.source(),
            path_views(final(out)@),
        ),
    decreases node, 0nat,
{
    let ghost before = path_views(out@);
    let ghost source = context.source();
    let ghost assigned = all_assigned(assignments@);
    let ghost name = text_of(parent);
    let n = arity(node);
    let mut i: usize = 0;
    assert(path_views(out@) =~= before + references_below(source, assigned, node.syntax(), 0, name, scope));
    while i < n
        invariant
            i <= n,
            n == node.children.len(),
            n == node.syntax().children.len(),
            source == context.source(),
            assigned == all_assigned(assignments@),
            name == text_of(parent),
            path_views(out@) == before + references_below(source, assigned, node.syntax(), i as nat, name, scope),
            all_code_in_place(source, before) ==> all_code_in_place(source, path_views(out@)),
        decreases n - i,
    {
        let ghost earlier = path_views(out@);
        let c = child(node, i);
        if is_kind(node, "Assignment") && i == 0 && path_kind_of(context, c).is_some() {
            walk_children(context, assignments, c, None, scope, out);
        } else {
            walk(
                context,
                assignments,
                c,
                child_parent_of(context, node, i, &parent),
                child_scope_of(node, i, scope),
                out,
            );
        }
        assert(path_views(out@) =~= before + references_below(
            source,
            assigned,
            node.syntax(),
            (i + 1) as nat,
            name,
            scope,
        ));
        i += 1;
    }
}

/// The syntax trees of a PHP source: that of the whole program.
pub fn parse(source: &str) -> (trees: Vec<Tree>)
    ensures
        syntaxes(trees@) == forest(php_nodes(source@)),
{
    trees_of(&parse_php(source))
}

/// Whether the places of two references have something in common.
fn do_overlap(a: &PathResult, b: &PathResult) -> (r: bool)
    requires
        a.start_pos is Some && a.end_pos is Some && b.start_pos is Some && b.end_pos is Some,
    ensures
        r == overlap(a@, b@),
{
    match (a.start_pos, a.end_pos, b.start_pos, b.end_pos) {
        (Some(a_start), Some(a_end), Some(b_start), Some(b_end)) => a_start < b_end && b_start < a_end,
        _ => false,
    }
}

/// Whether the reference at place `n` overlaps one before it.
fn is_overlapped(paths: &Vec<PathResult>, n: usize) -> (r: bool)
    requires
        n < paths.len(),
        forall|k: int| 0 <= k < paths.len() ==> (#[trigger] paths@[k]).start_pos is Some && paths@[k].end_pos is Some,
    ensures
        r == overlaps_some(path_views(paths@).take(n as int), path_views(paths@)[n as int]),
{
    let ghost before = path_views(paths@).take(n as int);
    let ghost own = path_views(paths@)[n as int];
    let mut k: usize = 0;
    while k < n
        invariant
            k <= n < paths.len(),
            before == path_views(paths@).take(n as int),
            own == path_views(paths@)[n as int],
            forall|k: int|
                0 <= k < paths.len() ==> (#[trigger] paths@[k]).start_pos is Some && paths@[k].end_pos is Some,
            forall|j: int| 0 <= j < k ==> !overlap(#[trigger] before[j], own),
        decreases n - k,
    {
        assert(paths@[k as int].start_pos is Some && paths@[n as int].start_pos is Some);
        assert(before[k as int] == paths@[k as int]@);
        if do_overlap(&paths[k], &paths[n]) {
            assert(overlap(before[k as int], own));
            return true;
        }
        k += 1;
    }
    false
}

/// Leaves out the references that overlap one before them.
fn keep_distinct(found: Vec<PathResult>) -> (r: Vec<PathResult>)
    requires
        forall|k: int| 0 <= k < found.len() ==> (#[trigger] found@[k]).start_pos is Some && found@[k].end_pos is Some,
    ensures
        path_views(r@) == distinct(path_views(found@)),
{
    let ghost all = path_views(found@);
    let mut paths = found;
    let ghost mut done: int = 0;
    let mut n: usize = 0;
    assert(path_views(paths@) =~= distinct(all.take(0)) + all.skip(0));
    while n < paths.len()
        invariant
            n <= paths.len(),
            0 <= done <= all.len(),
            n == distinct(all.take(done)).len(),
            path_views(paths@) == distinct(all.take(done)) + all.skip(done),
            forall|k: int|
                0 <= k < paths.len() ==> (#[trigger] paths@[k]).start_pos is Some && paths@[k].end_pos is Some,
        decreases paths.len() - n,
    {
        let ghost kept = distinct(all.take(done));
        let ghost views = path_views(paths@);
        proof {
            assert(views.len() == paths@.len());
            assert(views.len() == kept.len() + all.skip(done).len());
            assert(views.take(n as int) =~= kept);
            assert(views[n as int] == all[done]);
            assert(all.take(done + 1).drop_last() =~= all.take(done));
            assert(all.take(done + 1).last() == all[done]);
        }
        if is_overlapped(&paths, n) {
            let ghost had = paths@;
            paths.remove(n);
            proof {
                assert forall|k: int| 0 <= k < paths@.len() implies (#[trigger] paths@[k]).start_pos is Some
                    && paths@[k].end_pos is Some by {
                    assert(paths@[k] == if k < n {
                        had[k]
                    } else {
                        had[k + 1]
                    });
                }
                assert(path_views(paths@) =~= views.remove(n as int));
                assert(views.remove(n as int) =~= kept + all.skip(done + 1));
            }
        } else {
            assert(kept.push(all[done]) + all.skip(done + 1) =~= views);
            n += 1;
        }
        proof {
            done = done + 1;
        }
    }
    proof {
        assert(path_views(paths@).len() == paths@.len());
        assert(all.skip(done).len() == 0);
        assert(all.take(done) =~= all);
        assert(path_views(paths@) =~= distinct(all));
    }
    paths
}

/// Every internal-path reference in a file, given its syntax trees.
pub fn paths_in(trees: &Vec<Tree>, source: &str, current_file: &str, notation: &PathNotation) -> (r: Vec<PathResult>)
    ensures
        path_views(r@) == references(
            source_of(source@, current_file@, notation.segment()),
            syntaxes(trees@),
        ),
        all_sound(source_of(source@, current_file@, notation.segment()), path_views(r@)),
        all_code_in_place(source_of(source@, current_file@, notation.segment()), path_views(r@)),
        no_overlap(path_views(r@)),
        all_well_nested(syntaxes(trees@)) ==> one_after_another(path_views(r@)),
{
    let context = Context { bytes: source.as_bytes(), file: current_file, notation };
    let ghost file = source_of(source@, current_file@, notation.segment());
    assert(context.source() == file);
    let ghost all = syntaxes(trees@);
    let mut assignments: Vec<Assignment> = Vec::new();
    let mut i: usize = 0;
    assert(all_assigned(assignments@) =~= assignments_among(file, all.take(0)));
    while i < trees.len()
        invariant
            i <= trees.len(),
            context.source() == file,
            all == syntaxes(trees@),
            all_assigned(assignments@) == assignments_among(file, all.take(i as int)),
        decreases trees.len() - i,
    {
        assert(all.take(i + 1).drop_last() =~= all.take(i as int));
        collect_assignments(&context, &trees[i], &mut assignments);
        i += 1;
    }
    assert(all.take(i as int) =~= all);
    let ghost assigned = all_assigned(assignments@);
    let mut paths: Vec<PathResult> = Vec::new();
    let mut k: usize = 0;
    assert(path_views(paths@) =~= references_among(file, assigned, all.take(0)));
    while k < trees.len()
        invariant
            k <= trees.len(),
            context.source() == file,
            all == syntaxes(trees@),
            assigned == all_assigned(assignments@),
            path_views(paths@) == references_among(file, assigned, all.take(k as int)),
            all_code_in_place(file, path_views(paths@)),
        decreases trees.len() - k,
    {
        assert(all.take(k + 1).drop_last() =~= all.take(k as int));
        walk(&context, &assignments, &trees[k], None, None, &mut paths);
        k += 1;
    }
    assert(all.take(k as int) =~= all);
    let ghost found = path_views(paths@);
    proof {
        distinct_facts(found);
        references_are_sound(file, all);
        if all_well_nested(all) {
            references_lie_one_after_another(file, all);
        }
        assert forall|k: int| 0 <= k < paths@.len() implies (#[trigger] paths@[k]).start_pos is Some
            && paths@[k].end_pos is Some by {
            assert(is_code_of_its_place(file, found[k]));
        }
        assert forall|i: int| 0 <= i < distinct(found).len() implies is_code_of_its_place(
            file,
            #[trigger] distinct(found)[i],
        ) by {
            let k = choose|k: int| 0 <= k < found.len() && found[k] == distinct(found)[i];
            assert(is_code_of_its_place(file, found[k]));
        }
    }
    keep_distinct(paths)
}

/// Parses `source` (a full PHP file, with its `<?php` tag) and returns every internal-path
/// reference found in it. `current_file` is the path of the file relative to the repository
/// root, used to resolve `__DIR__`/`__FILE__`/`dirname(...)`.
///
/// The glyph path of each reference stands for its real path, its code is the text of its place, and no
/// two references overlap. They come in the order of their places wherever the nodes of the syntax tree
/// nest, which [`is_well_nested`] tells of what [`parse`] returns.
pub fn find_paths(source: &str, current_file: &str, notation: &PathNotation) -> (r: Vec<PathResult>)
    ensures
        path_views(r@) == references(
            source_of(source@, current_file@, notation.segment()),
            forest(php_nodes(source@)),
        ),
        all_sound(source_of(source@, current_file@, notation.segment()), path_views(r@)),
        all_code_in_place(source_of(source@, current_file@, notation.segment()), path_views(r@)),
        no_overlap(path_views(r@)),
        all_well_nested(forest(php_nodes(source@))) ==> one_after_another(path_views(r@)),
{
    paths_in(&parse(source), source, current_file, notation)
}

// ---------------------------------------------------------------------------------------------
// What holds of every reference.

/// Whether a construct name is that of a require or include.
pub open spec fn is_construct_name(name: Option<Seq<char>>) -> bool {
    ||| name == Some("include"@)
    ||| name == Some("include_once"@)
    ||| name == Some("require"@)
    ||| name == Some("require_once"@)
}

/// What holds of every reference: its glyph path stands for its real path; a bare literal or
/// variable is the value of a require or include; and only a path rooted at $CFG->dirroot has an
/// expression for what follows it.
pub open spec fn sound_reference(source: Source, reference: PathView) -> bool {
    &&& reference.real_path == repo_path_of(source.segment, reference.path)
    &&& reference.kind == PathKind::RequireLiteral || reference.kind == PathKind::TracedVariable
        ==> is_construct_name(reference.parent)
    &&& reference.mono_path_expr.len() > 0 ==> reference.kind == PathKind::Dirroot
}

/// Whether all of some references are sound.
pub open spec fn all_sound(source: Source, references: Seq<PathView>) -> bool {
    forall|i: int| 0 <= i < references.len() ==> sound_reference(source, #[trigger] references[i])
}

/// The first operand of a concatenation is its leftmost one.
proof fn first_operand_is_leftmost(source: Source, expr: Syntax)
    ensures
        operands(source, expr).len() > 0,
        operands(source, expr)[0] == leftmost(source, expr),
    decreases expr,
{
    if let Some((lhs, rhs)) = concat_sides(source, expr) {
        first_operand_is_leftmost(source, lhs);
    }
}

proof fn ordinary_reference_is_sound(
    source: Source,
    expr: Syntax,
    parent: Option<Seq<char>>,
    scope: Option<u32>,
)
    requires
        path_kind(source, expr) is Some,
    ensures
        sound_reference(source, ordinary_reference(source, expr, path_kind(source, expr)->0, parent, scope)),
{
    repo_path_undoes_glyph(source.segment, rooted_path(source, expr));
    reveal_strlit("Access");
    reveal_strlit("CompositeString");
    reveal_strlit("MagicConstant");
    reveal_strlit("Call");
    assert("Access"@.len() == 6 && "CompositeString"@.len() == 15 && "MagicConstant"@.len() == 13 && "Call"@.len() == 4);
    first_operand_is_leftmost(source, expr);
}

proof fn references_in_are_sound(
    source: Source,
    assigned: Seq<Assigned>,
    node: Syntax,
    parent: Option<Seq<char>>,
    scope: Option<u32>,
)
    ensures
        all_sound(source, references_in(source, assigned, node, parent, scope)),
    decreases node, node.children.len() + 1,
{
    if node.kind == "Expression"@ && path_kind(source, node) is Some {
        ordinary_reference_is_sound(source, node, parent, scope);
    } else if bare_reference(source, assigned, node, scope) is Some {
        let value = unparenthesized(node.children[1]);
        if let Some(literal) = string_value(source, value) {
            repo_path_undoes_glyph(
                source.segment,
                normalised(rooted_dir(dirname(source.file)) + "/"@ + literal),
            );
        } else {
            let variable = variable_name(source, value)->0;
            repo_path_undoes_glyph(
                source.segment,
                rooted_path(source, traced(assigned, variable, value.start)->0),
            );
        }
    } else {
        references_below_are_sound(source, assigned, node, node.children.len(), parent, scope);
    }
}

proof fn references_below_are_sound(
    source: Source,
    assigned: Seq<Assigned>,
    node: Syntax,
    n: nat,
    parent: Option<Seq<char>>,
    scope: Option<u32>,
)
    ensures
        all_sound(source, references_below(source, assigned, node, n, parent, scope)),
    decreases node, n,
{
    if n > 0 && n <= node.children.len() {
        let i = n - 1;
        let child = node.children[i];
        references_below_are_sound(source, assigned, node, i as nat, parent, scope);
        if node.kind == "Assignment"@ && i == 0 && path_kind(source, child) is Some {
            references_below_are_sound(source, assigned, child, child.children.len(), None, scope);
        } else {
            references_in_are_sound(
                source,
                assigned,
                child,
                child_parent(source, node, i, parent),
                child_scope(node, i, scope),
            );
        }
    }
}

proof fn references_among_are_sound(source: Source, assigned: Seq<Assigned>, trees: Seq<Syntax>)
    ensures
        all_sound(source, references_among(source, assigned, trees)),
    decreases trees.len(),
{
    if trees.len() > 0 {
        references_among_are_sound(source, assigned, trees.drop_last());
        references_in_are_sound(source, assigned, trees.last(), None, None);
    }
}

/// Of every reference found in a file, whatever its syntax: the glyph path stands for the real
/// path; a bare literal or variable is the value of a require or include; and only a path rooted at
/// $CFG->dirroot has an expression for what follows $CFG->dirroot.
pub proof fn references_are_sound(source: Source, trees: Seq<Syntax>)
    ensures
        all_sound(source, references(source, trees)),
{
    let found = references_among(source, assignments_among(source, trees), trees);
    references_among_are_sound(source, assignments_among(source, trees), trees);
    distinct_facts(found);
    assert forall|i: int| 0 <= i < distinct(found).len() implies sound_reference(
        source,
        #[trigger] distinct(found)[i],
    ) by {
        let k = choose|k: int| 0 <= k < found.len() && found[k] == distinct(found)[i];
        assert(sound_reference(source, found[k]));
    }
}

/// No two references in a file overlap, whatever its syntax.
pub proof fn references_are_distinct(source: Source, trees: Seq<Syntax>)
    ensures
        no_overlap(references(source, trees)),
{
    distinct_facts(references_among(source, assignments_among(source, trees), trees));
}

/// The left-hand side of an assignment is never recorded as a reference itself: what is found in
/// `$CFG->dirroot = value`, or in any assignment to a path expression, is what is found below the
/// left-hand side, and then in the operator and the right-hand side.
pub proof fn assignment_target_is_no_reference(
    source: Source,
    assigned: Seq<Assigned>,
    node: Syntax,
    parent: Option<Seq<char>>,
    scope: Option<u32>,
)
    requires
        node.kind == "Assignment"@,
        node.children.len() == 3,
        path_kind(source, node.children[0]) is Some,
    ensures
        references_in(source, assigned, node, parent, scope) == references_below(
            source,
            assigned,
            node.children[0],
            node.children[0].children.len(),
            None,
            scope,
        ) + references_in(source, assigned, node.children[1], None, scope) + references_in(
            source,
            assigned,
            node.children[2],
            None,
            scope,
        ),
{
    reveal_with_fuel(references_below, 4);
    reveal_strlit("Assignment");
    reveal_strlit("Expression");
    reveal_strlit("IncludeConstruct");
    reveal_strlit("IncludeOnceConstruct");
    reveal_strlit("RequireConstruct");
    reveal_strlit("RequireOnceConstruct");
    reveal_strlit("FunctionCall");
    reveal_strlit("MethodCall");
    reveal_strlit("StaticMethodCall");
    reveal_strlit("ArgumentList");
    reveal_strlit("Argument");
    reveal_strlit("PositionalArgument");
    reveal_strlit("NamedArgument");
    reveal_strlit("Parenthesized");
    reveal_strlit("IfStatementBody");
    reveal_strlit("IfStatementBodyElseIfClause");
    reveal_strlit("IfStatementBodyElseClause");
    reveal_strlit("IfColonDelimitedBody");
    reveal_strlit("IfColonDelimitedBodyElseIfClause");
    reveal_strlit("IfColonDelimitedBodyElseClause");
    assert("Assignment"@.len() == 10);
    assert("Assignment"@[0] == 'A');
    assert("Expression"@[0] == 'E');
    assert("MethodCall"@[0] == 'M');
    assert("StaticMethodCall"@.len() == 16 && "Argument"@.len() == 8 && "ArgumentList"@.len() == 12);
    assert("FunctionCall"@.len() == 12 && "NamedArgument"@.len() == 13 && "Parenthesized"@.len() == 13);
    assert("PositionalArgument"@.len() == 18);
    assert("IfStatementBody"@.len() == 15 && "IfStatementBodyElseIfClause"@.len() == 27);
    assert("IfStatementBodyElseClause"@.len() == 25 && "IfColonDelimitedBody"@.len() == 20);
    assert("IfColonDelimitedBodyElseIfClause"@.len() == 32 && "IfColonDelimitedBodyElseClause"@.len() == 30);
    assert(construct_name(node) is None);
    assert(bare_reference(source, assigned, node, scope) is None);
    let lhs = node.children[0];
    let below = references_below(source, assigned, lhs, lhs.children.len(), None, scope);
    assert(references_below(source, assigned, node, 0, parent, scope) =~= Seq::<PathView>::empty());
    assert(references_below(source, assigned, node, 1, parent, scope) =~= below);
    assert(child_parent(source, node, 1, parent) is None && child_parent(source, node, 2, parent) is None);
    assert(child_scope(node, 1, scope) == scope && child_scope(node, 2, scope) == scope);
    assert(references_below(source, assigned, node, 2, parent, scope) =~= below + references_in(
        source,
        assigned,
        node.children[1],
        None,
        scope,
    ));
    assert(references_below(source, assigned, node, 3, parent, scope) =~= references_below(
        source,
        assigned,
        node,
        2,
        parent,
        scope,
    ) + references_in(source, assigned, node.children[2], None, scope));
}

/// Whether the first `n` children of a node lie within it, one behind the other, and so do theirs.
pub open spec fn nested_below(node: Syntax, n: nat) -> bool
    decreases node, n,
{
    n > 0 && n <= node.children.len() ==> {
        let child = node.children[n - 1];
        &&& nested_below(node, (n - 1) as nat)
        &&& nested_below(child, child.children.len())
        &&& node.start <= child.start <= child.end <= node.end
        &&& n > 1 ==> node.children[n - 2].end <= child.start
    }
}

/// Whether the nodes of a tree lie within those that they are part of, one behind the other.
pub open spec fn well_nested(node: Syntax) -> bool {
    node.start <= node.end && nested_below(node, node.children.len())
}

/// Whether some references lie between two offsets, each behind the one before it.
pub open spec fn lie_in_order(references: Seq<PathView>, from: int, to: int) -> bool {
    &&& from <= to
    &&& forall|i: int|
        0 <= i < references.len() ==> {
            &&& (#[trigger] references[i]).start_pos is Some && references[i].end_pos is Some
            &&& from <= references[i].start_pos->0 <= references[i].end_pos->0 <= to
        }
    &&& forall|i: int, j: int|
        0 <= i < j < references.len() ==> (#[trigger] references[i]).end_pos->0 <= (
        #[trigger] references[j]).start_pos->0
}

/// Whether the nodes of each of some trees nest, and each tree lies behind the one before it.
pub open spec fn all_well_nested(trees: Seq<Syntax>) -> bool {
    &&& forall|i: int| 0 <= i < trees.len() ==> well_nested(#[trigger] trees[i])
    &&& forall|i: int| 0 < i < trees.len() ==> trees[i - 1].end <= (#[trigger] trees[i]).start
}

/// Whether each of some references ends before all those behind it start.
pub open spec fn one_after_another(references: Seq<PathView>) -> bool {
    forall|i: int, j: int|
        0 <= i < j < references.len() ==> {
            &&& (#[trigger] references[i]).end_pos is Some && (#[trigger] references[j]).start_pos is Some
            &&& references[i].end_pos->0 <= references[j].start_pos->0
        }
}

proof fn lie_in_order_of_both(a: Seq<PathView>, b: Seq<PathView>, from: int, middle: int, to: int)
    requires
        lie_in_order(a, from, middle),
        lie_in_order(b, middle, to),
    ensures
        lie_in_order(a + b, from, to),
{
    let both = a + b;
    assert forall|i: int| 0 <= i < both.len() implies (#[trigger] both[i]).start_pos is Some && both[i].end_pos is Some
        && from <= both[i].start_pos->0 <= both[i].end_pos->0 <= to by {
        if i < a.len() {
            assert(both[i] == a[i]);
        } else {
            assert(both[i] == b[i - a.len()]);
        }
    }
    assert forall|i: int, j: int| 0 <= i < j < both.len() implies (#[trigger] both[i]).end_pos->0 <= (
    #[trigger] both[j]).start_pos->0 by {
        if j < a.len() {
            assert(both[i] == a[i] && both[j] == a[j]);
        } else if i >= a.len() {
            assert(both[i] == b[i - a.len()] && both[j] == b[j - a.len()]);
        } else {
            assert(both[i] == a[i] && both[j] == b[j - a.len()]);
        }
    }
}

proof fn lie_in_order_in_more(references: Seq<PathView>, from: int, to: int, from_more: int, to_more: int)
    requires
        lie_in_order(references, from, to),
        from_more <= from,
        to <= to_more,
    ensures
        lie_in_order(references, from_more, to_more),
{
    assert forall|i: int| 0 <= i < references.len() implies from_more <= (#[trigger] references[i]).start_pos->0
        && references[i].end_pos->0 <= to_more by {}
}

/// The children of a nested node lie within it and are nested.
proof fn nested_children(node: Syntax, n: nat, i: int)
    requires
        nested_below(node, n),
        n <= node.children.len(),
        0 <= i < n,
    ensures
        well_nested(node.children[i]),
        node.start <= node.children[i].start,
        node.children[i].end <= node.end,
    decreases n,
{
    if i < n - 1 {
        nested_children(node, (n - 1) as nat, i);
    }
}

/// What stands inside parentheses lies within them.
proof fn unparenthesized_lies_within(expr: Syntax)
    requires
        well_nested(expr),
    ensures
        expr.start <= unparenthesized(expr).start <= unparenthesized(expr).end <= expr.end,
    decreases expr,
{
    let outer = inner(expr);
    if expr.kind == "Expression"@ && expr.children.len() == 1 {
        nested_children(expr, expr.children.len(), 0);
    }
    if outer.kind == "Parenthesized"@ && holds(outer, "Expression"@) {
        nested_children(outer, outer.children.len(), 0);
        unparenthesized_lies_within(outer.children[0]);
    }
}

proof fn references_in_are_in_order(
    source: Source,
    assigned: Seq<Assigned>,
    node: Syntax,
    parent: Option<Seq<char>>,
    scope: Option<u32>,
)
    requires
        well_nested(node),
    ensures
        lie_in_order(references_in(source, assigned, node, parent, scope), node.start as int, node.end as int),
    decreases node, node.children.len() + 1,
{
    if node.kind == "Expression"@ && path_kind(source, node) is Some {
    } else if bare_reference(source, assigned, node, scope) is Some {
        nested_children(node, node.children.len(), 1);
        unparenthesized_lies_within(node.children[1]);
    } else {
        references_below_are_in_order(source, assigned, node, node.children.len(), parent, scope);
        if node.children.len() > 0 {
            nested_children(node, node.children.len(), node.children.len() - 1);
        }
        let end = end_of_children(node, node.children.len());
        lie_in_order_in_more(
            references_below(source, assigned, node, node.children.len(), parent, scope),
            node.start as int,
            end,
            node.start as int,
            node.end as int,
        );
    }
}

/// Where the first `n` children of a node end.
spec fn end_of_children(node: Syntax, n: nat) -> int {
    if n == 0 || n > node.children.len() {
        node.start as int
    } else {
        node.children[n - 1].end as int
    }
}

proof fn references_below_are_in_order(
    source: Source,
    assigned: Seq<Assigned>,
    node: Syntax,
    n: nat,
    parent: Option<Seq<char>>,
    scope: Option<u32>,
)
    requires
        nested_below(node, n),
        n <= node.children.len(),
    ensures
        lie_in_order(
            references_below(source, assigned, node, n, parent, scope),
            node.start as int,
            end_of_children(node, n),
        ),
    decreases node, n,
{
    if n > 0 {
        let i = n - 1;
        let child = node.children[i];
        nested_children(node, n, i);
        references_below_are_in_order(source, assigned, node, i as nat, parent, scope);
        let before = references_below(source, assigned, node, i as nat, parent, scope);
        let so_far = end_of_children(node, i as nat);
        let own = if node.kind == "Assignment"@ && i == 0 && path_kind(source, child) is Some {
            references_below_are_in_order(source, assigned, child, child.children.len(), None, scope);
            if child.children.len() > 0 {
                nested_children(child, child.children.len(), child.children.len() - 1);
            }
            let found = references_below(source, assigned, child, child.children.len(), None, scope);
            lie_in_order_in_more(
                found,
                child.start as int,
                end_of_children(child, child.children.len()),
                child.start as int,
                child.end as int,
            );
            found
        } else {
            let child_parent = child_parent(source, node, i, parent);
            let child_scope = child_scope(node, i, scope);
            references_in_are_in_order(source, assigned, child, child_parent, child_scope);
            references_in(source, assigned, child, child_parent, child_scope)
        };
        lie_in_order_in_more(own, child.start as int, child.end as int, so_far, child.end as int);
        lie_in_order_of_both(before, own, node.start as int, so_far, child.end as int);
    }
}

/// The references found in a well-nested tree lie one behind the other: no two overlap, because
/// nothing is looked for inside an expression that is itself a reference.
pub proof fn references_do_not_overlap(source: Source, tree: Syntax)
    requires
        well_nested(tree),
    ensures
        lie_in_order(references(source, seq![tree]), tree.start as int, tree.end as int),
{
    let trees = seq![tree];
    let assigned = assignments_among(source, trees);
    references_in_are_in_order(source, assigned, tree, None, None);
    assert(trees.drop_last() =~= Seq::<Syntax>::empty());
    assert(references_among(source, assigned, trees.drop_last()) =~= Seq::<PathView>::empty());
    let found = references_among(source, assigned, trees);
    assert(found =~= references_in(source, assigned, tree, None, None));
    distinct_keeps_what_is_in_order(found, tree.start as int, tree.end as int);
}

proof fn references_among_are_in_order(source: Source, assigned: Seq<Assigned>, trees: Seq<Syntax>)
    requires
        all_well_nested(trees),
        trees.len() > 0,
    ensures
        trees[0].start <= trees.last().end,
        lie_in_order(
            references_among(source, assigned, trees),
            trees[0].start as int,
            trees.last().end as int,
        ),
    decreases trees.len(),
{
    let last = trees.last();
    let own = references_in(source, assigned, last, None, None);
    assert(well_nested(trees[trees.len() - 1]));
    references_in_are_in_order(source, assigned, last, None, None);
    if trees.len() == 1 {
        assert(references_among(source, assigned, trees.drop_last()) =~= Seq::<PathView>::empty());
        assert(references_among(source, assigned, trees) =~= own);
    } else {
        let rest = trees.drop_last();
        assert forall|i: int| 0 <= i < rest.len() implies well_nested(#[trigger] rest[i]) by {
            assert(well_nested(trees[i]));
        }
        assert forall|i: int| 0 < i < rest.len() implies rest[i - 1].end <= (#[trigger] rest[i]).start by {
            assert(trees[i - 1].end <= trees[i].start);
        }
        references_among_are_in_order(source, assigned, rest);
        assert(trees[trees.len() - 2].end <= trees[trees.len() - 1].start);
        let before = references_among(source, assigned, rest);
        lie_in_order_in_more(own, last.start as int, last.end as int, rest.last().end as int, last.end as int);
        lie_in_order_of_both(before, own, trees[0].start as int, rest.last().end as int, last.end as int);
    }
}

/// The references found in well-nested trees lie one after another, so that each of them is distinct.
pub proof fn references_lie_one_after_another(source: Source, trees: Seq<Syntax>)
    requires
        all_well_nested(trees),
    ensures
        one_after_another(references(source, trees)),
        references(source, trees) == references_among(source, assignments_among(source, trees), trees),
{
    if trees.len() > 0 {
        let found = references_among(source, assignments_among(source, trees), trees);
        references_among_are_in_order(source, assignments_among(source, trees), trees);
        distinct_keeps_what_is_in_order(found, trees[0].start as int, trees.last().end as int);
    }
}

/// Children that nest do so up to each of them.
proof fn nested_up_to(node: Syntax, n: nat, k: nat)
    requires
        nested_below(node, n),
        k <= n <= node.children.len(),
    ensures
        nested_below(node, k),
    decreases n,
{
    if k < n {
        nested_up_to(node, (n - 1) as nat, k);
    }
}

/// Whether the children of a node lie within it, one behind the other, and so do theirs.
fn children_are_nested(node: &Tree) -> (r: bool)
    ensures
        r == nested_below(node.syntax(), node.syntax().children.len()),
    decreases node,
{
    let n = arity(node);
    let ghost all = node.syntax();
    let mut i: usize = 0;
    while i < n
        invariant
            i <= n,
            n == node.children.len(),
            n == all.children.len(),
            all == node.syntax(),
            nested_below(all, i as nat),
        decreases n - i,
    {
        let c = child(node, i);
        let behind = i == 0 || child(node, i - 1).end <= c.start;
        if !(node.start <= c.start && c.start <= c.end && c.end <= node.end && behind && children_are_nested(c)) {
            proof {
                assert(!nested_below(all, (i + 1) as nat));
                if nested_below(all, n as nat) {
                    nested_up_to(all, n as nat, (i + 1) as nat);
                }
            }
            return false;
        }
        i += 1;
    }
    true
}

/// Whether the nodes of each of some trees lie within those that they are part of, one behind the other,
/// and each tree lies behind the one before it.
pub fn is_well_nested(trees: &Vec<Tree>) -> (r: bool)
    ensures
        r == all_well_nested(syntaxes(trees@)),
{
    let ghost all = syntaxes(trees@);
    let mut i: usize = 0;
    while i < trees.len()
        invariant
            i <= trees.len(),
            all == syntaxes(trees@),
            forall|k: int| 0 <= k < i ==> well_nested(#[trigger] all[k]),
            forall|k: int| 0 < k < i ==> all[k - 1].end <= (#[trigger] all[k]).start,
        decreases trees.len() - i,
    {
        let tree = &trees[i];
        assert(all[i as int] == tree.syntax());
        if i > 0 {
            assert(all[i - 1] == trees@[i - 1].syntax());
        }
        let behind = i == 0 || trees[i - 1].end <= tree.start;
        if !(tree.start <= tree.end && behind && children_are_nested(tree)) {
            assert(!all_well_nested(all)) by {
                if all_well_nested(all) {
                    assert(well_nested(all[i as int]));
                }
            }
            return false;
        }
        i += 1;
    }
    true
}

} // verus!
