//! Where references are found, and what is recorded of each.

use vstd::prelude::*;

use crate::path_finder::expression::Source;
use crate::path_finder::expression::cfg_kind;
use crate::path_finder::expression::code_of;
use crate::path_finder::expression::concat_sides;
use crate::path_finder::expression::dirname;
use crate::path_finder::expression::interpolated;
use crate::path_finder::expression::interpolated_text;
use crate::path_finder::expression::meaningful_parts;
use crate::path_finder::expression::mono_path;
use crate::path_finder::expression::operands;
use crate::path_finder::expression::part_code;
use crate::path_finder::expression::part_expr;
use crate::path_finder::expression::path_kind;
use crate::path_finder::expression::rooted_path;
use crate::path_finder::expression::segment;
use crate::path_finder::expression::separator;
use crate::path_finder::expression::single_quoted;
use crate::path_finder::expression::unparenthesized;
use crate::path_finder::finder::Assigned;
use crate::path_finder::finder::assignments_among;
use crate::path_finder::finder::assignments_below;
use crate::path_finder::finder::assignments_in;
use crate::path_finder::finder::bare_reference;
use crate::path_finder::finder::child_parent;
use crate::path_finder::finder::child_scope;
use crate::path_finder::finder::distinct;
use crate::path_finder::finder::last_statement_line;
use crate::path_finder::finder::nested_below;
use crate::path_finder::finder::overlap;
use crate::path_finder::finder::own_assignment;
use crate::path_finder::finder::references_among;
use crate::path_finder::finder::references_below;
use crate::path_finder::finder::references_in;
use crate::path_finder::finder::traced;
use crate::path_finder::finder::well_nested;
use crate::path_finder::laws::is_call;
use crate::path_finder::laws::is_cfg;
use crate::path_finder::laws::is_concat;
use crate::path_finder::laws::is_constant;
use crate::path_finder::laws::is_string;
use crate::path_finder::laws::only;
use crate::path_finder::laws::wraps;
use crate::path_finder::literal::unescaped;
use crate::path_finder::notation::glyph_of;
use crate::path_finder::notation::normalised;
use crate::path_finder::result::PathKind;
use crate::path_finder::result::PathView;
use crate::path_finder::syntax::Syntax;
use crate::path_finder::syntax::literal_value;
use crate::path_finder::syntax::utf8_lossy;
use crate::text::trim_start;

verus! {

// ---------------------------------------------------------------------------------------------
// Strings with interpolation.

/// Whether `expr` is a double-quoted string with the parts of `string`.
pub open spec fn is_interpolated(expr: Syntax, string: Syntax) -> bool {
    wraps(expr, "CompositeString"@) && only(expr.children[0], "InterpolatedString"@) && expr.children[0].children[0]
        == string
}

/// A double-quoted string contributes what its parts do, one behind the other: an interpolated expression,
/// in braces or not, what that contributes, and literal text its value.
pub proof fn strings_contribute_their_parts(source: Source, expr: Syntax, string: Syntax, n: int, value: Seq<char>)
    requires
        is_interpolated(expr, string),
        0 <= n < string.children.len(),
    ensures
        segment(source, expr) == interpolated_text(source, string, string.children.len()),
        interpolated_text(source, string, 0) == ""@,
        only(string.children[n], "Expression"@) ==> interpolated_text(source, string, (n + 1) as nat)
            == interpolated_text(source, string, n as nat) + segment(source, string.children[n].children[0]),
        only(string.children[n], "BracedExpressionStringPart"@) && only(
            string.children[n].children[0],
            "Expression"@,
        ) ==> interpolated_text(source, string, (n + 1) as nat) == interpolated_text(source, string, n as nat)
            + segment(source, string.children[n].children[0].children[0]),
        string.children[n].children.len() != 1 && literal_value(
            code_of(source, string.children[n]),
            Some('"'),
            false,
        ) == Some(value) ==> interpolated_text(source, string, (n + 1) as nat) == interpolated_text(
            source,
            string,
            n as nat,
        ) + value,
{
    reveal_strlit("");
    assert(""@ =~= Seq::<char>::empty());
    reveal_strlit("CompositeString");
    reveal_strlit("Literal");
    reveal_strlit("MagicConstant");
    reveal_strlit("Call");
    reveal_strlit("Access");
    reveal_strlit("Expression");
    reveal_strlit("BracedExpressionStringPart");
    assert("CompositeString"@.len() == 15 && "Literal"@.len() == 7 && "MagicConstant"@.len() == 13);
    assert("Call"@.len() == 4 && "Access"@.len() == 6);
    assert("Expression"@.len() == 10 && "BracedExpressionStringPart"@.len() == 26);
}

// ---------------------------------------------------------------------------------------------
// What is recorded.

/// An expression that is a path is one reference: to the path that it stands for, at its own place and
/// line, with its own code, and with the parent and scope that it is found in. Nothing is looked for inside
/// it.
pub proof fn a_path_expression_is_one_reference(
    source: Source,
    assigned: Seq<Assigned>,
    expr: Syntax,
    parent: Option<Seq<char>>,
    scope: Option<u32>,
)
    requires
        expr.kind == "Expression"@,
        path_kind(source, expr) is Some,
        expr.line < u32::MAX,
    ensures
        ({
            let found = references_in(source, assigned, expr, parent, scope);
            &&& found.len() == 1
            &&& found[0].kind == path_kind(source, expr)->0
            &&& found[0].real_path == trim_start(rooted_path(source, expr), '/')
            &&& found[0].code == code_of(source, expr)
            &&& found[0].line == expr.line + 1
            &&& found[0].start_pos == Some(expr.start)
            &&& found[0].end_pos == Some(expr.end)
            &&& found[0].parent == parent
            &&& found[0].scope_end_line == scope
        }),
{
}

/// The name of a require or include, by the kind of its node.
pub open spec fn construct_of(kind: Seq<char>) -> Option<Seq<char>> {
    if kind == "RequireConstruct"@ {
        Some("require"@)
    } else if kind == "RequireOnceConstruct"@ {
        Some("require_once"@)
    } else if kind == "IncludeConstruct"@ {
        Some("include"@)
    } else if kind == "IncludeOnceConstruct"@ {
        Some("include_once"@)
    } else {
        None
    }
}

proof fn construct_kinds_differ()
    ensures
        "RequireConstruct"@ != "RequireOnceConstruct"@,
        "RequireConstruct"@ != "IncludeConstruct"@,
        "RequireConstruct"@ != "IncludeOnceConstruct"@,
        "RequireOnceConstruct"@ != "IncludeConstruct"@,
        "RequireOnceConstruct"@ != "IncludeOnceConstruct"@,
        "IncludeConstruct"@ != "IncludeOnceConstruct"@,
        "Expression"@ != "RequireConstruct"@,
        "Expression"@ != "RequireOnceConstruct"@,
        "Expression"@ != "IncludeConstruct"@,
        "Expression"@ != "IncludeOnceConstruct"@,
        "Assignment"@ != "RequireConstruct"@,
        "Assignment"@ != "RequireOnceConstruct"@,
        "Assignment"@ != "IncludeConstruct"@,
        "Assignment"@ != "IncludeOnceConstruct"@,
        "Parenthesized"@ != "Literal"@,
        "Parenthesized"@ != "Variable"@,
        "Parenthesized"@ != "Binary"@,
        "Parenthesized"@ != "Access"@,
        "Parenthesized"@ != "CompositeString"@,
        "Literal"@ != "Binary"@,
        "Literal"@ != "Access"@,
        "Literal"@ != "CompositeString"@,
        "Variable"@ != "Binary"@,
        "Variable"@ != "Access"@,
        "Variable"@ != "CompositeString"@,
{
    reveal_strlit("RequireConstruct");
    reveal_strlit("RequireOnceConstruct");
    reveal_strlit("IncludeConstruct");
    reveal_strlit("IncludeOnceConstruct");
    reveal_strlit("Expression");
    reveal_strlit("Assignment");
    reveal_strlit("Parenthesized");
    reveal_strlit("Literal");
    reveal_strlit("Variable");
    reveal_strlit("Binary");
    reveal_strlit("Access");
    reveal_strlit("CompositeString");
    assert("RequireConstruct"@.len() == 16 && "RequireOnceConstruct"@.len() == 20);
    assert("IncludeConstruct"@.len() == 16 && "IncludeOnceConstruct"@.len() == 20);
    assert("RequireConstruct"@[0] == 'R' && "IncludeConstruct"@[0] == 'I');
    assert("RequireOnceConstruct"@[0] == 'R' && "IncludeOnceConstruct"@[0] == 'I');
    assert("Expression"@.len() == 10 && "Assignment"@.len() == 10);
    assert("Parenthesized"@.len() == 13 && "Literal"@.len() == 7 && "Variable"@.len() == 8);
    assert("Binary"@.len() == 6 && "Access"@.len() == 6 && "CompositeString"@.len() == 15);
}

/// A bare string that is the sole value of a require or include is a reference to the path that it stands
/// for, from the directory of the file.
pub proof fn a_required_literal_is_a_reference(
    source: Source,
    assigned: Seq<Assigned>,
    node: Syntax,
    value: Seq<char>,
    parent: Option<Seq<char>>,
    scope: Option<u32>,
)
    requires
        construct_of(node.kind) is Some,
        node.children.len() == 2,
        is_string(source, unparenthesized(node.children[1]), value),
        unparenthesized(node.children[1]).line < u32::MAX,
    ensures
        ({
            let found = references_in(source, assigned, node, parent, scope);
            let dir = dirname(source.file);
            let bare = unparenthesized(node.children[1]);
            &&& found.len() == 1
            &&& found[0].kind == PathKind::RequireLiteral
            &&& found[0].parent == construct_of(node.kind)
            &&& found[0].real_path == trim_start(
                normalised((if dir == "."@ {
                    ""@
                } else {
                    "/"@ + dir
                }) + "/"@ + value),
                '/',
            )
            &&& found[0].code == code_of(source, bare)
            &&& found[0].start_pos == Some(bare.start)
            &&& found[0].end_pos == Some(bare.end)
            &&& found[0].scope_end_line == scope
            &&& found[0].line == bare.line + 1
            &&& found[0].separator == ""@
            &&& found[0].mono_path_expr == ""@
        }),
{
    construct_kinds_differ();
    reveal_strlit("");
    reveal_strlit("/");
    assert(""@ =~= Seq::<char>::empty());
    assert("/"@ =~= seq!['/']);
}

/// A path that is the value of a require or include is a reference with that as its parent, behind whatever
/// is found in the keyword.
pub proof fn a_required_path_has_the_construct_as_its_parent(
    source: Source,
    assigned: Seq<Assigned>,
    node: Syntax,
    parent: Option<Seq<char>>,
    scope: Option<u32>,
)
    requires
        construct_of(node.kind) is Some,
        node.children.len() == 2,
        node.children[1].kind == "Expression"@,
        path_kind(source, node.children[1]) is Some,
    ensures
        ({
            let found = references_in(source, assigned, node, parent, scope);
            &&& found.len() > 0
            &&& found.last().parent == construct_of(node.kind)
            &&& found.last().kind == path_kind(source, node.children[1])->0
            &&& found.last().real_path == trim_start(rooted_path(source, node.children[1]), '/')
            &&& found.last().start_pos == Some(node.children[1].start)
            &&& found.last().end_pos == Some(node.children[1].end)
        }),
{
    construct_kinds_differ();
    reveal_with_fuel(references_below, 3);
    let value = node.children[1];
    assert(unparenthesized(value) == value);
    assert(bare_reference(source, assigned, node, scope) is None);
    let own = references_in(
        source,
        assigned,
        value,
        child_parent(source, node, 1, parent),
        child_scope(node, 1, scope),
    );
    assert(own.len() == 1);
    assert(references_in(source, assigned, node, parent, scope) == references_below(
        source,
        assigned,
        node,
        2,
        parent,
        scope,
    ));
}

/// Inside the parentheses of a call, what is passed directly has the function as its parent.
pub proof fn arguments_have_the_function_as_their_parent(
    source: Source,
    expr: Syntax,
    name: Seq<char>,
    arguments: Seq<Syntax>,
    i: int,
    parent: Option<Seq<char>>,
)
    requires
        is_call(source, expr, name, arguments),
        0 <= i < arguments.len(),
        name.len() > 0 ==> name[0] != '\\',
        expr.children[0].children[0].children[1].kind == "ArgumentList"@,
        expr.children[0].children[0].children[1].children[i].kind == "Argument"@,
    ensures
        ({
            let call = expr.children[0].children[0];
            let list = call.children[1];
            let in_list = child_parent(source, call, 1, parent);
            let in_argument = child_parent(source, list, i, in_list);
            let in_position = child_parent(source, list.children[i], 0, in_argument);
            child_parent(source, list.children[i].children[0], 0, in_position) == Some(name)
        }),
{
    reveal_strlit("RequireConstruct");
    reveal_strlit("RequireOnceConstruct");
    reveal_strlit("IncludeConstruct");
    reveal_strlit("IncludeOnceConstruct");
    reveal_strlit("FunctionCall");
    reveal_strlit("ArgumentList");
    reveal_strlit("Argument");
    reveal_strlit("PositionalArgument");
    reveal_strlit("MethodCall");
    reveal_strlit("StaticMethodCall");
    assert("RequireConstruct"@.len() == 16 && "RequireOnceConstruct"@.len() == 20);
    assert("IncludeConstruct"@.len() == 16 && "IncludeOnceConstruct"@.len() == 20);
    assert("FunctionCall"@.len() == 12 && "ArgumentList"@.len() == 12 && "Argument"@.len() == 8);
    assert("FunctionCall"@[0] == 'F' && "ArgumentList"@[0] == 'A');
    assert("PositionalArgument"@.len() == 18 && "MethodCall"@.len() == 10 && "StaticMethodCall"@.len() == 16);
    assert("RequireConstruct"@[0] == 'R' && "StaticMethodCall"@[0] == 'S' && "IncludeConstruct"@[0] == 'I');
    let list = expr.children[0].children[0].children[1];
    assert(only(list.children[i], "PositionalArgument"@));
}

/// The body of an `if`, `elseif` or `else` bounds what is found in it by the line on which it ends; any
/// other child lies in what its parent lies in.
pub proof fn branches_bound_what_they_hold(node: Syntax, i: int, scope: Option<u32>)
    requires
        0 <= i < node.children.len(),
        node.children[i].end_line < u32::MAX,
    ensures
        node.kind == "IfStatementBody"@ ==> child_scope(node, i, scope) == (if i == 0 {
            Some((node.children[0].end_line + 1) as u32)
        } else {
            scope
        }),
        node.kind == "IfStatementBodyElseIfClause"@ ==> child_scope(node, i, scope) == (if i == 2 {
            Some((node.children[2].end_line + 1) as u32)
        } else {
            scope
        }),
        node.kind == "IfStatementBodyElseClause"@ ==> child_scope(node, i, scope) == (if i == 1 {
            Some((node.children[1].end_line + 1) as u32)
        } else {
            scope
        }),
        (node.kind == "IfColonDelimitedBody"@ || node.kind == "IfColonDelimitedBodyElseIfClause"@ || node.kind
            == "IfColonDelimitedBodyElseClause"@) && node.children[i].kind == "Statement"@ && i
            == node.children.len() - 1 ==> child_scope(node, i, scope) == Some((node.children[i].end_line + 1) as u32),
        node.children[i].kind != "Statement"@ && node.kind != "IfStatementBody"@ && node.kind
            != "IfStatementBodyElseIfClause"@ && node.kind != "IfStatementBodyElseClause"@ ==> child_scope(
            node,
            i,
            scope,
        ) == scope,
        node.kind != "IfStatementBody"@ && node.kind != "IfStatementBodyElseIfClause"@ && node.kind
            != "IfStatementBodyElseClause"@ && node.kind != "IfColonDelimitedBody"@ && node.kind
            != "IfColonDelimitedBodyElseIfClause"@ && node.kind != "IfColonDelimitedBodyElseClause"@ ==> child_scope(
            node,
            i,
            scope,
        ) == scope,
{
    reveal_strlit("IfStatementBody");
    reveal_strlit("IfStatementBodyElseIfClause");
    reveal_strlit("IfStatementBodyElseClause");
    reveal_strlit("IfColonDelimitedBody");
    reveal_strlit("IfColonDelimitedBodyElseIfClause");
    reveal_strlit("IfColonDelimitedBodyElseClause");
    assert("IfStatementBody"@.len() == 15 && "IfStatementBodyElseIfClause"@.len() == 27);
    assert("IfStatementBodyElseClause"@.len() == 25 && "IfColonDelimitedBody"@.len() == 20);
    assert("IfColonDelimitedBodyElseIfClause"@.len() == 32 && "IfColonDelimitedBodyElseClause"@.len() == 30);
}

/// A variable is traced to the last of the earlier assignments of a path to it, and to nothing exactly if
/// there is none.
pub proof fn variables_are_traced_to_the_nearest_assignment(assigned: Seq<Assigned>, name: Seq<char>, position: usize)
    ensures
        traced(assigned, name, position) is None ==> forall|i: int|
            0 <= i < assigned.len() ==> (#[trigger] assigned[i]).name != name || assigned[i].start >= position,
        traced(assigned, name, position) is Some ==> exists|i: int|
            is_nearest(assigned, name, position, i) && traced(assigned, name, position) == Some(assigned[i].value),
    decreases assigned.len(),
{
    if assigned.len() > 0 {
        let last = assigned.len() - 1;
        let front = assigned.drop_last();
        if assigned.last().name == name && assigned.last().start < position {
            assert(is_nearest(assigned, name, position, last));
        } else {
            variables_are_traced_to_the_nearest_assignment(front, name, position);
            if traced(front, name, position) is Some {
                let i = choose|i: int|
                    is_nearest(front, name, position, i) && traced(front, name, position) == Some(front[i].value);
                assert forall|j: int| i < j < assigned.len() implies (#[trigger] assigned[j]).name != name
                    || assigned[j].start >= position by {
                    if j < last {
                        assert(front[j].name != name || front[j].start >= position);
                    }
                }
                assert(is_nearest(assigned, name, position, i));
            } else {
                assert forall|i: int| 0 <= i < assigned.len() implies (#[trigger] assigned[i]).name != name
                    || assigned[i].start >= position by {
                    if i < last {
                        assert(front[i].name != name || front[i].start >= position);
                    }
                }
            }
        }
    }
}

/// Whether assignment `i` is the last one of `name` before `position`.
pub open spec fn is_nearest(assigned: Seq<Assigned>, name: Seq<char>, position: usize, i: int) -> bool {
    &&& 0 <= i < assigned.len()
    &&& assigned[i].name == name
    &&& assigned[i].start < position
    &&& forall|j: int|
        i < j < assigned.len() ==> (#[trigger] assigned[j]).name != name || assigned[j].start >= position
}

// ---------------------------------------------------------------------------------------------
// Nothing is missed.

/// The node that a path of child numbers leads to.
pub open spec fn node_at(node: Syntax, at: Seq<int>) -> Option<Syntax>
    decreases at.len(),
{
    if at.len() == 0 {
        Some(node)
    } else if 0 <= at[0] < node.children.len() {
        node_at(node.children[at[0]], at.drop_first())
    } else {
        None
    }
}

/// Whether one of `references` is at the place of `node`, or is the value of the require or include that
/// `node` is.
pub open spec fn is_recorded(references: Seq<PathView>, node: Syntax) -> bool {
    exists|k: int| 0 <= k < references.len() && records(#[trigger] references[k], node)
}

/// Whether `reference` is at the place of `node`, or is the value of the require or include that it is.
pub open spec fn records(reference: PathView, node: Syntax) -> bool {
    ||| reference.start_pos == Some(node.start) && reference.end_pos == Some(node.end)
    ||| {
        let value = unparenthesized(node.children[1]);
        construct_of(node.kind) is Some && reference.parent == construct_of(node.kind) && reference.start_pos
            == Some(value.start) && reference.end_pos == Some(value.end)
    }
}

/// Whether something on the way to the node at `at` is recorded.
pub open spec fn is_covered(references: Seq<PathView>, node: Syntax, at: Seq<int>) -> bool {
    exists|m: int|
        0 <= m <= at.len() && node_at(node, #[trigger] at.take(m)) is Some && is_recorded(
            references,
            node_at(node, at.take(m))->0,
        )
}

/// Whether the node at `at` is the left-hand side of an assignment.
pub open spec fn is_assigned_to(node: Syntax, at: Seq<int>) -> bool {
    at.len() > 0 && at.last() == 0 && node_at(node, at.drop_last()) is Some && node_at(node, at.drop_last())->0.kind
        == "Assignment"@
}

proof fn recorded_in_more(some: Seq<PathView>, more: Seq<PathView>, front: Seq<PathView>, node: Syntax)
    requires
        is_recorded(some, node),
    ensures
        is_recorded(front + some + more, node),
{
    let k = choose|k: int| 0 <= k < some.len() && records(#[trigger] some[k], node);
    assert((front + some + more)[front.len() + k] == some[k]);
}

/// What is recorded from a child is recorded from its parent.
proof fn child_references_are_found(
    source: Source,
    assigned: Seq<Assigned>,
    node: Syntax,
    n: nat,
    i: int,
    parent: Option<Seq<char>>,
    scope: Option<u32>,
    d: Syntax,
)
    requires
        0 <= i < n <= node.children.len(),
        ({
            let child = node.children[i];
            is_recorded(
                if node.kind == "Assignment"@ && i == 0 && path_kind(source, child) is Some {
                    references_below(source, assigned, child, child.children.len(), None, scope)
                } else {
                    references_in(
                        source,
                        assigned,
                        child,
                        child_parent(source, node, i, parent),
                        child_scope(node, i, scope),
                    )
                },
                d,
            )
        }),
    ensures
        is_recorded(references_below(source, assigned, node, n, parent, scope), d),
    decreases n,
{
    let before = references_below(source, assigned, node, (n - 1) as nat, parent, scope);
    let child = node.children[n - 1];
    let own = if node.kind == "Assignment"@ && n - 1 == 0 && path_kind(source, child) is Some {
        references_below(source, assigned, child, child.children.len(), None, scope)
    } else {
        references_in(
            source,
            assigned,
            child,
            child_parent(source, node, n - 1, parent),
            child_scope(node, n - 1, scope),
        )
    };
    assert(references_below(source, assigned, node, n, parent, scope) == before + own);
    if i == n - 1 {
        recorded_in_more(own, Seq::empty(), before, d);
        assert(before + own + Seq::<PathView>::empty() =~= before + own);
    } else {
        child_references_are_found(source, assigned, node, (n - 1) as nat, i, parent, scope, d);
        recorded_in_more(before, own, Seq::empty(), d);
        assert(Seq::<PathView>::empty() + before + own =~= before + own);
    }
}

/// Every expression that is a path, wherever it stands in a file, is recorded, or lies in one that is; only
/// the left-hand side of an assignment is not.
pub proof fn every_path_expression_is_covered(
    source: Source,
    assigned: Seq<Assigned>,
    node: Syntax,
    at: Seq<int>,
    parent: Option<Seq<char>>,
    scope: Option<u32>,
)
    requires
        node_at(node, at) is Some,
        node_at(node, at)->0.kind == "Expression"@,
        path_kind(source, node_at(node, at)->0) is Some,
        !is_assigned_to(node, at),
    ensures
        is_covered(references_in(source, assigned, node, parent, scope), node, at),
    decreases node, 1nat,
{
    construct_kinds_differ();
    let found = references_in(source, assigned, node, parent, scope);
    assert(at.take(0) =~= Seq::<int>::empty());
    if node.kind == "Expression"@ && path_kind(source, node) is Some {
        assert(records(found[0], node));
        assert(is_recorded(found, node_at(node, at.take(0))->0));
    } else if bare_reference(source, assigned, node, scope) is Some {
        assert(records(found[0], node));
        assert(is_recorded(found, node_at(node, at.take(0))->0));
    } else {
        every_path_expression_below_is_covered(source, assigned, node, at, parent, scope);
    }
}

proof fn every_path_expression_below_is_covered(
    source: Source,
    assigned: Seq<Assigned>,
    node: Syntax,
    at: Seq<int>,
    parent: Option<Seq<char>>,
    scope: Option<u32>,
)
    requires
        node_at(node, at) is Some,
        at.len() > 0,
        node_at(node, at)->0.kind == "Expression"@,
        path_kind(source, node_at(node, at)->0) is Some,
        !is_assigned_to(node, at),
    ensures
        is_covered(
            references_below(source, assigned, node, node.children.len(), parent, scope),
            node,
            at,
        ),
    decreases node, 0nat,
{
    let i = at[0];
    let rest = at.drop_first();
    let child = node.children[i];
    let all = references_below(source, assigned, node, node.children.len(), parent, scope);
    if is_assigned_to(child, rest) {
        assert(rest.last() == at.last());
        assert(at.drop_last().drop_first() =~= rest.drop_last());
        assert(at.drop_last()[0] == i);
        assert(is_assigned_to(node, at));
    }
    let target = node.kind == "Assignment"@ && i == 0 && path_kind(source, child) is Some;
    let own = if target {
        references_below(source, assigned, child, child.children.len(), None, scope)
    } else {
        references_in(source, assigned, child, child_parent(source, node, i, parent), child_scope(node, i, scope))
    };
    if target {
        if rest.len() == 0 {
            assert(at.drop_last() =~= Seq::<int>::empty());
            assert(is_assigned_to(node, at));
        }
        every_path_expression_below_is_covered(source, assigned, child, rest, None, scope);
    } else {
        every_path_expression_is_covered(
            source,
            assigned,
            child,
            rest,
            child_parent(source, node, i, parent),
            child_scope(node, i, scope),
        );
    }
    let m = choose|m: int|
        0 <= m <= rest.len() && node_at(child, #[trigger] rest.take(m)) is Some && is_recorded(
            own,
            node_at(child, rest.take(m))->0,
        );
    let d = node_at(child, rest.take(m))->0;
    child_references_are_found(source, assigned, node, node.children.len(), i, parent, scope, d);
    assert(at.take(m + 1).drop_first() =~= rest.take(m));
    assert(at.take(m + 1)[0] == i);
    assert(node_at(node, at.take(m + 1)) == Some(d));
    assert(is_recorded(all, d));
}

/// Every assignment of a path to a plain variable, wherever it stands, is known.
pub proof fn every_assignment_is_known(source: Source, node: Syntax, at: Seq<int>, name: Seq<char>)
    requires
        node_at(node, at) is Some,
        is_path_assignment(source, node_at(node, at)->0, name),
    ensures
        exists|k: int|
            0 <= k < assignments_in(source, node).len() && is_assignment_of(
                #[trigger] assignments_in(source, node)[k],
                node_at(node, at)->0,
                name,
            ),
    decreases at.len(),
{
    reveal_strlit("Assignment");
    let all = assignments_in(source, node);
    let d = node_at(node, at)->0;
    let below = assignments_below(source, node, node.children.len());
    if at.len() == 0 {
        assert(is_assignment_of(all[0], d, name));
    } else {
        let i = at[0];
        let own = assignments_in(source, node.children[i]);
        every_assignment_is_known(source, node.children[i], at.drop_first(), name);
        let k = choose|k: int| 0 <= k < own.len() && is_assignment_of(#[trigger] own[k], d, name);
        assignments_of_child(source, node, node.children.len(), i, k);
        let m = choose|m: int| 0 <= m < below.len() && #[trigger] below[m] == own[k];
        if all.len() == below.len() {
            assert(all =~= below);
            assert(all[m] == own[k]);
        } else {
            assert(all[m + 1] == own[k]);
        }
    }
}

/// Whether `node` is `$name = value`, where the value is a path.
pub open spec fn is_path_assignment(source: Source, node: Syntax, name: Seq<char>) -> bool {
    &&& node.kind == "Assignment"@
    &&& node.children.len() == 3
    &&& wraps(node.children[0], "Variable"@)
    &&& only(node.children[0].children[0], "DirectVariable"@)
    &&& code_of(source, node.children[0].children[0]) == name
    &&& code_of(source, node.children[1]) == "="@
    &&& path_kind(source, unparenthesized(node.children[2])) is Some
}

/// Whether `own` says that `node` assigns its value to `name`.
pub open spec fn is_assignment_of(own: Assigned, node: Syntax, name: Seq<char>) -> bool {
    own.name == name && own.start == node.start && own.value == unparenthesized(node.children[2])
}

proof fn assignments_of_child(source: Source, node: Syntax, n: nat, i: int, k: int)
    requires
        0 <= i < n <= node.children.len(),
        0 <= k < assignments_in(source, node.children[i]).len(),
    ensures
        exists|m: int|
            0 <= m < assignments_below(source, node, n).len() && #[trigger] assignments_below(source, node, n)[m]
                == assignments_in(source, node.children[i])[k],
    decreases n,
{
    let before = assignments_below(source, node, (n - 1) as nat);
    let own = assignments_in(source, node.children[n - 1]);
    let all = assignments_below(source, node, n);
    assert(all == before + own);
    if i == n - 1 {
        assert(all[before.len() + k] == own[k]);
    } else {
        assignments_of_child(source, node, (n - 1) as nat, i, k);
        let m = choose|m: int|
            0 <= m < before.len() && #[trigger] before[m] == assignments_in(source, node.children[i])[k];
        assert(all[m] == before[m]);
    }
}

// ---------------------------------------------------------------------------------------------
// More of what is recorded.

/// The glyph path, the separator and what follows dirroot are those of the expression.
pub proof fn a_path_expression_is_recorded_in_full(
    source: Source,
    assigned: Seq<Assigned>,
    expr: Syntax,
    parent: Option<Seq<char>>,
    scope: Option<u32>,
)
    requires
        expr.kind == "Expression"@,
        path_kind(source, expr) is Some,
    ensures
        ({
            let found = references_in(source, assigned, expr, parent, scope)[0];
            &&& found.path == glyph_of(source.segment, rooted_path(source, expr))
            &&& found.separator == separator(source, expr)
            &&& found.mono_path_expr == mono_path(source, expr)
        }),
{
}

/// The separator of a concatenation is the slash, or the constant for one, that comes second; whatever comes
/// behind it makes no difference.
pub proof fn separators_come_second(
    source: Source,
    expr: Syntax,
    first: Syntax,
    second: Syntax,
    longer: Syntax,
    third: Syntax,
)
    requires
        is_concat(source, expr, first, second),
        wraps(first, "Access"@) || wraps(first, "MagicConstant"@),
        is_concat(source, longer, expr, third),
    ensures
        is_string(source, second, "/"@) ==> separator(source, expr) == "/"@,
        is_constant(source, second, "DIRECTORY_SEPARATOR"@) ==> separator(source, expr) == "DIRECTORY_SEPARATOR"@,
        wraps(second, "Variable"@) || wraps(second, "Call"@) || wraps(second, "Access"@) ==> separator(source, expr)
            == ""@,
        forall|text: Seq<char>|
            text != "/"@ && #[trigger] is_string(source, second, text) ==> separator(source, expr) == ""@,
        forall|name: Seq<char>|
            name != "DIRECTORY_SEPARATOR"@ && name.len() > 0 && name[0] != '\\' && #[trigger] is_constant(
                source,
                second,
                name,
            ) ==> separator(source, expr) == ""@,
        wraps(second, "Literal"@) || wraps(second, "ConstantAccess"@) || wraps(second, "Variable"@) || wraps(
            second,
            "Call"@,
        ) || wraps(second, "Access"@) ==> separator(source, longer) == separator(source, expr),
{
    reveal_strlit("");
    assert(""@ =~= Seq::<char>::empty());
    reveal_strlit("Access");
    reveal_strlit("MagicConstant");
    reveal_strlit("Binary");
    reveal_strlit("Literal");
    reveal_strlit("ConstantAccess");
    reveal_strlit("Variable");
    reveal_strlit("Call");
    reveal_strlit("CompositeString");
    assert("Access"@.len() == 6 && "MagicConstant"@.len() == 13 && "Binary"@.len() == 6 && "Literal"@.len() == 7);
    assert("ConstantAccess"@.len() == 14 && "Variable"@.len() == 8 && "Call"@.len() == 4);
    assert("Access"@[0] == 'A' && "Binary"@[0] == 'B');
    assert(concat_sides(source, expr) == Some((first, second)));
    assert(concat_sides(source, first) is None);
    assert(concat_sides(source, longer) == Some((expr, third)));
    reveal_strlit("DIRECTORY_SEPARATOR");
    if wraps(second, "Literal"@) || wraps(second, "ConstantAccess"@) || wraps(second, "Variable"@) || wraps(
        second,
        "Call"@,
    ) || wraps(second, "Access"@) {
        assert(concat_sides(source, second) is None);
        assert(operands(source, first) =~= seq![first]);
        assert(operands(source, second) =~= seq![second]);
        assert(operands(source, expr) =~= seq![first, second]);
        assert(operands(source, longer)[1] == second);
    }
}

/// Whether `expr` is the plain variable `name`.
pub open spec fn is_variable(source: Source, expr: Syntax, name: Seq<char>) -> bool {
    wraps(expr, "Variable"@) && only(expr.children[0], "DirectVariable"@) && code_of(source, expr.children[0]) == name
}

/// Parentheses around an expression, however many, leave what stands in them.
pub proof fn parentheses_are_taken_away(expr: Syntax)
    ensures
        wraps(expr, "Parenthesized"@) && only(expr.children[0], "Expression"@) ==> unparenthesized(expr)
            == unparenthesized(expr.children[0].children[0]),
        expr.kind == "Expression"@ && !wraps(expr, "Parenthesized"@) && expr.children.len() == 1 ==> unparenthesized(
            expr,
        ) == expr,
{
}

/// A bare variable that is the sole value of a require or include is a reference to what it was last
/// assigned, if that was a path.
pub proof fn a_required_variable_is_traced(
    source: Source,
    assigned: Seq<Assigned>,
    node: Syntax,
    name: Seq<char>,
    parent: Option<Seq<char>>,
    scope: Option<u32>,
)
    requires
        construct_of(node.kind) is Some,
        node.children.len() == 2,
        is_variable(source, unparenthesized(node.children[1]), name),
        traced(assigned, name, unparenthesized(node.children[1]).start) is Some,
        unparenthesized(node.children[1]).line < u32::MAX,
    ensures
        ({
            let found = references_in(source, assigned, node, parent, scope);
            let bare = unparenthesized(node.children[1]);
            let value = traced(assigned, name, bare.start)->0;
            &&& found.len() == 1
            &&& found[0].kind == PathKind::TracedVariable
            &&& found[0].parent == construct_of(node.kind)
            &&& found[0].real_path == trim_start(rooted_path(source, value), '/')
            &&& found[0].path == glyph_of(source.segment, rooted_path(source, value))
            &&& found[0].code == code_of(source, bare)
            &&& found[0].start_pos == Some(bare.start)
            &&& found[0].end_pos == Some(bare.end)
            &&& found[0].scope_end_line == scope
            &&& found[0].line == bare.line + 1
            &&& found[0].separator == ""@
            &&& found[0].mono_path_expr == ""@
        }),
{
    construct_kinds_differ();
    reveal_strlit("");
    assert(""@ =~= Seq::<char>::empty());
    reveal_strlit("Literal");
    reveal_strlit("Variable");
    assert("Literal"@.len() == 7 && "Variable"@.len() == 8);
}

/// Whatever is found in a require or include of a variable that cannot be traced is found below it.
pub proof fn an_untraced_variable_is_no_reference(
    source: Source,
    assigned: Seq<Assigned>,
    node: Syntax,
    name: Seq<char>,
    parent: Option<Seq<char>>,
    scope: Option<u32>,
)
    requires
        construct_of(node.kind) is Some,
        node.children.len() == 2,
        is_variable(source, unparenthesized(node.children[1]), name),
        traced(assigned, name, unparenthesized(node.children[1]).start) is None,
    ensures
        references_in(source, assigned, node, parent, scope) == references_below(
            source,
            assigned,
            node,
            2,
            parent,
            scope,
        ),
{
    construct_kinds_differ();
    reveal_strlit("Literal");
    reveal_strlit("Variable");
    assert("Literal"@.len() == 7 && "Variable"@.len() == 8);
}

/// Parentheses make no difference to what a value is passed to, and a name that is fully qualified counts as
/// the name alone.
pub proof fn parentheses_and_backslashes_make_no_difference(
    source: Source,
    node: Syntax,
    name: Seq<char>,
    parent: Option<Seq<char>>,
)
    ensures
        wraps(node, "Parenthesized"@) ==> child_parent(source, node, 0, parent) == parent,
        node.kind == "Parenthesized"@ ==> child_parent(source, node, 0, parent) == parent,
        node.kind == "FunctionCall"@ && node.children.len() == 2 && wraps(node.children[0], "Identifier"@) && code_of(
            source,
            node.children[0].children[0],
        ) == "\\"@ + name ==> child_parent(source, node, 1, parent) == Some(name),
{
    reveal_strlit("\\");
    reveal_strlit("RequireConstruct");
    reveal_strlit("RequireOnceConstruct");
    reveal_strlit("IncludeConstruct");
    reveal_strlit("IncludeOnceConstruct");
    reveal_strlit("FunctionCall");
    reveal_strlit("MethodCall");
    reveal_strlit("StaticMethodCall");
    reveal_strlit("Parenthesized");
    reveal_strlit("Expression");
    assert("RequireConstruct"@.len() == 16 && "RequireOnceConstruct"@.len() == 20);
    assert("IncludeConstruct"@.len() == 16 && "IncludeOnceConstruct"@.len() == 20);
    assert("FunctionCall"@.len() == 12 && "MethodCall"@.len() == 10 && "StaticMethodCall"@.len() == 16);
    assert("Parenthesized"@.len() == 13 && "Expression"@.len() == 10);
    assert("Expression"@[0] == 'E' && "MethodCall"@[0] == 'M');
    assert(("\\"@ + name).skip(1) =~= name);
    assert(("\\"@ + name)[0] == '\\');
}

/// What is passed to a method has the method's name as its parent, and what is passed to a static method the
/// names of the class and the method.
pub proof fn arguments_have_the_method_as_their_parent(
    source: Source,
    node: Syntax,
    class: Seq<char>,
    method: Seq<char>,
    parent: Option<Seq<char>>,
)
    requires
        node.children.len() == 3,
        only(node.children[1], "LocalIdentifier"@),
        code_of(source, node.children[1]) == method,
    ensures
        node.kind == "MethodCall"@ ==> child_parent(source, node, 2, parent) == Some(method),
        node.kind == "StaticMethodCall"@ && wraps(node.children[0], "Keyword"@) && code_of(
            source,
            node.children[0].children[0],
        ) == class ==> child_parent(source, node, 2, parent) == Some(class + "::"@ + method),
        node.kind == "StaticMethodCall"@ && wraps(node.children[0], "Identifier"@) && code_of(
            source,
            node.children[0].children[0],
        ) == class && class.len() > 0 && class[0] != '\\' ==> child_parent(source, node, 2, parent) == Some(
            class + "::"@ + method,
        ),
        node.kind == "StaticMethodCall"@ && wraps(node.children[0], "Variable"@) ==> child_parent(
            source,
            node,
            2,
            parent,
        ) == Some(method),
{
    reveal_strlit("Keyword");
    reveal_strlit("Identifier");
    reveal_strlit("Variable");
    reveal_strlit("MethodCall");
    reveal_strlit("StaticMethodCall");
    reveal_strlit("FunctionCall");
    assert("Keyword"@.len() == 7 && "Identifier"@.len() == 10 && "Variable"@.len() == 8);
    assert("MethodCall"@.len() == 10 && "StaticMethodCall"@.len() == 16 && "FunctionCall"@.len() == 12);
}

// ---------------------------------------------------------------------------------------------
// Several trees.

/// The trees of a file are looked through one by one, each from outside any call and any branch.
pub proof fn trees_are_looked_through_one_by_one(
    source: Source,
    assigned: Seq<Assigned>,
    trees: Seq<Syntax>,
    tree: Syntax,
)
    ensures
        references_among(source, assigned, Seq::empty()).len() == 0,
        references_among(source, assigned, trees.push(tree)) == references_among(source, assigned, trees)
            + references_in(source, assigned, tree, None, None),
        assignments_among(source, trees.push(tree)) == assignments_among(source, trees) + assignments_in(source, tree),
        assignments_among(source, Seq::empty()).len() == 0,
{
    assert(trees.push(tree).drop_last() =~= trees);
}

/// What is found is a reference of its own unless it overlaps one that was found before.
pub proof fn references_are_dropped_only_where_they_overlap(found: Seq<PathView>, more: PathView)
    ensures
        distinct(Seq::empty()).len() == 0,
        distinct(found.push(more)) == distinct(found) || distinct(found.push(more)) == distinct(found).push(more),
        distinct(found.push(more)) == distinct(found) <==> exists|k: int|
            #![trigger distinct(found)[k]]
            0 <= k < distinct(found).len() && distinct(found)[k].start_pos->0 < more.end_pos->0 && more.start_pos->0
                < distinct(found)[k].end_pos->0,
{
    assert(found.push(more).drop_last() =~= found);
    let kept = distinct(found);
    if exists|k: int|
        #![trigger kept[k]]
        0 <= k < kept.len() && kept[k].start_pos->0 < more.end_pos->0 && more.start_pos->0 < kept[k].end_pos->0 {
        let k = choose|k: int|
            #![trigger kept[k]]
            0 <= k < kept.len() && kept[k].start_pos->0 < more.end_pos->0 && more.start_pos->0 < kept[k].end_pos->0;
        assert(overlap(kept[k], more));
    }
    assert(kept.push(more).len() != kept.len());
}

/// Whether some assignments come in the order in which they stand in the source, between two places.
pub open spec fn in_source_order(assigned: Seq<Assigned>, from: int, to: int) -> bool {
    &&& forall|i: int| 0 <= i < assigned.len() ==> from <= (#[trigger] assigned[i]).start <= to
    &&& forall|i: int, j: int|
        0 <= i < j < assigned.len() ==> (#[trigger] assigned[i]).start <= (#[trigger] assigned[j]).start
}

/// The assignments in a tree come in the order in which they stand in the source, so that the last of them
/// before a place is the nearest.
pub proof fn assignments_come_in_source_order(source: Source, node: Syntax)
    requires
        well_nested(node),
    ensures
        in_source_order(assignments_in(source, node), node.start as int, node.end as int),
    decreases node, node.children.len() + 1,
{
    assignments_below_come_in_source_order(source, node, node.children.len());
    let below = assignments_below(source, node, node.children.len());
    let all = assignments_in(source, node);
    if node.children.len() > 0 {
        assert(nested_below(node, node.children.len()));
    }
    if own_assignment(source, node) is Some {
        assert forall|i: int| 0 <= i < all.len() implies node.start <= (#[trigger] all[i]).start <= node.end by {
            if i > 0 {
                assert(all[i] == below[i - 1]);
            }
        }
        assert forall|i: int, j: int| 0 <= i < j < all.len() implies (#[trigger] all[i]).start <= (
        #[trigger] all[j]).start by {
            assert(all[j] == below[j - 1]);
            if i > 0 {
                assert(all[i] == below[i - 1]);
            }
        }
    }
}

proof fn assignments_below_come_in_source_order(source: Source, node: Syntax, n: nat)
    requires
        n <= node.children.len(),
        nested_below(node, n),
        node.start <= node.end,
    ensures
        in_source_order(
            assignments_below(source, node, n),
            node.start as int,
            if n == 0 {
                node.start as int
            } else {
                node.children[n - 1].end as int
            },
        ),
        n > 0 ==> node.start <= node.children[n - 1].end <= node.end,
    decreases node, n,
{
    if n > 0 {
        let child = node.children[n - 1];
        let before = assignments_below(source, node, (n - 1) as nat);
        let own = assignments_in(source, child);
        let all = assignments_below(source, node, n);
        assignments_below_come_in_source_order(source, node, (n - 1) as nat);
        assignments_come_in_source_order(source, child);
        assert(all == before + own);
        assert forall|i: int| 0 <= i < all.len() implies node.start <= (#[trigger] all[i]).start <= child.end by {
            if i < before.len() {
                assert(all[i] == before[i]);
            } else {
                assert(all[i] == own[i - before.len()]);
            }
        }
        assert forall|i: int, j: int| 0 <= i < j < all.len() implies (#[trigger] all[i]).start <= (
        #[trigger] all[j]).start by {
            if j < before.len() {
                assert(all[i] == before[i] && all[j] == before[j]);
            } else {
                assert(all[j] == own[j - before.len()]);
                if i < before.len() {
                    assert(all[i] == before[i]);
                } else {
                    assert(all[i] == own[i - before.len()]);
                }
            }
        }
    }
}

/// Every statement of a branch that is written with a colon is bounded by the line on which the last of them
/// ends.
pub proof fn statements_of_a_branch_share_its_end(node: Syntax, i: int, k: int, scope: Option<u32>)
    requires
        node.kind == "IfColonDelimitedBody"@ || node.kind == "IfColonDelimitedBodyElseIfClause"@ || node.kind
            == "IfColonDelimitedBodyElseClause"@,
        0 <= i <= k < node.children.len(),
        node.children[i].kind == "Statement"@,
        node.children[k].kind == "Statement"@,
        forall|j: int| k < j < node.children.len() ==> (#[trigger] node.children[j]).kind != "Statement"@,
        node.children[k].end_line < u32::MAX,
    ensures
        child_scope(node, i, scope) == Some((node.children[k].end_line + 1) as u32),
{
    reveal_strlit("IfStatementBody");
    reveal_strlit("IfStatementBodyElseIfClause");
    reveal_strlit("IfStatementBodyElseClause");
    reveal_strlit("IfColonDelimitedBody");
    reveal_strlit("IfColonDelimitedBodyElseIfClause");
    reveal_strlit("IfColonDelimitedBodyElseClause");
    assert("IfStatementBody"@.len() == 15 && "IfStatementBodyElseIfClause"@.len() == 27);
    assert("IfStatementBodyElseClause"@.len() == 25 && "IfColonDelimitedBody"@.len() == 20);
    assert("IfColonDelimitedBodyElseIfClause"@.len() == 32 && "IfColonDelimitedBodyElseClause"@.len() == 30);
    last_statement_of(node.children, k);
}

proof fn last_statement_of(children: Seq<Syntax>, k: int)
    requires
        0 <= k < children.len(),
        children[k].kind == "Statement"@,
        forall|j: int| k < j < children.len() ==> (#[trigger] children[j]).kind != "Statement"@,
    ensures
        last_statement_line(children) == children[k].end_line,
    decreases children.len(),
{
    if k < children.len() - 1 {
        assert(children[children.len() - 1].kind != "Statement"@);
        last_statement_of(children.drop_last(), k);
    }
}

// ---------------------------------------------------------------------------------------------
// More of strings.

/// Whether a part of a string is literal text of no length.
pub open spec fn is_nothing(source: Source, part: Syntax) -> bool {
    part.children.len() != 1 && part.start == part.end
}

/// Whether a part of a string is the interpolated expression `expr`, in braces or not.
pub open spec fn interpolates(part: Syntax, expr: Syntax) -> bool {
    ||| only(part, "Expression"@) && part.children[0] == expr
    ||| only(part, "BracedExpressionStringPart"@) && only(part.children[0], "Expression"@)
        && part.children[0].children[0] == expr
}

/// Whether a part of a string is literal text of some length.
pub open spec fn is_some_text(source: Source, part: Syntax) -> bool {
    part.children.len() != 1 && part.start < part.end <= source.bytes.len()
}

proof fn parts_in_two(source: Source, a: Seq<Syntax>, b: Seq<Syntax>)
    ensures
        meaningful_parts(source, a + b) == meaningful_parts(source, a) + meaningful_parts(source, b),
    decreases b.len(),
{
    if b.len() == 0 {
        assert(a + b =~= a);
        assert(meaningful_parts(source, a) + meaningful_parts(source, b) =~= meaningful_parts(source, a));
    } else {
        parts_in_two(source, a, b.drop_last());
        assert((a + b).drop_last() =~= a + b.drop_last());
        assert(meaningful_parts(source, a + b) =~= meaningful_parts(source, a) + meaningful_parts(source, b));
    }
}

proof fn nothing_is_meaningless(source: Source, parts: Seq<Syntax>)
    requires
        forall|i: int| 0 <= i < parts.len() ==> is_nothing(source, #[trigger] parts[i]),
    ensures
        meaningful_parts(source, parts).len() == 0,
    decreases parts.len(),
{
    if parts.len() > 0 {
        assert(is_nothing(source, parts[parts.len() - 1]));
        assert forall|i: int| 0 <= i < parts.drop_last().len() implies is_nothing(
            source,
            #[trigger] parts.drop_last()[i],
        ) by {
            assert(is_nothing(source, parts[i]));
        }
        nothing_is_meaningless(source, parts.drop_last());
    }
}

proof fn one_part(source: Source, part: Syntax, expr: Syntax)
    requires
        interpolates(part, expr) || is_some_text(source, part),
    ensures
        meaningful_parts(source, seq![part]) == seq![part],
        interpolates(part, expr) ==> part_expr(part) == Some(expr),
        is_some_text(source, part) ==> part_expr(part) is None,
{
    reveal_strlit("Expression");
    reveal_strlit("BracedExpressionStringPart");
    assert("Expression"@.len() == 10 && "BracedExpressionStringPart"@.len() == 26);
    assert(seq![part].drop_last() =~= Seq::<Syntax>::empty());
    assert(meaningful_parts(source, Seq::<Syntax>::empty()) =~= Seq::<Syntax>::empty());
    assert(meaningful_parts(source, seq![part]) =~= seq![part]);
}

/// The kind of a double-quoted string, alone or at the start of a concatenation, is that of the property of
/// $CFG that it starts with: nothing of no length before that counts, and text of some length makes it no
/// path.
pub proof fn strings_are_paths_by_their_start(
    source: Source,
    expr: Syntax,
    string: Syntax,
    k: int,
    first: Syntax,
    name: Seq<char>,
    concat: Syntax,
    rhs: Syntax,
)
    requires
        is_interpolated(expr, string),
        0 <= k < string.children.len(),
        forall|j: int| 0 <= j < k ==> is_nothing(source, #[trigger] string.children[j]),
        interpolates(string.children[k], first) || is_some_text(source, string.children[k]),
        is_cfg(source, first, name),
        is_concat(source, concat, expr, rhs),
    ensures
        ({
            let kind = if is_some_text(source, string.children[k]) {
                None
            } else if name == "dirroot"@ {
                Some(PathKind::Dirroot)
            } else if name == "libdir"@ {
                Some(PathKind::Libdir)
            } else if name == "root"@ {
                Some(PathKind::Root)
            } else {
                None
            };
            &&& path_kind(source, expr) == kind
            &&& path_kind(source, concat) == kind
        }),
{
    string_kinds_differ();
    let parts = string.children;
    let before = parts.take(k);
    let rest = parts.skip(k + 1);
    assert(parts =~= before + seq![parts[k]] + rest);
    parts_in_two(source, before + seq![parts[k]], rest);
    parts_in_two(source, before, seq![parts[k]]);
    assert forall|i: int| 0 <= i < before.len() implies is_nothing(source, #[trigger] before[i]) by {
        assert(before[i] == parts[i]);
    }
    nothing_is_meaningless(source, before);
    one_part(source, parts[k], first);
    assert(meaningful_parts(source, parts)[0] == parts[k]);
    cfg_kinds(source, first, name);
    assert(concat_sides(source, expr) is None);
    assert(concat_sides(source, concat) == Some((expr, rhs)));
    assert(interpolated(expr) == Some(string));
}

proof fn cfg_kinds(source: Source, expr: Syntax, name: Seq<char>)
    requires
        is_cfg(source, expr, name),
    ensures
        cfg_kind(source, expr) == (if name == "dirroot"@ {
            Some(PathKind::Dirroot)
        } else if name == "libdir"@ {
            Some(PathKind::Libdir)
        } else if name == "root"@ {
            Some(PathKind::Root)
        } else {
            None
        }),
{
}

proof fn string_kinds_differ()
    ensures
        "CompositeString"@ != "Binary"@,
        "CompositeString"@ != "Access"@,
        "CompositeString"@ != "MagicConstant"@,
        "CompositeString"@ != "Call"@,
        "CompositeString"@ != "Literal"@,
        "Access"@ != "Binary"@,
        "Literal"@ != "Binary"@,
        "Variable"@ != "Binary"@,
{
    reveal_strlit("CompositeString");
    reveal_strlit("Binary");
    reveal_strlit("Access");
    reveal_strlit("MagicConstant");
    reveal_strlit("Call");
    reveal_strlit("Literal");
    reveal_strlit("Variable");
    assert("CompositeString"@.len() == 15 && "Binary"@.len() == 6 && "Access"@.len() == 6);
    assert("MagicConstant"@.len() == 13 && "Call"@.len() == 4 && "Literal"@.len() == 7 && "Variable"@.len() == 8);
    assert("Access"@[0] == 'A' && "Binary"@[0] == 'B');
}

/// A string that is a path stands for what it contributes, normalised; the separator is the slash that is the
/// whole of its second part; and what follows dirroot is each further part, text in quotes and expressions as
/// they are.
pub proof fn strings_are_paths(
    source: Source,
    expr: Syntax,
    string: Syntax,
    root: Syntax,
    second: Syntax,
    inserted: Syntax,
    value: Seq<char>,
)
    requires
        is_interpolated(expr, string),
        string.children.len() == 2,
        interpolates(string.children[0], root),
        is_cfg(source, root, "dirroot"@),
        string.children[1] == second,
        interpolates(second, inserted) || is_some_text(source, second) && part_text(source, second, value),
    ensures
        rooted_path(source, expr) == normalised(segment(source, expr)),
        is_some_text(source, second) ==> mono_path(source, expr) == single_quoted(value) && separator(source, expr)
            == (if value == "/"@ {
            "/"@
        } else {
            ""@
        }),
        interpolates(second, inserted) ==> mono_path(source, expr) == code_of(source, inserted) && separator(
            source,
            expr,
        ) == ""@,
{
    string_kinds_differ();
    reveal_strlit("");
    assert(""@ =~= Seq::<char>::empty());
    let parts = string.children;
    let first = parts[0];
    assert(parts =~= seq![first] + seq![second]);
    parts_in_two(source, seq![first], seq![second]);
    one_part(source, first, root);
    one_part(source, second, inserted);
    assert(meaningful_parts(source, parts) =~= seq![first, second]);
    cfg_kinds(source, root, "dirroot"@);
    assert(interpolated(expr) == Some(string));
    let codes = Seq::new(1, |i: int| part_code(source, seq![first, second][i + 1]));
    assert(codes =~= seq![part_code(source, second)]);
}

/// Whether literal text in a string stands for `value`: as it is parsed, or where that fails, by its escapes.
pub open spec fn part_text(source: Source, part: Syntax, value: Seq<char>) -> bool {
    let code = code_of(source, part);
    value == match literal_value(code, Some('"'), false) {
        Some(text) => text,
        None => utf8_lossy(unescaped(code)),
    }
}

/// One more part of a string that starts with dirroot is one more operand behind what follows dirroot.
pub proof fn parts_follow_dirroot(
    source: Source,
    short: Syntax,
    less: Syntax,
    long: Syntax,
    more: Syntax,
    root: Syntax,
    last: Syntax,
    inserted: Syntax,
    value: Seq<char>,
)
    requires
        is_interpolated(short, less),
        is_interpolated(long, more),
        more.children == less.children.push(last),
        less.children.len() >= 2,
        interpolates(less.children[0], root),
        is_cfg(source, root, "dirroot"@),
        meaningful_parts(source, less.children).len() >= 2,
        interpolates(last, inserted) || is_some_text(source, last) && part_text(source, last, value),
    ensures
        is_some_text(source, last) ==> mono_path(source, long) == mono_path(source, short) + " . "@ + single_quoted(
            value,
        ),
        interpolates(last, inserted) ==> mono_path(source, long) == mono_path(source, short) + " . "@ + code_of(
            source,
            inserted,
        ),
{
    string_kinds_differ();
    let parts = less.children;
    let first = parts[0];
    let all = meaningful_parts(source, parts);
    assert(parts =~= seq![first] + parts.skip(1));
    parts_in_two(source, seq![first], parts.skip(1));
    one_part(source, first, root);
    assert(all[0] == first);
    assert(more.children =~= parts + seq![last]);
    parts_in_two(source, parts, seq![last]);
    one_part(source, last, inserted);
    let longer = meaningful_parts(source, more.children);
    assert(longer =~= all.push(last));
    cfg_kinds(source, root, "dirroot"@);
    assert(interpolated(short) == Some(less));
    assert(interpolated(long) == Some(more));
    let before = Seq::new((all.len() - 1) as nat, |i: int| part_code(source, all[i + 1]));
    let after = Seq::new((longer.len() - 1) as nat, |i: int| part_code(source, longer[i + 1]));
    assert(after.drop_last() =~= before);
    assert(after.last() == part_code(source, last));
}

/// The string "{$CFG->dirroot}" at the start of a concatenation is as good as $CFG->dirroot; a longer one is
/// not.
pub proof fn strings_can_be_dirroot(
    source: Source,
    concat: Syntax,
    expr: Syntax,
    string: Syntax,
    root: Syntax,
    rhs: Syntax,
)
    requires
        is_concat(source, concat, expr, rhs),
        concat_sides(source, rhs) is None,
        is_interpolated(expr, string),
        string.children.len() >= 1,
        interpolates(string.children[0], root),
        is_cfg(source, root, "dirroot"@),
    ensures
        string.children.len() == 1 ==> mono_path(source, concat) == code_of(source, rhs),
        string.children.len() == 2 && is_some_text(source, string.children[1]) ==> mono_path(source, concat) == ""@,
{
    string_kinds_differ();
    reveal_strlit("");
    assert(""@ =~= Seq::<char>::empty());
    assert(concat_sides(source, concat) == Some((expr, rhs)));
    assert(concat_sides(source, expr) is None);
    assert(operands(source, expr) =~= seq![expr]);
    assert(operands(source, rhs) =~= seq![rhs]);
    assert(operands(source, concat) =~= seq![expr, rhs]);
    assert(interpolated(expr) == Some(string));
    let first = string.children[0];
    one_part(source, first, root);
    cfg_kinds(source, root, "dirroot"@);
    if string.children.len() == 1 {
        assert(string.children =~= seq![first]);
        let codes = Seq::new(1, |i: int| code_of(source, seq![expr, rhs][i + 1]));
        assert(codes =~= seq![code_of(source, rhs)]);
        assert(cfg_kind(source, expr) is None);
    } else if string.children.len() == 2 && is_some_text(source, string.children[1]) {
        let second = string.children[1];
        assert(string.children =~= seq![first] + seq![second]);
        parts_in_two(source, seq![first], seq![second]);
        one_part(source, second, root);
        assert(meaningful_parts(source, string.children).len() == 2);
        assert(cfg_kind(source, expr) is None);
    }
}

/// A string literal that cannot be parsed stands for what its escapes do between its double quotes, whether or
/// not it says that it is binary; and without double quotes for its own code.
pub proof fn unparsed_strings_contribute(source: Source, expr: Syntax, text: Seq<char>)
    requires
        wraps(expr, "Literal"@),
        only(expr.children[0], "LiteralString"@),
        literal_value(code_of(source, expr.children[0]), None, true) is None,
    ensures
        ({
            let code = code_of(source, expr.children[0]);
            &&& code == seq!['"'] + text + seq!['"'] || code == seq!['b', '"'] + text + seq!['"'] || code == seq![
                'B',
                '"',
            ] + text + seq!['"'] ==> segment(source, expr) == utf8_lossy(unescaped(text))
            &&& code.len() > 0 && code[0] == '\'' ==> segment(source, expr) == code
        }),
{
    string_kinds_differ();
    let code = code_of(source, expr.children[0]);
    if code == seq!['"'] + text + seq!['"'] {
        assert(code[0] == '"' && code.last() == '"');
        assert(code.subrange(1, code.len() - 1) =~= text);
    } else if code == seq!['b', '"'] + text + seq!['"'] || code == seq!['B', '"'] + text + seq!['"'] {
        assert(code[1] == '"' && code.last() == '"');
        assert(code.subrange(2, code.len() - 1) =~= text);
    }
}

/// Literal text between interpolated expressions that cannot be parsed stands for what its escapes do.
pub proof fn unparsed_parts_contribute(source: Source, string: Syntax, n: int)
    requires
        0 <= n < string.children.len(),
        string.children[n].children.len() != 1,
        literal_value(code_of(source, string.children[n]), Some('"'), false) is None,
    ensures
        interpolated_text(source, string, (n + 1) as nat) == interpolated_text(source, string, n as nat) + utf8_lossy(
            unescaped(code_of(source, string.children[n])),
        ),
{
}

// ---------------------------------------------------------------------------------------------
// Nothing is made up.

/// What is found in a node that is neither a path nor a require or include is what is found in its children,
/// one after the other.
pub proof fn other_nodes_hold_what_their_children_hold(
    source: Source,
    assigned: Seq<Assigned>,
    node: Syntax,
    n: nat,
    parent: Option<Seq<char>>,
    scope: Option<u32>,
)
    requires
        node.kind != "Expression"@ || path_kind(source, node) is None,
        construct_of(node.kind) is None,
        node.kind != "Assignment"@,
        n < node.children.len(),
    ensures
        references_in(source, assigned, node, parent, scope) == references_below(
            source,
            assigned,
            node,
            node.children.len(),
            parent,
            scope,
        ),
        references_below(source, assigned, node, 0, parent, scope).len() == 0,
        references_below(source, assigned, node, n + 1, parent, scope) == references_below(
            source,
            assigned,
            node,
            n,
            parent,
            scope,
        ) + references_in(
            source,
            assigned,
            node.children[n as int],
            child_parent(source, node, n as int, parent),
            child_scope(node, n as int, scope),
        ),
{
    construct_kinds_differ();
}

/// What stands in anything but a call's parentheses, or parentheses of its own, is passed to nothing.
pub proof fn other_values_have_no_parent(source: Source, node: Syntax, i: int, parent: Option<Seq<char>>)
    requires
        node.kind == "Binary"@ || node.kind == "Assignment"@ || node.kind == "Statement"@ || node.kind == "Array"@
            || node.kind == "Call"@ || node.kind == "Conditional"@ || node.kind == "Return"@ || node.kind
            == "FunctionCall"@ && i == 0 || wraps(node, "Binary"@) || wraps(node, "Call"@) || wraps(node, "Array"@),
    ensures
        child_parent(source, node, i, parent) is None,
{
    construct_kinds_differ();
    reveal_strlit("Binary");
    reveal_strlit("Assignment");
    reveal_strlit("Statement");
    reveal_strlit("Array");
    reveal_strlit("Call");
    reveal_strlit("Conditional");
    reveal_strlit("Return");
    reveal_strlit("Expression");
    reveal_strlit("RequireConstruct");
    reveal_strlit("RequireOnceConstruct");
    reveal_strlit("IncludeConstruct");
    reveal_strlit("IncludeOnceConstruct");
    reveal_strlit("FunctionCall");
    reveal_strlit("MethodCall");
    reveal_strlit("StaticMethodCall");
    reveal_strlit("ArgumentList");
    reveal_strlit("Argument");
    reveal_strlit("PositionalArgument");
    reveal_strlit("NamedArgument");
    reveal_strlit("Parenthesized");
    assert("Binary"@.len() == 6 && "Assignment"@.len() == 10 && "Statement"@.len() == 9 && "Array"@.len() == 5);
    assert("Call"@.len() == 4 && "Conditional"@.len() == 11 && "Return"@.len() == 6 && "Expression"@.len() == 10);
    assert("RequireConstruct"@.len() == 16 && "RequireOnceConstruct"@.len() == 20);
    assert("IncludeConstruct"@.len() == 16 && "IncludeOnceConstruct"@.len() == 20);
    assert("FunctionCall"@.len() == 12 && "MethodCall"@.len() == 10 && "StaticMethodCall"@.len() == 16);
    assert("ArgumentList"@.len() == 12 && "Argument"@.len() == 8 && "PositionalArgument"@.len() == 18);
    assert("NamedArgument"@.len() == 13 && "Parenthesized"@.len() == 13);
    assert("Assignment"@[0] == 'A' && "MethodCall"@[0] == 'M' && "Expression"@[0] == 'E');
    assert("FunctionCall"@[0] == 'F' && "ArgumentList"@[0] == 'A');
}

/// Every known assignment is one of a path to a plain variable, with a plain equals sign, somewhere in the
/// tree.
pub proof fn known_assignments_are_there(source: Source, node: Syntax, k: int) -> (at: Seq<int>)
    requires
        0 <= k < assignments_in(source, node).len(),
    ensures
        node_at(node, at) is Some,
        assigns_a_path(source, node_at(node, at)->0, assignments_in(source, node)[k]),
    decreases node, node.children.len() + 1,
{
    let below = assignments_below(source, node, node.children.len());
    let all = assignments_in(source, node);
    if own_assignment(source, node) is Some && k == 0 {
        Seq::empty()
    } else {
        let j = if own_assignment(source, node) is Some {
            k - 1
        } else {
            k
        };
        assert(all[k] == below[j]);
        known_assignments_are_below(source, node, node.children.len(), j)
    }
}

proof fn known_assignments_are_below(source: Source, node: Syntax, n: nat, k: int) -> (at: Seq<int>)
    requires
        n <= node.children.len(),
        0 <= k < assignments_below(source, node, n).len(),
    ensures
        node_at(node, at) is Some,
        assigns_a_path(source, node_at(node, at)->0, assignments_below(source, node, n)[k]),
    decreases node, n,
{
    let before = assignments_below(source, node, (n - 1) as nat);
    if k < before.len() {
        known_assignments_are_below(source, node, (n - 1) as nat, k)
    } else {
        let inside = known_assignments_are_there(source, node.children[n - 1], k - before.len());
        let at = seq![n - 1] + inside;
        assert(at.drop_first() =~= inside);
        at
    }
}

/// Whether `node` assigns a path to a plain variable, with a plain equals sign, and `own` says which.
pub open spec fn assigns_a_path(source: Source, node: Syntax, own: Assigned) -> bool {
    &&& node.kind == "Assignment"@
    &&& node.children.len() == 3
    &&& code_of(source, node.children[1]) == "="@
    &&& own.start == node.start
    &&& own.value == unparenthesized(node.children[2])
    &&& path_kind(source, own.value) is Some
    &&& wraps(node.children[0], "Variable"@) ==> only(node.children[0].children[0], "DirectVariable"@) && code_of(
        source,
        node.children[0].children[0],
    ) == own.name
}

/// An operator other than that of concatenation makes no path, whatever stands on either side.
pub proof fn other_operators_make_no_path(source: Source, expr: Syntax)
    requires
        wraps(expr, "Binary"@),
        expr.children[0].children.len() == 3,
        code_of(source, expr.children[0].children[1]) != "."@,
    ensures
        path_kind(source, expr) is None,
{
    string_kinds_differ();
}

} // verus!
