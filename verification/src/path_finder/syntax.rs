//! PHP source as a tree of syntax nodes.

use bumpalo::Bump;
use mago_database::file::File;
use mago_span::HasSpan;
use mago_syntax::ast::Node;
use mago_syntax::parser::parse_file;
use mago_syntax_core::utils::parse_literal_string_in;
use vstd::prelude::*;
use vstd::utf8::decode_utf8;
use vstd::utf8::valid_utf8;

use crate::text::copy;

verus! {

/// One node of a syntax tree, as it stands in the list of all nodes: after its children.
#[derive(Debug)]
pub struct SyntaxNode {
    /// The kind of node, e.g. "Expression" or "PropertyAccess".
    pub kind: String,
    /// Byte offset of the start of the node (inclusive).
    pub start: usize,
    /// Byte offset of the end of the node (exclusive).
    pub end: usize,
    /// 0-indexed line of the start of the node.
    pub line: u32,
    /// 0-indexed line of the end of the node.
    pub end_line: u32,
    /// How many children the node has.
    pub arity: usize,
}

/// One node of a syntax tree, as a plain value.
pub struct NodeView {
    pub kind: Seq<char>,
    pub start: usize,
    pub end: usize,
    pub line: u32,
    pub end_line: u32,
    pub arity: usize,
}

impl View for SyntaxNode {
    type V = NodeView;

    open spec fn view(&self) -> NodeView {
        NodeView {
            kind: self.kind@,
            start: self.start,
            end: self.end,
            line: self.line,
            end_line: self.end_line,
            arity: self.arity,
        }
    }
}

/// The nodes of a list, as plain values.
pub open spec fn node_views(nodes: Seq<SyntaxNode>) -> Seq<NodeView> {
    Seq::new(nodes.len(), |i: int| nodes[i]@)
}

/// The nodes that `mago_syntax` parses a PHP source into, children before their parents.
pub uninterp spec fn php_nodes(source: Seq<char>) -> Seq<NodeView>;

/// Calls `mago_syntax::parser::parse_file` on `source` and lists all nodes of the program it
/// returns, by `Node::filter_map`: each after its children, with its kind, span, lines (by
/// `File::line_number`) and number of children. The claim is that the list depends on the source
/// alone. Nothing is claimed of how the spans of nodes lie to each other.
#[verifier::external_body]
pub(crate) fn parse_php(source: &str) -> (nodes: Vec<SyntaxNode>)
    ensures
        node_views(nodes@) == php_nodes(source@),
{
    let (arena, file) = (Bump::new(), File::ephemeral("".into(), source.to_string().into()));
    Node::Program(parse_file(&arena, &file)).filter_map(|node| Some(SyntaxNode {
        kind: node.kind().to_string(),
        start: node.span().start.offset as usize,
        end: node.span().end.offset as usize,
        line: file.line_number(node.span().start.offset),
        end_line: file.line_number(node.span().end.offset),
        arity: node.children().len(),
    }))
}

/// What `String::from_utf8_lossy` makes of some bytes.
pub uninterp spec fn utf8_lossy(bytes: Seq<u8>) -> Seq<char>;

/// Calls `String::from_utf8_lossy`. The claim is that the text depends on the bytes alone, and that
/// valid UTF-8 is decoded as it stands.
#[verifier::external_body]
pub(crate) fn lossy_text(bytes: &[u8]) -> (text: String)
    ensures
        text@ == utf8_lossy(bytes@),
        valid_utf8(bytes@) ==> text@ == decode_utf8(bytes@),
{
    String::from_utf8_lossy(bytes).into_owned()
}

/// What a PHP string literal stands for, its escape sequences resolved by the rules of the quote
/// character `quote` (or of the one around it, where `has_quote` says that it has one); nothing if
/// it is not a valid literal.
pub uninterp spec fn literal_value(raw: Seq<char>, quote: Option<char>, has_quote: bool) -> Option<Seq<char>>;

/// Calls `mago_syntax_core::utils::parse_literal_string_in`. The claim is that the result depends on
/// the arguments alone.
#[verifier::external_body]
pub(crate) fn parse_literal(raw: &str, quote: Option<char>, has_quote: bool) -> (value: Option<String>)
    ensures
        match value {
            Some(text) => literal_value(raw@, quote, has_quote) == Some(text@),
            None => literal_value(raw@, quote, has_quote) is None,
        },
{
    parse_literal_string_in(&Bump::new(), raw, quote, has_quote).map(String::from)
}

/// A syntax tree.
#[derive(Debug)]
pub struct Tree {
    pub kind: String,
    pub start: usize,
    pub end: usize,
    pub line: u32,
    pub end_line: u32,
    pub children: Vec<Tree>,
}

/// A syntax tree, as a plain value.
pub struct Syntax {
    pub kind: Seq<char>,
    pub start: usize,
    pub end: usize,
    pub line: u32,
    pub end_line: u32,
    pub children: Seq<Syntax>,
}

impl Tree {
    /// The tree as a plain value.
    pub open spec fn syntax(&self) -> Syntax
        decreases self,
    {
        Syntax {
            kind: self.kind@,
            start: self.start,
            end: self.end,
            line: self.line,
            end_line: self.end_line,
            children: Seq::new(
                self.children.len() as nat,
                |i: int|
                    if 0 <= i < self.children.len() {
                        self.children[i].syntax()
                    } else {
                        arbitrary()
                    },
            ),
        }
    }
}

/// Some trees, as plain values.
pub open spec fn syntaxes(trees: Seq<Tree>) -> Seq<Syntax> {
    Seq::new(trees.len(), |i: int| trees[i].syntax())
}

/// The trees that a list of nodes makes up: each node takes the trees before it that are its
/// children.
pub open spec fn forest(nodes: Seq<NodeView>) -> Seq<Syntax>
    decreases nodes.len(),
{
    if nodes.len() == 0 {
        Seq::<Syntax>::empty()
    } else {
        let before = forest(nodes.drop_last());
        let node = nodes.last();
        let own = if node.arity <= before.len() {
            node.arity as int
        } else {
            before.len() as int
        };
        before.take(before.len() - own).push(
            Syntax {
                kind: node.kind,
                start: node.start,
                end: node.end,
                line: node.line,
                end_line: node.end_line,
                children: before.skip(before.len() - own),
            },
        )
    }
}

/// The trees that a list of nodes makes up.
pub fn trees_of(nodes: &Vec<SyntaxNode>) -> (trees: Vec<Tree>)
    ensures
        syntaxes(trees@) == forest(node_views(nodes@)),
{
    let mut trees: Vec<Tree> = Vec::new();
    let mut i: usize = 0;
    let ghost all = node_views(nodes@);
    assert(syntaxes(trees@) =~= forest(all.take(0)));
    while i < nodes.len()
        invariant
            i <= nodes.len(),
            all == node_views(nodes@),
            syntaxes(trees@) == forest(all.take(i as int)),
        decreases nodes.len() - i,
    {
        let node = &nodes[i];
        let ghost before = syntaxes(trees@);
        assert(all.take(i + 1).drop_last() =~= all.take(i as int));
        assert(all.take(i + 1).last() == node@);
        let own: usize = if node.arity <= trees.len() {
            node.arity
        } else {
            trees.len()
        };
        let first: usize = trees.len() - own;
        let children = trees.split_off(first);
        let tree = Tree {
            kind: copy(&node.kind),
            start: node.start,
            end: node.end,
            line: node.line,
            end_line: node.end_line,
            children,
        };
        assert(tree.syntax().children =~= before.skip(first as int));
        trees.push(tree);
        assert(syntaxes(trees@) =~= before.take(first as int).push(tree.syntax()));
        i += 1;
    }
    assert(all.take(i as int) =~= all);
    trees
}

} // verus!
