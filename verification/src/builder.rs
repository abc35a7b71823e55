//! The AST builder: it reduces a matched-syntax tree to an abstract syntax
//! tree, node by node, by the rule that each node carries.
//!
//! A node is reduced from its own children alone. The builder reads the text
//! of a node from the source that the node was matched in, so it takes that
//! source beside the node.

use vstd::prelude::*;
use vstd::string::*;
use vstd::utf8::*;
use crate::ast::{asts, lemma_asts_push, lemma_view_definitions, Ast, AstNode};
use crate::syntax::{lemma_view_children, views, Rule, SyntaxNode, SyntaxTree};
use crate::text::{is_span, read_span, span_text};

verus! {

/// Whether the text of `t` can be read from `s`.
pub open spec fn readable(t: SyntaxTree, s: Seq<u8>) -> bool {
    is_span(s, t.start, t.end)
}

/// Whether `t` has the name that a `Type` or a `SchemaMethod` is reduced
/// from: a first child with a text.
pub open spec fn named(t: SyntaxTree, s: Seq<u8>) -> bool {
    t.children.len() >= 1 && readable(t.children[0], s)
}

/// Whether `t` has what a `SchemaAttribute` is reduced from: a first child
/// with a text, and a second that holds a name.
pub open spec fn attribute_shaped(t: SyntaxTree, s: Seq<u8>) -> bool {
    t.children.len() >= 2 && readable(t.children[0], s) && named(t.children[1], s)
}

/// Whether `t` has the shape that its rule is reduced from. The builder
/// takes no other tree.
pub open spec fn reducible(t: SyntaxTree, s: Seq<u8>) -> bool
    decreases t,
{
    match t.rule {
        Rule::Schema => t.children.len() >= 2 && readable(t.children[0], s) && reducible(
            t.children[1],
            s,
        ),
        Rule::SchemaBody => forall|i: int|
            0 <= i < t.children.len() ==> reducible(#[trigger] t.children[i], s),
        Rule::SchemaAttribute => attribute_shaped(t, s),
        Rule::SchemaMethod => named(t, s),
        Rule::Type => named(t, s),
        Rule::Identifier => readable(t, s),
        _ => true,
    }
}

/// The `Identifier` that holds the text of `t`, as it stands in the source.
pub open spec fn reduce_identifier(t: SyntaxTree, s: Seq<u8>) -> Ast {
    Ast::Identifier(span_text(s, t.start, t.end))
}

/// The `Type` that wraps the first child of `t`, read as an identifier.
pub open spec fn reduce_type(t: SyntaxTree, s: Seq<u8>) -> Ast {
    Ast::Type(Box::new(reduce_identifier(t.children[0], s)))
}

/// The `SchemaMethod` named by the first child of `t`.
pub open spec fn reduce_method(t: SyntaxTree, s: Seq<u8>) -> Ast {
    Ast::SchemaMethod { name: Box::new(reduce_identifier(t.children[0], s)) }
}

/// The `SchemaAttribute` named by the first child of `t`, with the second
/// child as its type.
pub open spec fn reduce_attribute(t: SyntaxTree, s: Seq<u8>) -> Ast {
    Ast::SchemaAttribute {
        name: Box::new(reduce_identifier(t.children[0], s)),
        ty: Box::new(reduce_type(t.children[1], s)),
    }
}

/// The reductions of `trees`, in order.
pub open spec fn reduce_each(trees: Seq<SyntaxTree>, s: Seq<u8>) -> Seq<Ast>
    decreases trees,
{
    Seq::new(
        trees.len(),
        |i: int|
            if 0 <= i < trees.len() {
                reduce(trees[i], s)
            } else {
                Ast::InvalidNode
            },
    )
}

/// The AST node that `t` reduces to, by its rule. A rule without a
/// reduction gives `InvalidNode`.
pub open spec fn reduce(t: SyntaxTree, s: Seq<u8>) -> Ast
    decreases t,
{
    match t.rule {
        Rule::Schema => if t.children.len() >= 2 {
            Ast::SchemaDef {
                name: Box::new(reduce_identifier(t.children[0], s)),
                body: Box::new(reduce(t.children[1], s)),
            }
        } else {
            Ast::InvalidNode
        },
        Rule::SchemaBody => Ast::SchemaBody { definitions: reduce_each(t.children, s) },
        Rule::SchemaAttribute => reduce_attribute(t, s),
        Rule::SchemaMethod => reduce_method(t, s),
        Rule::Type => reduce_type(t, s),
        Rule::Identifier => reduce_identifier(t, s),
        _ => Ast::InvalidNode,
    }
}

/// The notices of each of `trees`, in order.
pub open spec fn notices_of_each(trees: Seq<SyntaxTree>) -> Seq<Seq<Rule>>
    decreases trees,
{
    Seq::new(
        trees.len(),
        |i: int|
            if 0 <= i < trees.len() {
                notices_of(trees[i])
            } else {
                Seq::empty()
            },
    )
}

/// The notices that reducing `t` gives: the rule of each node that was
/// reduced to `InvalidNode`, in the order of the reduction.
pub open spec fn notices_of(t: SyntaxTree) -> Seq<Rule>
    decreases t,
{
    match t.rule {
        Rule::Schema => if t.children.len() >= 2 {
            notices_of(t.children[1])
        } else {
            Seq::empty()
        },
        Rule::SchemaBody => notices_of_each(t.children).flatten(),
        Rule::SchemaAttribute | Rule::SchemaMethod | Rule::Type | Rule::Identifier => Seq::empty(),
        _ => seq![t.rule],
    }
}

/// Tests whether the text of `node` can be read from `source`.
pub fn has_text(node: &SyntaxNode, source: &str) -> (found: bool)
    ensures
        found == readable(node@, source.spec_bytes()),
{
    broadcast use encode_utf8_valid_utf8;

    node.start <= node.end && node.end <= source.as_bytes().len() && source.is_char_boundary(
        node.start,
    ) && source.is_char_boundary(node.end)
}

/// Tests whether `node` has a first child with a text.
pub fn has_name(node: &SyntaxNode, source: &str) -> (found: bool)
    ensures
        found == named(node@, source.spec_bytes()),
{
    proof {
        lemma_view_children(*node);
    }
    node.children.len() >= 1 && has_text(&node.children[0], source)
}

/// Tests whether `node` has the shape that its rule is reduced from: whether
/// [`parse`] takes it.
pub fn can_reduce(node: &SyntaxNode, source: &str) -> (shaped: bool)
    ensures
        shaped == reducible(node@, source.spec_bytes()),
    decreases node,
{
    let ghost s = source.spec_bytes();
    proof {
        lemma_view_children(*node);
    }
    match node.rule {
        Rule::Schema => {
            if node.children.len() >= 2 && has_text(&node.children[0], source) {
                assert(node@.children[1] == node.children[1]@);
                can_reduce(&node.children[1], source)
            } else {
                false
            }
        },
        Rule::SchemaBody => {
            let mut i: usize = 0;
            while i < node.children.len()
                invariant
                    i <= node.children.len(),
                    s == source.spec_bytes(),
                    node.rule == Rule::SchemaBody,
                    node@.children == views(node.children@),
                    forall|k: int| 0 <= k < i ==> reducible(#[trigger] node@.children[k], s),
                decreases node.children.len() - i,
            {
                let child: &SyntaxNode = &node.children[i];
                assert(node@.children[i as int] == child@);
                if !can_reduce(child, source) {
                    return false;
                }
                i = i + 1;
            }
            true
        },
        Rule::SchemaAttribute => {
            if node.children.len() >= 2 && has_text(&node.children[0], source) {
                assert(node@.children[1] == node.children[1]@);
                has_name(&node.children[1], source)
            } else {
                false
            }
        },
        Rule::SchemaMethod => has_name(node, source),
        Rule::Type => has_name(node, source),
        Rule::Identifier => has_text(node, source),
        _ => true,
    }
}

/// Reduces a node to the `Identifier` that holds its text.
pub fn identifier(node: &SyntaxNode, source: &str) -> (ast: AstNode)
    requires
        readable(node@, source.spec_bytes()),
    ensures
        ast@ == reduce_identifier(node@, source.spec_bytes()),
{
    AstNode::Identifier(read_span(source, node.start, node.end))
}

/// Reduces a `Type` node.
pub fn type_node(node: &SyntaxNode, source: &str) -> (ast: AstNode)
    requires
        named(node@, source.spec_bytes()),
    ensures
        ast@ == reduce_type(node@, source.spec_bytes()),
{
    proof {
        lemma_view_children(*node);
    }
    let name: AstNode = identifier(&node.children[0], source);
    AstNode::Type(Box::new(name))
}

/// Reduces a `SchemaMethod` node.
pub fn schema_method(node: &SyntaxNode, source: &str) -> (ast: AstNode)
    requires
        named(node@, source.spec_bytes()),
    ensures
        ast@ == reduce_method(node@, source.spec_bytes()),
{
    proof {
        lemma_view_children(*node);
    }
    let name: AstNode = identifier(&node.children[0], source);
    AstNode::SchemaMethod { name: Box::new(name) }
}

/// Reduces a `SchemaAttribute` node.
pub fn attribute(node: &SyntaxNode, source: &str) -> (ast: AstNode)
    requires
        attribute_shaped(node@, source.spec_bytes()),
    ensures
        ast@ == reduce_attribute(node@, source.spec_bytes()),
{
    proof {
        lemma_view_children(*node);
    }
    let name: AstNode = identifier(&node.children[0], source);
    let ty: AstNode = type_node(&node.children[1], source);
    AstNode::SchemaAttribute { name: Box::new(name), ty: Box::new(ty) }
}

/// Reduces a node to one AST node, by its rule. For a rule without a
/// reduction it returns `InvalidNode` and adds the rule to `notices`.
pub fn parse(node: &SyntaxNode, source: &str, notices: &mut Vec<Rule>) -> (ast: AstNode)
    requires
        reducible(node@, source.spec_bytes()),
    ensures
        ast@ == reduce(node@, source.spec_bytes()),
        final(notices)@ == old(notices)@ + notices_of(node@),
    decreases node,
{
    let ghost s = source.spec_bytes();
    let ghost before = notices@;
    proof {
        lemma_view_children(*node);
    }
    match node.rule {
        Rule::Schema => {
            let name: AstNode = identifier(&node.children[0], source);
            assert(node@.children[1] == node.children[1]@);
            let body: AstNode = parse(&node.children[1], source, notices);
            AstNode::SchemaDef { name: Box::new(name), body: Box::new(body) }
        },
        Rule::SchemaBody => {
            let ghost parts = notices_of_each(node@.children);
            let mut definitions: Vec<AstNode> = Vec::new();
            let mut i: usize = 0;
            assert(parts.subrange(0, 0) =~= Seq::empty());
            assert(before + Seq::<Seq<Rule>>::empty().flatten() =~= before);
            while i < node.children.len()
                invariant
                    i <= node.children.len(),
                    s == source.spec_bytes(),
                    node.rule == Rule::SchemaBody,
                    reducible(node@, s),
                    node@.children == views(node.children@),
                    parts == notices_of_each(node@.children),
                    asts(definitions@) == reduce_each(node@.children.subrange(0, i as int), s),
                    notices@ == before + parts.subrange(0, i as int).flatten(),
                decreases node.children.len() - i,
            {
                let child: &SyntaxNode = &node.children[i];
                assert(node@.children[i as int] == child@);
                let definition: AstNode = parse(child, source, notices);
                proof {
                    let trees = node@.children;
                    lemma_asts_push(definitions@, definition);
                    assert(reduce_each(trees.subrange(0, i + 1), s) =~= reduce_each(
                        trees.subrange(0, i as int),
                        s,
                    ).push(reduce(child@, s)));
                    assert(parts.subrange(0, i + 1) =~= parts.subrange(0, i as int).push(
                        parts[i as int],
                    ));
                    parts.subrange(0, i as int).lemma_flatten_push(parts[i as int]);
                    assert(notices@ =~= before + parts.subrange(0, i + 1).flatten());
                }
                definitions.push(definition);
                i = i + 1;
            }
            proof {
                let trees = node@.children;
                assert(trees.subrange(0, i as int) =~= trees);
                assert(parts.subrange(0, i as int) =~= parts);
                lemma_view_definitions(definitions);
            }
            AstNode::SchemaBody { definitions }
        },
        Rule::SchemaAttribute => {
            assert(notices@ + Seq::<Rule>::empty() =~= notices@);
            attribute(node, source)
        },
        Rule::SchemaMethod => {
            assert(notices@ + Seq::<Rule>::empty() =~= notices@);
            schema_method(node, source)
        },
        Rule::Type => {
            assert(notices@ + Seq::<Rule>::empty() =~= notices@);
            type_node(node, source)
        },
        Rule::Identifier => {
            assert(notices@ + Seq::<Rule>::empty() =~= notices@);
            identifier(node, source)
        },
        _ => {
            assert(before + seq![node.rule] =~= before.push(node.rule));
            notices.push(node.rule);
            AstNode::InvalidNode
        },
    }
}

} // verus!
