//! The AST builder, on trees written by hand.

use schema_lang::ast::{identifier_name, AstNode};
use schema_lang::builder::{
    attribute, can_reduce, has_name, has_text, identifier, parse, schema_method, type_node,
};
use schema_lang::matcher::match_program;
use schema_lang::syntax::{Rule, SyntaxNode};
use schema_lang::text::read_span;

fn leaf(rule: Rule, start: usize, end: usize) -> SyntaxNode {
    SyntaxNode::leaf(rule, start, end)
}

fn name(start: usize, end: usize) -> SyntaxNode {
    leaf(Rule::Identifier, start, end)
}

fn ident(text: &str) -> AstNode {
    AstNode::Identifier(text.to_string())
}

#[test]
fn identifier_holds_the_text_of_its_span() {
    let source = "schema User { }";
    assert_eq!(identifier(&name(7, 11), source), ident("User"));
    assert_eq!(identifier(&name(0, 6), source), ident("schema"));
    assert_eq!(identifier(&name(3, 3), source), ident(""));
    assert_eq!(identifier(&name(0, 15), source), ident("schema User { }"));
}

#[test]
fn identifier_reads_any_tag() {
    let source = "a: Bc";
    assert_eq!(identifier(&leaf(Rule::Type, 3, 5), source), ident("Bc"));
    assert_eq!(identifier(&leaf(Rule::Schema, 0, 2), source), ident("a:"));
}

#[test]
fn identifier_keeps_characters_beyond_ascii() {
    let source = "x \u{e9}t\u{e9} y";
    assert_eq!(identifier(&name(2, 7), source), ident("\u{e9}t\u{e9}"));
    assert_eq!(read_span(source, 2, 4), "\u{e9}");
    assert_eq!(read_span(source, 0, 9), source);
}

#[test]
fn type_wraps_its_identifier() {
    let source = "Number";
    let node = SyntaxNode::unary(Rule::Type, 0, 6, name(0, 6));
    assert_eq!(type_node(&node, source), AstNode::Type(Box::new(ident("Number"))));
}

#[test]
fn method_has_a_name() {
    let source = "run ( )";
    let node = SyntaxNode::unary(Rule::SchemaMethod, 0, 7, name(0, 3));
    assert_eq!(schema_method(&node, source), AstNode::SchemaMethod { name: Box::new(ident("run")) });
}

#[test]
fn attribute_has_a_name_and_a_type() {
    let source = "age: Number";
    let ty = SyntaxNode::unary(Rule::Type, 5, 11, name(5, 11));
    let node = SyntaxNode::binary(Rule::SchemaAttribute, 0, 11, name(0, 3), ty);
    let expected = AstNode::SchemaAttribute {
        name: Box::new(ident("age")),
        ty: Box::new(AstNode::Type(Box::new(ident("Number")))),
    };
    assert_eq!(attribute(&node, source), expected);
}

#[test]
fn parse_goes_by_the_rule() {
    let source = "age: Number";
    let mut notices = Vec::new();
    assert_eq!(parse(&name(0, 3), source, &mut notices), ident("age"));
    let ty = SyntaxNode::unary(Rule::Type, 5, 11, name(5, 11));
    assert_eq!(parse(&ty, source, &mut notices), AstNode::Type(Box::new(ident("Number"))));
    let method = SyntaxNode::unary(Rule::SchemaMethod, 0, 3, name(0, 3));
    assert_eq!(
        parse(&method, source, &mut notices),
        AstNode::SchemaMethod { name: Box::new(ident("age")) }
    );
    let ty = SyntaxNode::unary(Rule::Type, 5, 11, name(5, 11));
    let attr = SyntaxNode::binary(Rule::SchemaAttribute, 0, 11, name(0, 3), ty);
    assert_eq!(
        parse(&attr, source, &mut notices),
        AstNode::SchemaAttribute {
            name: Box::new(ident("age")),
            ty: Box::new(AstNode::Type(Box::new(ident("Number")))),
        }
    );
    assert!(notices.is_empty());
}

#[test]
fn body_without_members_reduces_to_empty_body() {
    let mut notices = Vec::new();
    let body = leaf(Rule::SchemaBody, 0, 3);
    assert_eq!(parse(&body, "{ }", &mut notices), AstNode::SchemaBody { definitions: vec![] });
    assert!(notices.is_empty());
    let anywhere = leaf(Rule::SchemaBody, 70, 20);
    assert_eq!(parse(&anywhere, "", &mut notices), AstNode::SchemaBody { definitions: vec![] });
    assert!(notices.is_empty());
}

#[test]
fn schema_reduces_name_and_body() {
    let source = "schema A { f() }";
    let method = SyntaxNode::unary(Rule::SchemaMethod, 11, 14, name(11, 12));
    let body = SyntaxNode::new(Rule::SchemaBody, 9, 16, vec![method]);
    let schema = SyntaxNode::binary(Rule::Schema, 0, 16, name(7, 8), body);
    let mut notices = Vec::new();
    let expected = AstNode::SchemaDef {
        name: Box::new(ident("A")),
        body: Box::new(AstNode::SchemaBody {
            definitions: vec![AstNode::SchemaMethod { name: Box::new(ident("f")) }],
        }),
    };
    assert_eq!(parse(&schema, source, &mut notices), expected);
    assert!(notices.is_empty());
}

#[test]
fn unknown_rule_gives_invalid_node_and_a_notice() {
    let mut notices = Vec::new();
    assert_eq!(parse(&leaf(Rule::Program, 0, 0), "", &mut notices), AstNode::InvalidNode);
    assert_eq!(notices, vec![Rule::Program]);
    assert_eq!(parse(&leaf(Rule::EndOfInput, 9, 2), "", &mut notices), AstNode::InvalidNode);
    assert_eq!(notices, vec![Rule::Program, Rule::EndOfInput]);
    let full = SyntaxNode::unary(Rule::Program, 0, 1, name(0, 1));
    assert_eq!(parse(&full, "a", &mut notices), AstNode::InvalidNode);
    assert_eq!(notices, vec![Rule::Program, Rule::EndOfInput, Rule::Program]);
}

#[test]
fn unknown_rule_does_not_stop_its_siblings() {
    let source = "{ a() ? b() }";
    let first = SyntaxNode::unary(Rule::SchemaMethod, 2, 5, name(2, 3));
    let odd = leaf(Rule::EndOfInput, 6, 7);
    let inner = SyntaxNode::new(Rule::SchemaBody, 6, 7, vec![leaf(Rule::Program, 6, 7)]);
    let last = SyntaxNode::unary(Rule::SchemaMethod, 8, 11, name(8, 9));
    let body = SyntaxNode::new(Rule::SchemaBody, 0, 13, vec![first, odd, inner, last]);
    let schema = SyntaxNode::binary(Rule::Schema, 0, 13, name(2, 3), body);
    let mut notices = vec![Rule::Type];
    let reduced = parse(&schema, source, &mut notices);
    let expected = AstNode::SchemaDef {
        name: Box::new(ident("a")),
        body: Box::new(AstNode::SchemaBody {
            definitions: vec![
                AstNode::SchemaMethod { name: Box::new(ident("a")) },
                AstNode::InvalidNode,
                AstNode::SchemaBody { definitions: vec![AstNode::InvalidNode] },
                AstNode::SchemaMethod { name: Box::new(ident("b")) },
            ],
        }),
    };
    assert_eq!(reduced, expected);
    assert_eq!(notices, vec![Rule::Type, Rule::EndOfInput, Rule::Program]);
}

#[test]
fn reducing_twice_gives_equal_trees() {
    let source = "age: Number";
    let ty = SyntaxNode::unary(Rule::Type, 5, 11, name(5, 11));
    let attr = SyntaxNode::binary(Rule::SchemaAttribute, 0, 11, name(0, 3), ty);
    let mut notices = Vec::new();
    let first = parse(&attr, source, &mut notices);
    let second = parse(&attr, source, &mut notices);
    assert_eq!(first, second);
}

#[test]
fn name_of_an_identifier() {
    assert_eq!(identifier_name(ident("User")), "User");
    assert_eq!(identifier_name(ident("")), "");
}

#[test]
fn name_of_another_node() {
    assert_eq!(identifier_name(AstNode::InvalidNode), "invalid parse");
    assert_eq!(identifier_name(AstNode::Type(Box::new(ident("T")))), "invalid parse");
    assert_eq!(identifier_name(AstNode::SchemaBody { definitions: vec![] }), "invalid parse");
    assert_eq!(
        identifier_name(AstNode::SchemaMethod { name: Box::new(ident("f")) }),
        "invalid parse"
    );
}

#[test]
fn nodes_are_built_as_written() {
    let a = SyntaxNode::leaf(Rule::Identifier, 1, 2);
    assert_eq!(a, SyntaxNode { rule: Rule::Identifier, start: 1, end: 2, children: vec![] });
    let b = SyntaxNode::unary(Rule::Type, 1, 2, a);
    assert_eq!(b.children.len(), 1);
    assert_eq!(b.children[0], SyntaxNode::leaf(Rule::Identifier, 1, 2));
    let c = SyntaxNode::binary(Rule::SchemaAttribute, 0, 2, SyntaxNode::leaf(Rule::Identifier, 0, 1), b);
    assert_eq!((c.rule, c.start, c.end, c.children.len()), (Rule::SchemaAttribute, 0, 2, 2));
    assert_eq!(c.children[1].rule, Rule::Type);
}

#[test]
fn text_needs_a_span_between_characters() {
    let source = "a\u{e9}b";
    assert!(has_text(&name(0, 4), source));
    assert!(has_text(&name(0, 0), source));
    assert!(has_text(&name(4, 4), source));
    assert!(has_text(&name(1, 3), source));
    assert!(has_text(&leaf(Rule::Program, 3, 4), source));
    assert!(!has_text(&name(0, 2), source));
    assert!(!has_text(&name(2, 3), source));
    assert!(!has_text(&name(2, 2), source));
    assert!(!has_text(&name(3, 1), source));
    assert!(!has_text(&name(0, 5), source));
    assert!(!has_text(&name(5, 5), source));
    assert!(!has_text(&name(7, 9), source));
}

#[test]
fn name_is_a_first_child_with_a_text() {
    let source = "ab";
    assert!(has_name(&SyntaxNode::unary(Rule::Type, 0, 2, name(0, 2)), source));
    assert!(has_name(&SyntaxNode::unary(Rule::Program, 9, 9, leaf(Rule::Schema, 1, 1)), source));
    assert!(!has_name(&leaf(Rule::Type, 0, 2), source));
    assert!(!has_name(&SyntaxNode::unary(Rule::Type, 0, 2, name(0, 3)), source));
}

#[test]
fn what_the_matcher_yields_can_be_reduced() {
    let source = "schema A { x: T f() } schema B { }";
    for node in match_program(source).unwrap() {
        assert!(can_reduce(&node, source));
    }
}

#[test]
fn trees_of_another_shape_cannot_be_reduced() {
    let source = "ab: cd";
    let ty = || SyntaxNode::unary(Rule::Type, 4, 6, name(4, 6));
    let attr = || SyntaxNode::binary(Rule::SchemaAttribute, 0, 6, name(0, 2), ty());
    let body = |children| SyntaxNode::new(Rule::SchemaBody, 0, 6, children);
    assert!(can_reduce(&name(0, 2), source));
    assert!(!can_reduce(&name(0, 7), source));
    assert!(can_reduce(&ty(), source));
    assert!(!can_reduce(&leaf(Rule::Type, 4, 6), source));
    assert!(can_reduce(&SyntaxNode::unary(Rule::SchemaMethod, 0, 2, name(0, 2)), source));
    assert!(!can_reduce(&leaf(Rule::SchemaMethod, 0, 2), source));
    assert!(can_reduce(&attr(), source));
    assert!(!can_reduce(&SyntaxNode::unary(Rule::SchemaAttribute, 0, 6, name(0, 2)), source));
    let untyped = SyntaxNode::binary(Rule::SchemaAttribute, 0, 6, name(0, 2), name(4, 6));
    assert!(!can_reduce(&untyped, source));
    let far = SyntaxNode::binary(Rule::SchemaAttribute, 0, 6, name(0, 9), ty());
    assert!(!can_reduce(&far, source));
    assert!(can_reduce(&body(vec![]), source));
    assert!(can_reduce(&body(vec![attr(), leaf(Rule::EndOfInput, 9, 0), attr()]), source));
    assert!(!can_reduce(&body(vec![attr(), leaf(Rule::Type, 0, 2), attr()]), source));
    assert!(can_reduce(&SyntaxNode::binary(Rule::Schema, 0, 6, name(0, 2), body(vec![])), source));
    assert!(can_reduce(&SyntaxNode::binary(Rule::Schema, 0, 6, name(0, 2), name(4, 6)), source));
    assert!(!can_reduce(&SyntaxNode::unary(Rule::Schema, 0, 6, name(0, 2)), source));
    let inner = body(vec![leaf(Rule::SchemaMethod, 0, 2)]);
    assert!(!can_reduce(&SyntaxNode::binary(Rule::Schema, 0, 6, name(0, 2), inner), source));
    assert!(can_reduce(&leaf(Rule::Program, 50, 2), source));
    assert!(can_reduce(&leaf(Rule::EndOfInput, 50, 2), source));
}
