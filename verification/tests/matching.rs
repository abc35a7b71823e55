//! The grammar matcher, rule by rule.

use schema_lang::ast::AstNode;
use schema_lang::builder::parse;
use schema_lang::matcher::{
    match_attribute, match_body, match_identifier, match_keyword, match_member, match_method,
    match_program, match_rule, match_schema, match_type,
};
use schema_lang::syntax::{Failure, Rule, SyntaxError, SyntaxNode};
use schema_lang::text::{locate, scan_identifier, scan_whitespace};

fn leaf(rule: Rule, start: usize, end: usize) -> SyntaxNode {
    SyntaxNode { rule, start, end, children: vec![] }
}

fn node(rule: Rule, start: usize, end: usize, children: Vec<SyntaxNode>) -> SyntaxNode {
    SyntaxNode { rule, start, end, children }
}

fn name(start: usize, end: usize) -> SyntaxNode {
    leaf(Rule::Identifier, start, end)
}

fn ty(start: usize, end: usize) -> SyntaxNode {
    node(Rule::Type, start, end, vec![name(start, end)])
}

fn failure(at: usize, expected: Vec<Rule>) -> Failure {
    Failure { at, expected }
}

#[test]
fn program_tree_of_one_schema() {
    let nodes = match_program("schema User { name: String age: Number }").unwrap();
    let expected = node(
        Rule::Schema,
        0,
        40,
        vec![
            name(7, 11),
            node(
                Rule::SchemaBody,
                12,
                40,
                vec![
                    node(Rule::SchemaAttribute, 14, 26, vec![name(14, 18), ty(20, 26)]),
                    node(Rule::SchemaAttribute, 27, 38, vec![name(27, 30), ty(32, 38)]),
                ],
            ),
        ],
    );
    assert_eq!(nodes, vec![expected]);
}

#[test]
fn program_tree_of_empty_schema() {
    let nodes = match_program("schema Empty { }").unwrap();
    let expected = node(
        Rule::Schema,
        0,
        16,
        vec![name(7, 12), node(Rule::SchemaBody, 13, 16, vec![])],
    );
    assert_eq!(nodes, vec![expected]);
}

#[test]
fn program_yields_only_schema_nodes() {
    let nodes = match_program("  schema A {}\nschema B {}\n").unwrap();
    assert_eq!(nodes.len(), 2);
    assert!(nodes.iter().all(|n| n.rule == Rule::Schema));
    assert_eq!((nodes[0].start, nodes[0].end), (2, 13));
    assert_eq!((nodes[1].start, nodes[1].end), (14, 25));
}

#[test]
fn program_error_has_position_and_rules() {
    let error = match_program("schema Bad {").unwrap_err();
    assert_eq!(
        error,
        SyntaxError {
            offset: 12,
            line: 0,
            column: 12,
            expected: vec![Rule::SchemaAttribute, Rule::SchemaMethod],
        }
    );
}

#[test]
fn keyword() {
    assert!(match_keyword(b"schema", 0));
    assert!(match_keyword(b"schema{", 0));
    assert!(match_keyword(b"  schema x", 2));
    assert!(!match_keyword(b"schemas", 0));
    assert!(!match_keyword(b"schema_", 0));
    assert!(!match_keyword(b"schem", 0));
    assert!(!match_keyword(b"schema", 1));
    assert!(!match_keyword(b"schema", 6));
    assert!(!match_keyword(b"schema", 7));
    assert!(!match_keyword(b"Schema", 0));
    assert!(!match_keyword(b"", 0));
}

#[test]
fn identifier() {
    assert_eq!(match_identifier(b"abc", 0), Ok(name(0, 3)));
    assert_eq!(match_identifier(b"a", 0), Ok(name(0, 1)));
    assert_eq!(match_identifier(b"_a1-b", 0), Ok(name(0, 3)));
    assert_eq!(match_identifier(b"x y", 2), Ok(name(2, 3)));
    assert_eq!(match_identifier(b"Zz09_ ", 0), Ok(name(0, 5)));
    assert_eq!(match_identifier(b"1a", 0), Err(failure(0, vec![Rule::Identifier])));
    assert_eq!(match_identifier(b"1a", 1), Ok(name(1, 2)));
    assert_eq!(match_identifier(b" a", 0), Err(failure(0, vec![Rule::Identifier])));
    assert_eq!(match_identifier(b"a", 1), Err(failure(1, vec![Rule::Identifier])));
    assert_eq!(match_identifier(b"a", 5), Err(failure(5, vec![Rule::Identifier])));
    assert_eq!(match_identifier(b"", 0), Err(failure(0, vec![Rule::Identifier])));
    assert_eq!(match_identifier(b"@", 0), Err(failure(0, vec![Rule::Identifier])));
    assert_eq!(match_identifier(b"[", 0), Err(failure(0, vec![Rule::Identifier])));
    assert_eq!(match_identifier(b"`", 0), Err(failure(0, vec![Rule::Identifier])));
    assert_eq!(match_identifier(b"{", 0), Err(failure(0, vec![Rule::Identifier])));
}

#[test]
fn type_is_an_identifier() {
    assert_eq!(match_type(b"  Number ", 2), Ok(ty(2, 8)));
    assert_eq!(match_type(b"  Number ", 1), Err(failure(1, vec![Rule::Type])));
}

#[test]
fn attribute_rule() {
    assert_eq!(
        match_attribute(b"a:T", 0),
        Ok(node(Rule::SchemaAttribute, 0, 3, vec![name(0, 1), ty(2, 3)]))
    );
    assert_eq!(
        match_attribute(b"ab \n:\t Cd e", 0),
        Ok(node(Rule::SchemaAttribute, 0, 9, vec![name(0, 2), ty(7, 9)]))
    );
    assert_eq!(match_attribute(b":T", 0), Err(failure(0, vec![Rule::SchemaAttribute])));
    assert_eq!(match_attribute(b"a T", 0), Err(failure(0, vec![Rule::SchemaAttribute])));
    assert_eq!(match_attribute(b"a", 0), Err(failure(0, vec![Rule::SchemaAttribute])));
    assert_eq!(match_attribute(b"a: ", 0), Err(failure(3, vec![Rule::Type])));
    assert_eq!(match_attribute(b"a:1", 0), Err(failure(2, vec![Rule::Type])));
}

#[test]
fn method_rule() {
    assert_eq!(
        match_method(b"f()", 0),
        Ok(node(Rule::SchemaMethod, 0, 3, vec![name(0, 1)]))
    );
    assert_eq!(
        match_method(b" go (\n) ", 1),
        Ok(node(Rule::SchemaMethod, 1, 7, vec![name(1, 3)]))
    );
    assert_eq!(match_method(b"f(", 0), Err(failure(0, vec![Rule::SchemaMethod])));
    assert_eq!(match_method(b"f(x)", 0), Err(failure(0, vec![Rule::SchemaMethod])));
    assert_eq!(match_method(b"f)", 0), Err(failure(0, vec![Rule::SchemaMethod])));
    assert_eq!(match_method(b"()", 0), Err(failure(0, vec![Rule::SchemaMethod])));
}

#[test]
fn member_tries_attribute_then_method() {
    assert_eq!(
        match_member(b"a:T", 0),
        Ok(node(Rule::SchemaAttribute, 0, 3, vec![name(0, 1), ty(2, 3)]))
    );
    assert_eq!(
        match_member(b"f()", 0),
        Ok(node(Rule::SchemaMethod, 0, 3, vec![name(0, 1)]))
    );
    assert_eq!(
        match_member(b"f", 0),
        Err(failure(0, vec![Rule::SchemaAttribute, Rule::SchemaMethod]))
    );
    assert_eq!(
        match_member(b"}", 0),
        Err(failure(0, vec![Rule::SchemaAttribute, Rule::SchemaMethod]))
    );
    assert_eq!(match_member(b"f: (", 0), Err(failure(3, vec![Rule::Type])));
}

#[test]
fn body_rule() {
    assert_eq!(match_body(b"{}", 0), Ok(node(Rule::SchemaBody, 0, 2, vec![])));
    assert_eq!(match_body(b"{ \n }x", 0), Ok(node(Rule::SchemaBody, 0, 5, vec![])));
    assert_eq!(
        match_body(b"{a:T f()}", 0),
        Ok(node(
            Rule::SchemaBody,
            0,
            9,
            vec![
                node(Rule::SchemaAttribute, 1, 4, vec![name(1, 2), ty(3, 4)]),
                node(Rule::SchemaMethod, 5, 8, vec![name(5, 6)]),
            ],
        ))
    );
    assert_eq!(match_body(b" {}", 0), Err(failure(0, vec![Rule::SchemaBody])));
    assert_eq!(match_body(b"", 0), Err(failure(0, vec![Rule::SchemaBody])));
    assert_eq!(
        match_body(b"{", 0),
        Err(failure(1, vec![Rule::SchemaAttribute, Rule::SchemaMethod]))
    );
    assert_eq!(match_body(b"{ a: }", 0), Err(failure(5, vec![Rule::Type])));
}

#[test]
fn schema_rule() {
    assert_eq!(
        match_schema(b"schema A{}", 0),
        Ok(node(Rule::Schema, 0, 10, vec![name(7, 8), node(Rule::SchemaBody, 8, 10, vec![])]))
    );
    assert_eq!(match_schema(b" schema A{}", 0), Err(failure(0, vec![Rule::Schema])));
    assert_eq!(match_schema(b"schema", 0), Err(failure(6, vec![Rule::Identifier])));
    assert_eq!(match_schema(b"schema A", 0), Err(failure(8, vec![Rule::SchemaBody])));
    assert_eq!(
        match_schema(b"schema A {x", 0),
        Err(failure(10, vec![Rule::SchemaAttribute, Rule::SchemaMethod]))
    );
}

#[test]
fn failures_merge_and_lift() {
    let near = failure(3, vec![Rule::SchemaAttribute]);
    let far = failure(7, vec![Rule::Type]);
    let also = failure(3, vec![Rule::SchemaMethod]);
    assert_eq!(near.clone().merge(far.clone()), far);
    assert_eq!(far.clone().merge(near.clone()), far);
    assert_eq!(
        near.clone().merge(also.clone()),
        failure(3, vec![Rule::SchemaAttribute, Rule::SchemaMethod])
    );
    assert_eq!(
        also.merge(near.clone()),
        failure(3, vec![Rule::SchemaMethod, Rule::SchemaAttribute])
    );
    assert_eq!(far.clone().lift(Rule::Schema, 3), far);
    assert_eq!(far.clone().lift(Rule::Schema, 7), failure(7, vec![Rule::Schema]));
    assert_eq!(far.lift(Rule::Schema, 9), failure(9, vec![Rule::Schema]));
    assert_eq!(Failure::of(Rule::EndOfInput, 4), failure(4, vec![Rule::EndOfInput]));
}

#[test]
fn scanning() {
    assert_eq!(scan_whitespace(b" \t\r\n x ", 0), 5);
    assert_eq!(scan_whitespace(b" \t\r\n x ", 5), 5);
    assert_eq!(scan_whitespace(b" \t\r\n x ", 6), 7);
    assert_eq!(scan_whitespace(b"  ", 0), 2);
    assert_eq!(scan_whitespace(b"  ", 9), 9);
    assert_eq!(scan_whitespace(b"\x0b\x0c", 0), 0);
    assert_eq!(scan_identifier(b"ab_9-", 0), 4);
    assert_eq!(scan_identifier(b"9ab", 0), 3);
    assert_eq!(scan_identifier(b"-", 0), 0);
    assert_eq!(scan_identifier(b"ab", 7), 7);
}

#[test]
fn lines_and_columns_count_from_zero() {
    let text = "ab\ncd\n\nef";
    let src = text.as_bytes();
    assert_eq!(locate(src, 0), (0, 0));
    assert_eq!(locate(src, 2), (0, 2));
    assert_eq!(locate(src, 3), (1, 0));
    assert_eq!(locate(src, 5), (1, 2));
    assert_eq!(locate(src, 6), (2, 0));
    assert_eq!(locate(src, 7), (3, 0));
    assert_eq!(locate(src, 9), (3, 2));
}

#[test]
fn columns_count_characters() {
    let text = "a\u{e9}\u{4e2d}b\nc";
    let src = text.as_bytes();
    assert_eq!(src.len(), 9);
    assert_eq!(locate(src, 1), (0, 1));
    assert_eq!(locate(src, 3), (0, 2));
    assert_eq!(locate(src, 6), (0, 3));
    assert_eq!(locate(src, 7), (0, 4));
    assert_eq!(locate(src, 8), (1, 0));
    assert_eq!(locate(src, 9), (1, 1));
}

fn error(offset: usize, line: usize, column: usize, expected: Vec<Rule>) -> SyntaxError {
    SyntaxError { offset, line, column, expected }
}

#[test]
fn rule_program_is_the_whole_text() {
    let source = "schema A { x: T }\nschema B { }";
    assert_eq!(match_rule(Rule::Program, source), match_program(source));
    assert_eq!(match_rule(Rule::Program, source).unwrap().len(), 2);
    let broken = "schema A { x: T }\nschema B {";
    assert_eq!(match_rule(Rule::Program, broken), match_program(broken));
    assert_eq!(
        match_rule(Rule::Program, broken),
        Err(error(28, 1, 10, vec![Rule::SchemaAttribute, Rule::SchemaMethod]))
    );
}

#[test]
fn other_rules_match_a_beginning_of_the_text() {
    assert_eq!(match_rule(Rule::Identifier, "abc def"), Ok(vec![name(0, 3)]));
    assert_eq!(match_rule(Rule::Type, "abc def"), Ok(vec![ty(0, 3)]));
    assert_eq!(
        match_rule(Rule::SchemaAttribute, "a : B c"),
        Ok(vec![node(Rule::SchemaAttribute, 0, 5, vec![name(0, 1), ty(4, 5)])])
    );
    assert_eq!(
        match_rule(Rule::SchemaMethod, "f() g()"),
        Ok(vec![node(Rule::SchemaMethod, 0, 3, vec![name(0, 1)])])
    );
    assert_eq!(
        match_rule(Rule::SchemaBody, "{ f() } rest"),
        Ok(vec![node(
            Rule::SchemaBody,
            0,
            7,
            vec![node(Rule::SchemaMethod, 2, 5, vec![name(2, 3)])],
        )])
    );
    assert_eq!(
        match_rule(Rule::Schema, "schema A{} trailing"),
        Ok(vec![node(
            Rule::Schema,
            0,
            10,
            vec![name(7, 8), node(Rule::SchemaBody, 8, 10, vec![])],
        )])
    );
}

#[test]
fn other_rules_start_at_the_first_byte() {
    assert_eq!(match_rule(Rule::Identifier, " abc"), Err(error(0, 0, 0, vec![Rule::Identifier])));
    assert_eq!(match_rule(Rule::Type, ""), Err(error(0, 0, 0, vec![Rule::Type])));
    assert_eq!(match_rule(Rule::Schema, " schema A{}"), Err(error(0, 0, 0, vec![Rule::Schema])));
    assert_eq!(match_rule(Rule::SchemaBody, "{\n a: }"), Err(error(6, 1, 4, vec![Rule::Type])));
    assert_eq!(
        match_rule(Rule::SchemaAttribute, "a b"),
        Err(error(0, 0, 0, vec![Rule::SchemaAttribute]))
    );
    assert_eq!(
        match_rule(Rule::SchemaMethod, "a b"),
        Err(error(0, 0, 0, vec![Rule::SchemaMethod]))
    );
}

#[test]
fn end_of_input_matches_the_empty_text() {
    assert_eq!(match_rule(Rule::EndOfInput, ""), Ok(vec![leaf(Rule::EndOfInput, 0, 0)]));
    assert_eq!(match_rule(Rule::EndOfInput, " "), Err(error(0, 0, 0, vec![Rule::EndOfInput])));
    assert_eq!(match_rule(Rule::EndOfInput, "x"), Err(error(0, 0, 0, vec![Rule::EndOfInput])));
}

#[test]
fn end_of_input_has_no_reduction() {
    let nodes = match_rule(Rule::EndOfInput, "").unwrap();
    let mut notices = Vec::new();
    assert_eq!(parse(&nodes[0], "", &mut notices), AstNode::InvalidNode);
    assert_eq!(notices, vec![Rule::EndOfInput]);
}

#[test]
fn matched_nodes_reduce_by_their_rule() {
    let source = "age: Number";
    let mut notices = Vec::new();
    let attribute = match_rule(Rule::SchemaAttribute, source).unwrap();
    assert_eq!(
        parse(&attribute[0], source, &mut notices),
        AstNode::SchemaAttribute {
            name: Box::new(AstNode::Identifier("age".to_string())),
            ty: Box::new(AstNode::Type(Box::new(AstNode::Identifier("Number".to_string())))),
        }
    );
    let ty = match_rule(Rule::Type, source).unwrap();
    assert_eq!(
        parse(&ty[0], source, &mut notices),
        AstNode::Type(Box::new(AstNode::Identifier("age".to_string())))
    );
    assert!(notices.is_empty());
}
