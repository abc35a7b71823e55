//! The grammar matcher: it computes what the grammar says of a source text.

use vstd::prelude::*;
use vstd::string::*;
use crate::grammar::{
    attribute_at, body_at, identifier_at, keyword_at, lemma_attribute_at, lemma_body_at,
    lemma_identifier_at, lemma_member_at, lemma_method_at, lemma_schema_at, lemma_type_at,
    matching, member_at, members_from, method_at, program, schema_at, schemas_from, type_at,
};
use crate::syntax::{
    agrees, lemma_views_push, views, Failure, Mismatch, Rule, SyntaxError, SyntaxNode, SyntaxTree,
};
use crate::text::{
    byte_at, has_byte, identifier_start_byte, lemma_identifier_end, lemma_whitespace_end,
    scan_identifier, scan_whitespace, CLOSE_BRACE, CLOSE_PAREN, COLON, OPEN_BRACE, OPEN_PAREN,
};

verus! {

/// Tests for the keyword `schema` at `pos`.
pub fn match_keyword(src: &[u8], pos: usize) -> (found: bool)
    ensures
        found == keyword_at(src@, pos as int),
        found ==> pos + 6 <= usize::MAX,
{
    if pos < src.len() && src.len() - pos >= 6 {
        if src[pos] == 0x73 && src[pos + 1] == 0x63 && src[pos + 2] == 0x68 && src[pos + 3] == 0x65
            && src[pos + 4] == 0x6d && src[pos + 5] == 0x61 {
            let end: usize = scan_identifier(src, pos);
            end == pos + 6
        } else {
            false
        }
    } else {
        false
    }
}

/// Matches `Identifier` at `pos`.
pub fn match_identifier(src: &[u8], pos: usize) -> (outcome: Result<SyntaxNode, Failure>)
    ensures
        agrees(outcome, identifier_at(src@, pos as int)),
{
    if pos < src.len() && identifier_start_byte(src[pos]) {
        proof {
            lemma_identifier_end(src@, pos + 1);
        }
        let end: usize = scan_identifier(src, pos + 1);
        Ok(SyntaxNode::leaf(Rule::Identifier, pos, end))
    } else {
        Err(Failure::of(Rule::Identifier, pos))
    }
}

/// Matches `Type` at `pos`.
pub fn match_type(src: &[u8], pos: usize) -> (outcome: Result<SyntaxNode, Failure>)
    ensures
        agrees(outcome, type_at(src@, pos as int)),
{
    match match_identifier(src, pos) {
        Ok(name) => {
            let end: usize = name.end;
            Ok(SyntaxNode::unary(Rule::Type, pos, end, name))
        },
        Err(inner) => Err(inner.lift(Rule::Type, pos)),
    }
}

/// Matches `SchemaAttribute` at `pos`.
pub fn match_attribute(src: &[u8], pos: usize) -> (outcome: Result<SyntaxNode, Failure>)
    ensures
        agrees(outcome, attribute_at(src@, pos as int)),
{
    match match_identifier(src, pos) {
        Err(inner) => Err(inner.lift(Rule::SchemaAttribute, pos)),
        Ok(name) => {
            let colon: usize = scan_whitespace(src, name.end);
            if !byte_at(src, colon, COLON) {
                return Err(Failure::of(Rule::SchemaAttribute, pos));
            }
            let after: usize = scan_whitespace(src, colon + 1);
            match match_type(src, after) {
                Err(inner) => Err(inner.lift(Rule::SchemaAttribute, pos)),
                Ok(ty) => {
                    let end: usize = ty.end;
                    Ok(SyntaxNode::binary(Rule::SchemaAttribute, pos, end, name, ty))
                },
            }
        },
    }
}

/// Matches `SchemaMethod` at `pos`.
pub fn match_method(src: &[u8], pos: usize) -> (outcome: Result<SyntaxNode, Failure>)
    ensures
        agrees(outcome, method_at(src@, pos as int)),
{
    match match_identifier(src, pos) {
        Err(inner) => Err(inner.lift(Rule::SchemaMethod, pos)),
        Ok(name) => {
            let open: usize = scan_whitespace(src, name.end);
            if !byte_at(src, open, OPEN_PAREN) {
                return Err(Failure::of(Rule::SchemaMethod, pos));
            }
            let close: usize = scan_whitespace(src, open + 1);
            if !byte_at(src, close, CLOSE_PAREN) {
                return Err(Failure::of(Rule::SchemaMethod, pos));
            }
            Ok(SyntaxNode::unary(Rule::SchemaMethod, pos, close + 1, name))
        },
    }
}

/// Matches a member of a body at `pos`: an attribute, or else a method.
pub fn match_member(src: &[u8], pos: usize) -> (outcome: Result<SyntaxNode, Failure>)
    ensures
        agrees(outcome, member_at(src@, pos as int)),
{
    match match_attribute(src, pos) {
        Ok(attribute) => Ok(attribute),
        Err(first) => match match_method(src, pos) {
            Ok(method) => Ok(method),
            Err(second) => Err(first.merge(second)),
        },
    }
}

/// Matches `SchemaBody` at `pos`.
pub fn match_body(src: &[u8], pos: usize) -> (outcome: Result<SyntaxNode, Failure>)
    ensures
        agrees(outcome, body_at(src@, pos as int)),
{
    if !byte_at(src, pos, OPEN_BRACE) {
        return Err(Failure::of(Rule::SchemaBody, pos));
    }
    let ghost all = members_from(src@, pos + 1);
    let mut items: Vec<SyntaxNode> = Vec::new();
    let mut cur: usize = pos + 1;
    assert(views(items@) + all.items =~= all.items);
    loop
        invariant
            has_byte(src@, pos as int, OPEN_BRACE),
            cur <= src.len(),
            all == members_from(src@, pos + 1),
            all.items == views(items@) + members_from(src@, cur as int).items,
            all.end == members_from(src@, cur as int).end,
            all.stop == members_from(src@, cur as int).stop,
        decreases src.len() - cur,
    {
        let at: usize = scan_whitespace(src, cur);
        proof {
            lemma_whitespace_end(src@, cur as int);
            lemma_member_at(src@, at as int);
        }
        match match_member(src, at) {
            Ok(member) => {
                proof {
                    let rest = members_from(src@, member.end as int);
                    lemma_views_push(items@, member);
                    assert(views(items@).push(member@) + rest.items =~= views(items@) + (
                    seq![member@] + rest.items));
                }
                cur = member.end;
                items.push(member);
            },
            Err(stop) => {
                assert(all.items =~= views(items@));
                if byte_at(src, at, CLOSE_BRACE) {
                    return Ok(SyntaxNode::new(Rule::SchemaBody, pos, at + 1, items));
                } else {
                    return Err(stop.lift(Rule::SchemaBody, pos));
                }
            },
        }
    }
}

/// Matches `Schema` at `pos`.
pub fn match_schema(src: &[u8], pos: usize) -> (outcome: Result<SyntaxNode, Failure>)
    ensures
        agrees(outcome, schema_at(src@, pos as int)),
{
    if !match_keyword(src, pos) {
        return Err(Failure::of(Rule::Schema, pos));
    }
    let at: usize = scan_whitespace(src, pos + 6);
    match match_identifier(src, at) {
        Err(inner) => Err(inner.lift(Rule::Schema, pos)),
        Ok(name) => {
            let open: usize = scan_whitespace(src, name.end);
            match match_body(src, open) {
                Err(inner) => Err(inner.lift(Rule::Schema, pos)),
                Ok(body) => {
                    let end: usize = body.end;
                    Ok(SyntaxNode::binary(Rule::Schema, pos, end, name, body))
                },
            }
        },
    }
}

/// Whether `outcome` is what the grammar gives for the text `s`, where the
/// grammar gives `model`: the nodes of the match, or the error that reports
/// the failure.
pub open spec fn yields(
    outcome: Result<Vec<SyntaxNode>, SyntaxError>,
    s: Seq<u8>,
    model: Result<Seq<SyntaxTree>, Mismatch>,
) -> bool {
    match outcome {
        Ok(nodes) => model == Ok::<Seq<SyntaxTree>, Mismatch>(views(nodes@)),
        Err(error) => model matches Err(mismatch) && error.reports(s, mismatch),
    }
}

/// Matches `source` against `Program`: the whole text, as one schema or
/// more. It returns the node of each schema, in source order, or the syntax
/// error.
pub fn match_program(source: &str) -> (outcome: Result<Vec<SyntaxNode>, SyntaxError>)
    ensures
        yields(outcome, source.spec_bytes(), program(source.spec_bytes())),
{
    let src: &[u8] = source.as_bytes();
    let ghost all = schemas_from(src@, 0);
    let mut items: Vec<SyntaxNode> = Vec::new();
    let mut cur: usize = 0;
    assert(views(items@) + all.items =~= all.items);
    loop
        invariant
            src@ == source.spec_bytes(),
            cur <= src.len(),
            all == schemas_from(src@, 0),
            all.items == views(items@) + schemas_from(src@, cur as int).items,
            all.end == schemas_from(src@, cur as int).end,
            all.stop == schemas_from(src@, cur as int).stop,
        decreases src.len() - cur,
    {
        let at: usize = scan_whitespace(src, cur);
        proof {
            lemma_whitespace_end(src@, cur as int);
            lemma_schema_at(src@, at as int);
        }
        match match_schema(src, at) {
            Ok(schema) => {
                proof {
                    let rest = schemas_from(src@, schema.end as int);
                    lemma_views_push(items@, schema);
                    assert(views(items@).push(schema@) + rest.items =~= views(items@) + (
                    seq![schema@] + rest.items));
                }
                cur = schema.end;
                items.push(schema);
            },
            Err(stop) => {
                assert(all.items =~= views(items@));
                if items.len() == 0 {
                    return Err(SyntaxError::locate(src, stop));
                } else if at < src.len() {
                    let end: Failure = Failure::of(Rule::EndOfInput, at);
                    return Err(SyntaxError::locate(src, stop.merge(end)));
                } else {
                    return Ok(items);
                }
            },
        }
    }
}

/// The outcome of a rule that yields one node, as the outcome of matching
/// the text.
fn alone(src: &[u8], outcome: Result<SyntaxNode, Failure>) -> (nodes: Result<
    Vec<SyntaxNode>,
    SyntaxError,
>)
    requires
        outcome matches Err(failure) ==> failure.at <= src.len(),
    ensures
        match outcome {
            Ok(node) => nodes matches Ok(all) && views(all@) == seq![node@],
            Err(failure) => nodes matches Err(error) && error.reports(src@, failure@),
        },
{
    match outcome {
        Ok(node) => {
            let ghost tree = node@;
            let mut all: Vec<SyntaxNode> = Vec::new();
            all.push(node);
            assert(views(all@) =~= seq![tree]);
            Ok(all)
        },
        Err(failure) => Err(SyntaxError::locate(src, failure)),
    }
}

/// Matches `source` against `rule`. For `Program` this is
/// [`match_program`]. Every other rule is matched at the start of the text
/// and need not take all of it; its one node is returned.
pub fn match_rule(rule: Rule, source: &str) -> (outcome: Result<Vec<SyntaxNode>, SyntaxError>)
    ensures
        yields(outcome, source.spec_bytes(), matching(rule, source.spec_bytes())),
{
    let src: &[u8] = source.as_bytes();
    proof {
        lemma_schema_at(src@, 0);
        lemma_body_at(src@, 0);
        lemma_member_at(src@, 0);
        lemma_attribute_at(src@, 0);
        lemma_method_at(src@, 0);
        lemma_type_at(src@, 0);
        lemma_identifier_at(src@, 0);
    }
    match rule {
        Rule::Program => match_program(source),
        Rule::Schema => alone(src, match_schema(src, 0)),
        Rule::SchemaBody => alone(src, match_body(src, 0)),
        Rule::SchemaAttribute => alone(src, match_attribute(src, 0)),
        Rule::SchemaMethod => alone(src, match_method(src, 0)),
        Rule::Type => alone(src, match_type(src, 0)),
        Rule::Identifier => alone(src, match_identifier(src, 0)),
        Rule::EndOfInput => {
            if src.len() == 0 {
                alone(src, Ok(SyntaxNode::leaf(Rule::EndOfInput, 0, 0)))
            } else {
                alone(src, Err(Failure::of(Rule::EndOfInput, 0)))
            }
        },
    }
}

} // verus!
