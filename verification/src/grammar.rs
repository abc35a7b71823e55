//! The grammar of the schema language.
//!
//! ```text
//! Program         = Schema+
//! Schema          = "schema" Identifier SchemaBody
//! SchemaBody      = "{" (SchemaAttribute | SchemaMethod)* "}"
//! SchemaAttribute = Identifier ":" Type
//! SchemaMethod    = Identifier "(" ")"
//! Type            = Identifier
//! Identifier      = (letter | "_") (letter | digit | "_")*
//! ```
//!
//! Whitespace may stand between any two tokens, and before the first and
//! after the last. A program is the whole text. The keyword is a whole word:
//! `schemas` is no keyword. It is not reserved: where a name is expected,
//! `schema` is a name like any other.
//!
//! Matching is greedy and ordered. A repetition takes every item that
//! matches; of the two kinds of body members, an attribute is tried first.
//! The functions ending in `_at` say what matching a rule at a position
//! yields: the tree of what matched, or the failure to report.

use vstd::prelude::*;
use crate::syntax::{Mismatch, Rule, SyntaxTree};
use crate::text::{
    has_byte, identifier_end, is_identifier_start, lemma_identifier_end, lemma_whitespace_end,
    whitespace_end, CLOSE_BRACE, CLOSE_PAREN, COLON, OPEN_BRACE, OPEN_PAREN,
};

verus! {

/// Whether the bytes from `pos` on spell the keyword `schema`.
pub open spec fn spells_keyword(s: Seq<u8>, pos: int) -> bool {
    &&& 0 <= pos && pos + 6 <= s.len()
    &&& s[pos] == 0x73
    &&& s[pos + 1] == 0x63
    &&& s[pos + 2] == 0x68
    &&& s[pos + 3] == 0x65
    &&& s[pos + 4] == 0x6d
    &&& s[pos + 5] == 0x61
}

/// Whether the keyword stands at `pos`: the word that starts there is
/// `schema` and nothing more.
pub open spec fn keyword_at(s: Seq<u8>, pos: int) -> bool {
    spells_keyword(s, pos) && identifier_end(s, pos) == pos + 6
}

/// `Identifier` at `pos`: a letter or an underscore, and all the letters,
/// digits and underscores that follow.
pub open spec fn identifier_at(s: Seq<u8>, pos: int) -> Result<SyntaxTree, Mismatch> {
    if 0 <= pos < s.len() && is_identifier_start(s[pos]) {
        Ok(SyntaxTree::leaf(Rule::Identifier, pos, identifier_end(s, pos + 1)))
    } else {
        Err(Mismatch::of(Rule::Identifier, pos))
    }
}

/// `Type` at `pos`: an identifier.
pub open spec fn type_at(s: Seq<u8>, pos: int) -> Result<SyntaxTree, Mismatch> {
    match identifier_at(s, pos) {
        Ok(name) => Ok(
            SyntaxTree { rule: Rule::Type, start: pos, end: name.end, children: seq![name] },
        ),
        Err(inner) => Err(inner.lift(Rule::Type, pos)),
    }
}

/// `SchemaAttribute` at `pos`: a name, a colon and a type.
pub open spec fn attribute_at(s: Seq<u8>, pos: int) -> Result<SyntaxTree, Mismatch> {
    match identifier_at(s, pos) {
        Err(inner) => Err(inner.lift(Rule::SchemaAttribute, pos)),
        Ok(name) => {
            let colon = whitespace_end(s, name.end);
            if !has_byte(s, colon, COLON) {
                Err(Mismatch::of(Rule::SchemaAttribute, pos))
            } else {
                match type_at(s, whitespace_end(s, colon + 1)) {
                    Err(inner) => Err(inner.lift(Rule::SchemaAttribute, pos)),
                    Ok(ty) => Ok(
                        SyntaxTree {
                            rule: Rule::SchemaAttribute,
                            start: pos,
                            end: ty.end,
                            children: seq![name, ty],
                        },
                    ),
                }
            }
        },
    }
}

/// `SchemaMethod` at `pos`: a name and an empty pair of parentheses.
pub open spec fn method_at(s: Seq<u8>, pos: int) -> Result<SyntaxTree, Mismatch> {
    match identifier_at(s, pos) {
        Err(inner) => Err(inner.lift(Rule::SchemaMethod, pos)),
        Ok(name) => {
            let open = whitespace_end(s, name.end);
            let close = whitespace_end(s, open + 1);
            if has_byte(s, open, OPEN_PAREN) && has_byte(s, close, CLOSE_PAREN) {
                Ok(
                    SyntaxTree {
                        rule: Rule::SchemaMethod,
                        start: pos,
                        end: close + 1,
                        children: seq![name],
                    },
                )
            } else {
                Err(Mismatch::of(Rule::SchemaMethod, pos))
            }
        },
    }
}

/// A member of a body at `pos`: an attribute, or else a method.
pub open spec fn member_at(s: Seq<u8>, pos: int) -> Result<SyntaxTree, Mismatch> {
    match attribute_at(s, pos) {
        Ok(attribute) => Ok(attribute),
        Err(first) => match method_at(s, pos) {
            Ok(method) => Ok(method),
            Err(second) => Err(first.merge(second)),
        },
    }
}

/// What a repetition yields: the items that matched, in order, the position
/// after the last of them, and the failure that ended it.
pub struct Repetition {
    pub items: Seq<SyntaxTree>,
    pub end: int,
    pub stop: Mismatch,
}

/// The members of a body from `pos` on, each after any whitespace.
pub open spec fn members_from(s: Seq<u8>, pos: int) -> Repetition
    decreases s.len() - pos,
{
    match member_at(s, whitespace_end(s, pos)) {
        Ok(member) => {
            proof {
                lemma_whitespace_end(s, pos);
                lemma_member_at(s, whitespace_end(s, pos));
            }
            let rest = members_from(s, member.end);
            Repetition { items: seq![member] + rest.items, end: rest.end, stop: rest.stop }
        },
        Err(stop) => Repetition { items: Seq::empty(), end: pos, stop },
    }
}

/// `SchemaBody` at `pos`: members between braces.
pub open spec fn body_at(s: Seq<u8>, pos: int) -> Result<SyntaxTree, Mismatch> {
    if !has_byte(s, pos, OPEN_BRACE) {
        Err(Mismatch::of(Rule::SchemaBody, pos))
    } else {
        let members = members_from(s, pos + 1);
        let close = whitespace_end(s, members.end);
        if has_byte(s, close, CLOSE_BRACE) {
            Ok(
                SyntaxTree {
                    rule: Rule::SchemaBody,
                    start: pos,
                    end: close + 1,
                    children: members.items,
                },
            )
        } else {
            Err(members.stop.lift(Rule::SchemaBody, pos))
        }
    }
}

/// `Schema` at `pos`: the keyword, a name and a body.
pub open spec fn schema_at(s: Seq<u8>, pos: int) -> Result<SyntaxTree, Mismatch> {
    if !keyword_at(s, pos) {
        Err(Mismatch::of(Rule::Schema, pos))
    } else {
        match identifier_at(s, whitespace_end(s, pos + 6)) {
            Err(inner) => Err(inner.lift(Rule::Schema, pos)),
            Ok(name) => match body_at(s, whitespace_end(s, name.end)) {
                Err(inner) => Err(inner.lift(Rule::Schema, pos)),
                Ok(body) => Ok(
                    SyntaxTree {
                        rule: Rule::Schema,
                        start: pos,
                        end: body.end,
                        children: seq![name, body],
                    },
                ),
            },
        }
    }
}

/// The schemas from `pos` on, each after any whitespace.
pub open spec fn schemas_from(s: Seq<u8>, pos: int) -> Repetition
    decreases s.len() - pos,
{
    match schema_at(s, whitespace_end(s, pos)) {
        Ok(schema) => {
            proof {
                lemma_whitespace_end(s, pos);
                lemma_schema_at(s, whitespace_end(s, pos));
            }
            let rest = schemas_from(s, schema.end);
            Repetition { items: seq![schema] + rest.items, end: rest.end, stop: rest.stop }
        },
        Err(stop) => Repetition { items: Seq::empty(), end: pos, stop },
    }
}

/// `Program`: one schema or more, and then only whitespace up to the end of
/// the text. It yields the schemas, not a node of its own.
pub open spec fn program(s: Seq<u8>) -> Result<Seq<SyntaxTree>, Mismatch> {
    let schemas = schemas_from(s, 0);
    let end = whitespace_end(s, schemas.end);
    if schemas.items.len() == 0 {
        Err(schemas.stop)
    } else if end < s.len() {
        Err(schemas.stop.merge(Mismatch::of(Rule::EndOfInput, end)))
    } else {
        Ok(schemas.items)
    }
}

/// `EndOfInput`: the text has no bytes. It yields an empty node.
pub open spec fn end_of_input(s: Seq<u8>) -> Result<SyntaxTree, Mismatch> {
    if s.len() == 0 {
        Ok(SyntaxTree::leaf(Rule::EndOfInput, 0, 0))
    } else {
        Err(Mismatch::of(Rule::EndOfInput, 0))
    }
}

/// The one node of a match, as a sequence.
pub open spec fn single(outcome: Result<SyntaxTree, Mismatch>) -> Result<
    Seq<SyntaxTree>,
    Mismatch,
> {
    match outcome {
        Ok(tree) => Ok(seq![tree]),
        Err(mismatch) => Err(mismatch),
    }
}

/// What matching a text against `rule` yields. `Program` takes the whole
/// text and yields its schemas. Every other rule is matched at the start of
/// the text, takes as much of it as the rule does, and yields its one node.
pub open spec fn matching(rule: Rule, s: Seq<u8>) -> Result<Seq<SyntaxTree>, Mismatch> {
    match rule {
        Rule::Program => program(s),
        Rule::Schema => single(schema_at(s, 0)),
        Rule::SchemaBody => single(body_at(s, 0)),
        Rule::SchemaAttribute => single(attribute_at(s, 0)),
        Rule::SchemaMethod => single(method_at(s, 0)),
        Rule::Type => single(type_at(s, 0)),
        Rule::Identifier => single(identifier_at(s, 0)),
        Rule::EndOfInput => single(end_of_input(s)),
    }
}

/// What holds of the outcome of a rule that was tried at `pos`: a match
/// starts there, is not empty and ends within the text; a failure lies at
/// `pos` or further on, within the text, and names a rule.
pub open spec fn in_bounds(s: Seq<u8>, pos: int, outcome: Result<SyntaxTree, Mismatch>) -> bool {
    match outcome {
        Ok(tree) => tree.start == pos && pos < tree.end <= s.len(),
        Err(mismatch) => {
            &&& pos <= mismatch.at
            &&& pos <= s.len() ==> mismatch.at <= s.len()
            &&& mismatch.expected.len() >= 1
        },
    }
}

/// The outcome of `Identifier` lies within its bounds.
pub proof fn lemma_identifier_at(s: Seq<u8>, pos: int)
    ensures
        in_bounds(s, pos, identifier_at(s, pos)),
{
    if 0 <= pos < s.len() {
        lemma_identifier_end(s, pos + 1);
    }
}

/// The outcome of `Type` lies within its bounds.
pub proof fn lemma_type_at(s: Seq<u8>, pos: int)
    ensures
        in_bounds(s, pos, type_at(s, pos)),
{
    lemma_identifier_at(s, pos);
}

/// The outcome of `SchemaAttribute` lies within its bounds.
pub proof fn lemma_attribute_at(s: Seq<u8>, pos: int)
    ensures
        in_bounds(s, pos, attribute_at(s, pos)),
{
    lemma_identifier_at(s, pos);
    if let Ok(name) = identifier_at(s, pos) {
        lemma_whitespace_end(s, name.end);
        let colon = whitespace_end(s, name.end);
        if has_byte(s, colon, COLON) {
            lemma_whitespace_end(s, colon + 1);
            lemma_type_at(s, whitespace_end(s, colon + 1));
        }
    }
}

/// The outcome of `SchemaMethod` lies within its bounds.
pub proof fn lemma_method_at(s: Seq<u8>, pos: int)
    ensures
        in_bounds(s, pos, method_at(s, pos)),
{
    lemma_identifier_at(s, pos);
    if let Ok(name) = identifier_at(s, pos) {
        lemma_whitespace_end(s, name.end);
        let open = whitespace_end(s, name.end);
        if has_byte(s, open, OPEN_PAREN) {
            lemma_whitespace_end(s, open + 1);
        }
    }
}

/// The outcome of the choice of members lies within its bounds.
pub proof fn lemma_member_at(s: Seq<u8>, pos: int)
    ensures
        in_bounds(s, pos, member_at(s, pos)),
{
    lemma_attribute_at(s, pos);
    lemma_method_at(s, pos);
}

/// What holds of a repetition that started at `pos`, within the text: it
/// ends within the text, and the failure that ended it lies behind it,
/// within the text, and names a rule.
pub open spec fn repetition_in_bounds(s: Seq<u8>, pos: int, repetition: Repetition) -> bool {
    &&& pos <= repetition.end <= s.len()
    &&& repetition.end <= repetition.stop.at <= s.len()
    &&& repetition.stop.expected.len() >= 1
    &&& repetition.items.len() == 0 ==> repetition.end == pos
}

/// The repetition of members lies within its bounds.
pub proof fn lemma_members_from(s: Seq<u8>, pos: int)
    requires
        0 <= pos <= s.len(),
    ensures
        repetition_in_bounds(s, pos, members_from(s, pos)),
    decreases s.len() - pos,
{
    lemma_whitespace_end(s, pos);
    lemma_member_at(s, whitespace_end(s, pos));
    if let Ok(member) = member_at(s, whitespace_end(s, pos)) {
        lemma_members_from(s, member.end);
    }
}

/// The outcome of `SchemaBody` lies within its bounds.
pub proof fn lemma_body_at(s: Seq<u8>, pos: int)
    ensures
        in_bounds(s, pos, body_at(s, pos)),
{
    if has_byte(s, pos, OPEN_BRACE) {
        lemma_members_from(s, pos + 1);
        lemma_whitespace_end(s, members_from(s, pos + 1).end);
    }
}

/// The outcome of `Schema` lies within its bounds.
pub proof fn lemma_schema_at(s: Seq<u8>, pos: int)
    ensures
        in_bounds(s, pos, schema_at(s, pos)),
{
    if keyword_at(s, pos) {
        lemma_whitespace_end(s, pos + 6);
        lemma_identifier_at(s, whitespace_end(s, pos + 6));
        if let Ok(name) = identifier_at(s, whitespace_end(s, pos + 6)) {
            lemma_whitespace_end(s, name.end);
            lemma_body_at(s, whitespace_end(s, name.end));
        }
    }
}

/// The repetition of schemas lies within its bounds.
pub proof fn lemma_schemas_from(s: Seq<u8>, pos: int)
    requires
        0 <= pos <= s.len(),
    ensures
        repetition_in_bounds(s, pos, schemas_from(s, pos)),
    decreases s.len() - pos,
{
    lemma_whitespace_end(s, pos);
    lemma_schema_at(s, whitespace_end(s, pos));
    if let Ok(schema) = schema_at(s, whitespace_end(s, pos)) {
        lemma_schemas_from(s, schema.end);
    }
}

} // verus!
