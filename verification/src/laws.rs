//! What holds of matching and reduction together.

use vstd::prelude::*;
use vstd::utf8::*;
use crate::ast::{asts, Ast, AstNode};
use crate::builder::{
    notices_of, notices_of_each, readable, reduce, reduce_each, reduce_identifier, reducible,
};
use crate::derivation::{
    is_attribute, is_body, is_identifier, is_member, is_program, is_schema,
    lemma_program_complete, lemma_program_sound,
};
use crate::grammar::{lemma_schema_at, lemma_schemas_from, program, schema_at, schemas_from};
use crate::reader::reads;
use crate::syntax::{Rule, SyntaxError, SyntaxNode, SyntaxTree};
use crate::text::{
    is_identifier_continue, is_span, lemma_ascii_run_is_span, lemma_whitespace_end, span_text,
    whitespace_end,
};

verus! {

/// The text of a span is the source between its ends: encoded again, it
/// gives back those bytes of the source, each as it stands there.
pub proof fn lemma_span_text_round_trip(s: Seq<u8>, start: int, end: int)
    requires
        valid_utf8(s),
        is_span(s, start, end),
    ensures
        encode_utf8(span_text(s, start, end)) == s.subrange(start, end),
{
    let front = s.subrange(0, end);
    valid_utf8_split(s, end);
    if start < end {
        is_char_boundary_iff_not_is_continuation_byte(s, start);
        is_char_boundary_iff_not_is_continuation_byte(front, start);
    } else {
        is_char_boundary_start_end_of_seq(front);
    }
    valid_utf8_split(front, start);
    assert(front.subrange(start, front.len() as int) =~= s.subrange(start, end));
    decode_utf8_encode_utf8(s.subrange(start, end));
}

/// The text of an identifier can be read, and it is the bytes of its span,
/// each taken as a character.
pub proof fn lemma_identifier_text(t: SyntaxTree, s: Seq<u8>)
    requires
        valid_utf8(s),
        is_identifier(t, s),
    ensures
        readable(t, s),
        span_text(s, t.start, t.end) == Seq::new(
            (t.end - t.start) as nat,
            |i: int| s[t.start + i] as char,
        ),
{
    assert forall|i: int| t.start <= i < t.end implies #[trigger] s[i] <= 0x7f by {
        if i > t.start {
            assert(is_identifier_continue(s[i]));
        }
    }
    lemma_ascii_run_is_span(s, t.start, t.end);
    let bytes = s.subrange(t.start, t.end);
    let chars = Seq::new((t.end - t.start) as nat, |i: int| s[t.start + i] as char);
    assert(is_ascii_chars(chars));
    is_ascii_chars_encode_utf8(chars);
    assert(encode_utf8(chars) =~= bytes) by {
        assert forall|i: int| 0 <= i < bytes.len() implies encode_utf8(chars)[i] == bytes[i] by {
            assert(chars[i] as u8 == bytes[i]);
        }
    }
    encode_utf8_decode_utf8(chars);
}

/// A sequence of empty sequences flattens to the empty sequence.
proof fn lemma_flatten_empties<A>(parts: Seq<Seq<A>>)
    requires
        forall|i: int| 0 <= i < parts.len() ==> (#[trigger] parts[i]).len() == 0,
    ensures
        parts.flatten() == Seq::<A>::empty(),
    decreases parts.len(),
{
    if parts.len() > 0 {
        lemma_flatten_empties(parts.drop_first());
        assert(parts.flatten() =~= parts.first() + parts.drop_first().flatten());
    }
}

/// A member of a body is reduced without a notice, to an attribute or a
/// method that is built as the data model asks.
pub proof fn lemma_member_reduces(t: SyntaxTree, s: Seq<u8>)
    requires
        valid_utf8(s),
        is_member(t, s),
    ensures
        reducible(t, s),
        notices_of(t) == Seq::<Rule>::empty(),
        reduce(t, s).is_attribute() || reduce(t, s).is_method(),
{
    lemma_identifier_text(t.children[0], s);
    if is_attribute(t, s) {
        lemma_identifier_text(t.children[1].children[0], s);
    }
}

/// A body is reduced without a notice, to a `SchemaBody` that holds one
/// attribute or method for each of its members, in the same order.
pub proof fn lemma_body_reduces(t: SyntaxTree, s: Seq<u8>)
    requires
        valid_utf8(s),
        is_body(t, s),
    ensures
        reducible(t, s),
        notices_of(t) == Seq::<Rule>::empty(),
        reduce(t, s).is_body(),
        reduce(t, s)->definitions == reduce_each(t.children, s),
        reduce_each(t.children, s).len() == t.children.len(),
{
    let parts = notices_of_each(t.children);
    assert forall|i: int| 0 <= i < t.children.len() implies reducible(
        #[trigger] t.children[i],
        s,
    ) by {
        lemma_member_reduces(t.children[i], s);
    }
    assert forall|i: int| 0 <= i < parts.len() implies (#[trigger] parts[i]).len() == 0 by {
        lemma_member_reduces(t.children[i], s);
    }
    lemma_flatten_empties(parts);
    let definitions = reduce_each(t.children, s);
    assert forall|i: int| 0 <= i < definitions.len() implies (
    #[trigger] definitions[i]).is_attribute() || definitions[i].is_method() by {
        lemma_member_reduces(t.children[i], s);
    }
}

/// Reduction is total on what the matcher yields: a schema is reduced
/// without a notice, to a `SchemaDef` that is built as the data model asks
/// and is named by the text of the schema's name.
pub proof fn lemma_schema_reduces(t: SyntaxTree, s: Seq<u8>)
    requires
        valid_utf8(s),
        is_schema(t, s),
    ensures
        reducible(t, s),
        notices_of(t) == Seq::<Rule>::empty(),
        reduce(t, s).is_schema(),
        reduce(t, s)->SchemaDef_name == Box::new(reduce_identifier(t.children[0], s)),
{
    lemma_identifier_text(t.children[0], s);
    lemma_body_reduces(t.children[1], s);
}

/// A text that holds schemas is read as one `SchemaDef` for each of them,
/// in the order of the source: whatever `parse_source` returns for a program
/// of `trees` is as long as `trees`, and holds at each place the reduction
/// of the schema at that place.
pub proof fn lemma_one_definition_per_schema(
    trees: Seq<SyntaxTree>,
    s: Seq<u8>,
    outcome: Result<Vec<AstNode>, SyntaxError>,
)
    requires
        valid_utf8(s),
        is_program(trees, s),
        reads(outcome, s),
    ensures
        outcome matches Ok(schemas) && schemas@.len() == trees.len() && forall|i: int|
            0 <= i < trees.len() ==> (#[trigger] schemas@[i])@ == reduce(trees[i], s)
                && schemas@[i]@.is_schema(),
{
    lemma_program_complete(trees, s);
    let schemas = outcome->Ok_0;
    assert(asts(schemas@).len() == trees.len());
    assert forall|i: int| 0 <= i < trees.len() implies (#[trigger] schemas@[i])@ == reduce(
        trees[i],
        s,
    ) && schemas@[i]@.is_schema() by {
        lemma_schema_reduces(trees[i], s);
        assert(asts(schemas@)[i] == schemas@[i]@);
        assert(reduce_each(trees, s)[i] == reduce(trees[i], s));
    }
}

/// The schemas that a repetition takes lie within the text, none is empty,
/// and each ends before the next starts.
pub proof fn lemma_schemas_ordered(s: Seq<u8>, pos: int)
    requires
        0 <= pos <= s.len(),
    ensures
        forall|i: int|
            0 <= i < schemas_from(s, pos).items.len() ==> pos <= (#[trigger] schemas_from(
                s,
                pos,
            ).items[i]).start < schemas_from(s, pos).items[i].end <= s.len(),
        forall|i: int, j: int|
            0 <= i < j < schemas_from(s, pos).items.len() ==> (#[trigger] schemas_from(
                s,
                pos,
            ).items[i]).end <= (#[trigger] schemas_from(s, pos).items[j]).start,
    decreases s.len() - pos,
{
    let at = whitespace_end(s, pos);
    lemma_whitespace_end(s, pos);
    lemma_schema_at(s, at);
    if let Ok(schema) = schema_at(s, at) {
        let rest = schemas_from(s, schema.end).items;
        lemma_schemas_ordered(s, schema.end);
        let items = seq![schema] + rest;
        assert(schemas_from(s, pos).items == items);
        assert forall|i: int| 0 <= i < items.len() implies pos <= (#[trigger] items[i]).start
            < items[i].end <= s.len() by {
            if i > 0 {
                assert(items[i] == rest[i - 1]);
            }
        }
        assert forall|i: int, j: int| 0 <= i < j < items.len() implies (#[trigger] items[i]).end
            <= (#[trigger] items[j]).start by {
            assert(items[j] == rest[j - 1]);
            if i > 0 {
                assert(items[i] == rest[i - 1]);
            }
        }
    }
}

/// The schemas of a program stand in source order: each lies within the
/// text and ends before the next starts.
pub proof fn lemma_source_order(s: Seq<u8>)
    ensures
        program(s) matches Ok(trees) ==> {
            &&& forall|i: int|
                0 <= i < trees.len() ==> 0 <= (#[trigger] trees[i]).start < trees[i].end
                    <= s.len()
            &&& forall|i: int, j: int|
                0 <= i < j < trees.len() ==> (#[trigger] trees[i]).end <= (
                #[trigger] trees[j]).start
        },
{
    lemma_schemas_ordered(s, 0);
}

/// Reducing a tree again gives the same AST: two nodes that were reduced
/// from one tree of one source model the same tree.
pub proof fn lemma_reduction_repeatable(
    node: SyntaxNode,
    s: Seq<u8>,
    first: AstNode,
    second: AstNode,
)
    requires
        first@ == reduce(node@, s),
        second@ == reduce(node@, s),
    ensures
        first@ == second@,
{
}

/// A body without members is reduced, whatever the source, and without a
/// notice, to a `SchemaBody` without definitions.
pub proof fn lemma_empty_body(t: SyntaxTree, s: Seq<u8>)
    requires
        t.rule == Rule::SchemaBody,
        t.children.len() == 0,
    ensures
        reducible(t, s),
        notices_of(t) == Seq::<Rule>::empty(),
        reduce(t, s) == (Ast::SchemaBody { definitions: Seq::empty() }),
{
    assert(reduce_each(t.children, s) =~= Seq::empty());
    lemma_flatten_empties(notices_of_each(t.children));
}

/// A text that is no program gives a failure within the text, with a rule
/// that was expected there. A text that is one was matched whole: no part of
/// it was left over.
pub proof fn lemma_whole_or_not_at_all(s: Seq<u8>)
    ensures
        match program(s) {
            Ok(trees) => is_program(trees, s),
            Err(mismatch) => 0 <= mismatch.at <= s.len() && mismatch.expected.len() >= 1,
        },
{
    lemma_program_sound(s);
    lemma_schemas_from(s, 0);
    lemma_schemas_ordered(s, 0);
    let schemas = schemas_from(s, 0);
    lemma_whitespace_end(s, schemas.end);
}

} // verus!
