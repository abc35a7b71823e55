//! What a match is: the shape that the tree of each rule has, read off the
//! source text. The matcher yields trees of these shapes and no others.

use vstd::prelude::*;
use crate::grammar::{
    attribute_at, body_at, identifier_at, keyword_at, lemma_member_at, lemma_schema_at,
    lemma_schemas_from, member_at, members_from, method_at, program, schema_at, schemas_from,
    type_at,
};
use crate::syntax::{Mismatch, Rule, SyntaxTree};
use crate::text::{
    has_byte, is_identifier_continue, is_identifier_start, lemma_identifier_end,
    lemma_identifier_run, lemma_whitespace_end, whitespace_end, CLOSE_BRACE, CLOSE_PAREN, COLON,
    OPEN_BRACE, OPEN_PAREN,
};

verus! {

/// An identifier: a leaf that spans a letter or an underscore and all the
/// letters, digits and underscores that follow it.
pub open spec fn is_identifier(t: SyntaxTree, s: Seq<u8>) -> bool {
    &&& t.rule == Rule::Identifier
    &&& t.children.len() == 0
    &&& 0 <= t.start < t.end <= s.len()
    &&& is_identifier_start(s[t.start])
    &&& forall|i: int| t.start < i < t.end ==> is_identifier_continue(#[trigger] s[i])
    &&& t.end < s.len() ==> !is_identifier_continue(s[t.end])
}

/// A type: the span of the identifier that is its one child.
pub open spec fn is_type(t: SyntaxTree, s: Seq<u8>) -> bool {
    &&& t.rule == Rule::Type
    &&& t.children.len() == 1
    &&& is_identifier(t.children[0], s)
    &&& t.start == t.children[0].start
    &&& t.end == t.children[0].end
}

/// An attribute: a name and a type, with a colon between them. It spans from
/// the start of the name to the end of the type.
pub open spec fn is_attribute(t: SyntaxTree, s: Seq<u8>) -> bool {
    &&& t.rule == Rule::SchemaAttribute
    &&& t.children.len() == 2
    &&& is_identifier(t.children[0], s)
    &&& is_type(t.children[1], s)
    &&& t.start == t.children[0].start
    &&& has_byte(s, whitespace_end(s, t.children[0].end), COLON)
    &&& t.children[1].start == whitespace_end(s, whitespace_end(s, t.children[0].end) + 1)
    &&& t.end == t.children[1].end
}

/// A method: a name, and a pair of parentheses after it. It spans from the
/// start of the name to the closing parenthesis.
pub open spec fn is_method(t: SyntaxTree, s: Seq<u8>) -> bool {
    &&& t.rule == Rule::SchemaMethod
    &&& t.children.len() == 1
    &&& is_identifier(t.children[0], s)
    &&& t.start == t.children[0].start
    &&& has_byte(s, whitespace_end(s, t.children[0].end), OPEN_PAREN)
    &&& has_byte(s, whitespace_end(s, whitespace_end(s, t.children[0].end) + 1), CLOSE_PAREN)
    &&& t.end == whitespace_end(s, whitespace_end(s, t.children[0].end) + 1) + 1
}

/// A member of a body: an attribute or a method.
pub open spec fn is_member(t: SyntaxTree, s: Seq<u8>) -> bool {
    is_attribute(t, s) || is_method(t, s)
}

/// The position after the first `i` of `items`, which follow `from`.
pub open spec fn after(items: Seq<SyntaxTree>, from: int, i: int) -> int {
    if i <= 0 {
        from
    } else {
        items[i - 1].end
    }
}

/// Whether `items` follow one another from `from` on, with nothing but
/// whitespace before each.
pub open spec fn in_sequence(s: Seq<u8>, items: Seq<SyntaxTree>, from: int) -> bool {
    forall|i: int|
        0 <= i < items.len() ==> (#[trigger] items[i]).start == whitespace_end(
            s,
            after(items, from, i),
        )
}

/// The first position after `items`, which follow `from`, that holds no
/// whitespace.
pub open spec fn past(s: Seq<u8>, items: Seq<SyntaxTree>, from: int) -> int {
    whitespace_end(s, after(items, from, items.len() as int))
}

/// A body: members in sequence, between an opening and a closing brace.
pub open spec fn is_body(t: SyntaxTree, s: Seq<u8>) -> bool {
    &&& t.rule == Rule::SchemaBody
    &&& has_byte(s, t.start, OPEN_BRACE)
    &&& forall|i: int| 0 <= i < t.children.len() ==> is_member(#[trigger] t.children[i], s)
    &&& in_sequence(s, t.children, t.start + 1)
    &&& has_byte(s, past(s, t.children, t.start + 1), CLOSE_BRACE)
    &&& t.end == past(s, t.children, t.start + 1) + 1
}

/// A schema: the keyword, a name and a body. It spans from the keyword to
/// the closing brace of the body.
pub open spec fn is_schema(t: SyntaxTree, s: Seq<u8>) -> bool {
    &&& t.rule == Rule::Schema
    &&& t.children.len() == 2
    &&& keyword_at(s, t.start)
    &&& is_identifier(t.children[0], s)
    &&& t.children[0].start == whitespace_end(s, t.start + 6)
    &&& is_body(t.children[1], s)
    &&& t.children[1].start == whitespace_end(s, t.children[0].end)
    &&& t.end == t.children[1].end
}

/// A program: one schema or more, in sequence from the start of the text,
/// with nothing but whitespace after the last.
pub open spec fn is_program(trees: Seq<SyntaxTree>, s: Seq<u8>) -> bool {
    &&& trees.len() >= 1
    &&& forall|i: int| 0 <= i < trees.len() ==> is_schema(#[trigger] trees[i], s)
    &&& in_sequence(s, trees, 0)
    &&& past(s, trees, 0) == s.len()
}

/// What `Identifier` matches is an identifier.
pub proof fn lemma_identifier_sound(s: Seq<u8>, pos: int)
    ensures
        identifier_at(s, pos) matches Ok(t) ==> is_identifier(t, s) && t.start == pos,
{
    lemma_identifier_end(s, pos + 1);
}

/// What `Type` matches is a type.
pub proof fn lemma_type_sound(s: Seq<u8>, pos: int)
    ensures
        type_at(s, pos) matches Ok(t) ==> is_type(t, s) && t.start == pos,
{
    lemma_identifier_sound(s, pos);
}

/// What `SchemaAttribute` matches is an attribute.
pub proof fn lemma_attribute_sound(s: Seq<u8>, pos: int)
    ensures
        attribute_at(s, pos) matches Ok(t) ==> is_attribute(t, s) && t.start == pos,
{
    lemma_identifier_sound(s, pos);
    if let Ok(name) = identifier_at(s, pos) {
        let colon = whitespace_end(s, name.end);
        lemma_type_sound(s, whitespace_end(s, colon + 1));
    }
}

/// What `SchemaMethod` matches is a method.
pub proof fn lemma_method_sound(s: Seq<u8>, pos: int)
    ensures
        method_at(s, pos) matches Ok(t) ==> is_method(t, s) && t.start == pos,
{
    lemma_identifier_sound(s, pos);
}

/// What the choice of members matches is a member.
pub proof fn lemma_member_sound(s: Seq<u8>, pos: int)
    ensures
        member_at(s, pos) matches Ok(t) ==> is_member(t, s) && t.start == pos,
{
    lemma_attribute_sound(s, pos);
    lemma_method_sound(s, pos);
}

/// Items in sequence stay in sequence behind an item that they follow.
pub proof fn lemma_in_sequence_cons(s: Seq<u8>, first: SyntaxTree, rest: Seq<SyntaxTree>, from: int)
    requires
        first.start == whitespace_end(s, from),
        in_sequence(s, rest, first.end),
    ensures
        in_sequence(s, seq![first] + rest, from),
        after(seq![first] + rest, from, rest.len() as int + 1) == after(
            rest,
            first.end,
            rest.len() as int,
        ),
{
    let items = seq![first] + rest;
    assert forall|i: int| 0 <= i < items.len() implies (#[trigger] items[i]).start
        == whitespace_end(s, after(items, from, i)) by {
        if i > 0 {
            assert(items[i] == rest[i - 1]);
            assert(after(items, from, i) == after(rest, first.end, i - 1));
        }
    }
}

/// The members that a repetition takes are members in sequence, and it ends
/// where no further member matches.
pub proof fn lemma_members_sound(s: Seq<u8>, pos: int)
    requires
        0 <= pos <= s.len(),
    ensures
        forall|i: int|
            0 <= i < members_from(s, pos).items.len() ==> is_member(
                #[trigger] members_from(s, pos).items[i],
                s,
            ),
        in_sequence(s, members_from(s, pos).items, pos),
        members_from(s, pos).end == after(
            members_from(s, pos).items,
            pos,
            members_from(s, pos).items.len() as int,
        ),
        member_at(s, whitespace_end(s, members_from(s, pos).end)) == Err::<SyntaxTree, Mismatch>(
            members_from(s, pos).stop,
        ),
    decreases s.len() - pos,
{
    let at = whitespace_end(s, pos);
    lemma_whitespace_end(s, pos);
    lemma_member_at(s, at);
    lemma_member_sound(s, at);
    if let Ok(member) = member_at(s, at) {
        let rest = members_from(s, member.end);
        lemma_members_sound(s, member.end);
        lemma_in_sequence_cons(s, member, rest.items, pos);
        let items = seq![member] + rest.items;
        assert(members_from(s, pos).items == items);
        assert forall|i: int| 0 <= i < items.len() implies is_member(#[trigger] items[i], s) by {
            if i > 0 {
                assert(items[i] == rest.items[i - 1]);
            }
        }
    }
}

/// What `SchemaBody` matches is a body.
pub proof fn lemma_body_sound(s: Seq<u8>, pos: int)
    ensures
        body_at(s, pos) matches Ok(t) ==> is_body(t, s) && t.start == pos,
{
    if has_byte(s, pos, OPEN_BRACE) {
        lemma_members_sound(s, pos + 1);
    }
}

/// What `Schema` matches is a schema.
pub proof fn lemma_schema_sound(s: Seq<u8>, pos: int)
    ensures
        schema_at(s, pos) matches Ok(t) ==> is_schema(t, s) && t.start == pos,
{
    if keyword_at(s, pos) {
        let at = whitespace_end(s, pos + 6);
        lemma_identifier_sound(s, at);
        if let Ok(name) = identifier_at(s, at) {
            lemma_body_sound(s, whitespace_end(s, name.end));
        }
    }
}

/// The schemas that a repetition takes are schemas in sequence, and it ends
/// where no further schema matches.
pub proof fn lemma_schemas_sound(s: Seq<u8>, pos: int)
    requires
        0 <= pos <= s.len(),
    ensures
        forall|i: int|
            0 <= i < schemas_from(s, pos).items.len() ==> is_schema(
                #[trigger] schemas_from(s, pos).items[i],
                s,
            ),
        in_sequence(s, schemas_from(s, pos).items, pos),
        schemas_from(s, pos).end == after(
            schemas_from(s, pos).items,
            pos,
            schemas_from(s, pos).items.len() as int,
        ),
        schema_at(s, whitespace_end(s, schemas_from(s, pos).end)) == Err::<SyntaxTree, Mismatch>(
            schemas_from(s, pos).stop,
        ),
    decreases s.len() - pos,
{
    let at = whitespace_end(s, pos);
    lemma_whitespace_end(s, pos);
    lemma_schema_at(s, at);
    lemma_schema_sound(s, at);
    if let Ok(schema) = schema_at(s, at) {
        let rest = schemas_from(s, schema.end);
        lemma_schemas_sound(s, schema.end);
        lemma_in_sequence_cons(s, schema, rest.items, pos);
        let items = seq![schema] + rest.items;
        assert(schemas_from(s, pos).items == items);
        assert forall|i: int| 0 <= i < items.len() implies is_schema(#[trigger] items[i], s) by {
            if i > 0 {
                assert(items[i] == rest.items[i - 1]);
            }
        }
    }
}

/// What `Program` matches is a program.
pub proof fn lemma_program_sound(s: Seq<u8>)
    ensures
        program(s) matches Ok(trees) ==> is_program(trees, s),
{
    lemma_schemas_sound(s, 0);
    lemma_schemas_from(s, 0);
    lemma_whitespace_end(s, schemas_from(s, 0).end);
}

/// An identifier is what `Identifier` matches where it starts.
pub proof fn lemma_identifier_complete(t: SyntaxTree, s: Seq<u8>)
    requires
        is_identifier(t, s),
    ensures
        identifier_at(s, t.start) == Ok::<SyntaxTree, Mismatch>(t),
{
    lemma_identifier_run(s, t.start + 1, t.end);
    assert(t.children =~= Seq::empty());
}

/// A type is what `Type` matches where it starts.
pub proof fn lemma_type_complete(t: SyntaxTree, s: Seq<u8>)
    requires
        is_type(t, s),
    ensures
        type_at(s, t.start) == Ok::<SyntaxTree, Mismatch>(t),
{
    lemma_identifier_complete(t.children[0], s);
    assert(t.children =~= seq![t.children[0]]);
}

/// An attribute is what `SchemaAttribute` matches where it starts.
pub proof fn lemma_attribute_complete(t: SyntaxTree, s: Seq<u8>)
    requires
        is_attribute(t, s),
    ensures
        attribute_at(s, t.start) == Ok::<SyntaxTree, Mismatch>(t),
{
    lemma_identifier_complete(t.children[0], s);
    lemma_type_complete(t.children[1], s);
    assert(t.children =~= seq![t.children[0], t.children[1]]);
}

/// A method is what `SchemaMethod` matches where it starts.
pub proof fn lemma_method_complete(t: SyntaxTree, s: Seq<u8>)
    requires
        is_method(t, s),
    ensures
        method_at(s, t.start) == Ok::<SyntaxTree, Mismatch>(t),
{
    lemma_identifier_complete(t.children[0], s);
    assert(t.children =~= seq![t.children[0]]);
}

/// A member is what the choice of members matches where it starts.
pub proof fn lemma_member_complete(t: SyntaxTree, s: Seq<u8>)
    requires
        is_member(t, s),
    ensures
        member_at(s, t.start) == Ok::<SyntaxTree, Mismatch>(t),
{
    if is_attribute(t, s) {
        lemma_attribute_complete(t, s);
    } else {
        lemma_identifier_complete(t.children[0], s);
        lemma_method_complete(t, s);
    }
}

/// Items in sequence stay in sequence without the first of them.
pub proof fn lemma_in_sequence_tail(s: Seq<u8>, items: Seq<SyntaxTree>, from: int)
    requires
        items.len() >= 1,
        in_sequence(s, items, from),
    ensures
        items[0].start == whitespace_end(s, from),
        in_sequence(s, items.drop_first(), items[0].end),
        past(s, items.drop_first(), items[0].end) == past(s, items, from),
{
    let rest = items.drop_first();
    assert(after(items, from, 0) == from);
    assert forall|i: int| 0 <= i < rest.len() implies (#[trigger] rest[i]).start == whitespace_end(
        s,
        after(rest, items[0].end, i),
    ) by {
        assert(rest[i] == items[i + 1]);
        assert(after(items, from, i + 1) == after(rest, items[0].end, i));
    }
}

/// Members in sequence, with no further member behind them, are the
/// members that the repetition takes.
pub proof fn lemma_members_complete(s: Seq<u8>, items: Seq<SyntaxTree>, from: int)
    requires
        forall|i: int| 0 <= i < items.len() ==> is_member(#[trigger] items[i], s),
        in_sequence(s, items, from),
        member_at(s, past(s, items, from)) is Err,
    ensures
        members_from(s, from).items == items,
        members_from(s, from).end == after(items, from, items.len() as int),
    decreases items.len(),
{
    if items.len() == 0 {
        assert(members_from(s, from).items =~= items);
    } else {
        let first = items[0];
        let rest = items.drop_first();
        lemma_in_sequence_tail(s, items, from);
        lemma_member_complete(first, s);
        assert forall|i: int| 0 <= i < rest.len() implies is_member(#[trigger] rest[i], s) by {
            assert(rest[i] == items[i + 1]);
        }
        lemma_members_complete(s, rest, first.end);
        assert(seq![first] + rest =~= items);
    }
}

/// A byte that starts no identifier starts no member.
pub proof fn lemma_no_member(s: Seq<u8>, pos: int)
    requires
        !(0 <= pos < s.len() && is_identifier_start(s[pos])),
    ensures
        member_at(s, pos) is Err,
{
}

/// A body is what `SchemaBody` matches where it starts.
pub proof fn lemma_body_complete(t: SyntaxTree, s: Seq<u8>)
    requires
        is_body(t, s),
    ensures
        body_at(s, t.start) == Ok::<SyntaxTree, Mismatch>(t),
{
    lemma_no_member(s, past(s, t.children, t.start + 1));
    lemma_members_complete(s, t.children, t.start + 1);
}

/// A schema is what `Schema` matches where it starts.
pub proof fn lemma_schema_complete(t: SyntaxTree, s: Seq<u8>)
    requires
        is_schema(t, s),
    ensures
        schema_at(s, t.start) == Ok::<SyntaxTree, Mismatch>(t),
{
    lemma_identifier_complete(t.children[0], s);
    lemma_body_complete(t.children[1], s);
    assert(t.children =~= seq![t.children[0], t.children[1]]);
}

/// Schemas in sequence, with no further schema behind them, are the schemas
/// that the repetition takes.
pub proof fn lemma_schemas_complete(s: Seq<u8>, items: Seq<SyntaxTree>, from: int)
    requires
        forall|i: int| 0 <= i < items.len() ==> is_schema(#[trigger] items[i], s),
        in_sequence(s, items, from),
        schema_at(s, past(s, items, from)) is Err,
    ensures
        schemas_from(s, from).items == items,
        schemas_from(s, from).end == after(items, from, items.len() as int),
    decreases items.len(),
{
    if items.len() == 0 {
        assert(schemas_from(s, from).items =~= items);
    } else {
        let first = items[0];
        let rest = items.drop_first();
        lemma_in_sequence_tail(s, items, from);
        lemma_schema_complete(first, s);
        assert forall|i: int| 0 <= i < rest.len() implies is_schema(#[trigger] rest[i], s) by {
            assert(rest[i] == items[i + 1]);
        }
        lemma_schemas_complete(s, rest, first.end);
        assert(seq![first] + rest =~= items);
    }
}

/// A program is what `Program` matches.
pub proof fn lemma_program_complete(trees: Seq<SyntaxTree>, s: Seq<u8>)
    requires
        is_program(trees, s),
    ensures
        program(s) == Ok::<Seq<SyntaxTree>, Mismatch>(trees),
{
    lemma_schemas_complete(s, trees, 0);
}

/// The grammar, read as a matcher and read as a description of trees, says
/// the same: matching a text yields `trees` if and only if `trees` are a
/// program over that text.
pub proof fn lemma_program_iff(trees: Seq<SyntaxTree>, s: Seq<u8>)
    ensures
        program(s) == Ok::<Seq<SyntaxTree>, Mismatch>(trees) <==> is_program(trees, s),
{
    lemma_program_sound(s);
    if is_program(trees, s) {
        lemma_program_complete(trees, s);
    }
}

} // verus!
