//! Texts that begin alike, and what a syntax error says of the text before
//! it: that text is the beginning of a program.

use vstd::prelude::*;
use crate::derivation::{lemma_members_sound, lemma_schemas_sound};
use crate::grammar::{
    attribute_at, body_at, identifier_at, keyword_at, lemma_attribute_at, lemma_body_at,
    lemma_identifier_at, lemma_member_at, lemma_members_from, lemma_method_at, lemma_schema_at,
    lemma_schemas_from, lemma_type_at, member_at, members_from, method_at, program, schema_at,
    schemas_from, spells_keyword, type_at,
};
use crate::syntax::{Mismatch, Rule, SyntaxTree};
use crate::text::{
    has_byte, identifier_end, is_identifier_continue, is_whitespace, lemma_identifier_end,
    lemma_identifier_run, lemma_whitespace_end, whitespace_end, CLOSE_BRACE, COLON, OPEN_BRACE,
    SPACE,
};

verus! {

/// Whether `s` and `t` hold the same first `n` bytes.
pub open spec fn agree(s: Seq<u8>, t: Seq<u8>, n: int) -> bool {
    &&& 0 <= n <= s.len()
    &&& n <= t.len()
    &&& forall|i: int|
        #![trigger s[i]]
        #![trigger t[i]]
        0 <= i < n ==> s[i] == t[i]
}

/// Whether a word of `s` that ends at `end` ends there in `t` too, where
/// `t` holds the first `n` bytes of `s`: it ends before `n`, or at `n` and
/// `t` does not prolong it.
pub open spec fn settled(t: Seq<u8>, n: int, end: int) -> bool {
    end < n || (end == n && (n >= t.len() || !is_identifier_continue(t[n])))
}

/// Whitespace that ends within the common beginning ends at the same place.
pub proof fn lemma_whitespace_transfer(s: Seq<u8>, t: Seq<u8>, n: int, x: int)
    requires
        agree(s, t, n),
        0 <= x,
        whitespace_end(s, x) < n,
    ensures
        whitespace_end(t, x) == whitespace_end(s, x),
    decreases s.len() - x,
{
    lemma_whitespace_end(s, x);
    if x < s.len() && is_whitespace(s[x]) {
        lemma_whitespace_end(s, x + 1);
        lemma_whitespace_transfer(s, t, n, x + 1);
    }
}

/// Whitespace that runs up to the end of the common beginning runs on from
/// there as `t` has it.
pub proof fn lemma_whitespace_gap(s: Seq<u8>, t: Seq<u8>, n: int, x: int)
    requires
        agree(s, t, n),
        0 <= x <= n,
        whitespace_end(s, x) >= n,
    ensures
        whitespace_end(t, x) == whitespace_end(t, n),
    decreases n - x,
{
    if x < n {
        lemma_whitespace_gap(s, t, n, x + 1);
    }
}

/// A word that is settled ends at the same place.
pub proof fn lemma_identifier_end_transfer(s: Seq<u8>, t: Seq<u8>, n: int, x: int)
    requires
        agree(s, t, n),
        0 <= x <= s.len(),
        settled(t, n, identifier_end(s, x)),
    ensures
        identifier_end(t, x) == identifier_end(s, x),
{
    lemma_identifier_end(s, x);
    let end = identifier_end(s, x);
    assert forall|i: int| x <= i < end implies is_identifier_continue(#[trigger] t[i]) by {
        assert(s[i] == t[i]);
    }
    lemma_identifier_run(t, x, end);
}

/// An identifier that is settled is matched in `t` as in `s`.
pub proof fn lemma_identifier_transfer(s: Seq<u8>, t: Seq<u8>, n: int, x: int)
    requires
        agree(s, t, n),
        identifier_at(s, x) matches Ok(name) && settled(t, n, name.end),
    ensures
        identifier_at(t, x) == identifier_at(s, x),
{
    lemma_identifier_at(s, x);
    lemma_identifier_end_transfer(s, t, n, x + 1);
}

/// A type that is settled is matched in `t` as in `s`.
pub proof fn lemma_type_transfer(s: Seq<u8>, t: Seq<u8>, n: int, x: int)
    requires
        agree(s, t, n),
        type_at(s, x) matches Ok(ty) && settled(t, n, ty.end),
    ensures
        type_at(t, x) == type_at(s, x),
{
    lemma_identifier_transfer(s, t, n, x);
}

/// An attribute that is settled is matched in `t` as in `s`.
pub proof fn lemma_attribute_transfer(s: Seq<u8>, t: Seq<u8>, n: int, x: int)
    requires
        agree(s, t, n),
        attribute_at(s, x) matches Ok(attribute) && settled(t, n, attribute.end),
    ensures
        attribute_at(t, x) == attribute_at(s, x),
{
    lemma_identifier_at(s, x);
    let name = identifier_at(s, x)->Ok_0;
    let colon = whitespace_end(s, name.end);
    let at = whitespace_end(s, colon + 1);
    lemma_whitespace_end(s, name.end);
    lemma_whitespace_end(s, colon + 1);
    lemma_type_at(s, at);
    lemma_identifier_transfer(s, t, n, x);
    lemma_whitespace_transfer(s, t, n, name.end);
    lemma_whitespace_transfer(s, t, n, colon + 1);
    lemma_type_transfer(s, t, n, at);
}

/// A method that ends within the common beginning is matched in `t` as in
/// `s`.
pub proof fn lemma_method_transfer(s: Seq<u8>, t: Seq<u8>, n: int, x: int)
    requires
        agree(s, t, n),
        method_at(s, x) matches Ok(method) && method.end <= n,
    ensures
        method_at(t, x) == method_at(s, x),
{
    lemma_identifier_at(s, x);
    let name = identifier_at(s, x)->Ok_0;
    let open = whitespace_end(s, name.end);
    lemma_whitespace_end(s, name.end);
    lemma_whitespace_end(s, open + 1);
    lemma_identifier_transfer(s, t, n, x);
    lemma_whitespace_transfer(s, t, n, name.end);
    lemma_whitespace_transfer(s, t, n, open + 1);
}

/// A member that is settled is matched in `t` as in `s`.
pub proof fn lemma_member_transfer(s: Seq<u8>, t: Seq<u8>, n: int, x: int)
    requires
        agree(s, t, n),
        member_at(s, x) matches Ok(member) && settled(t, n, member.end),
    ensures
        member_at(t, x) == member_at(s, x),
{
    if attribute_at(s, x) is Ok {
        lemma_attribute_transfer(s, t, n, x);
    } else {
        lemma_identifier_at(s, x);
        let name = identifier_at(s, x)->Ok_0;
        lemma_whitespace_end(s, name.end);
        lemma_whitespace_end(s, whitespace_end(s, name.end) + 1);
        lemma_identifier_transfer(s, t, n, x);
        lemma_whitespace_transfer(s, t, n, name.end);
        lemma_method_transfer(s, t, n, x);
    }
}

/// The members that `s` has up to a settled end are members of `t`, which
/// goes on from that end.
pub proof fn lemma_members_extend(s: Seq<u8>, t: Seq<u8>, n: int, from: int)
    requires
        agree(s, t, n),
        0 <= from <= s.len(),
        settled(t, n, members_from(s, from).end),
    ensures
        members_from(t, from).items == members_from(s, from).items + members_from(
            t,
            members_from(s, from).end,
        ).items,
        members_from(t, from).end == members_from(t, members_from(s, from).end).end,
        members_from(t, from).stop == members_from(t, members_from(s, from).end).stop,
    decreases s.len() - from,
{
    let at = whitespace_end(s, from);
    let all = members_from(s, from);
    lemma_whitespace_end(s, from);
    lemma_member_at(s, at);
    match member_at(s, at) {
        Ok(member) => {
            let rest = members_from(s, member.end);
            lemma_members_from(s, member.end);
            lemma_whitespace_transfer(s, t, n, from);
            lemma_member_transfer(s, t, n, at);
            lemma_members_extend(s, t, n, member.end);
            let beyond = members_from(t, all.end).items;
            assert(seq![member] + (rest.items + beyond) =~= (seq![member] + rest.items) + beyond);
        },
        Err(_) => {
            assert(all.items + members_from(t, from).items =~= members_from(t, from).items);
        },
    }
}

/// A body that ends within the common beginning is matched in `t` as in
/// `s`.
pub proof fn lemma_body_transfer(s: Seq<u8>, t: Seq<u8>, n: int, x: int)
    requires
        agree(s, t, n),
        body_at(s, x) matches Ok(body) && body.end <= n,
    ensures
        body_at(t, x) == body_at(s, x),
{
    let members = members_from(s, x + 1);
    let close = whitespace_end(s, members.end);
    lemma_members_from(s, x + 1);
    lemma_whitespace_end(s, members.end);
    lemma_members_extend(s, t, n, x + 1);
    lemma_whitespace_transfer(s, t, n, members.end);
    assert(member_at(t, close) is Err);
    assert(members.items + members_from(t, members.end).items =~= members.items);
}

/// A schema that ends within the common beginning is matched in `t` as in
/// `s`.
pub proof fn lemma_schema_transfer(s: Seq<u8>, t: Seq<u8>, n: int, x: int)
    requires
        agree(s, t, n),
        schema_at(s, x) matches Ok(schema) && schema.end <= n,
    ensures
        schema_at(t, x) == schema_at(s, x),
{
    let at = whitespace_end(s, x + 6);
    lemma_whitespace_end(s, x + 6);
    lemma_identifier_at(s, at);
    let name = identifier_at(s, at)->Ok_0;
    let open = whitespace_end(s, name.end);
    lemma_whitespace_end(s, name.end);
    lemma_body_at(s, open);
    lemma_identifier_end_transfer(s, t, n, x);
    lemma_whitespace_transfer(s, t, n, x + 6);
    lemma_identifier_transfer(s, t, n, at);
    lemma_whitespace_transfer(s, t, n, name.end);
    lemma_body_transfer(s, t, n, open);
}

/// The schemas that `s` has within the common beginning are schemas of `t`,
/// which goes on from their end.
pub proof fn lemma_schemas_extend(s: Seq<u8>, t: Seq<u8>, n: int, from: int)
    requires
        agree(s, t, n),
        0 <= from <= s.len(),
        schemas_from(s, from).end <= n,
    ensures
        schemas_from(t, from).items == schemas_from(s, from).items + schemas_from(
            t,
            schemas_from(s, from).end,
        ).items,
        schemas_from(t, from).end == schemas_from(t, schemas_from(s, from).end).end,
        schemas_from(t, from).stop == schemas_from(t, schemas_from(s, from).end).stop,
    decreases s.len() - from,
{
    let at = whitespace_end(s, from);
    let all = schemas_from(s, from);
    lemma_whitespace_end(s, from);
    lemma_schema_at(s, at);
    match schema_at(s, at) {
        Ok(schema) => {
            let rest = schemas_from(s, schema.end);
            lemma_schemas_from(s, schema.end);
            lemma_whitespace_transfer(s, t, n, from);
            lemma_schema_transfer(s, t, n, at);
            lemma_schemas_extend(s, t, n, schema.end);
            let beyond = schemas_from(t, all.end).items;
            assert(seq![schema] + (rest.items + beyond) =~= (seq![schema] + rest.items) + beyond);
        },
        Err(_) => {
            assert(all.items + schemas_from(t, from).items =~= schemas_from(t, from).items);
        },
    }
}

/// A text that ends, from `open` on, with an empty pair of braces has a
/// body there.
pub proof fn lemma_tail_body(t: Seq<u8>, open: int)
    requires
        0 <= open,
        t.len() == open + 2,
        t[open] == OPEN_BRACE,
        t[open + 1] == CLOSE_BRACE,
    ensures
        body_at(t, open) matches Ok(body) && body.end == t.len(),
{
    assert(whitespace_end(t, open + 1) == open + 1);
    assert(member_at(t, open + 1) is Err);
    assert(members_from(t, open + 1).end == open + 1);
}

/// A text that has the keyword at `x` and ends, from `at` on, with a name
/// and an empty pair of braces has a schema at `x`.
pub proof fn lemma_tail_schema(t: Seq<u8>, x: int, at: int)
    requires
        keyword_at(t, x),
        0 <= at,
        whitespace_end(t, x + 6) == at,
        t.len() == at + 3,
        t[at] == 0x41,
        t[at + 1] == OPEN_BRACE,
        t[at + 2] == CLOSE_BRACE,
    ensures
        schema_at(t, x) matches Ok(schema) && schema.end == t.len(),
{
    assert(identifier_end(t, at + 1) == at + 1);
    assert(identifier_at(t, at) == Ok::<SyntaxTree, Mismatch>(
        SyntaxTree::leaf(Rule::Identifier, at, at + 1),
    ));
    assert(whitespace_end(t, at + 1) == at + 1);
    lemma_tail_body(t, at + 1);
}

/// Where `s` lacks the name of a schema, a text that goes on with a name
/// and an empty body has the schema.
pub proof fn lemma_repair_name(s: Seq<u8>, t: Seq<u8>, n: int, x: int)
    requires
        agree(s, t, n),
        keyword_at(s, x),
        n == whitespace_end(s, x + 6),
        t.len() == n + 4,
        t[n] == SPACE,
        t[n + 1] == 0x41,
        t[n + 2] == OPEN_BRACE,
        t[n + 3] == CLOSE_BRACE,
    ensures
        schema_at(t, x) matches Ok(schema) && schema.end == t.len(),
{
    lemma_whitespace_end(s, x + 6);
    lemma_identifier_end_transfer(s, t, n, x);
    assert(spells_keyword(t, x)) by {
        assert(s[x] == t[x]);
        assert(s[x + 1] == t[x + 1]);
        assert(s[x + 2] == t[x + 2]);
        assert(s[x + 3] == t[x + 3]);
        assert(s[x + 4] == t[x + 4]);
        assert(s[x + 5] == t[x + 5]);
    }
    lemma_whitespace_gap(s, t, n, x + 6);
    assert(whitespace_end(t, n + 1) == n + 1);
    assert(whitespace_end(t, n) == n + 1);
    lemma_tail_schema(t, x, n + 1);
}

/// The keyword, the name and the start of the body of a schema of `s` that
/// lie within the common beginning are those of `t`.
pub proof fn lemma_head_transfer(s: Seq<u8>, t: Seq<u8>, n: int, x: int)
    requires
        agree(s, t, n),
        keyword_at(s, x),
        identifier_at(s, whitespace_end(s, x + 6)) matches Ok(name) && whitespace_end(
            s,
            name.end,
        ) <= n && settled(t, n, name.end),
    ensures
        keyword_at(t, x),
        whitespace_end(t, x + 6) == whitespace_end(s, x + 6),
        identifier_at(t, whitespace_end(s, x + 6)) == identifier_at(s, whitespace_end(s, x + 6)),
{
    let at = whitespace_end(s, x + 6);
    lemma_whitespace_end(s, x + 6);
    lemma_identifier_at(s, at);
    let name = identifier_at(s, at)->Ok_0;
    lemma_whitespace_end(s, name.end);
    lemma_identifier_end_transfer(s, t, n, x);
    assert(spells_keyword(t, x)) by {
        assert(s[x] == t[x]);
        assert(s[x + 1] == t[x + 1]);
        assert(s[x + 2] == t[x + 2]);
        assert(s[x + 3] == t[x + 3]);
        assert(s[x + 4] == t[x + 4]);
        assert(s[x + 5] == t[x + 5]);
    }
    lemma_whitespace_transfer(s, t, n, x + 6);
    lemma_identifier_transfer(s, t, n, at);
}

/// Where `s` lacks the body of a schema, a text that goes on with an empty
/// body has the schema.
pub proof fn lemma_repair_body(s: Seq<u8>, t: Seq<u8>, n: int, x: int)
    requires
        agree(s, t, n),
        keyword_at(s, x),
        identifier_at(s, whitespace_end(s, x + 6)) matches Ok(name) && n == whitespace_end(
            s,
            name.end,
        ),
        t.len() == n + 2,
        t[n] == OPEN_BRACE,
        t[n + 1] == CLOSE_BRACE,
    ensures
        schema_at(t, x) matches Ok(schema) && schema.end == t.len(),
{
    let name = identifier_at(s, whitespace_end(s, x + 6))->Ok_0;
    lemma_identifier_at(s, whitespace_end(s, x + 6));
    lemma_whitespace_end(s, name.end);
    lemma_head_transfer(s, t, n, x);
    lemma_whitespace_gap(s, t, n, name.end);
    assert(whitespace_end(t, n) == n);
    lemma_tail_body(t, n);
}

/// Where the body of a schema of `s` starts within the common beginning and
/// `t` has a body there, `t` has the schema.
pub proof fn lemma_repair_schema(s: Seq<u8>, t: Seq<u8>, n: int, x: int)
    requires
        agree(s, t, n),
        keyword_at(s, x),
        identifier_at(s, whitespace_end(s, x + 6)) matches Ok(name) && whitespace_end(
            s,
            name.end,
        ) < n && body_at(t, whitespace_end(s, name.end)) is Ok,
    ensures
        schema_at(t, x) matches Ok(schema) && schema.end == body_at(
            t,
            whitespace_end(s, identifier_at(s, whitespace_end(s, x + 6))->Ok_0.end),
        )->Ok_0.end,
{
    let name = identifier_at(s, whitespace_end(s, x + 6))->Ok_0;
    lemma_identifier_at(s, whitespace_end(s, x + 6));
    lemma_whitespace_end(s, name.end);
    lemma_head_transfer(s, t, n, x);
    lemma_whitespace_transfer(s, t, n, name.end);
}

/// Where the members of a body of `s` end and no closing brace follows, a
/// text that goes on with one has the body.
pub proof fn lemma_repair_close(s: Seq<u8>, t: Seq<u8>, n: int, x: int)
    requires
        agree(s, t, n),
        has_byte(s, x, OPEN_BRACE),
        n == whitespace_end(s, members_from(s, x + 1).end),
        t.len() == n + 1,
        t[n] == CLOSE_BRACE,
    ensures
        body_at(t, x) matches Ok(body) && body.end == t.len(),
{
    let members = members_from(s, x + 1);
    lemma_members_from(s, x + 1);
    lemma_whitespace_end(s, members.end);
    lemma_members_extend(s, t, n, x + 1);
    lemma_whitespace_gap(s, t, n, members.end);
    assert(whitespace_end(t, n) == n);
    assert(member_at(t, n) is Err);
    assert(members_from(t, members.end).end == members.end);
    assert(s[x] == t[x]);
}

/// Where an attribute of a body of `s` lacks its type, a text that goes on
/// with a type and a closing brace has the body.
pub proof fn lemma_repair_type(s: Seq<u8>, t: Seq<u8>, n: int, x: int)
    requires
        agree(s, t, n),
        has_byte(s, x, OPEN_BRACE),
        identifier_at(s, whitespace_end(s, members_from(s, x + 1).end)) matches Ok(name)
            && has_byte(s, whitespace_end(s, name.end), COLON) && n == whitespace_end(
            s,
            whitespace_end(s, name.end) + 1,
        ),
        t.len() == n + 2,
        t[n] == 0x54,
        t[n + 1] == CLOSE_BRACE,
    ensures
        body_at(t, x) matches Ok(body) && body.end == t.len(),
{
    let members = members_from(s, x + 1);
    let at = whitespace_end(s, members.end);
    let name = identifier_at(s, at)->Ok_0;
    let colon = whitespace_end(s, name.end);
    lemma_members_from(s, x + 1);
    lemma_whitespace_end(s, members.end);
    lemma_identifier_at(s, at);
    lemma_whitespace_end(s, name.end);
    lemma_whitespace_end(s, colon + 1);
    lemma_members_extend(s, t, n, x + 1);
    lemma_whitespace_transfer(s, t, n, members.end);
    lemma_identifier_transfer(s, t, n, at);
    lemma_whitespace_transfer(s, t, n, name.end);
    assert(s[colon] == t[colon]);
    lemma_whitespace_gap(s, t, n, colon + 1);
    assert(whitespace_end(t, n) == n);
    assert(identifier_end(t, n + 1) == n + 1);
    assert(type_at(t, n) matches Ok(ty) && ty.end == n + 1);
    assert(attribute_at(t, at) matches Ok(attribute) && attribute.end == n + 1);
    assert(member_at(t, at) matches Ok(member) && member.end == n + 1);
    assert(whitespace_end(t, n + 1) == n + 1);
    assert(member_at(t, n + 1) is Err);
    assert(members_from(t, n + 1).end == n + 1);
    assert(members_from(t, members.end).end == n + 1);
    assert(s[x] == t[x]);
}

/// A text that makes a program of what stands before a failure, by the
/// rules that were expected there: a whole schema where the first is
/// missing, nothing where a further one is, and else what the schema at
/// hand yet lacks.
pub open spec fn completion(expected: Seq<Rule>) -> Seq<u8> {
    if expected.len() == 0 {
        Seq::empty()
    } else {
        match expected[0] {
            Rule::Schema => if expected.len() == 1 {
                seq![0x73u8, 0x63u8, 0x68u8, 0x65u8, 0x6du8, 0x61u8, 0x20u8, 0x41u8, 0x7bu8, 0x7du8]
            } else {
                Seq::empty()
            },
            Rule::Identifier => seq![0x20u8, 0x41u8, 0x7bu8, 0x7du8],
            Rule::SchemaBody => seq![0x7bu8, 0x7du8],
            Rule::SchemaAttribute => seq![0x7du8],
            Rule::Type => seq![0x54u8, 0x7du8],
            _ => Seq::empty(),
        }
    }
}

/// The text of `s` before `n`, and `rest` behind it.
pub open spec fn replaced(s: Seq<u8>, n: int, rest: Seq<u8>) -> Seq<u8> {
    s.subrange(0, n) + rest
}

/// A text agrees with what replaces its end.
pub proof fn lemma_replaced(s: Seq<u8>, n: int, rest: Seq<u8>)
    requires
        0 <= n <= s.len(),
    ensures
        agree(s, replaced(s, n, rest), n),
        replaced(s, n, rest).len() == n + rest.len(),
        forall|i: int| 0 <= i < rest.len() ==> #[trigger] replaced(s, n, rest)[n + i] == rest[i],
{
}

/// A body that fails behind its opening brace is mended by the completion
/// of its failure.
pub proof fn lemma_body_mends(s: Seq<u8>, x: int)
    requires
        has_byte(s, x, OPEN_BRACE),
        body_at(s, x) is Err,
    ensures
        x < body_at(s, x)->Err_0.at <= s.len(),
        ({
            let failure = body_at(s, x)->Err_0;
            let t = replaced(s, failure.at, completion(failure.expected));
            body_at(t, x) matches Ok(body) && body.end == t.len()
        }),
{
    let failure = body_at(s, x)->Err_0;
    let members = members_from(s, x + 1);
    let at = whitespace_end(s, members.end);
    lemma_members_from(s, x + 1);
    lemma_members_sound(s, x + 1);
    lemma_whitespace_end(s, members.end);
    lemma_attribute_at(s, at);
    lemma_method_at(s, at);
    let n = failure.at;
    let t = replaced(s, n, completion(failure.expected));
    lemma_replaced(s, n, completion(failure.expected));
    let first = attribute_at(s, at)->Err_0;
    let second = method_at(s, at)->Err_0;
    assert(failure == first.merge(second));
    assert(second.at == at);
    if first.at == at {
        assert(first.expected =~= seq![Rule::SchemaAttribute]);
        assert(failure.expected[0] == Rule::SchemaAttribute);
        assert(t[n + 0] == CLOSE_BRACE);
        lemma_repair_close(s, t, n, x);
    } else {
        lemma_identifier_at(s, at);
        let name = identifier_at(s, at)->Ok_0;
        let colon = whitespace_end(s, name.end);
        lemma_whitespace_end(s, name.end);
        lemma_whitespace_end(s, colon + 1);
        lemma_type_at(s, whitespace_end(s, colon + 1));
        assert(failure.expected =~= seq![Rule::Type]);
        assert(failure.expected[0] == Rule::Type);
        assert(t[n + 0] == 0x54);
        assert(t[n + 1] == CLOSE_BRACE);
        lemma_repair_type(s, t, n, x);
    }
}

/// A schema that fails behind its keyword is mended by the completion of
/// its failure.
pub proof fn lemma_schema_mends(s: Seq<u8>, x: int)
    requires
        schema_at(s, x) matches Err(failure) && failure.at > x,
    ensures
        schema_at(s, x)->Err_0.at <= s.len(),
        ({
            let failure = schema_at(s, x)->Err_0;
            let t = replaced(s, failure.at, completion(failure.expected));
            schema_at(t, x) matches Ok(schema) && schema.end == t.len()
        }),
{
    let failure = schema_at(s, x)->Err_0;
    let n = failure.at;
    let at = whitespace_end(s, x + 6);
    lemma_schema_at(s, x);
    lemma_whitespace_end(s, x + 6);
    lemma_identifier_at(s, at);
    let t = replaced(s, n, completion(failure.expected));
    lemma_replaced(s, n, completion(failure.expected));
    match identifier_at(s, at) {
        Err(inner) => {
            assert(failure.expected =~= seq![Rule::Identifier]);
            assert(failure.expected[0] == Rule::Identifier);
            assert(t[n + 0] == SPACE);
            assert(t[n + 1] == 0x41);
            assert(t[n + 2] == OPEN_BRACE);
            assert(t[n + 3] == CLOSE_BRACE);
            lemma_repair_name(s, t, n, x);
        },
        Ok(name) => {
            let open = whitespace_end(s, name.end);
            lemma_whitespace_end(s, name.end);
            lemma_body_at(s, open);
            if !has_byte(s, open, OPEN_BRACE) {
                assert(failure.expected =~= seq![Rule::SchemaBody]);
                assert(failure.expected[0] == Rule::SchemaBody);
                assert(t[n + 0] == OPEN_BRACE);
                assert(t[n + 1] == CLOSE_BRACE);
                lemma_repair_body(s, t, n, x);
            } else {
                lemma_body_mends(s, open);
                assert(failure == body_at(s, open)->Err_0);
                lemma_repair_schema(s, t, n, x);
            }
        },
    }
}

/// A schema that fails where it starts lacks its keyword.
pub proof fn lemma_schema_fails_at_start(s: Seq<u8>, x: int)
    requires
        schema_at(s, x) matches Err(failure) && failure.at <= x,
    ensures
        schema_at(s, x) == Err::<SyntaxTree, Mismatch>(Mismatch::of(Rule::Schema, x)),
{
    lemma_schema_at(s, x);
    lemma_whitespace_end(s, x + 6);
    lemma_identifier_at(s, whitespace_end(s, x + 6));
    if let Ok(name) = identifier_at(s, whitespace_end(s, x + 6)) {
        lemma_whitespace_end(s, name.end);
        lemma_body_at(s, whitespace_end(s, name.end));
    }
}

/// A text of whitespace alone becomes a program with a schema behind it.
pub proof fn lemma_first_schema_mends(s: Seq<u8>)
    requires
        whitespace_end(s, 0) <= s.len(),
    ensures
        program(replaced(s, whitespace_end(s, 0), completion(seq![Rule::Schema]))) is Ok,
{
    let n = whitespace_end(s, 0);
    let rest = completion(seq![Rule::Schema]);
    let t = replaced(s, n, rest);
    lemma_whitespace_end(s, 0);
    lemma_replaced(s, n, rest);
    assert(t[n + 0] == 0x73);
    assert(t[n + 1] == 0x63);
    assert(t[n + 2] == 0x68);
    assert(t[n + 3] == 0x65);
    assert(t[n + 4] == 0x6d);
    assert(t[n + 5] == 0x61);
    assert(t[n + 6] == SPACE);
    assert(t[n + 7] == 0x41);
    assert(t[n + 8] == OPEN_BRACE);
    assert(t[n + 9] == CLOSE_BRACE);
    lemma_whitespace_gap(s, t, n, 0);
    assert(whitespace_end(t, n) == n);
    assert forall|i: int| n <= i < n + 6 implies is_identifier_continue(#[trigger] t[i]) by {
        if i == n {
        } else if i == n + 1 {
        } else if i == n + 2 {
        } else if i == n + 3 {
        } else if i == n + 4 {
        } else {
            assert(i == n + 5);
        }
    }
    lemma_identifier_run(t, n, n + 6);
    assert(whitespace_end(t, n + 7) == n + 7);
    assert(whitespace_end(t, n + 6) == n + 7);
    lemma_tail_schema(t, n, n + 7);
    lemma_tail_program(t, 0);
}

/// A text that holds schemas and then something else is a program without
/// what follows the schemas.
pub proof fn lemma_cut_mends(s: Seq<u8>)
    requires
        schemas_from(s, 0).items.len() >= 1,
    ensures
        whitespace_end(s, schemas_from(s, 0).end) <= s.len(),
        program(replaced(s, whitespace_end(s, schemas_from(s, 0).end), Seq::empty())) is Ok,
{
    let schemas = schemas_from(s, 0);
    let n = whitespace_end(s, schemas.end);
    lemma_schemas_from(s, 0);
    lemma_whitespace_end(s, schemas.end);
    let t = replaced(s, n, Seq::empty());
    lemma_replaced(s, n, Seq::empty());
    lemma_schemas_extend(s, t, n, 0);
    lemma_whitespace_gap(s, t, n, schemas.end);
    assert(whitespace_end(t, n) == n);
    assert(schema_at(t, n) is Err);
    assert(schemas_from(t, schemas.end).end == schemas.end);
    assert(schemas_from(t, schemas.end).items =~= Seq::empty());
    assert(schemas.items + schemas_from(t, schemas.end).items =~= schemas.items);
}

/// A text whose last schema fails behind its keyword is a program once that
/// schema is mended.
pub proof fn lemma_last_schema_mends(s: Seq<u8>)
    requires
        schemas_from(s, 0).stop.at > whitespace_end(s, schemas_from(s, 0).end),
    ensures
        schemas_from(s, 0).stop.at <= s.len(),
        program(
            replaced(
                s,
                schemas_from(s, 0).stop.at,
                completion(schemas_from(s, 0).stop.expected),
            ),
        ) is Ok,
{
    let schemas = schemas_from(s, 0);
    let at = whitespace_end(s, schemas.end);
    let n = schemas.stop.at;
    lemma_schemas_from(s, 0);
    lemma_schemas_sound(s, 0);
    lemma_whitespace_end(s, schemas.end);
    lemma_schema_mends(s, at);
    let t = replaced(s, n, completion(schemas.stop.expected));
    lemma_replaced(s, n, completion(schemas.stop.expected));
    lemma_schemas_extend(s, t, n, 0);
    lemma_whitespace_transfer(s, t, n, schemas.end);
    lemma_tail_program(t, schemas.end);
}

/// A program that fails is mended by the completion of its failure: the
/// text before the failure, with the completion behind it, is a program.
pub proof fn lemma_program_mends(s: Seq<u8>)
    requires
        program(s) is Err,
    ensures
        0 <= program(s)->Err_0.at <= s.len(),
        program(
            replaced(s, program(s)->Err_0.at, completion(program(s)->Err_0.expected)),
        ) is Ok,
{
    let failure = program(s)->Err_0;
    let schemas = schemas_from(s, 0);
    let at = whitespace_end(s, schemas.end);
    lemma_schemas_from(s, 0);
    lemma_schemas_sound(s, 0);
    lemma_whitespace_end(s, schemas.end);
    if schemas.stop.at <= at {
        lemma_schema_fails_at_start(s, at);
        if schemas.items.len() == 0 {
            assert(failure.expected =~= seq![Rule::Schema]);
            lemma_first_schema_mends(s);
        } else {
            assert(failure.expected =~= seq![Rule::Schema, Rule::EndOfInput]);
            lemma_cut_mends(s);
        }
    } else {
        lemma_last_schema_mends(s);
    }
}

/// Where the last schema of `t` stands behind `from` and ends with `t`, the
/// schemas from `from` on are that one, and they end with `t`.
proof fn lemma_tail_program(t: Seq<u8>, from: int)
    requires
        schema_at(t, whitespace_end(t, from)) matches Ok(schema) && schema.end == t.len(),
    ensures
        schemas_from(t, from).items.len() == 1,
        schemas_from(t, from).end == t.len(),
        whitespace_end(t, t.len() as int) == t.len(),
{
    let end = t.len() as int;
    assert(whitespace_end(t, end) == end);
    assert(schema_at(t, end) is Err);
    assert(schemas_from(t, end).items =~= Seq::empty());
    assert(schemas_from(t, end).end == end);
}

/// The position of a syntax error lies at or before the first byte that
/// cannot belong to a program: the text before that position is the
/// beginning of a program, for some text behind it makes one.
pub proof fn lemma_error_leaves_viable_prefix(s: Seq<u8>)
    ensures
        program(s) matches Err(failure) ==> 0 <= failure.at <= s.len() && exists|rest: Seq<u8>|
            #[trigger] program(replaced(s, failure.at, rest)) is Ok,
{
    if program(s) is Err {
        lemma_program_mends(s);
    }
}

} // verus!
