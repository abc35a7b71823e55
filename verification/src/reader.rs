//! Reading a source text: the grammar matcher and the AST builder, one after
//! the other.

use vstd::prelude::*;
use vstd::string::*;
use vstd::utf8::*;
use crate::ast::{asts, lemma_asts_push, AstNode};
use crate::builder::{parse, reduce, reduce_each};
use crate::derivation::{is_program, lemma_program_sound};
use crate::grammar::program;
use crate::laws::lemma_schema_reduces;
use crate::matcher::match_program;
use crate::syntax::{views, Rule, SyntaxError};

verus! {

/// What [`parse_source`] owes for the text `s`: the reductions of the
/// schemas of the program, in order, or the error that reports why `s` is no
/// program.
pub open spec fn reads(outcome: Result<Vec<AstNode>, SyntaxError>, s: Seq<u8>) -> bool {
    match outcome {
        Ok(schemas) => program(s) matches Ok(trees) && asts(schemas@) == reduce_each(trees, s),
        Err(error) => program(s) matches Err(mismatch) && error.reports(s, mismatch),
    }
}

/// Reads `source` as a program. It returns one `SchemaDef` for each schema,
/// in source order, or the syntax error; on an error no part of the source
/// is reduced.
pub fn parse_source(source: &str) -> (outcome: Result<Vec<AstNode>, SyntaxError>)
    ensures
        reads(outcome, source.spec_bytes()),
{
    broadcast use encode_utf8_valid_utf8;

    let ghost s = source.spec_bytes();
    match match_program(source) {
        Err(error) => Err(error),
        Ok(nodes) => {
            let ghost trees = views(nodes@);
            proof {
                lemma_program_sound(s);
            }
            let mut schemas: Vec<AstNode> = Vec::new();
            let mut unknown: Vec<Rule> = Vec::new();
            let mut i: usize = 0;
            assert(reduce_each(trees.subrange(0, 0), s) =~= asts(schemas@));
            while i < nodes.len()
                invariant
                    i <= nodes.len(),
                    s == source.spec_bytes(),
                    valid_utf8(s),
                    trees == views(nodes@),
                    is_program(trees, s),
                    unknown@ == Seq::<Rule>::empty(),
                    asts(schemas@) == reduce_each(trees.subrange(0, i as int), s),
                decreases nodes.len() - i,
            {
                proof {
                    lemma_schema_reduces(trees[i as int], s);
                }
                let schema: AstNode = parse(&nodes[i], source, &mut unknown);
                proof {
                    lemma_asts_push(schemas@, schema);
                    assert(reduce_each(trees.subrange(0, i + 1), s) =~= reduce_each(
                        trees.subrange(0, i as int),
                        s,
                    ).push(reduce(trees[i as int], s)));
                    assert(unknown@ =~= Seq::<Rule>::empty());
                }
                schemas.push(schema);
                i = i + 1;
            }
            assert(trees.subrange(0, i as int) =~= trees);
            Ok(schemas)
        },
    }
}

} // verus!
