//! The matched-syntax tree: what the grammar matcher hands to the AST builder.

use vstd::prelude::*;
use crate::text::{column_index, line_index, locate};

verus! {

/// The names of the grammar's rules. A matched-syntax node carries the name of
/// the rule that matched it.
#[derive(Clone, Copy, Debug, PartialEq, Eq, Structural)]
pub enum Rule {
    /// One or more schemas, and nothing else but whitespace.
    Program,
    /// The keyword `schema`, a name and a body.
    Schema,
    /// A brace-delimited run of attributes and methods.
    SchemaBody,
    /// A name, a colon and a type.
    SchemaAttribute,
    /// A name and an empty pair of parentheses.
    SchemaMethod,
    /// The name of a type.
    Type,
    /// A bare name.
    Identifier,
    /// The end of the source text.
    EndOfInput,
}

/// A node of the matched-syntax tree: the rule that matched, the half-open
/// byte range `start..end` of the source text that it consumed, and the nodes
/// of the rules matched inside it, in source order.
#[derive(Debug, PartialEq, Eq)]
pub struct SyntaxNode {
    pub rule: Rule,
    pub start: usize,
    pub end: usize,
    pub children: Vec<SyntaxNode>,
}

/// The mathematical model of a [`SyntaxNode`].
pub struct SyntaxTree {
    pub rule: Rule,
    pub start: int,
    pub end: int,
    pub children: Seq<SyntaxTree>,
}

/// The model of a node: its rule, its span and the models of its children.
pub open spec fn tree_of(node: SyntaxNode) -> SyntaxTree
    decreases node,
{
    SyntaxTree {
        rule: node.rule,
        start: node.start as int,
        end: node.end as int,
        children: Seq::new(
            node.children.len() as nat,
            |i: int|
                if 0 <= i < node.children.len() {
                    tree_of(node.children[i])
                } else {
                    arbitrary()
                },
        ),
    }
}

impl View for SyntaxNode {
    type V = SyntaxTree;

    open spec fn view(&self) -> SyntaxTree {
        tree_of(*self)
    }
}

/// The models of a sequence of nodes, in order.
pub open spec fn views(nodes: Seq<SyntaxNode>) -> Seq<SyntaxTree> {
    nodes.map_values(|node: SyntaxNode| node@)
}

/// The model of a node holds the models of its children.
pub proof fn lemma_view_children(node: SyntaxNode)
    ensures
        node@.children == views(node.children@),
{
    assert(node@.children =~= views(node.children@));
}

/// The models of a sequence grow with it.
pub proof fn lemma_views_push(nodes: Seq<SyntaxNode>, node: SyntaxNode)
    ensures
        views(nodes.push(node)) == views(nodes).push(node@),
{
    assert(views(nodes.push(node)) =~= views(nodes).push(node@));
}

impl SyntaxNode {
    /// A node with the given children.
    pub fn new(rule: Rule, start: usize, end: usize, children: Vec<SyntaxNode>) -> (node:
        SyntaxNode)
        ensures
            node@ == (SyntaxTree {
                rule,
                start: start as int,
                end: end as int,
                children: views(children@),
            }),
    {
        let node = SyntaxNode { rule, start, end, children };
        proof {
            lemma_view_children(node);
        }
        node
    }

    /// A node without children.
    pub fn leaf(rule: Rule, start: usize, end: usize) -> (node: SyntaxNode)
        ensures
            node@ == SyntaxTree::leaf(rule, start as int, end as int),
    {
        let node = SyntaxNode::new(rule, start, end, Vec::new());
        assert(node@.children =~= Seq::empty());
        node
    }

    /// A node with one child.
    pub fn unary(rule: Rule, start: usize, end: usize, child: SyntaxNode) -> (node: SyntaxNode)
        ensures
            node@ == (SyntaxTree {
                rule,
                start: start as int,
                end: end as int,
                children: seq![child@],
            }),
    {
        let mut children: Vec<SyntaxNode> = Vec::new();
        children.push(child);
        let node = SyntaxNode::new(rule, start, end, children);
        assert(node@.children =~= seq![child@]);
        node
    }

    /// A node with two children.
    pub fn binary(
        rule: Rule,
        start: usize,
        end: usize,
        first: SyntaxNode,
        second: SyntaxNode,
    ) -> (node: SyntaxNode)
        ensures
            node@ == (SyntaxTree {
                rule,
                start: start as int,
                end: end as int,
                children: seq![first@, second@],
            }),
    {
        let mut children: Vec<SyntaxNode> = Vec::new();
        children.push(first);
        children.push(second);
        let node = SyntaxNode::new(rule, start, end, children);
        assert(node@.children =~= seq![first@, second@]);
        node
    }
}

impl SyntaxTree {
    /// A tree without children.
    pub open spec fn leaf(rule: Rule, start: int, end: int) -> SyntaxTree {
        SyntaxTree { rule, start, end, children: Seq::empty() }
    }
}

/// The mathematical model of a [`Failure`]: the position that matching could
/// not get past, and the rules that were tried there.
///
/// A rule that fails is reported at the position where it started. When a
/// rule fails because a rule inside it failed further on, the inner rule is
/// reported; when several rules fail at one position, all of them are.
pub struct Mismatch {
    pub at: int,
    pub expected: Seq<Rule>,
}

impl Mismatch {
    /// The failure of `rule` at `pos`.
    pub open spec fn of(rule: Rule, pos: int) -> Mismatch {
        Mismatch { at: pos, expected: seq![rule] }
    }

    /// The failure to report for a rule that started at `start` and failed
    /// because of `self`: `self` if it lies further on, else the rule itself.
    pub open spec fn lift(self, rule: Rule, start: int) -> Mismatch {
        if self.at > start {
            self
        } else {
            Mismatch::of(rule, start)
        }
    }

    /// The failure to report when `self` and then `other` were tried in turn:
    /// the one that lies further on, and both where neither does.
    pub open spec fn merge(self, other: Mismatch) -> Mismatch {
        if self.at > other.at {
            self
        } else if other.at > self.at {
            other
        } else {
            Mismatch { at: self.at, expected: self.expected + other.expected }
        }
    }
}

/// Where matching failed: the byte offset that it could not get past, and the
/// rules that were tried there, in the order in which they were tried.
#[derive(Clone, Debug, PartialEq, Eq)]
pub struct Failure {
    pub at: usize,
    pub expected: Vec<Rule>,
}

impl View for Failure {
    type V = Mismatch;

    open spec fn view(&self) -> Mismatch {
        Mismatch { at: self.at as int, expected: self.expected@ }
    }
}

impl Failure {
    /// The failure of `rule` at `at`.
    pub fn of(rule: Rule, at: usize) -> (failure: Failure)
        ensures
            failure@ == Mismatch::of(rule, at as int),
    {
        let mut expected: Vec<Rule> = Vec::new();
        expected.push(rule);
        let failure = Failure { at, expected };
        assert(failure@.expected =~= seq![rule]);
        failure
    }

    /// See [`Mismatch::lift`].
    pub fn lift(self, rule: Rule, start: usize) -> (failure: Failure)
        ensures
            failure@ == self@.lift(rule, start as int),
    {
        if self.at > start {
            self
        } else {
            Failure::of(rule, start)
        }
    }

    /// See [`Mismatch::merge`].
    pub fn merge(self, other: Failure) -> (failure: Failure)
        ensures
            failure@ == self@.merge(other@),
    {
        if self.at > other.at {
            self
        } else if other.at > self.at {
            other
        } else {
            let at: usize = self.at;
            let mut expected: Vec<Rule> = self.expected;
            let mut more: Vec<Rule> = other.expected;
            expected.append(&mut more);
            Failure { at, expected }
        }
    }
}

/// Whether the outcome of an executable matcher is the outcome that the
/// grammar gives.
pub open spec fn agrees(
    outcome: Result<SyntaxNode, Failure>,
    model: Result<SyntaxTree, Mismatch>,
) -> bool {
    match outcome {
        Ok(node) => model == Ok::<SyntaxTree, Mismatch>(node@),
        Err(failure) => model == Err::<SyntaxTree, Mismatch>(failure@),
    }
}

/// A syntax error: the source text does not match the grammar. It names the
/// position that matching could not get past, as a byte offset and as a line
/// and a column, all three counted from zero, and the rules that were tried
/// there.
#[derive(Clone, Debug, PartialEq, Eq)]
pub struct SyntaxError {
    pub offset: usize,
    pub line: usize,
    pub column: usize,
    pub expected: Vec<Rule>,
}

impl SyntaxError {
    /// Whether this error reports the failure `mismatch` of matching `s`.
    pub open spec fn reports(self, s: Seq<u8>, mismatch: Mismatch) -> bool {
        &&& self.offset == mismatch.at
        &&& self.line == line_index(s, mismatch.at)
        &&& self.column == column_index(s, mismatch.at)
        &&& self.expected@ == mismatch.expected
    }

    /// The error that reports `failure`, which arose in matching `src`.
    pub fn locate(src: &[u8], failure: Failure) -> (error: SyntaxError)
        requires
            failure.at <= src.len(),
        ensures
            error.reports(src@, failure@),
    {
        let place: (usize, usize) = locate(src, failure.at);
        SyntaxError {
            offset: failure.at,
            line: place.0,
            column: place.1,
            expected: failure.expected,
        }
    }
}

} // verus!
