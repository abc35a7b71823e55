//! The abstract syntax tree of a schema source.

use vstd::prelude::*;
use vstd::string::*;

verus! {

/// A node of the abstract syntax tree. A node owns its children, and is not
/// changed once it is built.
#[derive(Debug, PartialEq, Eq)]
pub enum AstNode {
    /// Stands for a construct that the builder does not know.
    InvalidNode,
    /// A schema: its name, an `Identifier`, and its body, a `SchemaBody`.
    SchemaDef { name: Box<AstNode>, body: Box<AstNode> },
    /// The attributes and methods of a schema, in source order.
    SchemaBody { definitions: Vec<AstNode> },
    /// A bare name.
    Identifier(String),
    /// A type: the `Identifier` that names it.
    Type(Box<AstNode>),
    /// An attribute: its name, an `Identifier`, and its type, a `Type`.
    SchemaAttribute { name: Box<AstNode>, ty: Box<AstNode> },
    /// A method: its name, an `Identifier`.
    SchemaMethod { name: Box<AstNode> },
}

/// The mathematical model of an [`AstNode`].
pub enum Ast {
    InvalidNode,
    SchemaDef { name: Box<Ast>, body: Box<Ast> },
    SchemaBody { definitions: Seq<Ast> },
    Identifier(Seq<char>),
    Type(Box<Ast>),
    SchemaAttribute { name: Box<Ast>, ty: Box<Ast> },
    SchemaMethod { name: Box<Ast> },
}

/// The model of a node: the same tree, with sequences for vectors and
/// strings.
pub open spec fn ast_of(node: AstNode) -> Ast
    decreases node,
{
    match node {
        AstNode::InvalidNode => Ast::InvalidNode,
        AstNode::SchemaDef { name, body } => Ast::SchemaDef {
            name: Box::new(ast_of(*name)),
            body: Box::new(ast_of(*body)),
        },
        AstNode::SchemaBody { definitions } => Ast::SchemaBody {
            definitions: Seq::new(
                definitions.len() as nat,
                |i: int|
                    if 0 <= i < definitions.len() {
                        ast_of(definitions[i])
                    } else {
                        arbitrary()
                    },
            ),
        },
        AstNode::Identifier(name) => Ast::Identifier(name@),
        AstNode::Type(name) => Ast::Type(Box::new(ast_of(*name))),
        AstNode::SchemaAttribute { name, ty } => Ast::SchemaAttribute {
            name: Box::new(ast_of(*name)),
            ty: Box::new(ast_of(*ty)),
        },
        AstNode::SchemaMethod { name } => Ast::SchemaMethod { name: Box::new(ast_of(*name)) },
    }
}

impl View for AstNode {
    type V = Ast;

    open spec fn view(&self) -> Ast {
        ast_of(*self)
    }
}

/// The models of a sequence of nodes, in order.
pub open spec fn asts(nodes: Seq<AstNode>) -> Seq<Ast> {
    nodes.map_values(|node: AstNode| node@)
}

/// The model of a body holds the models of its definitions.
pub proof fn lemma_view_definitions(definitions: Vec<AstNode>)
    ensures
        (AstNode::SchemaBody { definitions })@ == (Ast::SchemaBody {
            definitions: asts(definitions@),
        }),
{
    let node = AstNode::SchemaBody { definitions };
    assert(node@->definitions =~= asts(definitions@));
}

/// The models of a sequence grow with it.
pub proof fn lemma_asts_push(nodes: Seq<AstNode>, node: AstNode)
    ensures
        asts(nodes.push(node)) == asts(nodes).push(node@),
{
    assert(asts(nodes.push(node)) =~= asts(nodes).push(node@));
}

impl Ast {
    /// The name that an `Identifier` holds. Of any other node it is the text
    /// `invalid parse`.
    pub open spec fn identifier_name(self) -> Seq<char> {
        match self {
            Ast::Identifier(name) => name,
            _ => "invalid parse"@,
        }
    }

    /// An `Identifier`.
    pub open spec fn is_identifier(self) -> bool {
        self is Identifier
    }

    /// A `Type` that wraps an `Identifier`.
    pub open spec fn is_type(self) -> bool {
        self matches Ast::Type(name) && name.is_identifier()
    }

    /// A `SchemaAttribute` whose name is an `Identifier` and whose type is a
    /// `Type`.
    pub open spec fn is_attribute(self) -> bool {
        self matches Ast::SchemaAttribute { name, ty } && name.is_identifier() && ty.is_type()
    }

    /// A `SchemaMethod` whose name is an `Identifier`.
    pub open spec fn is_method(self) -> bool {
        self matches Ast::SchemaMethod { name } && name.is_identifier()
    }

    /// A `SchemaBody` that holds attributes and methods only.
    pub open spec fn is_body(self) -> bool {
        self matches Ast::SchemaBody { definitions } && forall|i: int|
            0 <= i < definitions.len() ==> (#[trigger] definitions[i]).is_attribute()
                || definitions[i].is_method()
    }

    /// A `SchemaDef` whose name is an `Identifier` and whose body is a
    /// `SchemaBody` of attributes and methods.
    pub open spec fn is_schema(self) -> bool {
        self matches Ast::SchemaDef { name, body } && name.is_identifier() && body.is_body()
    }
}

/// The name that an `Identifier` holds. Of any other node it is the text
/// `invalid parse`.
pub fn identifier_name(identifier: AstNode) -> (name: String)
    ensures
        name@ == identifier@.identifier_name(),
{
    match identifier {
        AstNode::Identifier(name) => name,
        _ => "invalid parse".to_owned(),
    }
}

} // verus!
