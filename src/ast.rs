use vstd::prelude::*;

verus! {

broadcast use vstd::std_specs::vec::group_vec_axioms;

/// Mathematical model of a syntax tree, before or after transformation.
pub enum Ast {
    Program { body: Seq<Ast> },
    CallExpression { name: Seq<char>, params: Seq<Ast> },
    NumberLiteral { value: Seq<char> },
    StringLiteral { value: Seq<char> },
    ExpressionStatement { expression: Box<Ast> },
    CallExpressionOut { callee: Box<Ast>, arguments: Seq<Ast> },
    Identifier { name: Seq<char> },
}

/// A syntax tree node. The first four variants come out of the parser, the
/// last three (with literals) out of the transformer.
#[derive(Debug)]
pub enum Node {
    Program { body: Vec<Node> },
    CallExpression { name: String, params: Vec<Node> },
    NumberLiteral { value: String },
    StringLiteral { value: String },
    ExpressionStatement { expression: Box<Node> },
    CallExpressionOut { callee: Box<Node>, arguments: Vec<Node> },
    Identifier { name: String },
}

/// The model of a node. (The index test inside each `Seq::new` is always
/// true there; it lets Verus see that the recursion descends.)
pub open spec fn ast_of(n: Node) -> Ast
    decreases n,
{
    match n {
        Node::Program { body } => Ast::Program { body: Seq::new(body@.len(), |i: int| if 0 <= i < body.len() { ast_of(body[i]) } else { Ast::Identifier { name: seq![] } }) },
        Node::CallExpression { name, params } => Ast::CallExpression {
            name: name@,
            params: Seq::new(params@.len(), |i: int| if 0 <= i < params.len() { ast_of(params[i]) } else { Ast::Identifier { name: seq![] } }),
        },
        Node::NumberLiteral { value } => Ast::NumberLiteral { value: value@ },
        Node::StringLiteral { value } => Ast::StringLiteral { value: value@ },
        Node::ExpressionStatement { expression } => Ast::ExpressionStatement {
            expression: Box::new(ast_of(*expression)),
        },
        Node::CallExpressionOut { callee, arguments } => Ast::CallExpressionOut {
            callee: Box::new(ast_of(*callee)),
            arguments: Seq::new(arguments@.len(), |i: int| if 0 <= i < arguments.len() { ast_of(arguments[i]) } else { Ast::Identifier { name: seq![] } }),
        },
        Node::Identifier { name } => Ast::Identifier { name: name@ },
    }
}

impl View for Node {
    type V = Ast;

    open spec fn view(&self) -> Ast {
        ast_of(*self)
    }
}

/// The models of a sequence of nodes.
pub open spec fn views(v: Seq<Node>) -> Seq<Ast> {
    v.map_values(|n: Node| n@)
}

pub proof fn lemma_program_view(body: Vec<Node>)
    ensures
        (Node::Program { body })@ == (Ast::Program { body: views(body@) }),
{
    assert(views(body@) =~= (Node::Program { body })@->Program_body);
}

pub proof fn lemma_call_view(name: String, params: Vec<Node>)
    ensures
        (Node::CallExpression { name, params })@ == (Ast::CallExpression {
            name: name@,
            params: views(params@),
        }),
{
    assert(views(params@) =~= (Node::CallExpression { name, params })@->CallExpression_params);
}

pub proof fn lemma_call_out_view(callee: Box<Node>, arguments: Vec<Node>)
    ensures
        (Node::CallExpressionOut { callee, arguments })@ == (Ast::CallExpressionOut {
            callee: Box::new((*callee)@),
            arguments: views(arguments@),
        }),
{
    assert(views(arguments@) =~= (Node::CallExpressionOut { callee, arguments })@->arguments);
}

} // verus!
