use vstd::prelude::*;
use crate::ast::{Ast, Node, views, lemma_program_view, lemma_call_view, lemma_call_out_view};
use crate::codegen::{is_target, is_target_expr, is_target_item};

verus! {

broadcast use vstd::std_specs::vec::group_vec_axioms;

/// A tree of the source language: calls and literals only.
pub open spec fn is_source(a: Ast) -> bool
    decreases a,
{
    match a {
        Ast::CallExpression { name, params } => forall|i: int|
            0 <= i < params.len() ==> is_source(#[trigger] params[i]),
        Ast::NumberLiteral { .. } => true,
        Ast::StringLiteral { .. } => true,
        _ => false,
    }
}

/// A parsed program: a `Program` root over source-language trees.
pub open spec fn is_source_program(a: Ast) -> bool {
    match a {
        Ast::Program { body } => forall|i: int| 0 <= i < body.len() ==> is_source(#[trigger] body[i]),
        _ => false,
    }
}

/// The target form of a node in argument position: a call becomes a
/// callee identifier applied to its transformed arguments, in order.
pub open spec fn expr_of(a: Ast) -> Ast
    decreases a,
{
    match a {
        Ast::CallExpression { name, params } => Ast::CallExpressionOut {
            callee: Box::new(Ast::Identifier { name }),
            arguments: Seq::new(
                params.len(),
                |i: int|
                    if 0 <= i < params.len() {
                        expr_of(params[i])
                    } else {
                        a
                    },
            ),
        },
        _ => a,
    }
}

/// The target form of a top-level node: a call is also wrapped in a statement.
pub open spec fn stmt_of(a: Ast) -> Ast {
    match a {
        Ast::CallExpression { .. } => Ast::ExpressionStatement { expression: Box::new(expr_of(a)) },
        _ => a,
    }
}

/// The target program of a parsed program.
pub open spec fn transform_ast(p: Ast) -> Ast {
    match p {
        Ast::Program { body } => Ast::Program { body: body.map_values(|a: Ast| stmt_of(a)) },
        _ => p,
    }
}

/// Reads a target tree back in the source language: a statement is its
/// expression, an output call is a call of its callee's name.
pub open spec fn source_of(a: Ast) -> Ast
    decreases a,
{
    match a {
        Ast::ExpressionStatement { expression } => source_of(*expression),
        Ast::CallExpressionOut { callee, arguments } => match *callee {
            Ast::Identifier { name } => Ast::CallExpression {
                name,
                params: Seq::new(
                    arguments.len(),
                    |i: int|
                        if 0 <= i < arguments.len() {
                            source_of(arguments[i])
                        } else {
                            a
                        },
                ),
            },
            _ => a,
        },
        _ => a,
    }
}

/// The transformer keeps each call's name, its arguments in their order
/// and the nesting of calls: reading the target tree back gives the source.
pub proof fn lemma_expr_round_trip(a: Ast)
    requires
        is_source(a),
    ensures
        source_of(expr_of(a)) == a,
    decreases a,
{
    if let Ast::CallExpression { name, params } = a {
        let e = expr_of(a);
        let args = e->CallExpressionOut_arguments;
        assert forall|i: int| 0 <= i < params.len() implies source_of(#[trigger] args[i]) == params[i] by {
            assert(decreases_to!(a => a->CallExpression_params[i]));
            assert(is_source(params[i]));
            lemma_expr_round_trip(params[i]);
        }
        assert(source_of(e)->CallExpression_params =~= params);
    }
}

/// The same of a whole program: statement order, argument order and call
/// nesting all carry over.
pub proof fn lemma_transform_round_trip(p: Ast)
    requires
        is_source_program(p),
    ensures
        transform_ast(p)->Program_body.map_values(|s: Ast| source_of(s)) == p->Program_body,
{
    let body = p->Program_body;
    let out = transform_ast(p)->Program_body;
    assert forall|i: int| 0 <= i < body.len() implies source_of(#[trigger] out[i]) == body[i] by {
        assert(is_source(body[i]));
        lemma_expr_round_trip(body[i]);
    }
    assert(out.map_values(|s: Ast| source_of(s)) =~= body);
}

/// The target form of a source expression is a target expression.
pub proof fn lemma_expr_target(a: Ast)
    requires
        is_source(a),
    ensures
        is_target_expr(expr_of(a)),
    decreases a,
{
    if let Ast::CallExpression { name, params } = a {
        let e = expr_of(a);
        let args = e->CallExpressionOut_arguments;
        assert forall|i: int| 0 <= i < args.len() implies is_target_expr(#[trigger] args[i]) by {
            assert(decreases_to!(a => a->CallExpression_params[i]));
            assert(is_source(params[i]));
            lemma_expr_target(params[i]);
        }
    }
}

/// The transformer's output is a program of the target language.
pub proof fn lemma_transform_target(p: Ast)
    requires
        is_source_program(p),
    ensures
        is_target(transform_ast(p)),
{
    let body = p->Program_body;
    let out = transform_ast(p)->Program_body;
    assert forall|i: int| 0 <= i < out.len() implies is_target_item(#[trigger] out[i]) by {
        assert(is_source(body[i]));
        lemma_expr_target(body[i]);
    }
}

fn clone_text(s: &String) -> (r: String)
    ensures
        r@ == s@,
{
    s.clone()
}

fn transform_expr(n: &Node) -> (r: Node)
    requires
        is_source(n@),
    ensures
        r@ == expr_of(n@),
    decreases n@,
{
    match n {
        Node::CallExpression { name, params } => {
            let mut arguments: Vec<Node> = Vec::new();
            let mut i: usize = 0;
            proof {
                lemma_call_view(*name, *params);
                assert(is_source(Ast::CallExpression { name: name@, params: views(params@) }));
                assert forall|k: int| 0 <= k < params@.len() implies is_source(#[trigger] params@[k]@) by {
                    assert(views(params@)[k] == params@[k]@);
                }
            }
            while i < params.len()
                invariant
                    i <= params.len(),
                    n@ == (Ast::CallExpression { name: name@, params: views(params@) }),
                    forall|k: int| 0 <= k < params@.len() ==> is_source(#[trigger] params@[k]@),
                    arguments@.len() == i,
                    forall|k: int| 0 <= k < i ==> (#[trigger] arguments@[k])@ == expr_of(params@[k]@),
                decreases params.len() - i,
            {
                assert(views(params@)[i as int] == params@[i as int]@);
                assert(decreases_to!(n@ => n@->CallExpression_params));
                assert(decreases_to!(n@ => params@[i as int]@));
                let a = transform_expr(&params[i]);
                arguments.push(a);
                i += 1;
            }
            let callee = Box::new(Node::Identifier { name: clone_text(name) });
            proof {
                lemma_call_out_view(callee, arguments);
            }
            assert(views(arguments@) =~= expr_of(n@)->arguments);
            Node::CallExpressionOut { callee, arguments }
        },
        Node::NumberLiteral { value } => Node::NumberLiteral { value: clone_text(value) },
        Node::StringLiteral { value } => Node::StringLiteral { value: clone_text(value) },
        _ => {
            assert(false);
            Node::Program { body: Vec::new() }
        },
    }
}

fn transform_stmt(n: &Node) -> (r: Node)
    requires
        is_source(n@),
    ensures
        r@ == stmt_of(n@),
{
    let e = transform_expr(n);
    match n {
        Node::CallExpression { .. } => Node::ExpressionStatement { expression: Box::new(e) },
        _ => e,
    }
}

/// Builds the target program of a parsed one: each top-level call becomes
/// an expression statement, each nested call a call expression with an
/// identifier callee, and literals are copied. The source tree is only read.
pub fn transform(root: &Node) -> (r: Node)
    requires
        is_source_program(root@),
    ensures
        r@ == transform_ast(root@),
        is_target(r@),
{
    proof {
        lemma_transform_target(root@);
    }
    match root {
        Node::Program { body } => {
            let mut out: Vec<Node> = Vec::new();
            let mut i: usize = 0;
            proof {
                lemma_program_view(*body);
                assert forall|k: int| 0 <= k < body@.len() implies is_source(#[trigger] body@[k]@) by {
                    assert(views(body@)[k] == body@[k]@);
                }
            }
            while i < body.len()
                invariant
                    i <= body.len(),
                    root@ == (Ast::Program { body: views(body@) }),
                    forall|k: int| 0 <= k < body@.len() ==> is_source(#[trigger] body@[k]@),
                    out@.len() == i,
                    forall|k: int| 0 <= k < i ==> (#[trigger] out@[k])@ == stmt_of(body@[k]@),
                decreases body.len() - i,
            {
                let s = transform_stmt(&body[i]);
                out.push(s);
                i += 1;
            }
            proof {
                lemma_program_view(out);
            }
            assert(views(out@) =~= transform_ast(root@)->Program_body);
            Node::Program { body: out }
        },
        _ => {
            assert(false);
            Node::Program { body: Vec::new() }
        },
    }
}

} // verus!
