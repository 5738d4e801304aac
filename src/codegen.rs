use vstd::prelude::*;
use vstd::string::{StrSliceExecFns, StringExecFns};
use crate::ast::{Ast, Node, views, lemma_program_view, lemma_call_out_view};

verus! {

broadcast use vstd::std_specs::vec::group_vec_axioms;

/// An expression of the target language: a call of an identifier on
/// target expressions, a literal or an identifier.
pub open spec fn is_target_expr(a: Ast) -> bool
    decreases a,
{
    match a {
        Ast::CallExpressionOut { callee, arguments } => (*callee) is Identifier && forall|i: int|
            0 <= i < arguments.len() ==> is_target_expr(#[trigger] arguments[i]),
        Ast::NumberLiteral { .. } => true,
        Ast::StringLiteral { .. } => true,
        Ast::Identifier { .. } => true,
        _ => false,
    }
}

/// A top-level item of a target program: a statement or an expression.
pub open spec fn is_target_item(a: Ast) -> bool {
    match a {
        Ast::ExpressionStatement { expression } => is_target_expr(*expression),
        _ => is_target_expr(a),
    }
}

/// A tree of the target language: a program of items, or an item.
pub open spec fn is_target(a: Ast) -> bool {
    match a {
        Ast::Program { body } => forall|i: int| 0 <= i < body.len() ==> is_target_item(#[trigger] body[i]),
        _ => is_target_item(a),
    }
}

/// The arguments of a target call are target expressions.
pub proof fn lemma_target_arguments(a: Ast)
    requires
        is_target_expr(a),
        a is CallExpressionOut,
    ensures
        forall|k: int|
            0 <= k < a->CallExpressionOut_arguments.len() ==> is_target_expr(
                #[trigger] a->CallExpressionOut_arguments[k],
            ),
{
    assert forall|k: int| 0 <= k < a->CallExpressionOut_arguments.len() implies is_target_expr(
        #[trigger] a->CallExpressionOut_arguments[k],
    ) by {
        assert(decreases_to!(a => a->CallExpressionOut_arguments[k]));
    }
}

/// `parts` with `sep` between each two neighbours.
pub open spec fn join(parts: Seq<Seq<char>>, sep: Seq<char>) -> Seq<char>
    decreases parts.len(),
{
    if parts.len() == 0 {
        seq![]
    } else if parts.len() == 1 {
        parts[0]
    } else {
        join(parts.drop_last(), sep) + sep + parts.last()
    }
}

/// The text of a target tree.
pub open spec fn gen(a: Ast) -> Seq<char>
    decreases a,
{
    match a {
        Ast::Program { body } => join(
            gen_list(body),
            seq!['\n'],
        ),
        Ast::ExpressionStatement { expression } => gen(*expression) + seq![';'],
        Ast::CallExpressionOut { callee, arguments } => gen(*callee) + seq!['('] + join(
            gen_list(arguments),
            seq![',', ' '],
        ) + seq![')'],
        Ast::Identifier { name } => name,
        Ast::NumberLiteral { value } => value,
        Ast::StringLiteral { value } => seq!['"'] + value + seq!['"'],
        _ => seq![],
    }
}

/// The texts of the trees of `s`, in order.
pub open spec fn gen_list(s: Seq<Ast>) -> Seq<Seq<char>>
    decreases s,
{
    Seq::new(
        s.len(),
        |i: int|
            if 0 <= i < s.len() {
                gen(s[i])
            } else {
                seq![]
            },
    )
}

/// The texts of the nodes of `v`, in order.
pub open spec fn texts(v: Seq<Node>) -> Seq<Seq<char>> {
    v.map_values(|n: Node| gen(n@))
}

/// Renders each listed child of a node and joins the texts with `sep`.
fn generate_children(
    v: &Vec<Node>,
    sep: &str,
    Ghost(parent): Ghost<Ast>,
) -> (r: String)
    requires
        forall|k: int| 0 <= k < v@.len() ==> is_target(#[trigger] v@[k]@),
        forall|k: int| 0 <= k < v@.len() ==> decreases_to!(parent => (#[trigger] v@[k])@),
    ensures
        r@ == join(texts(v@), sep@),
    decreases parent, 0nat,
{
    let mut s = String::new();
    let mut i: usize = 0;
    while i < v.len()
        invariant
            i <= v@.len(),
            forall|k: int| 0 <= k < v@.len() ==> is_target(#[trigger] v@[k]@),
            forall|k: int| 0 <= k < v@.len() ==> decreases_to!(parent => (#[trigger] v@[k])@),
            s@ == join(texts(v@.subrange(0, i as int)), sep@),
        decreases v@.len() - i,
    {
        let ghost before = texts(v@.subrange(0, i as int));
        if i > 0 {
            s.append(sep);
        }
        let g = render(&v[i], Ghost(v@[i as int]@));
        s.append(g.as_str());
        proof {
            let now = texts(v@.subrange(0, i + 1));
            assert(now.drop_last() =~= before);
            assert(now.last() == g@);
            assert(now.len() == i + 1);
            assert(s@ =~= join(now, sep@));
        }
        i += 1;
    }
    assert(v@.subrange(0, v@.len() as int) =~= v@);
    s
}

/// Renders `n`, whose model is `me`, a ghost copy that measures the recursion.
fn render(n: &Node, Ghost(me): Ghost<Ast>) -> (r: String)
    requires
        me == n@,
        is_target(n@),
    ensures
        r@ == gen(n@),
    decreases me, 1nat,
{
    proof {
        reveal_strlit("\n");
        reveal_strlit(", ");
        reveal_strlit("(");
        reveal_strlit(")");
        reveal_strlit(";");
        reveal_strlit("\"");
    }
    match n {
        Node::Program { body } => {
            proof {
                lemma_program_view(*body);
                assert(me == Ast::Program { body: views(body@) });
                assert forall|k: int| 0 <= k < body@.len() implies decreases_to!(me => #[trigger] body@[k]@)
                    && is_target(body@[k]@) by {
                    assert(views(body@)[k] == body@[k]@);
                    assert(is_target_item(me->Program_body[k]));
                    assert(decreases_to!(me => me->Program_body[k]));
                }
            }
            let r = generate_children(body, "\n", Ghost(me));
            let ghost b = me->Program_body;
            assert(texts(body@) =~= gen_list(b));
            assert("\n"@ == seq!['\n']);
            r
        },
        Node::CallExpressionOut { callee, arguments } => {
            proof {
                lemma_call_out_view(*callee, *arguments);
                assert(me == (Ast::CallExpressionOut {
                    callee: Box::new((**callee)@),
                    arguments: views(arguments@),
                }));
                lemma_target_arguments(me);
                assert forall|k: int| 0 <= k < arguments@.len() implies decreases_to!(me => #[trigger] arguments@[k]@)
                    && is_target(arguments@[k]@) by {
                    assert(views(arguments@)[k] == arguments@[k]@);
                    assert(decreases_to!(me => me->CallExpressionOut_arguments[k]));
                }
            }
            assert(decreases_to!(me => *me->CallExpressionOut_callee));
            let mut r = render(callee, Ghost((**callee)@));
            r.append("(");
            let inner = generate_children(arguments, ", ", Ghost(me));
            r.append(inner.as_str());
            r.append(")");
            let ghost a = me->CallExpressionOut_arguments;
            assert(texts(arguments@) =~= gen_list(a));
            assert(", "@ == seq![',', ' ']);
            assert(gen(me) == gen(*me->callee) + seq!['('] + join(gen_list(a), seq![',', ' ']) + seq![')']);
            r
        },
        Node::ExpressionStatement { expression } => {
            assert(me == (Ast::ExpressionStatement { expression: Box::new((**expression)@) }));
            assert(decreases_to!(me => *me->expression));
            let mut r = render(expression, Ghost((**expression)@));
            r.append(";");
            r
        },
        Node::Identifier { name } => String::from_str(name.as_str()),
        Node::NumberLiteral { value } => String::from_str(value.as_str()),
        Node::StringLiteral { value } => {
            let mut r = String::from_str("\"");
            r.append(value.as_str());
            r.append("\"");
            r
        },
        _ => {
            assert(false);
            String::new()
        },
    }
}

/// Renders a tree in the target syntax: statements end in `;` and are
/// separated by newlines, calls read `callee(arg, arg)`, strings are put
/// back in double quotes, names and numbers are copied. Only trees of the
/// target language are accepted.
pub fn generate(node: &Node) -> (r: String)
    requires
        is_target(node@),
    ensures
        r@ == gen(node@),
{
    render(node, Ghost(node@))
}

} // verus!
