use vstd::prelude::*;
use crate::ast::{Ast, Node, views, lemma_program_view, lemma_call_view, lemma_call_out_view};
use crate::lexer::Tok;
use crate::parser::{parse_grammar, rd_node, rd_params, rd_program};

verus! {

/// The variant of a node.
#[derive(PartialEq, Eq, Structural, Clone, Copy, Debug)]
pub enum NodeKind {
    Program,
    CallExpression,
    NumberLiteral,
    StringLiteral,
    ExpressionStatement,
    CallExpressionOut,
    Identifier,
}

pub open spec fn kind_of(a: Ast) -> NodeKind {
    match a {
        Ast::Program { .. } => NodeKind::Program,
        Ast::CallExpression { .. } => NodeKind::CallExpression,
        Ast::NumberLiteral { .. } => NodeKind::NumberLiteral,
        Ast::StringLiteral { .. } => NodeKind::StringLiteral,
        Ast::ExpressionStatement { .. } => NodeKind::ExpressionStatement,
        Ast::CallExpressionOut { .. } => NodeKind::CallExpressionOut,
        Ast::Identifier { .. } => NodeKind::Identifier,
    }
}

pub fn kind(n: &Node) -> (k: NodeKind)
    ensures
        k == kind_of(n@),
{
    match n {
        Node::Program { .. } => NodeKind::Program,
        Node::CallExpression { .. } => NodeKind::CallExpression,
        Node::NumberLiteral { .. } => NodeKind::NumberLiteral,
        Node::StringLiteral { .. } => NodeKind::StringLiteral,
        Node::ExpressionStatement { .. } => NodeKind::ExpressionStatement,
        Node::CallExpressionOut { .. } => NodeKind::CallExpressionOut,
        Node::Identifier { .. } => NodeKind::Identifier,
    }
}

#[derive(PartialEq, Eq, Structural, Clone, Copy, Debug)]
pub enum Phase {
    Enter,
    Exit,
}

/// The record of one handler call: enter or exit, the kind of the node it
/// ran on, and the kind of that node's parent (`None` at the root).
#[derive(PartialEq, Eq, Structural, Clone, Copy, Debug)]
pub struct HookCall {
    pub phase: Phase,
    pub kind: NodeKind,
    pub parent: Option<NodeKind>,
}

/// Handlers that a traversal calls on a node and its parent (`None` at the
/// root). Which node kinds they are called for is set by a `VisitorTable`.
pub trait Visitor {
    fn enter(&mut self, node: &Node, parent: Option<&Node>);

    fn exit(&mut self, node: &Node, parent: Option<&Node>);
}

/// A read-only pass: the names of the source-language calls, in the order
/// in which the walk enters them.
pub struct CallNames {
    pub names: Vec<String>,
}

impl Visitor for CallNames {
    fn enter(&mut self, node: &Node, parent: Option<&Node>) {
        if let Node::CallExpression { name, .. } = node {
            self.names.push(name.clone());
        }
    }

    fn exit(&mut self, node: &Node, parent: Option<&Node>) {
    }
}

/// The dispatch table of a traversal: the node kinds whose enter handler
/// is called, and those whose exit handler is called.
pub struct VisitorTable {
    pub enter: Vec<NodeKind>,
    pub exit: Vec<NodeKind>,
}

/// What a walk did: the handler calls it made, in order, and the kinds of
/// the nodes it visited, in pre-order.
#[derive(Debug)]
pub struct Traversal {
    pub calls: Vec<HookCall>,
    pub order: Vec<NodeKind>,
}

pub open spec fn hook(hooks: Seq<NodeKind>, phase: Phase, k: NodeKind, parent: Option<NodeKind>) -> Seq<HookCall> {
    if hooks.contains(k) {
        seq![HookCall { phase, kind: k, parent }]
    } else {
        seq![]
    }
}

/// The handler calls made on `a` and below it, `a`'s parent being of kind `parent`.
pub open spec fn walk(a: Ast, parent: Option<NodeKind>, enter: Seq<NodeKind>, exit: Seq<NodeKind>) -> Seq<HookCall>
    decreases a,
{
    let k = kind_of(a);
    let inner = match a {
        Ast::Program { body } => walk_list(body, k, enter, exit),
        Ast::CallExpression { params, .. } => walk_list(params, k, enter, exit),
        Ast::ExpressionStatement { expression } => walk(*expression, Some(k), enter, exit),
        Ast::CallExpressionOut { callee, arguments } => walk(*callee, Some(k), enter, exit) + walk_list(
            arguments,
            k,
            enter,
            exit,
        ),
        _ => seq![],
    };
    hook(enter, Phase::Enter, k, parent) + inner + hook(exit, Phase::Exit, k, parent)
}

/// The handler calls made on the trees of `s`, in order, all children of a `parent`.
pub open spec fn walk_list(s: Seq<Ast>, parent: NodeKind, enter: Seq<NodeKind>, exit: Seq<NodeKind>) -> Seq<HookCall>
    decreases s,
{
    if s.len() == 0 {
        seq![]
    } else {
        walk_list(s.drop_last(), parent, enter, exit) + walk(s.last(), Some(parent), enter, exit)
    }
}

/// The kinds of the nodes of `a`, in pre-order.
pub open spec fn preorder(a: Ast) -> Seq<NodeKind>
    decreases a,
{
    let inner = match a {
        Ast::Program { body } => preorder_list(body),
        Ast::CallExpression { params, .. } => preorder_list(params),
        Ast::ExpressionStatement { expression } => preorder(*expression),
        Ast::CallExpressionOut { callee, arguments } => preorder(*callee) + preorder_list(arguments),
        _ => seq![],
    };
    seq![kind_of(a)] + inner
}

pub open spec fn preorder_list(s: Seq<Ast>) -> Seq<NodeKind>
    decreases s,
{
    if s.len() == 0 {
        seq![]
    } else {
        preorder_list(s.drop_last()) + preorder(s.last())
    }
}

/// With an empty visitor table the walk calls no handler at all: it only
/// reads the tree, and visits its nodes in `preorder`.
pub proof fn lemma_empty_table_runs_no_hook(a: Ast, parent: Option<NodeKind>)
    ensures
        walk(a, parent, seq![], seq![]) == Seq::<HookCall>::empty(),
    decreases a,
{
    let k = kind_of(a);
    match a {
        Ast::Program { body } => lemma_empty_list(body, k),
        Ast::CallExpression { params, .. } => lemma_empty_list(params, k),
        Ast::ExpressionStatement { expression } => lemma_empty_table_runs_no_hook(*expression, Some(k)),
        Ast::CallExpressionOut { callee, arguments } => {
            lemma_empty_table_runs_no_hook(*callee, Some(k));
            lemma_empty_list(arguments, k);
        },
        _ => {},
    }
    assert(walk(a, parent, seq![], seq![]) =~= Seq::<HookCall>::empty());
}

proof fn lemma_empty_list(s: Seq<Ast>, parent: NodeKind)
    ensures
        walk_list(s, parent, seq![], seq![]) == Seq::<HookCall>::empty(),
    decreases s,
{
    if s.len() > 0 {
        lemma_empty_list(s.drop_last(), parent);
        lemma_empty_table_runs_no_hook(s.last(), Some(parent));
        assert(walk_list(s, parent, seq![], seq![]) =~= Seq::<HookCall>::empty());
    }
}

/// The number of tokens in `t[i..j]` that each start a node: `(`, a
/// number or a string.
pub open spec fn node_tokens(t: Seq<Tok>, i: int, j: int) -> nat
    decreases j - i,
{
    if i >= j {
        0
    } else {
        (if t[i] is OpenParen || t[i] is Number || t[i] is StringLiteral {
            1nat
        } else {
            0nat
        }) + node_tokens(t, i + 1, j)
    }
}

proof fn lemma_node_tokens_split(t: Seq<Tok>, i: int, j: int, k: int)
    requires
        i <= j <= k,
    ensures
        node_tokens(t, i, k) == node_tokens(t, i, j) + node_tokens(t, j, k),
    decreases j - i,
{
    if i < j {
        lemma_node_tokens_split(t, i + 1, j, k);
    }
}

proof fn lemma_preorder_list_push(s: Seq<Ast>, a: Ast)
    ensures
        preorder_list(s.push(a)).len() == preorder_list(s).len() + preorder(a).len(),
{
    assert(s.push(a).drop_last() =~= s);
}

proof fn lemma_rd_node_size(t: Seq<Tok>, i: int)
    requires
        0 <= i <= t.len(),
    ensures
        rd_node(t, i) is Ok ==> {
            let (n, j) = rd_node(t, i)->Ok_0;
            &&& i < j <= t.len()
            &&& preorder(n).len() == node_tokens(t, i, j)
        },
    decreases t.len() - i, 0nat,
{
    if i < t.len() {
        match t[i] {
            Tok::OpenParen => {
                if i + 1 < t.len() && t[i + 1] is Name {
                    lemma_rd_params_size(t, i + 2, t[i + 1]->Name_0, seq![]);
                    if let Ok((n, j)) = rd_node(t, i) {
                        assert(node_tokens(t, i + 1, j) == node_tokens(t, i + 2, j));
                    }
                }
            },
            Tok::Number(v) => {
                assert(node_tokens(t, i + 1, i + 1) == 0);
            },
            Tok::StringLiteral(v) => {
                assert(node_tokens(t, i + 1, i + 1) == 0);
            },
            _ => {},
        }
    }
}

proof fn lemma_rd_params_size(t: Seq<Tok>, i: int, name: Seq<char>, acc: Seq<Ast>)
    requires
        0 <= i <= t.len(),
    ensures
        rd_params(t, i, name, acc) is Ok ==> {
            let (n, j) = rd_params(t, i, name, acc)->Ok_0;
            &&& i < j <= t.len()
            &&& preorder(n).len() == 1 + preorder_list(acc).len() + node_tokens(t, i, j)
        },
    decreases t.len() - i, 1nat,
{
    if 0 <= i < t.len() && t[i] is CloseParen {
        assert(node_tokens(t, i + 1, i + 1) == 0);
    } else {
        lemma_rd_node_size(t, i);
        if let Ok((m, j1)) = rd_node(t, i) {
            lemma_rd_params_size(t, j1, name, acc.push(m));
            lemma_preorder_list_push(acc, m);
            if let Ok((n, j)) = rd_params(t, j1, name, acc.push(m)) {
                lemma_node_tokens_split(t, i, j1, j);
            }
        }
    }
}

proof fn lemma_rd_program_size(t: Seq<Tok>, i: int, body: Seq<Ast>)
    requires
        0 <= i <= t.len(),
    ensures
        rd_program(t, i, body) is Ok ==> preorder(rd_program(t, i, body)->Ok_0).len() == 1
            + preorder_list(body).len() + node_tokens(t, i, t.len() as int),
    decreases t.len() - i,
{
    if i < t.len() {
        lemma_rd_node_size(t, i);
        if let Ok((m, j)) = rd_node(t, i) {
            lemma_rd_program_size(t, j, body.push(m));
            lemma_preorder_list_push(body, m);
            lemma_node_tokens_split(t, i, j, t.len() as int);
        }
    }
}

/// A walk over a parsed program visits one node for the program, one for
/// each `(` and one for each number or string token: every node once.
pub proof fn lemma_parsed_program_visits(t: Seq<Tok>)
    requires
        parse_grammar(t) is Ok,
    ensures
        preorder(parse_grammar(t)->Ok_0).len() == 1 + node_tokens(t, 0, t.len() as int),
{
    lemma_rd_program_size(t, 0, seq![]);
}

fn has_hook(hooks: &Vec<NodeKind>, k: NodeKind) -> (r: bool)
    ensures
        r == hooks@.contains(k),
{
    let mut i: usize = 0;
    while i < hooks.len()
        invariant
            i <= hooks@.len(),
            forall|j: int| 0 <= j < i ==> hooks@[j] != k,
        decreases hooks@.len() - i,
    {
        if hooks[i] == k {
            return true;
        }
        i += 1;
    }
    false
}

pub open spec fn parent_kind(parent: Option<&Node>) -> Option<NodeKind> {
    match parent {
        Some(p) => Some(kind_of(p@)),
        None => None,
    }
}

/// Calls `visitor`'s handler for `phase` on `n` if `hooks` lists its kind,
/// and records the call.
fn run_hook<V: Visitor>(
    hooks: &Vec<NodeKind>,
    phase: Phase,
    n: &Node,
    parent: Option<&Node>,
    visitor: &mut V,
    calls: &mut Vec<HookCall>,
)
    ensures
        final(calls)@ == old(calls)@ + hook(hooks@, phase, kind_of(n@), parent_kind(parent)),
{
    let k = kind(n);
    if has_hook(hooks, k) {
        let pk = match parent {
            Some(p) => Some(kind(p)),
            None => None,
        };
        match phase {
            Phase::Enter => visitor.enter(n, parent),
            Phase::Exit => visitor.exit(n, parent),
        }
        calls.push(HookCall { phase, kind: k, parent: pk });
    }
    assert(final(calls)@ =~= old(calls)@ + hook(hooks@, phase, kind_of(n@), parent_kind(parent)));
}

/// Walks the children in `v` of the node `parent`, whose model is `owner`.
fn visit_list<V: Visitor>(
    v: &Vec<Node>,
    parent: &Node,
    table: &VisitorTable,
    visitor: &mut V,
    calls: &mut Vec<HookCall>,
    order: &mut Vec<NodeKind>,
    Ghost(owner): Ghost<Ast>,
)
    requires
        forall|k: int| 0 <= k < v@.len() ==> decreases_to!(owner => (#[trigger] v@[k])@),
    ensures
        final(calls)@ == old(calls)@ + walk_list(views(v@), kind_of(parent@), table.enter@, table.exit@),
        final(order)@ == old(order)@ + preorder_list(views(v@)),
    decreases owner, 0nat,
{
    let ghost pk = kind_of(parent@);
    let ghost c0 = calls@;
    let ghost o0 = order@;
    let mut i: usize = 0;
    assert(views(v@.subrange(0, 0)) =~= seq![]);
    assert(calls@ =~= c0 + seq![]);
    assert(order@ =~= o0 + seq![]);
    while i < v.len()
        invariant
            i <= v@.len(),
            pk == kind_of(parent@),
            forall|k: int| 0 <= k < v@.len() ==> decreases_to!(owner => (#[trigger] v@[k])@),
            calls@ == c0 + walk_list(views(v@.subrange(0, i as int)), pk, table.enter@, table.exit@),
            order@ == o0 + preorder_list(views(v@.subrange(0, i as int))),
        decreases v@.len() - i,
    {
        let ghost before = views(v@.subrange(0, i as int));
        visit(&v[i], Some(parent), table, visitor, calls, order, Ghost(v@[i as int]@));
        proof {
            let now = views(v@.subrange(0, i + 1));
            assert(now.drop_last() =~= before);
            assert(now.last() == v@[i as int]@);
            assert(calls@ =~= c0 + walk_list(now, pk, table.enter@, table.exit@));
            assert(order@ =~= o0 + preorder_list(now));
        }
        i += 1;
    }
    assert(v@.subrange(0, v@.len() as int) =~= v@);
}

/// Walks `n`, whose model is `me`, below `parent`.
fn visit<V: Visitor>(
    n: &Node,
    parent: Option<&Node>,
    table: &VisitorTable,
    visitor: &mut V,
    calls: &mut Vec<HookCall>,
    order: &mut Vec<NodeKind>,
    Ghost(me): Ghost<Ast>,
)
    requires
        me == n@,
    ensures
        final(calls)@ == old(calls)@ + walk(n@, parent_kind(parent), table.enter@, table.exit@),
        final(order)@ == old(order)@ + preorder(n@),
    decreases me, 1nat,
{
    let ghost c0 = calls@;
    let ghost o0 = order@;
    let k = kind(n);
    run_hook(&table.enter, Phase::Enter, n, parent, visitor, calls);
    order.push(k);
    match n {
        Node::Program { body } => {
            proof {
                lemma_program_view(*body);
                assert forall|j: int| 0 <= j < body@.len() implies decreases_to!(me => #[trigger] body@[j]@) by {
                    assert(views(body@)[j] == body@[j]@);
                    assert(decreases_to!(me => me->Program_body[j]));
                }
            }
            visit_list(body, n, table, visitor, calls, order, Ghost(me));
        },
        Node::CallExpression { name, params } => {
            proof {
                lemma_call_view(*name, *params);
                assert forall|j: int| 0 <= j < params@.len() implies decreases_to!(me => #[trigger] params@[j]@) by {
                    assert(views(params@)[j] == params@[j]@);
                    assert(decreases_to!(me => me->CallExpression_params[j]));
                }
            }
            visit_list(params, n, table, visitor, calls, order, Ghost(me));
        },
        Node::ExpressionStatement { expression } => {
            assert(me == (Ast::ExpressionStatement { expression: Box::new((**expression)@) }));
            assert(decreases_to!(me => *me->expression));
            visit(expression, Some(n), table, visitor, calls, order, Ghost((**expression)@));
        },
        Node::CallExpressionOut { callee, arguments } => {
            proof {
                lemma_call_out_view(*callee, *arguments);
                assert forall|j: int| 0 <= j < arguments@.len() implies decreases_to!(me => #[trigger] arguments@[j]@) by {
                    assert(views(arguments@)[j] == arguments@[j]@);
                    assert(decreases_to!(me => me->CallExpressionOut_arguments[j]));
                }
            }
            assert(decreases_to!(me => *me->CallExpressionOut_callee));
            visit(callee, Some(n), table, visitor, calls, order, Ghost((**callee)@));
            visit_list(arguments, n, table, visitor, calls, order, Ghost(me));
        },
        _ => {},
    }
    run_hook(&table.exit, Phase::Exit, n, parent, visitor, calls);
    assert(calls@ =~= c0 + walk(n@, parent_kind(parent), table.enter@, table.exit@));
    assert(order@ =~= o0 + preorder(n@));
}

/// Walks a tree depth first. At each node it calls `visitor`'s enter handler
/// with the node and its parent, if the table lists the node's kind for
/// enter; then walks the children in order (the program's body, a call's
/// parameters, a statement's expression, an output call's callee and
/// arguments); then calls the exit handler likewise. The result records
/// every handler call and every visited node. The tree is only read.
pub fn traverse<V: Visitor>(root: &Node, table: &VisitorTable, visitor: &mut V) -> (r: Traversal)
    ensures
        r.calls@ == walk(root@, None, table.enter@, table.exit@),
        r.order@ == preorder(root@),
{
    let mut calls: Vec<HookCall> = Vec::new();
    let mut order: Vec<NodeKind> = Vec::new();
    visit(root, None, table, visitor, &mut calls, &mut order, Ghost(root@));
    assert(calls@ =~= seq![] + walk(root@, None, table.enter@, table.exit@));
    assert(order@ =~= seq![] + preorder(root@));
    Traversal { calls, order }
}

} // verus!
