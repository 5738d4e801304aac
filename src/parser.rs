use vstd::prelude::*;
use crate::ast::{Ast, Node, views, lemma_program_view, lemma_call_view};
use crate::lexer::{Token, Tok, toks_of};
use crate::transformer::{is_source, is_source_program};

verus! {

/// Why a token sequence is not a program. Positions count tokens.
#[derive(PartialEq, Eq, Structural, Clone, Copy, Debug)]
pub enum ParseError {
    /// The token after `(` at `pos - 1` is missing or is not a name.
    ExpectedName { pos: usize },
    /// A `)` with no open call, or a name outside the head of a call.
    UnexpectedToken { pos: usize },
    /// The input ends inside a call.
    UnexpectedEnd,
}

/// A call whose `(` and name have been read and whose `)` has not.
pub struct OpenCall {
    pub name: String,
    pub params: Vec<Node>,
}

pub open spec fn open_views(v: Seq<OpenCall>) -> Seq<(Seq<char>, Seq<Ast>)> {
    v.map_values(|c: OpenCall| (c.name@, views(c.params@)))
}

/// `body` after a finished node `n` is placed: it goes to the program
/// only where no call is open.
pub open spec fn attach_body(body: Seq<Ast>, open: Seq<(Seq<char>, Seq<Ast>)>, n: Ast) -> Seq<Ast> {
    if open.len() == 0 {
        body.push(n)
    } else {
        body
    }
}

/// The open calls after a finished node `n` is placed: it becomes the last
/// parameter of the innermost one.
pub open spec fn attach_open(open: Seq<(Seq<char>, Seq<Ast>)>, n: Ast) -> Seq<(Seq<char>, Seq<Ast>)> {
    if open.len() == 0 {
        open
    } else {
        open.update(open.len() - 1, (open.last().0, open.last().1.push(n)))
    }
}

/// Reading the tokens from `i` on, with the program's statements so far in
/// `body` and the calls still open in `open`, innermost last.
pub open spec fn parse_from(
    t: Seq<Tok>,
    i: int,
    body: Seq<Ast>,
    open: Seq<(Seq<char>, Seq<Ast>)>,
) -> Result<Ast, ParseError>
    decreases t.len() - i,
{
    if i < 0 || i >= t.len() {
        if open.len() == 0 {
            Ok(Ast::Program { body })
        } else {
            Err(ParseError::UnexpectedEnd)
        }
    } else {
        match t[i] {
            Tok::Number(v) => {
                let n = Ast::NumberLiteral { value: v };
                parse_from(t, i + 1, attach_body(body, open, n), attach_open(open, n))
            },
            Tok::StringLiteral(v) => {
                let n = Ast::StringLiteral { value: v };
                parse_from(t, i + 1, attach_body(body, open, n), attach_open(open, n))
            },
            Tok::OpenParen => {
                if i + 1 < t.len() && t[i + 1] is Name {
                    parse_from(t, i + 2, body, open.push((t[i + 1]->Name_0, seq![])))
                } else {
                    Err(ParseError::ExpectedName { pos: (i + 1) as usize })
                }
            },
            Tok::CloseParen => {
                if open.len() == 0 {
                    Err(ParseError::UnexpectedToken { pos: i as usize })
                } else {
                    let n = Ast::CallExpression { name: open.last().0, params: open.last().1 };
                    let rest = open.drop_last();
                    parse_from(t, i + 1, attach_body(body, rest, n), attach_open(rest, n))
                }
            },
            Tok::Name(_) => Err(ParseError::UnexpectedToken { pos: i as usize }),
        }
    }
}

pub open spec fn all_source(s: Seq<Ast>) -> bool {
    forall|i: int| 0 <= i < s.len() ==> is_source(#[trigger] s[i])
}

proof fn lemma_attach_source(body: Seq<Ast>, open: Seq<(Seq<char>, Seq<Ast>)>, n: Ast)
    requires
        all_source(body),
        forall|k: int| 0 <= k < open.len() ==> all_source(#[trigger] open[k].1),
        is_source(n),
    ensures
        all_source(attach_body(body, open, n)),
        forall|k: int| 0 <= k < attach_open(open, n).len() ==> all_source(#[trigger] attach_open(open, n)[k].1),
{
    let o = attach_open(open, n);
    assert forall|k: int| 0 <= k < o.len() implies all_source(#[trigger] o[k].1) by {
        if k == open.len() - 1 {
            let ps = o[k].1;
            assert forall|i: int| 0 <= i < ps.len() implies is_source(#[trigger] ps[i]) by {
                if i < ps.len() - 1 {
                    assert(ps[i] == open[k].1[i]);
                }
            }
        }
    }
    let b = attach_body(body, open, n);
    assert forall|i: int| 0 <= i < b.len() implies is_source(#[trigger] b[i]) by {
        if i < body.len() {
            assert(b[i] == body[i]);
        }
    }
}

/// Every program that the parser yields is made of calls and literals.
pub proof fn lemma_parse_from_source(t: Seq<Tok>, i: int, body: Seq<Ast>, open: Seq<(Seq<char>, Seq<Ast>)>)
    requires
        all_source(body),
        forall|k: int| 0 <= k < open.len() ==> all_source(#[trigger] open[k].1),
    ensures
        parse_from(t, i, body, open) is Ok ==> is_source_program(parse_from(t, i, body, open)->Ok_0),
    decreases t.len() - i,
{
    if 0 <= i < t.len() {
        match t[i] {
            Tok::Number(v) => {
                let n = Ast::NumberLiteral { value: v };
                lemma_attach_source(body, open, n);
                lemma_parse_from_source(t, i + 1, attach_body(body, open, n), attach_open(open, n));
            },
            Tok::StringLiteral(v) => {
                let n = Ast::StringLiteral { value: v };
                lemma_attach_source(body, open, n);
                lemma_parse_from_source(t, i + 1, attach_body(body, open, n), attach_open(open, n));
            },
            Tok::OpenParen => {
                if i + 1 < t.len() && t[i + 1] is Name {
                    let o = open.push((t[i + 1]->Name_0, seq![]));
                    assert forall|k: int| 0 <= k < o.len() implies all_source(#[trigger] o[k].1) by {
                        if k < open.len() {
                            assert(o[k] == open[k]);
                        }
                    }
                    lemma_parse_from_source(t, i + 2, body, o);
                }
            },
            Tok::CloseParen => {
                if open.len() > 0 {
                    let n = Ast::CallExpression { name: open.last().0, params: open.last().1 };
                    assert(all_source(open[open.len() - 1].1));
                    assert(is_source(n));
                    let rest = open.drop_last();
                    assert forall|k: int| 0 <= k < rest.len() implies all_source(#[trigger] rest[k].1) by {
                        assert(rest[k] == open[k]);
                    }
                    lemma_attach_source(body, rest, n);
                    lemma_parse_from_source(t, i + 1, attach_body(body, rest, n), attach_open(rest, n));
                }
            },
            Tok::Name(_) => {},
        }
    }
}

/// The program that a token sequence denotes, or the first error in it.
pub open spec fn parse_tokens(t: Seq<Tok>) -> Result<Ast, ParseError> {
    parse_from(t, 0, seq![], seq![])
}

/// The grammar read from position `i`: one node and the position after it,
/// or the first error. A number or a string is a literal; `(` must be
/// followed by a name, and then by the call's parameters up to its `)`.
pub open spec fn rd_node(t: Seq<Tok>, i: int) -> Result<(Ast, int), ParseError>
    decreases t.len() - i, 0nat,
{
    if i < 0 || i >= t.len() {
        Err(ParseError::UnexpectedEnd)
    } else {
        match t[i] {
            Tok::Number(v) => Ok((Ast::NumberLiteral { value: v }, i + 1)),
            Tok::StringLiteral(v) => Ok((Ast::StringLiteral { value: v }, i + 1)),
            Tok::OpenParen => {
                if i + 1 < t.len() && t[i + 1] is Name {
                    rd_params(t, i + 2, t[i + 1]->Name_0, seq![])
                } else {
                    Err(ParseError::ExpectedName { pos: (i + 1) as usize })
                }
            },
            _ => Err(ParseError::UnexpectedToken { pos: i as usize }),
        }
    }
}

/// The rest of a call named `name` whose parameters so far are `acc`, read
/// from position `i` up to and including its `)`.
pub open spec fn rd_params(t: Seq<Tok>, i: int, name: Seq<char>, acc: Seq<Ast>) -> Result<(Ast, int), ParseError>
    decreases t.len() - i, 1nat,
{
    if 0 <= i < t.len() && t[i] is CloseParen {
        Ok((Ast::CallExpression { name, params: acc }, i + 1))
    } else {
        match rd_node(t, i) {
            Err(e) => Err(e),
            Ok((n, j)) => if i < j <= t.len() {
                rd_params(t, j, name, acc.push(n))
            } else {
                Err(ParseError::UnexpectedEnd)
            },
        }
    }
}

/// The program read from position `i`, after the top-level nodes `body`.
pub open spec fn rd_program(t: Seq<Tok>, i: int, body: Seq<Ast>) -> Result<Ast, ParseError>
    decreases t.len() - i,
{
    if i < 0 || i >= t.len() {
        Ok(Ast::Program { body })
    } else {
        match rd_node(t, i) {
            Err(e) => Err(e),
            Ok((n, j)) => if i < j <= t.len() {
                rd_program(t, j, body.push(n))
            } else {
                Err(ParseError::UnexpectedEnd)
            },
        }
    }
}

/// The program that a token sequence denotes by the grammar, or the first
/// error in it.
pub open spec fn parse_grammar(t: Seq<Tok>) -> Result<Ast, ParseError> {
    rd_program(t, 0, seq![])
}

/// Reading one node by the grammar and placing it is what the stack
/// machine does over the same tokens.
proof fn lemma_node_agrees(t: Seq<Tok>, i: int, body: Seq<Ast>, open: Seq<(Seq<char>, Seq<Ast>)>)
    requires
        0 <= i <= t.len(),
        i < t.len() || open.len() > 0,
        open.len() > 0 ==> !(i < t.len() && t[i] is CloseParen),
    ensures
        rd_node(t, i) is Ok ==> i < rd_node(t, i)->Ok_0.1 <= t.len(),
        parse_from(t, i, body, open) == match rd_node(t, i) {
            Ok((n, j)) => parse_from(t, j, attach_body(body, open, n), attach_open(open, n)),
            Err(e) => Err(e),
        },
    decreases t.len() - i, 0nat,
{
    if i < t.len() {
        match t[i] {
            Tok::OpenParen => {
                if i + 1 < t.len() && t[i + 1] is Name {
                    lemma_params_agree(t, i + 2, t[i + 1]->Name_0, seq![], body, open);
                }
            },
            Tok::Number(v) => {
                let n = Ast::NumberLiteral { value: v };
                assert(rd_node(t, i) == Ok::<(Ast, int), ParseError>((n, i + 1)));
            },
            Tok::StringLiteral(v) => {
                let n = Ast::StringLiteral { value: v };
                assert(rd_node(t, i) == Ok::<(Ast, int), ParseError>((n, i + 1)));
            },
            _ => {},
        }
    }
}

proof fn lemma_params_agree(
    t: Seq<Tok>,
    i: int,
    name: Seq<char>,
    acc: Seq<Ast>,
    body: Seq<Ast>,
    open: Seq<(Seq<char>, Seq<Ast>)>,
)
    requires
        0 <= i <= t.len(),
    ensures
        rd_params(t, i, name, acc) is Ok ==> i < rd_params(t, i, name, acc)->Ok_0.1 <= t.len(),
        parse_from(t, i, body, open.push((name, acc))) == match rd_params(t, i, name, acc) {
            Ok((n, j)) => parse_from(t, j, attach_body(body, open, n), attach_open(open, n)),
            Err(e) => Err(e),
        },
    decreases t.len() - i, 1nat,
{
    let o = open.push((name, acc));
    if 0 <= i < t.len() && t[i] is CloseParen {
        assert(o.drop_last() =~= open);
    } else {
        lemma_node_agrees(t, i, body, o);
        if let Ok((n, j)) = rd_node(t, i) {
            assert(attach_open(o, n) =~= open.push((name, acc.push(n))));
            lemma_params_agree(t, j, name, acc.push(n), body, open);
        }
    }
}

proof fn lemma_program_agrees(t: Seq<Tok>, i: int, body: Seq<Ast>)
    requires
        0 <= i <= t.len(),
    ensures
        parse_from(t, i, body, seq![]) == rd_program(t, i, body),
    decreases t.len() - i,
{
    if i < t.len() {
        lemma_node_agrees(t, i, body, seq![]);
        if let Ok((n, j)) = rd_node(t, i) {
            lemma_program_agrees(t, j, body.push(n));
        }
    }
}

/// The parser's stack machine reads exactly what the grammar does: the
/// same program, or the same first error.
pub proof fn lemma_parse_agrees_with_grammar(t: Seq<Tok>)
    ensures
        parse_tokens(t) == parse_grammar(t),
{
    lemma_program_agrees(t, 0, seq![]);
}

fn attach(body: &mut Vec<Node>, open: &mut Vec<OpenCall>, n: Node)
    ensures
        views(final(body)@) == attach_body(views(old(body)@), open_views(old(open)@), n@),
        open_views(final(open)@) == attach_open(open_views(old(open)@), n@),
{
    if open.len() == 0 {
        body.push(n);
        assert(views(body@) =~= views(old(body)@).push(n@));
    } else {
        let mut top = open.pop().unwrap();
        let ghost top_before = top;
        top.params.push(n);
        assert(views(top.params@) =~= views(top_before.params@).push(n@));
        open.push(top);
        assert(open_views(open@) =~= attach_open(open_views(old(open)@), n@));
    }
}

fn clone_text(s: &String) -> (r: String)
    ensures
        r@ == s@,
{
    s.clone()
}

/// Builds the syntax tree of a token sequence: numbers and strings become
/// literals, `(` name ... `)` becomes a call whose parameters are the nodes
/// up to the matching `)`, and the program is the sequence of top-level nodes.
pub fn parse(tokens: Vec<Token>) -> (r: Result<Node, ParseError>)
    ensures
        match parse_grammar(toks_of(tokens@)) {
            Ok(a) => r is Ok && r->Ok_0@ == a,
            Err(e) => r == Err::<Node, ParseError>(e),
        },
        r is Ok ==> is_source_program(r->Ok_0@),
{
    let ghost t = toks_of(tokens@);
    proof {
        lemma_parse_from_source(t, 0, seq![], seq![]);
        lemma_parse_agrees_with_grammar(t);
    }
    let n = tokens.len();
    let mut body: Vec<Node> = Vec::new();
    let mut open: Vec<OpenCall> = Vec::new();
    let mut i: usize = 0;
    assert(views(body@) =~= seq![]);
    assert(open_views(open@) =~= seq![]);
    while i < n
        invariant
            n == tokens@.len(),
            t == toks_of(tokens@),
            i <= n,
            parse_tokens(t) == parse_from(t, i as int, views(body@), open_views(open@)),
            parse_tokens(t) == parse_grammar(t),
            parse_tokens(t) is Ok ==> is_source_program(parse_tokens(t)->Ok_0),
        decreases n - i,
    {
        match &tokens[i] {
            Token::Number(v) => {
                attach(&mut body, &mut open, Node::NumberLiteral { value: clone_text(v) });
                i += 1;
            },
            Token::StringLiteral(v) => {
                attach(&mut body, &mut open, Node::StringLiteral { value: clone_text(v) });
                i += 1;
            },
            Token::OpenParen => {
                if i + 1 < n {
                    match &tokens[i + 1] {
                        Token::Name(name) => {
                            let ghost before = open@;
                            open.push(OpenCall { name: clone_text(name), params: Vec::new() });
                            assert(views(open@.last().params@) =~= seq![]);
                            assert(open_views(open@) =~= open_views(before).push((t[i + 1]->Name_0, seq![])));
                            i += 2;
                        },
                        _ => {
                            return Err(ParseError::ExpectedName { pos: i + 1 });
                        },
                    }
                } else {
                    return Err(ParseError::ExpectedName { pos: i + 1 });
                }
            },
            Token::CloseParen => {
                if open.len() == 0 {
                    return Err(ParseError::UnexpectedToken { pos: i });
                }
                let ghost before = open_views(open@);
                let top = open.pop().unwrap();
                assert(open_views(open@) =~= before.drop_last());
                proof {
                    lemma_call_view(top.name, top.params);
                }
                attach(&mut body, &mut open, Node::CallExpression { name: top.name, params: top.params });
                i += 1;
            },
            Token::Name(_) => {
                return Err(ParseError::UnexpectedToken { pos: i });
            },
        }
    }
    if open.len() > 0 {
        return Err(ParseError::UnexpectedEnd);
    }
    proof {
        lemma_program_view(body);
    }
    Ok(Node::Program { body })
}

} // verus!
