use tiny_compiler::ast::Node;
use tiny_compiler::codegen::generate;
use tiny_compiler::lexer::{tokenizer, LexError, Token};
use tiny_compiler::parser::{parse, ParseError};
use tiny_compiler::transformer::transform;
use tiny_compiler::traverse::{traverse, CallNames, HookCall, NodeKind, Phase, Visitor, VisitorTable};
use tiny_compiler::{compile, CompileError};

fn text(s: &str) -> String {
    s.to_string()
}

#[test]
fn tokenize_simple_call() {
    let tokens = tokenizer("(add 2 3)").unwrap();
    assert_eq!(tokens.len(), 5);
    assert!(matches!(tokens[0], Token::OpenParen));
    assert!(matches!(&tokens[1], Token::Name(s) if s == "add"));
    assert!(matches!(&tokens[2], Token::Number(s) if s == "2"));
    assert!(matches!(&tokens[3], Token::Number(s) if s == "3"));
    assert!(matches!(tokens[4], Token::CloseParen));
}

#[test]
fn tokenize_runs_strings_and_newlines() {
    let tokens = tokenizer("(concat \"foo bar\"\n 123)").unwrap();
    assert_eq!(tokens.len(), 5);
    assert!(matches!(&tokens[1], Token::Name(s) if s == "concat"));
    assert!(matches!(&tokens[2], Token::StringLiteral(s) if s == "foo bar"));
    assert!(matches!(&tokens[3], Token::Number(s) if s == "123"));
}

#[test]
fn tokenize_empty_input() {
    assert_eq!(tokenizer("").unwrap().len(), 0);
    assert_eq!(tokenizer("  \n ").unwrap().len(), 0);
}

#[test]
fn tokenize_rejects_uppercase() {
    assert_eq!(tokenizer("(ADD 2 3)").unwrap_err(), LexError::UnexpectedChar { ch: 'A', pos: 1 });
}

#[test]
fn tokenize_rejects_punctuation() {
    assert_eq!(tokenizer("(add 2 -3)").unwrap_err(), LexError::UnexpectedChar { ch: '-', pos: 7 });
}

#[test]
fn tokenize_rejects_unterminated_string() {
    assert_eq!(tokenizer("(print \"abc").unwrap_err(), LexError::UnterminatedString { pos: 7 });
}

#[test]
fn parse_simple_call() {
    let program = parse(tokenizer("(add 2 3)").unwrap()).unwrap();
    match program {
        Node::Program { body } => {
            assert_eq!(body.len(), 1);
            match &body[0] {
                Node::CallExpression { name, params } => {
                    assert_eq!(name, "add");
                    assert_eq!(params.len(), 2);
                    assert!(matches!(&params[0], Node::NumberLiteral { value } if value == "2"));
                    assert!(matches!(&params[1], Node::NumberLiteral { value } if value == "3"));
                }
                other => panic!("expected a call, got {:?}", other),
            }
        }
        other => panic!("expected a program, got {:?}", other),
    }
}

#[test]
fn parse_errors() {
    assert_eq!(parse(tokenizer("(add 2").unwrap()).unwrap_err(), ParseError::UnexpectedEnd);
    assert_eq!(parse(tokenizer("(").unwrap()).unwrap_err(), ParseError::ExpectedName { pos: 1 });
    assert_eq!(parse(tokenizer("(1 2)").unwrap()).unwrap_err(), ParseError::ExpectedName { pos: 1 });
    assert_eq!(parse(tokenizer(")").unwrap()).unwrap_err(), ParseError::UnexpectedToken { pos: 0 });
    assert_eq!(parse(tokenizer("(a 1) )").unwrap()).unwrap_err(), ParseError::UnexpectedToken { pos: 4 });
    assert_eq!(parse(tokenizer("(a b)").unwrap()).unwrap_err(), ParseError::UnexpectedToken { pos: 2 });
}

#[test]
fn compile_nested_call() {
    assert_eq!(compile("(add 2 (subtract 4 2))").unwrap(), "add(2, subtract(4, 2));");
}

#[test]
fn compile_unterminated_call() {
    assert_eq!(compile("(add 2"), Err(CompileError::Parse(ParseError::UnexpectedEnd)));
}

#[test]
fn compile_uppercase_name() {
    assert_eq!(
        compile("(ADD 2 3)"),
        Err(CompileError::Lex(LexError::UnexpectedChar { ch: 'A', pos: 1 }))
    );
}

#[test]
fn compile_is_deterministic() {
    let src = "(add 2 (subtract 4 2)) (print \"hi\")";
    assert_eq!(compile(src), compile(src));
}

#[test]
fn compile_keeps_order_and_nesting() {
    assert_eq!(compile("(a (b (c 1)) 2 \"x\")").unwrap(), "a(b(c(1)), 2, \"x\");");
    assert_eq!(compile("(f)").unwrap(), "f();");
}

#[test]
fn compile_several_statements() {
    assert_eq!(compile("(a 1)\n(b 2)").unwrap(), "a(1);\nb(2);");
}

#[test]
fn compile_top_level_literals_and_empty() {
    assert_eq!(compile("42").unwrap(), "42");
    assert_eq!(compile("\"s\" 7").unwrap(), "\"s\"\n7");
    assert_eq!(compile("").unwrap(), "");
}

#[test]
fn transform_builds_statements() {
    let program = parse(tokenizer("(add 1 (neg 2))").unwrap()).unwrap();
    let target = transform(&program);
    match &target {
        Node::Program { body } => match &body[0] {
            Node::ExpressionStatement { expression } => match &**expression {
                Node::CallExpressionOut { callee, arguments } => {
                    assert!(matches!(&**callee, Node::Identifier { name } if name == "add"));
                    assert_eq!(arguments.len(), 2);
                    assert!(matches!(&arguments[1], Node::CallExpressionOut { .. }));
                }
                other => panic!("expected a call, got {:?}", other),
            },
            other => panic!("expected a statement, got {:?}", other),
        },
        other => panic!("expected a program, got {:?}", other),
    }
    assert_eq!(generate(&target), "add(1, neg(2));");
}

#[test]
fn generate_hand_built_tree() {
    let tree = Node::ExpressionStatement {
        expression: Box::new(Node::CallExpressionOut {
            callee: Box::new(Node::Identifier { name: text("say") }),
            arguments: vec![Node::StringLiteral { value: text("hi") }, Node::NumberLiteral { value: text("5") }],
        }),
    };
    assert_eq!(generate(&tree), "say(\"hi\", 5);");
}

#[test]
fn traverse_empty_table_visits_each_node_once() {
    let program = parse(tokenizer("(add 2 (subtract 4 2))").unwrap()).unwrap();
    let before = format!("{:?}", program);
    let table = VisitorTable { enter: vec![], exit: vec![] };
    let t = traverse(&program, &table, &mut CallNames { names: vec![] });
    assert!(t.calls.is_empty());
    assert_eq!(
        t.order,
        vec![
            NodeKind::Program,
            NodeKind::CallExpression,
            NodeKind::NumberLiteral,
            NodeKind::CallExpression,
            NodeKind::NumberLiteral,
            NodeKind::NumberLiteral,
        ]
    );
    assert_eq!(format!("{:?}", program), before);
}

#[test]
fn traverse_runs_hooks_in_order() {
    let program = parse(tokenizer("(f 1 (g))").unwrap()).unwrap();
    let table = VisitorTable { enter: vec![NodeKind::CallExpression], exit: vec![NodeKind::NumberLiteral] };
    let t = traverse(&program, &table, &mut CallNames { names: vec![] });
    assert_eq!(
        t.calls,
        vec![
            HookCall { phase: Phase::Enter, kind: NodeKind::CallExpression, parent: Some(NodeKind::Program) },
            HookCall { phase: Phase::Exit, kind: NodeKind::NumberLiteral, parent: Some(NodeKind::CallExpression) },
            HookCall { phase: Phase::Enter, kind: NodeKind::CallExpression, parent: Some(NodeKind::CallExpression) },
        ]
    );
}

#[test]
fn traverse_target_tree() {
    let target = transform(&parse(tokenizer("(f 1)").unwrap()).unwrap());
    let table = VisitorTable { enter: vec![NodeKind::Program], exit: vec![NodeKind::Identifier] };
    let t = traverse(&target, &table, &mut CallNames { names: vec![] });
    assert_eq!(
        t.order,
        vec![
            NodeKind::Program,
            NodeKind::ExpressionStatement,
            NodeKind::CallExpressionOut,
            NodeKind::Identifier,
            NodeKind::NumberLiteral,
        ]
    );
    assert_eq!(
        t.calls,
        vec![
            HookCall { phase: Phase::Enter, kind: NodeKind::Program, parent: None },
            HookCall { phase: Phase::Exit, kind: NodeKind::Identifier, parent: Some(NodeKind::CallExpressionOut) },
        ]
    );
}

/// Counts handler calls and remembers each one's node and parent kinds.
struct Recorder {
    entered: usize,
    exited: usize,
    seen: Vec<(String, Option<String>)>,
}

fn label(n: &Node) -> String {
    match n {
        Node::CallExpression { name, .. } => name.clone(),
        Node::NumberLiteral { value } => value.clone(),
        other => format!("{:?}", tiny_compiler::traverse::kind(other)),
    }
}

impl Visitor for Recorder {
    fn enter(&mut self, node: &Node, parent: Option<&Node>) {
        self.entered += 1;
        self.seen.push((label(node), parent.map(label)));
    }

    fn exit(&mut self, _node: &Node, _parent: Option<&Node>) {
        self.exited += 1;
    }
}

fn all_kinds() -> Vec<NodeKind> {
    vec![
        NodeKind::Program,
        NodeKind::CallExpression,
        NodeKind::NumberLiteral,
        NodeKind::StringLiteral,
        NodeKind::ExpressionStatement,
        NodeKind::CallExpressionOut,
        NodeKind::Identifier,
    ]
}

#[test]
fn traverse_calls_handlers_with_node_and_parent() {
    let program = parse(tokenizer("(add 2 (subtract 4 2))").unwrap()).unwrap();
    let table = VisitorTable { enter: all_kinds(), exit: all_kinds() };
    let mut rec = Recorder { entered: 0, exited: 0, seen: vec![] };
    let t = traverse(&program, &table, &mut rec);
    assert_eq!(rec.entered, 6);
    assert_eq!(rec.exited, 6);
    assert_eq!(t.calls.len(), 12);
    assert_eq!(
        rec.seen,
        vec![
            (text("Program"), None),
            (text("add"), Some(text("Program"))),
            (text("2"), Some(text("add"))),
            (text("subtract"), Some(text("add"))),
            (text("4"), Some(text("subtract"))),
            (text("2"), Some(text("subtract"))),
        ]
    );
}

#[test]
fn traverse_empty_table_calls_no_handler() {
    let program = parse(tokenizer("(a 1 (b \"s\"))").unwrap()).unwrap();
    let table = VisitorTable { enter: vec![], exit: vec![] };
    let mut rec = Recorder { entered: 0, exited: 0, seen: vec![] };
    let t = traverse(&program, &table, &mut rec);
    assert_eq!(rec.entered, 0);
    assert_eq!(rec.exited, 0);
    assert_eq!(t.order.len(), 5);
}

#[test]
fn call_names_pass_lists_calls_in_order() {
    let program = parse(tokenizer("(add 2 (subtract 4 (neg 2))) (print 1)").unwrap()).unwrap();
    let table = VisitorTable { enter: vec![NodeKind::CallExpression], exit: vec![] };
    let mut names = CallNames { names: vec![] };
    traverse(&program, &table, &mut names);
    assert_eq!(names.names, vec![text("add"), text("subtract"), text("neg"), text("print")]);
}
