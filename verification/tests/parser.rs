use sexpr_reader::error::Describe;
use sexpr_reader::location::Location;
use sexpr_reader::node::{Ast, Node};
use sexpr_reader::number::Number;
use sexpr_reader::parser::{ListErr, Parser, ParserErr};
use sexpr_reader::tokenizer::{Symbol, Token, TokenKind, Tokenizer};

fn parse(text: &str) -> Result<Vec<Node>, sexpr_reader::error::Error<ParserErr>> {
    Parser::parse(Tokenizer::tokenize(text, None).unwrap())
}

fn at(line: usize, column: usize) -> Location {
    Location { line, column, path: None }
}

fn number(text: &str) -> Ast {
    Ast::Number(Number::parse(text).unwrap())
}

fn asts(nodes: &[Node]) -> Vec<&Ast> {
    nodes.iter().map(|n| &n.ast).collect()
}

fn children(node: &Node) -> &Vec<Node> {
    match &node.ast {
        Ast::List(children) => children,
        other => panic!("no list: {:?}", other),
    }
}

#[test]
fn parse_empty_list() {
    let nodes = parse("()").unwrap();
    assert_eq!(nodes.len(), 1);
    assert_eq!(nodes[0].ast, Ast::List(vec![]));
    assert_eq!(nodes[0].to_string(), "()");
}

#[test]
fn parse_flat_list() {
    let nodes = parse("(+ 1 2)").unwrap();
    assert_eq!(nodes.len(), 1);
    let inner = children(&nodes[0]);
    assert_eq!(
        asts(inner),
        vec![&Ast::Identifier("+".to_string()), &number("1"), &number("2")]
    );
    assert_eq!(nodes[0].to_string(), "(+ 1 2)");
}

#[test]
fn parse_nested_list() {
    let nodes = parse("(+ 1 (* 2 3))").unwrap();
    assert_eq!(nodes.len(), 1);
    let outer = children(&nodes[0]);
    assert_eq!(outer.len(), 3);
    let inner = children(&outer[2]);
    assert_eq!(
        asts(inner),
        vec![&Ast::Identifier("*".to_string()), &number("2"), &number("3")]
    );
    assert_eq!(nodes[0].to_string(), "(+ 1 (* 2 3))");
}

#[test]
fn parse_nothing() {
    assert_eq!(parse("").unwrap(), vec![]);
    assert_eq!(Parser::parse(vec![]).unwrap(), vec![]);
}

#[test]
fn parse_keeps_the_order_of_the_text() {
    let nodes = parse("a (b) \"c\" true 4 ;five\n(())").unwrap();
    assert_eq!(nodes.len(), 7);
    assert_eq!(nodes[0].ast, Ast::Identifier("a".to_string()));
    assert_eq!(asts(children(&nodes[1])), vec![&Ast::Identifier("b".to_string())]);
    assert_eq!(nodes[2].ast, Ast::String("c".to_string()));
    assert_eq!(nodes[3].ast, Ast::Bool(true));
    assert_eq!(nodes[4].ast, number("4"));
    assert_eq!(nodes[5].ast, Ast::Comment("five".to_string()));
    assert_eq!(children(&nodes[6]).len(), 1);
    assert_eq!(children(&children(&nodes[6])[0]).len(), 0);
}

#[test]
fn number_of_top_level_nodes() {
    assert_eq!(parse("(a b) c (d (e f)) () 7").unwrap().len(), 5);
    assert_eq!(parse("((((a))))").unwrap().len(), 1);
    assert_eq!(parse("a b c").unwrap().len(), 3);
}

#[test]
fn parse_missing_close_is_an_unclosed_list() {
    let e = parse("(+ 1 2").unwrap_err();
    assert_eq!(e.kind, ParserErr::List(ListErr::UnclosedList));
    assert_eq!(e.location, at(0, 0));
    assert_eq!(e.to_string(), "0:0: Unclosed list");
}

#[test]
fn unclosed_list_is_reported_at_the_last_open_one() {
    let e = parse("(a\n (b (c) (d e").unwrap_err();
    assert_eq!(e.kind, ParserErr::List(ListErr::UnclosedList));
    assert_eq!(e.location, at(1, 8));
    let e = parse("(a (b)").unwrap_err();
    assert_eq!(e.location, at(0, 0));
    let e = parse("() (").unwrap_err();
    assert_eq!(e.location, at(0, 3));
}

#[test]
fn parse_stray_close_is_an_unstarted_list() {
    let e = parse(")").unwrap_err();
    assert_eq!(e.kind, ParserErr::List(ListErr::UnstartedList));
    assert_eq!(e.location, at(0, 0));
    assert_eq!(e.to_string(), "0:0: List not started");
}

#[test]
fn unstarted_list_is_reported_at_the_first_stray_close() {
    let e = parse("(a)\n b) c) (").unwrap_err();
    assert_eq!(e.kind, ParserErr::List(ListErr::UnstartedList));
    assert_eq!(e.location, at(1, 2));
}

#[test]
fn atom_holds_its_token() {
    let tokens = Tokenizer::tokenize("  x", None).unwrap();
    let nodes = parse("  x").unwrap();
    assert_eq!(nodes[0].tokens, tokens);
    assert_eq!(nodes[0].first_location(), at(0, 2));
}

#[test]
fn list_holds_the_tokens_from_its_opening_to_its_closing_parenthesis() {
    let text = "a (b (c d)\n e) f";
    let tokens = Tokenizer::tokenize(text, None).unwrap();
    let nodes = parse(text).unwrap();
    assert_eq!(nodes.len(), 3);
    assert_eq!(nodes[1].tokens[..], tokens[1..9]);
    assert_eq!(nodes[1].first_location(), at(0, 2));
    let inner = &children(&nodes[1])[1];
    assert_eq!(inner.tokens[..], tokens[3..7]);
    assert_eq!(inner.first_location(), at(0, 5));
    let all: Vec<Token> = nodes.iter().flat_map(|n| n.tokens.clone()).collect();
    assert_eq!(all, tokens);
}

#[test]
fn parse_takes_tokens_from_anywhere() {
    let open =
        Token { kind: TokenKind::Symbol(Symbol::Open), raw_value: "(".to_string(), location: at(3, 4) };
    let close =
        Token { kind: TokenKind::Symbol(Symbol::Close), raw_value: ")".to_string(), location: at(5, 6) };
    let nodes = Parser::parse(vec![open.clone(), close.clone()]).unwrap();
    assert_eq!(nodes, vec![Node { ast: Ast::List(vec![]), tokens: vec![open.clone(), close.clone()] }]);
    let e = Parser::parse(vec![close.clone(), open.clone()]).unwrap_err();
    assert_eq!(e.kind, ParserErr::List(ListErr::UnstartedList));
    assert_eq!(e.location, at(5, 6));
    let e = Parser::parse(vec![open.clone(), open, close]).unwrap_err();
    assert_eq!(e.kind, ParserErr::List(ListErr::UnclosedList));
    assert_eq!(e.location, at(3, 4));
}

#[test]
fn parser_error_messages() {
    assert_eq!(ParserErr::Invalid("x y".to_string()).describe(), "Invalid: x y");
    assert_eq!(ParserErr::List(ListErr::UnclosedList).describe(), "Unclosed list");
    assert_eq!(ParserErr::List(ListErr::UnstartedList).describe(), "List not started");
    assert_eq!(ParserErr::StackUnderflow.describe(), "Stack underflow");
}

#[test]
fn deep_nesting_is_read() {
    let depth = 500;
    let text = format!("{}{}", "(".repeat(depth), ")".repeat(depth));
    let nodes = parse(&text).unwrap();
    assert_eq!(nodes.len(), 1);
    let mut node = &nodes[0];
    let mut seen = 1;
    while let Some(child) = children(node).first() {
        node = child;
        seen += 1;
    }
    assert_eq!(seen, depth);
    assert_eq!(nodes[0].tokens.len(), 2 * depth);
}
