use std::path::PathBuf;

use sexpr_reader::location::Location;
use sexpr_reader::node::{write_nodes, Ast, Node};
use sexpr_reader::parser::Parser;
use sexpr_reader::tokenizer::Tokenizer;
use sexpr_reader::{parse_file, parse_optional_path, parse_str, parse_text, strip_comments, Error};

fn at(line: usize, column: usize) -> Location {
    Location { line, column, path: None }
}

fn read(text: &str) -> Vec<Node> {
    Parser::parse(Tokenizer::tokenize(text, None).unwrap()).unwrap()
}

fn shape(node: &Node) -> Node {
    let ast = match &node.ast {
        Ast::List(children) => Ast::List(children.iter().map(shape).collect()),
        Ast::Bool(b) => Ast::Bool(*b),
        Ast::Comment(s) => Ast::Comment(s.clone()),
        Ast::Identifier(s) => Ast::Identifier(s.clone()),
        Ast::Number(n) => Ast::Number(n.clone()),
        Ast::String(s) => Ast::String(s.clone()),
    };
    Node { ast, tokens: vec![] }
}

fn written(nodes: &Vec<Node>) -> String {
    let joined = nodes.iter().map(|n| n.to_string()).collect::<Vec<String>>().join(" ");
    assert_eq!(write_nodes(nodes), joined);
    joined
}

fn failure(text: &str) -> (String, Location) {
    let e = parse_str(text).unwrap_err();
    (e.message, e.location)
}

#[test]
fn parse_str_gives_a_cursor_for_each_list() {
    let lists = parse_str("(a) (b c)\n()").unwrap();
    let texts: Vec<String> = lists.iter().map(|l| l.to_string()).collect();
    assert_eq!(texts, vec!["(a)", "(b c)", "()"]);
    assert_eq!(lists[1].location(), at(0, 4));
    assert_eq!(lists[2].location(), at(1, 0));
    assert_eq!(parse_str("").unwrap().len(), 0);
}

#[test]
fn parse_str_leaves_comments_out_at_every_depth() {
    let lists = parse_str("; one\n(a ; two\n (b ; three\n) c) ; four").unwrap();
    assert_eq!(lists.len(), 1);
    assert_eq!(lists[0].to_string(), "(a (b) c)");
}

#[test]
fn parse_str_wants_lists_only() {
    assert_eq!(failure("(a)\n  b (c)"), ("Expected list".to_string(), at(1, 2)));
    assert_eq!(failure("1"), ("Expected list".to_string(), at(0, 0)));
}

#[test]
fn parse_str_reports_what_the_tokenizer_found() {
    assert_eq!(failure("(a \"bc"), ("Unclosed string: bc".to_string(), at(0, 3)));
    assert_eq!(
        failure("(a\n 12ab)"),
        ("Identifier begins with number: 12ab".to_string(), at(1, 1))
    );
}

#[test]
fn parse_str_reports_what_the_parser_found() {
    assert_eq!(failure("(+ 1 2"), ("Unclosed list".to_string(), at(0, 0)));
    assert_eq!(failure("(a (b)"), ("Unclosed list".to_string(), at(0, 0)));
    assert_eq!(failure("(a) (b"), ("Unclosed list".to_string(), at(0, 4)));
    assert_eq!(failure(")"), ("List not started".to_string(), at(0, 0)));
    assert_eq!(failure("(a))"), ("List not started".to_string(), at(0, 3)));
}

#[test]
fn tokenizer_failure_comes_before_parser_failure() {
    assert_eq!(failure(") \"x"), ("Unclosed string: x".to_string(), at(0, 2)));
}

#[test]
fn parse_file_puts_the_path_in_every_place() {
    let path = PathBuf::from("some/dir/file.lisp");
    let mut lists = parse_file("(a\n (b))", path.clone()).unwrap();
    assert_eq!(
        lists[0].location(),
        Location { line: 0, column: 0, path: Some(path.clone()) }
    );
    lists[0].pop_identifier("a").unwrap();
    let inner = lists[0].pop_list("inner").unwrap();
    assert_eq!(inner.location(), Location { line: 1, column: 1, path: Some(path.clone()) });

    let e = parse_file("\n  )", path.clone()).unwrap_err();
    assert_eq!(e.location, Location { line: 1, column: 2, path: Some(path) });
    assert_eq!(e.to_string(), "some/dir/file.lisp:1:2: List not started");
}

#[test]
fn parse_optional_path_is_both() {
    assert_eq!(parse_optional_path("(a)", None).unwrap(), parse_str("(a)").unwrap());
    let path = PathBuf::from("f");
    assert_eq!(
        parse_optional_path("(a)", Some(path.clone())).unwrap()[0].location(),
        parse_file("(a)", path).unwrap()[0].location()
    );
}

#[test]
fn errors_are_compared_by_message() {
    let one = parse_str("(a").unwrap_err();
    let other = parse_str("\n\n  (b").unwrap_err();
    assert_ne!(one.location, other.location);
    assert_eq!(one, other);
    assert_eq!(one, Error::from("Unclosed list"));
    assert_ne!(one, parse_str(")").unwrap_err());
}

#[test]
fn strip_comments_drops_a_comment() {
    let nodes = read("; note");
    assert_eq!(strip_comments(&nodes[0]), None);
}

#[test]
fn strip_comments_keeps_an_atom_as_it_is() {
    for text in ["a", "1.5", "\"s\"", "true"] {
        let nodes = read(text);
        assert_eq!(strip_comments(&nodes[0]).unwrap(), nodes[0]);
    }
}

#[test]
fn strip_comments_rebuilds_lists_without_comments() {
    let nodes = read("(a ;x\n (;y\n b (;z\n)) c)");
    let kept = strip_comments(&nodes[0]).unwrap();
    assert_eq!(kept.to_string(), "(a (b ()) c)");
    assert_eq!(kept.tokens, nodes[0].tokens);
    let clean = read("(a (b ()) c)");
    assert_eq!(shape(&kept), shape(&clean[0]));
}

#[test]
fn written_and_read_again_is_the_same_tree() {
    let texts = [
        "()",
        "(+ 1 2)",
        "(+ 1 (* 2 3))",
        "a",
        "(define (f x) (if (< x 0.50) \"neg \\\" (quoted)\" true))   (g -1.250 +7 - + -x)",
        "(\"\" \"\\\\\" \"a\nb\" () (()) ((a) b))",
        "1 2 3",
        "(a\"b\"c(d)e)",
    ];
    for text in texts {
        let first = read(text);
        let again = read(&written(&first));
        assert_eq!(again.len(), first.len());
        for (a, b) in again.iter().zip(first.iter()) {
            assert_eq!(shape(a), shape(b), "{}", text);
        }
        assert_eq!(written(&again), written(&first));
    }
}

#[test]
fn balanced_text_is_read_into_as_many_nodes_as_it_has_groups() {
    let cases = [("", 0), ("a", 1), ("()", 1), ("(a b) (c (d)) e \"f\" 1", 5), ("((()))", 1)];
    for (text, count) in cases {
        let tokens = Tokenizer::tokenize(text, None).unwrap();
        assert_eq!(Parser::parse(tokens).unwrap().len(), count, "{}", text);
    }
}

#[test]
fn parse_text_keeps_comments_unless_told_otherwise() {
    let text = "; one\n(a ; two\n b) c";
    let all = parse_text(text, None, false).unwrap();
    assert_eq!(all, read(text));
    assert_eq!(all.len(), 3);
    assert_eq!(written(&all), "; one\n (a ; two\n b) c");
    let kept = parse_text(text, None, true).unwrap();
    assert_eq!(written(&kept), "(a b) c");
}

#[test]
fn parse_text_fails_as_the_stages_do() {
    let e = parse_text("(a \"b", None, false).unwrap_err();
    assert_eq!((e.message.as_str(), e.location.clone()), ("Unclosed string: b", at(0, 3)));
    let e = parse_text("(a", Some(PathBuf::from("f")), true).unwrap_err();
    assert_eq!(e.to_string(), "f:0:0: Unclosed list");
    let e = parse_text("a)", None, true).unwrap_err();
    assert_eq!((e.message.as_str(), e.location.clone()), ("List not started", at(0, 1)));
}

#[test]
fn tokens_come_in_the_order_of_the_text() {
    let tokens = Tokenizer::tokenize("(a\n  \"b\nc\" (d))\n\n e ;f", None).unwrap();
    for pair in tokens.windows(2) {
        let (a, b) = (&pair[0].location, &pair[1].location);
        assert!(a.line < b.line || (a.line == b.line && a.column < b.column));
    }
}
