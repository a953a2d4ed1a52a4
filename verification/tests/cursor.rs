use std::path::PathBuf;

use sexpr_reader::location::Location;
use sexpr_reader::node::{Ast, Node};
use sexpr_reader::number::Number;
use sexpr_reader::{err, list, parse_file, parse_str, Error, List};

fn cursor(text: &str) -> List {
    let mut lists = parse_str(text).unwrap();
    assert_eq!(lists.len(), 1);
    lists.remove(0)
}

fn at(line: usize, column: usize) -> Location {
    Location { line, column, path: None }
}

fn failure<T: std::fmt::Debug>(r: Result<T, Error>) -> (String, Location) {
    let e = r.unwrap_err();
    (e.message, e.location)
}

#[test]
fn cursor_is_anchored_at_the_opening_parenthesis() {
    assert_eq!(cursor("\n  (a b)").location(), at(1, 2));
    let lists = parse_file("(a)", PathBuf::from("x.lisp")).unwrap();
    assert_eq!(
        lists[0].location(),
        Location { line: 0, column: 0, path: Some(PathBuf::from("x.lisp")) }
    );
}

#[test]
fn pop_front_takes_values_in_order() {
    let mut l = cursor("(a 1 \"s\")");
    assert!(!l.is_empty());
    assert_eq!(l.pop_front("first").unwrap().ast, Ast::Identifier("a".to_string()));
    assert_eq!(l.pop_front("second").unwrap().ast, Ast::Number(Number::parse("1").unwrap()));
    assert_eq!(l.pop_front("third").unwrap().ast, Ast::String("s".to_string()));
    assert!(l.is_empty());
    assert_eq!(failure(l.pop_front("fourth")), ("Expected fourth".to_string(), at(0, 0)));
    assert!(l.is_empty());
}

#[test]
fn peek_front_takes_nothing() {
    let l = cursor("(a b)");
    assert_eq!(l.peek_front().unwrap().ast, Ast::Identifier("a".to_string()));
    assert_eq!(l.peek_front().unwrap().ast, Ast::Identifier("a".to_string()));
    assert_eq!(l.to_string(), "(a b)");
    assert!(cursor("()").peek_front().is_none());
}

#[test]
fn front_is_list_looks_at_the_next_value() {
    assert!(cursor("((a) b)").front_is_list());
    assert!(!cursor("(a (b))").front_is_list());
    assert!(!cursor("()").front_is_list());
}

#[test]
fn pop_bool_gives_value_and_place() {
    let mut l = cursor("(true\n false)");
    assert_eq!(l.pop_bool("flag").unwrap(), (true, at(0, 1)));
    assert_eq!(l.pop_bool("flag").unwrap(), (false, at(1, 1)));
    assert_eq!(failure(l.pop_bool("flag")), ("Expected flag".to_string(), at(0, 0)));
}

#[test]
fn pop_of_another_kind_fails_at_the_value_and_takes_nothing() {
    let mut l = cursor("  (a   1)");
    assert_eq!(failure(l.pop_bool("a flag")), ("Expected a flag".to_string(), at(0, 3)));
    assert_eq!(failure(l.pop_float("a number")), ("Expected a number".to_string(), at(0, 3)));
    assert_eq!(failure(l.pop_integer("a count")), ("Expected a count".to_string(), at(0, 3)));
    assert_eq!(failure(l.pop_string("a text")), ("Expected a text".to_string(), at(0, 3)));
    assert_eq!(failure(l.pop_comment("a note")), ("Expected a note".to_string(), at(0, 3)));
    assert_eq!(failure(l.pop_list("a list")), ("Expected a list".to_string(), at(0, 3)));
    assert_eq!(l.to_string(), "(a 1)");
    assert_eq!(l.pop_identifier("a name").unwrap(), ("a".to_string(), at(0, 3)));
    assert_eq!(failure(l.pop_identifier("a name")), ("Expected a name".to_string(), at(0, 7)));
    assert_eq!(l.to_string(), "(1)");
}

#[test]
fn pop_on_an_empty_cursor_fails_at_the_list() {
    let mut l = cursor("\n\n   ()");
    let anchor = at(2, 3);
    assert_eq!(failure(l.pop_bool("b")), ("Expected b".to_string(), anchor.clone()));
    assert_eq!(failure(l.pop_float("f")), ("Expected f".to_string(), anchor.clone()));
    assert_eq!(failure(l.pop_integer("i")), ("Expected i".to_string(), anchor.clone()));
    assert_eq!(failure(l.pop_string("s")), ("Expected s".to_string(), anchor.clone()));
    assert_eq!(failure(l.pop_identifier("n")), ("Expected n".to_string(), anchor.clone()));
    assert_eq!(failure(l.pop_comment("c")), ("Expected c".to_string(), anchor.clone()));
    assert_eq!(failure(l.pop_list("l")), ("Expected l".to_string(), anchor));
}

#[test]
fn pop_integer_wants_a_number_without_fraction() {
    let mut l = cursor("(1.5 2.0 -7)");
    assert_eq!(
        failure(l.pop_integer("count")),
        ("Expected an int for count".to_string(), at(0, 1))
    );
    assert_eq!(l.to_string(), "(1.5 2 -7)");
    assert_eq!(l.pop_float("x").unwrap(), (Number::parse("1.5").unwrap(), at(0, 1)));
    assert_eq!(l.pop_integer("count").unwrap(), (2, at(0, 5)));
    assert_eq!(l.pop_integer("count").unwrap(), (-7, at(0, 9)));
    assert!(l.is_empty());
}

#[test]
fn pop_integer_stops_at_the_ends_of_the_range() {
    let mut l = cursor("(99999999999999999999 -99999999999999999999)");
    assert_eq!(l.pop_integer("n").unwrap().0, i64::MAX);
    assert_eq!(l.pop_integer("n").unwrap().0, i64::MIN);
}

#[test]
fn pop_float_takes_any_number() {
    let mut l = cursor("(2 0.25)");
    let (first, place) = l.pop_float("x").unwrap();
    assert_eq!(first.to_text().parse::<f64>().unwrap(), 2.0);
    assert_eq!(place, at(0, 1));
    let (second, _) = l.pop_float("x").unwrap();
    assert_eq!(second.to_text().parse::<f64>().unwrap(), 0.25);
}

#[test]
fn pop_string_and_identifier_give_the_text() {
    let mut l = cursor("(name \"some text\")");
    assert_eq!(l.pop_identifier("n").unwrap(), ("name".to_string(), at(0, 1)));
    assert_eq!(l.pop_string("s").unwrap(), ("some text".to_string(), at(0, 6)));
}

#[test]
fn pop_comment_gives_the_text() {
    let node = Node { ast: Ast::Comment(" note".to_string()), tokens: vec![] };
    let outer = Node { ast: Ast::List(vec![node]), tokens: vec![] };
    let mut l = list(&outer, "outer").unwrap();
    assert_eq!(l.pop_comment("c").unwrap(), " note");
    assert!(l.is_empty());
}

#[test]
fn pop_list_gives_a_cursor_anchored_at_the_inner_list() {
    let mut l = cursor("(a\n  (b c) d)");
    l.pop_identifier("a").unwrap();
    let mut inner = l.pop_list("inner").unwrap();
    assert_eq!(inner.location(), at(1, 2));
    assert_eq!(inner.to_string(), "(b c)");
    assert_eq!(inner.pop_identifier("b").unwrap().0, "b");
    assert_eq!(inner.pop_identifier("c").unwrap().0, "c");
    assert_eq!(failure(inner.pop_identifier("more")), ("Expected more".to_string(), at(1, 2)));
    assert_eq!(l.to_string(), "(d)");
}

#[test]
fn assert_empty_fails_at_the_next_value() {
    let mut l = cursor("(a  b)");
    assert_eq!(
        failure(l.assert_empty("pair")),
        ("Expected no more values for pair".to_string(), at(0, 1))
    );
    l.pop_identifier("a").unwrap();
    assert_eq!(
        failure(l.assert_empty("pair")),
        ("Expected no more values for pair".to_string(), at(0, 4))
    );
    l.pop_identifier("b").unwrap();
    assert_eq!(l.assert_empty("pair"), Ok(()));
    assert_eq!(cursor("()").assert_empty("nothing"), Ok(()));
}

#[test]
fn maybe_pop_takes_a_value_of_its_kind_only() {
    let mut l = cursor("(true 1 2.5 \"s\" x (y))");
    assert_eq!(l.maybe_pop_float("f").unwrap(), None);
    assert_eq!(l.maybe_pop_bool("b").unwrap(), Some((true, at(0, 1))));
    assert_eq!(l.maybe_pop_bool("b").unwrap(), None);
    assert_eq!(l.maybe_pop_integer("i").unwrap(), Some((1, at(0, 6))));
    assert_eq!(l.maybe_pop_integer("i").unwrap(), None);
    assert_eq!(l.to_string(), "(2.5 \"s\" x (y))");
    assert_eq!(
        l.maybe_pop_float("f").unwrap(),
        Some((Number::parse("2.5").unwrap(), at(0, 8)))
    );
    assert_eq!(l.maybe_pop_identifier("n").unwrap(), None);
    assert_eq!(l.maybe_pop_list("l").unwrap(), None);
    assert_eq!(l.maybe_pop_comment("c").unwrap(), None);
    assert_eq!(l.maybe_pop_string("s").unwrap(), Some(("s".to_string(), at(0, 12))));
    assert_eq!(l.maybe_pop_string("s").unwrap(), None);
    assert_eq!(l.maybe_pop_identifier("n").unwrap(), Some(("x".to_string(), at(0, 16))));
    let inner = l.maybe_pop_list("l").unwrap().unwrap();
    assert_eq!(inner.to_string(), "(y)");
    assert_eq!(inner.location(), at(0, 18));
    assert!(l.is_empty());
}

#[test]
fn maybe_pop_on_an_empty_cursor_gives_nothing() {
    let mut l = cursor("()");
    assert_eq!(l.maybe_pop_bool("b").unwrap(), None);
    assert_eq!(l.maybe_pop_comment("c").unwrap(), None);
    assert_eq!(l.maybe_pop_identifier("n").unwrap(), None);
    assert_eq!(l.maybe_pop_list("l").unwrap(), None);
    assert_eq!(l.maybe_pop_float("f").unwrap(), None);
    assert_eq!(l.maybe_pop_integer("i").unwrap(), None);
    assert_eq!(l.maybe_pop_string("s").unwrap(), None);
}

#[test]
fn maybe_pop_comment_takes_a_comment() {
    let note = Node { ast: Ast::Comment("n".to_string()), tokens: vec![] };
    let flag = Node { ast: Ast::Bool(false), tokens: vec![] };
    let outer = Node { ast: Ast::List(vec![note, flag]), tokens: vec![] };
    let mut l = list(&outer, "outer").unwrap();
    assert_eq!(l.maybe_pop_comment("c").unwrap(), Some("n".to_string()));
    assert_eq!(l.maybe_pop_comment("c").unwrap(), None);
    assert_eq!(l.pop_bool("b").unwrap(), (false, Location::default()));
}

#[test]
fn cloned_cursor_moves_on_its_own() {
    let mut l = cursor("(a b c)");
    let mut copy = l.clone();
    assert_eq!(copy, l);
    l.pop_identifier("a").unwrap();
    assert_eq!(l.to_string(), "(b c)");
    assert_eq!(copy.to_string(), "(a b c)");
    copy.pop_identifier("a").unwrap();
    copy.pop_identifier("b").unwrap();
    assert_eq!(copy.to_string(), "(c)");
    assert_eq!(l.to_string(), "(b c)");
}

#[test]
fn cursor_only_shrinks() {
    let mut l = cursor("(a 1 (b) \"c\")");
    let mut sizes = vec![];
    while !l.is_empty() {
        sizes.push(l.to_string().len());
        l.pop_front("value").unwrap();
    }
    assert_eq!(sizes, vec![13, 11, 9, 5]);
}

#[test]
fn list_of_a_node_that_is_none_fails_at_the_node() {
    let nodes = sexpr_reader::parser::Parser::parse(
        sexpr_reader::tokenizer::Tokenizer::tokenize(" x ()", None).unwrap(),
    )
    .unwrap();
    assert_eq!(failure(list(&nodes[0], "a list")), ("Expected a list".to_string(), at(0, 1)));
    let l = list(&nodes[1], "a list").unwrap();
    assert!(l.is_empty());
    assert_eq!(l.location(), at(0, 3));
}

#[test]
fn err_makes_a_failure_with_message_and_place() {
    let r: Result<u8, Error> = err("went wrong", &at(4, 2));
    let e = r.unwrap_err();
    assert_eq!(e.message, "went wrong");
    assert_eq!(e.location, at(4, 2));
}
