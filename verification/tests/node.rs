use sexpr_reader::location::Location;
use sexpr_reader::node::{Ast, AstType, Node, NodeError};
use sexpr_reader::number::Number;
use sexpr_reader::parser::Parser;
use sexpr_reader::tokenizer::Tokenizer;

fn read(text: &str) -> Node {
    let mut nodes = Parser::parse(Tokenizer::tokenize(text, None).unwrap()).unwrap();
    assert_eq!(nodes.len(), 1);
    nodes.remove(0)
}

fn at(line: usize, column: usize) -> Location {
    Location { line, column, path: None }
}

fn wrong(expected: AstType, got: AstType, location: Location) -> NodeError {
    NodeError::InvalidType { expected, got, location }
}

#[test]
fn node_written_out() {
    assert_eq!(read("true").to_string(), "true");
    assert_eq!(read("false").to_string(), "false");
    assert_eq!(read("12").to_string(), "12");
    assert_eq!(read("1.50").to_string(), "1.5");
    assert_eq!(read("-2.0").to_string(), "-2");
    assert_eq!(read("\"a b\"").to_string(), "\"a b\"");
    assert_eq!(read("\"a\\\"b\"").to_string(), "\"a\\\"b\"");
    assert_eq!(read("name").to_string(), "name");
    assert_eq!(read("; note").to_string(), "; note\n");
    assert_eq!(read("(  a   (b\n c)  \"d\"  )").to_string(), "(a (b c) \"d\")");
    assert_eq!(read("(())").to_string(), "(())");
}

#[test]
fn node_without_tokens_is_at_the_origin() {
    let node = Node { ast: Ast::Bool(true), tokens: vec![] };
    assert_eq!(node.first_location(), Location::default());
    assert_eq!(node.first_location(), at(0, 0));
}

#[test]
fn ast_types() {
    assert_eq!(read("true").ast.type_(), AstType::Bool);
    assert_eq!(read(";c").ast.type_(), AstType::Comment);
    assert_eq!(read("x").ast.type_(), AstType::Identifier);
    assert_eq!(read("()").ast.type_(), AstType::List);
    assert_eq!(read("1").ast.type_(), AstType::Number);
    assert_eq!(read("\"s\"").ast.type_(), AstType::String);
}

#[test]
fn only_a_comment_is_a_comment() {
    assert!(read(";c").is_comment());
    assert!(!read("c").is_comment());
    assert!(!read("(;c\n)").is_comment());
}

#[test]
fn as_bool_gives_the_value_or_both_types() {
    assert_eq!(read("true").as_bool(), Ok(true));
    assert_eq!(read("false").as_bool(), Ok(false));
    assert_eq!(read("  1").as_bool(), Err(wrong(AstType::Bool, AstType::Number, at(0, 2))));
}

#[test]
fn as_number_gives_the_value_or_both_types() {
    assert_eq!(read("2.5").as_number(), Ok(Number::parse("2.5").unwrap()));
    assert_eq!(
        read("\nx").as_number(),
        Err(wrong(AstType::Number, AstType::Identifier, at(1, 0)))
    );
}

#[test]
fn as_string_gives_the_value_or_both_types() {
    assert_eq!(read("\"s\"").as_string(), Ok("s".to_string()));
    assert_eq!(read("s").as_string(), Err(wrong(AstType::String, AstType::Identifier, at(0, 0))));
}

#[test]
fn as_identifier_gives_the_value_or_both_types() {
    assert_eq!(read("s").as_identifier(), Ok("s".to_string()));
    assert_eq!(
        read("\"s\"").as_identifier(),
        Err(wrong(AstType::Identifier, AstType::String, at(0, 0)))
    );
}

#[test]
fn as_comment_gives_the_value_or_both_types() {
    assert_eq!(read("; c").as_comment(), Ok(" c".to_string()));
    assert_eq!(read("()").as_comment(), Err(wrong(AstType::Comment, AstType::List, at(0, 0))));
}

#[test]
fn as_list_gives_the_children_or_both_types() {
    let node = read("(a (b) 3)");
    let children = node.as_list().unwrap();
    assert_eq!(children.len(), 3);
    assert_eq!(children[0], read(" a"));
    assert_eq!(children[1].to_string(), "(b)");
    assert_eq!(read("true").as_list(), Err(wrong(AstType::List, AstType::Bool, at(0, 0))));
}

#[test]
fn assert_length_counts_the_children() {
    let node = read(" (a b c)");
    assert_eq!(node.assert_length(3), Ok(()));
    assert_eq!(
        node.assert_length(2),
        Err(NodeError::InvalidLength { expected: 2, got: 3, location: at(0, 1) })
    );
    assert_eq!(read("()").assert_length(0), Ok(()));
    assert_eq!(read("x").assert_length(0), Err(wrong(AstType::List, AstType::Identifier, at(0, 0))));
}

#[test]
fn node_clone_is_the_same_node() {
    let node = read("(a (b 1.5 \"c\") true ;d\n)");
    assert_eq!(node.clone(), node);
    assert_eq!(node.clone().to_string(), node.to_string());
}
