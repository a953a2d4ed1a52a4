use sexpr_reader::parse_str;

#[test]
fn display_list_empty() {
    let contents = "()";
    let list = parse_str(contents).unwrap().first().unwrap().clone();

    assert_eq!(list.to_string(), "()");
}

#[test]
fn display_list_flat() {
    let contents = "(+ 1 2)";
    let list = parse_str(contents).unwrap().first().unwrap().clone();

    assert_eq!(list.to_string(), "(+ 1 2)");
}

#[test]
fn display_list_nested() {
    let contents = "(+ 1 (* 2 3))";
    let list = parse_str(contents).unwrap().first().unwrap().clone();

    assert_eq!(list.to_string(), "(+ 1 (* 2 3))");
}

#[test]
fn display_list_comment() {
    let contents = "; Hello!\n(+ 1 (* 2 3))";
    let list = parse_str(contents).unwrap().first().unwrap().clone();

    assert_eq!(list.to_string(), "(+ 1 (* 2 3))");
}
