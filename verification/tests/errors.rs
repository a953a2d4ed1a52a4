use std::path::PathBuf;

use sexpr_reader::error::{located, Describe};
use sexpr_reader::location::Location;
use sexpr_reader::parser::{ListErr, ParserErr};
use sexpr_reader::tokenizer::{CommentErr, TokenErr};
use sexpr_reader::Error;

#[test]
fn location_starts_at_the_origin() {
    assert_eq!(Location::new(None), Location { line: 0, column: 0, path: None });
    let path = PathBuf::from("a.lisp");
    assert_eq!(
        Location::new(Some(path.clone())),
        Location { line: 0, column: 0, path: Some(path) }
    );
    assert_eq!(Location::default(), Location::new(None));
}

#[test]
fn increment_line_moves_one_line_down() {
    let start = Location { line: 3, column: 9, path: Some(PathBuf::from("p")) };
    let moved = start.clone().increment_line();
    assert_eq!(moved, Location { line: 4, column: 9, path: Some(PathBuf::from("p")) });
    assert_eq!(Location::new(None).increment_line().increment_line().line, 2);
}

#[test]
fn location_at_line_and_column() {
    let path = Some(PathBuf::from("p"));
    assert_eq!(Location::at(2, 5, &path), Location { line: 2, column: 5, path });
}

#[test]
fn error_new_keeps_message_and_place() {
    let place = Location { line: 1, column: 2, path: None };
    let e = Error::new("boom".to_string(), place.clone());
    assert_eq!(e.message, "boom");
    assert_eq!(e.location, place);
}

#[test]
fn error_from_a_message_has_no_place() {
    let e = Error::from("boom".to_string());
    assert_eq!(e.message, "boom");
    assert_eq!(e.location, Location::default());
    let e: Error = "bang".into();
    assert_eq!(e.message, "bang");
    assert_eq!(e.location, Location::default());
}

#[test]
fn error_equality_looks_at_the_message_only() {
    let here = Location { line: 1, column: 2, path: None };
    let there = Location { line: 7, column: 0, path: Some(PathBuf::from("f")) };
    assert_eq!(Error::new("m".to_string(), here.clone()), Error::new("m".to_string(), there));
    assert_ne!(Error::new("m".to_string(), here.clone()), Error::new("n".to_string(), here));
}

#[test]
fn error_is_shown_with_its_place() {
    let e = Error::new("boom".to_string(), Location { line: 12, column: 0, path: None });
    assert_eq!(e.to_string(), "12:0: boom");
    let s: String = e.into();
    assert_eq!(s, "12:0: boom");
}

#[test]
fn error_is_shown_with_its_path() {
    let place = Location { line: 3, column: 104, path: Some(PathBuf::from("src/main.lisp")) };
    let e = Error::new("boom".to_string(), place);
    assert_eq!(e.to_string(), "src/main.lisp:3:104: boom");
    let s: String = e.clone().into();
    assert_eq!(s, "src/main.lisp:3:104: boom");
    assert_eq!(e.clone(), e);
    assert_eq!(e.clone().location, e.location);
}

#[test]
fn located_puts_the_place_in_front() {
    assert_eq!(located(&Location::default(), "m"), "0:0: m");
    let place = Location { line: 10, column: 9, path: Some(PathBuf::from("x y")) };
    assert_eq!(located(&place, ""), "x y:10:9: ");
    let far = Location { line: usize::MAX, column: 1000, path: None };
    assert_eq!(located(&far, "m"), format!("{}:1000: m", usize::MAX));
}

#[test]
fn stage_error_is_shown_with_its_place() {
    let e = sexpr_reader::error::Error {
        kind: ParserErr::List(ListErr::UnclosedList),
        location: Location { line: 2, column: 4, path: Some(PathBuf::from("f.lisp")) },
    };
    assert_eq!(e.to_string(), "f.lisp:2:4: Unclosed list");
    let e = sexpr_reader::error::Error {
        kind: TokenErr::Comment(CommentErr::NotStarted),
        location: Location { line: 0, column: 40, path: None },
    };
    assert_eq!(e.to_string(), "0:40: Comment not started");
    assert_eq!(e.kind.describe(), "Comment not started");
}
