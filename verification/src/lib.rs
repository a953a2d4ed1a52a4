//! A reader for a small S-expression notation.
//!
//! Text is split into located tokens, the tokens are assembled into a forest
//! of nodes, and a list cursor lets callers take typed values off the front of
//! a list, failing with a message and the place in the text when the next
//! value is not what was asked for.

pub mod error;
pub mod list;
pub mod location;
pub mod node;
pub mod number;
pub mod parser;
pub mod reader;
pub mod round_trip;
pub mod text;
pub mod tokenizer;

pub use list::{err, list, List, ListView};
pub use location::Location;
pub use node::{write_nodes, Ast, AstType, AstView, Node, NodeError, NodeView};
pub use number::{Number, NumberView};
pub use reader::{parse_file, parse_optional_path, parse_str, parse_text, strip_comments};

use vstd::prelude::*;

verus! {

/// A failure to show to a user: a message and the place that it is about.
#[derive(Debug)]
pub struct Error {
    pub message: String,
    pub location: Location,
}

/// A failure as contracts see it: the message as characters, and the place.
pub struct ErrorView {
    pub message: Seq<char>,
    pub location: Location,
}

impl View for Error {
    type V = ErrorView;

    open spec fn view(&self) -> ErrorView {
        ErrorView { message: self.message@, location: self.location }
    }
}

impl Clone for Error {
    fn clone(&self) -> (r: Self)
        ensures
            r@ == self@,
    {
        Error { message: self.message.clone(), location: self.location.clone() }
    }
}

impl Error {
    /// A failure with the given message at the given place.
    pub fn new(message: String, location: Location) -> (r: Self)
        ensures
            r == (Error { message, location }),
    {
        Self { message, location }
    }

    /// The failure as it is shown to a user: the place, then the message.
    pub fn to_string(&self) -> (r: String)
        ensures
            r@ == error::located_text(self.location, self.message@),
    {
        error::located(&self.location, self.message.as_str())
    }
}

/// Two failures are equal where their messages are: the place says where, not
/// what.
impl PartialEq for Error {
    fn eq(&self, other: &Self) -> (r: bool) {
        self.message == other.message
    }
}

impl vstd::std_specs::cmp::PartialEqSpecImpl for Error {
    open spec fn obeys_eq_spec() -> bool {
        true
    }

    open spec fn eq_spec(&self, other: &Self) -> bool {
        self.message@ == other.message@
    }
}

/// A failure with a message and no place.
impl From<String> for Error {
    fn from(message: String) -> (r: Self) {
        Self { message, location: Location::default() }
    }
}

impl vstd::std_specs::convert::FromSpecImpl<String> for Error {
    open spec fn obeys_from_spec() -> bool {
        true
    }

    open spec fn from_spec(message: String) -> Self {
        Error { message, location: Location::origin() }
    }
}

/// A failure with a message and no place.
impl From<&str> for Error {
    fn from(message: &str) -> (r: Self)
        ensures
            r@ == (ErrorView { message: message@, location: Location::origin() }),
    {
        Self { message: message.to_owned(), location: Location::default() }
    }
}

impl vstd::std_specs::convert::FromSpecImpl<&str> for Error {
    open spec fn obeys_from_spec() -> bool {
        false
    }

    open spec fn from_spec(message: &str) -> Self {
        arbitrary()
    }
}

/// The failure as it is shown to a user: the place, then the message.
impl From<Error> for String {
    fn from(e: Error) -> (r: String)
        ensures
            r@ == error::located_text(e.location, e.message@),
    {
        e.to_string()
    }
}

impl vstd::std_specs::convert::FromSpecImpl<Error> for String {
    open spec fn obeys_from_spec() -> bool {
        false
    }

    open spec fn from_spec(e: Error) -> Self {
        arbitrary()
    }
}

} // verus!
