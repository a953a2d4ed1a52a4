//! A cursor over the children of a list.
//!
//! Values are taken off the front, each by the kind that the caller expects.
//! Where the next value is of another kind the cursor fails at the place of
//! that value and stays as it was; where there is none it fails at the place
//! of the list itself.

use vstd::prelude::*;
use vstd::string::StringExecFns;
use crate::location::Location;
use crate::node::{clone_nodes, joined_text, lemma_list_view, node_views, push_joined, Ast, AstType,
    AstView, Node, NodeView};
use crate::number::Number;
use crate::{Error, ErrorView};

verus! {

/// The children of a list that are still to be taken, and the place of the
/// list.
#[derive(Debug, PartialEq)]
pub struct List {
    nodes: Vec<Node>,
    location: Location,
}

/// A cursor as contracts see it: the values still to be taken, and the place
/// of the list.
pub struct ListView {
    pub nodes: Seq<NodeView>,
    pub location: Location,
}

impl View for List {
    type V = ListView;

    closed spec fn view(&self) -> ListView {
        ListView { nodes: node_views(self.nodes@), location: self.location }
    }
}

impl Clone for List {
    fn clone(&self) -> (r: Self)
        ensures
            r@ == self@,
    {
        List { nodes: clone_nodes(&self.nodes), location: self.location.clone() }
    }
}

/// The message of a value that is missing or of another kind.
pub open spec fn expected_text(msg: Seq<char>) -> Seq<char> {
    "Expected "@ + msg
}

/// The message of a number that is no integer.
pub open spec fn expected_int_text(msg: Seq<char>) -> Seq<char> {
    "Expected an int for "@ + msg
}

/// The message of a value that should not be there.
pub open spec fn expected_end_text(msg: Seq<char>) -> Seq<char> {
    "Expected no more values for "@ + msg
}

impl ListView {
    /// The next value is of the given kind.
    pub open spec fn front_is(self, kind: AstType) -> bool {
        self.nodes.len() > 0 && self.nodes[0].ast.type_() == kind
    }

    /// The next value is a number without a fraction.
    pub open spec fn front_is_integer(self) -> bool {
        &&& self.nodes.len() > 0
        &&& self.nodes[0].ast matches AstView::Number(n)
        &&& !n.has_fraction()
    }

    /// The cursor after one value was taken.
    pub open spec fn rest(self) -> ListView {
        ListView { nodes: self.nodes.drop_first(), location: self.location }
    }

    /// The place that a failure points at: that of the next value, or that
    /// of the list where there is none.
    pub open spec fn failure_location(self) -> Location {
        if self.nodes.len() == 0 {
            self.location
        } else {
            self.nodes[0].first_location()
        }
    }

    /// The failure of taking a value that is missing or of another kind.
    pub open spec fn failure(self, msg: Seq<char>) -> ErrorView {
        ErrorView { message: expected_text(msg), location: self.failure_location() }
    }

    /// The remaining values written out between parentheses.
    pub open spec fn text(self) -> Seq<char> {
        seq!['('] + joined_text(self.nodes) + seq![')']
    }
}

/// The cursor over the children of `node`, or what taking a list from
/// `node` fails with.
pub open spec fn list_of(node: NodeView, msg: Seq<char>) -> Result<ListView, ErrorView> {
    match node.ast {
        AstView::List(children) => Ok(
            ListView { nodes: children, location: node.first_location() },
        ),
        _ => Err(ErrorView { message: expected_text(msg), location: node.first_location() }),
    }
}

/// Whether a result agrees with what it should be.
pub open spec fn list_agrees(r: Result<List, Error>, expected: Result<ListView, ErrorView>) -> bool {
    match (r, expected) {
        (Ok(l), Ok(v)) => l@ == v,
        (Err(e), Err(v)) => e@ == v,
        _ => false,
    }
}

/// The message of a value that is missing or of another kind.
fn expected(msg: &str) -> (r: String)
    ensures
        r@ == expected_text(msg@),
{
    String::from_str("Expected ").concat(msg)
}

/// A cursor over the children of `node`, which must be a list.
pub fn list(node: &Node, msg: &str) -> (r: Result<List, Error>)
    ensures
        list_agrees(r, list_of(node@, msg@)),
{
    match &node.ast {
        Ast::List(children) => {
            proof {
                lemma_list_view(node.ast);
            }
            Ok(List { nodes: clone_nodes(children), location: node.first_location() })
        },
        _ => err(expected(msg).as_str(), &node.first_location()),
    }
}

/// A failure with the given message and place.
pub fn err<T>(contents: &str, l: &Location) -> (r: Result<T, Error>)
    ensures
        r matches Err(e) && e@ == (ErrorView { message: contents@, location: *l }),
{
    Err(Error { message: contents.to_owned(), location: l.clone() })
}

impl List {
    /// The place of the list that the cursor was made from.
    pub fn location(&self) -> (r: Location)
        ensures
            r == self@.location,
    {
        self.location.clone()
    }

    /// The next value, if there is one.
    pub fn peek_front(&self) -> (r: Option<&Node>)
        ensures
            match r {
                Some(node) => self@.nodes.len() > 0 && node@ == self@.nodes[0],
                None => self@.nodes.len() == 0,
            },
    {
        if self.nodes.len() == 0 {
            None
        } else {
            Some(&self.nodes[0])
        }
    }

    /// Whether the next value is a list.
    pub fn front_is_list(&self) -> (r: bool)
        ensures
            r == self@.front_is(AstType::List),
    {
        match self.peek_front() {
            Some(n) => match &n.ast {
                Ast::List(_) => true,
                _ => false,
            },
            None => false,
        }
    }

    /// Takes the next value, whatever its kind.
    pub fn pop_front(&mut self, msg: &str) -> (r: Result<Node, Error>)
        ensures
            match r {
                Ok(node) => {
                    &&& old(self)@.nodes.len() > 0
                    &&& node@ == old(self)@.nodes[0]
                    &&& final(self)@ == old(self)@.rest()
                },
                Err(e) => {
                    &&& old(self)@.nodes.len() == 0
                    &&& e@ == old(self)@.failure(msg@)
                    &&& final(self)@ == old(self)@
                },
            },
    {
        if self.nodes.len() == 0 {
            err(expected(msg).as_str(), &self.location)
        } else {
            let node = self.nodes.remove(0);
            assert(node_views(self.nodes@) =~= node_views(old(self).nodes@).drop_first());
            Ok(node)
        }
    }

    /// Whether every value was taken.
    pub fn is_empty(&self) -> (r: bool)
        ensures
            r == (self@.nodes.len() == 0),
    {
        self.nodes.len() == 0
    }

    /// Checks that no value is left.
    pub fn assert_empty(&self, msg: &str) -> (r: Result<(), Error>)
        ensures
            r is Ok <==> self@.nodes.len() == 0,
            r matches Err(e) ==> e@ == (ErrorView {
                message: expected_end_text(msg@),
                location: self@.nodes[0].first_location(),
            }),
    {
        match self.peek_front() {
            Some(n) => {
                let message = String::from_str("Expected no more values for ").concat(msg);
                err(message.as_str(), &n.first_location())
            },
            None => Ok(()),
        }
    }

    /// What a failed take of a value of another kind, or of none, returns.
    fn fail<T>(&self, msg: &str) -> (r: Result<T, Error>)
        ensures
            r matches Err(e) && e@ == self@.failure(msg@),
    {
        match self.peek_front() {
            Some(n) => err(expected(msg).as_str(), &n.first_location()),
            None => err(expected(msg).as_str(), &self.location),
        }
    }

    /// Removes the next value and gives its place.
    fn take_front(&mut self) -> (r: Location)
        requires
            old(self)@.nodes.len() > 0,
        ensures
            r == old(self)@.nodes[0].first_location(),
            final(self)@ == old(self)@.rest(),
    {
        let node = self.nodes.remove(0);
        assert(node_views(self.nodes@) =~= node_views(old(self).nodes@).drop_first());
        node.first_location()
    }

    /// Takes the next value, which must be a boolean.
    pub fn pop_bool(&mut self, msg: &str) -> (r: Result<(bool, Location), Error>)
        ensures
            match r {
                Ok((value, location)) => {
                    &&& old(self)@.nodes.len() > 0
                    &&& old(self)@.nodes[0].ast == AstView::Bool(value)
                    &&& location == old(self)@.nodes[0].first_location()
                    &&& final(self)@ == old(self)@.rest()
                },
                Err(e) => {
                    &&& !old(self)@.front_is(AstType::Bool)
                    &&& e@ == old(self)@.failure(msg@)
                    &&& final(self)@ == old(self)@
                },
            },
    {
        let found = match self.peek_front() {
            Some(n) => match &n.ast {
                Ast::Bool(b) => Some(*b),
                _ => None,
            },
            None => None,
        };
        match found {
            Some(value) => Ok((value, self.take_front())),
            None => self.fail(msg),
        }
    }

    /// Takes the next value, which must be a comment.
    pub fn pop_comment(&mut self, msg: &str) -> (r: Result<String, Error>)
        ensures
            match r {
                Ok(value) => {
                    &&& old(self)@.nodes.len() > 0
                    &&& old(self)@.nodes[0].ast == AstView::Comment(value@)
                    &&& final(self)@ == old(self)@.rest()
                },
                Err(e) => {
                    &&& !old(self)@.front_is(AstType::Comment)
                    &&& e@ == old(self)@.failure(msg@)
                    &&& final(self)@ == old(self)@
                },
            },
    {
        let found = match self.peek_front() {
            Some(n) => match &n.ast {
                Ast::Comment(s) => Some(s.clone()),
                _ => None,
            },
            None => None,
        };
        match found {
            Some(value) => {
                let _ = self.take_front();
                Ok(value)
            },
            None => self.fail(msg),
        }
    }

    /// Takes the next value, which must be an identifier.
    pub fn pop_identifier(&mut self, msg: &str) -> (r: Result<(String, Location), Error>)
        ensures
            match r {
                Ok((value, location)) => {
                    &&& old(self)@.nodes.len() > 0
                    &&& old(self)@.nodes[0].ast == AstView::Identifier(value@)
                    &&& location == old(self)@.nodes[0].first_location()
                    &&& final(self)@ == old(self)@.rest()
                },
                Err(e) => {
                    &&& !old(self)@.front_is(AstType::Identifier)
                    &&& e@ == old(self)@.failure(msg@)
                    &&& final(self)@ == old(self)@
                },
            },
    {
        let found = match self.peek_front() {
            Some(n) => match &n.ast {
                Ast::Identifier(s) => Some(s.clone()),
                _ => None,
            },
            None => None,
        };
        match found {
            Some(value) => Ok((value, self.take_front())),
            None => self.fail(msg),
        }
    }

    /// Takes the next value, which must be a list, as a cursor of its own.
    pub fn pop_list(&mut self, msg: &str) -> (r: Result<List, Error>)
        ensures
            match r {
                Ok(inner) => {
                    &&& old(self)@.nodes.len() > 0
                    &&& list_of(old(self)@.nodes[0], msg@) == Ok::<ListView, ErrorView>(inner@)
                    &&& final(self)@ == old(self)@.rest()
                },
                Err(e) => {
                    &&& !old(self)@.front_is(AstType::List)
                    &&& e@ == old(self)@.failure(msg@)
                    &&& final(self)@ == old(self)@
                },
            },
    {
        let found = match self.peek_front() {
            Some(n) => match &n.ast {
                Ast::List(_) => match list(n, msg) {
                    Ok(inner) => Some(inner),
                    Err(_) => None,
                },
                _ => None,
            },
            None => None,
        };
        match found {
            Some(inner) => {
                let _ = self.take_front();
                Ok(inner)
            },
            None => self.fail(msg),
        }
    }

    /// Takes the next value, which must be a number.
    pub fn pop_float(&mut self, msg: &str) -> (r: Result<(Number, Location), Error>)
        ensures
            match r {
                Ok((value, location)) => {
                    &&& old(self)@.nodes.len() > 0
                    &&& old(self)@.nodes[0].ast == AstView::Number(value@)
                    &&& location == old(self)@.nodes[0].first_location()
                    &&& final(self)@ == old(self)@.rest()
                },
                Err(e) => {
                    &&& !old(self)@.front_is(AstType::Number)
                    &&& e@ == old(self)@.failure(msg@)
                    &&& final(self)@ == old(self)@
                },
            },
    {
        let found = match self.peek_front() {
            Some(n) => match &n.ast {
                Ast::Number(value) => Some(value.clone()),
                _ => None,
            },
            None => None,
        };
        match found {
            Some(value) => Ok((value, self.take_front())),
            None => self.fail(msg),
        }
    }

    /// Takes the next value, which must be a number without a fraction. A
    /// number too large for an `i64` comes out as the nearest `i64`.
    pub fn pop_integer(&mut self, msg: &str) -> (r: Result<(i64, Location), Error>)
        ensures
            match r {
                Ok((value, location)) => {
                    &&& old(self)@.front_is_integer()
                    &&& value == old(self)@.nodes[0].ast->Number_0.to_i64()
                    &&& location == old(self)@.nodes[0].first_location()
                    &&& final(self)@ == old(self)@.rest()
                },
                Err(e) => {
                    &&& !old(self)@.front_is_integer()
                    &&& e@ == if old(self)@.front_is(AstType::Number) {
                        ErrorView {
                            message: expected_int_text(msg@),
                            location: old(self)@.nodes[0].first_location(),
                        }
                    } else {
                        old(self)@.failure(msg@)
                    }
                    &&& final(self)@ == old(self)@
                },
            },
    {
        let found = match self.peek_front() {
            Some(n) => match &n.ast {
                Ast::Number(value) => if value.has_fraction() {
                    let message = String::from_str("Expected an int for ").concat(msg);
                    Some(err(message.as_str(), &n.first_location()))
                } else {
                    Some(Ok(value.to_i64()))
                },
                _ => None,
            },
            None => None,
        };
        match found {
            Some(Ok(value)) => Ok((value, self.take_front())),
            Some(Err(e)) => Err(e),
            None => self.fail(msg),
        }
    }

    /// Takes the next value, which must be a string.
    pub fn pop_string(&mut self, msg: &str) -> (r: Result<(String, Location), Error>)
        ensures
            match r {
                Ok((value, location)) => {
                    &&& old(self)@.nodes.len() > 0
                    &&& old(self)@.nodes[0].ast == AstView::String(value@)
                    &&& location == old(self)@.nodes[0].first_location()
                    &&& final(self)@ == old(self)@.rest()
                },
                Err(e) => {
                    &&& !old(self)@.front_is(AstType::String)
                    &&& e@ == old(self)@.failure(msg@)
                    &&& final(self)@ == old(self)@
                },
            },
    {
        let found = match self.peek_front() {
            Some(n) => match &n.ast {
                Ast::String(s) => Some(s.clone()),
                _ => None,
            },
            None => None,
        };
        match found {
            Some(value) => Ok((value, self.take_front())),
            None => self.fail(msg),
        }
    }

    /// Whether the next value is of the given kind.
    fn front_is(&self, kind: AstType) -> (r: bool)
        ensures
            r == self@.front_is(kind),
    {
        match self.peek_front() {
            Some(n) => n.ast.type_() == kind,
            None => false,
        }
    }

    /// Takes the next value if it is a boolean; takes nothing otherwise.
    pub fn maybe_pop_bool(&mut self, msg: &str) -> (r: Result<Option<(bool, Location)>, Error>)
        ensures
            match r {
                Ok(Some((value, location))) => {
                    &&& old(self)@.nodes.len() > 0
                    &&& old(self)@.nodes[0].ast == AstView::Bool(value)
                    &&& location == old(self)@.nodes[0].first_location()
                    &&& final(self)@ == old(self)@.rest()
                },
                Ok(None) => !old(self)@.front_is(AstType::Bool) && final(self)@ == old(self)@,
                Err(_) => false,
            },
    {
        if self.front_is(AstType::Bool) {
            match self.pop_bool(msg) {
                Ok(value) => Ok(Some(value)),
                Err(e) => Err(e),
            }
        } else {
            Ok(None)
        }
    }

    /// Takes the next value if it is a comment; takes nothing otherwise.
    pub fn maybe_pop_comment(&mut self, msg: &str) -> (r: Result<Option<String>, Error>)
        ensures
            match r {
                Ok(Some(value)) => {
                    &&& old(self)@.nodes.len() > 0
                    &&& old(self)@.nodes[0].ast == AstView::Comment(value@)
                    &&& final(self)@ == old(self)@.rest()
                },
                Ok(None) => !old(self)@.front_is(AstType::Comment) && final(self)@ == old(self)@,
                Err(_) => false,
            },
    {
        if self.front_is(AstType::Comment) {
            match self.pop_comment(msg) {
                Ok(value) => Ok(Some(value)),
                Err(e) => Err(e),
            }
        } else {
            Ok(None)
        }
    }

    /// Takes the next value if it is an identifier; takes nothing otherwise.
    pub fn maybe_pop_identifier(&mut self, msg: &str) -> (r: Result<Option<(String, Location)>, Error>)
        ensures
            match r {
                Ok(Some((value, location))) => {
                    &&& old(self)@.nodes.len() > 0
                    &&& old(self)@.nodes[0].ast == AstView::Identifier(value@)
                    &&& location == old(self)@.nodes[0].first_location()
                    &&& final(self)@ == old(self)@.rest()
                },
                Ok(None) => !old(self)@.front_is(AstType::Identifier) && final(self)@ == old(self)@,
                Err(_) => false,
            },
    {
        if self.front_is(AstType::Identifier) {
            match self.pop_identifier(msg) {
                Ok(value) => Ok(Some(value)),
                Err(e) => Err(e),
            }
        } else {
            Ok(None)
        }
    }

    /// Takes the next value if it is a list; takes nothing otherwise.
    pub fn maybe_pop_list(&mut self, msg: &str) -> (r: Result<Option<List>, Error>)
        ensures
            match r {
                Ok(Some(inner)) => {
                    &&& old(self)@.nodes.len() > 0
                    &&& list_of(old(self)@.nodes[0], msg@) == Ok::<ListView, ErrorView>(inner@)
                    &&& final(self)@ == old(self)@.rest()
                },
                Ok(None) => !old(self)@.front_is(AstType::List) && final(self)@ == old(self)@,
                Err(_) => false,
            },
    {
        if self.front_is(AstType::List) {
            match self.pop_list(msg) {
                Ok(value) => Ok(Some(value)),
                Err(e) => Err(e),
            }
        } else {
            Ok(None)
        }
    }

    /// Takes the next value if it is a number; takes nothing otherwise.
    pub fn maybe_pop_float(&mut self, msg: &str) -> (r: Result<Option<(Number, Location)>, Error>)
        ensures
            match r {
                Ok(Some((value, location))) => {
                    &&& old(self)@.nodes.len() > 0
                    &&& old(self)@.nodes[0].ast == AstView::Number(value@)
                    &&& location == old(self)@.nodes[0].first_location()
                    &&& final(self)@ == old(self)@.rest()
                },
                Ok(None) => !old(self)@.front_is(AstType::Number) && final(self)@ == old(self)@,
                Err(_) => false,
            },
    {
        if self.front_is(AstType::Number) {
            match self.pop_float(msg) {
                Ok(value) => Ok(Some(value)),
                Err(e) => Err(e),
            }
        } else {
            Ok(None)
        }
    }

    /// Takes the next value if it is a number without a fraction; takes
    /// nothing otherwise.
    pub fn maybe_pop_integer(&mut self, msg: &str) -> (r: Result<Option<(i64, Location)>, Error>)
        ensures
            match r {
                Ok(Some((value, location))) => {
                    &&& old(self)@.front_is_integer()
                    &&& value == old(self)@.nodes[0].ast->Number_0.to_i64()
                    &&& location == old(self)@.nodes[0].first_location()
                    &&& final(self)@ == old(self)@.rest()
                },
                Ok(None) => !old(self)@.front_is_integer() && final(self)@ == old(self)@,
                Err(_) => false,
            },
    {
        let is_integer = match self.peek_front() {
            Some(n) => match &n.ast {
                Ast::Number(value) => !value.has_fraction(),
                _ => false,
            },
            None => false,
        };
        if is_integer {
            match self.pop_integer(msg) {
                Ok(value) => Ok(Some(value)),
                Err(e) => Err(e),
            }
        } else {
            Ok(None)
        }
    }

    /// Takes the next value if it is a string; takes nothing otherwise.
    pub fn maybe_pop_string(&mut self, msg: &str) -> (r: Result<Option<(String, Location)>, Error>)
        ensures
            match r {
                Ok(Some((value, location))) => {
                    &&& old(self)@.nodes.len() > 0
                    &&& old(self)@.nodes[0].ast == AstView::String(value@)
                    &&& location == old(self)@.nodes[0].first_location()
                    &&& final(self)@ == old(self)@.rest()
                },
                Ok(None) => !old(self)@.front_is(AstType::String) && final(self)@ == old(self)@,
                Err(_) => false,
            },
    {
        if self.front_is(AstType::String) {
            match self.pop_string(msg) {
                Ok(value) => Ok(Some(value)),
                Err(e) => Err(e),
            }
        } else {
            Ok(None)
        }
    }

    /// The remaining values written out between parentheses.
    pub fn to_string(&self) -> (r: String)
        ensures
            r@ == self@.text(),
    {
        let mut out = String::new();
        out.push('(');
        push_joined(&self.nodes, &mut out);
        out.push(')');
        out
    }
}

} // verus!
