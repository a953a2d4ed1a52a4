//! The tree that a text is read into.

use vstd::prelude::*;
use vstd::string::StringExecFns;
use crate::location::Location;
use crate::number::{Number, NumberView};
use crate::tokenizer::{token_views, Token, TokenView};

verus! {

/// The variant of a node, without its value.
#[derive(Debug, Clone, Copy, PartialEq, Eq, Structural)]
pub enum AstType {
    Bool,
    Comment,
    Identifier,
    List,
    Number,
    String,
}

/// Why a node could not be read as what the caller asked for.
#[derive(Debug, Clone, PartialEq)]
pub enum NodeError {
    InvalidType { expected: AstType, got: AstType, location: Location },
    InvalidLength { expected: usize, got: usize, location: Location },
}

/// The value of a node.
#[derive(Debug, PartialEq)]
pub enum Ast {
    Bool(bool),
    Comment(String),
    Identifier(String),
    List(Vec<Node>),
    Number(Number),
    String(String),
}

/// A value and the tokens it was read from.
#[derive(Debug, PartialEq)]
pub struct Node {
    pub ast: Ast,
    pub tokens: Vec<Token>,
}

/// A value as contracts see it: text as characters, children as their views.
pub enum AstView {
    Bool(bool),
    Comment(Seq<char>),
    Identifier(Seq<char>),
    List(Seq<NodeView>),
    Number(NumberView),
    String(Seq<char>),
}

/// A node as contracts see it.
pub struct NodeView {
    pub ast: AstView,
    pub tokens: Seq<TokenView>,
}

impl View for Ast {
    type V = AstView;

    open spec fn view(&self) -> AstView
        decreases self,
    {
        match self {
            Ast::Bool(b) => AstView::Bool(*b),
            Ast::Comment(s) => AstView::Comment(s@),
            Ast::Identifier(s) => AstView::Identifier(s@),
            Ast::List(v) => AstView::List(
                Seq::new(
                    v@.len(),
                    |i: int|
                        if 0 <= i < v@.len() {
                            v@[i]@
                        } else {
                            arbitrary()
                        },
                ),
            ),
            Ast::Number(n) => AstView::Number(n@),
            Ast::String(s) => AstView::String(s@),
        }
    }
}

impl View for Node {
    type V = NodeView;

    open spec fn view(&self) -> NodeView
        decreases self,
    {
        NodeView { ast: self.ast@, tokens: token_views(self.tokens@) }
    }
}

/// The views of a run of nodes.
pub open spec fn node_views(nodes: Seq<Node>) -> Seq<NodeView> {
    nodes.map_values(|n: Node| n@)
}

/// The view of a list is the views of its children.
pub proof fn lemma_list_view(a: Ast)
    requires
        a is List,
    ensures
        a@ == AstView::List(node_views(a->List_0@)),
{
    assert(a@->List_0 =~= node_views(a->List_0@));
}

impl AstView {
    /// The variant of the value.
    pub open spec fn type_(self) -> AstType {
        match self {
            AstView::Bool(_) => AstType::Bool,
            AstView::Comment(_) => AstType::Comment,
            AstView::Identifier(_) => AstType::Identifier,
            AstView::List(_) => AstType::List,
            AstView::Number(_) => AstType::Number,
            AstView::String(_) => AstType::String,
        }
    }

    /// The value written out: `true` or `false`; a number in decimal
    /// notation; a string between quotes; an identifier as it is; a comment
    /// behind `;` and before a newline; a list between parentheses, its
    /// children separated by one space.
    pub open spec fn text(self) -> Seq<char>
        decreases self,
    {
        match self {
            AstView::Bool(b) => if b {
                seq!['t', 'r', 'u', 'e']
            } else {
                seq!['f', 'a', 'l', 's', 'e']
            },
            AstView::Comment(s) => seq![';'] + s + seq!['\n'],
            AstView::Identifier(s) => s,
            AstView::List(v) => seq!['('] + joined_text(v) + seq![')'],
            AstView::Number(n) => n.text(),
            AstView::String(s) => seq!['"'] + s + seq!['"'],
        }
    }
}

/// The nodes written out one after the other, with one space between two.
pub open spec fn joined_text(nodes: Seq<NodeView>) -> Seq<char>
    decreases nodes,
{
    if nodes.len() == 0 {
        Seq::empty()
    } else if nodes.len() == 1 {
        nodes[0].ast.text()
    } else {
        joined_text(nodes.drop_last()) + seq![' '] + nodes.last().ast.text()
    }
}

impl NodeView {
    /// The place of the first token, or the origin where the node has none.
    pub open spec fn first_location(self) -> Location {
        if self.tokens.len() == 0 {
            Location::origin()
        } else {
            self.tokens[0].location
        }
    }

    /// The failure of reading this node as an `expected`.
    pub open spec fn wrong_type(self, expected: AstType) -> NodeError {
        NodeError::InvalidType {
            expected,
            got: self.ast.type_(),
            location: self.first_location(),
        }
    }

    /// The node written out.
    pub open spec fn text(self) -> Seq<char> {
        self.ast.text()
    }
}

impl Ast {
    /// The variant of the value.
    pub fn type_(&self) -> (r: AstType)
        ensures
            r == self@.type_(),
    {
        match self {
            Ast::Bool(_) => AstType::Bool,
            Ast::Comment(_) => AstType::Comment,
            Ast::Identifier(_) => AstType::Identifier,
            Ast::List(_) => AstType::List,
            Ast::Number(_) => AstType::Number,
            Ast::String(_) => AstType::String,
        }
    }
}

/// A copy of each token.
pub fn clone_tokens(tokens: &Vec<Token>) -> (r: Vec<Token>)
    ensures
        token_views(r@) == token_views(tokens@),
{
    let mut out: Vec<Token> = Vec::new();
    let mut i: usize = 0;
    while i < tokens.len()
        invariant
            i <= tokens.len(),
            token_views(out@) == token_views(tokens@).take(i as int),
        decreases tokens.len() - i,
    {
        let t = tokens[i].clone();
        out.push(t);
        assert(token_views(tokens@).take(i + 1) =~= token_views(tokens@).take(i as int).push(
            tokens@[i as int]@,
        ));
        i += 1;
    }
    out
}

/// A copy of each node.
pub fn clone_nodes(nodes: &Vec<Node>) -> (r: Vec<Node>)
    ensures
        node_views(r@) == node_views(nodes@),
    decreases nodes,
{
    let mut out: Vec<Node> = Vec::new();
    let mut i: usize = 0;
    while i < nodes.len()
        invariant
            i <= nodes.len(),
            node_views(out@) == node_views(nodes@).take(i as int),
        decreases nodes.len() - i,
    {
        let n = nodes[i].clone();
        out.push(n);
        assert(node_views(nodes@).take(i + 1) =~= node_views(nodes@).take(i as int).push(
            nodes@[i as int]@,
        ));
        i += 1;
    }
    out
}

impl Clone for Ast {
    fn clone(&self) -> (r: Self)
        ensures
            r@ == self@,
        decreases self,
    {
        match self {
            Ast::Bool(b) => Ast::Bool(*b),
            Ast::Comment(s) => Ast::Comment(s.clone()),
            Ast::Identifier(s) => Ast::Identifier(s.clone()),
            Ast::List(v) => {
                let copy = Ast::List(clone_nodes(v));
                proof {
                    lemma_list_view(copy);
                    lemma_list_view(*self);
                }
                copy
            },
            Ast::Number(n) => Ast::Number(n.clone()),
            Ast::String(s) => Ast::String(s.clone()),
        }
    }
}

impl Clone for Node {
    fn clone(&self) -> (r: Self)
        ensures
            r@ == self@,
        decreases self,
    {
        Node { ast: self.ast.clone(), tokens: clone_tokens(&self.tokens) }
    }
}

/// Appends the nodes written out, with one space between two.
pub fn push_joined(nodes: &Vec<Node>, out: &mut String)
    ensures
        final(out)@ == old(out)@ + joined_text(node_views(nodes@)),
    decreases nodes,
{
    let ghost views = node_views(nodes@);
    let mut i: usize = 0;
    while i < nodes.len()
        invariant
            i <= nodes.len(),
            views == node_views(nodes@),
            out@ == old(out)@ + joined_text(views.take(i as int)),
        decreases nodes.len() - i,
    {
        if i != 0 {
            out.push(' ');
        }
        nodes[i].ast.push_text(out);
        proof {
            let now = views.take(i + 1);
            assert(now.drop_last() =~= views.take(i as int));
        }
        i += 1;
    }
    assert(views.take(nodes.len() as int) =~= views);
}

/// The nodes written out, with one space between two.
pub fn write_nodes(nodes: &Vec<Node>) -> (r: String)
    ensures
        r@ == joined_text(node_views(nodes@)),
{
    let mut out = String::new();
    push_joined(nodes, &mut out);
    out
}

impl Ast {
    /// Appends the value written out.
    pub fn push_text(&self, out: &mut String)
        ensures
            final(out)@ == old(out)@ + self@.text(),
        decreases self,
    {
        match self {
            Ast::Bool(b) => {
                if *b {
                    out.append("true");
                    proof {
                        reveal_strlit("true");
                    }
                } else {
                    out.append("false");
                    proof {
                        reveal_strlit("false");
                    }
                }
            },
            Ast::Comment(s) => {
                out.push(';');
                out.append(s.as_str());
                out.push('\n');
            },
            Ast::Identifier(s) => {
                out.append(s.as_str());
            },
            Ast::List(v) => {
                proof {
                    lemma_list_view(*self);
                }
                out.push('(');
                push_joined(v, out);
                out.push(')');
            },
            Ast::Number(n) => {
                n.push_text(out);
            },
            Ast::String(s) => {
                out.push('"');
                out.append(s.as_str());
                out.push('"');
            },
        }
    }
}

impl Node {
    /// The place where the node begins: that of its first token, or the
    /// origin where it has none.
    pub fn first_location(&self) -> (r: Location)
        ensures
            r == self@.first_location(),
    {
        if self.tokens.len() == 0 {
            Location::default()
        } else {
            self.tokens[0].location.clone()
        }
    }

    /// Whether the node is a comment.
    pub fn is_comment(&self) -> (r: bool)
        ensures
            r == (self@.ast is Comment),
    {
        match &self.ast {
            Ast::Comment(_) => true,
            _ => false,
        }
    }

    /// The failure of reading this node as an `expected`.
    fn wrong_type(&self, expected: AstType) -> (r: NodeError)
        ensures
            r == self@.wrong_type(expected),
    {
        NodeError::InvalidType {
            expected,
            got: self.ast.type_(),
            location: self.first_location(),
        }
    }

    /// Checks that the node is a list of `expected` children.
    pub fn assert_length(&self, expected: usize) -> (r: Result<(), NodeError>)
        ensures
            match self@.ast {
                AstView::List(children) => if children.len() == expected {
                    r is Ok
                } else {
                    r == Err::<(), NodeError>(
                        NodeError::InvalidLength {
                            expected,
                            got: children.len() as usize,
                            location: self@.first_location(),
                        },
                    )
                },
                _ => r == Err::<(), NodeError>(self@.wrong_type(AstType::List)),
            },
    {
        match &self.ast {
            Ast::List(children) => {
                proof {
                    lemma_list_view(self.ast);
                }
                if children.len() != expected {
                    Err(
                        NodeError::InvalidLength {
                            expected,
                            got: children.len(),
                            location: self.first_location(),
                        },
                    )
                } else {
                    Ok(())
                }
            },
            _ => Err(self.wrong_type(AstType::List)),
        }
    }

    /// The boolean that the node holds; fails if it holds something else.
    pub fn as_bool(&self) -> (r: Result<bool, NodeError>)
        ensures
            match self@.ast {
                AstView::Bool(b) => r == Ok::<bool, NodeError>(b),
                _ => r == Err::<bool, NodeError>(self@.wrong_type(AstType::Bool)),
            },
    {
        match &self.ast {
            Ast::Bool(value) => Ok(*value),
            _ => Err(self.wrong_type(AstType::Bool)),
        }
    }

    /// The text of the comment that the node is; fails if it is something
    /// else.
    pub fn as_comment(&self) -> (r: Result<String, NodeError>)
        ensures
            match self@.ast {
                AstView::Comment(s) => r matches Ok(text) && text@ == s,
                _ => r == Err::<String, NodeError>(self@.wrong_type(AstType::Comment)),
            },
    {
        match &self.ast {
            Ast::Comment(value) => Ok(value.clone()),
            _ => Err(self.wrong_type(AstType::Comment)),
        }
    }

    /// The identifier that the node holds; fails if it holds something else.
    pub fn as_identifier(&self) -> (r: Result<String, NodeError>)
        ensures
            match self@.ast {
                AstView::Identifier(s) => r matches Ok(text) && text@ == s,
                _ => r == Err::<String, NodeError>(self@.wrong_type(AstType::Identifier)),
            },
    {
        match &self.ast {
            Ast::Identifier(value) => Ok(value.clone()),
            _ => Err(self.wrong_type(AstType::Identifier)),
        }
    }

    /// The children of the list that the node is; fails if it is something
    /// else.
    pub fn as_list(&self) -> (r: Result<Vec<Node>, NodeError>)
        ensures
            match self@.ast {
                AstView::List(children) => r matches Ok(nodes) && node_views(nodes@) == children,
                _ => r matches Err(e) && e == self@.wrong_type(AstType::List),
            },
    {
        match &self.ast {
            Ast::List(nodes) => {
                proof {
                    lemma_list_view(self.ast);
                }
                Ok(clone_nodes(nodes))
            },
            _ => Err(self.wrong_type(AstType::List)),
        }
    }

    /// The number that the node holds; fails if it holds something else.
    pub fn as_number(&self) -> (r: Result<Number, NodeError>)
        ensures
            match self@.ast {
                AstView::Number(n) => r matches Ok(value) && value@ == n,
                _ => r matches Err(e) && e == self@.wrong_type(AstType::Number),
            },
    {
        match &self.ast {
            Ast::Number(value) => Ok(value.clone()),
            _ => Err(self.wrong_type(AstType::Number)),
        }
    }

    /// The string that the node holds; fails if it holds something else.
    pub fn as_string(&self) -> (r: Result<String, NodeError>)
        ensures
            match self@.ast {
                AstView::String(s) => r matches Ok(text) && text@ == s,
                _ => r == Err::<String, NodeError>(self@.wrong_type(AstType::String)),
            },
    {
        match &self.ast {
            Ast::String(value) => Ok(value.clone()),
            _ => Err(self.wrong_type(AstType::String)),
        }
    }

    /// The node written out.
    pub fn to_string(&self) -> (r: String)
        ensures
            r@ == self@.text(),
    {
        let mut out = String::new();
        self.ast.push_text(&mut out);
        out
    }
}

} // verus!
