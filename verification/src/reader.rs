//! From text to list cursors, in one call.

use std::path::PathBuf;
use vstd::prelude::*;
use crate::error::Describe;
use crate::list::{err, list, list_of, List, ListView};
use crate::node::{clone_tokens, lemma_list_view, node_views, Ast, AstView, Node, NodeView};
use crate::parser::{balanced, forest_of, last_unclosed, never_negative, stray_close, Parser,
    ParserErrView};
use crate::tokenizer::{token_views, tokens_of, Tokenizer};
use crate::{Error, ErrorView};

verus! {

/// The node without the comments in it, or nothing if it is a comment.
pub open spec fn stripped(n: NodeView) -> Option<NodeView>
    decreases n,
{
    match n.ast {
        AstView::Comment(_) => None,
        AstView::List(children) => Some(
            NodeView { ast: AstView::List(stripped_all(children)), tokens: n.tokens },
        ),
        _ => Some(n),
    }
}

/// The nodes that are no comments, in order, each without the comments in it.
pub open spec fn stripped_all(nodes: Seq<NodeView>) -> Seq<NodeView>
    decreases nodes,
{
    if nodes.len() == 0 {
        Seq::empty()
    } else {
        match stripped(nodes.last()) {
            Some(n) => stripped_all(nodes.drop_last()).push(n),
            None => stripped_all(nodes.drop_last()),
        }
    }
}

/// Neither the node nor anything in it is a comment.
pub open spec fn comment_free(n: NodeView) -> bool
    decreases n,
{
    match n.ast {
        AstView::Comment(_) => false,
        AstView::List(children) => forall|i: int|
            0 <= i < children.len() ==> comment_free(#[trigger] children[i]),
        _ => true,
    }
}

/// No node is a comment or holds one.
pub open spec fn all_comment_free(nodes: Seq<NodeView>) -> bool {
    forall|i: int| 0 <= i < nodes.len() ==> comment_free(#[trigger] nodes[i])
}

/// What is left of a node after stripping holds no comment.
pub proof fn lemma_stripped_comment_free(n: NodeView)
    ensures
        stripped(n) matches Some(m) ==> comment_free(m),
    decreases n, 1int,
{
    match n.ast {
        AstView::List(children) => {
            lemma_stripped_all_comment_free(children);
        },
        _ => {},
    }
}

/// What is left of nodes after stripping holds no comment.
pub proof fn lemma_stripped_all_comment_free(nodes: Seq<NodeView>)
    ensures
        all_comment_free(stripped_all(nodes)),
    decreases nodes, 0int,
{
    if nodes.len() > 0 {
        lemma_stripped_all_comment_free(nodes.drop_last());
        lemma_stripped_comment_free(nodes.last());
    }
}

/// A cursor for each node, or the failure of the first node that is no list.
pub open spec fn lists_of(nodes: Seq<NodeView>) -> Result<Seq<ListView>, ErrorView>
    decreases nodes.len(),
{
    if nodes.len() == 0 {
        Ok(Seq::empty())
    } else {
        match lists_of(nodes.drop_last()) {
            Err(e) => Err(e),
            Ok(lists) => match list_of(nodes.last(), "list"@) {
                Ok(l) => Ok(lists.push(l)),
                Err(e) => Err(e),
            },
        }
    }
}

/// The views of a run of cursors.
pub open spec fn list_views(lists: Seq<List>) -> Seq<ListView> {
    lists.map_values(|l: List| l@)
}

/// Whether a result agrees with what it should be.
pub open spec fn lists_agree(
    r: Result<Vec<List>, Error>,
    expected: Result<Seq<ListView>, ErrorView>,
) -> bool {
    match (r, expected) {
        (Ok(lists), Ok(views)) => list_views(lists@) == views,
        (Err(e), Err(v)) => e@ == v,
        _ => false,
    }
}

/// The nodes that a text is read into: those that hold its tokens, where it
/// can be split into tokens and their parentheses are balanced.
pub open spec fn nodes_of(text: Seq<char>, path: Option<PathBuf>) -> Option<Seq<NodeView>> {
    match tokens_of(text, path) {
        Ok(tokens) => if balanced(tokens) {
            Some(forest_of(tokens))
        } else {
            None
        },
        Err(_) => None,
    }
}

/// The failure of reading a text that is not read into nodes.
///
/// A text that cannot be split into tokens fails with the tokenizer's
/// message at the tokenizer's place. Among tokens whose parentheses are not
/// balanced, a closing parenthesis that closes nothing fails at the first
/// such parenthesis; otherwise a list is left open, which fails at the last
/// opening parenthesis that is not closed.
pub open spec fn is_failure_of(e: ErrorView, text: Seq<char>, path: Option<PathBuf>) -> bool {
    match tokens_of(text, path) {
        Err((kind, location)) => e == (ErrorView { message: kind.message(), location }),
        Ok(tokens) => if never_negative(tokens) {
            &&& e.message == ParserErrView::UnclosedList.message()
            &&& exists|k: int| #[trigger] last_unclosed(tokens, k) && e.location == tokens[k].location
        } else {
            &&& e.message == ParserErrView::UnstartedList.message()
            &&& exists|k: int| #[trigger] stray_close(tokens, k) && e.location == tokens[k].location
        },
    }
}

/// What reading a text into nodes must give: the nodes that the text is
/// read into, without comments if that is asked for.
pub open spec fn nodes_agree(
    r: Result<Vec<Node>, Error>,
    contents: Seq<char>,
    path: Option<PathBuf>,
    ignore_comments: bool,
) -> bool {
    match nodes_of(contents, path) {
        Some(nodes) => r matches Ok(read) && node_views(read@) == if ignore_comments {
            stripped_all(nodes)
        } else {
            nodes
        },
        None => r matches Err(e) && is_failure_of(e@, contents, path),
    }
}

/// What reading a text into cursors must give: comments are stripped from
/// the nodes that the text is read into, and each node left must be a list.
pub open spec fn read_agrees(
    r: Result<Vec<List>, Error>,
    contents: Seq<char>,
    path: Option<PathBuf>,
) -> bool {
    match nodes_of(contents, path) {
        Some(nodes) => lists_agree(r, lists_of(stripped_all(nodes))),
        None => r matches Err(e) && is_failure_of(e@, contents, path),
    }
}

/// The node without the comments in it, or nothing if it is a comment.
pub fn strip_comments(node: &Node) -> (r: Option<Node>)
    ensures
        match (r, stripped(node@)) {
            (Some(m), Some(v)) => m@ == v && comment_free(m@),
            (None, None) => true,
            _ => false,
        },
    decreases node,
{
    proof {
        lemma_stripped_comment_free(node@);
    }
    match &node.ast {
        Ast::Comment(_) => None,
        Ast::List(nodes) => {
            let kept = Ast::List(strip_all(nodes));
            proof {
                lemma_list_view(node.ast);
                lemma_list_view(kept);
            }
            Some(Node { ast: kept, tokens: clone_tokens(&node.tokens) })
        },
        _ => Some(node.clone()),
    }
}

/// The nodes that are no comments, in order, each without the comments in it.
pub fn strip_all(nodes: &Vec<Node>) -> (r: Vec<Node>)
    ensures
        node_views(r@) == stripped_all(node_views(nodes@)),
        all_comment_free(node_views(r@)),
    decreases nodes,
{
    let ghost views = node_views(nodes@);
    let mut out: Vec<Node> = Vec::new();
    let mut i: usize = 0;
    while i < nodes.len()
        invariant
            i <= nodes.len(),
            views == node_views(nodes@),
            node_views(out@) == stripped_all(views.take(i as int)),
        decreases nodes.len() - i,
    {
        proof {
            assert(views.take(i + 1).drop_last() =~= views.take(i as int));
        }
        match strip_comments(&nodes[i]) {
            Some(n) => {
                out.push(n);
            },
            None => {},
        }
        i += 1;
    }
    proof {
        assert(views.take(nodes.len() as int) =~= views);
        lemma_stripped_all_comment_free(views);
    }
    out
}

/// Reads a text into nodes. `path` is the file that the text came from, if
/// any: the places of tokens and failures carry it. With `ignore_comments`
/// the nodes come without the comments of the text.
pub fn parse_text(contents: &str, path: Option<PathBuf>, ignore_comments: bool) -> (r: Result<
    Vec<Node>,
    Error,
>)
    ensures
        nodes_agree(r, contents@, path, ignore_comments),
{
    let tokens = match Tokenizer::tokenize(contents, path) {
        Ok(tokens) => tokens,
        Err(e) => {
            let message = e.kind.describe();
            return err(message.as_str(), &e.location);
        },
    };
    let ghost views = token_views(tokens@);
    match Parser::parse(tokens) {
        Ok(nodes) => {
            if ignore_comments {
                Ok(strip_all(&nodes))
            } else {
                Ok(nodes)
            }
        },
        Err(e) => {
            let message = e.kind.describe();
            proof {
                match e.kind@ {
                    ParserErrView::UnstartedList => {
                        let k = choose|k: int| #[trigger]
                            stray_close(views, k) && e.location == views[k].location;
                    },
                    _ => {},
                }
            }
            err(message.as_str(), &e.location)
        },
    }
}

/// Reads a text into a cursor for each list in it, leaving out comments.
/// `path` is the file that the text came from, if any: the places of tokens
/// and failures carry it.
#[verifier::loop_isolation(false)]
pub fn parse_optional_path(contents: &str, path: Option<PathBuf>) -> (r: Result<Vec<List>, Error>)
    ensures
        read_agrees(r, contents@, path),
{
    let kept = match parse_text(contents, path, true) {
        Ok(nodes) => nodes,
        Err(e) => {
            return Err(e);
        },
    };
    let ghost kept_views = node_views(kept@);
    let mut lists: Vec<List> = Vec::new();
    let mut i: usize = 0;
    assert(list_views(lists@) =~= Seq::<ListView>::empty());
    while i < kept.len()
        invariant
            i <= kept.len(),
            kept_views == node_views(kept@),
            lists_of(kept_views.take(i as int)) == Ok::<Seq<ListView>, ErrorView>(
                list_views(lists@),
            ),
        decreases kept.len() - i,
    {
        proof {
            assert(kept_views.take(i + 1).drop_last() =~= kept_views.take(i as int));
        }
        let ghost before = list_views(lists@);
        match list(&kept[i], "list") {
            Ok(l) => {
                lists.push(l);
                assert(list_views(lists@) =~= before.push(l@));
            },
            Err(e) => {
                proof {
                    lemma_lists_of_fails(kept_views, i as int);
                }
                return Err(e);
            },
        }
        i += 1;
    }
    proof {
        assert(kept_views.take(kept.len() as int) =~= kept_views);
    }
    Ok(lists)
}

/// A failure among the first nodes is the failure of them all.
pub proof fn lemma_lists_of_fails(nodes: Seq<NodeView>, i: int)
    requires
        0 <= i < nodes.len(),
        lists_of(nodes.take(i + 1)) is Err,
    ensures
        lists_of(nodes) == lists_of(nodes.take(i + 1)),
    decreases nodes.len(),
{
    if i + 1 == nodes.len() {
        assert(nodes.take(i + 1) =~= nodes);
    } else {
        assert(nodes.drop_last().take(i + 1) =~= nodes.take(i + 1));
        lemma_lists_of_fails(nodes.drop_last(), i);
    }
}

/// Reads a text into a cursor for each list in it, leaving out comments.
pub fn parse_str(contents: &str) -> (r: Result<Vec<List>, Error>)
    ensures
        read_agrees(r, contents@, None),
{
    parse_optional_path(contents, None)
}

/// Reads the text of the file `path` into a cursor for each list in it,
/// leaving out comments.
pub fn parse_file(contents: &str, path: PathBuf) -> (r: Result<Vec<List>, Error>)
    ensures
        read_agrees(r, contents@, Some(path)),
{
    parse_optional_path(contents, Some(path))
}

} // verus!
