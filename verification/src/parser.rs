//! From tokens to nodes.
//!
//! A token that is no parenthesis becomes a node of its own. An opening
//! parenthesis, the nodes up to the parenthesis that closes it, and that
//! parenthesis become one list node. The lists that are open at a time are kept
//! on a stack of their own, not on the call stack.
//!
//! A closing parenthesis that closes nothing fails at its own place. A list
//! that is still open when the tokens end fails at the place of the opening
//! parenthesis that was read last among those still open.

use vstd::prelude::*;
use vstd::string::StringExecFns;
use crate::error::{Describe, Error};
use crate::node::{clone_tokens, node_views, Ast, AstView, Node, NodeView};
use crate::tokenizer::{token_views, Symbol, Token, TokenKind, TokenKindView, TokenView};

verus! {

/// The two ways in which parentheses fail to match.
#[derive(Debug, Clone, PartialEq)]
pub enum ListErr {
    UnclosedList,
    UnstartedList,
}

/// Why tokens could not be assembled into nodes.
#[derive(Debug, Clone, PartialEq)]
pub enum ParserErr {
    /// For checks that callers make on what was read; reading itself never
    /// fails with it.
    Invalid(String),
    List(ListErr),
    /// Kept for callers that match on it: reading never fails with it.
    StackUnderflow,
}

/// A failure of the parser as contracts see it.
pub enum ParserErrView {
    Invalid(Seq<char>),
    UnclosedList,
    UnstartedList,
    StackUnderflow,
}

impl View for ParserErr {
    type V = ParserErrView;

    open spec fn view(&self) -> ParserErrView {
        match self {
            ParserErr::Invalid(s) => ParserErrView::Invalid(s@),
            ParserErr::List(ListErr::UnclosedList) => ParserErrView::UnclosedList,
            ParserErr::List(ListErr::UnstartedList) => ParserErrView::UnstartedList,
            ParserErr::StackUnderflow => ParserErrView::StackUnderflow,
        }
    }
}

impl ParserErrView {
    /// The failure in words.
    pub open spec fn message(self) -> Seq<char> {
        match self {
            ParserErrView::Invalid(s) => "Invalid: "@ + s,
            ParserErrView::UnclosedList => "Unclosed list"@,
            ParserErrView::UnstartedList => "List not started"@,
            ParserErrView::StackUnderflow => "Stack underflow"@,
        }
    }
}

impl Describe for ParserErr {
    open spec fn description(&self) -> Seq<char> {
        self@.message()
    }

    fn describe(&self) -> (r: String) {
        match self {
            ParserErr::Invalid(s) => String::from_str("Invalid: ").concat(s.as_str()),
            ParserErr::List(ListErr::UnclosedList) => String::from_str("Unclosed list"),
            ParserErr::List(ListErr::UnstartedList) => String::from_str("List not started"),
            ParserErr::StackUnderflow => String::from_str("Stack underflow"),
        }
    }
}

/// The token is an opening parenthesis.
pub open spec fn is_open(t: TokenView) -> bool {
    t.kind == TokenKindView::Symbol(Symbol::Open)
}

/// The token is a closing parenthesis.
pub open spec fn is_close(t: TokenView) -> bool {
    t.kind == TokenKindView::Symbol(Symbol::Close)
}

/// The value of the node that a token other than a parenthesis becomes.
pub open spec fn atom_ast(kind: TokenKindView) -> AstView {
    match kind {
        TokenKindView::Bool(b) => AstView::Bool(b),
        TokenKindView::Number(n) => AstView::Number(n),
        TokenKindView::String(s) => AstView::String(s),
        TokenKindView::Identifier(s) => AstView::Identifier(s),
        TokenKindView::Comment(s) => AstView::Comment(s),
        TokenKindView::Symbol(_) => AstView::List(Seq::empty()),
    }
}

/// The tokens of the nodes, one node after the other.
pub open spec fn forest_tokens(nodes: Seq<NodeView>) -> Seq<TokenView>
    decreases nodes.len(),
{
    if nodes.len() == 0 {
        Seq::empty()
    } else {
        forest_tokens(nodes.drop_last()) + nodes.last().tokens
    }
}

/// A node as reading gives it. An atom holds the one token that it was read
/// from. A list holds its opening parenthesis, then the tokens of its
/// children, then its closing parenthesis, and its children are as reading
/// gives them.
pub open spec fn well_formed(n: NodeView) -> bool
    decreases n,
{
    match n.ast {
        AstView::List(children) => {
            &&& n.tokens.len() >= 2
            &&& is_open(n.tokens.first())
            &&& is_close(n.tokens.last())
            &&& n.tokens.subrange(1, n.tokens.len() - 1) == forest_tokens(children)
            &&& forall|i: int| 0 <= i < children.len() ==> well_formed(#[trigger] children[i])
        },
        _ => {
            &&& n.tokens.len() == 1
            &&& !(n.tokens[0].kind is Symbol)
            &&& n.ast == atom_ast(n.tokens[0].kind)
        },
    }
}

/// Each node is as reading gives it.
pub open spec fn all_well_formed(nodes: Seq<NodeView>) -> bool {
    forall|i: int| 0 <= i < nodes.len() ==> well_formed(#[trigger] nodes[i])
}

/// What a token adds to the number of open lists.
pub open spec fn delta(t: TokenView) -> int {
    if is_open(t) {
        1
    } else if is_close(t) {
        -1
    } else {
        0
    }
}

/// The number of lists that are open after the tokens: the opening
/// parentheses less the closing ones.
pub open spec fn depth(tokens: Seq<TokenView>) -> int
    decreases tokens.len(),
{
    if tokens.len() == 0 {
        0
    } else {
        depth(tokens.drop_last()) + delta(tokens.last())
    }
}

/// No closing parenthesis comes before the opening one that it closes.
pub open spec fn never_negative(tokens: Seq<TokenView>) -> bool {
    forall|j: int| 0 <= j <= tokens.len() ==> depth(#[trigger] tokens.take(j)) >= 0
}

/// Every list that is opened is closed, and nothing else is.
pub open spec fn balanced(tokens: Seq<TokenView>) -> bool {
    never_negative(tokens) && depth(tokens) == 0
}

/// The token at `k` is the first closing parenthesis that closes nothing.
pub open spec fn stray_close(tokens: Seq<TokenView>, k: int) -> bool {
    &&& 0 <= k < tokens.len()
    &&& never_negative(tokens.take(k))
    &&& depth(tokens.take(k + 1)) < 0
}

/// The token at `k` opens a list that is never closed, and every list that is
/// opened after it is closed.
pub open spec fn last_unclosed(tokens: Seq<TokenView>, k: int) -> bool {
    &&& 0 <= k < tokens.len()
    &&& is_open(tokens[k])
    &&& balanced(tokens.skip(k + 1))
}

/// What reading the tokens must give.
pub open spec fn parse_agrees(r: Result<Vec<Node>, Error<ParserErr>>, tokens: Seq<TokenView>) -> bool {
    match r {
        Ok(nodes) => {
            &&& balanced(tokens)
            &&& all_well_formed(node_views(nodes@))
            &&& forest_tokens(node_views(nodes@)) == tokens
            &&& node_views(nodes@) == forest_of(tokens)
            &&& nodes@.len() == top_level_count(tokens)
        },
        Err(e) => match e.kind@ {
            ParserErrView::UnstartedList => exists|k: int|
                #[trigger] stray_close(tokens, k) && e.location == tokens[k].location,
            ParserErrView::UnclosedList => {
                &&& never_negative(tokens)
                &&& depth(tokens) > 0
                &&& exists|k: int|
                    #[trigger] last_unclosed(tokens, k) && e.location == tokens[k].location
            },
            _ => false,
        },
    }
}

/// The lists that are open after two runs of tokens are those that are open
/// after the first and those that are open after the second.
pub proof fn lemma_depth_concat(a: Seq<TokenView>, b: Seq<TokenView>)
    ensures
        depth(a + b) == depth(a) + depth(b),
    decreases b.len(),
{
    if b.len() > 0 {
        assert((a + b).drop_last() =~= a + b.drop_last());
        lemma_depth_concat(a, b.drop_last());
    }
}

/// Two runs of tokens in neither of which a closing parenthesis comes too
/// early make one such run.
pub proof fn lemma_never_negative_concat(a: Seq<TokenView>, b: Seq<TokenView>)
    requires
        never_negative(a),
        never_negative(b),
        depth(a) >= 0,
    ensures
        never_negative(a + b),
{
    assert forall|j: int| 0 <= j <= (a + b).len() implies depth(#[trigger] (a + b).take(j))
        >= 0 by {
        if j <= a.len() {
            assert((a + b).take(j) =~= a.take(j));
        } else {
            assert((a + b).take(j) =~= a + b.take(j - a.len()));
            lemma_depth_concat(a, b.take(j - a.len()));
        }
    }
}

/// One token opens one list, closes one or does neither.
pub proof fn lemma_depth_single(t: TokenView)
    ensures
        depth(seq![t]) == delta(t),
{
    assert(seq![t].drop_last() =~= Seq::<TokenView>::empty());
    assert(depth(Seq::<TokenView>::empty()) == 0);
}

/// The tokens of a node as reading gives it are balanced.
pub proof fn lemma_node_balanced(n: NodeView)
    requires
        well_formed(n),
    ensures
        balanced(n.tokens),
    decreases n, 1int,
{
    match n.ast {
        AstView::List(children) => {
            let inner = forest_tokens(children);
            let open = seq![n.tokens.first()];
            let close = seq![n.tokens.last()];
            lemma_forest_balanced(children);
            assert(n.tokens =~= open + inner + close);
            lemma_depth_single(n.tokens.first());
            lemma_depth_single(n.tokens.last());
            lemma_depth_concat(open, inner);
            lemma_depth_concat(open + inner, close);
            assert(never_negative(open)) by {
                assert forall|j: int| 0 <= j <= open.len() implies depth(#[trigger] open.take(j))
                    >= 0 by {
                    if j != 0 {
                        assert(open.take(1) =~= open);
                    }
                }
            }
            lemma_never_negative_concat(open, inner);
            lemma_never_negative_tail(open + inner, n.tokens.last());
        },
        _ => {
            assert(n.tokens =~= seq![n.tokens[0]]);
            lemma_depth_single(n.tokens[0]);
            assert forall|j: int| 0 <= j <= n.tokens.len() implies depth(
                #[trigger] n.tokens.take(j),
            ) >= 0 by {
                if j != 0 {
                    assert(n.tokens.take(1) =~= n.tokens);
                }
            }
        },
    }
}

/// One more token keeps the count from falling below zero where the count
/// before it is high enough.
pub proof fn lemma_never_negative_tail(a: Seq<TokenView>, t: TokenView)
    requires
        never_negative(a),
        depth(a) + delta(t) >= 0,
    ensures
        never_negative(a + seq![t]),
        depth(a + seq![t]) == depth(a) + delta(t),
{
    let all = a + seq![t];
    assert(all.drop_last() =~= a);
    assert forall|j: int| 0 <= j <= all.len() implies depth(#[trigger] all.take(j)) >= 0 by {
        if j <= a.len() {
            assert(all.take(j) =~= a.take(j));
        } else {
            assert(all.take(j) =~= all);
        }
    }
}

/// The tokens of nodes as reading gives them are balanced.
pub proof fn lemma_forest_balanced(nodes: Seq<NodeView>)
    requires
        all_well_formed(nodes),
    ensures
        balanced(forest_tokens(nodes)),
    decreases nodes, 0int,
{
    if nodes.len() > 0 {
        let front = nodes.drop_last();
        assert(all_well_formed(front));
        lemma_forest_balanced(front);
        lemma_node_balanced(nodes.last());
        lemma_depth_concat(forest_tokens(front), nodes.last().tokens);
        lemma_never_negative_concat(forest_tokens(front), nodes.last().tokens);
    }
}

/// A failure has one place: there is at most one first closing parenthesis
/// that closes nothing, and at most one last opening parenthesis that is not
/// closed.
pub proof fn law_one_failure_place(tokens: Seq<TokenView>, j: int, k: int)
    ensures
        stray_close(tokens, j) && stray_close(tokens, k) ==> j == k,
        last_unclosed(tokens, j) && last_unclosed(tokens, k) ==> j == k,
{
    if stray_close(tokens, j) && stray_close(tokens, k) {
        if j < k {
            assert(tokens.take(k).take(j + 1) =~= tokens.take(j + 1));
        }
        if k < j {
            assert(tokens.take(j).take(k + 1) =~= tokens.take(k + 1));
        }
    }
    if last_unclosed(tokens, j) && last_unclosed(tokens, k) && j != k {
        let (lo, hi) = if j < k {
            (j, k)
        } else {
            (k, j)
        };
        let outer = tokens.skip(lo + 1);
        let inner = tokens.skip(hi + 1);
        let between = outer.take(hi - lo - 1);
        assert(outer =~= between + seq![tokens[hi]] + inner);
        lemma_depth_concat(between, seq![tokens[hi]]);
        lemma_depth_concat(between + seq![tokens[hi]], inner);
        lemma_depth_single(tokens[hi]);
    }
}

/// The kinds of the tokens, without their places.
pub open spec fn kinds_of(tokens: Seq<TokenView>) -> Seq<TokenKindView> {
    tokens.map_values(|t: TokenView| t.kind)
}

/// The node without the tokens that it was read from: what two readings of
/// one value have in common.
pub open spec fn shape(n: NodeView) -> NodeView
    decreases n,
{
    match n.ast {
        AstView::List(children) => NodeView {
            ast: AstView::List(shapes(children)),
            tokens: Seq::empty(),
        },
        _ => NodeView { ast: n.ast, tokens: Seq::empty() },
    }
}

/// The shape of each node.
pub open spec fn shapes(nodes: Seq<NodeView>) -> Seq<NodeView>
    decreases nodes,
{
    if nodes.len() == 0 {
        Seq::empty()
    } else {
        shapes(nodes.drop_last()).push(shape(nodes.last()))
    }
}

/// The number of tokens that begin a node outside every list: those that are
/// read while no list is open and that close none.
pub open spec fn top_level_count(tokens: Seq<TokenView>) -> nat
    decreases tokens.len(),
{
    if tokens.len() == 0 {
        0
    } else {
        top_level_count(tokens.drop_last()) + if depth(tokens.drop_last()) == 0 && !is_close(
            tokens.last(),
        ) {
            1nat
        } else {
            0nat
        }
    }
}

/// How many lists are open depends on the kinds of the tokens alone.
pub proof fn lemma_depth_kinds(a: Seq<TokenView>, b: Seq<TokenView>)
    requires
        kinds_of(a) == kinds_of(b),
    ensures
        depth(a) == depth(b),
    decreases a.len(),
{
    if a.len() > 0 {
        assert(kinds_of(a.drop_last()) =~= kinds_of(a).drop_last());
        assert(kinds_of(b.drop_last()) =~= kinds_of(b).drop_last());
        assert(a.last().kind == kinds_of(a).last());
        lemma_depth_kinds(a.drop_last(), b.drop_last());
    }
}

/// Whether parentheses are balanced depends on the kinds of the tokens
/// alone.
pub proof fn lemma_balanced_kinds(a: Seq<TokenView>, b: Seq<TokenView>)
    requires
        kinds_of(a) == kinds_of(b),
        balanced(a),
    ensures
        balanced(b),
{
    assert(a.len() == kinds_of(a).len());
    lemma_depth_kinds(a, b);
    assert forall|j: int| 0 <= j <= b.len() implies depth(#[trigger] b.take(j)) >= 0 by {
        assert(kinds_of(a.take(j)) =~= kinds_of(b.take(j))) by {
            assert forall|k: int| 0 <= k < j implies kinds_of(a.take(j))[k] == kinds_of(
                b.take(j),
            )[k] by {
                assert(kinds_of(a)[k] == a[k].kind);
            }
        }
        lemma_depth_kinds(a.take(j), b.take(j));
    }
}

/// Nodes as reading gives them hold at least one token each.
pub proof fn lemma_forest_tokens_len(nodes: Seq<NodeView>)
    requires
        all_well_formed(nodes),
    ensures
        forest_tokens(nodes).len() >= nodes.len(),
    decreases nodes.len(),
{
    if nodes.len() > 0 {
        assert(all_well_formed(nodes.drop_last()));
        lemma_forest_tokens_len(nodes.drop_last());
    }
}

/// A node as reading gives it that ends in the tokens of another is as long
/// as the other.
proof fn lemma_suffix_is_whole(x: NodeView, y: NodeView)
    requires
        well_formed(x),
        well_formed(y),
        y.tokens.len() <= x.tokens.len(),
        kinds_of(x.tokens.skip(x.tokens.len() - y.tokens.len())) == kinds_of(y.tokens),
    ensures
        y.tokens.len() == x.tokens.len(),
{
    if y.tokens.len() < x.tokens.len() {
        let d = x.tokens.len() - y.tokens.len();
        let head = x.tokens.take(d);
        let tail = x.tokens.skip(d);
        assert(x.tokens =~= head + tail);
        lemma_node_balanced(x);
        lemma_node_balanced(y);
        lemma_depth_kinds(tail, y.tokens);
        lemma_depth_concat(head, tail);
        match x.ast {
            AstView::List(children) => {
                let inner = forest_tokens(children);
                lemma_forest_balanced(children);
                let open = seq![x.tokens.first()];
                assert(head =~= open + inner.take(d - 1));
                lemma_depth_single(x.tokens.first());
                lemma_depth_concat(open, inner.take(d - 1));
            },
            _ => {},
        }
    }
}

/// The nodes that hold given tokens are determined by the tokens: two
/// readings of tokens of the same kinds have the same shape, and two
/// readings of the same tokens are the same.
pub proof fn lemma_forest_unique(a: Seq<NodeView>, b: Seq<NodeView>)
    requires
        all_well_formed(a),
        all_well_formed(b),
        kinds_of(forest_tokens(a)) == kinds_of(forest_tokens(b)),
    ensures
        shapes(a) == shapes(b),
        forest_tokens(a) == forest_tokens(b) ==> a == b,
    decreases forest_tokens(a).len(), 1int,
{
    let ta = forest_tokens(a);
    let tb = forest_tokens(b);
    assert(ta.len() == kinds_of(ta).len());
    lemma_forest_tokens_len(a);
    lemma_forest_tokens_len(b);
    if a.len() > 0 {
        let fa = a.drop_last();
        let na = a.last();
        let fb = b.drop_last();
        let nb = b.last();
        assert(all_well_formed(fa));
        assert(all_well_formed(fb));
        let ha = forest_tokens(fa);
        let hb = forest_tokens(fb);
        if na.tokens.len() < nb.tokens.len() {
            let d = nb.tokens.len() - na.tokens.len();
            assert(kinds_of(nb.tokens.skip(d)) =~= kinds_of(na.tokens)) by {
                assert forall|i: int| 0 <= i < na.tokens.len() implies kinds_of(
                    nb.tokens.skip(d),
                )[i] == kinds_of(na.tokens)[i] by {
                    assert(kinds_of(ta)[ha.len() + i] == na.tokens[i].kind);
                }
            }
            lemma_suffix_is_whole(nb, na);
        }
        if nb.tokens.len() < na.tokens.len() {
            let d = na.tokens.len() - nb.tokens.len();
            assert(kinds_of(na.tokens.skip(d)) =~= kinds_of(nb.tokens)) by {
                assert forall|i: int| 0 <= i < nb.tokens.len() implies kinds_of(
                    na.tokens.skip(d),
                )[i] == kinds_of(nb.tokens)[i] by {
                    assert(kinds_of(tb)[hb.len() + i] == nb.tokens[i].kind);
                }
            }
            lemma_suffix_is_whole(na, nb);
        }
        assert(kinds_of(na.tokens) =~= kinds_of(nb.tokens)) by {
            assert forall|i: int| 0 <= i < na.tokens.len() implies kinds_of(na.tokens)[i]
                == kinds_of(nb.tokens)[i] by {
                assert(kinds_of(ta)[ha.len() + i] == na.tokens[i].kind);
            }
        }
        assert(kinds_of(ha) =~= kinds_of(hb)) by {
            assert forall|i: int| 0 <= i < ha.len() implies kinds_of(ha)[i] == kinds_of(hb)[i] by {
                assert(kinds_of(ta)[i] == ha[i].kind);
            }
        }
        lemma_node_unique(na, nb);
        lemma_forest_unique(fa, fb);
        if ta == tb {
            assert(ha =~= ta.take(ha.len() as int));
            assert(hb =~= tb.take(hb.len() as int));
            assert(na.tokens =~= ta.skip(ha.len() as int));
            assert(nb.tokens =~= tb.skip(hb.len() as int));
            assert(a =~= fa.push(na));
        }
    }
}

/// A node that holds given tokens is determined by the tokens.
pub proof fn lemma_node_unique(a: NodeView, b: NodeView)
    requires
        well_formed(a),
        well_formed(b),
        kinds_of(a.tokens) == kinds_of(b.tokens),
    ensures
        shape(a) == shape(b),
        a.tokens == b.tokens ==> a == b,
    decreases a.tokens.len(), 0int,
{
    assert(a.tokens.len() == kinds_of(a.tokens).len());
    assert(a.tokens[0].kind == kinds_of(a.tokens)[0]);
    match (a.ast, b.ast) {
        (AstView::List(ca), AstView::List(cb)) => {
            let n = a.tokens.len() as int;
            let ia = a.tokens.subrange(1, n - 1);
            let ib = b.tokens.subrange(1, n - 1);
            assert(kinds_of(ia) =~= kinds_of(ib)) by {
                assert forall|i: int| 0 <= i < ia.len() implies kinds_of(ia)[i] == kinds_of(ib)[i] by {
                    assert(kinds_of(a.tokens)[i + 1] == a.tokens[i + 1].kind);
                }
            }
            lemma_forest_unique(ca, cb);
        },
        _ => {},
    }
}

/// The nodes that hold the given tokens. There are such nodes where the
/// parentheses are balanced, and then no others (`lemma_forest_unique`).
pub open spec fn forest_of(tokens: Seq<TokenView>) -> Seq<NodeView> {
    choose|nodes: Seq<NodeView>| all_well_formed(nodes) && #[trigger] forest_tokens(nodes) == tokens
}

/// Nodes as reading gives them are the nodes of their tokens.
pub proof fn lemma_forest_of(nodes: Seq<NodeView>)
    requires
        all_well_formed(nodes),
    ensures
        forest_of(forest_tokens(nodes)) == nodes,
{
    let found = forest_of(forest_tokens(nodes));
    lemma_forest_unique(found, nodes);
}

/// The tokens of lists that are open, the outermost first: the nodes
/// outside every list, then for each open list its opening parenthesis and
/// the nodes read in it so far.
pub open spec fn open_tokens(frames: Seq<Seq<NodeView>>, opens: Seq<TokenView>) -> Seq<TokenView>
    decreases frames.len(),
{
    if frames.len() == 0 {
        Seq::empty()
    } else if frames.len() == 1 {
        forest_tokens(frames[0])
    } else {
        open_tokens(frames.drop_last(), opens.drop_last()) + seq![opens.last()] + forest_tokens(
            frames.last(),
        )
    }
}

/// Nodes as reading gives them, for the nodes outside every list and for each
/// open list, and an opening parenthesis for each open list.
pub open spec fn open_lists(frames: Seq<Seq<NodeView>>, opens: Seq<TokenView>) -> bool {
    &&& frames.len() == opens.len() + 1
    &&& forall|i: int| 0 <= i < frames.len() ==> all_well_formed(#[trigger] frames[i])
    &&& forall|i: int| 0 <= i < opens.len() ==> is_open(#[trigger] opens[i])
}

/// One more node in the innermost open list adds its tokens at the end.
proof fn lemma_open_tokens_push(frames: Seq<Seq<NodeView>>, opens: Seq<TokenView>, n: NodeView)
    requires
        frames.len() == opens.len() + 1,
    ensures
        open_tokens(frames.drop_last().push(frames.last().push(n)), opens) == open_tokens(
            frames,
            opens,
        ) + n.tokens,
{
    let grown = frames.last().push(n);
    let next = frames.drop_last().push(grown);
    assert(grown.drop_last() =~= frames.last());
    assert(next.drop_last() =~= frames.drop_last());
    if frames.len() != 1 {
        let before = open_tokens(frames.drop_last(), opens.drop_last()) + seq![opens.last()];
        assert(before + (forest_tokens(frames.last()) + n.tokens) =~= before + forest_tokens(
            frames.last(),
        ) + n.tokens);
    }
}

/// A node of one token.
pub open spec fn atom_node(t: TokenView) -> NodeView {
    NodeView { ast: atom_ast(t.kind), tokens: seq![t] }
}

/// A list node of the given children between the given parentheses.
pub open spec fn list_node(open: TokenView, children: Seq<NodeView>, close: TokenView) -> NodeView {
    NodeView {
        ast: AstView::List(children),
        tokens: seq![open] + forest_tokens(children) + seq![close],
    }
}

/// Tokens among which no closing parenthesis comes too early are those of
/// lists that are open: as many as there are parentheses left to close.
pub proof fn lemma_open_lists_exist(tokens: Seq<TokenView>)
    requires
        never_negative(tokens),
    ensures
        exists|frames: Seq<Seq<NodeView>>, opens: Seq<TokenView>|
            open_lists(frames, opens) && opens.len() == depth(tokens) && #[trigger] open_tokens(
                frames,
                opens,
            ) == tokens,
    decreases tokens.len(),
{
    assert(tokens.take(tokens.len() as int) =~= tokens);
    if tokens.len() == 0 {
        let frames = seq![Seq::<NodeView>::empty()];
        let opens = Seq::<TokenView>::empty();
        assert(open_tokens(frames, opens) =~= tokens);
    } else {
        let front = tokens.drop_last();
        let t = tokens.last();
        assert(never_negative(front)) by {
            assert forall|j: int| 0 <= j <= front.len() implies depth(#[trigger] front.take(j))
                >= 0 by {
                assert(front.take(j) =~= tokens.take(j));
            }
        }
        lemma_open_lists_exist(front);
        let (frames, opens) = choose|frames: Seq<Seq<NodeView>>, opens: Seq<TokenView>|
            open_lists(frames, opens) && opens.len() == depth(front) && #[trigger] open_tokens(
                frames,
                opens,
            ) == front;
        if is_open(t) {
            let next = frames.push(Seq::<NodeView>::empty());
            let more = opens.push(t);
            assert(next.drop_last() =~= frames);
            assert(more.drop_last() =~= opens);
            assert(open_tokens(next, more) =~= tokens);
            assert(open_lists(next, more));
        } else if is_close(t) {
            let children = frames.last();
            let open = opens.last();
            let n = list_node(open, children, t);
            assert(well_formed(n)) by {
                assert(n.tokens.subrange(1, n.tokens.len() - 1) =~= forest_tokens(children));
            }
            let outer = frames.drop_last();
            let fewer = opens.drop_last();
            let next = outer.drop_last().push(outer.last().push(n));
            lemma_open_tokens_push(outer, fewer, n);
            assert(open_tokens(frames, opens) == open_tokens(outer, fewer) + seq![open]
                + forest_tokens(children));
            assert(open_lists(next, fewer)) by {
                assert forall|i: int| 0 <= i < next.len() implies all_well_formed(
                    #[trigger] next[i],
                ) by {
                    if i >= next.len() - 1 {
                        lemma_all_well_formed_push(outer.last(), n);
                        assert(outer.last() == frames[outer.len() - 1]);
                    }
                }
            }
        } else {
            let n = atom_node(t);
            let next = frames.drop_last().push(frames.last().push(n));
            lemma_open_tokens_push(frames, opens, n);
            assert(open_lists(next, opens)) by {
                assert forall|i: int| 0 <= i < next.len() implies all_well_formed(
                    #[trigger] next[i],
                ) by {
                    if i >= next.len() - 1 {
                        lemma_all_well_formed_push(frames.last(), n);
                    }
                }
            }
        }
    }
}

/// One more node as reading gives it.
proof fn lemma_all_well_formed_push(nodes: Seq<NodeView>, n: NodeView)
    requires
        all_well_formed(nodes),
        well_formed(n),
    ensures
        all_well_formed(nodes.push(n)),
{
}

/// Tokens are those of nodes as reading gives them exactly where their
/// parentheses are balanced; the nodes are then `forest_of` the tokens, and
/// there are as many of them as tokens that begin a node outside every list.
pub proof fn law_balanced_tokens_are_nodes(tokens: Seq<TokenView>)
    ensures
        balanced(tokens) <==> exists|nodes: Seq<NodeView>|
            all_well_formed(nodes) && #[trigger] forest_tokens(nodes) == tokens,
        balanced(tokens) ==> {
            &&& all_well_formed(forest_of(tokens))
            &&& forest_tokens(forest_of(tokens)) == tokens
            &&& forest_of(tokens).len() == top_level_count(tokens)
        },
{
    if balanced(tokens) {
        lemma_open_lists_exist(tokens);
        let (frames, opens) = choose|frames: Seq<Seq<NodeView>>, opens: Seq<TokenView>|
            open_lists(frames, opens) && opens.len() == depth(tokens) && #[trigger] open_tokens(
                frames,
                opens,
            ) == tokens;
        lemma_count_forest(forest_of(tokens));
    }
    if exists|nodes: Seq<NodeView>|
        all_well_formed(nodes) && #[trigger] forest_tokens(nodes) == tokens {
        let nodes = choose|nodes: Seq<NodeView>|
            all_well_formed(nodes) && #[trigger] forest_tokens(nodes) == tokens;
        lemma_forest_balanced(nodes);
    }
}

/// Where no list is open after the first tokens, the nodes outside every
/// list are those of the first tokens and those of the rest.
pub proof fn lemma_count_concat(a: Seq<TokenView>, b: Seq<TokenView>)
    requires
        depth(a) == 0,
    ensures
        top_level_count(a + b) == top_level_count(a) + top_level_count(b),
    decreases b.len(),
{
    if b.len() > 0 {
        assert((a + b).drop_last() =~= a + b.drop_last());
        lemma_count_concat(a, b.drop_last());
        lemma_depth_concat(a, b.drop_last());
    }
}

/// Inside a list no token begins a node outside every list.
proof fn lemma_count_inside(open: TokenView, inner: Seq<TokenView>)
    requires
        is_open(open),
        never_negative(inner),
    ensures
        top_level_count(seq![open] + inner) == 1,
    decreases inner.len(),
{
    let all = seq![open] + inner;
    if inner.len() == 0 {
        assert(all.drop_last() =~= Seq::<TokenView>::empty());
        assert(top_level_count(Seq::<TokenView>::empty()) == 0);
    } else {
        let front = inner.drop_last();
        assert(all.drop_last() =~= seq![open] + front);
        assert(never_negative(front)) by {
            assert forall|j: int| 0 <= j <= front.len() implies depth(#[trigger] front.take(j))
                >= 0 by {
                assert(front.take(j) =~= inner.take(j));
            }
        }
        lemma_count_inside(open, front);
        lemma_depth_single(open);
        lemma_depth_concat(seq![open], front);
    }
}

/// The tokens of one node as reading gives it begin one node outside every
/// list.
pub proof fn lemma_count_node(n: NodeView)
    requires
        well_formed(n),
    ensures
        top_level_count(n.tokens) == 1,
{
    match n.ast {
        AstView::List(children) => {
            let inner = forest_tokens(children);
            lemma_forest_balanced(children);
            lemma_count_inside(n.tokens.first(), inner);
            let body = seq![n.tokens.first()] + inner;
            assert(n.tokens.drop_last() =~= body);
        },
        _ => {
            assert(n.tokens.drop_last() =~= Seq::<TokenView>::empty());
            assert(top_level_count(Seq::<TokenView>::empty()) == 0);
        },
    }
}

/// There are as many nodes outside every list as tokens that begin one.
pub proof fn lemma_count_forest(nodes: Seq<NodeView>)
    requires
        all_well_formed(nodes),
    ensures
        top_level_count(forest_tokens(nodes)) == nodes.len(),
    decreases nodes.len(),
{
    if nodes.len() > 0 {
        let front = nodes.drop_last();
        assert(all_well_formed(front));
        lemma_count_forest(front);
        lemma_forest_balanced(front);
        lemma_count_node(nodes.last());
        lemma_count_concat(forest_tokens(front), nodes.last().tokens);
    }
}

/// A list that is being read: the nodes read so far, and all tokens read
/// since its opening parenthesis, that one included.
struct Frame {
    nodes: Vec<Node>,
    tokens: Vec<Token>,
}

/// What holds of the nodes and tokens of a list that is being read; `top`
/// is for the nodes outside every list, which no parenthesis opens.
spec fn frame_ok(nodes: Seq<Node>, tokens: Seq<Token>, top: bool) -> bool {
    let views = node_views(nodes);
    let held = token_views(tokens);
    &&& all_well_formed(views)
    &&& if top {
        held == forest_tokens(views)
    } else {
        held.len() >= 1 && is_open(held[0]) && held.skip(1) == forest_tokens(views)
    }
}

/// The tokens held by the lists on the stack, the outermost first.
spec fn stack_tokens(stack: Seq<Frame>) -> Seq<TokenView>
    decreases stack.len(),
{
    if stack.len() == 0 {
        Seq::empty()
    } else {
        stack_tokens(stack.drop_last()) + token_views(stack.last().tokens@)
    }
}

/// Appends a copy of each token of `src` to `dst`.
fn append_tokens(dst: &mut Vec<Token>, src: &Vec<Token>)
    ensures
        token_views(final(dst)@) == token_views(old(dst)@) + token_views(src@),
{
    let mut i: usize = 0;
    while i < src.len()
        invariant
            i <= src.len(),
            token_views(dst@) == token_views(old(dst)@) + token_views(src@).take(i as int),
        decreases src.len() - i,
    {
        let t = src[i].clone();
        let ghost before = token_views(dst@);
        dst.push(t);
        assert(token_views(dst@) =~= before.push(t@));
        assert(token_views(src@).take(i + 1) =~= token_views(src@).take(i as int).push(
            src@[i as int]@,
        ));
        i += 1;
    }
    assert(token_views(src@).take(src.len() as int) =~= token_views(src@));
}

/// The value of the node that the token becomes, unless it is a parenthesis.
fn atom_of(token: &Token) -> (r: Option<Ast>)
    ensures
        r is None <==> token@.kind is Symbol,
        r matches Some(ast) ==> ast@ == atom_ast(token@.kind),
{
    match &token.kind {
        TokenKind::Bool(b) => Some(Ast::Bool(*b)),
        TokenKind::Number(n) => Some(Ast::Number(n.clone())),
        TokenKind::String(s) => Some(Ast::String(s.clone())),
        TokenKind::Identifier(s) => Some(Ast::Identifier(s.clone())),
        TokenKind::Comment(s) => Some(Ast::Comment(s.clone())),
        TokenKind::Symbol(_) => None,
    }
}

/// Whether the parenthesis is the opening one.
fn opens(token: &Token) -> (r: bool)
    requires
        token@.kind is Symbol,
    ensures
        r == is_open(token@),
        !r == is_close(token@),
{
    match &token.kind {
        TokenKind::Symbol(Symbol::Open) => true,
        _ => false,
    }
}

/// The reader of nodes.
pub struct Parser;

impl Parser {
    /// Assembles tokens into nodes.
    ///
    /// Succeeds exactly where the parentheses are balanced. The nodes then
    /// hold, in order, every token that was given: each atom the one it was
    /// read from, each list those from its opening to its closing
    /// parenthesis.
    pub fn parse(tokens: Vec<Token>) -> (r: Result<Vec<Node>, Error<ParserErr>>)
        ensures
            r is Ok <==> balanced(token_views(tokens@)),
            parse_agrees(r, token_views(tokens@)),
    {
        let ghost ts = token_views(tokens@);
        let n = tokens.len();
        let mut stack: Vec<Frame> = Vec::new();
        let mut nodes: Vec<Node> = Vec::new();
        let mut held: Vec<Token> = Vec::new();
        let mut i: usize = 0;
        proof {
            assert(node_views(nodes@) =~= Seq::empty());
            assert(token_views(held@) =~= Seq::empty());
            assert(ts.take(0) =~= Seq::empty());
        }
        while i < n
            invariant
                i <= n == tokens.len(),
                ts == token_views(tokens@),
                forall|k: int|
                    0 <= k < stack.len() ==> frame_ok(
                        (#[trigger] stack@[k]).nodes@,
                        stack@[k].tokens@,
                        k == 0,
                    ),
                frame_ok(nodes@, held@, stack.len() == 0),
                stack_tokens(stack@) + token_views(held@) == ts.take(i as int),
                depth(ts.take(i as int)) == stack.len(),
                never_negative(ts.take(i as int)),
            decreases n - i,
        {
            let token = tokens[i].clone();
            let ghost views = node_views(nodes@);
            let ghost held_views = token_views(held@);
            proof {
                assert(ts.take(i + 1) =~= ts.take(i as int) + seq![ts[i as int]]);
                assert(ts.take(i + 1).drop_last() =~= ts.take(i as int));
                assert(token@ == ts[i as int]);
            }
            match atom_of(&token) {
                Some(ast) => {
                    let mut own: Vec<Token> = Vec::new();
                    own.push(token.clone());
                    held.push(token);
                    let node = Node { ast, tokens: own };
                    nodes.push(node);
                    proof {
                        let t = ts[i as int];
                        assert(token_views(own@) =~= seq![t]);
                        assert(token_views(held@) =~= held_views.push(t));
                        assert(node_views(nodes@) =~= views.push(node@));
                        assert(well_formed(node@));
                        assert(node_views(nodes@).drop_last() =~= views);
                        assert(forest_tokens(node_views(nodes@)) == forest_tokens(views) + seq![t]);
                        if stack.len() != 0 {
                            assert(token_views(held@).skip(1) =~= held_views.skip(1) + seq![t]);
                        }
                        assert(stack_tokens(stack@) + token_views(held@) =~= ts.take(i + 1));
                        lemma_never_negative_tail(ts.take(i as int), t);
                    }
                },
                None => {
                    if opens(&token) {
                        let ghost old_stack = stack@;
                        let frame = Frame { nodes, tokens: held };
                        stack.push(frame);
                        nodes = Vec::new();
                        held = Vec::new();
                        held.push(token);
                        proof {
                            let t = ts[i as int];
                            assert(stack@.drop_last() =~= old_stack);
                            assert(node_views(nodes@) =~= Seq::empty());
                            assert(token_views(held@) =~= seq![t]);
                            assert(token_views(held@).skip(1) =~= Seq::empty());
                            assert(stack_tokens(stack@) + token_views(held@) =~= ts.take(i + 1));
                            lemma_never_negative_tail(ts.take(i as int), t);
                            assert forall|k: int| 0 <= k < stack.len() implies frame_ok(
                                (#[trigger] stack@[k]).nodes@,
                                stack@[k].tokens@,
                                k == 0,
                            ) by {
                                if k < old_stack.len() {
                                    assert(stack@[k] == old_stack[k]);
                                }
                            }
                        }
                    } else {
                        let ghost old_stack = stack@;
                        match stack.pop() {
                            None => {
                                proof {
                                    assert(stray_close(ts, i as int));
                                }
                                return Err(
                                    Error {
                                        kind: ParserErr::List(ListErr::UnstartedList),
                                        location: token.location,
                                    },
                                );
                            },
                            Some(parent) => {
                                held.push(token);
                                let copy = clone_tokens(&held);
                                let list = Ast::List(nodes);
                                let node = Node { ast: list, tokens: held };
                                let Frame { nodes: outer, tokens: outer_held } = parent;
                                let ghost outer_views = node_views(outer@);
                                let ghost outer_tokens = token_views(outer_held@);
                                nodes = outer;
                                held = outer_held;
                                nodes.push(node);
                                append_tokens(&mut held, &copy);
                                proof {
                                    let t = ts[i as int];
                                    crate::node::lemma_list_view(node.ast);
                                    assert(node@.tokens =~= held_views.push(t));
                                    assert(node@.tokens.subrange(1, node@.tokens.len() - 1)
                                        =~= held_views.skip(1));
                                    assert(well_formed(node@));
                                    assert(parent == old_stack.last());
                                    assert(stack@ =~= old_stack.drop_last());
                                    assert(frame_ok(
                                        old_stack[old_stack.len() - 1].nodes@,
                                        old_stack[old_stack.len() - 1].tokens@,
                                        old_stack.len() - 1 == 0,
                                    ));
                                    assert(node_views(nodes@) =~= outer_views.push(node@));
                                    assert(node_views(nodes@).drop_last() =~= outer_views);
                                    assert(forest_tokens(node_views(nodes@)) == forest_tokens(
                                        outer_views,
                                    ) + node@.tokens);
                                    assert(token_views(held@) == outer_tokens + node@.tokens);
                                    if stack.len() != 0 {
                                        assert(token_views(held@).skip(1) =~= outer_tokens.skip(1)
                                            + node@.tokens);
                                    }
                                    assert(stack_tokens(stack@) + token_views(held@) =~= ts.take(
                                        i + 1,
                                    ));
                                    lemma_never_negative_tail(ts.take(i as int), t);
                                    assert forall|k: int| 0 <= k < stack.len() implies frame_ok(
                                        (#[trigger] stack@[k]).nodes@,
                                        stack@[k].tokens@,
                                        k == 0,
                                    ) by {
                                        assert(stack@[k] == old_stack[k]);
                                    }
                                }
                            },
                        }
                    }
                },
            }
            i += 1;
        }
        proof {
            assert(ts.take(n as int) =~= ts);
        }
        if stack.len() > 0 {
            let location = held[0].location.clone();
            proof {
                let k = ts.len() - token_views(held@).len();
                assert(stack_tokens(stack@).len() == k);
                assert(ts[k] == token_views(held@)[0]);
                assert(ts.skip(k + 1) =~= token_views(held@).skip(1));
                lemma_forest_balanced(node_views(nodes@));
                assert(last_unclosed(ts, k));
            }
            Err(Error { kind: ParserErr::List(ListErr::UnclosedList), location })
        } else {
            proof {
                assert(stack_tokens(stack@) =~= Seq::empty());
                assert(token_views(held@) =~= ts);
                lemma_count_forest(node_views(nodes@));
                lemma_forest_of(node_views(nodes@));
            }
            Ok(nodes)
        }
    }
}

} // verus!
