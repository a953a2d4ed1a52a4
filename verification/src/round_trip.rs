//! Writing nodes out and reading the text again gives the nodes back.

use std::path::PathBuf;
use vstd::prelude::*;
use crate::node::{joined_text, AstView, NodeView};
use crate::number::{is_digit, lemma_literal_value_wf, lemma_number_text_chars,
    lemma_number_text_reads_back};
use crate::parser::{all_well_formed, balanced, forest_of, forest_tokens, kinds_of,
    law_balanced_tokens_are_nodes, lemma_balanced_kinds, lemma_forest_balanced,
    lemma_forest_unique, shapes, well_formed};
use crate::reader::{all_comment_free, comment_free, nodes_of};
use crate::tokenizer::{after, atom_at, atom_end, is_delimiter, is_space, lemma_atom_end,
    lemma_string_end, lemma_token_at_advances, starts_number, string_end, token_at, tokens_from,
    token_read, tokens_of, word_false, word_true, Scanned, Symbol, TokenErrView, TokenKindView, TokenView};

verus! {

/// A text that is read as an identifier: an atom that is no number and
/// neither `true` nor `false`.
pub open spec fn is_identifier_text(t: Seq<char>) -> bool {
    &&& t.len() > 0
    &&& forall|i: int| 0 <= i < t.len() ==> !is_delimiter(#[trigger] t[i])
    &&& !starts_number(t, 0)
    &&& t != word_true()
    &&& t != word_false()
}

/// A text that is read as the contents of a string: the first quote that no
/// backslash stands before is the one put behind it.
pub open spec fn is_string_text(t: Seq<char>) -> bool {
    string_end(t.push('"'), 0) == t.len()
}

/// A value as the tokenizer gives it.
pub open spec fn readable_kind(kind: TokenKindView) -> bool {
    match kind {
        TokenKindView::Identifier(t) => is_identifier_text(t),
        TokenKindView::String(t) => is_string_text(t),
        TokenKindView::Number(n) => n.wf(),
        _ => true,
    }
}

/// Each token holds a value as the tokenizer gives it.
pub open spec fn all_readable(tokens: Seq<TokenView>) -> bool {
    forall|i: int| 0 <= i < tokens.len() ==> readable_kind(#[trigger] tokens[i].kind)
}

/// The text ends at `j`, or an atom that stands before `j` ends there.
pub open spec fn ends_atom(s: Seq<char>, j: int) -> bool {
    j == s.len() || (0 <= j < s.len() && is_delimiter(s[j]))
}

/// Reading gives tokens of the given kinds and then what `rest` holds.
pub open spec fn reads_as(all: Scanned, kinds: Seq<TokenKindView>, rest: Scanned) -> bool {
    &&& all matches Ok(a)
    &&& rest matches Ok(r)
    &&& kinds_of(a) == kinds + kinds_of(r)
}

/// Where a delimiter stands at `j`, or the text ends there, and none stands
/// from `i` up to `j`, an atom that begins at `i` ends at `j`.
pub proof fn lemma_atom_end_is(s: Seq<char>, i: int, j: int)
    requires
        0 <= i <= j <= s.len(),
        forall|k: int| i <= k < j ==> !is_delimiter(s[k]),
        j < s.len() ==> is_delimiter(s[j]),
    ensures
        atom_end(s, i) == j,
    decreases j - i,
{
    if i < j {
        lemma_atom_end_is(s, i + 1, j);
    }
}

/// The quote that closes a string is found at the same place in a text and
/// in a part of the text that holds it.
pub proof fn lemma_string_end_shift(s: Seq<char>, a: int, u: Seq<char>, i: int)
    requires
        0 <= a,
        a + u.len() <= s.len(),
        s.subrange(a, a + u.len()) == u,
        0 <= i <= u.len(),
    ensures
        string_end(u, i) < u.len() ==> string_end(s, a + i) == a + string_end(u, i),
        string_end(s, a + i) < a + u.len() ==> string_end(u, i) == string_end(s, a + i) - a,
    decreases u.len() - i,
{
    lemma_string_end(s, a + i);
    if i < u.len() {
        if u[i] == '\\' {
            if i + 1 < u.len() {
                lemma_string_end_shift(s, a, u, i + 2);
            } else if a + i + 1 < s.len() {
                lemma_string_end(s, a + i + 2);
            }
        } else if u[i] != '"' {
            lemma_string_end_shift(s, a, u, i + 1);
        }
    }
}

/// The token that is read at `i` holds a value as the tokenizer gives it.
pub proof fn lemma_token_readable(s: Seq<char>, i: int)
    requires
        0 <= i < s.len(),
        token_at(s, i) is Ok,
    ensures
        readable_kind(token_at(s, i)->Ok_0.0),
{
    if s[i] == '"' {
        let e = string_end(s, i + 1);
        lemma_string_end(s, i + 1);
        let t = s.subrange(i + 1, e);
        let u = t.push('"');
        assert(u =~= s.subrange(i + 1, e + 1));
        lemma_string_end_shift(s, i + 1, u, 0);
    } else if s[i] != '(' && s[i] != ')' && s[i] != ';' {
        let e = atom_end(s, i);
        lemma_atom_end(s, i);
        let text = s.subrange(i, e);
        if starts_number(s, i) {
            lemma_literal_value_wf(text);
        }
    }
}

/// Every token of a text holds a value as the tokenizer gives it.
pub proof fn lemma_tokens_readable(s: Seq<char>, i: int, path: Option<PathBuf>)
    requires
        0 <= i,
    ensures
        tokens_from(s, i, path) matches Ok(tokens) ==> all_readable(tokens),
    decreases s.len() - i,
{
    if i >= s.len() {
        // no token is left
    } else if is_space(s[i]) {
        lemma_tokens_readable(s, i + 1, path);
    } else {
        match token_at(s, i) {
            Err(_) => {},
            Ok((kind, next)) => {
                lemma_token_at_advances(s, i);
                lemma_token_readable(s, i);
                lemma_tokens_readable(s, next, path);
            },
        }
    }
}

/// The kinds of two runs of tokens are the kinds of the first and the kinds
/// of the second.
pub proof fn lemma_kinds_concat(a: Seq<TokenView>, b: Seq<TokenView>)
    ensures
        kinds_of(a + b) == kinds_of(a) + kinds_of(b),
{
}

/// A token and then the tokens that follow it.
pub proof fn lemma_read_token(
    s: Seq<char>,
    start: int,
    kind: TokenKindView,
    next: int,
    path: Option<PathBuf>,
)
    requires
        0 <= start < s.len(),
        !is_space(s[start]),
        token_at(s, start) == Ok::<(TokenKindView, int), TokenErrView>(
            (kind, next),
        ),
        tokens_from(s, next, path) is Ok,
    ensures
        reads_as(tokens_from(s, start, path), seq![kind], tokens_from(s, next, path)),
{
    let first = token_read(s, start, kind, next, path);
    let rest = tokens_from(s, next, path)->Ok_0;
    lemma_kinds_concat(seq![first], rest);
    assert(kinds_of(seq![first]) =~= seq![kind]);
}

/// An atom that stands in a text and ends there is read as what its own
/// text says.
pub proof fn lemma_read_atom(s: Seq<char>, start: int, text: Seq<char>)
    requires
        0 <= start,
        text.len() > 0,
        start + text.len() <= s.len(),
        s.subrange(start, start + text.len()) == text,
        ends_atom(s, start + text.len()),
        forall|k: int| 0 <= k < text.len() ==> !is_delimiter(#[trigger] text[k]),
    ensures
        !is_space(s[start]),
        token_at(s, start) == atom_at(s, start),
        atom_end(s, start) == start + text.len(),
        starts_number(s, start) == starts_number(text, 0),
{
    let end = start + text.len();
    assert forall|k: int| start <= k < end implies !is_delimiter(s[k]) by {
        assert(s[k] == text[k - start]);
    }
    lemma_atom_end_is(s, start, end);
}

/// A node that is written out in a text is read as tokens of the kinds of
/// its own.
pub proof fn lemma_read_node(s: Seq<char>, start: int, n: NodeView, path: Option<PathBuf>)
    requires
        well_formed(n),
        comment_free(n),
        all_readable(n.tokens),
        0 <= start,
        start + n.ast.text().len() <= s.len(),
        s.subrange(start, start + n.ast.text().len()) == n.ast.text(),
        ends_atom(s, start + n.ast.text().len()),
        tokens_from(s, start + n.ast.text().len(), path) is Ok,
    ensures
        reads_as(
            tokens_from(s, start, path),
            kinds_of(n.tokens),
            tokens_from(s, start + n.ast.text().len(), path),
        ),
    decreases n, 1int,
{
    let text = n.ast.text();
    let end = start + text.len();
    match n.ast {
        AstView::List(children) => {
            let inner = forest_tokens(children);
            let joined = joined_text(children);
            let close_at = start + 1 + joined.len();
            assert(s[start] == text[0]);
            assert(s[close_at] == text[close_at - start]);
            assert(s.subrange(start + 1, close_at) =~= joined) by {
                assert forall|k: int| 0 <= k < joined.len() implies s.subrange(
                    start + 1,
                    close_at,
                )[k] == joined[k] by {
                    assert(s[start + 1 + k] == text[1 + k]);
                }
            }
            lemma_read_token(s, close_at, TokenKindView::Symbol(Symbol::Close), end, path);
            assert(all_readable(inner));
            lemma_read_forest(s, start + 1, children, path);
            lemma_read_token(s, start, TokenKindView::Symbol(Symbol::Open), start + 1, path);
            assert(kinds_of(n.tokens) =~= seq![TokenKindView::Symbol(Symbol::Open)] + kinds_of(
                inner,
            ) + seq![TokenKindView::Symbol(Symbol::Close)]);
            let a = tokens_from(s, start, path)->Ok_0;
            let r = tokens_from(s, end, path)->Ok_0;
            assert(kinds_of(a) =~= kinds_of(n.tokens) + kinds_of(r));
        },
        _ => {
            let kind = n.tokens[0].kind;
            assert(kinds_of(n.tokens) =~= seq![kind]);
            match kind {
                TokenKindView::Bool(b) => {
                    assert(text == if b {
                        word_true()
                    } else {
                        word_false()
                    });
                    assert forall|k: int| 0 <= k < text.len() implies !is_delimiter(
                        #[trigger] text[k],
                    ) by {
                        if b {
                            assert(text[k] == 't' || text[k] == 'r' || text[k] == 'u' || text[k]
                                == 'e');
                        } else {
                            assert(text[k] == 'f' || text[k] == 'a' || text[k] == 'l' || text[k]
                                == 's' || text[k] == 'e');
                        }
                    }
                    lemma_read_atom(s, start, text);
                    assert(word_true() != word_false());
                    lemma_read_token(s, start, kind, end, path);
                },
                TokenKindView::Identifier(_) => {
                    lemma_read_atom(s, start, text);
                    lemma_read_token(s, start, kind, end, path);
                },
                TokenKindView::Number(v) => {
                    lemma_number_text_chars(v);
                    lemma_number_text_reads_back(v);
                    lemma_read_atom(s, start, text);
                    lemma_read_token(s, start, kind, end, path);
                },
                TokenKindView::String(t) => {
                    assert(s[start] == text[0]);
                    let u = t.push('"');
                    assert(s.subrange(start + 1, start + 1 + u.len()) =~= u) by {
                        assert forall|k: int| 0 <= k < u.len() implies s.subrange(
                            start + 1,
                            start + 1 + u.len(),
                        )[k] == u[k] by {
                            assert(s[start + 1 + k] == text[1 + k]);
                        }
                    }
                    lemma_string_end_shift(s, start + 1, u, 0);
                    assert(s.subrange(start + 1, start + 1 + t.len()) =~= t);
                    lemma_read_token(s, start, kind, end, path);
                },
                _ => {},
            }
        },
    }
}

/// Nodes that are written out in a text, with one space between two, are
/// read as tokens of the kinds of their own.
pub proof fn lemma_read_forest(
    s: Seq<char>,
    start: int,
    nodes: Seq<NodeView>,
    path: Option<PathBuf>,
)
    requires
        all_well_formed(nodes),
        all_comment_free(nodes),
        all_readable(forest_tokens(nodes)),
        0 <= start,
        start + joined_text(nodes).len() <= s.len(),
        s.subrange(start, start + joined_text(nodes).len()) == joined_text(nodes),
        ends_atom(s, start + joined_text(nodes).len()),
        tokens_from(s, start + joined_text(nodes).len(), path) is Ok,
    ensures
        reads_as(
            tokens_from(s, start, path),
            kinds_of(forest_tokens(nodes)),
            tokens_from(s, start + joined_text(nodes).len(), path),
        ),
    decreases nodes, 0int,
{
    let text = joined_text(nodes);
    let end = start + text.len();
    if nodes.len() > 0 {
        let front = nodes.drop_last();
        let last = nodes.last();
        let head = forest_tokens(front);
        assert(all_readable(last.tokens)) by {
            assert forall|k: int| 0 <= k < last.tokens.len() implies readable_kind(
                #[trigger] last.tokens[k].kind,
            ) by {
                assert(last.tokens[k] == forest_tokens(nodes)[head.len() + k]);
            }
        }
        if nodes.len() == 1 {
            lemma_read_node(s, start, last, path);
        } else {
            assert(all_well_formed(front));
            assert(all_comment_free(front));
            assert(all_readable(head)) by {
                assert forall|k: int| 0 <= k < head.len() implies readable_kind(
                    #[trigger] head[k].kind,
                ) by {
                    assert(head[k] == forest_tokens(nodes)[k]);
                }
            }
            let before = joined_text(front);
            let own = last.ast.text();
            let gap = start + before.len();
            assert(s[gap] == text[gap - start]);
            assert(s.subrange(gap + 1, end) =~= own) by {
                assert forall|k: int| 0 <= k < own.len() implies s.subrange(gap + 1, end)[k]
                    == own[k] by {
                    assert(s[gap + 1 + k] == text[before.len() + 1 + k]);
                }
            }
            assert(s.subrange(start, gap) =~= before);
            lemma_read_node(s, gap + 1, last, path);
            lemma_read_forest(s, start, front, path);
            lemma_kinds_concat(head, last.tokens);
            let a = tokens_from(s, start, path)->Ok_0;
            let r = tokens_from(s, end, path)->Ok_0;
            assert(kinds_of(a) =~= kinds_of(forest_tokens(nodes)) + kinds_of(r));
        }
    }
}

/// Nodes without comments that hold values as the tokenizer gives them,
/// written out with one space between two, are a text whose tokens are of
/// the kinds of the tokens of the nodes, and whose parentheses are balanced.
pub proof fn lemma_written_text_reads(nodes: Seq<NodeView>, path: Option<PathBuf>)
    requires
        all_well_formed(nodes),
        all_comment_free(nodes),
        all_readable(forest_tokens(nodes)),
    ensures
        tokens_of(joined_text(nodes), path) matches Ok(tokens) && kinds_of(tokens) == kinds_of(
            forest_tokens(nodes),
        ) && balanced(tokens),
{
    let s = joined_text(nodes);
    assert(s.subrange(0, s.len() as int) =~= s);
    lemma_read_forest(s, 0, nodes, path);
    let tokens = tokens_of(s, path)->Ok_0;
    lemma_forest_balanced(nodes);
    lemma_balanced_kinds(forest_tokens(nodes), tokens);
}

/// Reading is the inverse of writing.
///
/// Take the nodes that a text without comments is read into, write them out
/// with one space between two, and read that text: it is read into nodes,
/// and they are the first ones but for the places of their tokens.
pub proof fn law_round_trip(text: Seq<char>, path: Option<PathBuf>, again_path: Option<PathBuf>)
    requires
        nodes_of(text, path) matches Some(nodes) && all_comment_free(nodes),
    ensures
        nodes_of(joined_text(nodes_of(text, path)->Some_0), again_path) matches Some(again)
            && shapes(again) == shapes(nodes_of(text, path)->Some_0),
{
    let tokens = tokens_of(text, path)->Ok_0;
    let nodes = forest_of(tokens);
    law_balanced_tokens_are_nodes(tokens);
    lemma_tokens_readable(text, 0, path);
    lemma_written_text_reads(nodes, again_path);
    let again_tokens = tokens_of(joined_text(nodes), again_path)->Ok_0;
    law_balanced_tokens_are_nodes(again_tokens);
    lemma_forest_unique(forest_of(again_tokens), nodes);
}

} // verus!
