//! From text to tokens.
//!
//! The text is read once, left to right. Space, tab and newline separate
//! tokens. `(` and `)` are tokens of one character. `;` starts a comment that
//! runs to the end of its line. `"` starts a string that runs to the next `"`
//! that no backslash stands before; a backslash and the character after it are
//! kept as they are written. Anything else starts an atom, which runs up to
//! the next separator, parenthesis, `;` or `"`. An atom that starts with a
//! digit, or with a sign and a digit, must be a number as a whole: a sign if
//! any, digits, and at most one point with further digits; `1abc` is a
//! failure, not a number and an identifier. Any other atom is `true`, `false`
//! or an identifier.
//!
//! Each token carries the characters that it was read from and the place where
//! it begins. Lines and columns count from zero. A failure is reported at
//! the place where the token that could not be read begins.

use std::path::PathBuf;
use vstd::prelude::*;
use vstd::string::StringExecFns;
use crate::error::{Describe, Error};
use crate::location::Location;
use crate::number::{find_char, is_digit, is_digit_char, is_number_literal, literal_value, Number,
    NumberView};
use crate::text::{copy_range, string_of_range, to_chars};

verus! {

/// The class of a token, without its value.
#[derive(Debug, Clone, Copy, PartialEq, Eq, Structural)]
pub enum TokenType {
    Bool,
    Comment,
    Identifier,
    Number,
    String,
    Symbol,
}

/// The two parentheses.
#[derive(Debug, Clone, Copy, PartialEq, Eq, Structural)]
pub enum Symbol {
    Open,
    Close,
}

/// What a token is, with its value.
#[derive(Debug, PartialEq)]
pub enum TokenKind {
    Bool(bool),
    Number(Number),
    String(String),
    Identifier(String),
    Comment(String),
    Symbol(Symbol),
}

/// What a token is as contracts see it: text as characters.
pub enum TokenKindView {
    Bool(bool),
    Number(NumberView),
    String(Seq<char>),
    Identifier(Seq<char>),
    Comment(Seq<char>),
    Symbol(Symbol),
}

impl View for TokenKind {
    type V = TokenKindView;

    open spec fn view(&self) -> TokenKindView {
        match self {
            TokenKind::Bool(b) => TokenKindView::Bool(*b),
            TokenKind::Number(n) => TokenKindView::Number(n@),
            TokenKind::String(s) => TokenKindView::String(s@),
            TokenKind::Identifier(s) => TokenKindView::Identifier(s@),
            TokenKind::Comment(s) => TokenKindView::Comment(s@),
            TokenKind::Symbol(s) => TokenKindView::Symbol(*s),
        }
    }
}

impl TokenKindView {
    /// The class of the token.
    pub open spec fn type_(self) -> TokenType {
        match self {
            TokenKindView::Bool(_) => TokenType::Bool,
            TokenKindView::Number(_) => TokenType::Number,
            TokenKindView::String(_) => TokenType::String,
            TokenKindView::Identifier(_) => TokenType::Identifier,
            TokenKindView::Comment(_) => TokenType::Comment,
            TokenKindView::Symbol(_) => TokenType::Symbol,
        }
    }
}

impl Clone for TokenKind {
    fn clone(&self) -> (r: Self)
        ensures
            r@ == self@,
    {
        match self {
            TokenKind::Bool(b) => TokenKind::Bool(*b),
            TokenKind::Number(n) => TokenKind::Number(n.clone()),
            TokenKind::String(s) => TokenKind::String(s.clone()),
            TokenKind::Identifier(s) => TokenKind::Identifier(s.clone()),
            TokenKind::Comment(s) => TokenKind::Comment(s.clone()),
            TokenKind::Symbol(s) => TokenKind::Symbol(*s),
        }
    }
}

impl TokenKind {
    /// The class of the token.
    pub fn type_(&self) -> (r: TokenType)
        ensures
            r == self@.type_(),
    {
        match self {
            TokenKind::Bool(_) => TokenType::Bool,
            TokenKind::Number(_) => TokenType::Number,
            TokenKind::String(_) => TokenType::String,
            TokenKind::Identifier(_) => TokenType::Identifier,
            TokenKind::Comment(_) => TokenType::Comment,
            TokenKind::Symbol(_) => TokenType::Symbol,
        }
    }
}

/// One lexical unit: what it is, the characters that it was read from, and
/// the place where it begins.
#[derive(Debug, PartialEq)]
pub struct Token {
    pub kind: TokenKind,
    pub raw_value: String,
    pub location: Location,
}

/// A token as contracts see it.
pub struct TokenView {
    pub kind: TokenKindView,
    pub raw_value: Seq<char>,
    pub location: Location,
}

impl View for Token {
    type V = TokenView;

    open spec fn view(&self) -> TokenView {
        TokenView { kind: self.kind@, raw_value: self.raw_value@, location: self.location }
    }
}

impl Clone for Token {
    fn clone(&self) -> (r: Self)
        ensures
            r@ == self@,
    {
        Token {
            kind: self.kind.clone(),
            raw_value: self.raw_value.clone(),
            location: self.location.clone(),
        }
    }
}

impl Token {
    /// Checks that the token is of the class that the caller counts on.
    pub fn expect_type(&self, expected: TokenType) -> (r: Result<(), TypeErr>)
        ensures
            r is Ok <==> self@.kind.type_() == expected,
            r matches Err(e) ==> e == (TypeErr::WrongType { got: self@.kind.type_(), expected }),
    {
        let got = self.kind.type_();
        if got == expected {
            Ok(())
        } else {
            Err(TypeErr::WrongType { got, expected })
        }
    }
}

/// The views of a run of tokens.
pub open spec fn token_views(tokens: Seq<Token>) -> Seq<TokenView> {
    tokens.map_values(|t: Token| t@)
}

/// Why a comment could not be read.
#[derive(Debug, Clone, PartialEq)]
pub enum CommentErr {
    NotStarted,
}

/// What was read of a string when the text ended.
#[derive(Debug, Clone, PartialEq)]
pub struct UnclosedString {
    pub contents: String,
}

/// Why a string could not be read.
#[derive(Debug, Clone, PartialEq)]
pub enum StringErr {
    NotStarted,
    Unclosed(UnclosedString),
}

/// A token of one class where one of another class was counted on.
#[derive(Debug, Clone, PartialEq)]
pub enum TypeErr {
    WrongType { got: TokenType, expected: TokenType },
}

/// Why an atom could not be read.
#[derive(Debug, Clone, PartialEq)]
pub enum IdentifierErr {
    NotStarted,
    BeginsWithNumber { got: String },
}

/// Why a text could not be split into tokens.
#[derive(Debug, Clone, PartialEq)]
pub enum TokenErr {
    Comment(CommentErr),
    String(StringErr),
    Type(TypeErr),
    Identifier(IdentifierErr),
    /// Kept for callers that match on it: reading never fails with it.
    StackUnderflow,
}

/// A failure of the tokenizer as contracts see it.
pub enum TokenErrView {
    CommentNotStarted,
    StringNotStarted,
    StringUnclosed(Seq<char>),
    WrongType { got: TokenType, expected: TokenType },
    IdentifierNotStarted,
    IdentifierBeginsWithNumber(Seq<char>),
    StackUnderflow,
}

impl View for TokenErr {
    type V = TokenErrView;

    open spec fn view(&self) -> TokenErrView {
        match self {
            TokenErr::Comment(CommentErr::NotStarted) => TokenErrView::CommentNotStarted,
            TokenErr::String(StringErr::NotStarted) => TokenErrView::StringNotStarted,
            TokenErr::String(StringErr::Unclosed(u)) => TokenErrView::StringUnclosed(u.contents@),
            TokenErr::Type(TypeErr::WrongType { got, expected }) => TokenErrView::WrongType {
                got: *got,
                expected: *expected,
            },
            TokenErr::Identifier(IdentifierErr::NotStarted) => TokenErrView::IdentifierNotStarted,
            TokenErr::Identifier(IdentifierErr::BeginsWithNumber { got }) =>
                TokenErrView::IdentifierBeginsWithNumber(got@),
            TokenErr::StackUnderflow => TokenErrView::StackUnderflow,
        }
    }
}

/// The name of a token class in messages.
pub open spec fn class_name(t: TokenType) -> Seq<char> {
    match t {
        TokenType::Bool => "bool"@,
        TokenType::Comment => "comment"@,
        TokenType::Identifier => "identifier"@,
        TokenType::Number => "number"@,
        TokenType::String => "string"@,
        TokenType::Symbol => "symbol"@,
    }
}

impl TokenErrView {
    /// The failure in words.
    pub open spec fn message(self) -> Seq<char> {
        match self {
            TokenErrView::CommentNotStarted => "Comment not started"@,
            TokenErrView::StringNotStarted => "String not started"@,
            TokenErrView::StringUnclosed(contents) => "Unclosed string: "@ + contents,
            TokenErrView::WrongType { got, expected } => "Expected type "@ + class_name(expected),
            TokenErrView::IdentifierNotStarted => "Identifier not started"@,
            TokenErrView::IdentifierBeginsWithNumber(got) => "Identifier begins with number: "@
                + got,
            TokenErrView::StackUnderflow => "Stack underflow"@,
        }
    }
}

impl Describe for TokenErr {
    open spec fn description(&self) -> Seq<char> {
        self@.message()
    }

    fn describe(&self) -> (r: String) {
        match self {
            TokenErr::Comment(CommentErr::NotStarted) => String::from_str("Comment not started"),
            TokenErr::String(StringErr::NotStarted) => String::from_str("String not started"),
            TokenErr::String(StringErr::Unclosed(u)) => String::from_str("Unclosed string: ").concat(
                u.contents.as_str(),
            ),
            TokenErr::Type(TypeErr::WrongType { got: _, expected }) => {
                let name = match expected {
                    TokenType::Bool => "bool",
                    TokenType::Comment => "comment",
                    TokenType::Identifier => "identifier",
                    TokenType::Number => "number",
                    TokenType::String => "string",
                    TokenType::Symbol => "symbol",
                };
                String::from_str("Expected type ").concat(name)
            },
            TokenErr::Identifier(IdentifierErr::NotStarted) => String::from_str(
                "Identifier not started",
            ),
            TokenErr::Identifier(IdentifierErr::BeginsWithNumber { got }) => String::from_str(
                "Identifier begins with number: ",
            ).concat(got.as_str()),
            TokenErr::StackUnderflow => String::from_str("Stack underflow"),
        }
    }
}

/// Space, tab and newline separate tokens.
pub open spec fn is_space(c: char) -> bool {
    c == ' ' || c == '\t' || c == '\n'
}

/// The characters that end an atom.
pub open spec fn is_delimiter(c: char) -> bool {
    is_space(c) || c == '(' || c == ')' || c == ';' || c == '"'
}

/// The first index at or after `i` that holds a delimiter, or the length of
/// `s` if there is none.
pub open spec fn atom_end(s: Seq<char>, i: int) -> int
    decreases s.len() - i,
{
    if i < 0 || i >= s.len() {
        s.len() as int
    } else if is_delimiter(s[i]) {
        i
    } else {
        atom_end(s, i + 1)
    }
}

/// The index of the quote that closes a string whose contents begin at `i`,
/// or the length of `s` if the string is not closed.
pub open spec fn string_end(s: Seq<char>, i: int) -> int
    decreases s.len() - i,
{
    if i < 0 || i >= s.len() {
        s.len() as int
    } else if s[i] == '"' {
        i
    } else if s[i] == '\\' {
        if i + 1 < s.len() {
            string_end(s, i + 2)
        } else {
            s.len() as int
        }
    } else {
        string_end(s, i + 1)
    }
}

/// The line of index `i`: the number of newlines before it.
pub open spec fn line_at(s: Seq<char>, i: int) -> nat
    decreases i,
{
    if i <= 0 {
        0
    } else if s[i - 1] == '\n' {
        line_at(s, i - 1) + 1
    } else {
        line_at(s, i - 1)
    }
}

/// The column of index `i`: the number of characters between it and the
/// newline before it.
pub open spec fn column_at(s: Seq<char>, i: int) -> nat
    decreases i,
{
    if i <= 0 {
        0
    } else if s[i - 1] == '\n' {
        0
    } else {
        column_at(s, i - 1) + 1
    }
}

/// The place of index `i` in the text `s` of `path`.
pub open spec fn location_at(s: Seq<char>, i: int, path: Option<PathBuf>) -> Location {
    Location { line: line_at(s, i) as usize, column: column_at(s, i) as usize, path }
}

/// What reading one token gives: the token and the index after it, or the
/// reason why there is none.
pub type Scan = Result<(TokenKindView, int), TokenErrView>;

/// The comment that begins at `i`.
pub open spec fn comment_at(s: Seq<char>, i: int) -> Scan {
    if 0 <= i < s.len() && s[i] == ';' {
        let end = find_char(s, i + 1, '\n');
        Ok((TokenKindView::Comment(s.subrange(i + 1, end)), end))
    } else {
        Err(TokenErrView::CommentNotStarted)
    }
}

/// The string that begins at `i`.
pub open spec fn string_at(s: Seq<char>, i: int) -> Scan {
    if 0 <= i < s.len() && s[i] == '"' {
        let end = string_end(s, i + 1);
        if end < s.len() {
            Ok((TokenKindView::String(s.subrange(i + 1, end)), end + 1))
        } else {
            Err(TokenErrView::StringUnclosed(s.subrange(i + 1, s.len() as int)))
        }
    } else {
        Err(TokenErrView::StringNotStarted)
    }
}

/// An atom that begins at `i` is read as a number.
pub open spec fn starts_number(s: Seq<char>, i: int) -> bool {
    ||| is_digit(s[i])
    ||| ((s[i] == '-' || s[i] == '+') && i + 1 < s.len() && is_digit(s[i + 1]))
}

/// The atom that is read as the boolean of truth.
pub open spec fn word_true() -> Seq<char> {
    seq!['t', 'r', 'u', 'e']
}

/// The atom that is read as the boolean of falsehood.
pub open spec fn word_false() -> Seq<char> {
    seq!['f', 'a', 'l', 's', 'e']
}

/// What an atom with the given text is, if it is no number.
pub open spec fn word_kind(text: Seq<char>) -> TokenKindView {
    if text == word_true() {
        TokenKindView::Bool(true)
    } else if text == word_false() {
        TokenKindView::Bool(false)
    } else {
        TokenKindView::Identifier(text)
    }
}

/// The atom that begins at `i`.
pub open spec fn atom_at(s: Seq<char>, i: int) -> Scan {
    if 0 <= i < s.len() && !is_delimiter(s[i]) {
        let end = atom_end(s, i);
        let text = s.subrange(i, end);
        if starts_number(s, i) {
            if is_number_literal(text) {
                Ok((TokenKindView::Number(literal_value(text)), end))
            } else {
                Err(TokenErrView::IdentifierBeginsWithNumber(text))
            }
        } else {
            Ok((word_kind(text), end))
        }
    } else {
        Err(TokenErrView::IdentifierNotStarted)
    }
}

/// The token that begins at `i`. Where `i` holds a space, or lies outside
/// the text, no token begins, and it is an identifier that is missed.
pub open spec fn token_at(s: Seq<char>, i: int) -> Scan {
    if !(0 <= i < s.len()) {
        atom_at(s, i)
    } else if s[i] == '(' {
        Ok((TokenKindView::Symbol(Symbol::Open), i + 1))
    } else if s[i] == ')' {
        Ok((TokenKindView::Symbol(Symbol::Close), i + 1))
    } else if s[i] == ';' {
        comment_at(s, i)
    } else if s[i] == '"' {
        string_at(s, i)
    } else {
        atom_at(s, i)
    }
}

/// What splitting a text gives: its tokens, or the first failure and its
/// place.
pub type Scanned = Result<Seq<TokenView>, (TokenErrView, Location)>;

/// `done` in front of what `rest` holds.
pub open spec fn after(done: Seq<TokenView>, rest: Scanned) -> Scanned {
    match rest {
        Ok(tokens) => Ok(done + tokens),
        Err(e) => Err(e),
    }
}

/// The token of the given kind that was read from `s[i..next]`.
pub open spec fn token_read(
    s: Seq<char>,
    i: int,
    kind: TokenKindView,
    next: int,
    path: Option<PathBuf>,
) -> TokenView {
    TokenView { kind, raw_value: s.subrange(i, next), location: location_at(s, i, path) }
}

/// The tokens of `s` from index `i` on.
pub open spec fn tokens_from(s: Seq<char>, i: int, path: Option<PathBuf>) -> Scanned
    decreases s.len() - i,
{
    if i < 0 || i >= s.len() {
        Ok(Seq::empty())
    } else if is_space(s[i]) {
        tokens_from(s, i + 1, path)
    } else {
        match token_at(s, i) {
            Err(e) => Err((e, location_at(s, i, path))),
            Ok((kind, next)) => {
                proof {
                    lemma_token_at_advances(s, i);
                }
                after(
                    seq![token_read(s, i, kind, next, path)],
                    tokens_from(s, next, path),
                )
            },
        }
    }
}

/// The tokens of a text.
pub open spec fn tokens_of(s: Seq<char>, path: Option<PathBuf>) -> Scanned {
    tokens_from(s, 0, path)
}

/// Where a character is first found, it stands, and not before.
pub proof fn lemma_find_char(s: Seq<char>, i: int, c: char)
    requires
        0 <= i <= s.len(),
    ensures
        i <= find_char(s, i, c) <= s.len(),
        find_char(s, i, c) < s.len() ==> s[find_char(s, i, c)] == c,
        forall|k: int| i <= k < find_char(s, i, c) ==> s[k] != c,
    decreases s.len() - i,
{
    if i < s.len() && s[i] != c {
        lemma_find_char(s, i + 1, c);
    }
}

/// Where an atom ends, a delimiter stands or the text ends, and no delimiter
/// stands before.
pub proof fn lemma_atom_end(s: Seq<char>, i: int)
    requires
        0 <= i <= s.len(),
    ensures
        i <= atom_end(s, i) <= s.len(),
        atom_end(s, i) < s.len() ==> is_delimiter(s[atom_end(s, i)]),
        forall|k: int| i <= k < atom_end(s, i) ==> !is_delimiter(s[k]),
    decreases s.len() - i,
{
    if i < s.len() && !is_delimiter(s[i]) {
        lemma_atom_end(s, i + 1);
    }
}

/// Where a string is closed, a quote stands, at or after the index where
/// the contents begin.
pub proof fn lemma_string_end(s: Seq<char>, i: int)
    requires
        0 <= i,
    ensures
        string_end(s, i) <= s.len(),
        string_end(s, i) < s.len() ==> i <= string_end(s, i) && s[string_end(s, i)] == '"',
    decreases s.len() - i,
{
    if i < s.len() && s[i] != '"' {
        if s[i] == '\\' {
            if i + 1 < s.len() {
                lemma_string_end(s, i + 2);
            }
        } else {
            lemma_string_end(s, i + 1);
        }
    }
}

/// A token is at least one character long and ends within the text.
pub proof fn lemma_token_at_advances(s: Seq<char>, i: int)
    requires
        0 <= i < s.len(),
    ensures
        token_at(s, i) matches Ok((_, next)) ==> i < next <= s.len(),
{
    lemma_find_char(s, i + 1, '\n');
    lemma_string_end(s, i + 1);
    lemma_atom_end(s, i);
}

/// Neither line nor column is greater than the index.
pub proof fn lemma_position_bounds(s: Seq<char>, i: int)
    requires
        0 <= i,
    ensures
        line_at(s, i) <= i,
        column_at(s, i) <= i,
    decreases i,
{
    if i > 0 {
        lemma_position_bounds(s, i - 1);
    }
}

/// The index at which each token of `s` from `i` on begins.
pub open spec fn token_starts(s: Seq<char>, i: int) -> Seq<int>
    decreases s.len() - i,
{
    if i < 0 || i >= s.len() {
        Seq::empty()
    } else if is_space(s[i]) {
        token_starts(s, i + 1)
    } else {
        match token_at(s, i) {
            Err(_) => Seq::empty(),
            Ok((_, next)) => {
                proof {
                    lemma_token_at_advances(s, i);
                }
                seq![i] + token_starts(s, next)
            },
        }
    }
}

/// One place comes before the other in a text.
pub open spec fn comes_before(a: Location, b: Location) -> bool {
    a.line < b.line || (a.line == b.line && a.column < b.column)
}

/// Each token carries the place of the index at which it begins, and the
/// tokens begin one after the other.
pub proof fn lemma_token_places(s: Seq<char>, i: int, path: Option<PathBuf>)
    requires
        0 <= i,
    ensures
        tokens_from(s, i, path) matches Ok(tokens) ==> {
            &&& tokens.len() == token_starts(s, i).len()
            &&& forall|k: int|
                0 <= k < tokens.len() ==> (#[trigger] tokens[k]).location == location_at(
                    s,
                    token_starts(s, i)[k],
                    path,
                )
        },
        forall|k: int|
            0 <= k < token_starts(s, i).len() ==> i <= #[trigger] token_starts(s, i)[k] < s.len(),
        forall|a: int, b: int|
            0 <= a < b < token_starts(s, i).len() ==> #[trigger] token_starts(s, i)[a]
                < #[trigger] token_starts(s, i)[b],
    decreases s.len() - i,
{
    if i >= s.len() {
        // no token is left
    } else if is_space(s[i]) {
        lemma_token_places(s, i + 1, path);
    } else {
        match token_at(s, i) {
            Err(_) => {},
            Ok((kind, next)) => {
                lemma_token_at_advances(s, i);
                lemma_token_places(s, next, path);
            },
        }
    }
}

/// Further on in a text the line is the same and the column greater, or the
/// line is greater.
pub proof fn lemma_places_grow(s: Seq<char>, i: int, j: int)
    requires
        0 <= i < j,
    ensures
        line_at(s, i) < line_at(s, j) || (line_at(s, i) == line_at(s, j) && column_at(s, i)
            < column_at(s, j)),
    decreases j - i,
{
    if i + 1 < j {
        lemma_places_grow(s, i, j - 1);
    }
}

/// The tokens of a text come in the order of the text: each one begins
/// before the next.
pub proof fn law_tokens_in_order(s: Seq<char>, path: Option<PathBuf>, a: int, b: int)
    requires
        s.len() <= usize::MAX,
        tokens_of(s, path) matches Ok(tokens) && 0 <= a < b < tokens.len(),
    ensures
        comes_before(tokens_of(s, path)->Ok_0[a].location, tokens_of(s, path)->Ok_0[b].location),
{
    lemma_token_places(s, 0, path);
    let starts = token_starts(s, 0);
    lemma_places_grow(s, starts[a], starts[b]);
    lemma_position_bounds(s, starts[a]);
    lemma_position_bounds(s, starts[b]);
}

/// Whether the character separates tokens.
fn is_space_char(c: char) -> (r: bool)
    ensures
        r == is_space(c),
{
    c == ' ' || c == '\t' || c == '\n'
}

/// Whether the character ends an atom.
fn is_delimiter_char(c: char) -> (r: bool)
    ensures
        r == is_delimiter(c),
{
    is_space_char(c) || c == '(' || c == ')' || c == ';' || c == '"'
}

/// Whether a reading agrees with what the text holds.
pub open spec fn scan_agrees(r: Result<(TokenKind, usize), TokenErr>, scan: Scan) -> bool {
    match (r, scan) {
        (Ok((kind, next)), Ok((k, n))) => kind@ == k && next == n,
        (Err(e), Err(v)) => e@ == v,
        _ => false,
    }
}

/// Whether a result agrees with what the text holds.
pub open spec fn scanned_agrees(r: Result<Vec<Token>, Error<TokenErr>>, scanned: Scanned) -> bool {
    match (r, scanned) {
        (Ok(tokens), Ok(views)) => token_views(tokens@) == views,
        (Err(e), Err((kind, location))) => e.kind@ == kind && e.location == location,
        _ => false,
    }
}

/// The reader of tokens.
pub struct Tokenizer;

impl Tokenizer {
    /// Reads the comment that begins at `start` with `;`: all up to the end
    /// of the line.
    pub fn read_comment(chars: &Vec<char>, start: usize) -> (r: Result<(TokenKind, usize), TokenErr>)
        ensures
            scan_agrees(r, comment_at(chars@, start as int)),
    {
        if start >= chars.len() || chars[start] != ';' {
            return Err(TokenErr::Comment(CommentErr::NotStarted));
        }
        let mut end: usize = start + 1;
        while end < chars.len() && chars[end] != '\n'
            invariant
                start < end <= chars.len(),
                find_char(chars@, start + 1, '\n') == find_char(chars@, end as int, '\n'),
            decreases chars.len() - end,
        {
            end += 1;
        }
        Ok((TokenKind::Comment(string_of_range(chars, start + 1, end)), end))
    }

    /// Reads the string that begins at `start` with `"`: all up to the quote
    /// that closes it.
    pub fn read_string(chars: &Vec<char>, start: usize) -> (r: Result<(TokenKind, usize), TokenErr>)
        ensures
            scan_agrees(r, string_at(chars@, start as int)),
    {
        let len = chars.len();
        if start >= len || chars[start] != '"' {
            return Err(TokenErr::String(StringErr::NotStarted));
        }
        let mut end: usize = start + 1;
        while end < len && chars[end] != '"'
            invariant
                start < end <= len == chars.len(),
                string_end(chars@, start + 1) == string_end(chars@, end as int),
            decreases len - end,
        {
            if chars[end] == '\\' && end + 1 < len {
                end += 2;
            } else if chars[end] == '\\' {
                end = len;
            } else {
                end += 1;
            }
        }
        if end < len {
            Ok((TokenKind::String(string_of_range(chars, start + 1, end)), end + 1))
        } else {
            let contents = string_of_range(chars, start + 1, len);
            Err(TokenErr::String(StringErr::Unclosed(UnclosedString { contents })))
        }
    }

    /// Reads the atom that begins at `start`: a number, `true`, `false` or an
    /// identifier.
    pub fn read_atom(chars: &Vec<char>, start: usize) -> (r: Result<(TokenKind, usize), TokenErr>)
        ensures
            scan_agrees(r, atom_at(chars@, start as int)),
    {
        let len = chars.len();
        if start >= len || is_delimiter_char(chars[start]) {
            return Err(TokenErr::Identifier(IdentifierErr::NotStarted));
        }
        let mut end: usize = start + 1;
        while end < len && !is_delimiter_char(chars[end])
            invariant
                start < end <= len == chars.len(),
                atom_end(chars@, start as int) == atom_end(chars@, end as int),
            decreases len - end,
        {
            end += 1;
        }
        let text = copy_range(chars, start, end);
        let first = chars[start];
        let numeric = is_digit_char(first) || ((first == '-' || first == '+') && start + 1 < len
            && is_digit_char(chars[start + 1]));
        if numeric {
            match Number::from_chars(&text) {
                Some(n) => Ok((TokenKind::Number(n), end)),
                None => {
                    let got = string_of_range(chars, start, end);
                    Err(TokenErr::Identifier(IdentifierErr::BeginsWithNumber { got }))
                },
            }
        } else if text.len() == 4 && text[0] == 't' && text[1] == 'r' && text[2] == 'u' && text[3]
            == 'e' {
            assert(text@ == word_true());
            Ok((TokenKind::Bool(true), end))
        } else if text.len() == 5 && text[0] == 'f' && text[1] == 'a' && text[2] == 'l' && text[3]
            == 's' && text[4] == 'e' {
            assert(text@ == word_false());
            Ok((TokenKind::Bool(false), end))
        } else {
            assert(text@ != word_true());
            assert(text@ != word_false()) by {
                if text@ == word_false() {
                    assert(text@[0] == 'f' && text@[1] == 'a' && text@[2] == 'l' && text@[3] == 's'
                        && text@[4] == 'e');
                }
            }
            Ok((TokenKind::Identifier(string_of_range(chars, start, end)), end))
        }
    }

    /// Reads the token that begins at `start`, whatever its kind.
    pub fn read_token(chars: &Vec<char>, start: usize) -> (r: Result<(TokenKind, usize), TokenErr>)
        ensures
            scan_agrees(r, token_at(chars@, start as int)),
            r matches Ok((_, next)) ==> start < next <= chars.len(),
    {
        if start >= chars.len() {
            return Self::read_atom(chars, start);
        }
        proof {
            lemma_token_at_advances(chars@, start as int);
        }
        let c = chars[start];
        if c == '(' {
            Ok((TokenKind::Symbol(Symbol::Open), start + 1))
        } else if c == ')' {
            Ok((TokenKind::Symbol(Symbol::Close), start + 1))
        } else if c == ';' {
            Self::read_comment(chars, start)
        } else if c == '"' {
            Self::read_string(chars, start)
        } else {
            Self::read_atom(chars, start)
        }
    }

    /// Splits a text into its tokens. Each token carries the line and column
    /// at which it begins, and `path`. The first token that cannot be read
    /// ends the reading.
    pub fn tokenize(contents: &str, path: Option<PathBuf>) -> (r: Result<
        Vec<Token>,
        Error<TokenErr>,
    >)
        ensures
            scanned_agrees(r, tokens_of(contents@, path)),
    {
        let chars = to_chars(contents);
        let len = chars.len();
        let mut tokens: Vec<Token> = Vec::new();
        let mut i: usize = 0;
        let mut line: usize = 0;
        let mut column: usize = 0;
        assert(after(Seq::empty(), tokens_from(chars@, 0, path)) == tokens_from(chars@, 0, path))
            by {
            match tokens_from(chars@, 0, path) {
                Ok(t) => assert(Seq::<TokenView>::empty() + t =~= t),
                Err(_) => {},
            }
        }
        while i < len
            invariant
                i <= len == chars.len(),
                chars@ == contents@,
                line == line_at(chars@, i as int),
                column == column_at(chars@, i as int),
                tokens_from(chars@, 0, path) == after(
                    token_views(tokens@),
                    tokens_from(chars@, i as int, path),
                ),
            decreases len - i,
        {
            let c = chars[i];
            proof {
                lemma_position_bounds(chars@, i as int);
            }
            if is_space_char(c) {
                if c == '\n' {
                    line += 1;
                    column = 0;
                } else {
                    column += 1;
                }
                i += 1;
            } else {
                let location = Location::at(line, column, &path);
                match Self::read_token(&chars, i) {
                    Err(kind) => {
                        return Err(Error { kind, location });
                    },
                    Ok((kind, next)) => {
                        let ghost before = token_views(tokens@);
                        let ghost view = token_read(chars@, i as int, kind@, next as int, path);
                        let raw_value = string_of_range(&chars, i, next);
                        while i < next
                            invariant
                                i <= next <= len == chars.len(),
                                line == line_at(chars@, i as int),
                                column == column_at(chars@, i as int),
                            decreases next - i,
                        {
                            proof {
                                lemma_position_bounds(chars@, i as int);
                            }
                            if chars[i] == '\n' {
                                line += 1;
                                column = 0;
                            } else {
                                column += 1;
                            }
                            i += 1;
                        }
                        tokens.push(Token { kind, raw_value, location });
                        proof {
                            let rest = tokens_from(chars@, next as int, path);
                            assert(token_views(tokens@) =~= before.push(view));
                            match rest {
                                Ok(t) => {
                                    assert(before + (seq![view] + t) =~= before.push(view) + t);
                                },
                                Err(_) => {},
                            }
                        }
                    },
                }
            }
        }
        Ok(tokens)
    }
}

} // verus!
