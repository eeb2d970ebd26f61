//! Tokens of the source text and how they map to the terminals of a grammar.
//!
//! A named token (identifier, keyword, operator, delimiter) maps to the terminal
//! of the same name; a number to the terminal `NUM` or, failing that, `num`; a
//! string literal to `STRING`; the end of input to the end marker.
use vstd::prelude::*;
use vstd::string::StrSliceExecFns;
use crate::cfg::TerminalId;
use crate::text::{decimal, int_text, push_i64, push_str, push_usize, str_eq};

verus! {

/// The kind of a token, with what it carries. A floating-point literal is kept
/// by its bits.
#[derive(Debug)]
pub enum TokenKind {
    Identifier(String),
    Keyword(String),
    Operator(String),
    Delimiter(String),
    Integer(i64),
    Float(u64),
    StringLiteral(String),
    Eof,
    /// A kind no terminal stands for (such as a comment), with its text.
    Unknown(String),
}

/// A token kind as the logic sees it: names by their characters.
pub enum TokenKindView {
    Identifier(Seq<char>),
    Keyword(Seq<char>),
    Operator(Seq<char>),
    Delimiter(Seq<char>),
    Integer(i64),
    Float(u64),
    StringLiteral(Seq<char>),
    Eof,
    Unknown(Seq<char>),
}

impl View for TokenKind {
    type V = TokenKindView;

    open spec fn view(&self) -> TokenKindView {
        match self {
            TokenKind::Identifier(s) => TokenKindView::Identifier(s@),
            TokenKind::Keyword(s) => TokenKindView::Keyword(s@),
            TokenKind::Operator(s) => TokenKindView::Operator(s@),
            TokenKind::Delimiter(s) => TokenKindView::Delimiter(s@),
            TokenKind::Integer(v) => TokenKindView::Integer(*v),
            TokenKind::Float(b) => TokenKindView::Float(*b),
            TokenKind::StringLiteral(s) => TokenKindView::StringLiteral(s@),
            TokenKind::Eof => TokenKindView::Eof,
            TokenKind::Unknown(s) => TokenKindView::Unknown(s@),
        }
    }
}

/// A token: its kind, its text, and where it starts.
#[derive(Debug)]
pub struct Token {
    pub kind: TokenKind,
    pub lexeme: String,
    pub line: usize,
    pub column: usize,
}

impl Token {
    pub fn new(kind: TokenKind, lexeme: String, line: usize, column: usize) -> (res: Self)
        ensures
            res.kind@ == kind@,
            res.lexeme@ == lexeme@,
            res.line == line,
            res.column == column,
    {
        Token { kind, lexeme, line, column }
    }
}

/// The terminal named `name` in a name table: the first entry with that name.
pub open spec fn lookup(map: Seq<(String, TerminalId)>, name: Seq<char>) -> Option<TerminalId>
    decreases map.len(),
{
    if map.len() == 0 {
        None
    } else if map[0].0@ == name {
        Some(map[0].1)
    } else {
        lookup(map.skip(1), name)
    }
}

/// The terminal a token kind maps to, if any.
pub open spec fn terminal_of(kind: TokenKindView, map: Seq<(String, TerminalId)>, end_marker: TerminalId) -> Option<
    TerminalId,
> {
    match kind {
        TokenKindView::Identifier(n) => lookup(map, n),
        TokenKindView::Keyword(n) => lookup(map, n),
        TokenKindView::Operator(n) => lookup(map, n),
        TokenKindView::Delimiter(n) => lookup(map, n),
        TokenKindView::Integer(_) | TokenKindView::Float(_) => match lookup(map, "NUM"@) {
            Some(t) => Some(t),
            None => lookup(map, "num"@),
        },
        TokenKindView::StringLiteral(_) => lookup(map, "STRING"@),
        TokenKindView::Eof => Some(end_marker),
        TokenKindView::Unknown(_) => None,
    }
}

/// `s` is `NUM` up to the case of its ASCII letters.
pub open spec fn is_num_name(s: Seq<char>) -> bool {
    &&& s.len() == 3
    &&& (s[0] == 'n' || s[0] == 'N')
    &&& (s[1] == 'u' || s[1] == 'U')
    &&& (s[2] == 'm' || s[2] == 'M')
}

/// A token of this kind matches the terminal `expected`, named `expected_name`.
pub open spec fn token_matches(
    expected: TerminalId,
    kind: TokenKindView,
    expected_name: Seq<char>,
    end_marker: TerminalId,
) -> bool {
    match kind {
        TokenKindView::Identifier(n) => n == expected_name,
        TokenKindView::Keyword(n) => n == expected_name,
        TokenKindView::Operator(n) => n == expected_name,
        TokenKindView::Delimiter(n) => n == expected_name,
        TokenKindView::Integer(_) | TokenKindView::Float(_) => is_num_name(expected_name),
        TokenKindView::StringLiteral(_) => expected_name == "STRING"@,
        TokenKindView::Eof => expected == end_marker,
        TokenKindView::Unknown(_) => false,
    }
}

/// The terminal named `name` in the name table, if any (see `lookup`).
pub fn lookup_terminal(map: &[(String, TerminalId)], name: &str) -> (res: Option<TerminalId>)
    ensures
        res == lookup(map@, name@),
{
    let mut i: usize = 0;
    assert(map@.skip(0) =~= map@);
    while i < map.len()
        invariant
            i <= map@.len(),
            lookup(map@, name@) == lookup(map@.skip(i as int), name@),
        decreases map@.len() - i,
    {
        let ghost rest = map@.skip(i as int);
        assert(rest[0] == map@[i as int]);
        assert(rest.skip(1) =~= map@.skip(i + 1));
        if str_eq(map[i].0.as_str(), name) {
            return Some(map[i].1);
        }
        i = i + 1;
    }
    assert(map@.skip(i as int).len() == 0);
    None
}

/// The terminal a token kind maps to in the name table, if any (see `terminal_of`).
pub fn terminal_id_from_token(kind: &TokenKind, map: &[(String, TerminalId)], end_marker: TerminalId) -> (res:
    Option<TerminalId>)
    ensures
        res == terminal_of(kind@, map@, end_marker),
{
    match kind {
        TokenKind::Identifier(name) => lookup_terminal(map, name.as_str()),
        TokenKind::Keyword(name) => lookup_terminal(map, name.as_str()),
        TokenKind::Operator(name) => lookup_terminal(map, name.as_str()),
        TokenKind::Delimiter(name) => lookup_terminal(map, name.as_str()),
        TokenKind::Integer(_) | TokenKind::Float(_) => match lookup_terminal(map, "NUM") {
            Some(t) => Some(t),
            None => lookup_terminal(map, "num"),
        },
        TokenKind::StringLiteral(_) => lookup_terminal(map, "STRING"),
        TokenKind::Eof => Some(end_marker),
        TokenKind::Unknown(_) => None,
    }
}

/// Whether `s` is `NUM` up to the case of its ASCII letters.
pub(crate) fn num_name(s: &str) -> (res: bool)
    ensures
        res == is_num_name(s@),
{
    if s.unicode_len() != 3 {
        return false;
    }
    let a = s.get_char(0);
    let b = s.get_char(1);
    let c = s.get_char(2);
    (a == 'n' || a == 'N') && (b == 'u' || b == 'U') && (c == 'm' || c == 'M')
}

/// Whether a token of this kind matches the terminal `expected`, named
/// `expected_name` (see `token_matches`).
pub fn matches_terminal(expected: TerminalId, kind: &TokenKind, expected_name: &str, end_marker: TerminalId) -> (res:
    bool)
    ensures
        res == token_matches(expected, kind@, expected_name@, end_marker),
{
    match kind {
        TokenKind::Identifier(name) => str_eq(name.as_str(), expected_name),
        TokenKind::Keyword(name) => str_eq(name.as_str(), expected_name),
        TokenKind::Operator(name) => str_eq(name.as_str(), expected_name),
        TokenKind::Delimiter(name) => str_eq(name.as_str(), expected_name),
        TokenKind::Integer(_) | TokenKind::Float(_) => num_name(expected_name),
        TokenKind::StringLiteral(_) => {
            proof {
                reveal_strlit("STRING");
            }
            str_eq(expected_name, "STRING")
        },
        TokenKind::Eof => expected.0 == end_marker.0,
        TokenKind::Unknown(_) => false,
    }
}

/// The printed form of a token kind; a floating-point literal is shown by the
/// token's text `lexeme`.
pub open spec fn kind_text(kind: TokenKindView, lexeme: Seq<char>) -> Seq<char> {
    match kind {
        TokenKindView::Identifier(n) => "Identifier(\""@ + n + "\")"@,
        TokenKindView::Keyword(n) => "Keyword(\""@ + n + "\")"@,
        TokenKindView::Operator(n) => "Operator(\""@ + n + "\")"@,
        TokenKindView::Delimiter(n) => "Delimiter(\""@ + n + "\")"@,
        TokenKindView::Integer(v) => "Integer("@ + int_text(v as int) + ")"@,
        TokenKindView::Float(_) => "Float("@ + lexeme + ")"@,
        TokenKindView::StringLiteral(n) => "StringLiteral(\""@ + n + "\")"@,
        TokenKindView::Eof => "Eof"@,
        TokenKindView::Unknown(n) => "Unknown(\""@ + n + "\")"@,
    }
}

/// The message for a token that maps to no terminal.
pub open spec fn unknown_token_text(kind: TokenKindView, lexeme: Seq<char>, line: usize, column: usize) -> Seq<
    char,
> {
    "Unknown token: "@ + kind_text(kind, lexeme) + " at line "@ + decimal(line as nat) + " col "@ + decimal(
        column as nat,
    )
}

/// Appends `open`, `n` and `close`.
fn push_wrapped(s: &mut String, open: &str, n: &str, close: &str)
    ensures
        final(s)@ == old(s)@ + open@ + n@ + close@,
{
    push_str(s, open);
    push_str(s, n);
    push_str(s, close);
}

/// The message for a token that maps to no terminal (see `unknown_token_text`).
pub fn unknown_token_message(token: &Token) -> (res: String)
    ensures
        res@ == unknown_token_text(token.kind@, token.lexeme@, token.line, token.column),
{
    let mut s = String::new();
    push_str(&mut s, "Unknown token: ");
    let ghost before = s@;
    match &token.kind {
        TokenKind::Identifier(n) => push_wrapped(&mut s, "Identifier(\"", n.as_str(), "\")"),
        TokenKind::Keyword(n) => push_wrapped(&mut s, "Keyword(\"", n.as_str(), "\")"),
        TokenKind::Operator(n) => push_wrapped(&mut s, "Operator(\"", n.as_str(), "\")"),
        TokenKind::Delimiter(n) => push_wrapped(&mut s, "Delimiter(\"", n.as_str(), "\")"),
        TokenKind::Integer(v) => {
            push_str(&mut s, "Integer(");
            push_i64(&mut s, *v);
            push_str(&mut s, ")");
        },
        TokenKind::Float(_) => push_wrapped(&mut s, "Float(", token.lexeme.as_str(), ")"),
        TokenKind::StringLiteral(n) => push_wrapped(&mut s, "StringLiteral(\"", n.as_str(), "\")"),
        TokenKind::Eof => push_str(&mut s, "Eof"),
        TokenKind::Unknown(n) => push_wrapped(&mut s, "Unknown(\"", n.as_str(), "\")"),
    }
    assert(s@ =~= before + kind_text(token.kind@, token.lexeme@));
    let ghost mid = s@;
    push_str(&mut s, " at line ");
    push_usize(&mut s, token.line);
    push_str(&mut s, " col ");
    push_usize(&mut s, token.column);
    assert(s@ =~= unknown_token_text(token.kind@, token.lexeme@, token.line, token.column));
    s
}

} // verus!
