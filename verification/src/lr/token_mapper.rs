//! Terminal names and ids as the parser sees them.
use vstd::prelude::*;
use crate::cfg::TerminalId;
use crate::lr::error::{LRError, LRErrorKind};
use crate::token_mapper::{Token, TokenKind, terminal_of, token_matches, unknown_token_text};

verus! {

/// The terminals of a grammar by name, and the end marker.
#[derive(Debug)]
pub struct TokenMapper {
    terminal_map: Vec<(String, TerminalId)>,
    terminal_names: Vec<String>,
    end_marker: TerminalId,
}

impl TokenMapper {
    /// The names of the terminals, by id.
    pub closed spec fn spec_names(&self) -> Seq<String> {
        self.terminal_names@
    }

    /// The name-to-id pairs.
    pub closed spec fn spec_map(&self) -> Seq<(String, TerminalId)> {
        self.terminal_map@
    }

    /// The id of the end marker.
    pub closed spec fn spec_end_marker(&self) -> TerminalId {
        self.end_marker
    }

    pub fn new(terminal_map: Vec<(String, TerminalId)>, terminal_names: Vec<String>, end_marker: TerminalId) -> (res:
        Self)
        ensures
            res.spec_map() == terminal_map@,
            res.spec_names() == terminal_names@,
            res.spec_end_marker() == end_marker,
    {
        TokenMapper { terminal_map, terminal_names, end_marker }
    }

    pub fn end_marker(&self) -> (res: TerminalId)
        ensures
            res == self.spec_end_marker(),
    {
        self.end_marker
    }

    /// The name of terminal `id`.
    pub fn get_terminal_name(&self, id: TerminalId) -> (res: &str)
        requires
            id.0 < self.spec_names().len(),
        ensures
            res@ == self.spec_names()[id.0 as int]@,
    {
        self.terminal_names[id.0].as_str()
    }

    /// The terminal a token kind maps to, if any (see `terminal_of`).
    pub fn terminal_id_from_token(&self, kind: &TokenKind) -> (res: Option<TerminalId>)
        ensures
            res == terminal_of(kind@, self.spec_map(), self.spec_end_marker()),
    {
        crate::token_mapper::terminal_id_from_token(kind, self.terminal_map.as_slice(), self.end_marker)
    }

    /// The terminal of a token, or an error naming the token.
    pub fn get_terminal_id(&self, token: &Token) -> (res: Result<TerminalId, LRError>)
        ensures
            terminal_of(token.kind@, self.spec_map(), self.spec_end_marker()) matches Some(t) ==> res == Ok::<
                TerminalId,
                LRError,
            >(t),
            terminal_of(token.kind@, self.spec_map(), self.spec_end_marker()) is None ==> (res matches Err(e)
                && e.position is None && e.context is None && (e.kind matches LRErrorKind::InvalidGrammar { message }
                && message@ == unknown_token_text(token.kind@, token.lexeme@, token.line, token.column))),
    {
        match self.terminal_id_from_token(&token.kind) {
            Some(t) => Ok(t),
            None => Err(LRError::invalid_grammar(crate::token_mapper::unknown_token_message(token))),
        }
    }

    /// Whether a token of this kind matches terminal `expected` (see `token_matches`).
    pub fn matches_terminal(&self, expected: TerminalId, kind: &TokenKind) -> (res: bool)
        requires
            expected.0 < self.spec_names().len(),
        ensures
            res == token_matches(expected, kind@, self.spec_names()[expected.0 as int]@, self.spec_end_marker()),
    {
        crate::token_mapper::matches_terminal(expected, kind, self.get_terminal_name(expected), self.end_marker)
    }

    /// The terminals of the tokens, in order, leaving out the end marker; or the
    /// error for the first token that maps to no terminal, at its position.
    pub fn tokenize(&self, tokens: &[Token]) -> (res: Result<Vec<TerminalId>, LRError>)
        ensures
            tokenize_outcome(self.spec_map(), self.spec_end_marker(), tokens@, res),
    {
        let mut result: Vec<TerminalId> = Vec::new();
        let mut i: usize = 0;
        while i < tokens.len()
            invariant
                i <= tokens@.len(),
                forall|j: int| 0 <= j < i ==> #[trigger] terminal_of(tokens@[j].kind@, self.spec_map(), self.spec_end_marker())
                    is Some,
                result@ == mapped_ids(self.spec_map(), self.spec_end_marker(), tokens@.take(i as int)),
            decreases tokens@.len() - i,
        {
            let t = match self.get_terminal_id(&tokens[i]) {
                Ok(t) => t,
                Err(e) => {
                    return Err(e.with_position(i));
                },
            };
            proof {
                assert(tokens@.take(i + 1).drop_last() =~= tokens@.take(i as int));
                assert(tokens@.take(i + 1).last() == tokens@[i as int]);
            }
            if t.0 != self.end_marker.0 {
                result.push(t);
            }
            i = i + 1;
        }
        assert(tokens@.take(tokens@.len() as int) =~= tokens@);
        Ok(result)
    }
}

/// Every token maps to a terminal.
pub open spec fn all_known(map: Seq<(String, TerminalId)>, end_marker: TerminalId, tokens: Seq<Token>) -> bool {
    forall|i: int| 0 <= i < tokens.len() ==> #[trigger] terminal_of(tokens[i].kind@, map, end_marker) is Some
}

/// `e` is the error for token `i`, the first that maps to no terminal.
pub open spec fn unknown_token_error(
    map: Seq<(String, TerminalId)>,
    end_marker: TerminalId,
    tokens: Seq<Token>,
    e: LRError,
) -> bool {
    exists|i: int|
        0 <= i < tokens.len() && e.position == Some(i as usize) && e.context is None && (forall|j: int|
            0 <= j < i ==> #[trigger] terminal_of(tokens[j].kind@, map, end_marker) is Some) && terminal_of(
            tokens[i].kind@,
            map,
            end_marker,
        ) is None && (e.kind matches LRErrorKind::InvalidGrammar { message } && message@ == unknown_token_text(
            tokens[i].kind@,
            tokens[i].lexeme@,
            tokens[i].line,
            tokens[i].column,
        ))
}

/// `res` is what tokenizing gives: the mapped terminals when every token maps to
/// one, else the error for the first that does not.
pub open spec fn tokenize_outcome(
    map: Seq<(String, TerminalId)>,
    end_marker: TerminalId,
    tokens: Seq<Token>,
    res: Result<Vec<TerminalId>, LRError>,
) -> bool {
    match res {
        Ok(v) => all_known(map, end_marker, tokens) && v@ == mapped_ids(map, end_marker, tokens),
        Err(e) => !all_known(map, end_marker, tokens) && unknown_token_error(map, end_marker, tokens, e),
    }
}

/// The terminals of the tokens that map to one, in order, leaving out the end marker.
pub open spec fn mapped_ids(map: Seq<(String, TerminalId)>, end_marker: TerminalId, tokens: Seq<Token>) -> Seq<
    TerminalId,
>
    decreases tokens.len(),
{
    if tokens.len() == 0 {
        Seq::empty()
    } else {
        let prev = mapped_ids(map, end_marker, tokens.drop_last());
        match terminal_of(tokens.last().kind@, map, end_marker) {
            Some(t) => if t == end_marker {
                prev
            } else {
                prev.push(t)
            },
            None => prev,
        }
    }
}

} // verus!
