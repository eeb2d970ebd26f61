//! Grammar-driven parser setup.
use vstd::prelude::*;
use crate::cfg::{ContextFreeGrammar, NonTerminalId, Symbol};
use crate::grammar_text::parse_outcome;
use crate::text::{push_str, str_eq};
use crate::token_mapper::{Token, TokenKind, TokenKindView, is_num_name, num_name};

verus! {

/// A parse error at a line and column.
#[derive(Debug)]
pub struct ParseError {
    pub message: String,
    pub line: usize,
    pub column: usize,
}

impl ParseError {
    pub fn new(message: String, line: usize, column: usize) -> (res: Self)
        ensures
            res.message == message,
            res.line == line,
            res.column == column,
    {
        ParseError { message, line, column }
    }
}

/// Collects the grammar of a parser.
pub struct ParserBuilder {
    cfg: Option<ContextFreeGrammar>,
}

impl ParserBuilder {
    /// The grammar collected so far.
    pub closed spec fn spec_grammar(&self) -> Option<ContextFreeGrammar> {
        self.cfg
    }

    pub fn new() -> (res: Self)
        ensures
            res.spec_grammar() is None,
    {
        ParserBuilder { cfg: None }
    }

    pub fn with_grammar(self, cfg: ContextFreeGrammar) -> (res: Self)
        ensures
            res.spec_grammar() == Some(cfg),
    {
        ParserBuilder { cfg: Some(cfg) }
    }

    /// Reads the grammar from its text form; fails with the reader's message.
    pub fn with_grammar_from_str(self, input: &str) -> (res: Result<Self, String>)
        ensures
            res matches Ok(b) ==> b.spec_grammar() matches Some(g) && parse_outcome(input@, Ok(g)),
            res matches Err(m) ==> parse_outcome(input@, Err(m)),
    {
        match ContextFreeGrammar::parse(input) {
            Ok(cfg) => Ok(ParserBuilder { cfg: Some(cfg) }),
            Err(m) => Err(m),
        }
    }
}

impl ParserBuilder {
    /// A parser for the collected grammar over `stream`, or an error when no
    /// grammar was given.
    pub fn build(self, stream: TokenStream) -> (res: Result<Parser, String>)
        ensures
            self.spec_grammar() matches Some(g) ==> (res matches Ok(p) && p.spec_grammar() == g && p.spec_tokens()
                == stream.spec_tokens() && p.spec_position() == stream.spec_position()),
            self.spec_grammar() is None ==> (res matches Err(m) && m@ == "No grammar provided"@),
    {
        match self.cfg {
            Some(cfg) => Ok(Parser::new(cfg, stream)),
            None => {
                let mut m = String::new();
                push_str(&mut m, "No grammar provided");
                Err(m)
            },
        }
    }
}

impl Default for ParserBuilder {
    fn default() -> (res: Self)
        ensures
            res.spec_grammar() is None,
    {
        Self::new()
    }
}

/// A copy of a token kind.
pub fn copy_kind(k: &TokenKind) -> (res: TokenKind)
    ensures
        res@ == k@,
{
    match k {
        TokenKind::Identifier(s) => TokenKind::Identifier(s.clone()),
        TokenKind::Keyword(s) => TokenKind::Keyword(s.clone()),
        TokenKind::Operator(s) => TokenKind::Operator(s.clone()),
        TokenKind::Delimiter(s) => TokenKind::Delimiter(s.clone()),
        TokenKind::Integer(v) => TokenKind::Integer(*v),
        TokenKind::Float(b) => TokenKind::Float(*b),
        TokenKind::StringLiteral(s) => TokenKind::StringLiteral(s.clone()),
        TokenKind::Eof => TokenKind::Eof,
        TokenKind::Unknown(s) => TokenKind::Unknown(s.clone()),
    }
}

/// Two tokens with the same kind, text and place.
pub open spec fn same_token(a: Token, b: Token) -> bool {
    &&& a.kind@ == b.kind@
    &&& a.lexeme@ == b.lexeme@
    &&& a.line == b.line
    &&& a.column == b.column
}

/// A copy of a token.
pub fn copy_token(t: &Token) -> (res: Token)
    ensures
        same_token(res, *t),
{
    Token { kind: copy_kind(&t.kind), lexeme: t.lexeme.clone(), line: t.line, column: t.column }
}

/// A sequence of tokens with a read position.
pub struct TokenStream {
    tokens: Vec<Token>,
    position: usize,
}

impl TokenStream {
    #[verifier::type_invariant]
    spec fn within(&self) -> bool {
        self.position <= self.tokens@.len()
    }

    /// The tokens.
    pub closed spec fn spec_tokens(&self) -> Seq<Token> {
        self.tokens@
    }

    /// The read position.
    pub closed spec fn spec_position(&self) -> nat {
        self.position as nat
    }

    /// The stream of `tokens`, read from the start.
    pub fn new(tokens: Vec<Token>) -> (res: Self)
        ensures
            res.spec_tokens() == tokens@,
            res.spec_position() == 0,
    {
        TokenStream { tokens, position: 0 }
    }

    /// Moves the read position to `p`.
    pub fn set_position(&mut self, p: usize)
        requires
            p <= old(self).spec_tokens().len(),
        ensures
            final(self).spec_tokens() == old(self).spec_tokens(),
            final(self).spec_position() == p,
    {
        self.position = p;
    }

    /// The read position.
    pub fn position(&self) -> (res: usize)
        ensures
            res == self.spec_position(),
    {
        self.position
    }
}

/// A node of a parse tree as the logic sees it: a non-terminal with its
/// children, the token at a position of the input, or `ε`.
pub enum Tree {
    Node(Seq<char>, Seq<Tree>),
    Leaf(int),
    Eps,
}

/// A node of a parse tree.
#[derive(Debug)]
pub enum ParseTreeNode {
    NonTerminal { name: String, children: Vec<ParseTreeNode> },
    Terminal { token: Token },
    Epsilon,
}

/// `n` is the tree `t` over the input `toks`.
pub open spec fn node_is(n: ParseTreeNode, t: Tree, toks: Seq<Token>) -> bool
    decreases t,
{
    match t {
        Tree::Node(name, kids) => match n {
            ParseTreeNode::NonTerminal { name: nm, children } => nm@ == name && children@.len() == kids.len()
                && forall|i: int| 0 <= i < kids.len() ==> node_is(#[trigger] children@[i], kids[i], toks),
            _ => false,
        },
        Tree::Leaf(i) => match n {
            ParseTreeNode::Terminal { token } => 0 <= i < toks.len() && same_token(token, toks[i]),
            _ => false,
        },
        Tree::Eps => n is Epsilon,
    }
}

/// A token of this kind matches a terminal named `expected` (descent parsing).
pub open spec fn descent_matches(kind: TokenKindView, expected: Seq<char>) -> bool {
    match kind {
        TokenKindView::Identifier(n) => n == expected,
        TokenKindView::Keyword(n) => n == expected,
        TokenKindView::Operator(n) => n == expected,
        TokenKindView::Delimiter(n) => n == expected,
        TokenKindView::Integer(_) => is_num_name(expected) || expected == "INTEGER"@,
        TokenKindView::Float(_) => is_num_name(expected) || expected == "FLOAT"@,
        TokenKindView::StringLiteral(_) => expected == "STRING"@,
        _ => false,
    }
}

/// Recursive descent with backtracking from non-terminal `nt` at `pos`, with at
/// most `fuel` nested non-terminals: `None` when that is not enough, else
/// `Some` of the tree and the position after it, or `Some(None)` on failure.
pub open spec fn descend(g: ContextFreeGrammar, toks: Seq<Token>, nt: NonTerminalId, pos: int, fuel: nat) -> Option<
    Option<(Tree, int)>,
>
    decreases fuel, 0int, 0int,
{
    if fuel == 0 {
        None
    } else {
        descend_alts(g, toks, nt, 0, pos, (fuel - 1) as nat)
    }
}

/// The productions of `nt` from the `k`-th production on, tried in order.
pub open spec fn descend_alts(
    g: ContextFreeGrammar,
    toks: Seq<Token>,
    nt: NonTerminalId,
    k: int,
    pos: int,
    fuel: nat,
) -> Option<Option<(Tree, int)>>
    decreases fuel, 2int, g.productions@.len() - k,
{
    if k < 0 || k >= g.productions@.len() {
        Some(None)
    } else if g.productions@[k].lhs != nt {
        descend_alts(g, toks, nt, k + 1, pos, fuel)
    } else {
        match descend_seq(g, toks, g.productions@[k].rhs@, 0, pos, fuel) {
            None => None,
            Some(Some((kids, p))) => Some(Some((Tree::Node(g.spec_non_terminal_name(nt), kids), p))),
            Some(None) => descend_alts(g, toks, nt, k + 1, pos, fuel),
        }
    }
}

/// The symbols `syms` from the `i`-th on, in order, starting at `pos`.
pub open spec fn descend_seq(
    g: ContextFreeGrammar,
    toks: Seq<Token>,
    syms: Seq<Symbol>,
    i: int,
    pos: int,
    fuel: nat,
) -> Option<Option<(Seq<Tree>, int)>>
    decreases fuel, 1int, syms.len() - i,
{
    if i < 0 || i >= syms.len() {
        Some(Some((Seq::empty(), pos)))
    } else {
        let head: Option<Option<(Tree, int)>> = match syms[i] {
            Symbol::NonTerminal(n) => descend(g, toks, n, pos, fuel),
            Symbol::Terminal(t) => if 0 <= pos < toks.len() && descent_matches(
                toks[pos].kind@,
                g.spec_terminal_name(t),
            ) {
                Some(Some((Tree::Leaf(pos), pos + 1)))
            } else {
                Some(None)
            },
            Symbol::Epsilon => Some(Some((Tree::Eps, pos))),
        };
        match head {
            None => None,
            Some(None) => Some(None),
            Some(Some((t, p))) => match descend_seq(g, toks, syms, i + 1, p, fuel) {
                None => None,
                Some(None) => Some(None),
                Some(Some((rest, q))) => Some(Some((seq![t] + rest, q))),
            },
        }
    }
}

/// Whether a token of this kind matches a terminal named `expected` (see
/// `descent_matches`).
fn descent_token_matches(kind: &TokenKind, expected: &str) -> (res: bool)
    ensures
        res == descent_matches(kind@, expected@),
{
    match kind {
        TokenKind::Identifier(n) => str_eq(n.as_str(), expected),
        TokenKind::Keyword(n) => str_eq(n.as_str(), expected),
        TokenKind::Operator(n) => str_eq(n.as_str(), expected),
        TokenKind::Delimiter(n) => str_eq(n.as_str(), expected),
        TokenKind::Integer(_) => num_name(expected) || str_eq(expected, "INTEGER"),
        TokenKind::Float(_) => num_name(expected) || str_eq(expected, "FLOAT"),
        TokenKind::StringLiteral(_) => str_eq(expected, "STRING"),
        _ => false,
    }
}

/// `r` with `acc` put before the trees it gives.
pub open spec fn after(acc: Seq<Tree>, r: Option<Option<(Seq<Tree>, int)>>) -> Option<Option<(Seq<Tree>, int)>> {
    match r {
        None => None,
        Some(None) => Some(None),
        Some(Some((kids, q))) => Some(Some((acc + kids, q))),
    }
}

/// Recursive descent from non-terminal `nt` at `pos` (see `descend`).
fn descend_nt(g: &ContextFreeGrammar, toks: &Vec<Token>, nt: NonTerminalId, pos: usize, Ghost(fuel): Ghost<nat>) -> (res:
    Option<(ParseTreeNode, usize)>)
    requires
        pos <= toks@.len(),
        descend(*g, toks@, nt, pos as int, fuel) is Some,
    ensures
        match descend(*g, toks@, nt, pos as int, fuel) {
            Some(Some((t, p))) => res matches Some((n, q)) && q == p && node_is(n, t, toks@),
            _ => res is None,
        },
        res matches Some((n, q)) ==> q <= toks@.len(),
    decreases fuel, 0int,
{
    let ghost f1 = (fuel - 1) as nat;
    let ghost target = descend_alts(*g, toks@, nt, 0, pos as int, f1);
    let mut k: usize = 0;
    while k < g.productions.len()
        invariant
            k <= g.productions@.len(),
            pos <= toks@.len(),
            fuel > 0,
            f1 == fuel - 1,
            target == descend(*g, toks@, nt, pos as int, fuel),
            target is Some,
            descend_alts(*g, toks@, nt, k as int, pos as int, f1) == target,
        decreases g.productions@.len() - k,
    {
        if g.productions[k].lhs == nt {
            let rhs = &g.productions[k].rhs;
            assert(rhs@ == g.productions@[k as int].rhs@);
            match descend_syms(g, toks, rhs, pos, Ghost(f1)) {
                Some((children, p)) => {
                    let mut name = String::new();
                    push_str(&mut name, g.get_non_terminal_name(nt));
                    return Some((ParseTreeNode::NonTerminal { name, children }, p));
                },
                None => {},
            }
        }
        k = k + 1;
    }
    None
}

/// Recursive descent through the symbols `syms` at `pos` (see `descend_seq`).
fn descend_syms(g: &ContextFreeGrammar, toks: &Vec<Token>, syms: &Vec<Symbol>, pos: usize, Ghost(fuel): Ghost<nat>) -> (res:
    Option<(Vec<ParseTreeNode>, usize)>)
    requires
        pos <= toks@.len(),
        descend_seq(*g, toks@, syms@, 0, pos as int, fuel) is Some,
    ensures
        match descend_seq(*g, toks@, syms@, 0, pos as int, fuel) {
            Some(Some((kids, p))) => res matches Some((v, q)) && q == p && v@.len() == kids.len() && forall|i: int|
                0 <= i < kids.len() ==> node_is(#[trigger] v@[i], kids[i], toks@),
            _ => res is None,
        },
        res matches Some((v, q)) ==> q <= toks@.len(),
    decreases fuel, 1int,
{
    let ghost target = descend_seq(*g, toks@, syms@, 0, pos as int, fuel);
    let ghost mut acc: Seq<Tree> = Seq::empty();
    let mut children: Vec<ParseTreeNode> = Vec::new();
    let mut cur = pos;
    let mut i: usize = 0;
    assert(after(acc, target) == target) by {
        match target {
            Some(Some((kids, q))) => {
                assert(acc + kids =~= kids);
            },
            _ => {},
        }
    }
    while i < syms.len()
        invariant
            i <= syms@.len(),
            cur <= toks@.len(),
            target == descend_seq(*g, toks@, syms@, 0, pos as int, fuel),
            target is Some,
            after(acc, descend_seq(*g, toks@, syms@, i as int, cur as int, fuel)) == target,
            children@.len() == acc.len(),
            forall|k: int| 0 <= k < acc.len() ==> node_is(#[trigger] children@[k], acc[k], toks@),
        decreases syms@.len() - i,
    {
        let ghost rest = descend_seq(*g, toks@, syms@, i as int, cur as int, fuel);
        let sym = syms[i];
        let ghost acc0 = acc;
        let ghost ch0 = children@;
        match sym {
            Symbol::NonTerminal(n) => {
                match descend_nt(g, toks, n, cur, Ghost(fuel)) {
                    Some((node, p)) => {
                        let ghost t = (descend(*g, toks@, n, cur as int, fuel)->0->0).0;
                        children.push(node);
                        proof {
                            acc = acc0.push(t);
                            assert forall|k: int| 0 <= k < acc.len() implies node_is(#[trigger] children@[k], acc[k], toks@) by {
                                if k < acc0.len() {
                                    assert(children@[k] == ch0[k]);
                                }
                            }
                            match descend_seq(*g, toks@, syms@, i + 1, p as int, fuel) {
                                Some(Some((kids, q))) => {
                                    assert(acc0 + (seq![t] + kids) =~= acc + kids);
                                },
                                _ => {},
                            }
                        }
                        cur = p;
                    },
                    None => {
                        return None;
                    },
                }
            },
            Symbol::Terminal(t) => {
                if cur < toks.len() && descent_token_matches(&toks[cur].kind, g.get_terminal_name(t)) {
                    children.push(ParseTreeNode::Terminal { token: copy_token(&toks[cur]) });
                    proof {
                        acc = acc0.push(Tree::Leaf(cur as int));
                        assert forall|k: int| 0 <= k < acc.len() implies node_is(#[trigger] children@[k], acc[k], toks@) by {
                            if k < acc0.len() {
                                assert(children@[k] == ch0[k]);
                            }
                        }
                        match descend_seq(*g, toks@, syms@, i + 1, cur + 1, fuel) {
                            Some(Some((kids, q))) => {
                                assert(acc0 + (seq![Tree::Leaf(cur as int)] + kids) =~= acc + kids);
                            },
                            _ => {},
                        }
                    }
                    cur = cur + 1;
                } else {
                    return None;
                }
            },
            Symbol::Epsilon => {
                children.push(ParseTreeNode::Epsilon);
                proof {
                    acc = acc0.push(Tree::Eps);
                    assert forall|k: int| 0 <= k < acc.len() implies node_is(#[trigger] children@[k], acc[k], toks@) by {
                        if k < acc0.len() {
                            assert(children@[k] == ch0[k]);
                        }
                    }
                    match descend_seq(*g, toks@, syms@, i + 1, cur as int, fuel) {
                        Some(Some((kids, q))) => {
                            assert(acc0 + (seq![Tree::Eps] + kids) =~= acc + kids);
                        },
                        _ => {},
                    }
                }
            },
        }
        i = i + 1;
    }
    Some((children, cur))
}

/// The line of the token at `pos`, or 0 past the end.
pub open spec fn line_at(toks: Seq<Token>, pos: int) -> usize {
    if 0 <= pos < toks.len() {
        toks[pos].line
    } else {
        0
    }
}

/// The column of the token at `pos`, or 0 past the end.
pub open spec fn column_at(toks: Seq<Token>, pos: int) -> usize {
    if 0 <= pos < toks.len() {
        toks[pos].column
    } else {
        0
    }
}

/// A recursive-descent parser with backtracking: each production of a
/// non-terminal is tried in order, and the first that matches is taken.
pub struct Parser {
    cfg: ContextFreeGrammar,
    stream: TokenStream,
}

impl Parser {
    pub closed spec fn spec_grammar(&self) -> ContextFreeGrammar {
        self.cfg
    }

    /// The tokens of the stream.
    pub closed spec fn spec_tokens(&self) -> Seq<Token> {
        self.stream.spec_tokens()
    }

    /// The read position of the stream.
    pub closed spec fn spec_position(&self) -> nat {
        self.stream.spec_position()
    }

    /// The descent from the start symbol ends (a left-recursive grammar can make
    /// it go on forever).
    pub open spec fn descent_ends(&self) -> bool {
        exists|f: nat|
            descend(self.spec_grammar(), self.spec_tokens(), self.spec_grammar().start_symbol, self.spec_position() as int, f)
                is Some
    }

    /// What the descent from the start symbol gives, when it ends.
    pub open spec fn descent_outcome(&self) -> Option<Option<(Tree, int)>> {
        descend(
            self.spec_grammar(),
            self.spec_tokens(),
            self.spec_grammar().start_symbol,
            self.spec_position() as int,
            choose|f: nat|
                descend(self.spec_grammar(), self.spec_tokens(), self.spec_grammar().start_symbol, self.spec_position() as int, f)
                    is Some,
        )
    }

    pub fn new(cfg: ContextFreeGrammar, stream: TokenStream) -> (res: Self)
        ensures
            res.spec_grammar() == cfg,
            res.spec_tokens() == stream.spec_tokens(),
            res.spec_position() == stream.spec_position(),
    {
        Parser { cfg, stream }
    }

    /// The read position of the stream.
    pub fn stream_position(&self) -> (res: usize)
        ensures
            res == self.spec_position(),
    {
        self.stream.position()
    }

    /// The grammar.
    pub fn grammar(&self) -> (res: &ContextFreeGrammar)
        ensures
            *res == self.spec_grammar(),
    {
        &self.cfg
    }

    /// Parses from the start symbol at the read position: the tree, with the read
    /// position moved past it, or an error naming the start symbol at the token
    /// where it began.
    pub fn parse(&mut self) -> (res: Result<ParseTreeNode, ParseError>)
        requires
            old(self).descent_ends(),
        ensures
            final(self).spec_grammar() == old(self).spec_grammar(),
            final(self).spec_tokens() == old(self).spec_tokens(),
            match old(self).descent_outcome() {
                Some(Some((t, p))) => res matches Ok(n) && node_is(n, t, old(self).spec_tokens())
                    && final(self).spec_position() == p,
                _ => res matches Err(e) && e.message@ == "Failed to parse non-terminal: "@
                    + old(self).spec_grammar().spec_non_terminal_name(old(self).spec_grammar().start_symbol)
                    && e.line == line_at(old(self).spec_tokens(), old(self).spec_position() as int) && e.column
                    == column_at(old(self).spec_tokens(), old(self).spec_position() as int)
                    && final(self).spec_position() == old(self).spec_position(),
            },
    {
        proof {
            use_type_invariant(&self.stream);
        }
        let ghost f = choose|f: nat|
            descend(self.cfg, self.stream.tokens@, self.cfg.start_symbol, self.stream.position as int, f) is Some;
        let start = self.cfg.start_symbol;
        let pos = self.stream.position;
        match descend_nt(&self.cfg, &self.stream.tokens, start, pos, Ghost(f)) {
            Some((tree, p)) => {
                self.stream.set_position(p);
                Ok(tree)
            },
            None => {
                let mut message = String::new();
                push_str(&mut message, "Failed to parse non-terminal: ");
                push_str(&mut message, self.cfg.get_non_terminal_name(start));
                let (line, column) = if pos < self.stream.tokens.len() {
                    (self.stream.tokens[pos].line, self.stream.tokens[pos].column)
                } else {
                    (0, 0)
                };
                Err(ParseError::new(message, line, column))
            },
        }
    }
}

} // verus!
