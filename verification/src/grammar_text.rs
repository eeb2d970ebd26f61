//! The text form of a grammar.
//!
//! One production group per line: `A -> x y | z | ε`. Words are separated by
//! blanks; `|` separates alternatives and `ε` stands for the empty string. The
//! non-terminals are the left-hand sides, numbered in order of first appearance;
//! every other word on a right-hand side is a terminal, numbered likewise. The
//! first left-hand side is the start symbol. Empty lines are skipped.
use vstd::prelude::*;
use vstd::string::StrSliceExecFns;
use crate::cfg::{ContextFreeGrammar, NonTerminalId, Production, Symbol, TerminalId, symbol_in_range};
use crate::text::{decimal, push_char, push_str, push_usize};

verus! {

/// Word separators within a line.
pub open spec fn is_blank(c: char) -> bool {
    c == ' ' || c == '\t' || c == '\r'
}

/// The state of splitting text into lines of words.
pub struct Scan {
    pub lines: Seq<Seq<Seq<char>>>,
    pub words: Seq<Seq<char>>,
    pub cur: Seq<char>,
}

/// The words of the current line, the word under way included.
pub open spec fn close_word(words: Seq<Seq<char>>, cur: Seq<char>) -> Seq<Seq<char>> {
    if cur.len() > 0 {
        words.push(cur)
    } else {
        words
    }
}

/// The split after the first `n` characters.
pub open spec fn scan(s: Seq<char>, n: nat) -> Scan
    decreases n,
{
    if n == 0 || n > s.len() {
        Scan { lines: Seq::empty(), words: Seq::empty(), cur: Seq::empty() }
    } else {
        let st = scan(s, (n - 1) as nat);
        let c = s[n - 1];
        if c == '\n' {
            Scan { lines: st.lines.push(close_word(st.words, st.cur)), words: Seq::empty(), cur: Seq::empty() }
        } else if is_blank(c) {
            Scan { lines: st.lines, words: close_word(st.words, st.cur), cur: Seq::empty() }
        } else {
            Scan { lines: st.lines, words: st.words, cur: st.cur.push(c) }
        }
    }
}

/// The lines of a text, each split into its words.
pub open spec fn text_lines(s: Seq<char>) -> Seq<Seq<Seq<char>>> {
    let st = scan(s, s.len());
    st.lines.push(close_word(st.words, st.cur))
}

pub open spec fn arrow_word() -> Seq<char> {
    seq!['-', '>']
}

pub open spec fn bar_word() -> Seq<char> {
    seq!['|']
}

pub open spec fn epsilon_word() -> Seq<char> {
    seq!['ε']
}

/// The words after `->` form alternatives, none of them empty.
pub open spec fn alternatives_ok(r: Seq<Seq<char>>) -> bool {
    &&& r.len() > 0
    &&& r[0] != bar_word()
    &&& r.last() != bar_word()
    &&& forall|i: int| 0 <= i < r.len() - 1 && #[trigger] r[i] == bar_word() ==> r[i + 1] != bar_word()
}

/// A line is empty, or a production group `A -> alternatives`.
pub open spec fn line_ok(w: Seq<Seq<char>>) -> bool {
    w.len() == 0 || (w.len() >= 2 && w[1] == arrow_word() && alternatives_ok(w.skip(2)))
}

/// The first malformed line among the first `n`.
pub open spec fn first_bad_line(ls: Seq<Seq<Seq<char>>>, n: nat) -> Option<nat>
    decreases n,
{
    if n == 0 || n > ls.len() {
        None
    } else {
        match first_bad_line(ls, (n - 1) as nat) {
            Some(k) => Some(k),
            None => if !line_ok(ls[n - 1]) {
                Some((n - 1) as nat)
            } else {
                None
            },
        }
    }
}

/// Appends `x` unless it is already there.
pub open spec fn push_new(acc: Seq<Seq<char>>, x: Seq<char>) -> Seq<Seq<char>> {
    if acc.contains(x) {
        acc
    } else {
        acc.push(x)
    }
}

/// The left-hand sides of the first `n` lines, each once, in order.
pub open spec fn lhs_names(ls: Seq<Seq<Seq<char>>>, n: nat) -> Seq<Seq<char>>
    decreases n,
{
    if n == 0 || n > ls.len() {
        Seq::empty()
    } else {
        let prev = lhs_names(ls, (n - 1) as nat);
        if ls[n - 1].len() > 0 {
            push_new(prev, ls[n - 1][0])
        } else {
            prev
        }
    }
}

/// A word of a right-hand side that names a terminal.
pub open spec fn is_terminal_word(nts: Seq<Seq<char>>, w: Seq<char>) -> bool {
    w != bar_word() && w != epsilon_word() && !nts.contains(w)
}

/// The terminal words among the first `n` words of `r`, each once, added to `acc`.
pub open spec fn terms_in(nts: Seq<Seq<char>>, acc: Seq<Seq<char>>, r: Seq<Seq<char>>, n: nat) -> Seq<Seq<char>>
    decreases n,
{
    if n == 0 || n > r.len() {
        acc
    } else {
        let prev = terms_in(nts, acc, r, (n - 1) as nat);
        if is_terminal_word(nts, r[n - 1]) {
            push_new(prev, r[n - 1])
        } else {
            prev
        }
    }
}

/// The terminals of the first `n` lines, each once, in order of first appearance.
pub open spec fn term_names(nts: Seq<Seq<char>>, ls: Seq<Seq<Seq<char>>>, n: nat) -> Seq<Seq<char>>
    decreases n,
{
    if n == 0 || n > ls.len() {
        Seq::empty()
    } else {
        let prev = term_names(nts, ls, (n - 1) as nat);
        if ls[n - 1].len() >= 2 {
            let r = ls[n - 1].skip(2);
            terms_in(nts, prev, r, r.len())
        } else {
            prev
        }
    }
}

/// The position of `x` in `v` (which holds it once).
pub open spec fn position_of(v: Seq<Seq<char>>, x: Seq<char>) -> int {
    choose|i: int| 0 <= i < v.len() && v[i] == x
}

/// The symbol a word of a right-hand side stands for.
pub open spec fn word_symbol(nts: Seq<Seq<char>>, terms: Seq<Seq<char>>, w: Seq<char>) -> Symbol {
    if w == epsilon_word() {
        Symbol::Epsilon
    } else if nts.contains(w) {
        Symbol::NonTerminal(NonTerminalId(position_of(nts, w) as usize))
    } else {
        Symbol::Terminal(TerminalId(position_of(terms, w) as usize))
    }
}

/// The productions of the first `n` words of the right-hand side `r` of a line with
/// left-hand side `lhs`: one per alternative, the one under way in `cur`.
pub open spec fn alts_in(
    nts: Seq<Seq<char>>,
    terms: Seq<Seq<char>>,
    lhs: NonTerminalId,
    r: Seq<Seq<char>>,
    n: nat,
) -> (Seq<(NonTerminalId, Seq<Symbol>)>, Seq<Symbol>)
    decreases n,
{
    if n == 0 || n > r.len() {
        (Seq::empty(), Seq::empty())
    } else {
        let (done, cur) = alts_in(nts, terms, lhs, r, (n - 1) as nat);
        if r[n - 1] == bar_word() {
            (done.push((lhs, cur)), Seq::empty())
        } else {
            (done, cur.push(word_symbol(nts, terms, r[n - 1])))
        }
    }
}

/// The productions of a line.
pub open spec fn line_productions(nts: Seq<Seq<char>>, terms: Seq<Seq<char>>, w: Seq<Seq<char>>) -> Seq<
    (NonTerminalId, Seq<Symbol>),
> {
    let lhs = NonTerminalId(position_of(nts, w[0]) as usize);
    let r = w.skip(2);
    let (done, cur) = alts_in(nts, terms, lhs, r, r.len());
    done.push((lhs, cur))
}

/// The productions of the first `n` lines, in order.
pub open spec fn productions_of(nts: Seq<Seq<char>>, terms: Seq<Seq<char>>, ls: Seq<Seq<Seq<char>>>, n: nat) -> Seq<
    (NonTerminalId, Seq<Symbol>),
>
    decreases n,
{
    if n == 0 || n > ls.len() {
        Seq::empty()
    } else {
        let prev = productions_of(nts, terms, ls, (n - 1) as nat);
        if ls[n - 1].len() >= 2 {
            prev + line_productions(nts, terms, ls[n - 1])
        } else {
            prev
        }
    }
}

/// The message for a malformed line (numbered from 1).
pub open spec fn bad_line_text(k: nat) -> Seq<char> {
    "Invalid production at line "@ + decimal(k + 1)
}

/// The message for a text without productions.
pub open spec fn empty_grammar_text() -> Seq<char> {
    "Empty grammar"@
}

/// The grammar `g` is the one the text `s` describes.
pub open spec fn describes(s: Seq<char>, g: &ContextFreeGrammar) -> bool {
    let ls = text_lines(s);
    let nts = lhs_names(ls, ls.len());
    let terms = term_names(nts, ls, ls.len());
    let prods = productions_of(nts, terms, ls, ls.len());
    &&& g.non_terminals@.map_values(|x: String| x@) == nts
    &&& g.terminals@.map_values(|x: String| x@) == terms
    &&& g.productions@.len() == prods.len()
    &&& forall|p: int|
        0 <= p < prods.len() ==> (#[trigger] g.productions@[p]).lhs == prods[p].0 && g.productions@[p].rhs@
            == prods[p].1
    &&& g.start_symbol == NonTerminalId(0)
}

/// The limits a grammar must stay within to be augmented: the end-marker id and one
/// more non-terminal must fit in a `usize`.
pub open spec fn too_large(nts: Seq<Seq<char>>, terms: Seq<Seq<char>>) -> bool {
    nts.len() + 1 >= usize::MAX || terms.len() >= usize::MAX
}

/// The message for a grammar past those limits.
pub open spec fn too_large_text() -> Seq<char> {
    "Grammar too large"@
}

/// The outcome of reading a grammar from the text `s`.
pub open spec fn parse_outcome(s: Seq<char>, res: Result<ContextFreeGrammar, String>) -> bool {
    let ls = text_lines(s);
    match first_bad_line(ls, ls.len()) {
        Some(k) => res matches Err(m) && m@ == bad_line_text(k),
        None => {
            let nts = lhs_names(ls, ls.len());
            if nts.len() == 0 {
                res matches Err(m) && m@ == empty_grammar_text()
            } else if too_large(nts, term_names(nts, ls, ls.len())) {
                res matches Err(m) && m@ == too_large_text()
            } else {
                res matches Ok(g) && describes(s, &g)
            }
        },
    }
}

/// The nested views of lines of words.
pub open spec fn lines_view(v: Seq<Vec<Vec<char>>>) -> Seq<Seq<Seq<char>>> {
    v.map_values(|l: Vec<Vec<char>>| words_view(l@))
}

/// The views of words.
pub open spec fn words_view(v: Seq<Vec<char>>) -> Seq<Seq<char>> {
    v.map_values(|w: Vec<char>| w@)
}

/// The characters of a string slice.
fn text_chars(input: &str) -> (res: Vec<char>)
    ensures
        res@ == input@,
{
    let n = input.unicode_len();
    let mut res: Vec<char> = Vec::new();
    let mut i: usize = 0;
    while i < n
        invariant
            n == input@.len(),
            i <= n,
            res@ == input@.take(i as int),
        decreases n - i,
    {
        res.push(input.get_char(i));
        assert(input@.take(i + 1) =~= input@.take(i as int).push(input@[i as int]));
        i = i + 1;
    }
    assert(input@.take(n as int) =~= input@);
    res
}

/// Ends the word under way, if any.
fn close_word_exec(words: &mut Vec<Vec<char>>, cur: Vec<char>)
    ensures
        words_view(final(words)@) == close_word(words_view(old(words)@), cur@),
{
    if cur.len() > 0 {
        let ghost before = words@;
        words.push(cur);
        assert(words_view(words@) =~= words_view(before).push(cur@));
    }
}

/// Splits a text into lines of words (see `text_lines`).
fn split_lines(s: &Vec<char>) -> (res: Vec<Vec<Vec<char>>>)
    ensures
        lines_view(res@) == text_lines(s@),
{
    let mut lines: Vec<Vec<Vec<char>>> = Vec::new();
    let mut words: Vec<Vec<char>> = Vec::new();
    let mut cur: Vec<char> = Vec::new();
    let mut i: usize = 0;
    while i < s.len()
        invariant
            i <= s@.len(),
            lines_view(lines@) == scan(s@, i as nat).lines,
            words_view(words@) == scan(s@, i as nat).words,
            cur@ == scan(s@, i as nat).cur,
        decreases s@.len() - i,
    {
        let c = s[i];
        if c == '\n' {
            let mut line = Vec::new();
            std::mem::swap(&mut line, &mut words);
            let mut word = Vec::new();
            std::mem::swap(&mut word, &mut cur);
            close_word_exec(&mut line, word);
            let ghost before = lines@;
            lines.push(line);
            assert(lines_view(lines@) =~= lines_view(before).push(words_view(line@)));
            assert(words_view(words@) =~= Seq::<Seq<char>>::empty());
        } else if c == ' ' || c == '\t' || c == '\r' {
            let mut word = Vec::new();
            std::mem::swap(&mut word, &mut cur);
            close_word_exec(&mut words, word);
        } else {
            cur.push(c);
        }
        i = i + 1;
    }
    let ghost before = lines@;
    close_word_exec(&mut words, cur);
    lines.push(words);
    assert(lines_view(lines@) =~= lines_view(before).push(words_view(words@)));
    lines
}

fn is_arrow(w: &Vec<char>) -> (res: bool)
    ensures
        res == (w@ == arrow_word()),
{
    let r = w.len() == 2 && w[0] == '-' && w[1] == '>';
    proof {
        if w@.len() == 2 {
            assert(r == (w@ =~= arrow_word()));
        }
    }
    r
}

fn is_bar(w: &Vec<char>) -> (res: bool)
    ensures
        res == (w@ == bar_word()),
{
    let r = w.len() == 1 && w[0] == '|';
    proof {
        if w@.len() == 1 {
            assert(r == (w@ =~= bar_word()));
        }
    }
    r
}

fn is_epsilon(w: &Vec<char>) -> (res: bool)
    ensures
        res == (w@ == epsilon_word()),
{
    let r = w.len() == 1 && w[0] == 'ε';
    proof {
        if w@.len() == 1 {
            assert(r == (w@ =~= epsilon_word()));
        }
    }
    r
}

/// Whether a line is empty or a well-formed production group (see `line_ok`).
fn check_line(w: &Vec<Vec<char>>) -> (res: bool)
    ensures
        res == line_ok(words_view(w@)),
{
    let ghost wv = words_view(w@);
    if w.len() == 0 {
        return true;
    }
    if w.len() < 2 || !is_arrow(&w[1]) {
        return false;
    }
    let ghost r = wv.skip(2);
    if w.len() == 2 {
        assert(r.len() == 0);
        return false;
    }
    if is_bar(&w[2]) || is_bar(&w[w.len() - 1]) {
        assert(r[0] == wv[2]);
        assert(r.last() == wv[wv.len() - 1]);
        return false;
    }
    let mut i: usize = 2;
    while i < w.len() - 1
        invariant
            2 <= i < w@.len(),
            wv == words_view(w@),
            r == wv.skip(2),
            forall|k: int| 0 <= k < i - 2 && #[trigger] r[k] == bar_word() ==> r[k + 1] != bar_word(),
        decreases w@.len() - i,
    {
        if is_bar(&w[i]) && is_bar(&w[i + 1]) {
            assert(r[i - 2] == bar_word() && r[i - 1] == bar_word());
            return false;
        }
        i = i + 1;
    }
    assert(alternatives_ok(r));
    true
}

/// Once a malformed line is found, later lines do not change which one is first.
proof fn lemma_first_bad_stable(ls: Seq<Seq<Seq<char>>>, n: nat, m: nat)
    requires
        n <= m <= ls.len(),
        first_bad_line(ls, n) is Some,
    ensures
        first_bad_line(ls, m) == first_bad_line(ls, n),
    decreases m - n,
{
    if n < m {
        lemma_first_bad_stable(ls, n, (m - 1) as nat);
    }
}

/// The first malformed line (see `first_bad_line`).
fn find_bad_line(lines: &Vec<Vec<Vec<char>>>) -> (res: Option<usize>)
    ensures
        res matches Some(k) ==> k < lines@.len() && first_bad_line(lines_view(lines@), lines@.len() as nat) == Some(k as nat),
        res is None ==> first_bad_line(lines_view(lines@), lines@.len() as nat) is None,
{
    let ghost ls = lines_view(lines@);
    let mut i: usize = 0;
    while i < lines.len()
        invariant
            i <= lines@.len(),
            ls == lines_view(lines@),
            first_bad_line(ls, i as nat) is None,
        decreases lines@.len() - i,
    {
        if !check_line(&lines[i]) {
            assert(ls[i as int] == words_view(lines@[i as int]@));
            proof {
                lemma_first_bad_stable(ls, (i + 1) as nat, ls.len());
            }
            return Some(i);
        }
        assert(ls[i as int] == words_view(lines@[i as int]@));
        i = i + 1;
    }
    None
}

/// Two words are the same.
fn same_word(a: &Vec<char>, b: &Vec<char>) -> (res: bool)
    ensures
        res == (a@ == b@),
{
    if a.len() != b.len() {
        return false;
    }
    let mut i: usize = 0;
    while i < a.len()
        invariant
            i <= a@.len(),
            a@.len() == b@.len(),
            a@.take(i as int) == b@.take(i as int),
        decreases a@.len() - i,
    {
        if a[i] != b[i] {
            assert(a@[i as int] != b@[i as int]);
            return false;
        }
        assert(a@.take(i + 1) =~= a@.take(i as int).push(a@[i as int]));
        assert(b@.take(i + 1) =~= b@.take(i as int).push(b@[i as int]));
        i = i + 1;
    }
    assert(a@.take(a@.len() as int) =~= a@);
    assert(b@.take(b@.len() as int) =~= b@);
    true
}

/// The position of a word in a list of words.
fn find_word(v: &Vec<Vec<char>>, w: &Vec<char>) -> (res: Option<usize>)
    ensures
        res matches Some(i) ==> i < v@.len() && words_view(v@)[i as int] == w@,
        res is None ==> !words_view(v@).contains(w@),
{
    let mut i: usize = 0;
    while i < v.len()
        invariant
            i <= v@.len(),
            forall|k: int| 0 <= k < i ==> #[trigger] words_view(v@)[k] != w@,
        decreases v@.len() - i,
    {
        if same_word(&v[i], w) {
            return Some(i);
        }
        i = i + 1;
    }
    None
}

/// Adds a word unless it is already there.
fn push_new_word(v: &mut Vec<Vec<char>>, w: &Vec<char>)
    ensures
        words_view(final(v)@) == push_new(words_view(old(v)@), w@),
{
    match find_word(v, w) {
        Some(_) => {},
        None => {
            let ghost before = v@;
            v.push(w.clone());
            assert(words_view(v@) =~= words_view(before).push(w@));
        },
    }
}

proof fn lemma_push_new(acc: Seq<Seq<char>>, x: Seq<char>)
    ensures
        push_new(acc, x).contains(x),
        forall|y: Seq<char>| acc.contains(y) ==> #[trigger] push_new(acc, x).contains(y),
        acc.no_duplicates() ==> push_new(acc, x).no_duplicates(),
{
    if !acc.contains(x) {
        let r = acc.push(x);
        assert(r[acc.len() as int] == x);
        assert forall|y: Seq<char>| acc.contains(y) implies #[trigger] r.contains(y) by {
            let i = choose|i: int| 0 <= i < acc.len() && acc[i] == y;
            assert(r[i] == y);
        }
    }
}

/// The left-hand sides are listed once each, and every left-hand side is listed.
proof fn lemma_lhs_names(ls: Seq<Seq<Seq<char>>>, n: nat)
    requires
        n <= ls.len(),
    ensures
        lhs_names(ls, n).no_duplicates(),
        forall|k: int| 0 <= k < n && ls[k].len() > 0 ==> #[trigger] lhs_names(ls, n).contains(ls[k][0]),
    decreases n,
{
    if n > 0 {
        lemma_lhs_names(ls, (n - 1) as nat);
        if ls[n - 1].len() > 0 {
            lemma_push_new(lhs_names(ls, (n - 1) as nat), ls[n - 1][0]);
        }
    }
}

/// The terminal words of `r` are added once each, and all of them are added.
proof fn lemma_terms_in(nts: Seq<Seq<char>>, acc: Seq<Seq<char>>, r: Seq<Seq<char>>, n: nat)
    requires
        n <= r.len(),
        acc.no_duplicates(),
    ensures
        terms_in(nts, acc, r, n).no_duplicates(),
        forall|y: Seq<char>| acc.contains(y) ==> #[trigger] terms_in(nts, acc, r, n).contains(y),
        forall|j: int| 0 <= j < n && is_terminal_word(nts, r[j]) ==> #[trigger] terms_in(nts, acc, r, n).contains(r[j]),
    decreases n,
{
    if n > 0 {
        lemma_terms_in(nts, acc, r, (n - 1) as nat);
        if is_terminal_word(nts, r[n - 1]) {
            lemma_push_new(terms_in(nts, acc, r, (n - 1) as nat), r[n - 1]);
        }
    }
}

/// The terminals are listed once each, and every terminal word is listed.
proof fn lemma_term_names(nts: Seq<Seq<char>>, ls: Seq<Seq<Seq<char>>>, n: nat)
    requires
        n <= ls.len(),
    ensures
        term_names(nts, ls, n).no_duplicates(),
        forall|k: int, j: int|
            0 <= k < n && ls[k].len() >= 2 && 0 <= j < ls[k].skip(2).len() && is_terminal_word(nts, ls[k].skip(2)[j])
                ==> #[trigger] term_names(nts, ls, n).contains(#[trigger] ls[k].skip(2)[j]),
    decreases n,
{
    if n > 0 {
        let prev = term_names(nts, ls, (n - 1) as nat);
        lemma_term_names(nts, ls, (n - 1) as nat);
        if ls[n - 1].len() >= 2 {
            let r = ls[n - 1].skip(2);
            lemma_terms_in(nts, prev, r, r.len());
        }
    }
}

/// In a list without repetitions, the position of the word at `i` is `i`.
proof fn lemma_position_of(v: Seq<Seq<char>>, i: int)
    requires
        v.no_duplicates(),
        0 <= i < v.len(),
    ensures
        position_of(v, v[i]) == i,
{
    let j = position_of(v, v[i]);
    assert(0 <= j < v.len() && v[j] == v[i]);
}

/// The symbol a word stands for (see `word_symbol`).
fn word_symbol_exec(nts: &Vec<Vec<char>>, terms: &Vec<Vec<char>>, w: &Vec<char>) -> (res: Symbol)
    requires
        words_view(nts@).no_duplicates(),
        words_view(terms@).no_duplicates(),
        w@ == epsilon_word() || words_view(nts@).contains(w@) || words_view(terms@).contains(w@),
    ensures
        res == word_symbol(words_view(nts@), words_view(terms@), w@),
        symbol_in_range(res, terms@.len() as nat, nts@.len() as nat),
{
    if is_epsilon(w) {
        return Symbol::Epsilon;
    }
    match find_word(nts, w) {
        Some(i) => {
            proof {
                lemma_position_of(words_view(nts@), i as int);
            }
            Symbol::NonTerminal(NonTerminalId(i))
        },
        None => match find_word(terms, w) {
            Some(i) => {
                proof {
                    lemma_position_of(words_view(terms@), i as int);
                }
                Symbol::Terminal(TerminalId(i))
            },
            None => {
                assert(false);
                Symbol::Epsilon
            },
        },
    }
}

/// The left-hand-side names (see `lhs_names`).
fn collect_lhs(lines: &Vec<Vec<Vec<char>>>) -> (res: Vec<Vec<char>>)
    ensures
        words_view(res@) == lhs_names(lines_view(lines@), lines@.len() as nat),
{
    let ghost ls = lines_view(lines@);
    let mut names: Vec<Vec<char>> = Vec::new();
    let mut i: usize = 0;
    while i < lines.len()
        invariant
            i <= lines@.len(),
            ls == lines_view(lines@),
            words_view(names@) == lhs_names(ls, i as nat),
        decreases lines@.len() - i,
    {
        assert(ls[i as int] == words_view(lines@[i as int]@));
        if lines[i].len() > 0 {
            push_new_word(&mut names, &lines[i][0]);
        }
        i = i + 1;
    }
    names
}

/// The terminal names (see `term_names`).
fn collect_terms(lines: &Vec<Vec<Vec<char>>>, nts: &Vec<Vec<char>>) -> (res: Vec<Vec<char>>)
    ensures
        words_view(res@) == term_names(words_view(nts@), lines_view(lines@), lines@.len() as nat),
{
    let ghost ls = lines_view(lines@);
    let ghost nv = words_view(nts@);
    let mut terms: Vec<Vec<char>> = Vec::new();
    let mut i: usize = 0;
    while i < lines.len()
        invariant
            i <= lines@.len(),
            ls == lines_view(lines@),
            nv == words_view(nts@),
            words_view(terms@) == term_names(nv, ls, i as nat),
        decreases lines@.len() - i,
    {
        let line = &lines[i];
        assert(ls[i as int] == words_view(line@));
        if line.len() > 1 {
            let ghost r = ls[i as int].skip(2);
            let ghost start = words_view(terms@);
            let mut j: usize = 2;
            while j < line.len()
                invariant
                    2 <= j <= line@.len(),
                    i < ls.len(),
                    ls[i as int] == words_view(line@),
                    r == ls[i as int].skip(2),
                    nv == words_view(nts@),
                    words_view(terms@) == terms_in(nv, start, r, (j - 2) as nat),
                decreases line@.len() - j,
            {
                let w = &line[j];
                assert(r[j - 2] == w@);
                if !is_bar(w) && !is_epsilon(w) {
                    match find_word(nts, w) {
                        Some(_) => {},
                        None => {
                            push_new_word(&mut terms, w);
                        },
                    }
                }
                j = j + 1;
            }
        }
        i = i + 1;
    }
    terms
}

/// The productions as pairs of left-hand side and right-hand side.
pub open spec fn productions_view(v: Seq<Production>) -> Seq<(NonTerminalId, Seq<Symbol>)> {
    v.map_values(|p: Production| (p.lhs, p.rhs@))
}

/// The productions of the text (see `productions_of`).
fn build_productions(lines: &Vec<Vec<Vec<char>>>, nts: &Vec<Vec<char>>, terms: &Vec<Vec<char>>) -> (res: Vec<
    Production,
>)
    requires
        words_view(nts@) == lhs_names(lines_view(lines@), lines@.len() as nat),
        words_view(terms@) == term_names(words_view(nts@), lines_view(lines@), lines@.len() as nat),
    ensures
        productions_view(res@) == productions_of(
            words_view(nts@),
            words_view(terms@),
            lines_view(lines@),
            lines@.len() as nat,
        ),
        forall|p: int| 0 <= p < res@.len() ==> (#[trigger] res@[p]).lhs.0 < nts@.len(),
        forall|p: int, k: int|
            0 <= p < res@.len() && 0 <= k < res@[p].rhs@.len() ==> symbol_in_range(
                #[trigger] res@[p].rhs@[k],
                terms@.len() as nat,
                nts@.len() as nat,
            ),
{
    let ghost ls = lines_view(lines@);
    let ghost nv = words_view(nts@);
    let ghost tv = words_view(terms@);
    proof {
        lemma_lhs_names(ls, ls.len());
        lemma_term_names(nv, ls, ls.len());
    }
    let mut prods: Vec<Production> = Vec::new();
    let mut i: usize = 0;
    while i < lines.len()
        invariant
            i <= lines@.len(),
            ls == lines_view(lines@),
            nv == words_view(nts@),
            tv == words_view(terms@),
            nv.no_duplicates(),
            tv.no_duplicates(),
            forall|k: int| 0 <= k < ls.len() && ls[k].len() > 0 ==> #[trigger] nv.contains(ls[k][0]),
            forall|k: int, j: int|
                0 <= k < ls.len() && ls[k].len() >= 2 && 0 <= j < ls[k].skip(2).len() && is_terminal_word(
                    nv,
                    ls[k].skip(2)[j],
                ) ==> #[trigger] tv.contains(#[trigger] ls[k].skip(2)[j]),
            productions_view(prods@) == productions_of(nv, tv, ls, i as nat),
            forall|p: int| 0 <= p < prods@.len() ==> (#[trigger] prods@[p]).lhs.0 < nts@.len(),
            forall|p: int, k: int|
                0 <= p < prods@.len() && 0 <= k < prods@[p].rhs@.len() ==> symbol_in_range(
                    #[trigger] prods@[p].rhs@[k],
                    terms@.len() as nat,
                    nts@.len() as nat,
                ),
        decreases lines@.len() - i,
    {
        let line = &lines[i];
        assert(ls[i as int] == words_view(line@));
        if line.len() >= 2 {
            let lhs_index = match find_word(nts, &line[0]) {
                Some(x) => x,
                None => {
                    assert(nv.contains(ls[i as int][0]));
                    assert(false);
                    0
                },
            };
            proof {
                lemma_position_of(nv, lhs_index as int);
            }
            let lhs = NonTerminalId(lhs_index);
            let ghost r = ls[i as int].skip(2);
            let ghost base = productions_view(prods@);
            let mut cur: Vec<Symbol> = Vec::new();
            let mut j: usize = 2;
            while j < line.len()
                invariant
                    2 <= j <= line@.len(),
                    i < ls.len(),
                    ls[i as int] == words_view(line@),
                    r == ls[i as int].skip(2),
                    nv == words_view(nts@),
                    tv == words_view(terms@),
                    nv.no_duplicates(),
                    tv.no_duplicates(),
                    lhs.0 < nts@.len(),
                    forall|j2: int|
                        0 <= j2 < r.len() && is_terminal_word(nv, r[j2]) ==> #[trigger] tv.contains(r[j2]),
                    productions_view(prods@) == base + alts_in(nv, tv, lhs, r, (j - 2) as nat).0,
                    cur@ == alts_in(nv, tv, lhs, r, (j - 2) as nat).1,
                    forall|p: int| 0 <= p < prods@.len() ==> (#[trigger] prods@[p]).lhs.0 < nts@.len(),
                    forall|p: int, k: int|
                        0 <= p < prods@.len() && 0 <= k < prods@[p].rhs@.len() ==> symbol_in_range(
                            #[trigger] prods@[p].rhs@[k],
                            terms@.len() as nat,
                            nts@.len() as nat,
                        ),
                    forall|k: int| 0 <= k < cur@.len() ==> symbol_in_range(#[trigger] cur@[k], terms@.len() as nat, nts@.len() as nat),
                decreases line@.len() - j,
            {
                let w = &line[j];
                assert(r[j - 2] == w@);
                if is_bar(w) {
                    let mut finished: Vec<Symbol> = Vec::new();
                    std::mem::swap(&mut finished, &mut cur);
                    let ghost before = prods@;
                    prods.push(Production::new(lhs, finished));
                    assert(productions_view(prods@) =~= productions_view(before).push((lhs, finished@)));
                    assert(cur@ =~= Seq::<Symbol>::empty());
                } else {
                    let sym = word_symbol_exec(nts, terms, w);
                    cur.push(sym);
                }
                j = j + 1;
            }
            let ghost before = prods@;
            prods.push(Production::new(lhs, cur));
            proof {
                assert(productions_view(prods@) =~= productions_view(before).push((lhs, cur@)));
                assert(line_productions(nv, tv, ls[i as int]) == alts_in(nv, tv, lhs, r, r.len()).0.push(
                    (lhs, alts_in(nv, tv, lhs, r, r.len()).1),
                ));
                assert(productions_view(prods@) =~= productions_of(nv, tv, ls, (i + 1) as nat));
            }
        }
        i = i + 1;
    }
    prods
}

/// A string with the characters of a word.
fn word_string(w: &Vec<char>) -> (res: String)
    ensures
        res@ == w@,
{
    let mut s = String::new();
    let mut i: usize = 0;
    while i < w.len()
        invariant
            i <= w@.len(),
            s@ == w@.take(i as int),
        decreases w@.len() - i,
    {
        push_char(&mut s, w[i]);
        assert(w@.take(i + 1) =~= w@.take(i as int).push(w@[i as int]));
        i = i + 1;
    }
    assert(w@.take(w@.len() as int) =~= w@);
    s
}

/// Strings with the characters of the words.
fn word_strings(v: &Vec<Vec<char>>) -> (res: Vec<String>)
    ensures
        res@.map_values(|x: String| x@) == words_view(v@),
{
    let mut res: Vec<String> = Vec::new();
    let mut i: usize = 0;
    while i < v.len()
        invariant
            i <= v@.len(),
            res@.map_values(|x: String| x@) == words_view(v@).take(i as int),
        decreases v@.len() - i,
    {
        let s = word_string(&v[i]);
        let ghost before = res@;
        res.push(s);
        assert(res@.map_values(|x: String| x@) =~= before.map_values(|x: String| x@).push(s@));
        assert(words_view(v@).take(i + 1) =~= words_view(v@).take(i as int).push(v@[i as int]@));
        i = i + 1;
    }
    assert(words_view(v@).take(v@.len() as int) =~= words_view(v@));
    res
}

impl ContextFreeGrammar {
    /// Reads a grammar from its text form (see the module documentation and `parse_outcome`).
    pub fn parse(input: &str) -> (res: Result<ContextFreeGrammar, String>)
        ensures
            parse_outcome(input@, res),
            res matches Ok(g) ==> g.wf() && g.non_terminals.len() + 1 < usize::MAX,
    {
        let chars = text_chars(input);
        let lines = split_lines(&chars);
        let ghost ls = lines_view(lines@);
        match find_bad_line(&lines) {
            Some(k) => {
                let count = lines.len();
                assert(k < count);
                let mut message = String::new();
                push_str(&mut message, "Invalid production at line ");
                push_usize(&mut message, k + 1);
                return Err(message);
            },
            None => {},
        }
        let nts = collect_lhs(&lines);
        if nts.len() == 0 {
            let mut message = String::new();
            push_str(&mut message, "Empty grammar");
            return Err(message);
        }
        let terms = collect_terms(&lines, &nts);
        if nts.len() >= usize::MAX - 1 || terms.len() == usize::MAX {
            let mut message = String::new();
            push_str(&mut message, "Grammar too large");
            return Err(message);
        }
        let productions = build_productions(&lines, &nts, &terms);
        let non_terminals = word_strings(&nts);
        let terminals = word_strings(&terms);
        let g = ContextFreeGrammar { terminals, non_terminals, productions, start_symbol: NonTerminalId(0) };
        proof {
            let prods = productions_of(words_view(nts@), words_view(terms@), ls, ls.len());
            assert forall|p: int| 0 <= p < prods.len() implies (#[trigger] g.productions@[p]).lhs == prods[p].0
                && g.productions@[p].rhs@ == prods[p].1 by {
                assert(productions_view(g.productions@)[p] == prods[p]);
            }
            assert(g.non_terminals@.map_values(|x: String| x@).len() == g.non_terminals@.len());
            assert(words_view(nts@).len() == nts@.len());
            assert(g.terminals@.map_values(|x: String| x@).len() == g.terminals@.len());
            assert(words_view(terms@).len() == terms@.len());
            assert(g.non_terminals@.len() == nts@.len());
            assert(g.terminals@.len() == terms@.len());
        }
        Ok(g)
    }
}

} // verus!
