//! Lookahead computation for LR(1) closures, and sets of lookahead terminals.
use vstd::prelude::*;
use crate::analysis::{
    FirstSet, FirstSetCalculator, all_nullable, first_of_suffix, flags, flags2, ids_of_row,
    ids_upto, in_first_of, is_first_sets, is_nullable_set, lemma_ids_upto, matrix_shape, sym_nullable,
    syms_ok,
};
use crate::cfg::{ContextFreeGrammar, NonTerminalId, Symbol, TerminalId};


verus! {

/// Whether `t` occurs in `v`.
pub(crate) fn contains_terminal(v: &Vec<TerminalId>, t: TerminalId) -> (res: bool)
    ensures
        res == v@.contains(t),
{
    let mut i: usize = 0;
    while i < v.len()
        invariant
            i <= v.len(),
            forall|j: int| 0 <= j < i ==> v@[j] != t,
        decreases v.len() - i,
    {
        if v[i] == t {
            return true;
        }
        i = i + 1;
    }
    false
}

/// Adds `t` to the duplicate-free list `v` unless it is already there.
pub(crate) fn insert_terminal(v: &mut Vec<TerminalId>, t: TerminalId) -> (added: bool)
    requires
        old(v)@.no_duplicates(),
    ensures
        final(v)@.no_duplicates(),
        added == !old(v)@.contains(t),
        added ==> final(v)@ == old(v)@.push(t),
        !added ==> final(v)@ == old(v)@,
        forall|x: TerminalId| #[trigger] final(v)@.contains(x) <==> (old(v)@.contains(x) || x == t),
{
    if contains_terminal(v, t) {
        false
    } else {
        let ghost before = v@;
        v.push(t);
        proof {
            assert forall|x: TerminalId| #[trigger] v@.contains(x) <==> (before.contains(x) || x == t) by {
                if before.contains(x) {
                    let k = choose|k: int| 0 <= k < before.len() && before[k] == x;
                    assert(v@[k] == x);
                }
                if x == t {
                    assert(v@[before.len() as int] == t);
                }
            }
        }
        true
    }
}

/// Lookahead computation for LR(1) closures, based on the NULLABLE and FIRST sets
/// of a grammar.
#[derive(Debug)]
pub struct LookaheadCalculator {
    first_sets: FirstSet,
    nullable: Vec<bool>,
    end_marker: TerminalId,
}

impl LookaheadCalculator {
    #[verifier::type_invariant]
    spec fn shape(&self) -> bool {
        matrix_shape(self.first_sets.table@, self.nullable.len() as nat, self.end_marker.0 as nat)
    }

    /// The NULLABLE flags, indexed by non-terminal id.
    pub closed spec fn nullable_flags(&self) -> Seq<bool> {
        self.nullable@
    }

    /// The FIRST relation: `first_rows()[n][t]` says terminal `t` is in FIRST(`n`).
    pub closed spec fn first_rows(&self) -> Seq<Vec<bool>> {
        self.first_sets.table@
    }

    /// The end marker `$`: the terminal id one past the last terminal.
    pub closed spec fn spec_end_marker(&self) -> TerminalId {
        self.end_marker
    }

    /// The nullable non-terminals as a predicate on ids.
    pub open spec fn nul(&self) -> spec_fn(int) -> bool {
        flags(self.nullable_flags())
    }

    /// The FIRST relation as a predicate on (non-terminal, terminal) ids.
    pub open spec fn fr(&self) -> spec_fn(int, int) -> bool {
        flags2(self.first_rows())
    }

    /// The symbols refer to terminals and non-terminals of the grammar.
    pub open spec fn symbols_ok(&self, syms: Seq<Symbol>) -> bool {
        syms_ok(syms, self.spec_end_marker().0 as nat, self.nullable_flags().len())
    }

    /// The lookahead set `FIRST(β) ∪ {a if β is nullable}`.
    pub open spec fn spec_propagate(&self, beta: Seq<Symbol>, la: TerminalId, t: TerminalId) -> bool {
        in_first_of(beta, self.nul(), self.fr(), t.0 as int) || (all_nullable(beta, self.nul())
            && t == la)
    }

    /// Builds the calculator for `cfg`: its NULLABLE and FIRST sets, and `$`.
    pub fn new(cfg: &ContextFreeGrammar) -> (res: Self)
        requires
            cfg.wf(),
        ensures
            is_nullable_set(cfg, res.nullable_flags()),
            is_first_sets(cfg, res.nul(), res.first_rows()),
            res.spec_end_marker() == TerminalId(cfg.terminals.len()),
    {
        let nullable = FirstSetCalculator::compute_nullable(cfg);
        let first_sets = FirstSetCalculator::compute_with_nullable(cfg, &nullable);
        let end_marker = TerminalId(cfg.terminals.len());
        LookaheadCalculator { first_sets, nullable, end_marker }
    }

    /// The end marker `$`.
    pub fn end_marker(&self) -> (res: TerminalId)
        ensures
            res == self.spec_end_marker(),
    {
        self.end_marker
    }

    /// The FIRST sets.
    pub fn first_set(&self) -> (res: &FirstSet)
        ensures
            res.table@ == self.first_rows(),
    {
        &self.first_sets
    }

    /// The NULLABLE flags.
    pub fn nullable(&self) -> (res: &Vec<bool>)
        ensures
            res@ == self.nullable_flags(),
    {
        &self.nullable
    }

    /// Whether `nt` derives the empty string.
    pub fn is_nullable(&self, nt: NonTerminalId) -> (res: bool)
        ensures
            res == self.nul()(nt.0 as int),
    {
        nt.0 < self.nullable.len() && self.nullable[nt.0]
    }

    /// Whether every symbol of `symbols` derives the empty string.
    pub fn is_string_nullable(&self, symbols: &[Symbol]) -> (res: bool)
        ensures
            res == all_nullable(symbols@, self.nul()),
    {
        let mut k: usize = 0;
        while k < symbols.len()
            invariant
                k <= symbols.len(),
                forall|j: int| 0 <= j < k ==> sym_nullable(#[trigger] symbols@[j], self.nul()),
            decreases symbols.len() - k,
        {
            match symbols[k] {
                Symbol::Epsilon => {},
                Symbol::NonTerminal(n) => {
                    if !self.is_nullable(n) {
                        assert(!sym_nullable(symbols@[k as int], self.nul()));
                        return false;
                    }
                },
                Symbol::Terminal(_) => {
                    assert(!sym_nullable(symbols@[k as int], self.nul()));
                    return false;
                },
            }
            k = k + 1;
        }
        true
    }

    /// FIRST of a symbol string (terminals only), in increasing order of id.
    pub fn first_terminals(&self, symbols: &[Symbol]) -> (res: Vec<TerminalId>)
        requires
            self.symbols_ok(symbols@),
        ensures
            res@.no_duplicates(),
            forall|t: TerminalId| #[trigger]
                res@.contains(t) <==> in_first_of(symbols@, self.nul(), self.fr(), t.0 as int),
    {
        proof {
            use_type_invariant(self);
        }
        let (row, _) = first_of_suffix(
            symbols,
            0,
            &self.nullable,
            &self.first_sets.table,
            self.end_marker.0,
        );
        assert(symbols@.skip(0) =~= symbols@);
        let res = ids_of_row(&row);
        proof {
            lemma_ids_upto(row@, row.len() as int);
            assert forall|i: int, j: int| 0 <= i < res@.len() && 0 <= j < res@.len() && i != j implies res@[i]
                != res@[j] by {
                if i < j {
                    assert(res@[i].0 < res@[j].0);
                } else {
                    assert(res@[j].0 < res@[i].0);
                }
            }
            assert forall|t: TerminalId| #[trigger]
                res@.contains(t) <==> in_first_of(symbols@, self.nul(), self.fr(), t.0 as int) by {
                if in_first_of(symbols@, self.nul(), self.fr(), t.0 as int) {
                    crate::analysis::lemma_in_first_range(
                        symbols@,
                        self.nullable@,
                        self.first_sets.table@,
                        self.end_marker.0 as nat,
                        t.0 as int,
                    );
                }
            }
        }
        res
    }

    /// `FIRST(syms[from..]) ∪ {la if syms[from..] is nullable}`, without duplicates.
    pub fn propagate_suffix(&self, syms: &[Symbol], from: usize, la: TerminalId) -> (res: Vec<
        TerminalId,
    >)
        requires
            from <= syms.len(),
            self.symbols_ok(syms@),
        ensures
            res@.no_duplicates(),
            forall|t: TerminalId| #[trigger]
                res@.contains(t) <==> self.spec_propagate(syms@.skip(from as int), la, t),
            forall|t: TerminalId| #[trigger]
                res@.contains(t) ==> t.0 < self.spec_end_marker().0 || t == la,
    {
        proof {
            use_type_invariant(self);
        }
        let (row, nullable_tail) = first_of_suffix(
            syms,
            from,
            &self.nullable,
            &self.first_sets.table,
            self.end_marker.0,
        );
        let mut res = ids_of_row(&row);
        proof {
            lemma_ids_upto(row@, row.len() as int);
            assert(res@.no_duplicates()) by {
                assert forall|i: int, j: int| 0 <= i < res@.len() && 0 <= j < res@.len() && i != j implies res@[i]
                    != res@[j] by {
                    if i < j {
                        assert(res@[i].0 < res@[j].0);
                    } else {
                        assert(res@[j].0 < res@[i].0);
                    }
                }
            }
        }
        let ghost before = res@;
        if nullable_tail {
            insert_terminal(&mut res, la);
        }
        proof {
            let s = syms@.skip(from as int);
            assert forall|t: TerminalId| #[trigger] res@.contains(t) <==> self.spec_propagate(s, la, t) by {
                assert(before.contains(t) <==> (t.0 < row.len() && row@[t.0 as int]));
                if t.0 < row.len() {
                    assert(row@[t.0 as int] == in_first_of(s, self.nul(), self.fr(), t.0 as int));
                } else if in_first_of(s, self.nul(), self.fr(), t.0 as int) {
                    crate::analysis::lemma_in_first_range(
                        s,
                        self.nullable@,
                        self.first_sets.table@,
                        self.end_marker.0 as nat,
                        t.0 as int,
                    );
                }
            }
        }
        res
    }

    /// `FIRST(β) ∪ {lookahead if β is nullable}`: the lookaheads that an LR(1) closure
    /// gives to the items of `B` from an item `[A -> α·Bβ, lookahead]`.
    pub fn propagate_lookahead(&self, beta: &[Symbol], lookahead: TerminalId) -> (res: Vec<
        TerminalId,
    >)
        requires
            self.symbols_ok(beta@),
        ensures
            res@.no_duplicates(),
            forall|t: TerminalId| #[trigger]
                res@.contains(t) <==> self.spec_propagate(beta@, lookahead, t),
    {
        let res = self.propagate_suffix(beta, 0, lookahead);
        assert(beta@.skip(0) =~= beta@);
        res
    }

    /// FIRST of a symbol string with `lookahead` standing for the empty string:
    /// the same set as `propagate_lookahead`.
    pub fn compute_first_of_symbols_with_lookahead(
        &self,
        symbols: &[Symbol],
        lookahead: TerminalId,
    ) -> (res: Vec<TerminalId>)
        requires
            self.symbols_ok(symbols@),
        ensures
            res@.no_duplicates(),
            forall|t: TerminalId| #[trigger]
                res@.contains(t) <==> self.spec_propagate(symbols@, lookahead, t),
    {
        self.propagate_lookahead(symbols, lookahead)
    }

    /// FIRST of a symbol string, with `None` standing for `ε`, without
    /// duplicates: `ε` is in it exactly when every symbol derives the empty
    /// string, the empty string included.
    pub fn compute_first_of_symbols(&self, symbols: &[Symbol]) -> (res: Vec<Option<TerminalId>>)
        requires
            self.symbols_ok(symbols@),
        ensures
            res@.no_duplicates(),
            forall|t: TerminalId| #[trigger]
                res@.contains(Some(t)) <==> in_first_of(symbols@, self.nul(), self.fr(), t.0 as int),
            res@.contains(None) <==> all_nullable(symbols@, self.nul()),
    {
        proof {
            use_type_invariant(self);
        }
        let (row, _) = first_of_suffix(
            symbols,
            0,
            &self.nullable,
            &self.first_sets.table,
            self.end_marker.0,
        );
        assert(symbols@.skip(0) =~= symbols@);
        let terms = ids_of_row(&row);
        proof {
            lemma_ids_upto(row@, row.len() as int);
        }
        let mut out: Vec<Option<TerminalId>> = Vec::new();
        let mut i: usize = 0;
        while i < terms.len()
            invariant
                i <= terms.len(),
                terms@ == ids_upto(row@, row.len() as int),
                forall|a: int, b: int| 0 <= a < b < terms@.len() ==> terms@[a].0 < terms@[b].0,
                out@.len() == i,
                forall|k: int| 0 <= k < i ==> out@[k] == Some(terms@[k]),
            decreases terms.len() - i,
        {
            out.push(Some(terms[i]));
            i = i + 1;
        }
        proof {
            assert forall|a: int, b: int| 0 <= a < out@.len() && 0 <= b < out@.len() && a != b implies out@[a]
                != out@[b] by {
                if a < b {
                    assert(terms@[a].0 < terms@[b].0);
                } else {
                    assert(terms@[b].0 < terms@[a].0);
                }
            }
            assert forall|t: TerminalId| #[trigger]
                out@.contains(Some(t)) <==> in_first_of(symbols@, self.nul(), self.fr(), t.0 as int) by {
                if in_first_of(symbols@, self.nul(), self.fr(), t.0 as int) {
                    crate::analysis::lemma_in_first_range(
                        symbols@,
                        self.nullable@,
                        self.first_sets.table@,
                        self.end_marker.0 as nat,
                        t.0 as int,
                    );
                    assert(terms@.contains(t));
                    let k = choose|k: int| 0 <= k < terms@.len() && terms@[k] == t;
                    assert(out@[k] == Some(t));
                }
                if out@.contains(Some(t)) {
                    let k = choose|k: int| 0 <= k < out@.len() && out@[k] == Some(t);
                    assert(terms@[k] == t);
                    assert(terms@.contains(t));
                }
            }
            assert(!out@.contains(None));
        }
        if self.is_string_nullable(symbols) {
            let ghost before = out@;
            out.push(None);
            proof {
                assert forall|t: TerminalId| #[trigger]
                    out@.contains(Some(t)) <==> before.contains(Some(t)) by {
                    if out@.contains(Some(t)) {
                        let m = choose|m: int| 0 <= m < out@.len() && out@[m] == Some(t);
                        assert(m < before.len());
                    }
                    if before.contains(Some(t)) {
                        let m = choose|m: int| 0 <= m < before.len() && before[m] == Some(t);
                        assert(out@[m] == Some(t));
                    }
                }
                assert(out@[before.len() as int] == None::<TerminalId>);
            }
        }
        out
    }

}

/// The lookaheads given to the items of `B` from `[A -> α·Bβ, lookahead]`; the same
/// as `LookaheadCalculator::propagate_lookahead`.
pub fn compute_closure_lookaheads(
    cfg: &ContextFreeGrammar,
    calculator: &LookaheadCalculator,
    beta: &[Symbol],
    lookahead: TerminalId,
) -> (res: Vec<TerminalId>)
    requires
        calculator.symbols_ok(beta@),
    ensures
        res@.no_duplicates(),
        forall|t: TerminalId| #[trigger]
            res@.contains(t) <==> calculator.spec_propagate(beta@, lookahead, t),
{
    calculator.propagate_lookahead(beta, lookahead)
}

/// Adding an element to the end of a sequence adds it to the set of its elements.
pub proof fn lemma_to_set_push<A>(s: Seq<A>, x: A)
    ensures
        s.push(x).to_set() == s.to_set().insert(x),
{
    assert forall|a: A| #[trigger] s.push(x).to_set().contains(a) <==> s.to_set().insert(x).contains(a) by {
        if s.contains(a) {
            let k = choose|k: int| 0 <= k < s.len() && s[k] == a;
            assert(s.push(x)[k] == a);
        }
        if a == x {
            assert(s.push(x)[s.len() as int] == x);
        }
        if s.push(x).contains(a) {
            let k = choose|k: int| 0 <= k < s.len() + 1 && s.push(x)[k] == a;
            if k < s.len() {
                assert(s[k] == a);
            }
        }
    }
    assert(s.push(x).to_set() =~= s.to_set().insert(x));
}

/// A copy of a list of terminals.
pub(crate) fn copy_terminals(v: &Vec<TerminalId>) -> (res: Vec<TerminalId>)
    ensures
        res@ == v@,
{
    let mut res: Vec<TerminalId> = Vec::new();
    let mut i: usize = 0;
    while i < v.len()
        invariant
            i <= v.len(),
            res@ == v@.take(i as int),
        decreases v.len() - i,
    {
        res.push(v[i]);
        assert(v@.take(i + 1) =~= v@.take(i as int).push(v@[i as int]));
        i = i + 1;
    }
    assert(v@.take(v.len() as int) =~= v@);
    res
}

/// A set of lookahead terminals, kept as a duplicate-free list.
#[derive(Debug)]
pub struct LookaheadSet {
    terminals: Vec<TerminalId>,
}

impl View for LookaheadSet {
    type V = Set<TerminalId>;

    closed spec fn view(&self) -> Set<TerminalId> {
        self.terminals@.to_set()
    }
}

impl LookaheadSet {
    #[verifier::type_invariant]
    spec fn distinct(&self) -> bool {
        self.terminals@.no_duplicates()
    }

    proof fn lemma_view(&self)
        requires
            self.terminals@.no_duplicates(),
        ensures
            self@.len() == self.terminals.len(),
            self@.finite(),
            forall|t: TerminalId| #[trigger] self@.contains(t) <==> self.terminals@.contains(t),
    {
        self.terminals@.unique_seq_to_set();
    }

    /// The empty set.
    pub fn new() -> (res: Self)
        ensures
            res@ == Set::<TerminalId>::empty(),
    {
        let res = LookaheadSet { terminals: Vec::new() };
        assert(res@ =~= Set::<TerminalId>::empty());
        res
    }

    /// The set `{terminal}`.
    pub fn from_terminal(terminal: TerminalId) -> (res: Self)
        ensures
            res@ == set![terminal],
    {
        let mut terminals = Vec::new();
        terminals.push(terminal);
        let res = LookaheadSet { terminals };
        assert(res.terminals@[0] == terminal);
        assert(res@ =~= set![terminal]);
        res
    }

    /// The set of the given terminals.
    pub fn from_terminals(terminals: Vec<TerminalId>) -> (res: Self)
        ensures
            res@ == terminals@.to_set(),
    {
        let mut res = LookaheadSet::new();
        let mut i: usize = 0;
        while i < terminals.len()
            invariant
                i <= terminals.len(),
                res@ == terminals@.take(i as int).to_set(),
            decreases terminals.len() - i,
        {
            res.insert(terminals[i]);
            assert(terminals@.take(i + 1) =~= terminals@.take(i as int).push(terminals@[i as int]));
            proof {
                lemma_to_set_push(terminals@.take(i as int), terminals@[i as int]);
            }
            i = i + 1;
        }
        assert(terminals@.take(terminals.len() as int) =~= terminals@);
        res
    }

    /// The set `{$}` for the grammar `cfg`.
    pub fn end_marker(cfg: &ContextFreeGrammar) -> (res: Self)
        ensures
            res@ == set![TerminalId(cfg.terminals.len())],
    {
        Self::from_terminal(TerminalId(cfg.terminals.len()))
    }

    /// Adds `terminal`; returns whether it was new.
    pub fn insert(&mut self, terminal: TerminalId) -> (added: bool)
        ensures
            final(self)@ == old(self)@.insert(terminal),
            added == !old(self)@.contains(terminal),
    {
        proof {
            use_type_invariant(&*self);
            self.lemma_view();
        }
        let mut v: Vec<TerminalId> = Vec::new();
        std::mem::swap(&mut v, &mut self.terminals);
        let added = insert_terminal(&mut v, terminal);
        self.terminals = v;
        proof {
            assert(self@ =~= old(self)@.insert(terminal));
        }
        added
    }

    /// Adds every terminal of `other`; returns whether the set grew.
    pub fn extend(&mut self, other: &LookaheadSet) -> (changed: bool)
        ensures
            final(self)@ == old(self)@.union(other@),
            changed == !other@.subset_of(old(self)@),
    {
        proof {
            use_type_invariant(&*self);
            use_type_invariant(other);
            other.lemma_view();
        }
        let ghost start = self@;
        let mut changed = false;
        let mut i: usize = 0;
        while i < other.terminals.len()
            invariant
                i <= other.terminals.len(),
                self@ == start.union(other.terminals@.take(i as int).to_set()),
                changed == !other.terminals@.take(i as int).to_set().subset_of(start),
            decreases other.terminals.len() - i,
        {
            let t = other.terminals[i];
            proof {
                assert(other.terminals@.take(i + 1) =~= other.terminals@.take(i as int).push(t));
                lemma_to_set_push(other.terminals@.take(i as int), t);
            }
            if self.insert(t) {
                changed = true;
            }
            proof {
                assert(self@ =~= start.union(other.terminals@.take(i + 1).to_set()));
            }
            i = i + 1;
        }
        assert(other.terminals@.take(other.terminals.len() as int) =~= other.terminals@);
        changed
    }

    /// Whether `terminal` is in the set.
    pub fn contains(&self, terminal: TerminalId) -> (res: bool)
        ensures
            res == self@.contains(terminal),
    {
        proof {
            use_type_invariant(self);
            self.lemma_view();
        }
        contains_terminal(&self.terminals, terminal)
    }

    /// Whether the set is empty.
    pub fn is_empty(&self) -> (res: bool)
        ensures
            res == (self@.len() == 0),
    {
        proof {
            use_type_invariant(self);
            self.lemma_view();
        }
        self.terminals.len() == 0
    }

    /// The number of terminals.
    pub fn len(&self) -> (res: usize)
        ensures
            res == self@.len(),
    {
        proof {
            use_type_invariant(self);
            self.lemma_view();
        }
        self.terminals.len()
    }

    /// The terminals, each once.
    pub fn iter(&self) -> (res: Vec<TerminalId>)
        ensures
            res@.no_duplicates(),
            res@.to_set() == self@,
    {
        proof {
            use_type_invariant(self);
        }
        copy_terminals(&self.terminals)
    }

    /// The terminals, each once.
    pub fn terminals(&self) -> (res: &Vec<TerminalId>)
        ensures
            res@.no_duplicates(),
            res@.to_set() == self@,
    {
        proof {
            use_type_invariant(self);
        }
        &self.terminals
    }

    /// The union of both sets.
    pub fn union(&self, other: &LookaheadSet) -> (res: LookaheadSet)
        ensures
            res@ == self@.union(other@),
    {
        proof {
            use_type_invariant(self);
        }
        let mut res = LookaheadSet { terminals: copy_terminals(&self.terminals) };
        res.extend(other);
        res
    }

    /// The terminals in both sets.
    pub fn intersection(&self, other: &LookaheadSet) -> (res: LookaheadSet)
        ensures
            res@ == self@.intersect(other@),
    {
        self.filter(other, true)
    }

    /// The terminals of `self` that are not in `other`.
    pub fn difference(&self, other: &LookaheadSet) -> (res: LookaheadSet)
        ensures
            res@ == self@.difference(other@),
    {
        self.filter(other, false)
    }

    /// The terminals of `self` whose membership in `other` is `keep_common`.
    fn filter(&self, other: &LookaheadSet, keep_common: bool) -> (res: LookaheadSet)
        ensures
            forall|t: TerminalId| #[trigger] res@.contains(t) <==> (self@.contains(t) && other@.contains(t)
                == keep_common),
            keep_common ==> res@ == self@.intersect(other@),
            !keep_common ==> res@ == self@.difference(other@),
    {
        proof {
            use_type_invariant(self);
            self.lemma_view();
        }
        let mut out: Vec<TerminalId> = Vec::new();
        let mut i: usize = 0;
        while i < self.terminals.len()
            invariant
                i <= self.terminals.len(),
                self.terminals@.no_duplicates(),
                out@.no_duplicates(),
                forall|t: TerminalId| #[trigger] out@.contains(t) <==> (self.terminals@.take(i as int).contains(t)
                    && other@.contains(t) == keep_common),
            decreases self.terminals.len() - i,
        {
            let t = self.terminals[i];
            proof {
                assert forall|x: TerminalId| #[trigger] self.terminals@.take(i + 1).contains(x) <==> (
                self.terminals@.take(i as int).contains(x) || x == t) by {
                    if self.terminals@.take(i + 1).contains(x) {
                        let k = choose|k: int| 0 <= k < i + 1 && #[trigger] self.terminals@.take(i + 1)[k] == x;
                        if k < i {
                            assert(self.terminals@.take(i as int)[k] == x);
                        }
                    }
                    if self.terminals@.take(i as int).contains(x) {
                        let k = choose|k: int| 0 <= k < i && #[trigger] self.terminals@.take(i as int)[k] == x;
                        assert(self.terminals@.take(i + 1)[k] == x);
                    }
                    if x == t {
                        assert(self.terminals@.take(i + 1)[i as int] == x);
                    }
                }
                assert(!self.terminals@.take(i as int).contains(t)) by {
                    if self.terminals@.take(i as int).contains(t) {
                        let k = choose|k: int| 0 <= k < i && #[trigger] self.terminals@.take(i as int)[k] == t;
                        assert(self.terminals@[k] == t);
                    }
                }
            }
            if other.contains(t) == keep_common {
                insert_terminal(&mut out, t);
            }
            i = i + 1;
        }
        assert(self.terminals@.take(self.terminals.len() as int) =~= self.terminals@);
        let res = LookaheadSet { terminals: out };
        proof {
            res.lemma_view();
            if keep_common {
                assert(res@ =~= self@.intersect(other@));
            } else {
                assert(res@ =~= self@.difference(other@));
            }
        }
        res
    }
}

impl Default for LookaheadSet {
    fn default() -> (res: Self)
        ensures
            res@ == Set::<TerminalId>::empty(),
    {
        Self::new()
    }
}

} // verus!
