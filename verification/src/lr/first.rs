//! FIRST computations used by the LR constructions.
use vstd::prelude::*;
use crate::analysis::{FirstSet, all_nullable, in_first_of, is_first_sets, is_nullable_set};
use crate::cfg::{ContextFreeGrammar, NonTerminalId, Symbol, TerminalId};
use crate::lr::lookahead::LookaheadCalculator;

verus! {

/// FIRST sets, NULLABLE flags and the end marker of a grammar, with the FIRST
/// computations on symbol strings that the LR constructions need.
#[derive(Debug)]
pub struct LRFirstCalculator {
    calc: LookaheadCalculator,
}

impl LRFirstCalculator {
    /// The underlying calculator (same NULLABLE and FIRST sets).
    pub closed spec fn spec_calc(&self) -> LookaheadCalculator {
        self.calc
    }

    /// The nullable non-terminals as a predicate on ids.
    pub open spec fn nul(&self) -> spec_fn(int) -> bool {
        self.spec_calc().nul()
    }

    /// The FIRST relation as a predicate on (non-terminal, terminal) ids.
    pub open spec fn fr(&self) -> spec_fn(int, int) -> bool {
        self.spec_calc().fr()
    }

    /// Computes NULLABLE and FIRST for `cfg`; the end marker is `TerminalId(#terminals)`.
    pub fn new(cfg: &ContextFreeGrammar) -> (res: Self)
        requires
            cfg.wf(),
        ensures
            is_nullable_set(cfg, res.spec_calc().nullable_flags()),
            is_first_sets(cfg, res.nul(), res.spec_calc().first_rows()),
            res.spec_calc().spec_end_marker() == TerminalId(cfg.terminals.len()),
    {
        LRFirstCalculator { calc: LookaheadCalculator::new(cfg) }
    }

    /// The end marker `$`.
    pub fn end_marker(&self) -> (res: TerminalId)
        ensures
            res == self.spec_calc().spec_end_marker(),
    {
        self.calc.end_marker()
    }

    /// The FIRST sets.
    pub fn first_set(&self) -> (res: &FirstSet)
        ensures
            res.table@ == self.spec_calc().first_rows(),
    {
        self.calc.first_set()
    }

    /// The NULLABLE flags.
    pub fn nullable(&self) -> (res: &Vec<bool>)
        ensures
            res@ == self.spec_calc().nullable_flags(),
    {
        self.calc.nullable()
    }

    /// Whether `nt` derives the empty string.
    pub fn is_nullable(&self, nt: NonTerminalId) -> (res: bool)
        ensures
            res == self.nul()(nt.0 as int),
    {
        self.calc.is_nullable(nt)
    }

    /// FIRST of a symbol string: its terminals, each once.
    pub fn compute_first_of_symbols(&self, symbols: &[Symbol]) -> (res: Vec<TerminalId>)
        requires
            self.spec_calc().symbols_ok(symbols@),
        ensures
            res@.no_duplicates(),
            forall|t: TerminalId| #[trigger]
                res@.contains(t) <==> in_first_of(symbols@, self.nul(), self.fr(), t.0 as int),
    {
        self.calc.first_terminals(symbols)
    }

    /// FIRST of a symbol string, plus `lookahead` when the string is nullable.
    pub fn compute_first_of_symbols_with_end_marker(
        &self,
        symbols: &[Symbol],
        lookahead: TerminalId,
    ) -> (res: Vec<TerminalId>)
        requires
            self.spec_calc().symbols_ok(symbols@),
        ensures
            res@.no_duplicates(),
            forall|t: TerminalId| #[trigger]
                res@.contains(t) <==> self.spec_calc().spec_propagate(symbols@, lookahead, t),
    {
        self.calc.propagate_lookahead(symbols, lookahead)
    }

    /// Whether every symbol of `symbols` derives the empty string.
    pub fn is_string_nullable(&self, symbols: &[Symbol]) -> (res: bool)
        ensures
            res == all_nullable(symbols@, self.nul()),
    {
        self.calc.is_string_nullable(symbols)
    }
}

} // verus!
