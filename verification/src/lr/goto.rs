//! GOTO on item sets, the transition symbols of an item set, and the GOTO table.
use vstd::prelude::*;
use crate::cfg::{ContextFreeGrammar, NonTerminalId, Symbol, TerminalId};
use crate::lr::closure::{LR0Closure, LR1Closure, calculator_fits, is_lr0_closure, is_lr1_closure};
use crate::lr::item::{LR0Item, LR1Item, insert_lr0, insert_lr1, spec_next_symbol};
use crate::lr::lookahead::LookaheadCalculator;

verus! {

/// The result of a GOTO computation: an item set.
#[derive(Debug)]
pub struct GotoResult<T> {
    pub items: Vec<T>,
}

impl<T> GotoResult<T> {
    pub fn new(items: Vec<T>) -> (res: Self)
        ensures
            res.items@ == items@,
    {
        GotoResult { items }
    }

    pub fn is_empty(&self) -> (res: bool)
        ensures
            res == (self.items@.len() == 0),
    {
        self.items.len() == 0
    }
}

/// The symbol after the dot of an item with production `prod` and dot `dot`,
/// when the production exists.
pub open spec fn item_next(g: &ContextFreeGrammar, prod: usize, dot: usize) -> Option<Symbol> {
    if prod < g.productions.len() {
        spec_next_symbol(dot, g.rhs_of(prod as int))
    } else {
        None
    }
}

/// The kernel of GOTO(I, X) for LR(0) items: the items of `I` with `X` after
/// the dot, with the dot moved past `X`.
pub open spec fn goto_kernel0(g: &ContextFreeGrammar, items: Set<LR0Item>, x: Symbol) -> Set<LR0Item> {
    Set::new(
        |j: LR0Item|
            exists|it: LR0Item|
                #![trigger items.contains(it)]
                items.contains(it) && item_next(g, it.production_index, it.dot_position) == Some(x)
                    && j == it.spec_advance(),
    )
}

/// The kernel of GOTO(I, X) for LR(1) items (lookaheads are carried over).
pub open spec fn goto_kernel1(g: &ContextFreeGrammar, items: Set<LR1Item>, x: Symbol) -> Set<LR1Item> {
    Set::new(
        |j: LR1Item|
            exists|it: LR1Item|
                #![trigger items.contains(it)]
                items.contains(it) && item_next(g, it.production_index, it.dot_position) == Some(x)
                    && j == it.spec_advance(),
    )
}

/// `x` labels a transition out of an item set: some item has `x` after its dot.
pub open spec fn is_transition0(g: &ContextFreeGrammar, items: Seq<LR0Item>, x: Symbol) -> bool {
    exists|k: int|
        0 <= k < items.len() && item_next(g, items[k].production_index, items[k].dot_position)
            == Some(x)
}

/// `x` labels a transition out of an LR(1) item set.
pub open spec fn is_transition1(g: &ContextFreeGrammar, items: Seq<LR1Item>, x: Symbol) -> bool {
    exists|k: int|
        0 <= k < items.len() && item_next(g, items[k].production_index, items[k].dot_position)
            == Some(x)
}

/// Order of transition symbols: `ε` first, then terminals by id, then non-terminals by id.
pub open spec fn symbol_key(s: Symbol) -> (int, int) {
    match s {
        Symbol::Epsilon => (0, 0),
        Symbol::Terminal(t) => (1, t.0 as int),
        Symbol::NonTerminal(n) => (2, n.0 as int),
    }
}

/// `a` comes strictly before `b` in the order of transition symbols.
pub open spec fn symbol_before(a: Symbol, b: Symbol) -> bool {
    symbol_key(a).0 < symbol_key(b).0 || (symbol_key(a).0 == symbol_key(b).0 && symbol_key(a).1
        < symbol_key(b).1)
}

/// A next symbol lies inside the right-hand side, except `ε` of an epsilon production.
proof fn lemma_next_bounds(dot: usize, rhs: Seq<Symbol>)
    requires
        rhs.len() <= usize::MAX,
        spec_next_symbol(dot, rhs) is Some,
    ensures
        dot < usize::MAX,
        spec_next_symbol(dot, rhs) != Some(Symbol::Epsilon) ==> dot < rhs.len(),
{
}

/// Whether some item of `items` has `x` after its dot.
fn has_transition0(items: &Vec<LR0Item>, cfg: &ContextFreeGrammar, x: Symbol) -> (res: bool)
    ensures
        res == is_transition0(cfg, items@, x),
{
    let mut k: usize = 0;
    while k < items.len()
        invariant
            k <= items.len(),
            forall|j: int|
                0 <= j < k ==> item_next(cfg, #[trigger] items@[j].production_index, items@[j].dot_position)
                    != Some(x),
        decreases items.len() - k,
    {
        let it = items[k];
        if it.production_index < cfg.productions.len() {
            if it.next_symbol(&cfg.productions[it.production_index]) == Some(x) {
                assert(item_next(cfg, items@[k as int].production_index, items@[k as int].dot_position) == Some(x));
                return true;
            }
        }
        k = k + 1;
    }
    false
}

/// The transition symbols of an item set, in symbol order (see `symbol_before`).
fn transitions_of(items: &Vec<LR0Item>, cfg: &ContextFreeGrammar) -> (res: Vec<Symbol>)
    requires
        cfg.wf(),
    ensures
        forall|x: Symbol| #[trigger] res@.contains(x) <==> is_transition0(cfg, items@, x),
        forall|i: int, j: int| 0 <= i < j < res@.len() ==> symbol_before(res@[i], res@[j]),
{
    let mut res: Vec<Symbol> = Vec::new();
    if has_transition0(items, cfg, Symbol::Epsilon) {
        res.push(Symbol::Epsilon);
        assert(res@[0] == Symbol::Epsilon);
    }
    assert forall|x: Symbol| #[trigger] res@.contains(x) <==> (is_transition0(cfg, items@, x) && x
        == Symbol::Epsilon) by {
        if res@.contains(x) {
            let k = choose|k: int| 0 <= k < res@.len() && res@[k] == x;
        }
    }
    let nterm = cfg.terminals.len();
    let mut t: usize = 0;
    while t < nterm
        invariant
            t <= nterm,
            nterm == cfg.terminals.len(),
            forall|i: int, j: int| 0 <= i < j < res@.len() ==> symbol_before(res@[i], res@[j]),
            forall|i: int| 0 <= i < res@.len() ==> symbol_key(#[trigger] res@[i]).0 <= 1,
            forall|i: int| 0 <= i < res@.len() && symbol_key(#[trigger] res@[i]).0 == 1 ==> symbol_key(
                res@[i],
            ).1 < t,
            forall|x: Symbol| #[trigger]
                res@.contains(x) <==> (is_transition0(cfg, items@, x) && (x == Symbol::Epsilon || (
                x is Terminal && x->Terminal_0.0 < t))),
        decreases nterm - t,
    {
        let x = Symbol::Terminal(TerminalId(t));
        if has_transition0(items, cfg, x) {
            let ghost before = res@;
            res.push(x);
            proof {
                assert forall|y: Symbol| #[trigger] res@.contains(y) <==> (before.contains(y) || y == x) by {
                    if before.contains(y) {
                        let k = choose|k: int| 0 <= k < before.len() && before[k] == y;
                        assert(res@[k] == y);
                    }
                    if y == x {
                        assert(res@[before.len() as int] == x);
                    }
                }
            }
        }
        t = t + 1;
    }
    let nnt = cfg.non_terminals.len();
    let mut n: usize = 0;
    while n < nnt
        invariant
            n <= nnt,
            nterm == cfg.terminals.len(),
            nnt == cfg.non_terminals.len(),
            cfg.wf(),
            forall|i: int, j: int| 0 <= i < j < res@.len() ==> symbol_before(res@[i], res@[j]),
            forall|i: int| 0 <= i < res@.len() && symbol_key(#[trigger] res@[i]).0 == 2 ==> symbol_key(
                res@[i],
            ).1 < n,
            forall|x: Symbol| #[trigger]
                res@.contains(x) <==> (is_transition0(cfg, items@, x) && (x == Symbol::Epsilon || (
                x is Terminal && x->Terminal_0.0 < nterm) || (x is NonTerminal && x->NonTerminal_0.0
                < n))),
        decreases nnt - n,
    {
        let x = Symbol::NonTerminal(NonTerminalId(n));
        if has_transition0(items, cfg, x) {
            let ghost before = res@;
            res.push(x);
            proof {
                assert forall|y: Symbol| #[trigger] res@.contains(y) <==> (before.contains(y) || y == x) by {
                    if before.contains(y) {
                        let k = choose|k: int| 0 <= k < before.len() && before[k] == y;
                        assert(res@[k] == y);
                    }
                    if y == x {
                        assert(res@[before.len() as int] == x);
                    }
                }
            }
        }
        n = n + 1;
    }
    proof {
        assert forall|x: Symbol| #[trigger] res@.contains(x) <==> is_transition0(cfg, items@, x) by {
            if is_transition0(cfg, items@, x) {
                let k = choose|k: int|
                    0 <= k < items@.len() && item_next(cfg, items@[k].production_index, items@[k].dot_position)
                        == Some(x);
                let it = items@[k];
                let r = cfg.rhs_of(it.production_index as int);
                assert(r.len() == cfg.productions@[it.production_index as int].rhs.len());
                lemma_next_bounds(it.dot_position, r);
                if x != Symbol::Epsilon {
                    assert(r[it.dot_position as int] == x);
                    assert(crate::cfg::symbol_in_range(
                        cfg.productions@[it.production_index as int].rhs@[it.dot_position as int],
                        cfg.terminals.len() as nat,
                        cfg.non_terminals.len() as nat,
                    ));
                }
            }
        }
    }
    res
}

/// LR(0) GOTO.
pub struct LR0Goto;

impl LR0Goto {
    /// GOTO(I, X): the closure of the items of `I` with `X` after the dot, the dot
    /// moved past `X`; `None` when no item of `I` has `X` after the dot.
    pub fn compute(items: &Vec<LR0Item>, cfg: &ContextFreeGrammar, symbol: Symbol) -> (res: Option<
        Vec<LR0Item>,
    >)
        ensures
            res is None <==> goto_kernel0(cfg, items@.to_set(), symbol).is_empty(),
            res matches Some(r) ==> r@.no_duplicates() && is_lr0_closure(
                cfg,
                goto_kernel0(cfg, items@.to_set(), symbol),
                r@.to_set(),
            ),
    {
        let ghost kernel = goto_kernel0(cfg, items@.to_set(), symbol);
        let mut result: Vec<LR0Item> = Vec::new();
        let mut k: usize = 0;
        while k < items.len()
            invariant
                k <= items.len(),
                result@.no_duplicates(),
                forall|j: LR0Item| #[trigger]
                    result@.contains(j) <==> exists|m: int|
                        0 <= m < k && item_next(cfg, items@[m].production_index, items@[m].dot_position)
                            == Some(symbol) && j == #[trigger] items@[m].spec_advance(),
            decreases items.len() - k,
        {
            let it = items[k];
            if it.production_index < cfg.productions.len() {
                if it.next_symbol(&cfg.productions[it.production_index]) == Some(symbol) {
                    proof {
                        assert(cfg.rhs_of(it.production_index as int).len() == cfg.productions@[it.production_index as int].rhs.len());
                        lemma_next_bounds(it.dot_position, cfg.rhs_of(it.production_index as int));
                    }
                    insert_lr0(&mut result, it.advance());
                }
            }
            proof {
                assert forall|j: LR0Item| #[trigger]
                    result@.contains(j) <==> exists|m: int|
                        0 <= m < k + 1 && item_next(cfg, items@[m].production_index, items@[m].dot_position)
                            == Some(symbol) && j == #[trigger] items@[m].spec_advance() by {
                    if exists|m: int|
                        0 <= m < k + 1 && item_next(cfg, items@[m].production_index, items@[m].dot_position)
                            == Some(symbol) && j == #[trigger] items@[m].spec_advance() {
                        let m = choose|m: int|
                            0 <= m < k + 1 && item_next(cfg, items@[m].production_index, items@[m].dot_position)
                                == Some(symbol) && j == #[trigger] items@[m].spec_advance();
                        if m == k {
                            assert(j == it.spec_advance());
                        }
                    }
                }
            }
            k = k + 1;
        }
        proof {
            assert forall|j: LR0Item| #[trigger] result@.to_set().contains(j) <==> kernel.contains(j) by {
                if kernel.contains(j) {
                    let it = choose|it: LR0Item|
                        #![trigger items@.to_set().contains(it)]
                        items@.to_set().contains(it) && item_next(cfg, it.production_index, it.dot_position)
                            == Some(symbol) && j == it.spec_advance();
                    let m = choose|m: int| 0 <= m < items@.len() && items@[m] == it;
                    assert(items@[m].spec_advance() == j);
                }
                if result@.contains(j) {
                    let m = choose|m: int|
                        0 <= m < k && item_next(cfg, items@[m].production_index, items@[m].dot_position)
                            == Some(symbol) && j == #[trigger] items@[m].spec_advance();
                    assert(items@.to_set().contains(items@[m]));
                }
            }
            assert(result@.to_set() =~= kernel);
        }
        if result.len() == 0 {
            assert(result@.to_set() =~= Set::<LR0Item>::empty());
            None
        } else {
            assert(result@.to_set().contains(result@[0]));
            Some(LR0Closure::compute(&result, cfg))
        }
    }

    /// The symbols with a GOTO out of `items`, each once: `ε` first, then the
    /// terminals by id, then the non-terminals by id.
    pub fn get_transitions(items: &Vec<LR0Item>, cfg: &ContextFreeGrammar) -> (res: Vec<Symbol>)
        requires
            cfg.wf(),
        ensures
            forall|x: Symbol| #[trigger] res@.contains(x) <==> is_transition0(cfg, items@, x),
            forall|i: int, j: int| 0 <= i < j < res@.len() ==> symbol_before(res@[i], res@[j]),
    {
        transitions_of(items, cfg)
    }
}

/// The LR(0) cores of LR(1) items, position by position.
fn cores_of(items: &Vec<LR1Item>) -> (res: Vec<LR0Item>)
    ensures
        res@.len() == items@.len(),
        forall|k: int| 0 <= k < items@.len() ==> #[trigger] res@[k] == items@[k].spec_core(),
{
    let mut res: Vec<LR0Item> = Vec::new();
    let mut k: usize = 0;
    while k < items.len()
        invariant
            k <= items.len(),
            res@.len() == k,
            forall|j: int| 0 <= j < k ==> #[trigger] res@[j] == items@[j].spec_core(),
        decreases items.len() - k,
    {
        res.push(items[k].get_core());
        k = k + 1;
    }
    res
}

/// LR(1) GOTO.
pub struct LR1Goto;

impl LR1Goto {
    /// GOTO(I, X) for LR(1) items: the LR(1) closure of the items of `I` with `X`
    /// after the dot, the dot moved past `X`; `None` when there are none.
    pub fn compute(
        items: &Vec<LR1Item>,
        cfg: &ContextFreeGrammar,
        calculator: &LookaheadCalculator,
        symbol: Symbol,
    ) -> (res: Option<Vec<LR1Item>>)
        requires
            cfg.wf(),
            calculator_fits(cfg, calculator),
            forall|k: int| 0 <= k < items.len() ==> (#[trigger] items@[k]).lookahead.0 <= cfg.terminals.len(),
        ensures
            res is None <==> goto_kernel1(cfg, items@.to_set(), symbol).is_empty(),
            res matches Some(r) ==> r@.no_duplicates() && is_lr1_closure(
                cfg,
                calculator,
                goto_kernel1(cfg, items@.to_set(), symbol),
                r@.to_set(),
            ),
    {
        let ghost kernel = goto_kernel1(cfg, items@.to_set(), symbol);
        let mut result: Vec<LR1Item> = Vec::new();
        let mut k: usize = 0;
        while k < items.len()
            invariant
                k <= items.len(),
                result@.no_duplicates(),
                forall|k2: int| 0 <= k2 < items.len() ==> (#[trigger] items@[k2]).lookahead.0 <= cfg.terminals.len(),
                forall|j: LR1Item| #[trigger]
                    result@.contains(j) <==> exists|m: int|
                        0 <= m < k && item_next(cfg, items@[m].production_index, items@[m].dot_position)
                            == Some(symbol) && j == #[trigger] items@[m].spec_advance(),
            decreases items.len() - k,
        {
            let it = items[k];
            if it.production_index < cfg.productions.len() {
                if it.next_symbol(&cfg.productions[it.production_index]) == Some(symbol) {
                    proof {
                        assert(cfg.rhs_of(it.production_index as int).len() == cfg.productions@[it.production_index as int].rhs.len());
                        lemma_next_bounds(it.dot_position, cfg.rhs_of(it.production_index as int));
                    }
                    insert_lr1(&mut result, it.advance());
                }
            }
            proof {
                assert forall|j: LR1Item| #[trigger]
                    result@.contains(j) <==> exists|m: int|
                        0 <= m < k + 1 && item_next(cfg, items@[m].production_index, items@[m].dot_position)
                            == Some(symbol) && j == #[trigger] items@[m].spec_advance() by {
                    if exists|m: int|
                        0 <= m < k + 1 && item_next(cfg, items@[m].production_index, items@[m].dot_position)
                            == Some(symbol) && j == #[trigger] items@[m].spec_advance() {
                        let m = choose|m: int|
                            0 <= m < k + 1 && item_next(cfg, items@[m].production_index, items@[m].dot_position)
                                == Some(symbol) && j == #[trigger] items@[m].spec_advance();
                        if m == k {
                            assert(j == it.spec_advance());
                        }
                    }
                }
            }
            k = k + 1;
        }
        proof {
            assert forall|j: LR1Item| #[trigger] result@.to_set().contains(j) <==> kernel.contains(j) by {
                if kernel.contains(j) {
                    let it = choose|it: LR1Item|
                        #![trigger items@.to_set().contains(it)]
                        items@.to_set().contains(it) && item_next(cfg, it.production_index, it.dot_position)
                            == Some(symbol) && j == it.spec_advance();
                    let m = choose|m: int| 0 <= m < items@.len() && items@[m] == it;
                    assert(items@[m].spec_advance() == j);
                }
                if result@.contains(j) {
                    let m = choose|m: int|
                        0 <= m < k && item_next(cfg, items@[m].production_index, items@[m].dot_position)
                            == Some(symbol) && j == #[trigger] items@[m].spec_advance();
                    assert(items@.to_set().contains(items@[m]));
                }
            }
            assert(result@.to_set() =~= kernel);
            assert forall|k2: int| 0 <= k2 < result.len() implies (#[trigger] result@[k2]).lookahead.0
                <= cfg.terminals.len() by {
                assert(result@.contains(result@[k2]));
                let m = choose|m: int|
                    0 <= m < k && item_next(cfg, items@[m].production_index, items@[m].dot_position)
                        == Some(symbol) && result@[k2] == #[trigger] items@[m].spec_advance();
            }
        }
        if result.len() == 0 {
            assert(result@.to_set() =~= Set::<LR1Item>::empty());
            None
        } else {
            assert(result@.to_set().contains(result@[0]));
            Some(LR1Closure::compute(&result, cfg, calculator))
        }
    }

    /// The symbols with a GOTO out of `items`, each once: `ε` first, then the
    /// terminals by id, then the non-terminals by id.
    pub fn get_transitions(items: &Vec<LR1Item>, cfg: &ContextFreeGrammar) -> (res: Vec<Symbol>)
        requires
            cfg.wf(),
        ensures
            forall|x: Symbol| #[trigger] res@.contains(x) <==> is_transition1(cfg, items@, x),
            forall|i: int, j: int| 0 <= i < j < res@.len() ==> symbol_before(res@[i], res@[j]),
    {
        let cores = cores_of(items);
        let res = transitions_of(&cores, cfg);
        proof {
            assert forall|x: Symbol| #[trigger] is_transition0(cfg, cores@, x) <==> is_transition1(cfg, items@, x) by {
                if is_transition1(cfg, items@, x) {
                    let k = choose|k: int|
                        0 <= k < items@.len() && item_next(cfg, items@[k].production_index, items@[k].dot_position)
                            == Some(x);
                    assert(cores@[k] == items@[k].spec_core());
                }
                if is_transition0(cfg, cores@, x) {
                    let k = choose|k: int|
                        0 <= k < cores@.len() && item_next(cfg, cores@[k].production_index, cores@[k].dot_position)
                            == Some(x);
                    assert(cores@[k] == items@[k].spec_core());
                }
            }
        }
        res
    }
}

/// An entry of the GOTO table.
#[derive(Debug, Clone, Copy, PartialEq, Eq, Structural, Hash)]
pub enum GotoEntry {
    Shift(ItemSetId),
    Error,
}

/// The id of an item set (a state of the LR automaton).
#[derive(Debug, Clone, Copy, PartialEq, Eq, Structural, Hash, PartialOrd, Ord)]
pub struct ItemSetId(pub usize);

/// The GOTO table: for a state and the non-terminal a reduction produced, the
/// state to go to.
#[derive(Debug)]
pub struct GotoTable {
    entries: Vec<Vec<Option<ItemSetId>>>,
    non_terminal_count: usize,
}

impl GotoTable {
    #[verifier::type_invariant]
    spec fn rows_fit(&self) -> bool {
        forall|s: int| 0 <= s < self.entries.len() ==> (#[trigger] self.entries@[s])@.len() == self.non_terminal_count
    }

    /// The table contents, row by row.
    pub closed spec fn rows(&self) -> Seq<Seq<Option<ItemSetId>>> {
        Seq::new(self.entries.len() as nat, |s: int| self.entries@[s]@)
    }

    /// The number of non-terminal columns.
    pub closed spec fn columns(&self) -> nat {
        self.non_terminal_count as nat
    }

    /// The entry at (`state`, `nt`); `None` outside the columns.
    pub open spec fn entry(&self, state: int, nt: int) -> Option<ItemSetId> {
        if 0 <= nt < self.columns() {
            self.rows()[state][nt]
        } else {
            None
        }
    }

    /// An empty table (every entry `None`) with the given dimensions.
    pub fn new(state_count: usize, non_terminal_count: usize) -> (res: Self)
        ensures
            res.rows().len() == state_count,
            res.columns() == non_terminal_count,
            forall|s: int| 0 <= s < state_count ==> #[trigger] res.rows()[s] == Seq::new(
                non_terminal_count as nat,
                |n: int| None::<ItemSetId>,
            ),
            forall|s: int, n: int| 0 <= s < state_count ==> res.entry(s, n) is None,
            forall|s: int| 0 <= s < state_count ==> (#[trigger] res.rows()[s]).len() == non_terminal_count,
    {
        let mut entries: Vec<Vec<Option<ItemSetId>>> = Vec::new();
        let mut s: usize = 0;
        while s < state_count
            invariant
                s <= state_count,
                entries.len() == s,
                forall|i: int| 0 <= i < s ==> (#[trigger] entries@[i])@.len() == non_terminal_count,
                forall|i: int, n: int| 0 <= i < s && 0 <= n < non_terminal_count ==> entries@[i]@[n] is None,
            decreases state_count - s,
        {
            let mut row: Vec<Option<ItemSetId>> = Vec::new();
            let mut n: usize = 0;
            while n < non_terminal_count
                invariant
                    n <= non_terminal_count,
                    row.len() == n,
                    forall|k: int| 0 <= k < n ==> row@[k] is None,
                decreases non_terminal_count - n,
            {
                row.push(None);
                n = n + 1;
            }
            entries.push(row);
            s = s + 1;
        }
        let res = GotoTable { entries, non_terminal_count };
        proof {
            assert forall|s: int| 0 <= s < state_count implies #[trigger] res.rows()[s] =~= Seq::new(
                non_terminal_count as nat,
                |n: int| None::<ItemSetId>,
            ) by {}
        }
        res
    }

    /// The state to go to from `state` on `nt`, if any.
    pub fn get(&self, state: ItemSetId, nt: NonTerminalId) -> (res: Option<ItemSetId>)
        requires
            state.0 < self.rows().len(),
        ensures
            res == self.entry(state.0 as int, nt.0 as int),
    {
        proof {
            use_type_invariant(self);
        }
        if nt.0 < self.entries[state.0].len() {
            self.entries[state.0][nt.0]
        } else {
            None
        }
    }

    /// Records the transition from `state` on `nt` to `next_state`; a non-terminal
    /// outside the columns is ignored.
    pub fn set(&mut self, state: ItemSetId, nt: NonTerminalId, next_state: ItemSetId)
        requires
            state.0 < old(self).rows().len(),
        ensures
            final(self).rows().len() == old(self).rows().len(),
            final(self).columns() == old(self).columns(),
            nt.0 < old(self).columns() ==> final(self).rows() == old(self).rows().update(
                state.0 as int,
                old(self).rows()[state.0 as int].update(nt.0 as int, Some(next_state)),
            ),
            nt.0 >= old(self).columns() ==> final(self).rows() == old(self).rows(),
            forall|s: int, n: int|
                #![trigger final(self).entry(s, n)]
                0 <= s < old(self).rows().len() ==> final(self).entry(s, n) == (if s == state.0 && n == nt.0
                    && 0 <= n < old(self).columns() {
                    Some(next_state)
                } else {
                    old(self).entry(s, n)
                }),
    {
        proof {
            use_type_invariant(&*self);
        }
        if nt.0 < self.non_terminal_count {
            let mut entries: Vec<Vec<Option<ItemSetId>>> = Vec::new();
            std::mem::swap(&mut entries, &mut self.entries);
            let mut row = copy_row(&entries[state.0]);
            row.set(nt.0, Some(next_state));
            entries.set(state.0, row);
            self.entries = entries;
            proof {
                assert(self.rows() =~= old(self).rows().update(
                    state.0 as int,
                    old(self).rows()[state.0 as int].update(nt.0 as int, Some(next_state)),
                ));
            }
        } else {
            assert(self.rows() =~= old(self).rows());
        }
    }

    /// The number of states (rows).
    pub fn state_count(&self) -> (res: usize)
        ensures
            res == self.rows().len(),
    {
        self.entries.len()
    }

    /// The number of non-terminals (columns).
    pub fn non_terminal_count(&self) -> (res: usize)
        ensures
            res == self.columns(),
            forall|k: int| 0 <= k < self.rows().len() ==> (#[trigger] self.rows()[k]).len() == res,
    {
        proof {
            use_type_invariant(self);
        }
        self.non_terminal_count
    }
}

fn copy_row(row: &Vec<Option<ItemSetId>>) -> (res: Vec<Option<ItemSetId>>)
    ensures
        res@ == row@,
{
    let mut res: Vec<Option<ItemSetId>> = Vec::new();
    let mut i: usize = 0;
    while i < row.len()
        invariant
            i <= row.len(),
            res@ == row@.take(i as int),
        decreases row.len() - i,
    {
        res.push(row[i]);
        assert(row@.take(i + 1) =~= row@.take(i as int).push(row@[i as int]));
        i = i + 1;
    }
    assert(row@.take(row.len() as int) =~= row@);
    res
}

} // verus!
