//! Every item a grammar has.
use vstd::prelude::*;
use crate::cfg::{ContextFreeGrammar, Production, TerminalId, spec_is_epsilon_rhs};
use crate::lr::item::{LR0Item, LR1Item};
use crate::lr::lookahead::LookaheadCalculator;

verus! {

/// The dot positions of a right-hand side: 0 and 1 for an epsilon production,
/// otherwise 0 up to its length.
pub open spec fn dot_count(rhs: Seq<Symbol>) -> nat {
    if spec_is_epsilon_rhs(rhs) {
        2
    } else {
        rhs.len() + 1
    }
}

use crate::cfg::Symbol;

/// The LR(0) items of production `p`, by dot position.
pub open spec fn production_items0(p: usize, rhs: Seq<Symbol>) -> Seq<LR0Item> {
    Seq::new(dot_count(rhs), |d: int| LR0Item { production_index: p, dot_position: d as usize })
}

/// The LR(0) items of the first `n` productions, production by production.
pub open spec fn all_items0(g: &ContextFreeGrammar, n: nat) -> Seq<LR0Item>
    decreases n,
{
    if n == 0 || n > g.productions.len() {
        Seq::empty()
    } else {
        all_items0(g, (n - 1) as nat) + production_items0((n - 1) as usize, g.rhs_of(n - 1))
    }
}

/// The lookaheads of LR(1) items: every terminal, then the end marker.
pub open spec fn all_lookaheads(g: &ContextFreeGrammar, end: TerminalId) -> Seq<TerminalId> {
    Seq::new(g.terminals.len() as nat, |i: int| TerminalId(i as usize)).push(end)
}

/// The LR(1) items of production `p`: by dot position, then by lookahead.
pub open spec fn production_items1(p: usize, rhs: Seq<Symbol>, las: Seq<TerminalId>) -> Seq<LR1Item> {
    Seq::new(
        dot_count(rhs) * las.len(),
        |k: int|
            LR1Item {
                production_index: p,
                dot_position: (k / las.len() as int) as usize,
                lookahead: las[k % las.len() as int],
            },
    )
}

/// The LR(1) items of the first `n` productions.
pub open spec fn all_items1(g: &ContextFreeGrammar, las: Seq<TerminalId>, n: nat) -> Seq<LR1Item>
    decreases n,
{
    if n == 0 || n > g.productions.len() {
        Seq::empty()
    } else {
        all_items1(g, las, (n - 1) as nat) + production_items1((n - 1) as usize, g.rhs_of(n - 1), las)
    }
}

/// A list of LR(0) items.
#[derive(Debug)]
pub struct AllLR0Items {
    items: Vec<LR0Item>,
}

impl View for AllLR0Items {
    type V = Seq<LR0Item>;

    open spec fn view(&self) -> Seq<LR0Item> {
        self.item_seq()
    }
}

impl AllLR0Items {
    pub closed spec fn item_seq(&self) -> Seq<LR0Item> {
        self.items@
    }

    pub fn new(items: Vec<LR0Item>) -> (res: Self)
        ensures
            res@ == items@,
    {
        AllLR0Items { items }
    }

    /// Every LR(0) item of the grammar (see `all_items0`).
    pub fn build(cfg: &ContextFreeGrammar) -> (res: Self)
        ensures
            res@ == all_items0(cfg, cfg.productions.len() as nat),
    {
        let mut items: Vec<LR0Item> = Vec::new();
        let mut p: usize = 0;
        while p < cfg.productions.len()
            invariant
                p <= cfg.productions@.len(),
                items@ == all_items0(cfg, p as nat),
            decreases cfg.productions@.len() - p,
        {
            let production = &cfg.productions[p];
            let ghost base = items@;
            let ghost rhs = cfg.rhs_of(p as int);
            let last = if production.is_epsilon() {
                1
            } else {
                production.rhs.len()
            };
            let mut dot: usize = 0;
            loop
                invariant_except_break
                    items@ == base + production_items0(p, rhs).take(dot as int),
                invariant
                    dot <= last,
                    p < cfg.productions@.len(),
                    *production == cfg.productions@[p as int],
                    rhs == production.rhs@,
                    last + 1 == dot_count(rhs),
                ensures
                    items@ == base + production_items0(p, rhs),
                decreases last - dot,
            {
                items.push(LR0Item::new(p, dot));
                assert(production_items0(p, rhs).take(dot + 1) =~= production_items0(p, rhs).take(dot as int).push(
                    LR0Item { production_index: p, dot_position: dot },
                ));
                if dot == last {
                    assert(production_items0(p, rhs).take((last + 1) as int) =~= production_items0(p, rhs));
                    break;
                }
                dot = dot + 1;
            }
            proof {
                lemma_all_items0_step(cfg, p);
            }
            p = p + 1;
        }
        AllLR0Items { items }
    }

    pub fn items(&self) -> (res: &[LR0Item])
        ensures
            res@ == self@,
    {
        self.items.as_slice()
    }

    pub fn len(&self) -> (res: usize)
        ensures
            res == self@.len(),
    {
        self.items.len()
    }

    pub fn is_empty(&self) -> (res: bool)
        ensures
            res == (self@.len() == 0),
    {
        self.items.len() == 0
    }

    /// The items, in order.
    pub fn iter(&self) -> (res: Vec<LR0Item>)
        ensures
            res@ == self@,
    {
        crate::lr::item_set::copy_lr0(&self.items)
    }
}

/// Unfolds `all_items0` one production further.
proof fn lemma_all_items0_step(g: &ContextFreeGrammar, p: usize)
    requires
        p < g.productions.len(),
    ensures
        all_items0(g, (p + 1) as nat) == all_items0(g, p as nat) + production_items0(p, g.rhs_of(p as int)),
{
}

/// A list of LR(1) items.
#[derive(Debug)]
pub struct AllLR1Items {
    items: Vec<LR1Item>,
}

impl View for AllLR1Items {
    type V = Seq<LR1Item>;

    open spec fn view(&self) -> Seq<LR1Item> {
        self.item_seq()
    }
}

impl AllLR1Items {
    pub closed spec fn item_seq(&self) -> Seq<LR1Item> {
        self.items@
    }

    pub fn new(items: Vec<LR1Item>) -> (res: Self)
        ensures
            res@ == items@,
    {
        AllLR1Items { items }
    }

    /// Every LR(1) item of the grammar with every terminal and the end marker as
    /// lookahead (see `all_items1`).
    pub fn build(cfg: &ContextFreeGrammar, calculator: &LookaheadCalculator) -> (res: Self)
        ensures
            res@ == all_items1(cfg, all_lookaheads(cfg, calculator.spec_end_marker()), cfg.productions.len() as nat),
    {
        let ghost las = all_lookaheads(cfg, calculator.spec_end_marker());
        let mut all_terminals: Vec<TerminalId> = Vec::new();
        let mut t: usize = 0;
        while t < cfg.terminals.len()
            invariant
                t <= cfg.terminals@.len(),
                all_terminals@ == Seq::new(t as nat, |i: int| TerminalId(i as usize)),
            decreases cfg.terminals@.len() - t,
        {
            all_terminals.push(TerminalId(t));
            assert(all_terminals@ =~= Seq::new((t + 1) as nat, |i: int| TerminalId(i as usize)));
            t = t + 1;
        }
        all_terminals.push(calculator.end_marker());
        assert(all_terminals@ =~= las);
        let mut items: Vec<LR1Item> = Vec::new();
        let mut p: usize = 0;
        while p < cfg.productions.len()
            invariant
                p <= cfg.productions@.len(),
                all_terminals@ == las,
                las.len() > 0,
                items@ == all_items1(cfg, las, p as nat),
            decreases cfg.productions@.len() - p,
        {
            let production = &cfg.productions[p];
            let ghost base = items@;
            let ghost rhs = cfg.rhs_of(p as int);
            let ghost full = production_items1(p, rhs, las);
            let last = if production.is_epsilon() {
                1
            } else {
                production.rhs.len()
            };
            let mut dot: usize = 0;
            loop
                invariant_except_break
                    items@ == base + full.take(dot * las.len()),
                invariant
                    dot <= last,
                    p < cfg.productions@.len(),
                    *production == cfg.productions@[p as int],
                    rhs == production.rhs@,
                    last + 1 == dot_count(rhs),
                    all_terminals@ == las,
                    las.len() > 0,
                    full == production_items1(p, rhs, las),
                    full.len() == (last + 1) * las.len(),
                ensures
                    items@ == base + full,
                decreases last - dot,
            {
                let mut k: usize = 0;
                while k < all_terminals.len()
                    invariant
                        dot <= last,
                        k <= las.len(),
                        all_terminals@ == las,
                        las.len() > 0,
                        full == production_items1(p, rhs, las),
                        full.len() == (last + 1) * las.len(),
                        items@ == base + full.take(dot * las.len() + k),
                    decreases las.len() - k,
                {
                    items.push(LR1Item::new(p, dot, all_terminals[k]));
                    proof {
                        let idx = dot * las.len() + k;
                        assert(idx < full.len()) by (nonlinear_arith)
                            requires
                                dot <= last,
                                k < las.len(),
                                idx == dot * las.len() + k,
                                full.len() == (last + 1) * las.len(),
                        ;
                        assert(idx / las.len() as int == dot as int) by (nonlinear_arith)
                            requires
                                k < las.len(),
                                idx == dot * las.len() + k,
                        ;
                        assert(idx % las.len() as int == k as int) by (nonlinear_arith)
                            requires
                                k < las.len(),
                                idx == dot * las.len() + k,
                        ;
                        assert(full.take(idx + 1) =~= full.take(idx).push(full[idx]));
                    }
                    k = k + 1;
                }
                if dot == last {
                    proof {
                        assert((last + 1) * las.len() == last * las.len() + las.len()) by (nonlinear_arith);
                        assert(full.take(full.len() as int) =~= full);
                    }
                    break;
                }
                proof {
                    assert((dot + 1) * las.len() == dot * las.len() + las.len()) by (nonlinear_arith);
                }
                dot = dot + 1;
            }
            p = p + 1;
        }
        AllLR1Items { items }
    }

    pub fn items(&self) -> (res: &[LR1Item])
        ensures
            res@ == self@,
    {
        self.items.as_slice()
    }

    pub fn len(&self) -> (res: usize)
        ensures
            res == self@.len(),
    {
        self.items.len()
    }

    pub fn is_empty(&self) -> (res: bool)
        ensures
            res == (self@.len() == 0),
    {
        self.items.len() == 0
    }

    /// The items, in order.
    pub fn iter(&self) -> (res: Vec<LR1Item>)
        ensures
            res@ == self@,
    {
        crate::lr::item_set::copy_lr1(&self.items)
    }
}

} // verus!
