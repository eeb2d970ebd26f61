//! Closure of LR(0) and LR(1) item sets.
use vstd::prelude::*;
use crate::analysis::{all_false, false_matrix, set_flag2, syms_ok};
use crate::cfg::{ContextFreeGrammar, Symbol, TerminalId};
use crate::counting::{falses, falses2, lemma_falses_update, lemma_falses2_update};
use crate::lr::item::{
    LR0Item, LR1Item, contains_lr0, contains_lr1, insert_lr0, insert_lr1, spec_next_symbol,
};
use crate::lr::lookahead::LookaheadCalculator;

verus! {

/// The item `it` (of an existing production) has the non-terminal on the left of
/// production `p` right after its dot, so closure adds the initial items of `p`.
pub open spec fn predicts(g: &ContextFreeGrammar, prod: usize, dot: usize, p: int) -> bool {
    &&& prod < g.productions.len()
    &&& 0 <= p < g.productions.len()
    &&& spec_next_symbol(dot, g.rhs_of(prod as int)) == Some(
        Symbol::NonTerminal(g.productions@[p].lhs),
    )
}

/// `s` is closed under the LR(0) closure rule.
pub open spec fn lr0_closed(g: &ContextFreeGrammar, s: Set<LR0Item>) -> bool {
    forall|it: LR0Item, p: int|
        #![trigger s.contains(it), predicts(g, it.production_index, it.dot_position, p)]
        s.contains(it) && predicts(g, it.production_index, it.dot_position, p) ==> s.contains(
            LR0Item { production_index: p as usize, dot_position: 0 },
        )
}

/// `res` is the LR(0) closure of `items`: the least closed set containing them.
pub open spec fn is_lr0_closure(g: &ContextFreeGrammar, items: Set<LR0Item>, res: Set<LR0Item>) -> bool {
    &&& items.subset_of(res)
    &&& lr0_closed(g, res)
    &&& forall|s: Set<LR0Item>| #[trigger] lr0_closed(g, s) && items.subset_of(s) ==> res.subset_of(s)
}

/// LR(0) closure.
pub struct LR0Closure;

impl LR0Closure {
    /// The closure of `items`: for every item `[A -> α·Bβ]` it holds, every
    /// production `B -> γ` contributes `[B -> ·γ]`. The result lists each item once.
    pub fn compute(items: &Vec<LR0Item>, cfg: &ContextFreeGrammar) -> (res: Vec<LR0Item>)
        ensures
            res@.no_duplicates(),
            is_lr0_closure(cfg, items@.to_set(), res@.to_set()),
    {
        let n = cfg.productions.len();
        let mut res: Vec<LR0Item> = Vec::new();
        let mut seeded = all_false(n);
        let mut k: usize = 0;
        while k < items.len()
            invariant
                k <= items.len(),
                n == cfg.productions.len(),
                res@.no_duplicates(),
                seeded.len() == n,
                forall|x: LR0Item| #[trigger] res@.contains(x) <==> items@.take(k as int).contains(x),
                forall|p: int| 0 <= p < n ==> (#[trigger] seeded@[p] <==> res@.contains(
                    LR0Item { production_index: p as usize, dot_position: 0 },
                )),
            decreases items.len() - k,
        {
            let it = items[k];
            proof {
                assert forall|x: LR0Item| #[trigger] items@.take(k + 1).contains(x) <==> (items@.take(
                    k as int,
                ).contains(x) || x == it) by {
                    assert(items@.take(k + 1) =~= items@.take(k as int).push(it));
                    crate::lr::lookahead::lemma_to_set_push(items@.take(k as int), it);
                    assert(items@.take(k + 1).to_set().contains(x) == items@.take(k + 1).contains(x));
                }
            }
            insert_lr0(&mut res, it);
            if it.dot_position == 0 && it.production_index < n {
                seeded.set(it.production_index, true);
            }
            k = k + 1;
        }
        assert(items@.take(items.len() as int) =~= items@);
        let mut i: usize = 0;
        while i < res.len()
            invariant
                i <= res.len(),
                n == cfg.productions.len(),
                res@.no_duplicates(),
                seeded.len() == n,
                items@.to_set().subset_of(res@.to_set()),
                forall|p: int| 0 <= p < n ==> (#[trigger] seeded@[p] <==> res@.contains(
                    LR0Item { production_index: p as usize, dot_position: 0 },
                )),
                forall|j: int, p: int|
                    #![trigger res@[j], predicts(cfg, res@[j].production_index, res@[j].dot_position, p)]
                    0 <= j < i && predicts(cfg, res@[j].production_index, res@[j].dot_position, p)
                        ==> res@.contains(LR0Item { production_index: p as usize, dot_position: 0 }),
                forall|s: Set<LR0Item>| #[trigger]
                    lr0_closed(cfg, s) && items@.to_set().subset_of(s) ==> res@.to_set().subset_of(s),
            decreases falses(seeded@), res.len() - i,
        {
            let it = res[i];
            let ghost before = res@;
            let ghost seeded_before = seeded@;
            if it.production_index < n {
                if let Some(Symbol::NonTerminal(b)) = it.next_symbol(&cfg.productions[it.production_index]) {
                    let mut p: usize = 0;
                    while p < n
                        invariant
                            p <= n,
                            i < res.len(),
                            n == cfg.productions.len(),
                            it == res@[i as int],
                            it.production_index < n,
                            spec_next_symbol(it.dot_position, cfg.rhs_of(it.production_index as int))
                                == Some(Symbol::NonTerminal(b)),
                            res@.no_duplicates(),
                            seeded.len() == n,
                            before.len() <= res@.len(),
                            forall|j: int| 0 <= j < before.len() ==> res@[j] == before[j],
                            falses(seeded@) <= falses(seeded_before),
                            falses(seeded@) == falses(seeded_before) ==> res@ == before,
                            forall|p2: int| 0 <= p2 < n ==> (#[trigger] seeded@[p2] <==> res@.contains(
                                LR0Item { production_index: p2 as usize, dot_position: 0 },
                            )),
                            forall|q: int|
                                0 <= q < p && #[trigger] cfg.productions@[q].lhs == b ==> res@.contains(
                                    LR0Item { production_index: q as usize, dot_position: 0 },
                                ),
                            forall|x: LR0Item| #[trigger]
                                res@.contains(x) ==> before.contains(x) || (x.dot_position == 0
                                    && x.production_index < n && predicts(
                                    cfg,
                                    it.production_index,
                                    it.dot_position,
                                    x.production_index as int,
                                )),
                        decreases n - p,
                    {
                        if cfg.productions[p].lhs == b && !seeded[p] {
                            let new_item = LR0Item::from_production(p);
                            let ghost s0 = seeded@;
                            insert_lr0(&mut res, new_item);
                            proof {
                                lemma_falses_update(s0, p as int);
                            }
                            seeded.set(p, true);
                        }
                        p = p + 1;
                    }
                }
            }
            proof {
                assert forall|x: LR0Item| #[trigger] before.contains(x) implies res@.contains(x) by {
                    let k = choose|k: int| 0 <= k < before.len() && before[k] == x;
                    assert(res@[k] == x);
                }
                assert forall|s: Set<LR0Item>| #[trigger]
                    lr0_closed(cfg, s) && items@.to_set().subset_of(s) implies res@.to_set().subset_of(s) by {
                    assert(before.to_set().subset_of(s));
                    assert(s.contains(it)) by {
                        assert(before[i as int] == it);
                        assert(before.to_set().contains(it));
                    }
                    assert forall|x: LR0Item| res@.to_set().contains(x) implies s.contains(x) by {
                        assert(res@.contains(x));
                        if !before.contains(x) {
                            assert(predicts(cfg, it.production_index, it.dot_position, x.production_index as int));
                        } else {
                            assert(before.to_set().contains(x));
                        }
                    }
                }
                assert forall|j: int, p: int|
                    #![trigger res@[j], predicts(cfg, res@[j].production_index, res@[j].dot_position, p)]
                    0 <= j < i + 1 && predicts(cfg, res@[j].production_index, res@[j].dot_position, p)
                        implies res@.contains(LR0Item { production_index: p as usize, dot_position: 0 }) by {
                    assert(res@[j] == before[j]);
                    if j < i {
                        assert(before.contains(LR0Item { production_index: p as usize, dot_position: 0 }));
                    } else {
                        assert(cfg.productions@[p].lhs == cfg.productions@[p].lhs);
                    }
                }
            }
            i = i + 1;
        }
        proof {
            assert forall|it: LR0Item, p: int|
                #![trigger res@.to_set().contains(it), predicts(cfg, it.production_index, it.dot_position, p)]
                res@.to_set().contains(it) && predicts(cfg, it.production_index, it.dot_position, p)
                    implies res@.to_set().contains(LR0Item { production_index: p as usize, dot_position: 0 }) by {
                let j = choose|j: int| 0 <= j < res@.len() && res@[j] == it;
                assert(predicts(cfg, res@[j].production_index, res@[j].dot_position, p));
                assert(res@.contains(LR0Item { production_index: p as usize, dot_position: 0 }));
            }
        }
        res
    }
}

/// The lookaheads that closure gives to the initial items predicted by `it`:
/// `t` is in FIRST(β a) for `it = [A -> α·Bβ, a]`.
pub open spec fn gives_lookahead(
    g: &ContextFreeGrammar,
    calc: &LookaheadCalculator,
    it: LR1Item,
    t: TerminalId,
) -> bool {
    calc.spec_propagate(g.rhs_of(it.production_index as int).skip(it.dot_position + 1), it.lookahead, t)
}

/// `s` is closed under the LR(1) closure rule.
pub open spec fn lr1_closed(g: &ContextFreeGrammar, calc: &LookaheadCalculator, s: Set<LR1Item>) -> bool {
    forall|it: LR1Item, p: int, t: TerminalId|
        #![trigger s.contains(it), predicts(g, it.production_index, it.dot_position, p), gives_lookahead(g, calc, it, t)]
        s.contains(it) && predicts(g, it.production_index, it.dot_position, p) && gives_lookahead(
            g,
            calc,
            it,
            t,
        ) ==> s.contains(LR1Item { production_index: p as usize, dot_position: 0, lookahead: t })
}

/// `res` is the LR(1) closure of `items`: the least closed set containing them.
pub open spec fn is_lr1_closure(
    g: &ContextFreeGrammar,
    calc: &LookaheadCalculator,
    items: Set<LR1Item>,
    res: Set<LR1Item>,
) -> bool {
    &&& items.subset_of(res)
    &&& lr1_closed(g, calc, res)
    &&& forall|s: Set<LR1Item>| #[trigger] lr1_closed(g, calc, s) && items.subset_of(s) ==> res.subset_of(s)
}

/// The calculator was built for a grammar with these terminals and non-terminals.
pub open spec fn calculator_fits(g: &ContextFreeGrammar, calc: &LookaheadCalculator) -> bool {
    &&& calc.spec_end_marker().0 == g.terminals.len()
    &&& calc.nullable_flags().len() == g.non_terminals.len()
    &&& crate::analysis::matrix_shape(calc.first_rows(), g.non_terminals.len() as nat, g.terminals.len() as nat)
}

/// A lookahead given by closure is a terminal, `$`, or the lookahead of the item.
pub proof fn lemma_gives_range(
    g: &ContextFreeGrammar,
    calc: &LookaheadCalculator,
    it: LR1Item,
    p: int,
    t: TerminalId,
)
    requires
        g.wf(),
        calculator_fits(g, calc),
        predicts(g, it.production_index, it.dot_position, p),
        gives_lookahead(g, calc, it, t),
        it.lookahead.0 <= g.terminals.len(),
    ensures
        t.0 <= g.terminals.len(),
{
    let rhs = g.rhs_of(it.production_index as int);
    let b = g.productions@[p].lhs;
    lemma_next_nonterminal(it.dot_position, rhs, b);
    let beta = rhs.skip(it.dot_position + 1);
    if crate::analysis::in_first_of(beta, calc.nul(), calc.fr(), t.0 as int) {
        assert forall|k: int| 0 <= k < beta.len() implies crate::analysis::symbol_ok(
            #[trigger] beta[k],
            g.terminals.len() as nat,
            g.non_terminals.len() as nat,
        ) by {
            assert(beta[k] == g.productions@[it.production_index as int].rhs@[k + it.dot_position + 1]);
        }
        crate::analysis::lemma_in_first_range(
            beta,
            calc.nullable_flags(),
            calc.first_rows(),
            g.terminals.len() as nat,
            t.0 as int,
        );
    }
}

/// A next symbol that is a non-terminal lies inside the right-hand side.
proof fn lemma_next_nonterminal(dot: usize, rhs: Seq<Symbol>, b: crate::cfg::NonTerminalId)
    requires
        spec_next_symbol(dot, rhs) == Some(Symbol::NonTerminal(b)),
    ensures
        dot < rhs.len(),
        rhs[dot as int] == Symbol::NonTerminal(b),
{
}

/// Which items `[q -> ·γ, t]` the LR(1) closure has added, by production and
/// lookahead: lookaheads up to `nterm` by number, the others (`extra`, taken
/// from the items the closure starts from) by position in `extra`.
struct Seeds {
    nterm: usize,
    extra: Vec<TerminalId>,
    low: Vec<Vec<bool>>,
    high: Vec<Vec<bool>>,
}

impl Seeds {
    /// `t` has a flag: it is a terminal or `$`, or one of `extra`.
    spec fn covered(&self, t: TerminalId) -> bool {
        t.0 <= self.nterm || self.extra@.contains(t)
    }

    /// The flags have `n` rows, and `extra` lists distinct lookaheads past `nterm`.
    spec fn wf(&self, n: nat) -> bool {
        &&& self.low@.len() == n
        &&& self.high@.len() == n
        &&& forall|q: int| 0 <= q < n ==> (#[trigger] self.low@[q])@.len() == self.nterm + 1
        &&& forall|q: int| 0 <= q < n ==> (#[trigger] self.high@[q])@.len() == self.extra@.len()
        &&& self.extra@.no_duplicates()
        &&& forall|e: int| 0 <= e < self.extra@.len() ==> (#[trigger] self.extra@[e]).0 > self.nterm
    }

    /// The flag of `(q, t)`.
    spec fn flag(&self, q: int, t: TerminalId) -> bool {
        if t.0 <= self.nterm {
            self.low@[q]@[t.0 as int]
        } else {
            self.high@[q]@[self.extra@.index_of(t)]
        }
    }

    /// The number of flags not yet set.
    spec fn unset(&self) -> nat {
        falses2(self.low@) + falses2(self.high@)
    }

    /// No flags set, for the lookaheads of `items` past `nterm`.
    fn new(n: usize, nterm: usize, items: &Vec<LR1Item>) -> (res: Self)
        requires
            nterm < usize::MAX,
        ensures
            res.wf(n as nat),
            res.nterm == nterm,
            forall|k: int| 0 <= k < items@.len() ==> res.covered(#[trigger] items@[k].lookahead),
            forall|q: int, t: TerminalId| 0 <= q < n && res.covered(t) ==> !res.flag(q, t),
    {
        let mut extra: Vec<TerminalId> = Vec::new();
        let mut k: usize = 0;
        while k < items.len()
            invariant
                k <= items@.len(),
                extra@.no_duplicates(),
                forall|e: int| 0 <= e < extra@.len() ==> (#[trigger] extra@[e]).0 > nterm,
                forall|k2: int| 0 <= k2 < k ==> (#[trigger] items@[k2]).lookahead.0 <= nterm || extra@.contains(
                    items@[k2].lookahead,
                ),
            decreases items@.len() - k,
        {
            let t = items[k].lookahead;
            if t.0 > nterm {
                let mut found = false;
                let mut e: usize = 0;
                while e < extra.len()
                    invariant
                        e <= extra@.len(),
                        found ==> extra@.contains(t),
                        !found ==> forall|e2: int| 0 <= e2 < e ==> extra@[e2] != t,
                    decreases extra@.len() - e,
                {
                    if extra[e].0 == t.0 {
                        found = true;
                    }
                    e = e + 1;
                }
                if !found {
                    let ghost before = extra@;
                    extra.push(t);
                    proof {
                        assert forall|a: int, b: int| 0 <= a < b < extra@.len() implies extra@[a] != extra@[b] by {
                            if b == before.len() {
                                assert(before[a] != t);
                            }
                        }
                        assert(extra@[before.len() as int] == t);
                        assert forall|k2: int| 0 <= k2 < k implies (#[trigger] items@[k2]).lookahead.0 <= nterm
                            || extra@.contains(items@[k2].lookahead) by {
                            if items@[k2].lookahead.0 > nterm {
                                let e2 = choose|e2: int| 0 <= e2 < before.len() && before[e2] == items@[k2].lookahead;
                                assert(extra@[e2] == before[e2]);
                            }
                        }
                    }
                }
            }
            k = k + 1;
        }
        let m = extra.len();
        let res = Seeds { nterm, extra, low: false_matrix(n, nterm + 1), high: false_matrix(n, m) };
        proof {
            assert forall|q: int, t: TerminalId| 0 <= q < n && res.covered(t) implies !res.flag(q, t) by {
                if t.0 > nterm {
                    assert(res.extra@.contains(t));
                    let e = res.extra@.index_of(t);
                    assert(0 <= e < m);
                }
            }
        }
        res
    }

    /// The position of a lookahead of `extra`.
    fn slot(&self, t: TerminalId) -> (e: usize)
        requires
            self.extra@.contains(t),
            self.extra@.no_duplicates(),
        ensures
            e < self.extra@.len(),
            e == self.extra@.index_of(t),
    {
        let mut e: usize = 0;
        while e < self.extra.len()
            invariant
                e <= self.extra@.len(),
                self.extra@.contains(t),
                self.extra@.no_duplicates(),
                forall|e2: int| 0 <= e2 < e ==> self.extra@[e2] != t,
            decreases self.extra@.len() - e,
        {
            if self.extra[e].0 == t.0 {
                proof {
                    let j = self.extra@.index_of(t);
                    assert(self.extra@[j] == t);
                    assert(self.extra@[e as int] == t);
                    if j != e {
                        assert(self.extra@[j] != self.extra@[e as int]);
                    }
                }
                return e;
            }
            e = e + 1;
        }
        assert(false);
        0
    }

    /// Whether `(q, t)` has its flag set.
    fn get(&self, q: usize, t: TerminalId) -> (res: bool)
        requires
            self.wf(self.low@.len()),
            q < self.low@.len(),
            self.covered(t),
        ensures
            res == self.flag(q as int, t),
    {
        if t.0 <= self.nterm {
            self.low[q][t.0]
        } else {
            let e = self.slot(t);
            self.high[q][e]
        }
    }

    /// Sets the flag of `(q, t)`.
    fn set(&mut self, q: usize, t: TerminalId)
        requires
            old(self).wf(old(self).low@.len()),
            q < old(self).low@.len(),
            old(self).covered(t),
            !old(self).flag(q as int, t),
        ensures
            final(self).wf(old(self).low@.len()),
            final(self).nterm == old(self).nterm,
            final(self).extra@ == old(self).extra@,
            final(self).unset() + 1 == old(self).unset(),
            forall|q2: int, t2: TerminalId|
                0 <= q2 < old(self).low@.len() && old(self).covered(t2) ==> #[trigger] final(self).flag(q2, t2) == (
                old(self).flag(q2, t2) || (q2 == q && t2 == t)),
    {
        let ghost n = self.low@.len();
        let ghost low0 = self.low@;
        let ghost high0 = self.high@;
        if t.0 <= self.nterm {
            set_flag2(&mut self.low, q, t.0);
            proof {
                lemma_falses2_update(low0, self.low@, q as int, t.0 as int);
            }
        } else {
            let e = self.slot(t);
            set_flag2(&mut self.high, q, e);
            proof {
                lemma_falses2_update(high0, self.high@, q as int, e as int);
            }
        }
        proof {
            assert forall|q2: int, t2: TerminalId|
                0 <= q2 < n && old(self).covered(t2) implies #[trigger] self.flag(q2, t2) == (old(self).flag(q2, t2) || (q2
                    == q && t2 == t)) by {
                if t2.0 > self.nterm && t.0 > self.nterm {
                    let e2 = self.extra@.index_of(t2);
                    let e1 = self.extra@.index_of(t);
                    assert(self.extra@[e2] == t2);
                    assert(self.extra@[e1] == t);
                }
                if t2.0 <= self.nterm && t.0 <= self.nterm && t2 != t {
                    assert(t2.0 != t.0);
                }
            }
        }
    }
}

/// LR(1) closure.
pub struct LR1Closure;

impl LR1Closure {
    /// The closure of `items`: for every item `[A -> α·Bβ, a]` it holds, every
    /// production `B -> γ` contributes `[B -> ·γ, b]` for each `b` in FIRST(βa).
    /// The result lists each item once.
    pub fn compute(items: &Vec<LR1Item>, cfg: &ContextFreeGrammar, calculator: &LookaheadCalculator) -> (res:
        Vec<LR1Item>)
        requires
            cfg.wf(),
            calculator_fits(cfg, calculator),
        ensures
            res@.no_duplicates(),
            is_lr1_closure(cfg, calculator, items@.to_set(), res@.to_set()),
    {
        let n = cfg.productions.len();
        let nterm = cfg.terminals.len();
        let mut res: Vec<LR1Item> = Vec::new();
        let mut seeds = Seeds::new(n, nterm, items);
        let mut k: usize = 0;
        while k < items.len()
            invariant
                k <= items.len(),
                n == cfg.productions.len(),
                nterm == cfg.terminals.len(),
                forall|k2: int| 0 <= k2 < items.len() ==> seeds.covered(#[trigger] items@[k2].lookahead),
                res@.no_duplicates(),
                seeds.wf(n as nat),
                seeds.nterm == nterm,
                forall|x: LR1Item| #[trigger] res@.contains(x) <==> items@.take(k as int).contains(x),
                forall|j: int| 0 <= j < res.len() ==> seeds.covered((#[trigger] res@[j]).lookahead),
                forall|q: int, t: TerminalId| 0 <= q < n && seeds.covered(t) ==> (#[trigger] seeds.flag(q, t) <==> res@.contains(
                    LR1Item { production_index: q as usize, dot_position: 0, lookahead: t },
                )),
            decreases items.len() - k,
        {
            let it = items[k];
            proof {
                assert forall|x: LR1Item| #[trigger] items@.take(k + 1).contains(x) <==> (items@.take(
                    k as int,
                ).contains(x) || x == it) by {
                    assert(items@.take(k + 1) =~= items@.take(k as int).push(it));
                    crate::lr::lookahead::lemma_to_set_push(items@.take(k as int), it);
                    assert(items@.take(k + 1).to_set().contains(x) == items@.take(k + 1).contains(x));
                }
            }
            insert_lr1(&mut res, it);
            assert(items@[k as int] == it);
            if it.dot_position == 0 && it.production_index < n {
                if !seeds.get(it.production_index, it.lookahead) {
                    seeds.set(it.production_index, it.lookahead);
                }
            }
            k = k + 1;
        }
        assert(items@.take(items.len() as int) =~= items@);
        let mut i: usize = 0;
        while i < res.len()
            invariant
                i <= res.len(),
                n == cfg.productions.len(),
                nterm == cfg.terminals.len(),
                cfg.wf(),
                calculator_fits(cfg, calculator),
                res@.no_duplicates(),
                forall|j: int| 0 <= j < res.len() ==> seeds.covered((#[trigger] res@[j]).lookahead),
                seeds.wf(n as nat),
                seeds.nterm == nterm,
                items@.to_set().subset_of(res@.to_set()),
                forall|q: int, t: TerminalId| 0 <= q < n && seeds.covered(t) ==> (#[trigger] seeds.flag(q, t) <==> res@.contains(
                    LR1Item { production_index: q as usize, dot_position: 0, lookahead: t },
                )),
                forall|j: int, p: int, t: TerminalId|
                    #![trigger res@[j], predicts(cfg, res@[j].production_index, res@[j].dot_position, p), gives_lookahead(cfg, calculator, res@[j], t)]
                    0 <= j < i && predicts(cfg, res@[j].production_index, res@[j].dot_position, p)
                        && gives_lookahead(cfg, calculator, res@[j], t) ==> res@.contains(
                        LR1Item { production_index: p as usize, dot_position: 0, lookahead: t },
                    ),
                forall|s: Set<LR1Item>| #[trigger]
                    lr1_closed(cfg, calculator, s) && items@.to_set().subset_of(s) ==> res@.to_set().subset_of(s),
            decreases seeds.unset(), res.len() - i,
        {
            let it = res[i];
            let ghost before = res@;
            let ghost unset_before = seeds.unset();
            if it.production_index < n {
                if let Some(Symbol::NonTerminal(b)) = it.next_symbol(&cfg.productions[it.production_index]) {
                    let rhs = cfg.productions[it.production_index].rhs.as_slice();
                    proof {
                        lemma_next_nonterminal(it.dot_position, rhs@, b);
                        assert forall|k2: int| 0 <= k2 < rhs@.len() implies crate::analysis::symbol_ok(
                            #[trigger] rhs@[k2],
                            nterm as nat,
                            cfg.non_terminals.len() as nat,
                        ) by {
                            assert(crate::cfg::symbol_in_range(
                                cfg.productions@[it.production_index as int].rhs@[k2],
                                cfg.terminals.len() as nat,
                                cfg.non_terminals.len() as nat,
                            ));
                        }
                    }
                    let rhs_len = rhs.len();
                    assert(it.dot_position < rhs_len);
                    let las = calculator.propagate_suffix(rhs, it.dot_position + 1, it.lookahead);
                    let mut q: usize = 0;
                    while q < n
                        invariant
                            q <= n,
                            i < res.len(),
                            n == cfg.productions.len(),
                            nterm == cfg.terminals.len(),
                            it == res@[i as int],
                            it.production_index < n,
                            spec_next_symbol(it.dot_position, cfg.rhs_of(it.production_index as int))
                                == Some(Symbol::NonTerminal(b)),
                            forall|t: TerminalId| #[trigger] las@.contains(t) <==> gives_lookahead(cfg, calculator, it, t),
                            forall|t: TerminalId| #[trigger] las@.contains(t) ==> seeds.covered(t),
                            res@.no_duplicates(),
                            forall|j: int| 0 <= j < res.len() ==> seeds.covered((#[trigger] res@[j]).lookahead),
                            seeds.wf(n as nat),
                seeds.nterm == nterm,
                            before.len() <= res@.len(),
                            forall|j: int| 0 <= j < before.len() ==> res@[j] == before[j],
                            seeds.unset() <= unset_before,
                            seeds.unset() == unset_before ==> res@ == before,
                            forall|q2: int, t: TerminalId| 0 <= q2 < n && seeds.covered(t) ==> (#[trigger] seeds.flag(q2, t) <==> res@.contains(
                                LR1Item { production_index: q2 as usize, dot_position: 0, lookahead: t },
                            )),
                            forall|q2: int, t: TerminalId|
                                #![trigger cfg.productions@[q2], las@.contains(t)]
                                0 <= q2 < q && cfg.productions@[q2].lhs == b && las@.contains(t) ==> res@.contains(
                                    LR1Item { production_index: q2 as usize, dot_position: 0, lookahead: t },
                                ),
                            forall|x: LR1Item| #[trigger]
                                res@.contains(x) ==> before.contains(x) || (x.dot_position == 0
                                    && x.production_index < n && predicts(
                                    cfg,
                                    it.production_index,
                                    it.dot_position,
                                    x.production_index as int,
                                ) && gives_lookahead(cfg, calculator, it, x.lookahead)),
                        decreases n - q,
                    {
                        if cfg.productions[q].lhs == b {
                            let mut m: usize = 0;
                            while m < las.len()
                                invariant
                                    m <= las.len(),
                                    q < n,
                                    i < res.len(),
                                    n == cfg.productions.len(),
                                    nterm == cfg.terminals.len(),
                                    it == res@[i as int],
                                    cfg.productions@[q as int].lhs == b,
                                    it.production_index < n,
                                    spec_next_symbol(it.dot_position, cfg.rhs_of(it.production_index as int))
                                        == Some(Symbol::NonTerminal(b)),
                                    forall|t: TerminalId| #[trigger] las@.contains(t) <==> gives_lookahead(cfg, calculator, it, t),
                                    forall|t: TerminalId| #[trigger] las@.contains(t) ==> seeds.covered(t),
                                    res@.no_duplicates(),
                                    forall|j: int| 0 <= j < res.len() ==> seeds.covered((#[trigger] res@[j]).lookahead),
                                    seeds.wf(n as nat),
                seeds.nterm == nterm,
                                    before.len() <= res@.len(),
                                    forall|j: int| 0 <= j < before.len() ==> res@[j] == before[j],
                                    seeds.unset() <= unset_before,
                                    seeds.unset() == unset_before ==> res@ == before,
                                    forall|q2: int, t: TerminalId| 0 <= q2 < n && seeds.covered(t) ==> (#[trigger] seeds.flag(q2, t) <==> res@.contains(
                                        LR1Item { production_index: q2 as usize, dot_position: 0, lookahead: t },
                                    )),
                                    forall|q2: int, t: TerminalId|
                                        #![trigger cfg.productions@[q2], las@.contains(t)]
                                        0 <= q2 < q && cfg.productions@[q2].lhs == b && las@.contains(t) ==> res@.contains(
                                            LR1Item { production_index: q2 as usize, dot_position: 0, lookahead: t },
                                        ),
                                    forall|m2: int| 0 <= m2 < m ==> res@.contains(
                                        LR1Item { production_index: q, dot_position: 0, lookahead: #[trigger] las@[m2] },
                                    ),
                                    forall|x: LR1Item| #[trigger]
                                        res@.contains(x) ==> before.contains(x) || (x.dot_position == 0
                                            && x.production_index < n && predicts(
                                            cfg,
                                            it.production_index,
                                            it.dot_position,
                                            x.production_index as int,
                                        ) && gives_lookahead(cfg, calculator, it, x.lookahead)),
                                decreases las.len() - m,
                            {
                                let t = las[m];
                                assert(las@.contains(t));
                                if !seeds.get(q, t) {
                                    let new_item = LR1Item::from_production(q, t);
                                    insert_lr1(&mut res, new_item);
                                    seeds.set(q, t);
                                    proof {
                                        assert(predicts(cfg, it.production_index, it.dot_position, q as int));
                                    }
                                }
                                m = m + 1;
                            }
                            proof {
                                assert forall|t: TerminalId| #[trigger] las@.contains(t) implies res@.contains(
                                    LR1Item { production_index: q, dot_position: 0, lookahead: t },
                                ) by {
                                    let m2 = choose|m2: int| 0 <= m2 < las@.len() && las@[m2] == t;
                                }
                            }
                        }
                        q = q + 1;
                    }
                    proof {
                        assert forall|p: int, t: TerminalId|
                            predicts(cfg, it.production_index, it.dot_position, p) && gives_lookahead(
                                cfg,
                                calculator,
                                it,
                                t,
                            ) implies res@.contains(
                            LR1Item { production_index: p as usize, dot_position: 0, lookahead: t },
                        ) by {
                            assert(las@.contains(t));
                            assert(cfg.productions@[p].lhs == b);
                        }
                    }
                }
            }
            proof {
                assert forall|x: LR1Item| #[trigger] before.contains(x) implies res@.contains(x) by {
                    let k = choose|k: int| 0 <= k < before.len() && before[k] == x;
                    assert(res@[k] == x);
                }
                assert forall|s: Set<LR1Item>| #[trigger]
                    lr1_closed(cfg, calculator, s) && items@.to_set().subset_of(s) implies res@.to_set().subset_of(s) by {
                    assert(before.to_set().subset_of(s));
                    assert(s.contains(it)) by {
                        assert(before[i as int] == it);
                        assert(before.to_set().contains(it));
                    }
                    assert forall|x: LR1Item| res@.to_set().contains(x) implies s.contains(x) by {
                        assert(res@.contains(x));
                        if !before.contains(x) {
                            assert(predicts(cfg, it.production_index, it.dot_position, x.production_index as int));
                            assert(gives_lookahead(cfg, calculator, it, x.lookahead));
                        } else {
                            assert(before.to_set().contains(x));
                        }
                    }
                }
                assert forall|j: int, p: int, t: TerminalId|
                    #![trigger res@[j], predicts(cfg, res@[j].production_index, res@[j].dot_position, p), gives_lookahead(cfg, calculator, res@[j], t)]
                    0 <= j < i + 1 && predicts(cfg, res@[j].production_index, res@[j].dot_position, p)
                        && gives_lookahead(cfg, calculator, res@[j], t) implies res@.contains(
                        LR1Item { production_index: p as usize, dot_position: 0, lookahead: t },
                    ) by {
                    assert(res@[j] == before[j]);
                    if j < i {
                        assert(before.contains(LR1Item { production_index: p as usize, dot_position: 0, lookahead: t }));
                    } else {
                        assert(cfg.productions@[p].lhs == cfg.productions@[p].lhs);
                    }
                }
            }
            i = i + 1;
        }
        proof {
            assert forall|it: LR1Item, p: int, t: TerminalId|
                #![trigger res@.to_set().contains(it), predicts(cfg, it.production_index, it.dot_position, p), gives_lookahead(cfg, calculator, it, t)]
                res@.to_set().contains(it) && predicts(cfg, it.production_index, it.dot_position, p)
                    && gives_lookahead(cfg, calculator, it, t) implies res@.to_set().contains(
                    LR1Item { production_index: p as usize, dot_position: 0, lookahead: t },
                ) by {
                let j = choose|j: int| 0 <= j < res@.len() && res@[j] == it;
                assert(predicts(cfg, res@[j].production_index, res@[j].dot_position, p));
                assert(res@.contains(LR1Item { production_index: p as usize, dot_position: 0, lookahead: t }));
            }
        }
        res
    }
}

} // verus!
