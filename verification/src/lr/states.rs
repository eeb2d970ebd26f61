//! The canonical collections of LR(0) and LR(1) item sets (the LR automata).
use vstd::prelude::*;
use crate::cfg::{ContextFreeGrammar, Symbol, TerminalId};
use crate::counting::{lemma_distinct_subsets, two_pow};
use crate::lr::augmented::AugmentedGrammar;
use crate::lr::closure::{
    calculator_fits, gives_lookahead, is_lr0_closure, is_lr1_closure, lemma_gives_range, lr0_closed,
    lr1_closed, predicts,
};
use crate::lr::goto::{
    LR0Goto, LR1Goto, goto_kernel0, goto_kernel1, is_transition0, is_transition1, item_next,
};
use crate::lr::item::{LR0Item, LR1Item, spec_next_symbol};
use crate::lr::item_set::{LR0ItemSet, LR1ItemSet};
use crate::lr::lookahead::LookaheadCalculator;

verus! {

/// LR(0) items that can occur in a state: items of existing productions with the
/// dot inside or at the end of the right-hand side, and `[0 · 0]`.
pub open spec fn in_universe0(g: &ContextFreeGrammar, it: LR0Item) -> bool {
    (it.production_index < g.productions.len() && it.dot_position <= g.rhs_of(
        it.production_index as int,
    ).len() + 1) || it == (LR0Item { production_index: 0, dot_position: 0 })
}

/// The set of all LR(0) items that can occur in a state.
pub open spec fn universe0(g: &ContextFreeGrammar) -> Set<LR0Item> {
    Set::new(|it: LR0Item| in_universe0(g, it))
}

/// LR(1) items that can occur in a state: their cores as above, and lookaheads
/// that are terminals or `$`.
pub open spec fn in_universe1(g: &ContextFreeGrammar, it: LR1Item) -> bool {
    (it.production_index < g.productions.len() && it.dot_position <= g.rhs_of(
        it.production_index as int,
    ).len() + 1 && it.lookahead.0 <= g.terminals.len()) || it == (LR1Item {
        production_index: 0,
        dot_position: 0,
        lookahead: TerminalId(g.terminals.len()),
    })
}

/// The set of all LR(1) items that can occur in a state.
pub open spec fn universe1(g: &ContextFreeGrammar) -> Set<LR1Item> {
    Set::new(|it: LR1Item| in_universe1(g, it))
}

spec fn upto0(g: &ContextFreeGrammar, k: nat) -> Set<LR0Item> {
    Set::new(
        |it: LR0Item|
            it.production_index < k && it.production_index < g.productions.len() && it.dot_position
                <= g.rhs_of(it.production_index as int).len() + 1,
    )
}

spec fn row0(g: &ContextFreeGrammar, p: nat) -> Set<LR0Item> {
    vstd::set_lib::set_int_range(0, g.rhs_of(p as int).len() as int + 2).map(
        |d: int| LR0Item { production_index: p as usize, dot_position: d as usize },
    )
}

proof fn lemma_upto0_finite(g: &ContextFreeGrammar, k: nat)
    requires
        k <= g.productions.len(),
    ensures
        upto0(g, k).finite(),
    decreases k,
{
    if k == 0 {
        assert(upto0(g, k) =~= Set::<LR0Item>::empty());
    } else {
        let p = (k - 1) as nat;
        lemma_upto0_finite(g, p);
        let len = g.rhs_of(p as int).len();
        assert(len == g.productions@[p as int].rhs.len());
        vstd::set_lib::lemma_int_range(0, len as int + 2);
        vstd::set_lib::set_int_range(0, len as int + 2).lemma_map_finite(
            |d: int| LR0Item { production_index: p as usize, dot_position: d as usize },
        );
        assert forall|it: LR0Item| #[trigger] upto0(g, k).contains(it) <==> (upto0(g, p).contains(it) || row0(
            g,
            p,
        ).contains(it)) by {
            if it.production_index == p && it.dot_position <= len + 1 {
                let d = it.dot_position as int;
                assert(vstd::set_lib::set_int_range(0, len as int + 2).contains(d));
                assert(it == LR0Item { production_index: p as usize, dot_position: d as usize });
            }
        }
        assert(upto0(g, k) =~= upto0(g, p).union(row0(g, p)));
    }
}

/// The LR(0) universe of a grammar is finite.
pub proof fn lemma_universe0_finite(g: &ContextFreeGrammar)
    ensures
        universe0(g).finite(),
{
    lemma_upto0_finite(g, g.productions.len() as nat);
    assert(universe0(g) =~= upto0(g, g.productions.len() as nat).insert(
        LR0Item { production_index: 0, dot_position: 0 },
    ));
}

spec fn upto1(g: &ContextFreeGrammar, t: nat) -> Set<LR1Item> {
    Set::new(
        |it: LR1Item|
            it.production_index < g.productions.len() && it.dot_position <= g.rhs_of(
                it.production_index as int,
            ).len() + 1 && it.lookahead.0 < t,
    )
}

spec fn layer1(g: &ContextFreeGrammar, t: nat) -> Set<LR1Item> {
    upto0(g, g.productions.len() as nat).map(
        |c: LR0Item|
            LR1Item {
                production_index: c.production_index,
                dot_position: c.dot_position,
                lookahead: TerminalId(t as usize),
            },
    )
}

proof fn lemma_upto1_finite(g: &ContextFreeGrammar, t: nat)
    requires
        t <= usize::MAX,
    ensures
        upto1(g, t).finite(),
    decreases t,
{
    if t == 0 {
        assert(upto1(g, t) =~= Set::<LR1Item>::empty());
    } else {
        let s = (t - 1) as nat;
        lemma_upto1_finite(g, s);
        lemma_upto0_finite(g, g.productions.len() as nat);
        upto0(g, g.productions.len() as nat).lemma_map_finite(
            |c: LR0Item|
                LR1Item {
                    production_index: c.production_index,
                    dot_position: c.dot_position,
                    lookahead: TerminalId(s as usize),
                },
        );
        assert forall|it: LR1Item| #[trigger] upto1(g, t).contains(it) <==> (upto1(g, s).contains(it) || layer1(
            g,
            s,
        ).contains(it)) by {
            if upto1(g, t).contains(it) && it.lookahead.0 == s {
                let c = LR0Item { production_index: it.production_index, dot_position: it.dot_position };
                assert(upto0(g, g.productions.len() as nat).contains(c));
            }
        }
        assert(upto1(g, t) =~= upto1(g, s).union(layer1(g, s)));
    }
}

/// The LR(1) universe of a grammar is finite.
pub proof fn lemma_universe1_finite(g: &ContextFreeGrammar)
    requires
        g.terminals.len() < usize::MAX,
    ensures
        universe1(g).finite(),
{
    lemma_upto1_finite(g, (g.terminals.len() + 1) as nat);
    assert(universe1(g) =~= upto1(g, (g.terminals.len() + 1) as nat).insert(
        LR1Item { production_index: 0, dot_position: 0, lookahead: TerminalId(g.terminals.len()) },
    ));
}

/// The LR(0) universe is closed, so closures of its subsets stay inside it.
proof fn lemma_universe0_closed(g: &ContextFreeGrammar)
    ensures
        lr0_closed(g, universe0(g)),
{
}

/// GOTO kernels of subsets of the universe stay inside it.
proof fn lemma_kernel0_in_universe(g: &ContextFreeGrammar, s: Set<LR0Item>, x: Symbol)
    requires
        s.subset_of(universe0(g)),
    ensures
        goto_kernel0(g, s, x).subset_of(universe0(g)),
{
    assert forall|j: LR0Item| #[trigger] goto_kernel0(g, s, x).contains(j) implies universe0(g).contains(j) by {
        let it = choose|it: LR0Item|
            #![trigger s.contains(it)]
            s.contains(it) && item_next(g, it.production_index, it.dot_position) == Some(x) && j
                == it.spec_advance();
        assert(g.rhs_of(it.production_index as int).len() == g.productions@[it.production_index as int].rhs.len());
    }
}

/// The LR(1) universe is closed under the LR(1) closure rule.
proof fn lemma_universe1_closed(g: &ContextFreeGrammar, calc: &LookaheadCalculator)
    requires
        g.wf(),
        calculator_fits(g, calc),
    ensures
        lr1_closed(g, calc, universe1(g)),
{
    assert forall|it: LR1Item, p: int, t: TerminalId|
        #![trigger universe1(g).contains(it), predicts(g, it.production_index, it.dot_position, p), gives_lookahead(g, calc, it, t)]
        universe1(g).contains(it) && predicts(g, it.production_index, it.dot_position, p)
            && gives_lookahead(g, calc, it, t) implies universe1(g).contains(
            LR1Item { production_index: p as usize, dot_position: 0, lookahead: t },
        ) by {
        lemma_gives_range(g, calc, it, p, t);
    }
}

/// GOTO kernels of subsets of the LR(1) universe stay inside it.
proof fn lemma_kernel1_in_universe(g: &ContextFreeGrammar, s: Set<LR1Item>, x: Symbol)
    requires
        s.subset_of(universe1(g)),
    ensures
        goto_kernel1(g, s, x).subset_of(universe1(g)),
{
    assert forall|j: LR1Item| #[trigger] goto_kernel1(g, s, x).contains(j) implies universe1(g).contains(j) by {
        let it = choose|it: LR1Item|
            #![trigger s.contains(it)]
            s.contains(it) && item_next(g, it.production_index, it.dot_position) == Some(x) && j
                == it.spec_advance();
        assert(g.rhs_of(it.production_index as int).len() == g.productions@[it.production_index as int].rhs.len());
    }
}

/// The transition symbols of a state are exactly the symbols with a non-empty
/// GOTO kernel.
proof fn lemma_transition0_kernel(g: &ContextFreeGrammar, items: Seq<LR0Item>, x: Symbol)
    ensures
        is_transition0(g, items, x) <==> !goto_kernel0(g, items.to_set(), x).is_empty(),
{
    if is_transition0(g, items, x) {
        let k = choose|k: int|
            0 <= k < items.len() && item_next(g, items[k].production_index, items[k].dot_position) == Some(x);
        assert(items.to_set().contains(items[k]));
        assert(goto_kernel0(g, items.to_set(), x).contains(items[k].spec_advance()));
    }
    if !goto_kernel0(g, items.to_set(), x).is_empty() {
        let j = goto_kernel0(g, items.to_set(), x).choose();
        let it = choose|it: LR0Item|
            #![trigger items.to_set().contains(it)]
            items.to_set().contains(it) && item_next(g, it.production_index, it.dot_position) == Some(x)
                && j == it.spec_advance();
        let k = choose|k: int| 0 <= k < items.len() && items[k] == it;
    }
}

/// The transition symbols of an LR(1) state are exactly the symbols with a
/// non-empty GOTO kernel.
proof fn lemma_transition1_kernel(g: &ContextFreeGrammar, items: Seq<LR1Item>, x: Symbol)
    ensures
        is_transition1(g, items, x) <==> !goto_kernel1(g, items.to_set(), x).is_empty(),
{
    if is_transition1(g, items, x) {
        let k = choose|k: int|
            0 <= k < items.len() && item_next(g, items[k].production_index, items[k].dot_position) == Some(x);
        assert(items.to_set().contains(items[k]));
        assert(goto_kernel1(g, items.to_set(), x).contains(items[k].spec_advance()));
    }
    if !goto_kernel1(g, items.to_set(), x).is_empty() {
        let j = goto_kernel1(g, items.to_set(), x).choose();
        let it = choose|it: LR1Item|
            #![trigger items.to_set().contains(it)]
            items.to_set().contains(it) && item_next(g, it.production_index, it.dot_position) == Some(x)
                && j == it.spec_advance();
        let k = choose|k: int| 0 <= k < items.len() && items[k] == it;
    }
}

/// Whether two LR(0) item sets hold the same items.
pub(crate) fn same_items0(a: &LR0ItemSet, b: &LR0ItemSet) -> (res: bool)
    ensures
        res == (a@ == b@),
{
    let xs = a.items();
    let ys = b.items();
    let mut i: usize = 0;
    while i < xs.len()
        invariant
            i <= xs.len(),
            xs@.to_set() == a@,
            forall|k: int| 0 <= k < i ==> b@.contains(#[trigger] xs@[k]),
        decreases xs.len() - i,
    {
        if !b.contains(&xs[i]) {
            assert(a@.contains(xs@[i as int]));
            return false;
        }
        i = i + 1;
    }
    let mut j: usize = 0;
    while j < ys.len()
        invariant
            j <= ys.len(),
            ys@.to_set() == b@,
            forall|k: int| 0 <= k < j ==> a@.contains(#[trigger] ys@[k]),
        decreases ys.len() - j,
    {
        if !a.contains(&ys[j]) {
            assert(b@.contains(ys@[j as int]));
            return false;
        }
        j = j + 1;
    }
    proof {
        assert forall|x: LR0Item| a@.contains(x) <==> b@.contains(x) by {
            if a@.contains(x) {
                let k = choose|k: int| 0 <= k < xs@.len() && xs@[k] == x;
            }
            if b@.contains(x) {
                let k = choose|k: int| 0 <= k < ys@.len() && ys@[k] == x;
            }
        }
        assert(a@ =~= b@);
    }
    true
}

/// Whether two LR(1) item sets hold the same items.
pub(crate) fn same_items1(a: &LR1ItemSet, b: &LR1ItemSet) -> (res: bool)
    ensures
        res == (a@ == b@),
{
    let xs = a.items();
    let ys = b.items();
    let mut i: usize = 0;
    while i < xs.len()
        invariant
            i <= xs.len(),
            xs@.to_set() == a@,
            forall|k: int| 0 <= k < i ==> b@.contains(#[trigger] xs@[k]),
        decreases xs.len() - i,
    {
        if !b.contains(&xs[i]) {
            assert(a@.contains(xs@[i as int]));
            return false;
        }
        i = i + 1;
    }
    let mut j: usize = 0;
    while j < ys.len()
        invariant
            j <= ys.len(),
            ys@.to_set() == b@,
            forall|k: int| 0 <= k < j ==> a@.contains(#[trigger] ys@[k]),
        decreases ys.len() - j,
    {
        if !a.contains(&ys[j]) {
            assert(b@.contains(ys@[j as int]));
            return false;
        }
        j = j + 1;
    }
    proof {
        assert forall|x: LR1Item| a@.contains(x) <==> b@.contains(x) by {
            if a@.contains(x) {
                let k = choose|k: int| 0 <= k < xs@.len() && xs@[k] == x;
            }
            if b@.contains(x) {
                let k = choose|k: int| 0 <= k < ys@.len() && ys@[k] == x;
            }
        }
        assert(a@ =~= b@);
    }
    true
}

/// The item sets of a list of LR(0) states.
pub open spec fn views0(states: Seq<LR0ItemSet>) -> Seq<Set<LR0Item>> {
    Seq::new(states.len(), |i: int| states[i]@)
}

/// The item sets of a list of LR(1) states.
pub open spec fn views1(states: Seq<LR1ItemSet>) -> Seq<Set<LR1Item>> {
    Seq::new(states.len(), |i: int| states[i]@)
}

/// The position of the state holding the same items as `s`, if any.
fn find_state0(states: &Vec<LR0ItemSet>, s: &LR0ItemSet) -> (res: Option<usize>)
    ensures
        res matches Some(j) ==> j < states.len() && states@[j as int]@ == s@,
        res is None ==> forall|j: int| 0 <= j < states.len() ==> (#[trigger] states@[j])@ != s@,
{
    let mut j: usize = 0;
    while j < states.len()
        invariant
            j <= states.len(),
            forall|k: int| 0 <= k < j ==> (#[trigger] states@[k])@ != s@,
        decreases states.len() - j,
    {
        if same_items0(&states[j], s) {
            return Some(j);
        }
        j = j + 1;
    }
    None
}

/// The position of the state holding the same items as `s`, if any.
fn find_state1(states: &Vec<LR1ItemSet>, s: &LR1ItemSet) -> (res: Option<usize>)
    ensures
        res matches Some(j) ==> j < states.len() && states@[j as int]@ == s@,
        res is None ==> forall|j: int| 0 <= j < states.len() ==> (#[trigger] states@[j])@ != s@,
{
    let mut j: usize = 0;
    while j < states.len()
        invariant
            j <= states.len(),
            forall|k: int| 0 <= k < j ==> (#[trigger] states@[k])@ != s@,
        decreases states.len() - j,
    {
        if same_items1(&states[j], s) {
            return Some(j);
        }
        j = j + 1;
    }
    None
}

/// The position of the transition from `state` on `symbol`, if any.
fn find_transition(transitions: &Vec<(usize, Symbol, usize)>, state: usize, symbol: Symbol) -> (res: Option<
    usize,
>)
    ensures
        res matches Some(k) ==> k < transitions.len() && transitions@[k as int].0 == state
            && transitions@[k as int].1 == symbol && first_transition(transitions@, state as int, symbol, k as int),
        res is None ==> forall|k: int|
            0 <= k < transitions.len() ==> !((#[trigger] transitions@[k]).0 == state
                && transitions@[k].1 == symbol),
{
    let mut k: usize = 0;
    while k < transitions.len()
        invariant
            k <= transitions.len(),
            forall|m: int|
                0 <= m < k ==> !((#[trigger] transitions@[m]).0 == state && transitions@[m].1 == symbol),
        decreases transitions.len() - k,
    {
        if transitions[k].0 == state && transitions[k].1 == symbol {
            return Some(k);
        }
        k = k + 1;
    }
    None
}

/// `k` is the first transition from `state` on `symbol`.
pub open spec fn first_transition(t: Seq<(usize, Symbol, usize)>, state: int, symbol: Symbol, k: int) -> bool {
    &&& 0 <= k < t.len()
    &&& t[k].0 == state
    &&& t[k].1 == symbol
    &&& forall|m: int| 0 <= m < k ==> !((#[trigger] t[m]).0 == state && t[m].1 == symbol)
}

/// The target of the (first) transition from `state` on `symbol`, if any.
pub open spec fn target(t: Seq<(usize, Symbol, usize)>, state: int, symbol: Symbol) -> Option<usize> {
    if exists|k: int| first_transition(t, state, symbol, k) {
        Some(t[choose|k: int| first_transition(t, state, symbol, k)].2)
    } else {
        None
    }
}

/// The first transition is unique, so `target` gives its target.
pub proof fn lemma_target(t: Seq<(usize, Symbol, usize)>, state: int, symbol: Symbol, k: int)
    requires
        first_transition(t, state, symbol, k),
    ensures
        target(t, state, symbol) == Some(t[k].2),
{
    let c = choose|c: int| first_transition(t, state, symbol, c);
    if c < k {
        assert(!(t[c].0 == state && t[c].1 == symbol));
    } else if k < c {
        assert(!(t[k].0 == state && t[k].1 == symbol));
    }
}

/// Without a matching transition there is no target.
pub proof fn lemma_no_target(t: Seq<(usize, Symbol, usize)>, state: int, symbol: Symbol)
    requires
        forall|k: int| 0 <= k < t.len() ==> !((#[trigger] t[k]).0 == state && t[k].1 == symbol),
    ensures
        target(t, state, symbol) is None,
{
}

/// The transition list has at most one entry per (state, symbol).
pub open spec fn keys_unique(t: Seq<(usize, Symbol, usize)>) -> bool {
    forall|a: int, b: int|
        0 <= a < t.len() && 0 <= b < t.len() && a != b ==> !(#[trigger] t[a].0 == #[trigger] t[b].0 && t[a].1
            == t[b].1)
}

/// Some transition from an earlier state leads to state `j`.
pub open spec fn has_incoming(transitions: Seq<(usize, Symbol, usize)>, j: int) -> bool {
    exists|k: int| 0 <= k < transitions.len() && (#[trigger] transitions[k]).2 == j && transitions[k].0 < j
}

/// Each of the first `n` states after the first is the target of a transition
/// from an earlier state, so every state is reached from the first.
pub open spec fn all_reached(n: nat, transitions: Seq<(usize, Symbol, usize)>) -> bool {
    forall|j: int| 0 < j < n ==> #[trigger] has_incoming(transitions, j)
}

/// `all_reached`, folded so that the builders' loops do not unfold it.
#[verifier::opaque]
spec fn reached_upto(n: nat, transitions: Seq<(usize, Symbol, usize)>) -> bool {
    all_reached(n, transitions)
}

/// The first state needs no transition.
proof fn lemma_reached_start()
    ensures
        reached_upto(1, Seq::<(usize, Symbol, usize)>::empty()),
{
    reveal(reached_upto);
}

/// Recording a transition keeps every state reached.
proof fn lemma_reached_push(n: nat, t: Seq<(usize, Symbol, usize)>, e: (usize, Symbol, usize))
    requires
        reached_upto(n, t),
    ensures
        reached_upto(n, t.push(e)),
{
    reveal(reached_upto);
    assert forall|j: int| 0 < j < n implies #[trigger] has_incoming(t.push(e), j) by {
        assert(has_incoming(t, j));
        let k = choose|k: int| 0 <= k < t.len() && (#[trigger] t[k]).2 == j && t[k].0 < j;
        assert(t.push(e)[k] == t[k]);
    }
}

/// A transition to the new state `n` reaches it.
proof fn lemma_reached_new(n: nat, t: Seq<(usize, Symbol, usize)>, e: (usize, Symbol, usize))
    requires
        reached_upto(n, t),
        e.2 == n,
        e.0 < n,
    ensures
        reached_upto(n + 1, t.push(e)),
{
    lemma_reached_push(n, t, e);
    reveal(reached_upto);
    assert(t.push(e)[t.len() as int] == e);
    assert(has_incoming(t.push(e), n as int));
}

/// The folded form says `all_reached`.
proof fn lemma_reached(n: nat, t: Seq<(usize, Symbol, usize)>)
    requires
        reached_upto(n, t),
    ensures
        all_reached(n, t),
{
    reveal(reached_upto);
}

/// `states` and `transitions` form the canonical LR(0) collection of `g`: the
/// first state is the closure of `{[S' -> ·S]}`, the states are distinct, each
/// later state is the target of a transition from an earlier one, every
/// transition leads to the GOTO of its source, and every non-empty GOTO of a
/// state is a transition. This fixes the item sets (see
/// `lemma_lr0_collections_agree`), not their numbering.
pub open spec fn is_lr0_collection(
    g: &ContextFreeGrammar,
    states: Seq<Set<LR0Item>>,
    transitions: Seq<(usize, Symbol, usize)>,
) -> bool {
    &&& states.len() >= 1
    &&& is_lr0_closure(g, set![LR0Item { production_index: 0, dot_position: 0 }], states[0])
    &&& states.no_duplicates()
    &&& all_reached(states.len(), transitions)
    &&& keys_unique(transitions)
    &&& forall|k: int|
        #![trigger transitions[k]]
        0 <= k < transitions.len() ==> {
            let (i, x, j) = transitions[k];
            &&& i < states.len()
            &&& j < states.len()
            &&& !goto_kernel0(g, states[i as int], x).is_empty()
            &&& is_lr0_closure(g, goto_kernel0(g, states[i as int], x), states[j as int])
        }
    &&& forall|i: int, x: Symbol|
        #![trigger goto_kernel0(g, states[i], x)]
        0 <= i < states.len() && !goto_kernel0(g, states[i], x).is_empty() ==> exists|k: int|
            0 <= k < transitions.len() && #[trigger] transitions[k].0 == i && transitions[k].1 == x
}

/// `states` and `transitions` form the canonical LR(1) collection of `g`, in
/// the sense of `is_lr0_collection` (see `lemma_lr1_collections_agree`).
pub open spec fn is_lr1_collection(
    g: &ContextFreeGrammar,
    calc: &LookaheadCalculator,
    states: Seq<Set<LR1Item>>,
    transitions: Seq<(usize, Symbol, usize)>,
) -> bool {
    &&& states.len() >= 1
    &&& is_lr1_closure(
        g,
        calc,
        set![LR1Item { production_index: 0, dot_position: 0, lookahead: calc.spec_end_marker() }],
        states[0],
    )
    &&& states.no_duplicates()
    &&& all_reached(states.len(), transitions)
    &&& keys_unique(transitions)
    &&& forall|k: int|
        #![trigger transitions[k]]
        0 <= k < transitions.len() ==> {
            let (i, x, j) = transitions[k];
            &&& i < states.len()
            &&& j < states.len()
            &&& !goto_kernel1(g, states[i as int], x).is_empty()
            &&& is_lr1_closure(g, calc, goto_kernel1(g, states[i as int], x), states[j as int])
        }
    &&& forall|i: int, x: Symbol|
        #![trigger goto_kernel1(g, states[i], x)]
        0 <= i < states.len() && !goto_kernel1(g, states[i], x).is_empty() ==> exists|k: int|
            0 <= k < transitions.len() && #[trigger] transitions[k].0 == i && transitions[k].1 == x
}

/// The canonical collection of LR(0) item sets with its GOTO transitions.
#[derive(Debug)]
pub struct LR0ItemSetCollection {
    states: Vec<LR0ItemSet>,
    transitions: Vec<(usize, Symbol, usize)>,
}

impl LR0ItemSetCollection {
    /// The states as item sets.
    pub closed spec fn spec_states(&self) -> Seq<Set<LR0Item>> {
        views0(self.states@)
    }

    /// The transitions `(from, symbol, to)`.
    pub closed spec fn spec_transitions(&self) -> Seq<(usize, Symbol, usize)> {
        self.transitions@
    }

    /// The item lists behind the states.
    pub closed spec fn state_items(&self) -> Seq<Seq<LR0Item>> {
        Seq::new(self.states@.len(), |i: int| self.states@[i].item_list())
    }

    /// The item lists hold the items of the states.
    pub proof fn lemma_state_items(&self)
        ensures
            self.state_items().len() == self.spec_states().len(),
            forall|i: int| 0 <= i < self.spec_states().len() ==> #[trigger] self.state_items()[i].to_set()
                == self.spec_states()[i],
    {
    }

    /// An empty collection.
    pub fn new() -> (res: Self)
        ensures
            res.spec_states().len() == 0,
            res.spec_transitions().len() == 0,
    {
        LR0ItemSetCollection { states: Vec::new(), transitions: Vec::new() }
    }

    /// Builds the canonical LR(0) collection of `cfg` (production 0 is taken as
    /// the augmented start production), numbering states in discovery order.
    pub fn build(cfg: &ContextFreeGrammar) -> (res: Self)
        requires
            cfg.wf(),
        ensures
            is_lr0_collection(cfg, res.spec_states(), res.spec_transitions()),
    {
        let ghost u = universe0(cfg);
        proof {
            lemma_universe0_finite(cfg);
            lemma_universe0_closed(cfg);
        }
        let mut states: Vec<LR0ItemSet> = Vec::new();
        let mut transitions: Vec<(usize, Symbol, usize)> = Vec::new();
        let mut worklist: Vec<usize> = Vec::new();
        let initial_item = LR0Item::from_production(0);
        let mut initial_set = LR0ItemSet::new();
        initial_set.insert(initial_item);
        let ghost seed = set![LR0Item { production_index: 0, dot_position: 0 }];
        assert(initial_set@ =~= seed);
        let initial_closure = initial_set.closure(cfg);
        assert(seed.subset_of(u));
        states.push(initial_closure);
        worklist.push(0);
        proof {
            lemma_reached_start();
            assert(transitions@ =~= Seq::<(usize, Symbol, usize)>::empty());
        }
        proof {
            assert(views0(states@)[0] == states@[0]@);
            assert(views0(states@) =~= seq![states@[0]@]);
            lemma_distinct_subsets(views0(states@), u);
            assert(worklist@[0] == 0);
        }
        while worklist.len() > 0
            invariant
                cfg.wf(),
                u == universe0(cfg),
                u.finite(),
                lr0_closed(cfg, u),
                states.len() >= 1,
                is_lr0_closure(cfg, seed, states@[0]@),
                seed == set![LR0Item { production_index: 0, dot_position: 0 }],
                views0(states@).no_duplicates(),
                forall|i: int| 0 <= i < states.len() ==> (#[trigger] states@[i])@.subset_of(u),
                states.len() <= two_pow(u.len()),
                worklist@.no_duplicates(),
                forall|w: int| 0 <= w < worklist.len() ==> #[trigger] worklist@[w] < states.len(),
                keys_unique(transitions@),
                forall|k: int|
                    #![trigger transitions@[k]]
                    0 <= k < transitions.len() ==> {
                        let (i, x, j) = transitions@[k];
                        &&& i < states.len()
                        &&& j < states.len()
                        &&& !worklist@.contains(i)
                        &&& !goto_kernel0(cfg, states@[i as int]@, x).is_empty()
                        &&& is_lr0_closure(cfg, goto_kernel0(cfg, states@[i as int]@, x), states@[j as int]@)
                    },
                forall|i: int, x: Symbol|
                    #![trigger goto_kernel0(cfg, states@[i]@, x)]
                    0 <= i < states.len() && !worklist@.contains(i as usize) && !goto_kernel0(
                        cfg,
                        states@[i]@,
                        x,
                    ).is_empty() ==> exists|k: int|
                        0 <= k < transitions.len() && #[trigger] transitions@[k].0 == i
                            && transitions@[k].1 == x,
                reached_upto(states.len() as nat, transitions@),
            decreases two_pow(u.len()) - states.len(), worklist.len(),
        {
            let ghost wl_before = worklist@;
            let state_idx = worklist.pop().unwrap();
            proof {
                assert(wl_before =~= worklist@.push(state_idx));
                assert forall|i: usize| #[trigger] wl_before.contains(i) <==> (worklist@.contains(i) || i
                    == state_idx) by {
                    if wl_before.contains(i) {
                        let k = choose|k: int| 0 <= k < wl_before.len() && wl_before[k] == i;
                        if k < worklist@.len() {
                            assert(worklist@[k] == i);
                        }
                    }
                    if worklist@.contains(i) {
                        let k = choose|k: int| 0 <= k < worklist@.len() && worklist@[k] == i;
                        assert(wl_before[k] == i);
                    }
                    if i == state_idx {
                        assert(wl_before[worklist@.len() as int] == i);
                    }
                }
                assert(!worklist@.contains(state_idx)) by {
                    if worklist@.contains(state_idx) {
                        let k = choose|k: int| 0 <= k < worklist@.len() && worklist@[k] == state_idx;
                        assert(wl_before[k] == wl_before[worklist@.len() as int]);
                    }
                }
                assert forall|w: int| 0 <= w < worklist.len() implies #[trigger] worklist@[w] < states.len() by {
                    assert(worklist@[w] == wl_before[w]);
                }
            }
            let ghost n_before = states.len();
            let ghost wl_popped = worklist@;
            let items_ref = states[state_idx].items();
            let symbols = LR0Goto::get_transitions(items_ref, cfg);
            let mut m: usize = 0;
            while m < symbols.len()
                invariant
                    cfg.wf(),
                    u == universe0(cfg),
                    u.finite(),
                    lr0_closed(cfg, u),
                    state_idx < states.len(),
                    !worklist@.contains(state_idx),
                    states@[state_idx as int].item_list().to_set() == states@[state_idx as int]@,
                    n_before <= states.len(),
                    states.len() >= 1,
                    is_lr0_closure(cfg, seed, states@[0]@),
                    forall|x: Symbol| #[trigger] symbols@.contains(x) <==> is_transition0(
                        cfg,
                        states@[state_idx as int].item_list(),
                        x,
                    ),
                    forall|a: int, b: int| 0 <= a < b < symbols@.len() ==> crate::lr::goto::symbol_before(symbols@[a], symbols@[b]),
                    views0(states@).no_duplicates(),
                    forall|i: int| 0 <= i < states.len() ==> (#[trigger] states@[i])@.subset_of(u),
                    states.len() <= two_pow(u.len()),
                    worklist@.no_duplicates(),
                    forall|w: int| 0 <= w < worklist.len() ==> #[trigger] worklist@[w] < states.len(),
                    states.len() == n_before ==> worklist@ == wl_popped,
                    keys_unique(transitions@),
                    forall|k: int|
                        #![trigger transitions@[k]]
                        0 <= k < transitions.len() ==> {
                            let (i, x, j) = transitions@[k];
                            &&& i < states.len()
                            &&& j < states.len()
                            &&& (!worklist@.contains(i))
                            &&& (i == state_idx ==> exists|a: int| 0 <= a < m && symbols@[a] == x)
                            &&& !goto_kernel0(cfg, states@[i as int]@, x).is_empty()
                            &&& is_lr0_closure(cfg, goto_kernel0(cfg, states@[i as int]@, x), states@[j as int]@)
                        },
                    forall|i: int, x: Symbol|
                        #![trigger goto_kernel0(cfg, states@[i]@, x)]
                        0 <= i < states.len() && i != state_idx && !worklist@.contains(i as usize) && !goto_kernel0(
                            cfg,
                            states@[i]@,
                            x,
                        ).is_empty() ==> exists|k: int|
                            0 <= k < transitions.len() && #[trigger] transitions@[k].0 == i
                                && transitions@[k].1 == x,
                    forall|a: int|
                        0 <= a < m ==> exists|k: int|
                            0 <= k < transitions.len() && #[trigger] transitions@[k].0 == state_idx
                                && transitions@[k].1 == #[trigger] symbols@[a],
                    reached_upto(states.len() as nat, transitions@),
                decreases symbols.len() - m,
            {
                let symbol = symbols[m];
                let ghost t_start = transitions@;
                assert(symbols@.contains(symbol));
                proof {
                    lemma_transition0_kernel(cfg, states@[state_idx as int].item_list(), symbol);
                }
                let goto_set = states[state_idx].goto(cfg, &symbol);
                if let Some(new_set) = goto_set {
                    proof {
                        lemma_kernel0_in_universe(cfg, states@[state_idx as int]@, symbol);
                    }
                    let existing = find_state0(&states, &new_set);
                    let ghost t_before = transitions@;
                    proof {
                        assert forall|k: int| 0 <= k < transitions.len() implies !((#[trigger] transitions@[k]).0
                            == state_idx && transitions@[k].1 == symbol) by {
                            if transitions@[k].0 == state_idx && transitions@[k].1 == symbol {
                                let a = choose|a: int| 0 <= a < m && symbols@[a] == symbol;
                                assert(symbols@[a] == symbols@[m as int]);
                                if a < m {
                                    assert(crate::lr::goto::symbol_before(symbols@[a], symbols@[m as int]));
                                }
                            }
                        }
                    }
                    match existing {
                        Some(idx) => {
                            let ghost t_old = transitions@;
                            transitions.push((state_idx, symbol, idx));
                            proof {
                                lemma_reached_push(states.len() as nat, t_old, (state_idx, symbol, idx));
                            }
                        },
                        None => {
                            let new_idx = states.len();
                            let ghost t_old = transitions@;
                            transitions.push((state_idx, symbol, new_idx));
                            proof {
                                lemma_reached_new(new_idx as nat, t_old, (state_idx, symbol, new_idx));
                            }
                            let ghost old_views = views0(states@);
                            let ghost wl_old = worklist@;
                            states.push(new_set);
                            worklist.push(new_idx);
                            proof {
                                assert forall|i: usize| #[trigger] worklist@.contains(i) <==> (wl_old.contains(i)
                                    || i == new_idx) by {
                                    if wl_old.contains(i) {
                                        let k = choose|k: int| 0 <= k < wl_old.len() && wl_old[k] == i;
                                        assert(worklist@[k] == i);
                                    }
                                    if i == new_idx {
                                        assert(worklist@[wl_old.len() as int] == i);
                                    }
                                    if worklist@.contains(i) {
                                        let k = choose|k: int| 0 <= k < worklist@.len() && worklist@[k] == i;
                                        if k < wl_old.len() {
                                            assert(wl_old[k] == i);
                                        }
                                    }
                                }
                                assert(views0(states@) =~= old_views.push(states@[new_idx as int]@));
                                assert forall|a: int, b: int|
                                    0 <= a < views0(states@).len() && 0 <= b < views0(states@).len() && a != b implies views0(
                                        states@,
                                    )[a] != views0(states@)[b] by {
                                    if a < new_idx && b < new_idx {
                                        assert(old_views[a] != old_views[b]);
                                    } else if a == new_idx {
                                        assert(views0(states@)[b] == states@[b]@);
                                    } else {
                                        assert(views0(states@)[a] == states@[a]@);
                                    }
                                }
                                assert forall|i: int| 0 <= i < states.len() implies (#[trigger] states@[i])@.subset_of(u) by {
                                    if i == new_idx {
                                        vstd::set_lib::lemma_len_subset(goto_kernel0(cfg, states@[state_idx as int]@, symbol), u);
                                    }
                                }
                                lemma_distinct_subsets(views0(states@), u);
                                assert forall|w: int| 0 <= w < worklist.len() implies #[trigger] worklist@[w] < states.len() by {}
                                assert(worklist@.no_duplicates()) by {
                                    assert forall|a: int, b: int| 0 <= a < b < worklist@.len() implies worklist@[a] != worklist@[b] by {
                                        if b == worklist@.len() - 1 {
                                            assert(worklist@[a] < new_idx);
                                        }
                                    }
                                }
                            }
                        },
                    }
                    proof {
                        let k_new = transitions.len() - 1;
                        assert(transitions@[k_new as int].0 == state_idx && transitions@[k_new as int].1 == symbol);
                        assert(keys_unique(transitions@)) by {
                            assert forall|a: int, b: int|
                                0 <= a < transitions@.len() && 0 <= b < transitions@.len() && a != b implies !(#[trigger] transitions@[a].0
                                    == #[trigger] transitions@[b].0 && transitions@[a].1 == transitions@[b].1) by {
                                if a < k_new && b < k_new {
                                    assert(transitions@[a] == t_before[a]);
                                    assert(transitions@[b] == t_before[b]);
                                }
                            }
                        }
                    }
                }
                proof {
                    assert(goto_set is Some);
                    assert(transitions@.len() == t_start.len() + 1);
                    assert forall|k: int| 0 <= k < t_start.len() implies #[trigger] transitions@[k] == t_start[k] by {}
                    assert forall|a: int|
                        0 <= a < m + 1 implies exists|k: int|
                            0 <= k < transitions.len() && #[trigger] transitions@[k].0 == state_idx
                                && transitions@[k].1 == #[trigger] symbols@[a] by {
                        if a == m {
                            let k_new = transitions.len() - 1;
                            assert(transitions@[k_new as int].0 == state_idx);
                        } else {
                            let k = choose|k: int|
                                0 <= k < t_start.len() && #[trigger] t_start[k].0 == state_idx
                                    && t_start[k].1 == #[trigger] symbols@[a];
                            assert(transitions@[k] == t_start[k]);
                        }
                    }
                    assert forall|i: int, x: Symbol|
                        0 <= i < states.len() && i != state_idx && !worklist@.contains(i as usize) && !goto_kernel0(
                            cfg,
                            states@[i]@,
                            x,
                        ).is_empty() implies exists|k: int|
                            0 <= k < transitions.len() && #[trigger] transitions@[k].0 == i
                                && transitions@[k].1 == x by {
                        let k = choose|k: int|
                            0 <= k < t_start.len() && #[trigger] t_start[k].0 == i && t_start[k].1 == x;
                        assert(transitions@[k] == t_start[k]);
                    }
                }
                m = m + 1;
            }
            proof {
                assert forall|x: Symbol|
                    !goto_kernel0(cfg, states@[state_idx as int]@, x).is_empty() implies exists|k: int|
                        0 <= k < transitions.len() && #[trigger] transitions@[k].0 == state_idx
                            && transitions@[k].1 == x by {
                    lemma_transition0_kernel(cfg, states@[state_idx as int].item_list(), x);
                    assert(symbols@.contains(x));
                    let a = choose|a: int| 0 <= a < symbols@.len() && symbols@[a] == x;
                }
            }
        }
        proof {
            lemma_reached(states.len() as nat, transitions@);
        }
        LR0ItemSetCollection { states, transitions }
    }

    /// Builds the canonical LR(0) collection of an augmented grammar.
    pub fn build_from_augmented(augmented: &AugmentedGrammar) -> (res: Self)
        ensures
            is_lr0_collection(&augmented.spec_grammar(), res.spec_states(), res.spec_transitions()),
    {
        Self::build(augmented.grammar())
    }

    /// The states.
    pub fn states(&self) -> (res: &[LR0ItemSet])
        ensures
            views0(res@) == self.spec_states(),
            res@.len() == self.state_items().len(),
            forall|i: int| 0 <= i < res@.len() ==> (#[trigger] res@[i]).item_list() == self.state_items()[i],
    {
        self.states.as_slice()
    }

    /// The state with the given index, if any.
    pub fn state(&self, index: usize) -> (res: Option<&LR0ItemSet>)
        ensures
            index < self.spec_states().len() ==> (res matches Some(s) && s@ == self.spec_states()[index as int]),
            index >= self.spec_states().len() ==> res is None,
    {
        if index < self.states.len() {
            Some(&self.states[index])
        } else {
            None
        }
    }

    /// The number of states.
    pub fn len(&self) -> (res: usize)
        ensures
            res == self.spec_states().len(),
    {
        self.states.len()
    }

    /// Whether there are no states.
    pub fn is_empty(&self) -> (res: bool)
        ensures
            res == (self.spec_states().len() == 0),
    {
        self.states.len() == 0
    }

    /// The transitions `(from, symbol, to)`.
    pub fn transitions(&self) -> (res: &Vec<(usize, Symbol, usize)>)
        ensures
            res@ == self.spec_transitions(),
    {
        &self.transitions
    }

    /// The target of the transition from `state` on `symbol`, if any.
    pub fn get_transition(&self, state: usize, symbol: &Symbol) -> (res: Option<usize>)
        ensures
            res == target(self.spec_transitions(), state as int, *symbol),
    {
        match find_transition(&self.transitions, state, *symbol) {
            Some(k) => {
                proof {
                    lemma_target(self.transitions@, state as int, *symbol, k as int);
                }
                Some(self.transitions[k].2)
            },
            None => {
                proof {
                    lemma_no_target(self.transitions@, state as int, *symbol);
                }
                None
            },
        }
    }
}

impl Default for LR0ItemSetCollection {
    fn default() -> (res: Self)
        ensures
            res.spec_states().len() == 0,
            res.spec_transitions().len() == 0,
    {
        Self::new()
    }
}

/// The canonical collection of LR(1) item sets with its GOTO transitions.
#[derive(Debug)]
pub struct LR1ItemSetCollection {
    states: Vec<LR1ItemSet>,
    transitions: Vec<(usize, Symbol, usize)>,
}

impl LR1ItemSetCollection {
    /// The states as item sets.
    pub closed spec fn spec_states(&self) -> Seq<Set<LR1Item>> {
        views1(self.states@)
    }

    /// The transitions `(from, symbol, to)`.
    pub closed spec fn spec_transitions(&self) -> Seq<(usize, Symbol, usize)> {
        self.transitions@
    }

    /// The item lists behind the states.
    pub closed spec fn state_items(&self) -> Seq<Seq<LR1Item>> {
        Seq::new(self.states@.len(), |i: int| self.states@[i].item_list())
    }

    /// The item lists hold the items of the states.
    pub proof fn lemma_state_items(&self)
        ensures
            self.state_items().len() == self.spec_states().len(),
            forall|i: int| 0 <= i < self.spec_states().len() ==> #[trigger] self.state_items()[i].to_set()
                == self.spec_states()[i],
    {
    }

    /// An empty collection.
    pub fn new() -> (res: Self)
        ensures
            res.spec_states().len() == 0,
            res.spec_transitions().len() == 0,
    {
        LR1ItemSetCollection { states: Vec::new(), transitions: Vec::new() }
    }

    /// Builds the canonical LR(1) collection of `cfg` (production 0 is taken as
    /// the augmented start production), numbering states in discovery order.
    pub fn build(cfg: &ContextFreeGrammar, calculator: &LookaheadCalculator) -> (res: Self)
        requires
            cfg.wf(),
            calculator_fits(cfg, calculator),
        ensures
            is_lr1_collection(cfg, calculator, res.spec_states(), res.spec_transitions()),
            forall|i: int| 0 <= i < res.spec_states().len() ==> (#[trigger] res.spec_states()[i]).subset_of(universe1(cfg)),
    {
        let ghost u = universe1(cfg);
        proof {
            lemma_universe1_finite(cfg);
            lemma_universe1_closed(cfg, calculator);
        }
        let mut states: Vec<LR1ItemSet> = Vec::new();
        let mut transitions: Vec<(usize, Symbol, usize)> = Vec::new();
        let mut worklist: Vec<usize> = Vec::new();
        let end_marker = calculator.end_marker();
        let initial_item = LR1Item::from_production(0, end_marker);
        let mut initial_set = LR1ItemSet::new();
        initial_set.insert(initial_item);
        let ghost seed = set![LR1Item { production_index: 0, dot_position: 0, lookahead: end_marker }];
        assert(initial_set@ =~= seed);
        let initial_closure = initial_set.closure(cfg, calculator);
        assert(seed.subset_of(u));
        states.push(initial_closure);
        worklist.push(0);
        proof {
            lemma_reached_start();
            assert(transitions@ =~= Seq::<(usize, Symbol, usize)>::empty());
        }
        proof {
            assert(views1(states@)[0] == states@[0]@);
            assert(views1(states@) =~= seq![states@[0]@]);
            lemma_distinct_subsets(views1(states@), u);
            assert(worklist@[0] == 0);
        }
        while worklist.len() > 0
            invariant
                cfg.wf(),
                calculator_fits(cfg, calculator),
                u == universe1(cfg),
                u.finite(),
                lr1_closed(cfg, calculator, u),
                states.len() >= 1,
                is_lr1_closure(cfg, calculator, seed, states@[0]@),
                seed == set![LR1Item { production_index: 0, dot_position: 0, lookahead: calculator.spec_end_marker() }],
                views1(states@).no_duplicates(),
                forall|i: int| 0 <= i < states.len() ==> (#[trigger] states@[i])@.subset_of(u),
                states.len() <= two_pow(u.len()),
                worklist@.no_duplicates(),
                forall|w: int| 0 <= w < worklist.len() ==> #[trigger] worklist@[w] < states.len(),
                keys_unique(transitions@),
                forall|k: int|
                    #![trigger transitions@[k]]
                    0 <= k < transitions.len() ==> {
                        let (i, x, j) = transitions@[k];
                        &&& i < states.len()
                        &&& j < states.len()
                        &&& !worklist@.contains(i)
                        &&& !goto_kernel1(cfg, states@[i as int]@, x).is_empty()
                        &&& is_lr1_closure(cfg, calculator, goto_kernel1(cfg, states@[i as int]@, x), states@[j as int]@)
                    },
                forall|i: int, x: Symbol|
                    #![trigger goto_kernel1(cfg, states@[i]@, x)]
                    0 <= i < states.len() && !worklist@.contains(i as usize) && !goto_kernel1(
                        cfg,
                        states@[i]@,
                        x,
                    ).is_empty() ==> exists|k: int|
                        0 <= k < transitions.len() && #[trigger] transitions@[k].0 == i
                            && transitions@[k].1 == x,
                reached_upto(states.len() as nat, transitions@),
            decreases two_pow(u.len()) - states.len(), worklist.len(),
        {
            let ghost wl_before = worklist@;
            let state_idx = worklist.pop().unwrap();
            proof {
                assert(wl_before =~= worklist@.push(state_idx));
                assert forall|i: usize| #[trigger] wl_before.contains(i) <==> (worklist@.contains(i) || i
                    == state_idx) by {
                    if wl_before.contains(i) {
                        let k = choose|k: int| 0 <= k < wl_before.len() && wl_before[k] == i;
                        if k < worklist@.len() {
                            assert(worklist@[k] == i);
                        }
                    }
                    if worklist@.contains(i) {
                        let k = choose|k: int| 0 <= k < worklist@.len() && worklist@[k] == i;
                        assert(wl_before[k] == i);
                    }
                    if i == state_idx {
                        assert(wl_before[worklist@.len() as int] == i);
                    }
                }
                assert(!worklist@.contains(state_idx)) by {
                    if worklist@.contains(state_idx) {
                        let k = choose|k: int| 0 <= k < worklist@.len() && worklist@[k] == state_idx;
                        assert(wl_before[k] == wl_before[worklist@.len() as int]);
                    }
                }
                assert forall|w: int| 0 <= w < worklist.len() implies #[trigger] worklist@[w] < states.len() by {
                    assert(worklist@[w] == wl_before[w]);
                }
            }
            let ghost n_before = states.len();
            let ghost wl_popped = worklist@;
            let items_ref = states[state_idx].items();
            let symbols = LR1Goto::get_transitions(items_ref, cfg);
            let mut m: usize = 0;
            while m < symbols.len()
                invariant
                    cfg.wf(),
                    calculator_fits(cfg, calculator),
                    u == universe1(cfg),
                    u.finite(),
                    lr1_closed(cfg, calculator, u),
                    state_idx < states.len(),
                    !worklist@.contains(state_idx),
                    states@[state_idx as int].item_list().to_set() == states@[state_idx as int]@,
                    n_before <= states.len(),
                    states.len() >= 1,
                    is_lr1_closure(cfg, calculator, seed, states@[0]@),
                    forall|x: Symbol| #[trigger] symbols@.contains(x) <==> is_transition1(
                        cfg,
                        states@[state_idx as int].item_list(),
                        x,
                    ),
                    forall|a: int, b: int| 0 <= a < b < symbols@.len() ==> crate::lr::goto::symbol_before(symbols@[a], symbols@[b]),
                    views1(states@).no_duplicates(),
                    forall|i: int| 0 <= i < states.len() ==> (#[trigger] states@[i])@.subset_of(u),
                    states.len() <= two_pow(u.len()),
                    worklist@.no_duplicates(),
                    forall|w: int| 0 <= w < worklist.len() ==> #[trigger] worklist@[w] < states.len(),
                    states.len() == n_before ==> worklist@ == wl_popped,
                    keys_unique(transitions@),
                    forall|k: int|
                        #![trigger transitions@[k]]
                        0 <= k < transitions.len() ==> {
                            let (i, x, j) = transitions@[k];
                            &&& i < states.len()
                            &&& j < states.len()
                            &&& (!worklist@.contains(i))
                            &&& (i == state_idx ==> exists|a: int| 0 <= a < m && symbols@[a] == x)
                            &&& !goto_kernel1(cfg, states@[i as int]@, x).is_empty()
                            &&& is_lr1_closure(cfg, calculator, goto_kernel1(cfg, states@[i as int]@, x), states@[j as int]@)
                        },
                    forall|i: int, x: Symbol|
                        #![trigger goto_kernel1(cfg, states@[i]@, x)]
                        0 <= i < states.len() && i != state_idx && !worklist@.contains(i as usize) && !goto_kernel1(
                            cfg,
                            states@[i]@,
                            x,
                        ).is_empty() ==> exists|k: int|
                            0 <= k < transitions.len() && #[trigger] transitions@[k].0 == i
                                && transitions@[k].1 == x,
                    forall|a: int|
                        0 <= a < m ==> exists|k: int|
                            0 <= k < transitions.len() && #[trigger] transitions@[k].0 == state_idx
                                && transitions@[k].1 == #[trigger] symbols@[a],
                    reached_upto(states.len() as nat, transitions@),
                decreases symbols.len() - m,
            {
                let symbol = symbols[m];
                let ghost t_start = transitions@;
                assert(symbols@.contains(symbol));
                proof {
                    lemma_transition1_kernel(cfg, states@[state_idx as int].item_list(), symbol);
                }
                let goto_set = states[state_idx].goto(cfg, calculator, &symbol);
                if let Some(new_set) = goto_set {
                    proof {
                        lemma_kernel1_in_universe(cfg, states@[state_idx as int]@, symbol);
                    }
                    let existing = find_state1(&states, &new_set);
                    let ghost t_before = transitions@;
                    proof {
                        assert forall|k: int| 0 <= k < transitions.len() implies !((#[trigger] transitions@[k]).0
                            == state_idx && transitions@[k].1 == symbol) by {
                            if transitions@[k].0 == state_idx && transitions@[k].1 == symbol {
                                let a = choose|a: int| 0 <= a < m && symbols@[a] == symbol;
                                assert(symbols@[a] == symbols@[m as int]);
                                if a < m {
                                    assert(crate::lr::goto::symbol_before(symbols@[a], symbols@[m as int]));
                                }
                            }
                        }
                    }
                    match existing {
                        Some(idx) => {
                            let ghost t_old = transitions@;
                            transitions.push((state_idx, symbol, idx));
                            proof {
                                lemma_reached_push(states.len() as nat, t_old, (state_idx, symbol, idx));
                            }
                        },
                        None => {
                            let new_idx = states.len();
                            let ghost t_old = transitions@;
                            transitions.push((state_idx, symbol, new_idx));
                            proof {
                                lemma_reached_new(new_idx as nat, t_old, (state_idx, symbol, new_idx));
                            }
                            let ghost old_views = views1(states@);
                            let ghost wl_old = worklist@;
                            states.push(new_set);
                            worklist.push(new_idx);
                            proof {
                                assert forall|i: usize| #[trigger] worklist@.contains(i) <==> (wl_old.contains(i)
                                    || i == new_idx) by {
                                    if wl_old.contains(i) {
                                        let k = choose|k: int| 0 <= k < wl_old.len() && wl_old[k] == i;
                                        assert(worklist@[k] == i);
                                    }
                                    if i == new_idx {
                                        assert(worklist@[wl_old.len() as int] == i);
                                    }
                                    if worklist@.contains(i) {
                                        let k = choose|k: int| 0 <= k < worklist@.len() && worklist@[k] == i;
                                        if k < wl_old.len() {
                                            assert(wl_old[k] == i);
                                        }
                                    }
                                }
                                assert(views1(states@) =~= old_views.push(states@[new_idx as int]@));
                                assert forall|a: int, b: int|
                                    0 <= a < views1(states@).len() && 0 <= b < views1(states@).len() && a != b implies views1(
                                        states@,
                                    )[a] != views1(states@)[b] by {
                                    if a < new_idx && b < new_idx {
                                        assert(old_views[a] != old_views[b]);
                                    } else if a == new_idx {
                                        assert(views1(states@)[b] == states@[b]@);
                                    } else {
                                        assert(views1(states@)[a] == states@[a]@);
                                    }
                                }
                                assert forall|i: int| 0 <= i < states.len() implies (#[trigger] states@[i])@.subset_of(u) by {
                                    if i == new_idx {
                                        vstd::set_lib::lemma_len_subset(goto_kernel1(cfg, states@[state_idx as int]@, symbol), u);
                                    }
                                }
                                lemma_distinct_subsets(views1(states@), u);
                                assert forall|w: int| 0 <= w < worklist.len() implies #[trigger] worklist@[w] < states.len() by {}
                                assert(worklist@.no_duplicates()) by {
                                    assert forall|a: int, b: int| 0 <= a < b < worklist@.len() implies worklist@[a] != worklist@[b] by {
                                        if b == worklist@.len() - 1 {
                                            assert(worklist@[a] < new_idx);
                                        }
                                    }
                                }
                            }
                        },
                    }
                    proof {
                        let k_new = transitions.len() - 1;
                        assert(transitions@[k_new as int].0 == state_idx && transitions@[k_new as int].1 == symbol);
                        assert(keys_unique(transitions@)) by {
                            assert forall|a: int, b: int|
                                0 <= a < transitions@.len() && 0 <= b < transitions@.len() && a != b implies !(#[trigger] transitions@[a].0
                                    == #[trigger] transitions@[b].0 && transitions@[a].1 == transitions@[b].1) by {
                                if a < k_new && b < k_new {
                                    assert(transitions@[a] == t_before[a]);
                                    assert(transitions@[b] == t_before[b]);
                                }
                            }
                        }
                    }
                }
                proof {
                    assert(goto_set is Some);
                    assert(transitions@.len() == t_start.len() + 1);
                    assert forall|k: int| 0 <= k < t_start.len() implies #[trigger] transitions@[k] == t_start[k] by {}
                    assert forall|a: int|
                        0 <= a < m + 1 implies exists|k: int|
                            0 <= k < transitions.len() && #[trigger] transitions@[k].0 == state_idx
                                && transitions@[k].1 == #[trigger] symbols@[a] by {
                        if a == m {
                            let k_new = transitions.len() - 1;
                            assert(transitions@[k_new as int].0 == state_idx);
                        } else {
                            let k = choose|k: int|
                                0 <= k < t_start.len() && #[trigger] t_start[k].0 == state_idx
                                    && t_start[k].1 == #[trigger] symbols@[a];
                            assert(transitions@[k] == t_start[k]);
                        }
                    }
                    assert forall|i: int, x: Symbol|
                        0 <= i < states.len() && i != state_idx && !worklist@.contains(i as usize) && !goto_kernel1(
                            cfg,
                            states@[i]@,
                            x,
                        ).is_empty() implies exists|k: int|
                            0 <= k < transitions.len() && #[trigger] transitions@[k].0 == i
                                && transitions@[k].1 == x by {
                        let k = choose|k: int|
                            0 <= k < t_start.len() && #[trigger] t_start[k].0 == i && t_start[k].1 == x;
                        assert(transitions@[k] == t_start[k]);
                    }
                }
                m = m + 1;
            }
            proof {
                assert forall|x: Symbol|
                    !goto_kernel1(cfg, states@[state_idx as int]@, x).is_empty() implies exists|k: int|
                        0 <= k < transitions.len() && #[trigger] transitions@[k].0 == state_idx
                            && transitions@[k].1 == x by {
                    lemma_transition1_kernel(cfg, states@[state_idx as int].item_list(), x);
                    assert(symbols@.contains(x));
                    let a = choose|a: int| 0 <= a < symbols@.len() && symbols@[a] == x;
                }
            }
        }
        proof {
            lemma_reached(states.len() as nat, transitions@);
        }
        LR1ItemSetCollection { states, transitions }
    }

    /// Builds the canonical LR(1) collection of an augmented grammar.
    pub fn build_from_augmented(augmented: &AugmentedGrammar, calculator: &LookaheadCalculator) -> (res: Self)
        requires
            calculator_fits(&augmented.spec_grammar(), calculator),
        ensures
            is_lr1_collection(&augmented.spec_grammar(), calculator, res.spec_states(), res.spec_transitions()),
            forall|i: int| 0 <= i < res.spec_states().len() ==> (#[trigger] res.spec_states()[i]).subset_of(
                universe1(&augmented.spec_grammar()),
            ),
    {
        Self::build(augmented.grammar(), calculator)
    }

    /// The states.
    pub fn states(&self) -> (res: &[LR1ItemSet])
        ensures
            views1(res@) == self.spec_states(),
            res@.len() == self.state_items().len(),
            forall|i: int| 0 <= i < res@.len() ==> (#[trigger] res@[i]).item_list() == self.state_items()[i],
    {
        self.states.as_slice()
    }

    /// The state with the given index, if any.
    pub fn state(&self, index: usize) -> (res: Option<&LR1ItemSet>)
        ensures
            index < self.spec_states().len() ==> (res matches Some(s) && s@ == self.spec_states()[index as int]),
            index >= self.spec_states().len() ==> res is None,
    {
        if index < self.states.len() {
            Some(&self.states[index])
        } else {
            None
        }
    }

    /// The number of states.
    pub fn len(&self) -> (res: usize)
        ensures
            res == self.spec_states().len(),
    {
        self.states.len()
    }

    /// Whether there are no states.
    pub fn is_empty(&self) -> (res: bool)
        ensures
            res == (self.spec_states().len() == 0),
    {
        self.states.len() == 0
    }

    /// The transitions `(from, symbol, to)`.
    pub fn transitions(&self) -> (res: &Vec<(usize, Symbol, usize)>)
        ensures
            res@ == self.spec_transitions(),
    {
        &self.transitions
    }

    /// The target of the transition from `state` on `symbol`, if any.
    pub fn get_transition(&self, state: usize, symbol: &Symbol) -> (res: Option<usize>)
        ensures
            res == target(self.spec_transitions(), state as int, *symbol),
    {
        match find_transition(&self.transitions, state, *symbol) {
            Some(k) => {
                proof {
                    lemma_target(self.transitions@, state as int, *symbol, k as int);
                }
                Some(self.transitions[k].2)
            },
            None => {
                proof {
                    lemma_no_target(self.transitions@, state as int, *symbol);
                }
                None
            },
        }
    }
}

impl Default for LR1ItemSetCollection {
    fn default() -> (res: Self)
        ensures
            res.spec_states().len() == 0,
            res.spec_transitions().len() == 0,
    {
        Self::new()
    }
}

/// Two closures of one kernel are equal.
proof fn lemma_lr0_closure_unique(g: &ContextFreeGrammar, k: Set<LR0Item>, c1: Set<LR0Item>, c2: Set<LR0Item>)
    requires
        is_lr0_closure(g, k, c1),
        is_lr0_closure(g, k, c2),
    ensures
        c1 == c2,
{
    assert(lr0_closed(g, c1) && lr0_closed(g, c2));
    assert(c1 =~= c2);
}

/// Two LR(1) closures of one kernel are equal.
proof fn lemma_lr1_closure_unique(
    g: &ContextFreeGrammar,
    calc: &LookaheadCalculator,
    k: Set<LR1Item>,
    c1: Set<LR1Item>,
    c2: Set<LR1Item>,
)
    requires
        is_lr1_closure(g, calc, k, c1),
        is_lr1_closure(g, calc, k, c2),
    ensures
        c1 == c2,
{
    assert(lr1_closed(g, calc, c1) && lr1_closed(g, calc, c2));
    assert(c1 =~= c2);
}

/// Each state of one LR(0) collection is a state of another.
proof fn lemma_lr0_state_in(
    g: &ContextFreeGrammar,
    s1: Seq<Set<LR0Item>>,
    t1: Seq<(usize, Symbol, usize)>,
    s2: Seq<Set<LR0Item>>,
    t2: Seq<(usize, Symbol, usize)>,
    j: int,
)
    requires
        is_lr0_collection(g, s1, t1),
        is_lr0_collection(g, s2, t2),
        0 <= j < s1.len(),
    ensures
        s2.contains(s1[j]),
    decreases j,
{
    if j == 0 {
        lemma_lr0_closure_unique(g, set![LR0Item { production_index: 0, dot_position: 0 }], s1[0], s2[0]);
        assert(s2[0] == s1[0]);
    } else {
        assert(has_incoming(t1, j));
        let k = choose|k: int| 0 <= k < t1.len() && (#[trigger] t1[k]).2 == j && t1[k].0 < j;
        let i = t1[k].0 as int;
        let x = t1[k].1;
        lemma_lr0_state_in(g, s1, t1, s2, t2, i);
        let i2 = choose|i2: int| 0 <= i2 < s2.len() && s2[i2] == s1[i];
        assert(!goto_kernel0(g, s2[i2], x).is_empty());
        let k2 = choose|k2: int| 0 <= k2 < t2.len() && #[trigger] t2[k2].0 == i2 && t2[k2].1 == x;
        let j2 = t2[k2].2 as int;
        lemma_lr0_closure_unique(g, goto_kernel0(g, s1[i], x), s1[j], s2[j2]);
        assert(s2[j2] == s1[j]);
    }
}

/// Each state of one LR(1) collection is a state of another.
proof fn lemma_lr1_state_in(
    g: &ContextFreeGrammar,
    calc: &LookaheadCalculator,
    s1: Seq<Set<LR1Item>>,
    t1: Seq<(usize, Symbol, usize)>,
    s2: Seq<Set<LR1Item>>,
    t2: Seq<(usize, Symbol, usize)>,
    j: int,
)
    requires
        is_lr1_collection(g, calc, s1, t1),
        is_lr1_collection(g, calc, s2, t2),
        0 <= j < s1.len(),
    ensures
        s2.contains(s1[j]),
    decreases j,
{
    if j == 0 {
        lemma_lr1_closure_unique(
            g,
            calc,
            set![LR1Item { production_index: 0, dot_position: 0, lookahead: calc.spec_end_marker() }],
            s1[0],
            s2[0],
        );
        assert(s2[0] == s1[0]);
    } else {
        assert(has_incoming(t1, j));
        let k = choose|k: int| 0 <= k < t1.len() && (#[trigger] t1[k]).2 == j && t1[k].0 < j;
        let i = t1[k].0 as int;
        let x = t1[k].1;
        lemma_lr1_state_in(g, calc, s1, t1, s2, t2, i);
        let i2 = choose|i2: int| 0 <= i2 < s2.len() && s2[i2] == s1[i];
        assert(!goto_kernel1(g, s2[i2], x).is_empty());
        let k2 = choose|k2: int| 0 <= k2 < t2.len() && #[trigger] t2[k2].0 == i2 && t2[k2].1 == x;
        let j2 = t2[k2].2 as int;
        lemma_lr1_closure_unique(g, calc, goto_kernel1(g, s1[i], x), s1[j], s2[j2]);
        assert(s2[j2] == s1[j]);
    }
}

/// Any two canonical LR(0) collections of `g` hold the same item sets, each
/// once: they differ at most in how the states are numbered.
pub proof fn lemma_lr0_collections_agree(
    g: &ContextFreeGrammar,
    s1: Seq<Set<LR0Item>>,
    t1: Seq<(usize, Symbol, usize)>,
    s2: Seq<Set<LR0Item>>,
    t2: Seq<(usize, Symbol, usize)>,
)
    requires
        is_lr0_collection(g, s1, t1),
        is_lr0_collection(g, s2, t2),
    ensures
        s1.to_set() == s2.to_set(),
        s1.len() == s2.len(),
{
    assert forall|x: Set<LR0Item>| s1.to_set().contains(x) <==> s2.to_set().contains(x) by {
        if s1.contains(x) {
            let j = choose|j: int| 0 <= j < s1.len() && s1[j] == x;
            lemma_lr0_state_in(g, s1, t1, s2, t2, j);
        }
        if s2.contains(x) {
            let j = choose|j: int| 0 <= j < s2.len() && s2[j] == x;
            lemma_lr0_state_in(g, s2, t2, s1, t1, j);
        }
    }
    assert(s1.to_set() =~= s2.to_set());
    s1.unique_seq_to_set();
    s2.unique_seq_to_set();
}

/// Any two canonical LR(1) collections of `g` hold the same item sets, each
/// once: they differ at most in how the states are numbered.
pub proof fn lemma_lr1_collections_agree(
    g: &ContextFreeGrammar,
    calc: &LookaheadCalculator,
    s1: Seq<Set<LR1Item>>,
    t1: Seq<(usize, Symbol, usize)>,
    s2: Seq<Set<LR1Item>>,
    t2: Seq<(usize, Symbol, usize)>,
)
    requires
        is_lr1_collection(g, calc, s1, t1),
        is_lr1_collection(g, calc, s2, t2),
    ensures
        s1.to_set() == s2.to_set(),
        s1.len() == s2.len(),
{
    assert forall|x: Set<LR1Item>| s1.to_set().contains(x) <==> s2.to_set().contains(x) by {
        if s1.contains(x) {
            let j = choose|j: int| 0 <= j < s1.len() && s1[j] == x;
            lemma_lr1_state_in(g, calc, s1, t1, s2, t2, j);
        }
        if s2.contains(x) {
            let j = choose|j: int| 0 <= j < s2.len() && s2[j] == x;
            lemma_lr1_state_in(g, calc, s2, t2, s1, t1, j);
        }
    }
    assert(s1.to_set() =~= s2.to_set());
    s1.unique_seq_to_set();
    s2.unique_seq_to_set();
}

} // verus!
