//! Validation of grammars against the LR classes.
use vstd::prelude::*;
use crate::analysis::{
    flags, flags2, is_first_sets, is_follow_sets, is_nullable_set, FirstSetCalculator, FollowSetCalculator,
};
use crate::cfg::{ContextFreeGrammar, NonTerminalId, Symbol, TerminalId};
use crate::lr::action::ProductionId;
use crate::lr::augmented::{augments, lemma_augments_same, AugmentedGrammar};
use crate::lr::conflict::{rr, sr, Conflict, ConflictKind};
use crate::lr::error::{LRValidationError, LRValidationReport};
use crate::lr::goto::ItemSetId;
use crate::lr::grammar_type::LRGrammarType;
use crate::lr::item::LR0Item;
use crate::lr::lookahead::{contains_terminal, insert_terminal};
use crate::lr::states::{is_lr0_collection, LR0ItemSetCollection};
use crate::lr::table::{
    complete_in, lalr1_table_of, lr1_table_of, next_in, slr_table_of, LALR1TableBuilder, LR1TableBuilder,
    SLRTableBuilder,
};

verus! {

/// The productions of the completed items of a state, the accepting one left out.
pub open spec fn lr0_reduce_prods(g: &ContextFreeGrammar, items: Seq<LR0Item>) -> Seq<usize>
    decreases items.len(),
{
    if items.len() == 0 {
        Seq::empty()
    } else {
        let prev = lr0_reduce_prods(g, items.drop_last());
        let it = items.last();
        if complete_in(g, it.production_index, it.dot_position) && it.production_index != 0 {
            prev.push(it.production_index)
        } else {
            prev
        }
    }
}

/// The distinct terminals that follow the dot in the items of a state.
pub open spec fn lr0_shift_terms(g: &ContextFreeGrammar, items: Seq<LR0Item>) -> Seq<TerminalId>
    decreases items.len(),
{
    if items.len() == 0 {
        Seq::empty()
    } else {
        let prev = lr0_shift_terms(g, items.drop_last());
        let it = items.last();
        if !complete_in(g, it.production_index, it.dot_position) && next_in(
            g,
            it.production_index,
            it.dot_position,
        ) is Some && next_in(g, it.production_index, it.dot_position)->0 is Terminal && !prev.contains(
            next_in(g, it.production_index, it.dot_position)->0->Terminal_0,
        ) {
            prev.push(next_in(g, it.production_index, it.dot_position)->0->Terminal_0)
        } else {
            prev
        }
    }
}

/// The reduce/reduce conflicts between reduction `p` and the later ones.
pub open spec fn rr_with(p: usize, later: Seq<usize>) -> Seq<Conflict> {
    later.map_values(|q: usize| rr(ItemSetId(0), TerminalId(0), ProductionId(p), ProductionId(q)))
}

/// The reduce/reduce conflicts between every two of the first `i` reductions and later ones.
pub open spec fn rr_pairs(prods: Seq<usize>, i: nat) -> Seq<Conflict>
    decreases i,
{
    if i == 0 || i > prods.len() {
        Seq::empty()
    } else {
        rr_pairs(prods, (i - 1) as nat) + rr_with(prods[i - 1], prods.skip(i as int))
    }
}

/// The shift/reduce conflicts of shift terminal `t` against every reduction.
pub open spec fn sr_with(t: TerminalId, prods: Seq<usize>) -> Seq<Conflict> {
    prods.map_values(|p: usize| sr(ItemSetId(0), t, ItemSetId(0), ProductionId(p)))
}

/// The shift/reduce conflicts of the first `i` shift terminals.
pub open spec fn sr_pairs(terms: Seq<TerminalId>, prods: Seq<usize>, i: nat) -> Seq<Conflict>
    decreases i,
{
    if i == 0 || i > terms.len() {
        Seq::empty()
    } else {
        sr_pairs(terms, prods, (i - 1) as nat) + sr_with(terms[i - 1], prods)
    }
}

/// The conflicts the LR(0) check finds in a state (numbered 0): two completed items,
/// or a completed item beside a terminal shift.
pub open spec fn lr0_check_conflicts(g: &ContextFreeGrammar, items: Seq<LR0Item>) -> Seq<Conflict> {
    let prods = lr0_reduce_prods(g, items);
    let terms = lr0_shift_terms(g, items);
    rr_pairs(prods, prods.len()) + sr_pairs(terms, prods, terms.len())
}

/// One shift/reduce validation error per conflict the LR(0) check finds, for each state in order.
pub open spec fn lr0_validation_errors(g: &ContextFreeGrammar, lists: Seq<Seq<LR0Item>>) -> Seq<LRValidationError>
    decreases lists.len(),
{
    if lists.len() == 0 {
        Seq::empty()
    } else {
        let n = lists.len() - 1;
        lr0_validation_errors(g, lists.drop_last()) + Seq::new(
            lr0_check_conflicts(g, lists.last()).len(),
            |k: int| LRValidationError::ShiftReduceConflict { state: ItemSetId(n as usize), terminal: TerminalId(0) },
        )
    }
}

/// The validation error a table conflict is reported as.
pub open spec fn conflict_error(c: Conflict) -> LRValidationError {
    match c.kind {
        ConflictKind::ShiftReduce { terminal, .. } => LRValidationError::ShiftReduceConflict {
            state: c.state,
            terminal,
        },
        ConflictKind::ReduceReduce { terminal, .. } => LRValidationError::ReduceReduceConflict {
            state: c.state,
            terminal,
        },
    }
}

/// `r` reports exactly the conflicts `cs`: one error each, in order; valid and of class
/// `class` when there is none, otherwise not LR.
pub open spec fn reports_conflicts(r: &LRValidationReport, cs: Seq<Conflict>, class: LRGrammarType) -> bool {
    &&& r.errors@ == cs.map_values(|c: Conflict| conflict_error(c))
    &&& r.is_valid == (cs.len() == 0)
    &&& r.warnings@.len() == 0
    &&& r.grammar_type == (if cs.len() == 0 {
        class
    } else {
        LRGrammarType::NotLR
    })
}

/// Augments a copy of `cfg`.
fn augment_copy(cfg: &ContextFreeGrammar) -> (res: AugmentedGrammar)
    requires
        cfg.wf(),
        cfg.non_terminals.len() + 1 < usize::MAX,
    ensures
        augments(cfg, &res),
{
    let copy = cfg.clone();
    let ghost c = copy;
    let res = AugmentedGrammar::new(copy);
    proof {
        lemma_augments_same(cfg, &c, &res);
    }
    res
}

/// A report of the given table conflicts.
fn report_conflicts(conflicts: &Vec<Conflict>, class: LRGrammarType) -> (res: LRValidationReport)
    ensures
        reports_conflicts(&res, conflicts@, class),
{
    let mut report = LRValidationReport::new();
    let mut i: usize = 0;
    while i < conflicts.len()
        invariant
            i <= conflicts@.len(),
            report.errors@ == conflicts@.take(i as int).map_values(|c: Conflict| conflict_error(c)),
            report.is_valid == (i == 0),
            report.warnings@.len() == 0,
            report.grammar_type == LRGrammarType::Unknown,
        decreases conflicts@.len() - i,
    {
        let c = conflicts[i];
        let e = match c.kind {
            ConflictKind::ShiftReduce { terminal, .. } => LRValidationError::ShiftReduceConflict {
                state: c.state,
                terminal,
            },
            ConflictKind::ReduceReduce { terminal, .. } => LRValidationError::ReduceReduceConflict {
                state: c.state,
                terminal,
            },
        };
        report.add_error(e);
        assert(conflicts@.take(i + 1) =~= conflicts@.take(i as int).push(c));
        i = i + 1;
    }
    assert(conflicts@.take(conflicts@.len() as int) =~= conflicts@);
    if conflicts.len() == 0 {
        report.grammar_type = class;
    } else {
        report.grammar_type = LRGrammarType::NotLR;
    }
    report
}

/// Validation against LR(0).
pub struct LR0Validator;

impl LR0Validator {
    /// Builds the LR(0) states of the augmented grammar and reports one shift/reduce
    /// error per conflict the LR(0) check finds in each state; the grammar is LR(0)
    /// exactly when there is none.
    pub fn validate(cfg: &ContextFreeGrammar) -> (res: LRValidationReport)
        requires
            cfg.wf(),
            cfg.non_terminals.len() + 1 < usize::MAX,
        ensures
            exists|a: AugmentedGrammar, c: LR0ItemSetCollection|
                augments(cfg, &a) && is_lr0_collection(&a.spec_grammar(), c.spec_states(), c.spec_transitions())
                    && res.errors@ == lr0_validation_errors(&a.spec_grammar(), c.state_items()),
            res.is_valid == (res.errors@.len() == 0),
            res.warnings@.len() == 0,
            res.grammar_type == (if res.is_valid {
                LRGrammarType::LR0
            } else {
                LRGrammarType::NotLR
            }),
    {
        let mut report = LRValidationReport::new();
        let augmented = augment_copy(cfg);
        let collection = Self::build_lr0_states(&augmented);
        let ghost g = augmented.spec_grammar();
        let ghost lists = collection.state_items();
        proof {
            collection.lemma_state_items();
        }
        let states = collection.states();
        let mut state_id: usize = 0;
        while state_id < states.len()
            invariant
                states@.len() == lists.len(),
                forall|i: int| 0 <= i < lists.len() ==> #[trigger] states@[i].item_list() == lists[i],
                g == augmented.spec_grammar(),
                state_id <= states@.len(),
                report.errors@ == lr0_validation_errors(&g, lists.take(state_id as int)),
                report.is_valid == (report.errors@.len() == 0),
                report.warnings@.len() == 0,
                report.grammar_type == LRGrammarType::Unknown,
            decreases states@.len() - state_id,
        {
            let items = states[state_id].items();
            let conflicts = Self::detect_lr0_conflicts(items, &augmented);
            let ghost before = report.errors@;
            let mut k: usize = 0;
            while k < conflicts.len()
                invariant
                    k <= conflicts@.len(),
                    report.errors@ == before + Seq::new(
                        k as nat,
                        |j: int| LRValidationError::ShiftReduceConflict {
                            state: ItemSetId(state_id),
                            terminal: TerminalId(0),
                        },
                    ),
                    report.is_valid == (report.errors@.len() == 0),
                    report.warnings@.len() == 0,
                    report.grammar_type == LRGrammarType::Unknown,
                decreases conflicts@.len() - k,
            {
                report.add_error(LRValidationError::ShiftReduceConflict { state: ItemSetId(state_id), terminal: TerminalId(0) });
                assert(report.errors@ =~= before + Seq::new(
                    (k + 1) as nat,
                    |j: int| LRValidationError::ShiftReduceConflict { state: ItemSetId(state_id), terminal: TerminalId(0) },
                ));
                k = k + 1;
            }
            proof {
                let t = lists.take(state_id + 1);
                assert(t.drop_last() =~= lists.take(state_id as int));
                assert(t.last() == lists[state_id as int]);
                assert(report.errors@ =~= lr0_validation_errors(&g, t));
            }
            state_id = state_id + 1;
        }
        assert(lists.take(states@.len() as int) =~= lists);
        report.grammar_type = if report.is_valid {
            LRGrammarType::LR0
        } else {
            LRGrammarType::NotLR
        };
        report
    }

    /// The canonical LR(0) collection of the augmented grammar.
    fn build_lr0_states(augmented: &AugmentedGrammar) -> (res: LR0ItemSetCollection)
        ensures
            is_lr0_collection(&augmented.spec_grammar(), res.spec_states(), res.spec_transitions()),
    {
        LR0ItemSetCollection::build_from_augmented(augmented)
    }

    /// The conflicts the LR(0) check finds in one state: every two completed items
    /// (the accepting one left out), and every terminal shift beside a completed item.
    fn detect_lr0_conflicts(state: &Vec<LR0Item>, augmented: &AugmentedGrammar) -> (res: Vec<Conflict>)
        ensures
            res@ == lr0_check_conflicts(&augmented.spec_grammar(), state@),
    {
        let cfg = augmented.grammar();
        let ghost g = *cfg;
        let mut shift_terminals: Vec<TerminalId> = Vec::new();
        let mut reduce_productions: Vec<usize> = Vec::new();
        let mut i: usize = 0;
        while i < state.len()
            invariant
                i <= state@.len(),
                g == augmented.spec_grammar(),
                *cfg == g,
                reduce_productions@ == lr0_reduce_prods(&g, state@.take(i as int)),
                shift_terminals@ == lr0_shift_terms(&g, state@.take(i as int)),
                shift_terminals@.no_duplicates(),
            decreases state@.len() - i,
        {
            let item = state[i];
            let ghost t = state@.take(i + 1);
            assert(t.drop_last() =~= state@.take(i as int));
            assert(t.last() == item);
            if item.production_index < cfg.productions.len() {
                let production = &cfg.productions[item.production_index];
                if item.is_complete(production) {
                    if !augmented.is_accepting_production(item.production_index) {
                        reduce_productions.push(item.production_index);
                    }
                } else {
                    match item.next_symbol(production) {
                        Some(Symbol::Terminal(term_id)) => {
                            insert_terminal(&mut shift_terminals, term_id);
                        },
                        _ => {},
                    }
                }
            }
            i = i + 1;
        }
        assert(state@.take(state@.len() as int) =~= state@);
        let ghost prods = reduce_productions@;
        let ghost terms = shift_terminals@;
        let mut conflicts: Vec<Conflict> = Vec::new();
        if reduce_productions.len() > 1 {
            let mut a: usize = 0;
            while a < reduce_productions.len()
                invariant
                    a <= prods.len(),
                    reduce_productions@ == prods,
                    conflicts@ == rr_pairs(prods, a as nat),
                decreases prods.len() - a,
            {
                let ghost before = conflicts@;
                let mut b: usize = a + 1;
                while b < reduce_productions.len()
                    invariant
                        a < prods.len(),
                        a + 1 <= b <= prods.len(),
                        reduce_productions@ == prods,
                        conflicts@ == before + prods.subrange(a + 1, b as int).map_values(
                            |q: usize| rr(ItemSetId(0), TerminalId(0), ProductionId(prods[a as int]), ProductionId(q)),
                        ),
                    decreases prods.len() - b,
                {
                    conflicts.push(
                        Conflict::reduce_reduce(
                            ItemSetId(0),
                            TerminalId(0),
                            ProductionId(reduce_productions[a]),
                            ProductionId(reduce_productions[b]),
                        ),
                    );
                    assert(prods.subrange(a + 1, b + 1) =~= prods.subrange(a + 1, b as int).push(prods[b as int]));
                    b = b + 1;
                }
                assert(prods.subrange(a + 1, prods.len() as int) =~= prods.skip(a + 1));
                a = a + 1;
            }
        } else {
            assert(rr_pairs(prods, prods.len()) =~= Seq::<Conflict>::empty()) by {
                if prods.len() == 1 {
                    assert(rr_pairs(prods, 0) =~= Seq::<Conflict>::empty());
                    assert(prods.skip(1) =~= Seq::<usize>::empty());
                }
            }
        }
        let ghost rr_part = conflicts@;
        assert(rr_part == rr_pairs(prods, prods.len()));
        if shift_terminals.len() > 0 && reduce_productions.len() > 0 {
            let mut a: usize = 0;
            while a < shift_terminals.len()
                invariant
                    a <= terms.len(),
                    shift_terminals@ == terms,
                    reduce_productions@ == prods,
                    conflicts@ == rr_part + sr_pairs(terms, prods, a as nat),
                decreases terms.len() - a,
            {
                let ghost before = conflicts@;
                let term_id = shift_terminals[a];
                let mut b: usize = 0;
                while b < reduce_productions.len()
                    invariant
                        a < terms.len(),
                        b <= prods.len(),
                        term_id == terms[a as int],
                        reduce_productions@ == prods,
                        conflicts@ == before + prods.take(b as int).map_values(
                            |p: usize| sr(ItemSetId(0), term_id, ItemSetId(0), ProductionId(p)),
                        ),
                    decreases prods.len() - b,
                {
                    conflicts.push(
                        Conflict::shift_reduce(ItemSetId(0), term_id, ItemSetId(0), ProductionId(reduce_productions[b])),
                    );
                    assert(prods.take(b + 1) =~= prods.take(b as int).push(prods[b as int]));
                    b = b + 1;
                }
                assert(prods.take(prods.len() as int) =~= prods);
                assert(rr_part + sr_pairs(terms, prods, (a + 1) as nat) =~= before + sr_with(term_id, prods));
                a = a + 1;
            }
        } else {
            assert(sr_pairs(terms, prods, terms.len()) =~= Seq::<Conflict>::empty()) by {
                if terms.len() > 0 {
                    lemma_sr_pairs_no_prods(terms, prods, terms.len());
                }
            }
            assert(conflicts@ =~= rr_part + sr_pairs(terms, prods, terms.len()));
        }
        conflicts
    }
}

/// With no reductions there is no shift/reduce conflict.
proof fn lemma_sr_pairs_no_prods(terms: Seq<TerminalId>, prods: Seq<usize>, i: nat)
    requires
        prods.len() == 0,
    ensures
        sr_pairs(terms, prods, i) =~= Seq::<Conflict>::empty(),
    decreases i,
{
    if i > 0 && i <= terms.len() {
        lemma_sr_pairs_no_prods(terms, prods, (i - 1) as nat);
        assert(sr_with(terms[i - 1], prods) =~= Seq::<Conflict>::empty());
    }
}

/// Validation against SLR(1).
pub struct SLR1Validator;

/// The completed items of a state give the left-hand sides to reduce to, in order.
pub open spec fn reduce_lhs(g: &ContextFreeGrammar, items: Seq<LR0Item>) -> Seq<NonTerminalId>
    decreases items.len(),
{
    if items.len() == 0 {
        Seq::empty()
    } else {
        let prev = reduce_lhs(g, items.drop_last());
        let it = items.last();
        if complete_in(g, it.production_index, it.dot_position) {
            prev.push(g.productions@[it.production_index as int].lhs)
        } else {
            prev
        }
    }
}

/// The FOLLOW sets (given as a relation) separate the shifts and the reductions of a
/// state: no FOLLOW set of a reduction holds a shift terminal, and no two reductions
/// have FOLLOW sets in common.
pub open spec fn follow_separates(
    fo: spec_fn(int, int) -> bool,
    lhs: Seq<NonTerminalId>,
    terms: Seq<TerminalId>,
) -> bool {
    &&& forall|i: int, k: int|
        0 <= i < lhs.len() && 0 <= k < terms.len() ==> !fo(#[trigger] lhs[i].0 as int, #[trigger] terms[k].0 as int)
    &&& forall|i: int, j: int, t: int|
        0 <= i < j < lhs.len() ==> !(#[trigger] fo(lhs[i].0 as int, t) && #[trigger] fo(lhs[j].0 as int, t))
}

impl SLR1Validator {
    /// Builds the SLR(1) table of the augmented grammar and reports each of its
    /// conflicts; the grammar is SLR(1) exactly when there is none.
    pub fn validate(cfg: &ContextFreeGrammar) -> (res: LRValidationReport)
        requires
            cfg.wf(),
            cfg.non_terminals.len() + 1 < usize::MAX,
        ensures
            exists|a: AugmentedGrammar, t: crate::lr::table::SLRTable|
                augments(cfg, &a) && slr_table_of(&a.spec_grammar(), &t) && reports_conflicts(
                    &res,
                    t.conflicts@,
                    LRGrammarType::SLR1,
                ),
    {
        let augmented = augment_copy(cfg);
        let table = SLRTableBuilder::build(&augmented);
        report_conflicts(&table.conflicts, LRGrammarType::SLR1)
    }

    /// Whether the FOLLOW sets of `cfg` separate the shifts and reductions of `state`
    /// (see `follow_separates`).
    pub fn can_resolve_with_follow(state: &Vec<LR0Item>, cfg: &ContextFreeGrammar) -> (res: bool)
        requires
            cfg.wf(),
        ensures
            exists|nullable: Seq<bool>, first: Seq<Vec<bool>>, follow: Seq<Vec<bool>>|
                is_nullable_set(cfg, nullable) && is_first_sets(cfg, flags(nullable), first) && is_follow_sets(
                    cfg,
                    flags(nullable),
                    flags2(first),
                    follow,
                ) && res == follow_separates(flags2(follow), reduce_lhs(cfg, state@), lr0_shift_terms(cfg, state@)),
    {
        let nullable = FirstSetCalculator::compute_nullable(cfg);
        let first_sets = FirstSetCalculator::compute_with_nullable(cfg, &nullable);
        let follow_sets = FollowSetCalculator::compute(cfg, &first_sets, &nullable);
        let ghost fo = flags2(follow_sets.table@);
        assert(is_nullable_set(cfg, nullable@) && is_first_sets(cfg, flags(nullable@), first_sets.table@)
            && is_follow_sets(cfg, flags(nullable@), flags2(first_sets.table@), follow_sets.table@));
        let mut shift_terminals: Vec<TerminalId> = Vec::new();
        let mut reduce_follows: Vec<NonTerminalId> = Vec::new();
        let mut i: usize = 0;
        while i < state.len()
            invariant
                cfg.wf(),
                i <= state@.len(),
                reduce_follows@ == reduce_lhs(cfg, state@.take(i as int)),
                shift_terminals@ == lr0_shift_terms(cfg, state@.take(i as int)),
                shift_terminals@.no_duplicates(),
            decreases state@.len() - i,
        {
            let item = state[i];
            let ghost t = state@.take(i + 1);
            assert(t.drop_last() =~= state@.take(i as int));
            assert(t.last() == item);
            if item.production_index < cfg.productions.len() {
                let production = &cfg.productions[item.production_index];
                if item.is_complete(production) {
                    reduce_follows.push(production.lhs);
                } else {
                    match item.next_symbol(production) {
                        Some(Symbol::Terminal(term_id)) => {
                            insert_terminal(&mut shift_terminals, term_id);
                        },
                        _ => {},
                    }
                }
            }
            i = i + 1;
        }
        assert(state@.take(state@.len() as int) =~= state@);
        let ghost lhs = reduce_follows@;
        let ghost terms = shift_terminals@;
        let mut a: usize = 0;
        while a < reduce_follows.len()
            invariant
                a <= lhs.len(),
                reduce_follows@ == lhs,
                shift_terminals@ == terms,
                fo == flags2(follow_sets.table@),
                is_nullable_set(cfg, nullable@) && is_first_sets(cfg, flags(nullable@), first_sets.table@)
                    && is_follow_sets(cfg, flags(nullable@), flags2(first_sets.table@), follow_sets.table@),
                lhs == reduce_lhs(cfg, state@),
                terms == lr0_shift_terms(cfg, state@),
                forall|i: int, k: int|
                    0 <= i < a && 0 <= k < terms.len() ==> !fo(#[trigger] lhs[i].0 as int, #[trigger] terms[k].0 as int),
            decreases lhs.len() - a,
        {
            let mut k: usize = 0;
            while k < shift_terminals.len()
                invariant
                    a < lhs.len(),
                    k <= terms.len(),
                    reduce_follows@ == lhs,
                    shift_terminals@ == terms,
                    fo == flags2(follow_sets.table@),
                    is_nullable_set(cfg, nullable@) && is_first_sets(cfg, flags(nullable@), first_sets.table@)
                        && is_follow_sets(cfg, flags(nullable@), flags2(first_sets.table@), follow_sets.table@),
                    lhs == reduce_lhs(cfg, state@),
                    terms == lr0_shift_terms(cfg, state@),
                is_nullable_set(cfg, nullable@) && is_first_sets(cfg, flags(nullable@), first_sets.table@)
                    && is_follow_sets(cfg, flags(nullable@), flags2(first_sets.table@), follow_sets.table@),
                lhs == reduce_lhs(cfg, state@),
                terms == lr0_shift_terms(cfg, state@),
                    forall|i: int, k2: int|
                        0 <= i < a && 0 <= k2 < terms.len() ==> !fo(#[trigger] lhs[i].0 as int, #[trigger] terms[k2].0 as int),
                    forall|k2: int| 0 <= k2 < k ==> !fo(lhs[a as int].0 as int, #[trigger] terms[k2].0 as int),
                decreases terms.len() - k,
            {
                if follow_sets.contains(reduce_follows[a], shift_terminals[k]) {
                    assert(fo(lhs[a as int].0 as int, terms[k as int].0 as int));
                    assert(!follow_separates(fo, lhs, terms));
                    return false;
                }
                k = k + 1;
            }
            a = a + 1;
        }
        let width = cfg.terminals.len() + 1;
        let mut a: usize = 0;
        while a < reduce_follows.len()
            invariant
                a <= lhs.len(),
                reduce_follows@ == lhs,
                shift_terminals@ == terms,
                fo == flags2(follow_sets.table@),
                is_nullable_set(cfg, nullable@) && is_first_sets(cfg, flags(nullable@), first_sets.table@)
                    && is_follow_sets(cfg, flags(nullable@), flags2(first_sets.table@), follow_sets.table@),
                lhs == reduce_lhs(cfg, state@),
                terms == lr0_shift_terms(cfg, state@),
                forall|i: int, k: int|
                    0 <= i < lhs.len() && 0 <= k < terms.len() ==> !fo(#[trigger] lhs[i].0 as int, #[trigger] terms[k].0 as int),
                forall|i: int, j: int, t: int|
                    0 <= i < a && i < j < lhs.len() ==> !(#[trigger] fo(lhs[i].0 as int, t) && #[trigger] fo(lhs[j].0 as int, t)),
            decreases lhs.len() - a,
        {
            let mut b: usize = a + 1;
            while b < reduce_follows.len()
                invariant
                    a < lhs.len(),
                    a + 1 <= b <= lhs.len(),
                    reduce_follows@ == lhs,
                    shift_terminals@ == terms,
                    fo == flags2(follow_sets.table@),
                    is_nullable_set(cfg, nullable@) && is_first_sets(cfg, flags(nullable@), first_sets.table@)
                        && is_follow_sets(cfg, flags(nullable@), flags2(first_sets.table@), follow_sets.table@),
                    lhs == reduce_lhs(cfg, state@),
                    terms == lr0_shift_terms(cfg, state@),
                is_nullable_set(cfg, nullable@) && is_first_sets(cfg, flags(nullable@), first_sets.table@)
                    && is_follow_sets(cfg, flags(nullable@), flags2(first_sets.table@), follow_sets.table@),
                lhs == reduce_lhs(cfg, state@),
                terms == lr0_shift_terms(cfg, state@),
                    forall|i: int, k: int|
                        0 <= i < lhs.len() && 0 <= k < terms.len() ==> !fo(#[trigger] lhs[i].0 as int, #[trigger] terms[k].0 as int),
                    forall|i: int, j: int, t: int|
                        0 <= i < a && i < j < lhs.len() ==> !(#[trigger] fo(lhs[i].0 as int, t) && #[trigger] fo(lhs[j].0 as int, t)),
                    forall|j: int, t: int|
                        a < j < b ==> !(fo(lhs[a as int].0 as int, t) && #[trigger] fo(lhs[j].0 as int, t)),
                decreases lhs.len() - b,
            {
                if Self::follows_meet(&follow_sets, reduce_follows[a], reduce_follows[b]) {
                    let ghost t = choose|t: int| #[trigger] fo(lhs[a as int].0 as int, t) && #[trigger] fo(lhs[b as int].0 as int, t);
                    assert(fo(lhs[a as int].0 as int, t) && fo(lhs[b as int].0 as int, t));
                    assert(!follow_separates(fo, lhs, terms));
                    return false;
                }
                b = b + 1;
            }
            a = a + 1;
        }
        true
    }

    /// Whether the FOLLOW sets of `x` and `y` have a terminal (or the end marker) in common.
    fn follows_meet(follow: &crate::analysis::FollowSet, x: NonTerminalId, y: NonTerminalId) -> (res: bool)
        ensures
            res == exists|t: int| #[trigger] flags2(follow.table@)(x.0 as int, t) && #[trigger] flags2(follow.table@)(y.0 as int, t),
    {
        if x.0 >= follow.table.len() || y.0 >= follow.table.len() {
            return false;
        }
        let rx = &follow.table[x.0];
        let ry = &follow.table[y.0];
        let mut t: usize = 0;
        while t < rx.len()
            invariant
                t <= rx@.len(),
                *rx == follow.table@[x.0 as int],
                *ry == follow.table@[y.0 as int],
                x.0 < follow.table@.len(),
                y.0 < follow.table@.len(),
                forall|u: int| 0 <= u < t ==> !(#[trigger] flags2(follow.table@)(x.0 as int, u) && #[trigger] flags2(follow.table@)(y.0 as int, u)),
            decreases rx@.len() - t,
        {
            if t < ry.len() && rx[t] && ry[t] {
                assert(flags2(follow.table@)(x.0 as int, t as int) && flags2(follow.table@)(y.0 as int, t as int));
                return true;
            }
            t = t + 1;
        }
        false
    }
}

/// Validation against LR(1).
pub struct LR1Validator;

impl LR1Validator {
    /// Builds the canonical LR(1) table of the augmented grammar and reports each of
    /// its conflicts; the grammar is LR(1) exactly when there is none.
    pub fn validate(cfg: &ContextFreeGrammar) -> (res: LRValidationReport)
        requires
            cfg.wf(),
            cfg.non_terminals.len() + 1 < usize::MAX,
        ensures
            exists|a: AugmentedGrammar, t: crate::lr::table::LR1Table|
                augments(cfg, &a) && lr1_table_of(&a.spec_grammar(), &t) && reports_conflicts(
                    &res,
                    t.conflicts@,
                    LRGrammarType::LR1,
                ),
    {
        let augmented = augment_copy(cfg);
        let table = LR1TableBuilder::build(&augmented);
        report_conflicts(&table.conflicts, LRGrammarType::LR1)
    }
}

/// Validation against LALR(1).
pub struct LALR1Validator;

impl LALR1Validator {
    /// Builds the LALR(1) table of the augmented grammar and reports each of its
    /// conflicts; the grammar is LALR(1) exactly when there is none.
    pub fn validate(cfg: &ContextFreeGrammar) -> (res: LRValidationReport)
        requires
            cfg.wf(),
            cfg.non_terminals.len() + 1 < usize::MAX,
        ensures
            exists|a: AugmentedGrammar, t: crate::lr::table::LALR1Table|
                augments(cfg, &a) && lalr1_table_of(&a.spec_grammar(), &t) && reports_conflicts(
                    &res,
                    t.conflicts@,
                    LRGrammarType::LALR1,
                ),
    {
        let augmented = augment_copy(cfg);
        let table = LALR1TableBuilder::build(&augmented);
        report_conflicts(&table.conflicts, LRGrammarType::LALR1)
    }
}

} // verus!
