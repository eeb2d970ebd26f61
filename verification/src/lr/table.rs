//! LR(0), SLR(1), LR(1) and LALR(1) parsing tables and their construction.
use vstd::prelude::*;
use crate::cfg::{ContextFreeGrammar, NonTerminalId, Symbol, TerminalId};
use crate::lr::action::{Action, ActionTable, ProductionId};
use crate::lr::augmented::AugmentedGrammar;
use crate::lr::conflict::{Conflict, ConflictReport, rr, sr};
use crate::lr::goto::{GotoTable, ItemSetId};
use crate::lr::item::{LR0Item, LR1Item, spec_item_complete, spec_next_symbol};
use crate::lr::states::{LR0ItemSetCollection, LR1ItemSetCollection, target};
use crate::lr::lookahead::LookaheadCalculator;
use crate::lr::core_set::CoreSetMerger;
use crate::lr::item_set::LR1ItemSet;

verus! {

/// A grammar class, as decided by a table construction.
#[derive(Debug, Clone, Copy, PartialEq, Eq, Structural)]
pub enum GrammarType {
    LR0,
    SLR1,
    LR1,
    LALR1,
    NotLR,
    Unknown,
}

/// The printed name of a grammar class.
pub open spec fn grammar_type_text(t: GrammarType) -> Seq<char> {
    match t {
        GrammarType::LR0 => seq!['L', 'R', '(', '0', ')'],
        GrammarType::SLR1 => seq!['S', 'L', 'R', '(', '1', ')'],
        GrammarType::LR1 => seq!['L', 'R', '(', '1', ')'],
        GrammarType::LALR1 => seq!['L', 'A', 'L', 'R', '(', '1', ')'],
        GrammarType::NotLR => seq!['N', 'o', 't', ' ', 'L', 'R'],
        GrammarType::Unknown => seq!['U', 'n', 'k', 'n', 'o', 'w', 'n'],
    }
}

impl GrammarType {
    /// The printed name of the class.
    pub fn to_string(&self) -> (res: String)
        ensures
            res@ == grammar_type_text(*self),
    {
        let name: &str = match self {
            GrammarType::LR0 => {
                proof {
                    reveal_strlit("LR(0)");
                }
                "LR(0)"
            },
            GrammarType::SLR1 => {
                proof {
                    reveal_strlit("SLR(1)");
                }
                "SLR(1)"
            },
            GrammarType::LR1 => {
                proof {
                    reveal_strlit("LR(1)");
                }
                "LR(1)"
            },
            GrammarType::LALR1 => {
                proof {
                    reveal_strlit("LALR(1)");
                }
                "LALR(1)"
            },
            GrammarType::NotLR => {
                proof {
                    reveal_strlit("Not LR");
                }
                "Not LR"
            },
            GrammarType::Unknown => {
                proof {
                    reveal_strlit("Unknown");
                }
                "Unknown"
            },
        };
        let mut s = String::new();
        crate::text::push_str(&mut s, name);
        assert(s@ =~= grammar_type_text(*self));
        s
    }
}

/// A row of `n` error entries.
pub open spec fn error_row(n: nat) -> Seq<Action> {
    Seq::new(n, |i: int| Action::Error)
}

/// A row of `n` empty GOTO entries.
pub open spec fn empty_goto_row(n: nat) -> Seq<Option<ItemSetId>> {
    Seq::new(n, |i: int| None::<ItemSetId>)
}

/// The row obtained by performing the writes `(terminal, action)` in order.
pub open spec fn apply_writes(row: Seq<Action>, w: Seq<(usize, Action)>) -> Seq<Action>
    decreases w.len(),
{
    if w.len() == 0 {
        row
    } else {
        let r = apply_writes(row, w.drop_last());
        if w.last().0 < r.len() {
            r.update(w.last().0 as int, w.last().1)
        } else {
            r
        }
    }
}

/// The GOTO row obtained by performing the writes `(non-terminal, state)` in order.
pub open spec fn apply_gotos(row: Seq<Option<ItemSetId>>, w: Seq<(usize, ItemSetId)>) -> Seq<Option<ItemSetId>>
    decreases w.len(),
{
    if w.len() == 0 {
        row
    } else {
        let r = apply_gotos(row, w.drop_last());
        if w.last().0 < r.len() {
            r.update(w.last().0 as int, Some(w.last().1))
        } else {
            r
        }
    }
}

/// The item is complete for an existing production.
pub open spec fn complete_in(g: &ContextFreeGrammar, prod: usize, dot: usize) -> bool {
    prod < g.productions.len() && spec_item_complete(dot, g.rhs_of(prod as int))
}

/// The symbol after the dot, for an item of an existing production.
pub open spec fn next_in(g: &ContextFreeGrammar, prod: usize, dot: usize) -> Option<Symbol> {
    if prod < g.productions.len() {
        spec_next_symbol(dot, g.rhs_of(prod as int))
    } else {
        None
    }
}

/// The shift an item with terminal `t` after its dot contributes in state `s`.
pub open spec fn shift_write(trans: Seq<(usize, Symbol, usize)>, s: int, t: TerminalId) -> Seq<(usize, Action)> {
    match target(trans, s, Symbol::Terminal(t)) {
        Some(j) => seq![(t.0, Action::Shift(ItemSetId(j)))],
        None => Seq::empty(),
    }
}

/// The GOTO entry an item with non-terminal `n` after its dot contributes in state `s`.
pub open spec fn goto_write(trans: Seq<(usize, Symbol, usize)>, s: int, n: NonTerminalId) -> Seq<(usize, ItemSetId)> {
    match target(trans, s, Symbol::NonTerminal(n)) {
        Some(j) => seq![(n.0, ItemSetId(j))],
        None => Seq::empty(),
    }
}

/// The ACTION writes of one LR(0) item in state `s`: accept on `$` for the
/// completed start production, a reduction on every terminal and `$` for another
/// completed production, or a shift on the terminal after the dot.
pub open spec fn lr0_item_writes(g: &ContextFreeGrammar, trans: Seq<(usize, Symbol, usize)>, s: int, it: LR0Item) -> Seq<
    (usize, Action),
> {
    if complete_in(g, it.production_index, it.dot_position) {
        if it.production_index == 0 {
            seq![(g.terminals.len(), Action::Accept)]
        } else {
            reduce_everywhere(g.terminals.len() as nat, ProductionId(it.production_index))
        }
    } else {
        match next_in(g, it.production_index, it.dot_position) {
            Some(Symbol::Terminal(t)) => shift_write(trans, s, t),
            _ => Seq::empty(),
        }
    }
}

/// The GOTO writes of one item in state `s`: the GOTO on the non-terminal after the dot.
pub open spec fn item_goto_writes(g: &ContextFreeGrammar, trans: Seq<(usize, Symbol, usize)>, s: int, prod: usize, dot: usize) -> Seq<
    (usize, ItemSetId),
> {
    if complete_in(g, prod, dot) {
        Seq::empty()
    } else {
        match next_in(g, prod, dot) {
            Some(Symbol::NonTerminal(n)) => goto_write(trans, s, n),
            _ => Seq::empty(),
        }
    }
}

/// The ACTION writes of the LR(0) state `s`, item by item.
pub open spec fn lr0_state_writes(g: &ContextFreeGrammar, trans: Seq<(usize, Symbol, usize)>, s: int, items: Seq<LR0Item>) -> Seq<
    (usize, Action),
>
    decreases items.len(),
{
    if items.len() == 0 {
        Seq::empty()
    } else {
        lr0_state_writes(g, trans, s, items.drop_last()) + lr0_item_writes(g, trans, s, items.last())
    }
}

/// The GOTO writes of the LR(0) state `s`, item by item.
pub open spec fn lr0_goto_writes(g: &ContextFreeGrammar, trans: Seq<(usize, Symbol, usize)>, s: int, items: Seq<LR0Item>) -> Seq<
    (usize, ItemSetId),
>
    decreases items.len(),
{
    if items.len() == 0 {
        Seq::empty()
    } else {
        lr0_goto_writes(g, trans, s, items.drop_last()) + item_goto_writes(
            g,
            trans,
            s,
            items.last().production_index,
            items.last().dot_position,
        )
    }
}

/// Shift/reduce conflicts of state `s` on terminal `t` against the shift to `x`:
/// one per completed item, in item order.
pub open spec fn lr0_sr_items(g: &ContextFreeGrammar, s: int, t: int, x: ItemSetId, items: Seq<LR0Item>) -> Seq<
    Conflict,
>
    decreases items.len(),
{
    if items.len() == 0 {
        Seq::empty()
    } else {
        let it = items.last();
        lr0_sr_items(g, s, t, x, items.drop_last()) + if complete_in(g, it.production_index, it.dot_position) {
            seq![sr(ItemSetId(s as usize), TerminalId(t as usize), x, ProductionId(it.production_index))]
        } else {
            Seq::empty()
        }
    }
}

/// The conflicts the LR(0) construction reports for state `s`, terminal by
/// terminal (the first `n` terminals): a shift entry conflicts with every
/// completed item of the state.
pub open spec fn lr0_state_conflicts(g: &ContextFreeGrammar, s: int, row: Seq<Action>, items: Seq<LR0Item>, n: nat) -> Seq<
    Conflict,
>
    decreases n,
{
    if n == 0 {
        Seq::empty()
    } else {
        let t = n - 1;
        lr0_state_conflicts(g, s, row, items, (n - 1) as nat) + match row[t] {
            Action::Shift(x) => lr0_sr_items(g, s, t, x, items),
            _ => Seq::empty(),
        }
    }
}

/// The conflicts the LR(0) construction reports for the first `n` states.
pub open spec fn lr0_conflicts(g: &ContextFreeGrammar, cells: Seq<Seq<Action>>, lists: Seq<Seq<LR0Item>>, n: nat) -> Seq<
    Conflict,
>
    decreases n,
{
    if n == 0 {
        Seq::empty()
    } else {
        lr0_conflicts(g, cells, lists, (n - 1) as nat) + lr0_state_conflicts(
            g,
            n - 1,
            cells[n - 1],
            lists[n - 1],
            (g.terminals.len() + 1) as nat,
        )
    }
}

/// One more write.
proof fn lemma_apply_push(row: Seq<Action>, w: Seq<(usize, Action)>, x: (usize, Action))
    requires
        x.0 < row.len(),
    ensures
        apply_writes(row, w.push(x)) == apply_writes(row, w).update(x.0 as int, x.1),
{
    lemma_apply_len(row, w);
    assert(w.push(x).drop_last() =~= w);
}

/// One more GOTO write.
proof fn lemma_apply_gotos_push(row: Seq<Option<ItemSetId>>, w: Seq<(usize, ItemSetId)>, x: (usize, ItemSetId))
    requires
        x.0 < row.len(),
    ensures
        apply_gotos(row, w.push(x)) == apply_gotos(row, w).update(x.0 as int, Some(x.1)),
{
    lemma_apply_gotos_len(row, w);
    assert(w.push(x).drop_last() =~= w);
}

/// Writes stay in their row: the length does not change.
proof fn lemma_apply_len(row: Seq<Action>, w: Seq<(usize, Action)>)
    ensures
        apply_writes(row, w).len() == row.len(),
    decreases w.len(),
{
    if w.len() > 0 {
        lemma_apply_len(row, w.drop_last());
    }
}

/// GOTO writes stay in their row.
proof fn lemma_apply_gotos_len(row: Seq<Option<ItemSetId>>, w: Seq<(usize, ItemSetId)>)
    ensures
        apply_gotos(row, w).len() == row.len(),
    decreases w.len(),
{
    if w.len() > 0 {
        lemma_apply_gotos_len(row, w.drop_last());
    }
}

/// Writes in two batches are the writes of the concatenation.
proof fn lemma_apply_concat(row: Seq<Action>, a: Seq<(usize, Action)>, b: Seq<(usize, Action)>)
    ensures
        apply_writes(apply_writes(row, a), b) == apply_writes(row, a + b),
    decreases b.len(),
{
    if b.len() > 0 {
        lemma_apply_concat(row, a, b.drop_last());
        assert((a + b).drop_last() =~= a + b.drop_last());
    } else {
        assert(a + b =~= a);
    }
}

/// The writes `(t, Reduce(prod))` for every terminal `t` and `$`.
pub open spec fn reduce_everywhere(terminal_count: nat, prod: ProductionId) -> Seq<(usize, Action)> {
    Seq::new(terminal_count + 1, |t: int| (t as usize, Action::Reduce(prod)))
}

/// Sets a reduction by `prod` on every terminal and `$` of a state.
fn set_reduce_all(action: &mut ActionTable, state: ItemSetId, terminal_count: usize, prod: ProductionId)
    requires
        terminal_count < usize::MAX,
        old(action).shaped(old(action).cells().len()),
        state.0 < old(action).cells().len(),
        old(action).terminals() == terminal_count,
    ensures
        final(action).terminals() == old(action).terminals(),
        final(action).cells() == old(action).cells().update(
            state.0 as int,
            apply_writes(old(action).cells()[state.0 as int], reduce_everywhere(terminal_count as nat, prod)),
        ),
{
    let ghost cells0 = action.cells();
    let ghost w = reduce_everywhere(terminal_count as nat, prod);
    let mut t: usize = 0;
    assert(w.take(0) =~= Seq::<(usize, Action)>::empty());
    assert(cells0 =~= cells0.update(state.0 as int, apply_writes(cells0[state.0 as int], w.take(0))));
    while t <= terminal_count
        invariant
            t <= terminal_count + 1,
            terminal_count < usize::MAX,
            cells0[state.0 as int].len() == terminal_count + 1,
            state.0 < cells0.len(),
            action.terminals() == terminal_count,
            w == reduce_everywhere(terminal_count as nat, prod),
            action.cells() == cells0.update(state.0 as int, apply_writes(cells0[state.0 as int], w.take(t as int))),
        decreases terminal_count + 1 - t,
    {
        proof {
            assert(w.take(t + 1) =~= w.take(t as int).push(w[t as int]));
            lemma_apply_push(cells0[state.0 as int], w.take(t as int), w[t as int]);
        }
        action.set_reduce(state, TerminalId(t), prod);
        proof {
            assert(action.cells() =~= cells0.update(state.0 as int, apply_writes(cells0[state.0 as int], w.take(t + 1))));
        }
        t = t + 1;
    }
    assert(w.take((terminal_count + 1) as int) =~= w);
}

/// A parsing table of one of the four constructions.
#[derive(Debug)]
pub enum LRTable {
    LR0(LR0Table),
    SLR1(SLRTable),
    LR1(LR1Table),
    LALR1(LALR1Table),
}

impl LRTable {
    /// The ACTION table.
    pub open spec fn spec_action(&self) -> ActionTable {
        match self {
            LRTable::LR0(t) => t.action,
            LRTable::SLR1(t) => t.action,
            LRTable::LR1(t) => t.action,
            LRTable::LALR1(t) => t.action,
        }
    }

    /// The GOTO table.
    pub open spec fn spec_goto(&self) -> GotoTable {
        match self {
            LRTable::LR0(t) => t.goto,
            LRTable::SLR1(t) => t.goto,
            LRTable::LR1(t) => t.goto,
            LRTable::LALR1(t) => t.goto,
        }
    }

    /// The conflicts found by the construction.
    pub open spec fn spec_conflicts(&self) -> Seq<Conflict> {
        match self {
            LRTable::LR0(t) => t.conflicts@,
            LRTable::SLR1(t) => t.conflicts@,
            LRTable::LR1(t) => t.conflicts@,
            LRTable::LALR1(t) => t.conflicts@,
        }
    }

    /// The number of states.
    pub open spec fn spec_state_count(&self) -> usize {
        match self {
            LRTable::LR0(t) => t.state_count,
            LRTable::SLR1(t) => t.state_count,
            LRTable::LR1(t) => t.state_count,
            LRTable::LALR1(t) => t.state_count,
        }
    }

    pub fn action(&self) -> (res: &ActionTable)
        ensures
            *res == self.spec_action(),
    {
        match self {
            LRTable::LR0(t) => &t.action,
            LRTable::SLR1(t) => &t.action,
            LRTable::LR1(t) => &t.action,
            LRTable::LALR1(t) => &t.action,
        }
    }

    pub fn goto(&self) -> (res: &GotoTable)
        ensures
            *res == self.spec_goto(),
    {
        match self {
            LRTable::LR0(t) => &t.goto,
            LRTable::SLR1(t) => &t.goto,
            LRTable::LR1(t) => &t.goto,
            LRTable::LALR1(t) => &t.goto,
        }
    }

    pub fn has_conflicts(&self) -> (res: bool)
        ensures
            res == (self.spec_conflicts().len() > 0),
    {
        match self {
            LRTable::LR0(t) => t.has_conflicts(),
            LRTable::SLR1(t) => t.has_conflicts(),
            LRTable::LR1(t) => t.has_conflicts(),
            LRTable::LALR1(t) => t.has_conflicts(),
        }
    }

    pub fn state_count(&self) -> (res: usize)
        ensures
            res == self.spec_state_count(),
    {
        match self {
            LRTable::LR0(t) => t.state_count,
            LRTable::SLR1(t) => t.state_count,
            LRTable::LR1(t) => t.state_count,
            LRTable::LALR1(t) => t.state_count,
        }
    }

    /// The construction the table comes from.
    pub fn grammar_type(&self) -> (res: GrammarType)
        ensures
            res == (match self {
                LRTable::LR0(_) => GrammarType::LR0,
                LRTable::SLR1(_) => GrammarType::SLR1,
                LRTable::LR1(_) => GrammarType::LR1,
                LRTable::LALR1(_) => GrammarType::LALR1,
            }),
    {
        match self {
            LRTable::LR0(_) => GrammarType::LR0,
            LRTable::SLR1(_) => GrammarType::SLR1,
            LRTable::LR1(_) => GrammarType::LR1,
            LRTable::LALR1(_) => GrammarType::LALR1,
        }
    }
}

/// The LR(0) parsing table.
#[derive(Debug)]
pub struct LR0Table {
    pub action: ActionTable,
    pub goto: GotoTable,
    pub state_count: usize,
    pub terminal_count: usize,
    pub non_terminal_count: usize,
    pub conflicts: Vec<Conflict>,
}

/// The ACTION and GOTO tables have `states` rows over `terminals` terminals and
/// `non_terminals` non-terminals.
pub open spec fn tables_shaped(action: &ActionTable, goto: &GotoTable, states: nat, terminals: nat, non_terminals: nat) -> bool {
    &&& action.shaped(states)
    &&& action.terminals() == terminals
    &&& goto.rows().len() == states
    &&& goto.columns() == non_terminals
    &&& forall|s: int| 0 <= s < states ==> (#[trigger] goto.rows()[s]).len() == non_terminals
}

impl LR0Table {
    /// An empty table: every ACTION entry `Error`, every GOTO entry empty, no conflicts.
    pub fn new(state_count: usize, terminal_count: usize, non_terminal_count: usize) -> (res: Self)
        requires
            terminal_count < usize::MAX,
        ensures
            res.state_count == state_count,
            res.terminal_count == terminal_count,
            res.non_terminal_count == non_terminal_count,
            res.conflicts@.len() == 0,
            tables_shaped(&res.action, &res.goto, state_count as nat, terminal_count as nat, non_terminal_count as nat),
            forall|s: int| 0 <= s < state_count ==> #[trigger] res.action.cells()[s] == error_row((terminal_count + 1) as nat),
            forall|s: int| 0 <= s < state_count ==> #[trigger] res.goto.rows()[s] == empty_goto_row(non_terminal_count as nat),
    {
        let action = ActionTable::new(state_count, terminal_count);
        let goto = GotoTable::new(state_count, non_terminal_count);
        proof {
            assert forall|s: int| 0 <= s < state_count implies #[trigger] action.cells()[s] == error_row(
                (terminal_count + 1) as nat,
            ) by {
                assert(action.cells()[s] =~= error_row((terminal_count + 1) as nat));
            }
            assert forall|s: int| 0 <= s < state_count implies #[trigger] goto.rows()[s] == empty_goto_row(
                non_terminal_count as nat,
            ) by {
                assert forall|n: int| 0 <= n < non_terminal_count implies goto.rows()[s][n] is None by {
                    assert(goto.entry(s, n) is None);
                }
                assert(goto.rows()[s] =~= empty_goto_row(non_terminal_count as nat));
            }
        }
        LR0Table {
            action,
            goto,
            state_count,
            terminal_count,
            non_terminal_count,
            conflicts: Vec::new(),
        }
    }

    /// Whether the construction found conflicts.
    pub fn has_conflicts(&self) -> (res: bool)
        ensures
            res == (self.conflicts@.len() > 0),
    {
        self.conflicts.len() > 0
    }

    /// The report of the conflicts.
    pub fn conflict_report(&self) -> (res: ConflictReport)
        ensures
            res.conflicts@ == self.conflicts@,
            res.shift_reduce_count == crate::lr::conflict::count_sr(self.conflicts@),
            res.reduce_reduce_count == crate::lr::conflict::count_rr(self.conflicts@),
    {
        ConflictReport::new(copy_conflicts(&self.conflicts))
    }

    /// LR(0) when there is no conflict, otherwise not LR.
    pub fn grammar_type(&self) -> (res: GrammarType)
        ensures
            res == (if self.conflicts@.len() == 0 {
                GrammarType::LR0
            } else {
                GrammarType::NotLR
            }),
    {
        if self.conflicts.len() == 0 {
            GrammarType::LR0
        } else {
            GrammarType::NotLR
        }
    }

    /// Whether the grammar is LR(0): there is no conflict.
    pub fn is_lr0(&self) -> (res: bool)
        ensures
            res == (self.conflicts@.len() == 0),
    {
        self.conflicts.len() == 0
    }
}

/// A copy of a list of conflicts.
pub(crate) fn copy_conflicts(v: &Vec<Conflict>) -> (res: Vec<Conflict>)
    ensures
        res@ == v@,
{
    let mut res: Vec<Conflict> = Vec::new();
    let mut i: usize = 0;
    while i < v.len()
        invariant
            i <= v.len(),
            res@ == v@.take(i as int),
        decreases v.len() - i,
    {
        res.push(v[i]);
        assert(v@.take(i + 1) =~= v@.take(i as int).push(v@[i as int]));
        i = i + 1;
    }
    assert(v@.take(v.len() as int) =~= v@);
    res
}

/// The LR(0) table `t` is the one the construction gives for the states with
/// item lists `lists` and the transitions `trans` of `g`.
pub open spec fn is_lr0_table(
    g: &ContextFreeGrammar,
    lists: Seq<Seq<LR0Item>>,
    trans: Seq<(usize, Symbol, usize)>,
    t: &LR0Table,
) -> bool {
    let n = lists.len();
    &&& t.state_count == n
    &&& t.terminal_count == g.terminals.len()
    &&& t.non_terminal_count == g.non_terminals.len()
    &&& tables_shaped(&t.action, &t.goto, n, g.terminals.len() as nat, g.non_terminals.len() as nat)
    &&& forall|s: int|
        0 <= s < n ==> #[trigger] t.action.cells()[s] == apply_writes(
            error_row((g.terminals.len() + 1) as nat),
            lr0_state_writes(g, trans, s, lists[s]),
        )
    &&& forall|s: int|
        0 <= s < n ==> #[trigger] t.goto.rows()[s] == apply_gotos(
            empty_goto_row(g.non_terminals.len() as nat),
            lr0_goto_writes(g, trans, s, lists[s]),
        )
    &&& t.conflicts@ == lr0_conflicts(g, t.action.cells(), lists, n)
}

/// The table is the LR(0) table of `g` for its canonical LR(0) collection.
pub open spec fn lr0_table_of(g: &ContextFreeGrammar, t: &LR0Table) -> bool {
    exists|c: LR0ItemSetCollection|
        crate::lr::states::is_lr0_collection(g, c.spec_states(), c.spec_transitions())
            && is_lr0_table(g, c.state_items(), c.spec_transitions(), t)
}

/// LR(0) table construction.
pub struct LR0TableBuilder;

impl LR0TableBuilder {
    /// The conflicts of the filled table: in each state, every shift entry
    /// conflicts with every completed item.
    fn detect_conflicts(table: &LR0Table, collection: &LR0ItemSetCollection, augmented: &AugmentedGrammar) -> (res:
        Vec<Conflict>)
        requires
            table.action.shaped(collection.state_items().len()),
            table.action.terminals() == augmented.spec_grammar().terminals.len(),
        ensures
            res@ == lr0_conflicts(
                &augmented.spec_grammar(),
                table.action.cells(),
                collection.state_items(),
                collection.state_items().len(),
            ),
    {
        let cfg = augmented.grammar();
        let states = collection.states();
        let ghost lists = collection.state_items();
        let ghost cells = table.action.cells();
        let terminal_count = cfg.terminals.len();
        let mut conflicts: Vec<Conflict> = Vec::new();
        let mut state_id: usize = 0;
        while state_id < states.len()
            invariant
                state_id <= states.len(),
                *cfg == augmented.spec_grammar(),
                cfg.wf(),
                terminal_count == cfg.terminals.len(),
                states@.len() == lists.len(),
                forall|i: int| 0 <= i < states@.len() ==> (#[trigger] states@[i]).item_list() == lists[i],
                cells == table.action.cells(),
                table.action.shaped(lists.len()),
                table.action.terminals() == terminal_count,
                conflicts@ == lr0_conflicts(cfg, cells, lists, state_id as nat),
            decreases states.len() - state_id,
        {
            let items = states[state_id].items();
            let ghost list = lists[state_id as int];
            let ghost prefix = conflicts@;
            let mut term_idx: usize = 0;
            while term_idx <= terminal_count
                invariant
                    term_idx <= terminal_count + 1,
                    state_id < states.len(),
                    *cfg == augmented.spec_grammar(),
                    terminal_count == cfg.terminals.len(),
                    cfg.wf(),
                    items@ == list,
                    list == lists[state_id as int],
                    states@.len() == lists.len(),
                    cells == table.action.cells(),
                    table.action.shaped(lists.len()),
                    table.action.terminals() == terminal_count,
                    conflicts@ == prefix + lr0_state_conflicts(cfg, state_id as int, cells[state_id as int], list, term_idx as nat),
                decreases terminal_count + 1 - term_idx,
            {
                let terminal = TerminalId(term_idx);
                let action = table.action.get(ItemSetId(state_id), terminal);
                let ghost mid = conflicts@;
                if let Action::Shift(shift_state) = action {
                    let mut i: usize = 0;
                    while i < items.len()
                        invariant
                            i <= items.len(),
                            items@ == list,
                            terminal == TerminalId(term_idx),
                            *cfg == augmented.spec_grammar(),
                            cfg.wf(),
                            conflicts@ == mid + lr0_sr_items(cfg, state_id as int, term_idx as int, *shift_state, list.take(i as int)),
                        decreases items.len() - i,
                    {
                        let item = items[i];
                        proof {
                            assert(list.take(i + 1).drop_last() =~= list.take(i as int));
                            assert(list.take(i + 1).last() == item);
                        }
                        if item.production_index < cfg.productions.len() {
                            if item.is_complete(&cfg.productions[item.production_index]) {
                                conflicts.push(Conflict::shift_reduce(
                                    ItemSetId(state_id),
                                    terminal,
                                    *shift_state,
                                    ProductionId(item.production_index),
                                ));
                            }
                        }
                        proof {
                            let c = lr0_sr_items(cfg, state_id as int, term_idx as int, *shift_state, list.take(i + 1));
                            let c0 = lr0_sr_items(cfg, state_id as int, term_idx as int, *shift_state, list.take(i as int));
                            if complete_in(cfg, item.production_index, item.dot_position) {
                                assert(c =~= c0.push(sr(ItemSetId(state_id), terminal, *shift_state, ProductionId(item.production_index))));
                                assert(mid + c =~= (mid + c0).push(sr(ItemSetId(state_id), terminal, *shift_state, ProductionId(item.production_index))));
                            } else {
                                assert(c =~= c0);
                            }
                        }
                        i = i + 1;
                    }
                    proof {
                        assert(list.take(items.len() as int) =~= list);
                    }
                }
                proof {
                    let n = (term_idx + 1) as nat;
                    assert(lr0_state_conflicts(cfg, state_id as int, cells[state_id as int], list, n)
                        == lr0_state_conflicts(cfg, state_id as int, cells[state_id as int], list, term_idx as nat) + match cells[state_id as int][term_idx as int] {
                            Action::Shift(x) => lr0_sr_items(cfg, state_id as int, term_idx as int, x, list),
                            _ => Seq::empty(),
                        });
                    match cells[state_id as int][term_idx as int] {
                        Action::Shift(x) => {
                            assert(prefix + lr0_state_conflicts(cfg, state_id as int, cells[state_id as int], list, n) =~= mid
                                + lr0_sr_items(cfg, state_id as int, term_idx as int, x, list));
                        },
                        _ => {
                            assert(prefix + lr0_state_conflicts(cfg, state_id as int, cells[state_id as int], list, n) =~= mid);
                        },
                    }
                }
                term_idx = term_idx + 1;
            }
            proof {
                assert(conflicts@ =~= lr0_conflicts(cfg, cells, lists, (state_id + 1) as nat));
            }
            state_id = state_id + 1;
        }
        conflicts
    }

    /// The LR(0) table of an augmented grammar.
    pub fn build(augmented: &AugmentedGrammar) -> (res: LR0Table)
        ensures
            lr0_table_of(&augmented.spec_grammar(), &res),
    {
        let collection = LR0ItemSetCollection::build_from_augmented(augmented);
        Self::build_from_collection(augmented, &collection)
    }

    /// The LR(0) table of an augmented grammar for the given states and transitions.
    pub fn build_from_collection(augmented: &AugmentedGrammar, collection: &LR0ItemSetCollection) -> (res:
        LR0Table)
        ensures
            is_lr0_table(&augmented.spec_grammar(), collection.state_items(), collection.spec_transitions(), &res),
    {
        let cfg = augmented.grammar();
        let states = collection.states();
        let ghost trans = collection.spec_transitions();
        let ghost lists = collection.state_items();
        let state_count = states.len();
        let terminal_count = cfg.terminals.len();
        let non_terminal_count = cfg.non_terminals.len();
        let end_marker = TerminalId(terminal_count);
        let mut table = LR0Table::new(state_count, terminal_count, non_terminal_count);
        let ghost err = error_row((terminal_count + 1) as nat);
        let ghost nog = empty_goto_row(non_terminal_count as nat);
        let mut state_idx: usize = 0;
        while state_idx < state_count
            invariant
                cfg.wf(),
                *cfg == augmented.spec_grammar(),
                state_count == states@.len(),
                state_count == lists.len(),
                trans == collection.spec_transitions(),
                forall|i: int| 0 <= i < states@.len() ==> (#[trigger] states@[i]).item_list() == lists[i],
                terminal_count == cfg.terminals.len(),
                non_terminal_count == cfg.non_terminals.len(),
                end_marker == TerminalId(terminal_count),
                err == error_row((terminal_count + 1) as nat),
                nog == empty_goto_row(non_terminal_count as nat),
                state_idx <= state_count,
                table.state_count == state_count,
                table.terminal_count == terminal_count,
                table.non_terminal_count == non_terminal_count,
                table.conflicts@.len() == 0,
                tables_shaped(&table.action, &table.goto, state_count as nat, terminal_count as nat, non_terminal_count as nat),
                forall|s: int|
                    0 <= s < state_idx ==> #[trigger] table.action.cells()[s] == apply_writes(err, lr0_state_writes(cfg, trans, s, lists[s])),
                forall|s: int| state_idx <= s < state_count ==> #[trigger] table.action.cells()[s] == err,
                forall|s: int|
                    0 <= s < state_idx ==> #[trigger] table.goto.rows()[s] == apply_gotos(nog, lr0_goto_writes(cfg, trans, s, lists[s])),
                forall|s: int| state_idx <= s < state_count ==> #[trigger] table.goto.rows()[s] == nog,
            decreases state_count - state_idx,
        {
            let state_id = ItemSetId(state_idx);
            let items = states[state_idx].items();
            let ghost list = lists[state_idx as int];
            let ghost s = state_idx as int;
            let mut i: usize = 0;
            while i < items.len()
                invariant
                    cfg.wf(),
                    *cfg == augmented.spec_grammar(),
                    items@ == list,
                    list == lists[s],
                    s == state_idx,
                    state_idx < state_count,
                    state_id == ItemSetId(state_idx),
                    trans == collection.spec_transitions(),
                    terminal_count == cfg.terminals.len(),
                    non_terminal_count == cfg.non_terminals.len(),
                    end_marker == TerminalId(terminal_count),
                    err == error_row((terminal_count + 1) as nat),
                    nog == empty_goto_row(non_terminal_count as nat),
                    i <= items.len(),
                    table.state_count == state_count,
                    table.terminal_count == terminal_count,
                    table.non_terminal_count == non_terminal_count,
                    table.conflicts@.len() == 0,
                    tables_shaped(&table.action, &table.goto, state_count as nat, terminal_count as nat, non_terminal_count as nat),
                    forall|s2: int|
                        0 <= s2 < state_idx ==> #[trigger] table.action.cells()[s2] == apply_writes(err, lr0_state_writes(cfg, trans, s2, lists[s2])),
                    forall|s2: int| state_idx < s2 < state_count ==> #[trigger] table.action.cells()[s2] == err,
                    forall|s2: int|
                        0 <= s2 < state_idx ==> #[trigger] table.goto.rows()[s2] == apply_gotos(nog, lr0_goto_writes(cfg, trans, s2, lists[s2])),
                    forall|s2: int| state_idx < s2 < state_count ==> #[trigger] table.goto.rows()[s2] == nog,
                    table.action.cells()[s] == apply_writes(err, lr0_state_writes(cfg, trans, s, list.take(i as int))),
                    table.goto.rows()[s] == apply_gotos(nog, lr0_goto_writes(cfg, trans, s, list.take(i as int))),
                decreases items.len() - i,
            {
                let item = items[i];
                let ghost before = lr0_state_writes(cfg, trans, s, list.take(i as int));
                let ghost gbefore = lr0_goto_writes(cfg, trans, s, list.take(i as int));
                proof {
                    assert(list.take(i + 1).drop_last() =~= list.take(i as int));
                    assert(list.take(i + 1).last() == item);
                    lemma_apply_gotos_len(nog, gbefore);
                }
                let ghost iw = lr0_item_writes(cfg, trans, s, item);
                let ghost gw = item_goto_writes(cfg, trans, s, item.production_index, item.dot_position);
                proof {
                    lemma_apply_len(err, before);
                }
                if item.production_index < cfg.productions.len() {
                    let production = &cfg.productions[item.production_index];
                    if item.is_complete(production) {
                        assert(gbefore + gw =~= gbefore);
                        if augmented.is_accepting_production(item.production_index) {
                            table.action.set_accept(state_id, end_marker);
                            proof {
                                lemma_apply_push(err, before, (terminal_count, Action::Accept));
                                assert(before + iw =~= before.push((terminal_count, Action::Accept)));
                            }
                        } else {
                            set_reduce_all(&mut table.action, state_id, terminal_count, ProductionId(item.production_index));
                            proof {
                                lemma_apply_concat(err, before, iw);
                            }
                        }
                    } else {
                        match item.next_symbol(production) {
                            Some(Symbol::Terminal(term_id)) => {
                                assert(gbefore + gw =~= gbefore);
                                proof {
                                    assert(crate::cfg::symbol_in_range(
                                        cfg.productions@[item.production_index as int].rhs@[item.dot_position as int],
                                        cfg.terminals.len() as nat,
                                        cfg.non_terminals.len() as nat,
                                    ));
                                }
                                if let Some(next_state) = collection.get_transition(state_idx, &Symbol::Terminal(term_id)) {
                                    table.action.set_shift(state_id, term_id, ItemSetId(next_state));
                                    proof {
                                        lemma_apply_push(err, before, (term_id.0, Action::Shift(ItemSetId(next_state))));
                                        assert(before + iw =~= before.push((term_id.0, Action::Shift(ItemSetId(next_state)))));
                                    }
                                } else {
                                    assert(before + iw =~= before);
                                }
                            },
                            Some(Symbol::NonTerminal(nt_id)) => {
                                assert(before + iw =~= before);
                                proof {
                                    assert(crate::cfg::symbol_in_range(
                                        cfg.productions@[item.production_index as int].rhs@[item.dot_position as int],
                                        cfg.terminals.len() as nat,
                                        cfg.non_terminals.len() as nat,
                                    ));
                                }
                                if let Some(next_state) = collection.get_transition(state_idx, &Symbol::NonTerminal(nt_id)) {
                                    table.goto.set(state_id, nt_id, ItemSetId(next_state));
                                    proof {
                                        lemma_apply_gotos_len(nog, gbefore);
                                        lemma_apply_gotos_push(nog, gbefore, (nt_id.0, ItemSetId(next_state)));
                                        assert(gbefore + gw =~= gbefore.push((nt_id.0, ItemSetId(next_state))));
                                        assert(table.goto.rows()[s] =~= apply_gotos(nog, gbefore + gw)) by {
                                            assert forall|n: int| 0 <= n < non_terminal_count implies table.goto.rows()[s][n]
                                                == apply_gotos(nog, gbefore + gw)[n] by {
                                                assert(table.goto.entry(s, n) == table.goto.rows()[s][n]);
                                            }
                                        }
                                    }
                                } else {
                                    assert(gbefore + gw =~= gbefore);
                                }
                            },
                            _ => {
                                assert(before + iw =~= before);
                                assert(gbefore + gw =~= gbefore);
                            },
                        }
                    }
                } else {
                    assert(before + iw =~= before);
                    assert(gbefore + gw =~= gbefore);
                }
                proof {
                    assert(lr0_state_writes(cfg, trans, s, list.take(i + 1)) == before + iw);
                    assert(lr0_goto_writes(cfg, trans, s, list.take(i + 1)) == gbefore + gw);
                    assert(table.action.cells()[s] == apply_writes(err, before + iw));
                    lemma_apply_len(err, before + iw);
                    assert(table.goto.rows()[s] == apply_gotos(nog, gbefore + gw));
                    lemma_apply_gotos_len(nog, gbefore + gw);
                }
                i = i + 1;
            }
            proof {
                assert(list.take(items.len() as int) =~= list);
            }
            state_idx = state_idx + 1;
        }
        table.conflicts = Self::detect_conflicts(&table, collection, augmented);
        table
    }
}

/// Performs the writes `(terminal, action)` on the row of `state`, in order.
fn apply_action_writes(action: &mut ActionTable, state: ItemSetId, writes: &Vec<(usize, Action)>)
    requires
        state.0 < old(action).cells().len(),
        old(action).cells()[state.0 as int].len() == old(action).terminals() + 1,
        forall|k: int| 0 <= k < writes.len() ==> (#[trigger] writes@[k]).0 <= old(action).terminals(),
    ensures
        final(action).terminals() == old(action).terminals(),
        final(action).cells() == old(action).cells().update(
            state.0 as int,
            apply_writes(old(action).cells()[state.0 as int], writes@),
        ),
{
    let ghost cells0 = action.cells();
    let ghost row0 = cells0[state.0 as int];
    let mut k: usize = 0;
    assert(cells0 =~= cells0.update(state.0 as int, apply_writes(row0, writes@.take(0))));
    while k < writes.len()
        invariant
            k <= writes.len(),
            state.0 < cells0.len(),
            row0 == cells0[state.0 as int],
            row0.len() == action.terminals() + 1,
            forall|m: int| 0 <= m < writes.len() ==> (#[trigger] writes@[m]).0 <= action.terminals(),
            action.terminals() == old(action).terminals(),
            cells0 == old(action).cells(),
            action.cells() == cells0.update(state.0 as int, apply_writes(row0, writes@.take(k as int))),
        decreases writes.len() - k,
    {
        let (t, a) = writes[k];
        proof {
            assert(writes@.take(k + 1) =~= writes@.take(k as int).push(writes@[k as int]));
            lemma_apply_push(row0, writes@.take(k as int), writes@[k as int]);
        }
        action.set(state, TerminalId(t), a);
        proof {
            assert(action.cells() =~= cells0.update(state.0 as int, apply_writes(row0, writes@.take(k + 1))));
        }
        k = k + 1;
    }
    assert(writes@.take(writes.len() as int) =~= writes@);
}

/// Performs the GOTO writes `(non-terminal, state)` on the row of `state`, in order.
fn apply_goto_writes(goto: &mut GotoTable, state: ItemSetId, writes: &Vec<(usize, ItemSetId)>)
    requires
        state.0 < old(goto).rows().len(),
        old(goto).rows()[state.0 as int].len() == old(goto).columns(),
    ensures
        final(goto).columns() == old(goto).columns(),
        final(goto).rows() == old(goto).rows().update(
            state.0 as int,
            apply_gotos(old(goto).rows()[state.0 as int], writes@),
        ),
{
    let ghost rows0 = goto.rows();
    let ghost row0 = rows0[state.0 as int];
    let mut k: usize = 0;
    assert(rows0 =~= rows0.update(state.0 as int, apply_gotos(row0, writes@.take(0))));
    while k < writes.len()
        invariant
            k <= writes.len(),
            state.0 < rows0.len(),
            row0 == rows0[state.0 as int],
            row0.len() == goto.columns(),
            goto.columns() == old(goto).columns(),
            rows0 == old(goto).rows(),
            goto.rows() == rows0.update(state.0 as int, apply_gotos(row0, writes@.take(k as int))),
        decreases writes.len() - k,
    {
        let (n, j) = writes[k];
        proof {
            assert(writes@.take(k + 1) =~= writes@.take(k as int).push(writes@[k as int]));
            lemma_apply_gotos_len(row0, writes@.take(k as int));
            assert(writes@.take(k + 1).drop_last() =~= writes@.take(k as int));
        }
        goto.set(state, NonTerminalId(n), j);
        proof {
            assert(goto.rows() =~= rows0.update(state.0 as int, apply_gotos(row0, writes@.take(k + 1))));
        }
        k = k + 1;
    }
    assert(writes@.take(writes.len() as int) =~= writes@);
}

/// The terminals of the FOLLOW row of `n` (including `$`), in increasing order.
pub open spec fn follow_terms(follow: Seq<Vec<bool>>, n: int) -> Seq<TerminalId> {
    crate::analysis::ids_upto(follow[n]@, follow[n]@.len() as int)
}

/// The reductions by `prod` on the terminals `ts`.
pub open spec fn reduce_on(ts: Seq<TerminalId>, prod: ProductionId) -> Seq<(usize, Action)> {
    Seq::new(ts.len(), |k: int| (ts[k].0, Action::Reduce(prod)))
}

/// The ACTION writes of one item in state `s` of the SLR(1) table: accept on `$`
/// for the completed start production, a reduction on FOLLOW of the left-hand side
/// for another completed production, or a shift on the terminal after the dot.
pub open spec fn slr_item_writes(
    g: &ContextFreeGrammar,
    trans: Seq<(usize, Symbol, usize)>,
    follow: Seq<Vec<bool>>,
    s: int,
    it: LR0Item,
) -> Seq<(usize, Action)> {
    if complete_in(g, it.production_index, it.dot_position) {
        if it.production_index == 0 {
            seq![(g.terminals.len(), Action::Accept)]
        } else {
            reduce_on(
                follow_terms(follow, g.productions@[it.production_index as int].lhs.0 as int),
                ProductionId(it.production_index),
            )
        }
    } else {
        match next_in(g, it.production_index, it.dot_position) {
            Some(Symbol::Terminal(t)) => shift_write(trans, s, t),
            _ => Seq::empty(),
        }
    }
}

/// The ACTION writes of SLR(1) state `s`, item by item.
pub open spec fn slr_state_writes(
    g: &ContextFreeGrammar,
    trans: Seq<(usize, Symbol, usize)>,
    follow: Seq<Vec<bool>>,
    s: int,
    items: Seq<LR0Item>,
) -> Seq<(usize, Action)>
    decreases items.len(),
{
    if items.len() == 0 {
        Seq::empty()
    } else {
        slr_state_writes(g, trans, follow, s, items.drop_last()) + slr_item_writes(g, trans, follow, s, items.last())
    }
}

/// The shifts `(terminal, target)` of the items of SLR(1) state `s`, item by item.
pub open spec fn slr_shifts(g: &ContextFreeGrammar, trans: Seq<(usize, Symbol, usize)>, s: int, items: Seq<LR0Item>) -> Seq<
    (usize, ItemSetId),
>
    decreases items.len(),
{
    if items.len() == 0 {
        Seq::empty()
    } else {
        let it = items.last();
        slr_shifts(g, trans, s, items.drop_last()) + if complete_in(g, it.production_index, it.dot_position) {
            Seq::empty()
        } else {
            match next_in(g, it.production_index, it.dot_position) {
                Some(Symbol::Terminal(t)) => match target(trans, s, Symbol::Terminal(t)) {
                    Some(j) => seq![(t.0, ItemSetId(j))],
                    None => Seq::empty(),
                },
                _ => Seq::empty(),
            }
        }
    }
}

/// The reductions `(terminal, production)` of the completed items (other than the
/// start production) of an SLR(1) state, item by item, on FOLLOW of the left-hand side.
pub open spec fn slr_reduces(g: &ContextFreeGrammar, follow: Seq<Vec<bool>>, items: Seq<LR0Item>) -> Seq<(usize, ProductionId)>
    decreases items.len(),
{
    if items.len() == 0 {
        Seq::empty()
    } else {
        let it = items.last();
        slr_reduces(g, follow, items.drop_last()) + if complete_in(g, it.production_index, it.dot_position)
            && it.production_index != 0 {
            let ts = follow_terms(follow, g.productions@[it.production_index as int].lhs.0 as int);
            Seq::new(ts.len(), |k: int| (ts[k].0, ProductionId(it.production_index)))
        } else {
            Seq::empty()
        }
    }
}

/// The shift/reduce conflicts of one shift against the reductions, in order.
pub open spec fn sr_against(s: int, shift: (usize, ItemSetId), reduces: Seq<(usize, ProductionId)>) -> Seq<Conflict>
    decreases reduces.len(),
{
    if reduces.len() == 0 {
        Seq::empty()
    } else {
        let r = reduces.last();
        sr_against(s, shift, reduces.drop_last()) + if r.0 == shift.0 {
            seq![sr(ItemSetId(s as usize), TerminalId(shift.0), shift.1, r.1)]
        } else {
            Seq::empty()
        }
    }
}

/// The shift/reduce conflicts of all shifts against the reductions, in order.
pub open spec fn sr_all(s: int, shifts: Seq<(usize, ItemSetId)>, reduces: Seq<(usize, ProductionId)>) -> Seq<Conflict>
    decreases shifts.len(),
{
    if shifts.len() == 0 {
        Seq::empty()
    } else {
        sr_all(s, shifts.drop_last(), reduces) + sr_against(s, shifts.last(), reduces)
    }
}

/// The reduce/reduce conflicts of one reduction against the later ones, in order.
pub open spec fn rr_against(s: int, a: (usize, ProductionId), later: Seq<(usize, ProductionId)>) -> Seq<Conflict>
    decreases later.len(),
{
    if later.len() == 0 {
        Seq::empty()
    } else {
        let b = later.last();
        rr_against(s, a, later.drop_last()) + if b.0 == a.0 {
            seq![rr(ItemSetId(s as usize), TerminalId(a.0), a.1, b.1)]
        } else {
            Seq::empty()
        }
    }
}

/// The reduce/reduce conflicts among the first `n` reductions and the ones after them.
pub open spec fn rr_all(s: int, reduces: Seq<(usize, ProductionId)>, n: nat) -> Seq<Conflict>
    decreases n,
{
    if n == 0 {
        Seq::empty()
    } else {
        rr_all(s, reduces, (n - 1) as nat) + rr_against(s, reduces[n - 1], reduces.skip(n as int))
    }
}

/// The conflicts the SLR(1) construction reports for state `s`: every shift
/// against every reduction on the same terminal, then every pair of reductions on
/// the same terminal.
pub open spec fn slr_state_conflicts(
    g: &ContextFreeGrammar,
    trans: Seq<(usize, Symbol, usize)>,
    follow: Seq<Vec<bool>>,
    s: int,
    items: Seq<LR0Item>,
) -> Seq<Conflict> {
    let r = slr_reduces(g, follow, items);
    sr_all(s, slr_shifts(g, trans, s, items), r) + rr_all(s, r, r.len())
}

/// The conflicts the SLR(1) construction reports for the first `n` states.
pub open spec fn slr_conflicts(
    g: &ContextFreeGrammar,
    trans: Seq<(usize, Symbol, usize)>,
    follow: Seq<Vec<bool>>,
    lists: Seq<Seq<LR0Item>>,
    n: nat,
) -> Seq<Conflict>
    decreases n,
{
    if n == 0 {
        Seq::empty()
    } else {
        slr_conflicts(g, trans, follow, lists, (n - 1) as nat) + slr_state_conflicts(g, trans, follow, n - 1, lists[n - 1])
    }
}

/// The SLR(1) parsing table.
#[derive(Debug)]
pub struct SLRTable {
    pub action: ActionTable,
    pub goto: GotoTable,
    pub state_count: usize,
    pub terminal_count: usize,
    pub non_terminal_count: usize,
    pub conflicts: Vec<Conflict>,
    pub resolved_conflicts: Vec<Conflict>,
}

impl SLRTable {
    /// An empty table: every ACTION entry `Error`, every GOTO entry empty, no conflicts.
    pub fn new(state_count: usize, terminal_count: usize, non_terminal_count: usize) -> (res: Self)
        requires
            terminal_count < usize::MAX,
        ensures
            res.state_count == state_count,
            res.terminal_count == terminal_count,
            res.non_terminal_count == non_terminal_count,
            res.conflicts@.len() == 0,
            res.resolved_conflicts@.len() == 0,
            tables_shaped(&res.action, &res.goto, state_count as nat, terminal_count as nat, non_terminal_count as nat),
            forall|s: int| 0 <= s < state_count ==> #[trigger] res.action.cells()[s] == error_row((terminal_count + 1) as nat),
            forall|s: int| 0 <= s < state_count ==> #[trigger] res.goto.rows()[s] == empty_goto_row(non_terminal_count as nat),
    {
        let t = LR0Table::new(state_count, terminal_count, non_terminal_count);
        SLRTable {
            action: t.action,
            goto: t.goto,
            state_count,
            terminal_count,
            non_terminal_count,
            conflicts: Vec::new(),
            resolved_conflicts: Vec::new(),
        }
    }

    /// Whether the construction left conflicts unresolved.
    pub fn has_conflicts(&self) -> (res: bool)
        ensures
            res == (self.conflicts@.len() > 0),
    {
        self.conflicts.len() > 0
    }

    /// The report of the unresolved conflicts.
    pub fn conflict_report(&self) -> (res: ConflictReport)
        ensures
            res.conflicts@ == self.conflicts@,
            res.shift_reduce_count == crate::lr::conflict::count_sr(self.conflicts@),
            res.reduce_reduce_count == crate::lr::conflict::count_rr(self.conflicts@),
    {
        ConflictReport::new(copy_conflicts(&self.conflicts))
    }

    /// LR(0) when there was nothing to resolve, SLR(1) when FOLLOW sets resolved
    /// every conflict, otherwise not LR.
    pub fn grammar_type(&self) -> (res: GrammarType)
        ensures
            res == (if self.conflicts@.len() == 0 {
                if self.resolved_conflicts@.len() == 0 {
                    GrammarType::LR0
                } else {
                    GrammarType::SLR1
                }
            } else {
                GrammarType::NotLR
            }),
    {
        if self.conflicts.len() == 0 {
            if self.resolved_conflicts.len() == 0 {
                GrammarType::LR0
            } else {
                GrammarType::SLR1
            }
        } else {
            GrammarType::NotLR
        }
    }

    /// Whether the grammar is SLR(1): no unresolved conflict.
    pub fn is_slr1(&self) -> (res: bool)
        ensures
            res == (self.conflicts@.len() == 0),
    {
        self.conflicts.len() == 0
    }

    /// Whether the grammar is LR(0): no conflict at all.
    pub fn is_lr0(&self) -> (res: bool)
        ensures
            res == (self.conflicts@.len() == 0 && self.resolved_conflicts@.len() == 0),
    {
        self.conflicts.len() == 0 && self.resolved_conflicts.len() == 0
    }
}

/// The SLR(1) table `t` is the one the construction gives for the states with item
/// lists `lists`, the transitions `trans` and the FOLLOW rows `follow` of `g`.
pub open spec fn is_slr_table(
    g: &ContextFreeGrammar,
    lists: Seq<Seq<LR0Item>>,
    trans: Seq<(usize, Symbol, usize)>,
    follow: Seq<Vec<bool>>,
    t: &SLRTable,
) -> bool {
    let n = lists.len();
    &&& t.state_count == n
    &&& t.terminal_count == g.terminals.len()
    &&& t.non_terminal_count == g.non_terminals.len()
    &&& tables_shaped(&t.action, &t.goto, n, g.terminals.len() as nat, g.non_terminals.len() as nat)
    &&& forall|s: int|
        0 <= s < n ==> #[trigger] t.action.cells()[s] == apply_writes(
            error_row((g.terminals.len() + 1) as nat),
            slr_state_writes(g, trans, follow, s, lists[s]),
        )
    &&& forall|s: int|
        0 <= s < n ==> #[trigger] t.goto.rows()[s] == apply_gotos(
            empty_goto_row(g.non_terminals.len() as nat),
            lr0_goto_writes(g, trans, s, lists[s]),
        )
    &&& t.conflicts@ == slr_conflicts(g, trans, follow, lists, n)
    &&& t.resolved_conflicts@.len() == 0
}

/// `follow` is the FOLLOW relation of `g`.
pub open spec fn is_follow_of(g: &ContextFreeGrammar, follow: Seq<Vec<bool>>) -> bool {
    exists|nullable: Seq<bool>, first: Seq<Vec<bool>>|
        crate::analysis::is_nullable_set(g, nullable) && crate::analysis::is_first_sets(g, crate::analysis::flags(nullable), first)
            && crate::analysis::is_follow_sets(g, crate::analysis::flags(nullable), crate::analysis::flags2(first), follow)
}

/// The table is the SLR(1) table of `g` for its canonical LR(0) collection and FOLLOW sets.
pub open spec fn slr_table_of(g: &ContextFreeGrammar, t: &SLRTable) -> bool {
    exists|c: LR0ItemSetCollection, follow: Seq<Vec<bool>>|
        crate::lr::states::is_lr0_collection(g, c.spec_states(), c.spec_transitions())
            && is_follow_of(g, follow) && is_slr_table(
            g,
            c.state_items(),
            c.spec_transitions(),
            follow,
            t,
        )
}

/// SLR(1) table construction.
pub struct SLRTableBuilder;

impl SLRTableBuilder {
    /// The SLR(1) table of an augmented grammar.
    pub fn build(augmented: &AugmentedGrammar) -> (res: SLRTable)
        ensures
            slr_table_of(&augmented.spec_grammar(), &res),
    {
        let collection = Self::build_states(augmented);
        let res = Self::build_from_collection(augmented, &collection);
        proof {
            let follow = choose|follow: Seq<Vec<bool>>|
                is_follow_of(&augmented.spec_grammar(), follow) && is_slr_table(
                    &augmented.spec_grammar(),
                    collection.state_items(),
                    collection.spec_transitions(),
                    follow,
                    &res,
                );
            assert(crate::lr::states::is_lr0_collection(&augmented.spec_grammar(), collection.spec_states(), collection.spec_transitions()));
        }
        res
    }

    /// The SLR(1) table for the given LR(0) collection: shifts along its
    /// transitions, reductions on the FOLLOW sets of `augmented`.
    pub fn build_from_collection(augmented: &AugmentedGrammar, collection: &LR0ItemSetCollection) -> (res: SLRTable)
        ensures
            exists|follow: Seq<Vec<bool>>|
                is_follow_of(&augmented.spec_grammar(), follow) && is_slr_table(
                    &augmented.spec_grammar(),
                    collection.state_items(),
                    collection.spec_transitions(),
                    follow,
                    &res,
                ),
    {
        let cfg = augmented.grammar();
        let follow_sets = crate::lr::follow::LRFollowCalculator::compute(cfg);
        let end_marker = TerminalId(cfg.terminals.len());
        let states = collection.states();
        let state_count = states.len();
        let terminal_count = cfg.terminals.len();
        let non_terminal_count = cfg.non_terminals.len();
        let mut table = SLRTable::new(state_count, terminal_count, non_terminal_count);
        let ghost lists = collection.state_items();
        let ghost trans = collection.spec_transitions();
        let ghost follow = follow_sets.table@;
        let ghost err = error_row((terminal_count + 1) as nat);
        let ghost nog = empty_goto_row(non_terminal_count as nat);
        proof {
            assert(is_follow_of(cfg, follow));
            let (nullable, first) = choose|nullable: Seq<bool>, first: Seq<Vec<bool>>|
                crate::analysis::is_nullable_set(cfg, nullable) && crate::analysis::is_first_sets(cfg, crate::analysis::flags(nullable), first)
                    && crate::analysis::is_follow_sets(cfg, crate::analysis::flags(nullable), crate::analysis::flags2(first), follow);
        }
        let mut state_id: usize = 0;
        while state_id < state_count
            invariant
                cfg.wf(),
                *cfg == augmented.spec_grammar(),
                state_count == states@.len(),
                state_count == lists.len(),
                lists == collection.state_items(),
                trans == collection.spec_transitions(),
                follow == follow_sets.table@,
                crate::analysis::matrix_shape(follow, non_terminal_count as nat, (terminal_count + 1) as nat),
                forall|i: int| 0 <= i < states@.len() ==> (#[trigger] states@[i]).item_list() == lists[i],
                terminal_count == cfg.terminals.len(),
                non_terminal_count == cfg.non_terminals.len(),
                end_marker == TerminalId(terminal_count),
                err == error_row((terminal_count + 1) as nat),
                nog == empty_goto_row(non_terminal_count as nat),
                state_id <= state_count,
                table.state_count == state_count,
                table.terminal_count == terminal_count,
                table.non_terminal_count == non_terminal_count,
                table.conflicts@.len() == 0,
                table.resolved_conflicts@.len() == 0,
                tables_shaped(&table.action, &table.goto, state_count as nat, terminal_count as nat, non_terminal_count as nat),
                forall|s: int|
                    0 <= s < state_id ==> #[trigger] table.action.cells()[s] == apply_writes(err, slr_state_writes(cfg, trans, follow, s, lists[s])),
                forall|s: int| state_id <= s < state_count ==> #[trigger] table.action.cells()[s] == err,
                forall|s: int|
                    0 <= s < state_id ==> #[trigger] table.goto.rows()[s] == apply_gotos(nog, lr0_goto_writes(cfg, trans, s, lists[s])),
                forall|s: int| state_id <= s < state_count ==> #[trigger] table.goto.rows()[s] == nog,
            decreases state_count - state_id,
        {
            Self::fill_table_for_state(
                &mut table,
                ItemSetId(state_id),
                states[state_id].items(),
                augmented,
                &follow_sets,
                end_marker,
                collection,
            );
            proof {
                lemma_apply_len(err, slr_state_writes(cfg, trans, follow, state_id as int, lists[state_id as int]));
                lemma_apply_gotos_len(nog, lr0_goto_writes(cfg, trans, state_id as int, lists[state_id as int]));
            }
            state_id = state_id + 1;
        }
        let (conflicts, resolved) = Self::detect_and_resolve_conflicts(&table, collection, augmented, &follow_sets);
        table.conflicts = conflicts;
        table.resolved_conflicts = resolved;
        proof {
            assert(is_follow_of(cfg, follow));
            assert(is_slr_table(cfg, lists, trans, follow, &table));
        }
        table
    }

    /// The shifts and the reductions of one SLR(1) state, item by item.
    fn shifts_and_reduces(
        items: &Vec<LR0Item>,
        state_idx: usize,
        augmented: &AugmentedGrammar,
        follow_sets: &crate::analysis::FollowSet,
        collection: &LR0ItemSetCollection,
    ) -> (res: (Vec<(usize, ItemSetId)>, Vec<(usize, ProductionId)>))
        requires
            crate::analysis::matrix_shape(
                follow_sets.table@,
                augmented.spec_grammar().non_terminals.len() as nat,
                (augmented.spec_grammar().terminals.len() + 1) as nat,
            ),
        ensures
            res.0@ == slr_shifts(&augmented.spec_grammar(), collection.spec_transitions(), state_idx as int, items@),
            res.1@ == slr_reduces(&augmented.spec_grammar(), follow_sets.table@, items@),
    {
        let cfg = augmented.grammar();
        let ghost trans = collection.spec_transitions();
        let ghost follow = follow_sets.table@;
        let ghost s = state_idx as int;
        let mut shifts: Vec<(usize, ItemSetId)> = Vec::new();
        let mut reduces: Vec<(usize, ProductionId)> = Vec::new();
        let mut i: usize = 0;
        while i < items.len()
            invariant
                i <= items.len(),
                cfg.wf(),
                *cfg == augmented.spec_grammar(),
                trans == collection.spec_transitions(),
                follow == follow_sets.table@,
                s == state_idx as int,
                crate::analysis::matrix_shape(follow, cfg.non_terminals.len() as nat, (cfg.terminals.len() + 1) as nat),
                shifts@ == slr_shifts(cfg, trans, s, items@.take(i as int)),
                reduces@ == slr_reduces(cfg, follow, items@.take(i as int)),
            decreases items.len() - i,
        {
            let item = items[i];
            let ghost sb = shifts@;
            let ghost rb = reduces@;
            proof {
                assert(items@.take(i + 1).drop_last() =~= items@.take(i as int));
                assert(items@.take(i + 1).last() == item);
            }
            if item.production_index < cfg.productions.len() {
                let production = &cfg.productions[item.production_index];
                if item.is_complete(production) {
                    if !augmented.is_accepting_production(item.production_index) {
                        let lhs = production.lhs;
                        let ts = follow_sets.terminals(lhs);
                        let ghost add = Seq::new(ts@.len(), |k: int| (ts@[k].0, ProductionId(item.production_index)));
                        let mut k: usize = 0;
                        while k < ts.len()
                            invariant
                                k <= ts.len(),
                                add == Seq::new(ts@.len(), |k: int| (ts@[k].0, ProductionId(item.production_index))),
                                reduces@ == rb + add.take(k as int),
                            decreases ts.len() - k,
                        {
                            reduces.push((ts[k].0, ProductionId(item.production_index)));
                            proof {
                                assert(add.take(k + 1) =~= add.take(k as int).push(add[k as int]));
                            }
                            k = k + 1;
                        }
                        assert(add.take(ts.len() as int) =~= add);
                    }
                    assert(shifts@ =~= slr_shifts(cfg, trans, s, items@.take(i + 1)));
                    assert(reduces@ =~= slr_reduces(cfg, follow, items@.take(i + 1)));
                } else {
                    if let Some(Symbol::Terminal(term_id)) = item.next_symbol(production) {
                        if let Some(next_state) = collection.get_transition(state_idx, &Symbol::Terminal(term_id)) {
                            shifts.push((term_id.0, ItemSetId(next_state)));
                        }
                    }
                    assert(shifts@ =~= slr_shifts(cfg, trans, s, items@.take(i + 1)));
                    assert(reduces@ =~= slr_reduces(cfg, follow, items@.take(i + 1)));
                }
            } else {
                assert(shifts@ =~= slr_shifts(cfg, trans, s, items@.take(i + 1)));
                assert(reduces@ =~= slr_reduces(cfg, follow, items@.take(i + 1)));
            }
            i = i + 1;
        }
        assert(items@.take(items.len() as int) =~= items@);
        (shifts, reduces)
    }

    /// The conflicts of the SLR(1) states: a shift against a reduction on the same
    /// terminal, or two reductions on the same terminal. None is resolved here.
    fn detect_and_resolve_conflicts(
        table: &SLRTable,
        collection: &LR0ItemSetCollection,
        augmented: &AugmentedGrammar,
        follow_sets: &crate::analysis::FollowSet,
    ) -> (res: (Vec<Conflict>, Vec<Conflict>))
        requires
            crate::analysis::matrix_shape(
                follow_sets.table@,
                augmented.spec_grammar().non_terminals.len() as nat,
                (augmented.spec_grammar().terminals.len() + 1) as nat,
            ),
        ensures
            res.0@ == slr_conflicts(
                &augmented.spec_grammar(),
                collection.spec_transitions(),
                follow_sets.table@,
                collection.state_items(),
                collection.state_items().len(),
            ),
            res.1@.len() == 0,
    {
        let states = collection.states();
        let ghost lists = collection.state_items();
        let ghost g = augmented.spec_grammar();
        let ghost trans = collection.spec_transitions();
        let ghost follow = follow_sets.table@;
        let mut unresolved_conflicts: Vec<Conflict> = Vec::new();
        let resolved_conflicts: Vec<Conflict> = Vec::new();
        let mut state_id: usize = 0;
        while state_id < states.len()
            invariant
                state_id <= states.len(),
                states@.len() == lists.len(),
                lists == collection.state_items(),
                g == augmented.spec_grammar(),
                trans == collection.spec_transitions(),
                follow == follow_sets.table@,
                crate::analysis::matrix_shape(follow, g.non_terminals.len() as nat, (g.terminals.len() + 1) as nat),
                forall|i: int| 0 <= i < states@.len() ==> (#[trigger] states@[i]).item_list() == lists[i],
                unresolved_conflicts@ == slr_conflicts(&g, trans, follow, lists, state_id as nat),
            decreases states.len() - state_id,
        {
            let ghost s = state_id as int;
            let items = states[state_id].items();
            let (shift_items, reduce_items) = Self::shifts_and_reduces(items, state_id, augmented, follow_sets, collection);
            let ghost prefix = unresolved_conflicts@;
            let mut a: usize = 0;
            while a < shift_items.len()
                invariant
                    a <= shift_items.len(),
                    s == state_id,
                    unresolved_conflicts@ == prefix + sr_all(s, shift_items@.take(a as int), reduce_items@),
                decreases shift_items.len() - a,
            {
                let (term, shift_state) = shift_items[a];
                let ghost mid = unresolved_conflicts@;
                let mut b: usize = 0;
                while b < reduce_items.len()
                    invariant
                        b <= reduce_items.len(),
                        a < shift_items.len(),
                        (term, shift_state) == shift_items@[a as int],
                        s == state_id,
                        unresolved_conflicts@ == mid + sr_against(s, shift_items@[a as int], reduce_items@.take(b as int)),
                    decreases reduce_items.len() - b,
                {
                    let (reduce_term, prod_id) = reduce_items[b];
                    let ghost before = unresolved_conflicts@;
                    proof {
                        assert(reduce_items@.take(b + 1).drop_last() =~= reduce_items@.take(b as int));
                    }
                    if term == reduce_term {
                        unresolved_conflicts.push(Conflict::shift_reduce(ItemSetId(state_id), TerminalId(term), shift_state, prod_id));
                        assert(unresolved_conflicts@ =~= mid + sr_against(s, shift_items@[a as int], reduce_items@.take(b + 1)));
                    } else {
                        assert(unresolved_conflicts@ =~= mid + sr_against(s, shift_items@[a as int], reduce_items@.take(b + 1)));
                    }
                    b = b + 1;
                }
                proof {
                    assert(reduce_items@.take(reduce_items.len() as int) =~= reduce_items@);
                    assert(shift_items@.take(a + 1).drop_last() =~= shift_items@.take(a as int));
                    assert(unresolved_conflicts@ =~= prefix + sr_all(s, shift_items@.take(a + 1), reduce_items@));
                }
                a = a + 1;
            }
            assert(shift_items@.take(shift_items.len() as int) =~= shift_items@);
            let ghost prefix2 = unresolved_conflicts@;
            let mut i: usize = 0;
            while i < reduce_items.len()
                invariant
                    i <= reduce_items.len(),
                    s == state_id,
                    unresolved_conflicts@ == prefix2 + rr_all(s, reduce_items@, i as nat),
                decreases reduce_items.len() - i,
            {
                let ghost mid = unresolved_conflicts@;
                let ghost later = reduce_items@.skip(i + 1);
                let mut j: usize = i + 1;
                while j < reduce_items.len()
                    invariant
                        i < j <= reduce_items.len(),
                        s == state_id,
                        later == reduce_items@.skip(i + 1),
                        unresolved_conflicts@ == mid + rr_against(s, reduce_items@[i as int], later.take(j - i - 1)),
                    decreases reduce_items.len() - j,
                {
                    proof {
                        assert(later.take(j - i).drop_last() =~= later.take(j - i - 1));
                        assert(later.take(j - i).last() == reduce_items@[j as int]);
                    }
                    if reduce_items[i].0 == reduce_items[j].0 {
                        unresolved_conflicts.push(Conflict::reduce_reduce(
                            ItemSetId(state_id),
                            TerminalId(reduce_items[i].0),
                            reduce_items[i].1,
                            reduce_items[j].1,
                        ));
                        assert(unresolved_conflicts@ =~= mid + rr_against(s, reduce_items@[i as int], later.take(j - i)));
                    } else {
                        assert(unresolved_conflicts@ =~= mid + rr_against(s, reduce_items@[i as int], later.take(j - i)));
                    }
                    j = j + 1;
                }
                proof {
                    assert(later.take(reduce_items.len() - i - 1) =~= later);
                    assert(unresolved_conflicts@ =~= prefix2 + rr_all(s, reduce_items@, (i + 1) as nat));
                }
                i = i + 1;
            }
            proof {
                assert(unresolved_conflicts@ =~= slr_conflicts(&g, trans, follow, lists, (state_id + 1) as nat));
            }
            state_id = state_id + 1;
        }
        (unresolved_conflicts, resolved_conflicts)
    }

    /// The states of the LR(0) automaton (the canonical LR(0) collection).
    fn build_states(augmented: &AugmentedGrammar) -> (res: LR0ItemSetCollection)
        ensures
            crate::lr::states::is_lr0_collection(&augmented.spec_grammar(), res.spec_states(), res.spec_transitions()),
    {
        LR0ItemSetCollection::build_from_augmented(augmented)
    }

    /// The ACTION writes of one SLR(1) state.
    fn state_writes(
        items: &Vec<LR0Item>,
        state_idx: usize,
        augmented: &AugmentedGrammar,
        follow_sets: &crate::analysis::FollowSet,
        collection: &LR0ItemSetCollection,
    ) -> (res: Vec<(usize, Action)>)
        requires
            crate::analysis::matrix_shape(
                follow_sets.table@,
                augmented.spec_grammar().non_terminals.len() as nat,
                (augmented.spec_grammar().terminals.len() + 1) as nat,
            ),
        ensures
            res@ == slr_state_writes(
                &augmented.spec_grammar(),
                collection.spec_transitions(),
                follow_sets.table@,
                state_idx as int,
                items@,
            ),
            forall|k: int| 0 <= k < res@.len() ==> (#[trigger] res@[k]).0 <= augmented.spec_grammar().terminals.len(),
    {
        let cfg = augmented.grammar();
        let ghost trans = collection.spec_transitions();
        let ghost follow = follow_sets.table@;
        let ghost s = state_idx as int;
        let terminal_count = cfg.terminals.len();
        let mut res: Vec<(usize, Action)> = Vec::new();
        let mut i: usize = 0;
        while i < items.len()
            invariant
                i <= items.len(),
                cfg.wf(),
                *cfg == augmented.spec_grammar(),
                terminal_count == cfg.terminals.len(),
                trans == collection.spec_transitions(),
                follow == follow_sets.table@,
                s == state_idx as int,
                crate::analysis::matrix_shape(follow, cfg.non_terminals.len() as nat, (terminal_count + 1) as nat),
                res@ == slr_state_writes(cfg, trans, follow, s, items@.take(i as int)),
                forall|k: int| 0 <= k < res@.len() ==> (#[trigger] res@[k]).0 <= terminal_count,
            decreases items.len() - i,
        {
            let item = items[i];
            let ghost before = res@;
            proof {
                assert(items@.take(i + 1).drop_last() =~= items@.take(i as int));
                assert(items@.take(i + 1).last() == item);
            }
            let ghost iw = slr_item_writes(cfg, trans, follow, s, item);
            if item.production_index < cfg.productions.len() {
                let production = &cfg.productions[item.production_index];
                if item.is_complete(production) {
                    if augmented.is_accepting_production(item.production_index) {
                        res.push((terminal_count, Action::Accept));
                        assert(res@ =~= before + iw);
                    } else {
                        let lhs = production.lhs;
                        proof {
                            assert(lhs.0 < cfg.non_terminals.len());
                        }
                        let ts = follow_sets.terminals(lhs);
                        let ghost ts_spec = follow_terms(follow, lhs.0 as int);
                        assert(ts@ == ts_spec);
                        proof {
                            crate::analysis::lemma_ids_upto(follow[lhs.0 as int]@, follow[lhs.0 as int]@.len() as int);
                        }
                        let mut k: usize = 0;
                        while k < ts.len()
                            invariant
                                k <= ts.len(),
                                ts@ == ts_spec,
                                forall|m: int| 0 <= m < ts@.len() ==> (#[trigger] ts@[m]).0 < terminal_count + 1,
                                iw == reduce_on(ts_spec, ProductionId(item.production_index)),
                                res@ == before + iw.take(k as int),
                                forall|m: int| 0 <= m < res@.len() ==> (#[trigger] res@[m]).0 <= terminal_count,
                            decreases ts.len() - k,
                        {
                            res.push((ts[k].0, Action::Reduce(ProductionId(item.production_index))));
                            proof {
                                assert(iw.take(k + 1) =~= iw.take(k as int).push(iw[k as int]));
                                assert(res@ =~= before + iw.take(k + 1));
                            }
                            k = k + 1;
                        }
                        assert(iw.take(ts.len() as int) =~= iw);
                    }
                } else {
                    match item.next_symbol(production) {
                        Some(Symbol::Terminal(term_id)) => {
                            proof {
                                assert(crate::cfg::symbol_in_range(
                                    cfg.productions@[item.production_index as int].rhs@[item.dot_position as int],
                                    cfg.terminals.len() as nat,
                                    cfg.non_terminals.len() as nat,
                                ));
                            }
                            if let Some(next_state) = collection.get_transition(state_idx, &Symbol::Terminal(term_id)) {
                                res.push((term_id.0, Action::Shift(ItemSetId(next_state))));
                                assert(res@ =~= before + iw);
                            } else {
                                assert(res@ =~= before + iw);
                            }
                        },
                        _ => {
                            assert(res@ =~= before + iw);
                        },
                    }
                }
            } else {
                assert(res@ =~= before + iw);
            }
            i = i + 1;
        }
        assert(items@.take(items.len() as int) =~= items@);
        res
    }

    /// The GOTO writes of one state.
    fn goto_writes(items: &Vec<LR0Item>, state_idx: usize, augmented: &AugmentedGrammar, collection: &LR0ItemSetCollection) -> (res:
        Vec<(usize, ItemSetId)>)
        ensures
            res@ == lr0_goto_writes(&augmented.spec_grammar(), collection.spec_transitions(), state_idx as int, items@),
    {
        let cfg = augmented.grammar();
        let ghost trans = collection.spec_transitions();
        let ghost s = state_idx as int;
        let mut res: Vec<(usize, ItemSetId)> = Vec::new();
        let mut i: usize = 0;
        while i < items.len()
            invariant
                i <= items.len(),
                *cfg == augmented.spec_grammar(),
                trans == collection.spec_transitions(),
                s == state_idx as int,
                res@ == lr0_goto_writes(cfg, trans, s, items@.take(i as int)),
            decreases items.len() - i,
        {
            let item = items[i];
            let ghost before = res@;
            proof {
                assert(items@.take(i + 1).drop_last() =~= items@.take(i as int));
                assert(items@.take(i + 1).last() == item);
            }
            let ghost gw = item_goto_writes(cfg, trans, s, item.production_index, item.dot_position);
            if item.production_index < cfg.productions.len() {
                if let Some(Symbol::NonTerminal(nt_id)) = item.next_symbol(&cfg.productions[item.production_index]) {
                    if let Some(next_state) = collection.get_transition(state_idx, &Symbol::NonTerminal(nt_id)) {
                        res.push((nt_id.0, ItemSetId(next_state)));
                    }
                }
            }
            assert(res@ =~= before + gw);
            i = i + 1;
        }
        assert(items@.take(items.len() as int) =~= items@);
        res
    }

    /// Fills the ACTION and GOTO rows of one state: reductions on FOLLOW sets,
    /// accept, shifts, then the GOTO entries.
    fn fill_table_for_state(
        table: &mut SLRTable,
        state_id: ItemSetId,
        items: &Vec<LR0Item>,
        augmented: &AugmentedGrammar,
        follow_sets: &crate::analysis::FollowSet,
        end_marker: TerminalId,
        collection: &LR0ItemSetCollection,
    )
        requires
            state_id.0 < old(table).action.cells().len(),
            state_id.0 < old(table).goto.rows().len(),
            old(table).action.cells()[state_id.0 as int].len() == old(table).action.terminals() + 1,
            old(table).action.terminals() == augmented.spec_grammar().terminals.len(),
            old(table).goto.rows()[state_id.0 as int].len() == old(table).goto.columns(),
            crate::analysis::matrix_shape(
                follow_sets.table@,
                augmented.spec_grammar().non_terminals.len() as nat,
                (augmented.spec_grammar().terminals.len() + 1) as nat,
            ),
        ensures
            final(table).state_count == old(table).state_count,
            final(table).terminal_count == old(table).terminal_count,
            final(table).non_terminal_count == old(table).non_terminal_count,
            final(table).conflicts@ == old(table).conflicts@,
            final(table).resolved_conflicts@ == old(table).resolved_conflicts@,
            final(table).action.terminals() == old(table).action.terminals(),
            final(table).goto.columns() == old(table).goto.columns(),
            final(table).action.cells() == old(table).action.cells().update(
                state_id.0 as int,
                apply_writes(
                    old(table).action.cells()[state_id.0 as int],
                    slr_state_writes(&augmented.spec_grammar(), collection.spec_transitions(), follow_sets.table@, state_id.0 as int, items@),
                ),
            ),
            final(table).goto.rows() == old(table).goto.rows().update(
                state_id.0 as int,
                apply_gotos(
                    old(table).goto.rows()[state_id.0 as int],
                    lr0_goto_writes(&augmented.spec_grammar(), collection.spec_transitions(), state_id.0 as int, items@),
                ),
            ),
    {
        let writes = Self::state_writes(items, state_id.0, augmented, follow_sets, collection);
        apply_action_writes(&mut table.action, state_id, &writes);
        let gotos = Self::goto_writes(items, state_id.0, augmented, collection);
        apply_goto_writes(&mut table.goto, state_id, &gotos);
    }
}

/// The ACTION writes of one LR(1) item in state `s`: accept on `$` for the
/// completed start production with lookahead `$`, a reduction on the lookahead
/// for another completed production, or a shift on the terminal after the dot.
pub open spec fn lr1_item_writes(g: &ContextFreeGrammar, trans: Seq<(usize, Symbol, usize)>, s: int, it: LR1Item) -> Seq<
    (usize, Action),
> {
    if complete_in(g, it.production_index, it.dot_position) {
        if it.production_index == 0 {
            if it.lookahead.0 == g.terminals.len() {
                seq![(g.terminals.len(), Action::Accept)]
            } else {
                Seq::empty()
            }
        } else {
            seq![(it.lookahead.0, Action::Reduce(ProductionId(it.production_index)))]
        }
    } else {
        match next_in(g, it.production_index, it.dot_position) {
            Some(Symbol::Terminal(t)) => shift_write(trans, s, t),
            _ => Seq::empty(),
        }
    }
}

/// The ACTION writes of LR(1) state `s`, item by item.
pub open spec fn lr1_state_writes(g: &ContextFreeGrammar, trans: Seq<(usize, Symbol, usize)>, s: int, items: Seq<LR1Item>) -> Seq<
    (usize, Action),
>
    decreases items.len(),
{
    if items.len() == 0 {
        Seq::empty()
    } else {
        lr1_state_writes(g, trans, s, items.drop_last()) + lr1_item_writes(g, trans, s, items.last())
    }
}

/// The GOTO writes of LR(1) state `s`, item by item.
pub open spec fn lr1_goto_writes(g: &ContextFreeGrammar, trans: Seq<(usize, Symbol, usize)>, s: int, items: Seq<LR1Item>) -> Seq<
    (usize, ItemSetId),
>
    decreases items.len(),
{
    if items.len() == 0 {
        Seq::empty()
    } else {
        lr1_goto_writes(g, trans, s, items.drop_last()) + item_goto_writes(
            g,
            trans,
            s,
            items.last().production_index,
            items.last().dot_position,
        )
    }
}

/// The production recorded for terminal `t` in a list of `(terminal, production)`
/// pairs: the first pair with that terminal.
pub open spec fn lookup_reduce(m: Seq<(usize, ProductionId)>, t: usize) -> Option<ProductionId>
    decreases m.len(),
{
    if m.len() == 0 {
        None
    } else {
        match lookup_reduce(m.drop_last(), t) {
            Some(p) => Some(p),
            None => if m.last().0 == t {
                Some(m.last().1)
            } else {
                None
            },
        }
    }
}

/// The position of the first pair with terminal `t`.
pub open spec fn shift_index(m: Seq<(usize, ItemSetId)>, t: usize) -> Option<int>
    decreases m.len(),
{
    if m.len() == 0 {
        None
    } else {
        match shift_index(m.drop_last(), t) {
            Some(k) => Some(k),
            None => if m.last().0 == t {
                Some(m.len() - 1)
            } else {
                None
            },
        }
    }
}

/// Records the shift to `x` on `t`: replaces the target of an existing pair for
/// `t`, or appends a new pair.
pub open spec fn record_shift(m: Seq<(usize, ItemSetId)>, t: usize, x: ItemSetId) -> Seq<(usize, ItemSetId)> {
    match shift_index(m, t) {
        Some(k) => m.update(k, (t, x)),
        None => m.push((t, x)),
    }
}

/// The scan of an LR(1) state for conflicts, item by item: the reduce/reduce
/// conflicts found so far, the first production recorded for each lookahead,
/// and the shifts recorded for each terminal.
pub open spec fn lr1_scan(
    g: &ContextFreeGrammar,
    trans: Seq<(usize, Symbol, usize)>,
    s: int,
    items: Seq<LR1Item>,
) -> (Seq<Conflict>, Seq<(usize, ProductionId)>, Seq<(usize, ItemSetId)>)
    decreases items.len(),
{
    if items.len() == 0 {
        (Seq::empty(), Seq::empty(), Seq::empty())
    } else {
        let (c, r, sh) = lr1_scan(g, trans, s, items.drop_last());
        let it = items.last();
        let p = ProductionId(it.production_index);
        if complete_in(g, it.production_index, it.dot_position) {
            if it.production_index != 0 || it.lookahead.0 != g.terminals.len() {
                match lookup_reduce(r, it.lookahead.0) {
                    Some(e) => if e != p {
                        (c.push(rr(ItemSetId(s as usize), it.lookahead, e, p)), r, sh)
                    } else {
                        (c, r, sh)
                    },
                    None => (c, r.push((it.lookahead.0, p)), sh),
                }
            } else {
                (c, r, sh)
            }
        } else {
            match next_in(g, it.production_index, it.dot_position) {
                Some(Symbol::Terminal(t)) => match target(trans, s, Symbol::Terminal(t)) {
                    Some(j) => (c, r, record_shift(sh, t.0, ItemSetId(j))),
                    None => (c, r, sh),
                },
                _ => (c, r, sh),
            }
        }
    }
}

/// The shift/reduce conflicts of recorded shifts against the recorded reductions.
pub open spec fn sr_recorded(s: int, shifts: Seq<(usize, ItemSetId)>, reduces: Seq<(usize, ProductionId)>) -> Seq<Conflict>
    decreases shifts.len(),
{
    if shifts.len() == 0 {
        Seq::empty()
    } else {
        let (t, x) = shifts.last();
        sr_recorded(s, shifts.drop_last(), reduces) + match lookup_reduce(reduces, t) {
            Some(p) => seq![sr(ItemSetId(s as usize), TerminalId(t), x, p)],
            None => Seq::empty(),
        }
    }
}

/// The conflicts the LR(1) construction reports for state `s`.
pub open spec fn lr1_state_conflicts(g: &ContextFreeGrammar, trans: Seq<(usize, Symbol, usize)>, s: int, items: Seq<LR1Item>) -> Seq<
    Conflict,
> {
    let (c, r, sh) = lr1_scan(g, trans, s, items);
    c + sr_recorded(s, sh, r)
}

/// The conflicts the LR(1) construction reports for the first `n` states.
pub open spec fn lr1_conflicts(g: &ContextFreeGrammar, trans: Seq<(usize, Symbol, usize)>, lists: Seq<Seq<LR1Item>>, n: nat) -> Seq<
    Conflict,
>
    decreases n,
{
    if n == 0 {
        Seq::empty()
    } else {
        lr1_conflicts(g, trans, lists, (n - 1) as nat) + lr1_state_conflicts(g, trans, n - 1, lists[n - 1])
    }
}

/// The production recorded for `t`, if any.
fn find_reduce(m: &Vec<(usize, ProductionId)>, t: usize) -> (res: Option<ProductionId>)
    ensures
        res == lookup_reduce(m@, t),
{
    let mut k: usize = 0;
    while k < m.len()
        invariant
            k <= m.len(),
            lookup_reduce(m@.take(k as int), t) is None,
        decreases m.len() - k,
    {
        proof {
            assert(m@.take(k + 1).drop_last() =~= m@.take(k as int));
        }
        if m[k].0 == t {
            proof {
                lemma_lookup_reduce_prefix(m@, k as int + 1, t);
            }
            return Some(m[k].1);
        }
        k = k + 1;
    }
    assert(m@.take(m.len() as int) =~= m@);
    None
}

/// Once found in a prefix, the first pair stays the answer.
proof fn lemma_lookup_reduce_prefix(m: Seq<(usize, ProductionId)>, k: int, t: usize)
    requires
        0 <= k <= m.len(),
        lookup_reduce(m.take(k), t) is Some,
    ensures
        lookup_reduce(m, t) == lookup_reduce(m.take(k), t),
    decreases m.len() - k,
{
    if k < m.len() {
        assert(m.take(k + 1).drop_last() =~= m.take(k));
        lemma_lookup_reduce_prefix(m, k + 1, t);
    } else {
        assert(m.take(k) =~= m);
    }
}

/// Once found in a prefix, the first position stays the answer.
proof fn lemma_shift_index_prefix(m: Seq<(usize, ItemSetId)>, k: int, t: usize)
    requires
        0 <= k <= m.len(),
        shift_index(m.take(k), t) is Some,
    ensures
        shift_index(m, t) == shift_index(m.take(k), t),
    decreases m.len() - k,
{
    if k < m.len() {
        assert(m.take(k + 1).drop_last() =~= m.take(k));
        lemma_shift_index_prefix(m, k + 1, t);
    } else {
        assert(m.take(k) =~= m);
    }
}

/// The first position of a pair with terminal `t`, if any.
fn find_shift(m: &Vec<(usize, ItemSetId)>, t: usize) -> (res: Option<usize>)
    ensures
        match shift_index(m@, t) {
            Some(k) => res == Some(k as usize) && 0 <= k < m@.len() && m@[k].0 == t,
            None => res is None,
        },
{
    let mut k: usize = 0;
    while k < m.len()
        invariant
            k <= m.len(),
            shift_index(m@.take(k as int), t) is None,
        decreases m.len() - k,
    {
        proof {
            assert(m@.take(k + 1).drop_last() =~= m@.take(k as int));
        }
        if m[k].0 == t {
            proof {
                assert(shift_index(m@.take(k + 1), t) == Some(k as int));
                lemma_shift_index_prefix(m@, k as int + 1, t);
            }
            return Some(k);
        }
        k = k + 1;
    }
    assert(m@.take(m.len() as int) =~= m@);
    None
}

/// Records the shift to `x` on `t` (see `record_shift`).
fn put_shift(m: &mut Vec<(usize, ItemSetId)>, t: usize, x: ItemSetId)
    ensures
        final(m)@ == record_shift(old(m)@, t, x),
{
    match find_shift(m, t) {
        Some(k) => {
            m.set(k, (t, x));
        },
        None => {
            m.push((t, x));
        },
    }
}

/// The LR(1) parsing table.
#[derive(Debug)]
pub struct LR1Table {
    pub action: ActionTable,
    pub goto: GotoTable,
    pub state_count: usize,
    pub terminal_count: usize,
    pub non_terminal_count: usize,
    pub conflicts: Vec<Conflict>,
}

impl LR1Table {
    /// An empty table: every ACTION entry `Error`, every GOTO entry empty, no conflicts.
    pub fn new(state_count: usize, terminal_count: usize, non_terminal_count: usize) -> (res: Self)
        requires
            terminal_count < usize::MAX,
        ensures
            res.state_count == state_count,
            res.terminal_count == terminal_count,
            res.non_terminal_count == non_terminal_count,
            res.conflicts@.len() == 0,
            tables_shaped(&res.action, &res.goto, state_count as nat, terminal_count as nat, non_terminal_count as nat),
            forall|s: int| 0 <= s < state_count ==> #[trigger] res.action.cells()[s] == error_row((terminal_count + 1) as nat),
            forall|s: int| 0 <= s < state_count ==> #[trigger] res.goto.rows()[s] == empty_goto_row(non_terminal_count as nat),
    {
        let t = LR0Table::new(state_count, terminal_count, non_terminal_count);
        LR1Table { action: t.action, goto: t.goto, state_count, terminal_count, non_terminal_count, conflicts: Vec::new() }
    }

    /// Whether the construction found conflicts.
    pub fn has_conflicts(&self) -> (res: bool)
        ensures
            res == (self.conflicts@.len() > 0),
    {
        self.conflicts.len() > 0
    }

    /// The report of the conflicts.
    pub fn conflict_report(&self) -> (res: ConflictReport)
        ensures
            res.conflicts@ == self.conflicts@,
            res.shift_reduce_count == crate::lr::conflict::count_sr(self.conflicts@),
            res.reduce_reduce_count == crate::lr::conflict::count_rr(self.conflicts@),
    {
        ConflictReport::new(copy_conflicts(&self.conflicts))
    }

    /// LR(1) when there is no conflict, otherwise not LR.
    pub fn grammar_type(&self) -> (res: GrammarType)
        ensures
            res == (if self.conflicts@.len() == 0 {
                GrammarType::LR1
            } else {
                GrammarType::NotLR
            }),
    {
        if self.conflicts.len() == 0 {
            GrammarType::LR1
        } else {
            GrammarType::NotLR
        }
    }

    /// Whether the grammar is LR(1): there is no conflict.
    pub fn is_lr1(&self) -> (res: bool)
        ensures
            res == (self.conflicts@.len() == 0),
    {
        self.conflicts.len() == 0
    }
}

/// The LR(1) table `t` is the one the construction gives for the states with
/// item lists `lists` and the transitions `trans` of `g`.
pub open spec fn is_lr1_table(
    g: &ContextFreeGrammar,
    lists: Seq<Seq<LR1Item>>,
    trans: Seq<(usize, Symbol, usize)>,
    t: &LR1Table,
) -> bool {
    let n = lists.len();
    &&& t.state_count == n
    &&& t.terminal_count == g.terminals.len()
    &&& t.non_terminal_count == g.non_terminals.len()
    &&& tables_shaped(&t.action, &t.goto, n, g.terminals.len() as nat, g.non_terminals.len() as nat)
    &&& forall|s: int|
        0 <= s < n ==> #[trigger] t.action.cells()[s] == apply_writes(
            error_row((g.terminals.len() + 1) as nat),
            lr1_state_writes(g, trans, s, lists[s]),
        )
    &&& forall|s: int|
        0 <= s < n ==> #[trigger] t.goto.rows()[s] == apply_gotos(
            empty_goto_row(g.non_terminals.len() as nat),
            lr1_goto_writes(g, trans, s, lists[s]),
        )
    &&& t.conflicts@ == lr1_conflicts(g, trans, lists, n)
}

/// The lookaheads of the items of the lists are terminals or `$`.
pub open spec fn lookaheads_fit(g: &ContextFreeGrammar, lists: Seq<Seq<LR1Item>>) -> bool {
    forall|s: int, k: int|
        0 <= s < lists.len() && 0 <= k < lists[s].len() ==> (#[trigger] lists[s][k]).lookahead.0 <= g.terminals.len()
}

/// `calc` holds the NULLABLE and FIRST sets and the end marker of `g`.
pub open spec fn is_calculator_for(g: &ContextFreeGrammar, calc: &LookaheadCalculator) -> bool {
    &&& crate::analysis::is_nullable_set(g, calc.nullable_flags())
    &&& crate::analysis::is_first_sets(g, calc.nul(), calc.first_rows())
    &&& calc.spec_end_marker() == TerminalId(g.terminals.len())
}

/// The table is the canonical LR(1) table of `g`.
pub open spec fn lr1_table_of(g: &ContextFreeGrammar, t: &LR1Table) -> bool {
    exists|calc: LookaheadCalculator, c: LR1ItemSetCollection|
        is_calculator_for(g, &calc) && crate::lr::states::is_lr1_collection(
            g,
            &calc,
            c.spec_states(),
            c.spec_transitions(),
        ) && is_lr1_table(g, c.state_items(), c.spec_transitions(), t)
}

/// LR(1) table construction.
pub struct LR1TableBuilder;

impl LR1TableBuilder {
    /// The LR(1) table of an augmented grammar.
    pub fn build(augmented: &AugmentedGrammar) -> (res: LR1Table)
        ensures
            lr1_table_of(&augmented.spec_grammar(), &res),
    {
        let cfg = augmented.grammar();
        let calculator = LookaheadCalculator::new(cfg);
        let collection = LR1ItemSetCollection::build_from_augmented(augmented, &calculator);
        proof {
            collection.lemma_state_items();
            lemma_lookaheads_fit(cfg, collection.state_items(), collection.spec_states());
        }
        let res = Self::build_from_collection(augmented, &collection, &calculator);
        assert(is_calculator_for(cfg, &calculator));
        res
    }

    /// The LR(1) table of an augmented grammar for the given states and transitions.
    pub fn build_from_collection(
        augmented: &AugmentedGrammar,
        collection: &LR1ItemSetCollection,
        calculator: &LookaheadCalculator,
    ) -> (res: LR1Table)
        requires
            lookaheads_fit(&augmented.spec_grammar(), collection.state_items()),
            calculator.spec_end_marker() == TerminalId(augmented.spec_grammar().terminals.len()),
        ensures
            is_lr1_table(&augmented.spec_grammar(), collection.state_items(), collection.spec_transitions(), &res),
    {
        let cfg = augmented.grammar();
        let states = collection.states();
        let ghost trans = collection.spec_transitions();
        let ghost lists = collection.state_items();
        let state_count = states.len();
        let terminal_count = cfg.terminals.len();
        let non_terminal_count = cfg.non_terminals.len();
        let end_marker = calculator.end_marker();
        let mut table = LR1Table::new(state_count, terminal_count, non_terminal_count);
        let ghost err = error_row((terminal_count + 1) as nat);
        let ghost nog = empty_goto_row(non_terminal_count as nat);
        let mut state_idx: usize = 0;
        while state_idx < state_count
            invariant
                cfg.wf(),
                *cfg == augmented.spec_grammar(),
                state_count == states@.len(),
                state_count == lists.len(),
                lists == collection.state_items(),
                lookaheads_fit(cfg, lists),
                trans == collection.spec_transitions(),
                forall|i: int| 0 <= i < states@.len() ==> (#[trigger] states@[i]).item_list() == lists[i],
                terminal_count == cfg.terminals.len(),
                non_terminal_count == cfg.non_terminals.len(),
                end_marker == TerminalId(terminal_count),
                err == error_row((terminal_count + 1) as nat),
                nog == empty_goto_row(non_terminal_count as nat),
                state_idx <= state_count,
                table.state_count == state_count,
                table.terminal_count == terminal_count,
                table.non_terminal_count == non_terminal_count,
                table.conflicts@.len() == 0,
                tables_shaped(&table.action, &table.goto, state_count as nat, terminal_count as nat, non_terminal_count as nat),
                forall|s: int|
                    0 <= s < state_idx ==> #[trigger] table.action.cells()[s] == apply_writes(err, lr1_state_writes(cfg, trans, s, lists[s])),
                forall|s: int| state_idx <= s < state_count ==> #[trigger] table.action.cells()[s] == err,
                forall|s: int|
                    0 <= s < state_idx ==> #[trigger] table.goto.rows()[s] == apply_gotos(nog, lr1_goto_writes(cfg, trans, s, lists[s])),
                forall|s: int| state_idx <= s < state_count ==> #[trigger] table.goto.rows()[s] == nog,
            decreases state_count - state_idx,
        {
            let state_id = ItemSetId(state_idx);
            let items = states[state_idx].items();
            let writes = lr1_writes(items, state_idx, augmented, collection, end_marker);
            apply_action_writes(&mut table.action, state_id, &writes);
            let gotos = lr1_gotos(items, state_idx, augmented, collection);
            apply_goto_writes(&mut table.goto, state_id, &gotos);
            proof {
                lemma_apply_len(err, lr1_state_writes(cfg, trans, state_idx as int, lists[state_idx as int]));
                lemma_apply_gotos_len(nog, lr1_goto_writes(cfg, trans, state_idx as int, lists[state_idx as int]));
            }
            state_idx = state_idx + 1;
        }
        table.conflicts = Self::detect_conflicts(&table, collection, augmented, end_marker);
        table
    }

    /// The conflicts of the LR(1) states: while scanning the items of a state, a
    /// completed item whose lookahead already has a reduction by another
    /// production is a reduce/reduce conflict; afterwards each recorded shift with
    /// a recorded reduction on its terminal is a shift/reduce conflict.
    fn detect_conflicts(
        table: &LR1Table,
        collection: &LR1ItemSetCollection,
        augmented: &AugmentedGrammar,
        end_marker: TerminalId,
    ) -> (res: Vec<Conflict>)
        requires
            end_marker == TerminalId(augmented.spec_grammar().terminals.len()),
        ensures
            res@ == lr1_conflicts(
                &augmented.spec_grammar(),
                collection.spec_transitions(),
                collection.state_items(),
                collection.state_items().len(),
            ),
    {
        let cfg = augmented.grammar();
        let states = collection.states();
        let ghost lists = collection.state_items();
        let ghost trans = collection.spec_transitions();
        let mut conflicts: Vec<Conflict> = Vec::new();
        let mut state_id: usize = 0;
        while state_id < states.len()
            invariant
                state_id <= states.len(),
                *cfg == augmented.spec_grammar(),
                end_marker == TerminalId(cfg.terminals.len()),
                states@.len() == lists.len(),
                lists == collection.state_items(),
                trans == collection.spec_transitions(),
                forall|i: int| 0 <= i < states@.len() ==> (#[trigger] states@[i]).item_list() == lists[i],
                conflicts@ == lr1_conflicts(cfg, trans, lists, state_id as nat),
            decreases states.len() - state_id,
        {
            let ghost s = state_id as int;
            let items = states[state_id].items();
            let ghost prefix = conflicts@;
            let mut shift_terms: Vec<(usize, ItemSetId)> = Vec::new();
            let mut reduce_terms: Vec<(usize, ProductionId)> = Vec::new();
            let mut i: usize = 0;
            while i < items.len()
                invariant
                    i <= items.len(),
                    s == state_id,
                    *cfg == augmented.spec_grammar(),
                    end_marker == TerminalId(cfg.terminals.len()),
                    trans == collection.spec_transitions(),
                    ({
                        let (c, r, sh) = lr1_scan(cfg, trans, s, items@.take(i as int));
                        &&& conflicts@ == prefix + c
                        &&& reduce_terms@ == r
                        &&& shift_terms@ == sh
                    }),
                decreases items.len() - i,
            {
                let item = items[i];
                let ghost before = conflicts@;
                proof {
                    assert(items@.take(i + 1).drop_last() =~= items@.take(i as int));
                    assert(items@.take(i + 1).last() == item);
                }
                if item.production_index < cfg.productions.len() {
                    let production = &cfg.productions[item.production_index];
                    if item.is_complete(production) {
                        if !augmented.is_accepting_production(item.production_index) || item.lookahead != end_marker {
                            match find_reduce(&reduce_terms, item.lookahead.0) {
                                Some(existing) => {
                                    if existing != ProductionId(item.production_index) {
                                        conflicts.push(Conflict::reduce_reduce(
                                            ItemSetId(state_id),
                                            item.lookahead,
                                            existing,
                                            ProductionId(item.production_index),
                                        ));
                                    }
                                },
                                None => {
                                    reduce_terms.push((item.lookahead.0, ProductionId(item.production_index)));
                                },
                            }
                        }
                    } else if let Some(Symbol::Terminal(term_id)) = item.next_symbol(production) {
                        if let Some(next_state) = collection.get_transition(state_id, &Symbol::Terminal(term_id)) {
                            put_shift(&mut shift_terms, term_id.0, ItemSetId(next_state));
                        }
                    }
                }
                proof {
                    let (c, r, sh) = lr1_scan(cfg, trans, s, items@.take(i + 1));
                    let (c0, r0, sh0) = lr1_scan(cfg, trans, s, items@.take(i as int));
                    assert(conflicts@ =~= prefix + c);
                }
                i = i + 1;
            }
            assert(items@.take(items.len() as int) =~= items@);
            let ghost mid = conflicts@;
            let mut a: usize = 0;
            while a < shift_terms.len()
                invariant
                    a <= shift_terms.len(),
                    s == state_id,
                    conflicts@ == mid + sr_recorded(s, shift_terms@.take(a as int), reduce_terms@),
                decreases shift_terms.len() - a,
            {
                let (term, shift_state) = shift_terms[a];
                proof {
                    assert(shift_terms@.take(a + 1).drop_last() =~= shift_terms@.take(a as int));
                    assert(shift_terms@.take(a + 1).last() == (term, shift_state));
                }
                if let Some(prod_id) = find_reduce(&reduce_terms, term) {
                    conflicts.push(Conflict::shift_reduce(ItemSetId(state_id), TerminalId(term), shift_state, prod_id));
                }
                assert(conflicts@ =~= mid + sr_recorded(s, shift_terms@.take(a + 1), reduce_terms@));
                a = a + 1;
            }
            proof {
                assert(shift_terms@.take(shift_terms.len() as int) =~= shift_terms@);
                assert(conflicts@ =~= lr1_conflicts(cfg, trans, lists, (state_id + 1) as nat));
            }
            state_id = state_id + 1;
        }
        conflicts
    }
}

/// The items of the states lie in the LR(1) universe, so their lookaheads are
/// terminals or `$`.
proof fn lemma_lookaheads_fit(g: &ContextFreeGrammar, lists: Seq<Seq<LR1Item>>, sets: Seq<Set<LR1Item>>)
    requires
        lists.len() == sets.len(),
        forall|i: int| 0 <= i < sets.len() ==> #[trigger] lists[i].to_set() == sets[i],
        forall|i: int| 0 <= i < sets.len() ==> (#[trigger] sets[i]).subset_of(crate::lr::states::universe1(g)),
    ensures
        lookaheads_fit(g, lists),
{
    assert forall|s: int, k: int| 0 <= s < lists.len() && 0 <= k < lists[s].len() implies (#[trigger] lists[s][k]).lookahead.0
        <= g.terminals.len() by {
        assert(lists[s].to_set().contains(lists[s][k]));
        assert(sets[s].contains(lists[s][k]));
    }
}

/// The ACTION writes of one LR(1) state.
fn lr1_writes(
    items: &Vec<LR1Item>,
    state_idx: usize,
    augmented: &AugmentedGrammar,
    collection: &LR1ItemSetCollection,
    end_marker: TerminalId,
) -> (res: Vec<(usize, Action)>)
    requires
        end_marker == TerminalId(augmented.spec_grammar().terminals.len()),
        forall|k: int| 0 <= k < items@.len() ==> (#[trigger] items@[k]).lookahead.0 <= augmented.spec_grammar().terminals.len(),
    ensures
        res@ == lr1_state_writes(&augmented.spec_grammar(), collection.spec_transitions(), state_idx as int, items@),
        forall|k: int| 0 <= k < res@.len() ==> (#[trigger] res@[k]).0 <= augmented.spec_grammar().terminals.len(),
{
    let cfg = augmented.grammar();
    let ghost trans = collection.spec_transitions();
    let ghost s = state_idx as int;
    let terminal_count = cfg.terminals.len();
    let mut res: Vec<(usize, Action)> = Vec::new();
    let mut i: usize = 0;
    while i < items.len()
        invariant
            i <= items.len(),
            cfg.wf(),
            *cfg == augmented.spec_grammar(),
            terminal_count == cfg.terminals.len(),
            end_marker == TerminalId(terminal_count),
            forall|k: int| 0 <= k < items@.len() ==> (#[trigger] items@[k]).lookahead.0 <= terminal_count,
            trans == collection.spec_transitions(),
            s == state_idx as int,
            res@ == lr1_state_writes(cfg, trans, s, items@.take(i as int)),
            forall|k: int| 0 <= k < res@.len() ==> (#[trigger] res@[k]).0 <= terminal_count,
        decreases items.len() - i,
    {
        let item = items[i];
        let ghost before = res@;
        proof {
            assert(items@.take(i + 1).drop_last() =~= items@.take(i as int));
            assert(items@.take(i + 1).last() == item);
            assert(items@[i as int] == item);
        }
        if item.production_index < cfg.productions.len() {
            let production = &cfg.productions[item.production_index];
            if item.is_complete(production) {
                if augmented.is_accepting_production(item.production_index) {
                    if item.lookahead == end_marker {
                        res.push((end_marker.0, Action::Accept));
                    }
                } else {
                    res.push((item.lookahead.0, Action::Reduce(ProductionId(item.production_index))));
                }
            } else {
                match item.next_symbol(production) {
                    Some(Symbol::Terminal(term_id)) => {
                        proof {
                            assert(crate::cfg::symbol_in_range(
                                cfg.productions@[item.production_index as int].rhs@[item.dot_position as int],
                                cfg.terminals.len() as nat,
                                cfg.non_terminals.len() as nat,
                            ));
                        }
                        if let Some(next_state) = collection.get_transition(state_idx, &Symbol::Terminal(term_id)) {
                            res.push((term_id.0, Action::Shift(ItemSetId(next_state))));
                        }
                    },
                    _ => {},
                }
            }
        }
        assert(res@ =~= lr1_state_writes(cfg, trans, s, items@.take(i + 1)));
        i = i + 1;
    }
    assert(items@.take(items.len() as int) =~= items@);
    res
}

/// The GOTO writes of one LR(1) state.
fn lr1_gotos(items: &Vec<LR1Item>, state_idx: usize, augmented: &AugmentedGrammar, collection: &LR1ItemSetCollection) -> (res: Vec<
    (usize, ItemSetId),
>)
    ensures
        res@ == lr1_goto_writes(&augmented.spec_grammar(), collection.spec_transitions(), state_idx as int, items@),
{
    let cfg = augmented.grammar();
    let ghost trans = collection.spec_transitions();
    let ghost s = state_idx as int;
    let mut res: Vec<(usize, ItemSetId)> = Vec::new();
    let mut i: usize = 0;
    while i < items.len()
        invariant
            i <= items.len(),
            *cfg == augmented.spec_grammar(),
            trans == collection.spec_transitions(),
            s == state_idx as int,
            res@ == lr1_goto_writes(cfg, trans, s, items@.take(i as int)),
        decreases items.len() - i,
    {
        let item = items[i];
        proof {
            assert(items@.take(i + 1).drop_last() =~= items@.take(i as int));
            assert(items@.take(i + 1).last() == item);
        }
        if item.production_index < cfg.productions.len() {
            let production = &cfg.productions[item.production_index];
            if !item.is_complete(production) {
                if let Some(Symbol::NonTerminal(nt_id)) = item.next_symbol(production) {
                    if let Some(next_state) = collection.get_transition(state_idx, &Symbol::NonTerminal(nt_id)) {
                        res.push((nt_id.0, ItemSetId(next_state)));
                    }
                }
            }
        }
        assert(res@ =~= lr1_goto_writes(cfg, trans, s, items@.take(i + 1)));
        i = i + 1;
    }
    assert(items@.take(items.len() as int) =~= items@);
    res
}

/// The LALR(1) parsing table.
#[derive(Debug)]
pub struct LALR1Table {
    pub action: ActionTable,
    pub goto: GotoTable,
    pub state_count: usize,
    pub terminal_count: usize,
    pub non_terminal_count: usize,
    pub conflicts: Vec<Conflict>,
    pub merged_states: usize,
}

impl LALR1Table {
    /// An empty table: every ACTION entry `Error`, every GOTO entry empty, no conflicts.
    pub fn new(state_count: usize, terminal_count: usize, non_terminal_count: usize) -> (res: Self)
        requires
            terminal_count < usize::MAX,
        ensures
            res.state_count == state_count,
            res.terminal_count == terminal_count,
            res.non_terminal_count == non_terminal_count,
            res.conflicts@.len() == 0,
            res.merged_states == 0,
            tables_shaped(&res.action, &res.goto, state_count as nat, terminal_count as nat, non_terminal_count as nat),
            forall|s: int| 0 <= s < state_count ==> #[trigger] res.action.cells()[s] == error_row((terminal_count + 1) as nat),
            forall|s: int| 0 <= s < state_count ==> #[trigger] res.goto.rows()[s] == empty_goto_row(non_terminal_count as nat),
    {
        let t = LR0Table::new(state_count, terminal_count, non_terminal_count);
        LALR1Table {
            action: t.action,
            goto: t.goto,
            state_count,
            terminal_count,
            non_terminal_count,
            conflicts: Vec::new(),
            merged_states: 0,
        }
    }

    /// Whether merging introduced conflicts.
    pub fn has_conflicts(&self) -> (res: bool)
        ensures
            res == (self.conflicts@.len() > 0),
    {
        self.conflicts.len() > 0
    }

    /// The report of the conflicts.
    pub fn conflict_report(&self) -> (res: ConflictReport)
        ensures
            res.conflicts@ == self.conflicts@,
            res.shift_reduce_count == crate::lr::conflict::count_sr(self.conflicts@),
            res.reduce_reduce_count == crate::lr::conflict::count_rr(self.conflicts@),
    {
        ConflictReport::new(copy_conflicts(&self.conflicts))
    }

    /// LALR(1) when there is no conflict, otherwise not LR.
    pub fn grammar_type(&self) -> (res: GrammarType)
        ensures
            res == (if self.conflicts@.len() == 0 {
                GrammarType::LALR1
            } else {
                GrammarType::NotLR
            }),
    {
        if self.conflicts.len() == 0 {
            GrammarType::LALR1
        } else {
            GrammarType::NotLR
        }
    }

    /// Whether the grammar is LALR(1): there is no conflict.
    pub fn is_lalr1(&self) -> (res: bool)
        ensures
            res == (self.conflicts@.len() == 0),
    {
        self.conflicts.len() == 0
    }
}

/// `merged` is the LALR merge of the LR(1) states `lr1` under `mapping`: state
/// `i` goes to merged state `mapping[i]`; two states go to the same merged state
/// exactly when they have the same cores; a merged state holds the items of its
/// states; merged states are numbered in order of their first LR(1) state.
pub open spec fn is_lalr_merge(lr1: Seq<Set<LR1Item>>, mapping: Seq<usize>, merged: Seq<Set<LR1Item>>) -> bool {
    &&& mapping.len() == lr1.len()
    &&& forall|i: int| 0 <= i < mapping.len() ==> #[trigger] mapping[i] < merged.len()
    &&& forall|i: int, j: int|
        0 <= i < mapping.len() && 0 <= j < mapping.len() ==> (#[trigger] mapping[i] == #[trigger] mapping[j]
            <==> crate::lr::item_set::cores(lr1[i]) == crate::lr::item_set::cores(lr1[j]))
    &&& forall|m: int, x: LR1Item|
        0 <= m < merged.len() ==> (#[trigger] merged[m].contains(x) <==> exists|i: int|
            0 <= i < mapping.len() && mapping[i] == m && #[trigger] lr1[i].contains(x))
    &&& forall|m: int| 0 <= m < merged.len() ==> #[trigger] numbered_in_order(mapping, m)
}

/// Merged state `m` first appears after the first appearance of every smaller number.
pub open spec fn numbered_in_order(mapping: Seq<usize>, m: int) -> bool {
    exists|i: int| 0 <= i < mapping.len() && mapping[i] == m && forall|j: int| 0 <= j < i ==> #[trigger] mapping[j] < m
}

/// The LR(1) state standing for merged state `m`: the last one merged into it.
pub open spec fn representative(mapping: Seq<usize>, m: int) -> int
    decreases mapping.len(),
{
    if mapping.len() == 0 {
        0
    } else if mapping.last() == m {
        mapping.len() - 1
    } else {
        representative(mapping.drop_last(), m)
    }
}

/// The target, as a merged state, of the LR(1) transition from `rep` on `x`.
pub open spec fn merged_target(trans: Seq<(usize, Symbol, usize)>, mapping: Seq<usize>, rep: int, x: Symbol) -> Option<usize> {
    match target(trans, rep, x) {
        Some(j) => if j < mapping.len() {
            Some(mapping[j as int])
        } else {
            None
        },
        None => None,
    }
}

/// The ACTION writes of one item of merged state `m` in the LALR(1) table.
pub open spec fn lalr_item_writes(
    g: &ContextFreeGrammar,
    trans: Seq<(usize, Symbol, usize)>,
    mapping: Seq<usize>,
    rep: int,
    it: LR1Item,
) -> Seq<(usize, Action)> {
    if complete_in(g, it.production_index, it.dot_position) {
        if it.production_index == 0 {
            if it.lookahead.0 == g.terminals.len() {
                seq![(g.terminals.len(), Action::Accept)]
            } else {
                Seq::empty()
            }
        } else {
            seq![(it.lookahead.0, Action::Reduce(ProductionId(it.production_index)))]
        }
    } else {
        match next_in(g, it.production_index, it.dot_position) {
            Some(Symbol::Terminal(t)) => match merged_target(trans, mapping, rep, Symbol::Terminal(t)) {
                Some(j) => seq![(t.0, Action::Shift(ItemSetId(j)))],
                None => Seq::empty(),
            },
            _ => Seq::empty(),
        }
    }
}

/// The GOTO writes of one item of a merged state.
pub open spec fn lalr_item_gotos(
    g: &ContextFreeGrammar,
    trans: Seq<(usize, Symbol, usize)>,
    mapping: Seq<usize>,
    rep: int,
    it: LR1Item,
) -> Seq<(usize, ItemSetId)> {
    if complete_in(g, it.production_index, it.dot_position) {
        Seq::empty()
    } else {
        match next_in(g, it.production_index, it.dot_position) {
            Some(Symbol::NonTerminal(n)) => match merged_target(trans, mapping, rep, Symbol::NonTerminal(n)) {
                Some(j) => seq![(n.0, ItemSetId(j))],
                None => Seq::empty(),
            },
            _ => Seq::empty(),
        }
    }
}

/// The ACTION writes of a merged state, item by item.
pub open spec fn lalr_state_writes(
    g: &ContextFreeGrammar,
    trans: Seq<(usize, Symbol, usize)>,
    mapping: Seq<usize>,
    rep: int,
    items: Seq<LR1Item>,
) -> Seq<(usize, Action)>
    decreases items.len(),
{
    if items.len() == 0 {
        Seq::empty()
    } else {
        lalr_state_writes(g, trans, mapping, rep, items.drop_last()) + lalr_item_writes(g, trans, mapping, rep, items.last())
    }
}

/// The GOTO writes of a merged state, item by item.
pub open spec fn lalr_state_gotos(
    g: &ContextFreeGrammar,
    trans: Seq<(usize, Symbol, usize)>,
    mapping: Seq<usize>,
    rep: int,
    items: Seq<LR1Item>,
) -> Seq<(usize, ItemSetId)>
    decreases items.len(),
{
    if items.len() == 0 {
        Seq::empty()
    } else {
        lalr_state_gotos(g, trans, mapping, rep, items.drop_last()) + lalr_item_gotos(g, trans, mapping, rep, items.last())
    }
}

/// The reduce/reduce scan of a merged state: conflicts found so far and the first
/// production recorded for each lookahead.
pub open spec fn lalr_scan(g: &ContextFreeGrammar, s: int, items: Seq<LR1Item>) -> (Seq<Conflict>, Seq<(usize, ProductionId)>)
    decreases items.len(),
{
    if items.len() == 0 {
        (Seq::empty(), Seq::empty())
    } else {
        let (c, r) = lalr_scan(g, s, items.drop_last());
        let it = items.last();
        let p = ProductionId(it.production_index);
        if complete_in(g, it.production_index, it.dot_position) && (it.production_index != 0 || it.lookahead.0
            != g.terminals.len()) {
            match lookup_reduce(r, it.lookahead.0) {
                Some(e) => if e != p {
                    (c.push(rr(ItemSetId(s as usize), it.lookahead, e, p)), r)
                } else {
                    (c, r)
                },
                None => (c, r.push((it.lookahead.0, p))),
            }
        } else {
            (c, r)
        }
    }
}

/// The shift entries of the first `n` columns of a row, as `(terminal, target)`.
pub open spec fn row_shifts(row: Seq<Action>, n: nat) -> Seq<(usize, ItemSetId)>
    decreases n,
{
    if n == 0 {
        Seq::empty()
    } else {
        row_shifts(row, (n - 1) as nat) + match row[n - 1] {
            Action::Shift(x) => seq![((n - 1) as usize, x)],
            _ => Seq::empty(),
        }
    }
}

/// The conflicts the LALR(1) construction reports for merged state `s`: the
/// reduce/reduce conflicts of its items, then each shift entry of its ACTION row
/// with a recorded reduction on the same terminal.
pub open spec fn lalr_state_conflicts(g: &ContextFreeGrammar, s: int, row: Seq<Action>, items: Seq<LR1Item>) -> Seq<Conflict> {
    let (c, r) = lalr_scan(g, s, items);
    c + sr_recorded(s, row_shifts(row, (g.terminals.len() + 1) as nat), r)
}

/// The conflicts the LALR(1) construction reports for the first `n` merged states.
pub open spec fn lalr_conflicts(g: &ContextFreeGrammar, cells: Seq<Seq<Action>>, lists: Seq<Seq<LR1Item>>, n: nat) -> Seq<Conflict>
    decreases n,
{
    if n == 0 {
        Seq::empty()
    } else {
        lalr_conflicts(g, cells, lists, (n - 1) as nat) + lalr_state_conflicts(g, n - 1, cells[n - 1], lists[n - 1])
    }
}

/// The LALR(1) table `t` is the one the construction gives for the merged states
/// with item lists `lists` under `mapping` of the LR(1) transitions `trans`.
pub open spec fn is_lalr_table(
    g: &ContextFreeGrammar,
    lr1_count: nat,
    trans: Seq<(usize, Symbol, usize)>,
    mapping: Seq<usize>,
    lists: Seq<Seq<LR1Item>>,
    t: &LALR1Table,
) -> bool {
    let n = lists.len();
    &&& t.state_count == n
    &&& t.terminal_count == g.terminals.len()
    &&& t.non_terminal_count == g.non_terminals.len()
    &&& t.merged_states == lr1_count - n
    &&& tables_shaped(&t.action, &t.goto, n, g.terminals.len() as nat, g.non_terminals.len() as nat)
    &&& forall|s: int|
        0 <= s < n ==> #[trigger] t.action.cells()[s] == apply_writes(
            error_row((g.terminals.len() + 1) as nat),
            lalr_state_writes(g, trans, mapping, representative(mapping, s), lists[s]),
        )
    &&& forall|s: int|
        0 <= s < n ==> #[trigger] t.goto.rows()[s] == apply_gotos(
            empty_goto_row(g.non_terminals.len() as nat),
            lalr_state_gotos(g, trans, mapping, representative(mapping, s), lists[s]),
        )
    &&& t.conflicts@ == lalr_conflicts(g, t.action.cells(), lists, n)
}

/// The cores of a union are the union of the cores.
proof fn lemma_cores_union(a: Set<LR1Item>, b: Set<LR1Item>)
    ensures
        crate::lr::item_set::cores(a.union(b)) == crate::lr::item_set::cores(a).union(crate::lr::item_set::cores(b)),
{
    let ca = crate::lr::item_set::cores(a);
    let cb = crate::lr::item_set::cores(b);
    let cu = crate::lr::item_set::cores(a.union(b));
    assert forall|c: LR0Item| cu.contains(c) <==> ca.union(cb).contains(c) by {
        if cu.contains(c) {
            let x = choose|x: LR1Item| a.union(b).contains(x) && x.spec_core() == c;
            if a.contains(x) {
                assert(ca.contains(c));
            } else {
                assert(cb.contains(c));
            }
        }
        if ca.contains(c) {
            let x = choose|x: LR1Item| a.contains(x) && x.spec_core() == c;
            assert(a.union(b).contains(x));
        }
        if cb.contains(c) {
            let x = choose|x: LR1Item| b.contains(x) && x.spec_core() == c;
            assert(a.union(b).contains(x));
        }
    }
    assert(cu =~= ca.union(cb));
}

/// The item sets of merged states.
pub open spec fn list_sets(lists: Seq<Seq<LR1Item>>) -> Seq<Set<LR1Item>> {
    Seq::new(lists.len(), |m: int| lists[m].to_set())
}

/// The table is the LALR(1) table of `g`: the LR(1) table with states of equal cores merged.
pub open spec fn lalr1_table_of(g: &ContextFreeGrammar, t: &LALR1Table) -> bool {
    exists|calc: LookaheadCalculator, c: LR1ItemSetCollection, mapping: Seq<usize>, lists: Seq<Seq<LR1Item>>|
        is_calculator_for(g, &calc) && crate::lr::states::is_lr1_collection(
            g,
            &calc,
            c.spec_states(),
            c.spec_transitions(),
        ) && is_lalr_merge(c.spec_states(), mapping, list_sets(lists)) && is_lalr_table(
            g,
            c.spec_states().len(),
            c.spec_transitions(),
            mapping,
            lists,
            t,
        )
}

/// LALR(1) table construction: the LR(1) states with the same core are merged.
pub struct LALR1TableBuilder;

impl LALR1TableBuilder {
    /// The LALR(1) table of an augmented grammar.
    pub fn build(augmented: &AugmentedGrammar) -> (res: LALR1Table)
        ensures
            lalr1_table_of(&augmented.spec_grammar(), &res),
    {
        let cfg = augmented.grammar();
        let calculator = LookaheadCalculator::new(cfg);
        let lr1_collection = LR1ItemSetCollection::build_from_augmented(augmented, &calculator);
        proof {
            lr1_collection.lemma_state_items();
            lemma_lookaheads_fit(cfg, lr1_collection.state_items(), lr1_collection.spec_states());
        }
        let res = Self::build_from_lr1_collection(augmented, &lr1_collection, &calculator);
        assert(is_calculator_for(cfg, &calculator));
        res
    }

    /// The LALR(1) table of an augmented grammar from its LR(1) states: states with
    /// the same core are merged, and the table is filled from the merged states.
    pub fn build_from_lr1_collection(
        augmented: &AugmentedGrammar,
        lr1_collection: &LR1ItemSetCollection,
        calculator: &LookaheadCalculator,
    ) -> (res: LALR1Table)
        requires
            lookaheads_fit(&augmented.spec_grammar(), lr1_collection.state_items()),
            calculator.spec_end_marker() == TerminalId(augmented.spec_grammar().terminals.len()),
        ensures
            exists|mapping: Seq<usize>, lists: Seq<Seq<LR1Item>>|
                is_lalr_merge(lr1_collection.spec_states(), mapping, list_sets(lists)) && is_lalr_table(
                    &augmented.spec_grammar(),
                    lr1_collection.spec_states().len(),
                    lr1_collection.spec_transitions(),
                    mapping,
                    lists,
                    &res,
                ),
    {
        let cfg = augmented.grammar();
        let end_marker = calculator.end_marker();
        let states = lr1_collection.states();
        let ghost lr1 = lr1_collection.spec_states();
        let ghost trans = lr1_collection.spec_transitions();
        proof {
            lr1_collection.lemma_state_items();
        }
        let mut merger = CoreSetMerger::new();
        let mut state_mapping: Vec<usize> = Vec::new();
        let mut k: usize = 0;
        while k < states.len()
            invariant
                k <= states.len(),
                states@.len() == lr1.len(),
                forall|i: int| 0 <= i < states@.len() ==> (#[trigger] states@[i])@ == lr1[i],
                lr1 == lr1_collection.spec_states(),
                is_lalr_merge(lr1.take(k as int), state_mapping@, merger.spec_states()),
                forall|m1: int, m2: int|
                    0 <= m1 < merger.spec_states().len() && 0 <= m2 < merger.spec_states().len() && m1 != m2
                        ==> crate::lr::item_set::cores(merger.spec_states()[m1]) != crate::lr::item_set::cores(
                        merger.spec_states()[m2],
                    ),
                forall|i: int| 0 <= i < k ==> crate::lr::item_set::cores(merger.spec_states()[#[trigger] state_mapping@[i] as int])
                    == crate::lr::item_set::cores(lr1[i]),
                merger.spec_states().len() <= k,
            decreases states.len() - k,
        {
            let items = states[k].iter();
            let ghost before = merger.spec_states();
            let ghost old_mapping = state_mapping@;
            let merged_id = merger.add_or_merge(items);
            state_mapping.push(merged_id);
            proof {
                let x_set = items@.to_set();
                assert(x_set == lr1[k as int]);
                let l = lr1.take(k + 1);
                assert forall|i: int| 0 <= i < k + 1 implies #[trigger] l[i] == lr1[i] by {}
                if merged_id < before.len() {
                    lemma_cores_union(before[merged_id as int], x_set);
                }
                let merged = merger.spec_states();
                assert forall|i: int| 0 <= i < k + 1 implies crate::lr::item_set::cores(
                    merged[#[trigger] state_mapping@[i] as int],
                ) == crate::lr::item_set::cores(lr1[i]) by {
                    if i < k {
                        assert(state_mapping@[i] == old_mapping[i]);
                        if old_mapping[i] == merged_id {
                            lemma_cores_union(before[merged_id as int], x_set);
                        }
                    }
                }
                assert forall|m1: int, m2: int|
                    0 <= m1 < merged.len() && 0 <= m2 < merged.len() && m1 != m2 implies crate::lr::item_set::cores(
                    merged[m1],
                ) != crate::lr::item_set::cores(merged[m2]) by {
                    if merged_id < before.len() {
                        lemma_cores_union(before[merged_id as int], x_set);
                        let cm = crate::lr::item_set::cores(before[merged_id as int]);
                        assert(cm.union(crate::lr::item_set::cores(x_set)) =~= cm);
                        assert forall|q: int| 0 <= q < merged.len() implies crate::lr::item_set::cores(#[trigger] merged[q])
                            == crate::lr::item_set::cores(before[q]) by {}
                        assert(crate::lr::item_set::cores(merged[m1]) == crate::lr::item_set::cores(before[m1]));
                        assert(crate::lr::item_set::cores(merged[m2]) == crate::lr::item_set::cores(before[m2]));
                    } else {
                        if m1 < before.len() && m2 < before.len() {
                            assert(merged[m1] == before[m1]);
                            assert(merged[m2] == before[m2]);
                        } else if m1 < before.len() {
                            assert(merged[m1] == before[m1]);
                            assert(crate::lr::item_set::cores(before[m1]) != crate::lr::item_set::cores(x_set));
                        } else {
                            assert(merged[m2] == before[m2]);
                            assert(crate::lr::item_set::cores(before[m2]) != crate::lr::item_set::cores(x_set));
                        }
                    }
                }
                assert forall|i: int| 0 <= i < state_mapping@.len() implies #[trigger] state_mapping@[i] < merged.len() by {
                    if i < k {
                        assert(state_mapping@[i] == old_mapping[i]);
                    }
                }
                assert forall|i: int, j: int|
                    0 <= i < state_mapping@.len() && 0 <= j < state_mapping@.len() implies (#[trigger] state_mapping@[i]
                    == #[trigger] state_mapping@[j] <==> crate::lr::item_set::cores(l[i]) == crate::lr::item_set::cores(l[j])) by {
                    assert(crate::lr::item_set::cores(merged[state_mapping@[i] as int]) == crate::lr::item_set::cores(lr1[i]));
                    assert(crate::lr::item_set::cores(merged[state_mapping@[j] as int]) == crate::lr::item_set::cores(lr1[j]));
                }
                assert forall|m: int, x: LR1Item|
                    0 <= m < merged.len() implies (#[trigger] merged[m].contains(x) <==> exists|i: int|
                        0 <= i < state_mapping@.len() && state_mapping@[i] == m && #[trigger] l[i].contains(x)) by {
                    if m < before.len() {
                        assert(is_lalr_merge(lr1.take(k as int), old_mapping, before));
                        if merged[m].contains(x) {
                            if before[m].contains(x) {
                                let i = choose|i: int| 0 <= i < old_mapping.len() && old_mapping[i] == m && #[trigger] lr1.take(k as int)[i].contains(x);
                                assert(state_mapping@[i] == m && l[i].contains(x));
                            } else {
                                assert(state_mapping@[k as int] == m && l[k as int].contains(x));
                            }
                        }
                        if exists|i: int| 0 <= i < state_mapping@.len() && state_mapping@[i] == m && #[trigger] l[i].contains(x) {
                            let i = choose|i: int| 0 <= i < state_mapping@.len() && state_mapping@[i] == m && #[trigger] l[i].contains(x);
                            if i < k {
                                assert(old_mapping[i] == m && lr1.take(k as int)[i].contains(x));
                            }
                        }
                    } else {
                        if merged[m].contains(x) {
                            assert(state_mapping@[k as int] == m && l[k as int].contains(x));
                        }
                        if exists|i: int| 0 <= i < state_mapping@.len() && state_mapping@[i] == m && #[trigger] l[i].contains(x) {
                            let i = choose|i: int| 0 <= i < state_mapping@.len() && state_mapping@[i] == m && #[trigger] l[i].contains(x);
                            if i < k {
                                assert(old_mapping[i] < before.len());
                            }
                        }
                    }
                }
                assert forall|m: int| 0 <= m < merged.len() implies #[trigger] numbered_in_order(state_mapping@, m) by {
                    if m < before.len() {
                        assert(numbered_in_order(old_mapping, m));
                        let i = choose|i: int| 0 <= i < old_mapping.len() && old_mapping[i] == m && forall|j: int| 0 <= j < i ==> #[trigger] old_mapping[j] < m;
                        assert(state_mapping@[i] == m);
                        assert forall|j: int| 0 <= j < i implies #[trigger] state_mapping@[j] < m by {
                            assert(state_mapping@[j] == old_mapping[j]);
                        }
                    } else {
                        assert forall|j: int| 0 <= j < k implies #[trigger] state_mapping@[j] < m by {
                            assert(state_mapping@[j] == old_mapping[j]);
                        }
                        assert(state_mapping@[k as int] == m);
                    }
                }
            }
            k = k + 1;
        }
        assert(lr1.take(states.len() as int) =~= lr1);
        let merged_states = merger.into_states();
        let original_count = states.len();
        let merged_count = merged_states.len();
        let mut table = LALR1Table::new(merged_count, cfg.terminals.len(), cfg.non_terminals.len());
        table.merged_states = original_count - merged_count;
        let mut merged_to_rep: Vec<usize> = Vec::new();
        let mut m: usize = 0;
        while m < merged_count
            invariant
                m <= merged_count,
                merged_to_rep@.len() == m,
                forall|q: int| 0 <= q < m ==> merged_to_rep@[q] == 0,
            decreases merged_count - m,
        {
            merged_to_rep.push(0);
            m = m + 1;
        }
        let mut orig_id: usize = 0;
        while orig_id < state_mapping.len()
            invariant
                orig_id <= state_mapping.len(),
                merged_to_rep@.len() == merged_count,
                forall|i: int| 0 <= i < state_mapping@.len() ==> #[trigger] state_mapping@[i] < merged_count,
                forall|q: int| 0 <= q < merged_count ==> #[trigger] merged_to_rep@[q] == representative(state_mapping@.take(orig_id as int), q),
            decreases state_mapping.len() - orig_id,
        {
            let merged_id = state_mapping[orig_id];
            merged_to_rep.set(merged_id, orig_id);
            proof {
                let t = state_mapping@.take(orig_id + 1);
                assert(t.drop_last() =~= state_mapping@.take(orig_id as int));
                assert forall|q: int| 0 <= q < merged_count implies #[trigger] merged_to_rep@[q] == representative(t, q) by {}
            }
            orig_id = orig_id + 1;
        }
        assert(state_mapping@.take(state_mapping.len() as int) =~= state_mapping@);
        let ghost mapping = state_mapping@;
        let ghost lists = Seq::new(merged_states@.len(), |q: int| merged_states@[q].item_list());
        let terminal_count = cfg.terminals.len();
        let non_terminal_count = cfg.non_terminals.len();
        let ghost err = error_row((terminal_count + 1) as nat);
        let ghost nog = empty_goto_row(non_terminal_count as nat);
        proof {
            assert forall|q: int, r: int| 0 <= q < lists.len() && 0 <= r < lists[q].len() implies (#[trigger] lists[q][r]).lookahead.0
                <= terminal_count by {
                let x = lists[q][r];
                assert(lists[q].to_set().contains(x));
                assert(merged_states@[q]@.contains(x));
                let i = choose|i: int| 0 <= i < mapping.len() && mapping[i] == q && #[trigger] lr1[i].contains(x);
                assert(lr1_collection.state_items()[i].to_set().contains(x));
                let r2 = choose|r2: int| 0 <= r2 < lr1_collection.state_items()[i].len() && lr1_collection.state_items()[i][r2] == x;
                assert(lookaheads_fit(cfg, lr1_collection.state_items()));
                assert(lr1_collection.state_items()[i][r2].lookahead.0 <= terminal_count);
            }
        }
        let mut merged_id: usize = 0;
        while merged_id < merged_count
            invariant
                cfg.wf(),
                *cfg == augmented.spec_grammar(),
                merged_count == merged_states@.len(),
                merged_count == lists.len(),
                lists == Seq::new(merged_states@.len(), |q: int| merged_states@[q].item_list()),
                forall|q: int, r: int| 0 <= q < lists.len() && 0 <= r < lists[q].len() ==> (#[trigger] lists[q][r]).lookahead.0 <= terminal_count,
                trans == lr1_collection.spec_transitions(),
                mapping == state_mapping@,
                merged_to_rep@.len() == merged_count,
                forall|q: int| 0 <= q < merged_count ==> #[trigger] merged_to_rep@[q] == representative(mapping, q),
                terminal_count == cfg.terminals.len(),
                non_terminal_count == cfg.non_terminals.len(),
                end_marker == TerminalId(terminal_count),
                err == error_row((terminal_count + 1) as nat),
                nog == empty_goto_row(non_terminal_count as nat),
                merged_id <= merged_count,
                table.state_count == merged_count,
                table.terminal_count == terminal_count,
                table.non_terminal_count == non_terminal_count,
                table.conflicts@.len() == 0,
                table.merged_states == original_count - merged_count,
                tables_shaped(&table.action, &table.goto, merged_count as nat, terminal_count as nat, non_terminal_count as nat),
                forall|s: int|
                    0 <= s < merged_id ==> #[trigger] table.action.cells()[s] == apply_writes(err, lalr_state_writes(cfg, trans, mapping, representative(mapping, s), lists[s])),
                forall|s: int| merged_id <= s < merged_count ==> #[trigger] table.action.cells()[s] == err,
                forall|s: int|
                    0 <= s < merged_id ==> #[trigger] table.goto.rows()[s] == apply_gotos(nog, lalr_state_gotos(cfg, trans, mapping, representative(mapping, s), lists[s])),
                forall|s: int| merged_id <= s < merged_count ==> #[trigger] table.goto.rows()[s] == nog,
            decreases merged_count - merged_id,
        {
            let state_id = ItemSetId(merged_id);
            let rep_orig_id = merged_to_rep[merged_id];
            let items = merged_states[merged_id].items();
            assert(items@ == lists[merged_id as int]);
            let writes = lalr_writes(items, rep_orig_id, &state_mapping, augmented, lr1_collection, end_marker);
            apply_action_writes(&mut table.action, state_id, &writes);
            let gotos = lalr_gotos(items, rep_orig_id, &state_mapping, augmented, lr1_collection);
            apply_goto_writes(&mut table.goto, state_id, &gotos);
            proof {
                lemma_apply_len(err, writes@);
                lemma_apply_gotos_len(nog, gotos@);
            }
            merged_id = merged_id + 1;
        }
        table.conflicts = Self::detect_conflicts(&table, &merged_states, augmented, end_marker);
        proof {
            assert(list_sets(lists) =~= merger.spec_states());
            assert(is_lalr_table(cfg, lr1.len(), trans, mapping, lists, &table));
        }
        table
    }

    /// The conflicts of the merged states: the reduce/reduce conflicts among
    /// their completed items, then each shift entry of the ACTION table with a
    /// reduction recorded on the same terminal.
    fn detect_conflicts(
        table: &LALR1Table,
        merged_states: &Vec<LR1ItemSet>,
        augmented: &AugmentedGrammar,
        end_marker: TerminalId,
    ) -> (res: Vec<Conflict>)
        requires
            end_marker == TerminalId(augmented.spec_grammar().terminals.len()),
            table.action.shaped(merged_states@.len() as nat),
            table.action.terminals() == augmented.spec_grammar().terminals.len(),
        ensures
            res@ == lalr_conflicts(
                &augmented.spec_grammar(),
                table.action.cells(),
                Seq::new(merged_states@.len(), |q: int| merged_states@[q].item_list()),
                merged_states@.len() as nat,
            ),
    {
        let cfg = augmented.grammar();
        let ghost lists = Seq::new(merged_states@.len(), |q: int| merged_states@[q].item_list());
        let ghost cells = table.action.cells();
        let terminal_count = cfg.terminals.len();
        let mut conflicts: Vec<Conflict> = Vec::new();
        let mut state_id: usize = 0;
        while state_id < merged_states.len()
            invariant
                state_id <= merged_states.len(),
                *cfg == augmented.spec_grammar(),
                cfg.wf(),
                terminal_count == cfg.terminals.len(),
                end_marker == TerminalId(terminal_count),
                lists == Seq::new(merged_states@.len(), |q: int| merged_states@[q].item_list()),
                cells == table.action.cells(),
                table.action.shaped(merged_states@.len() as nat),
                table.action.terminals() == terminal_count,
                conflicts@ == lalr_conflicts(cfg, cells, lists, state_id as nat),
            decreases merged_states.len() - state_id,
        {
            let ghost s = state_id as int;
            let items = merged_states[state_id].items();
            assert(items@ == lists[s]);
            let ghost prefix = conflicts@;
            let mut reduce_terms: Vec<(usize, ProductionId)> = Vec::new();
            let mut i: usize = 0;
            while i < items.len()
                invariant
                    i <= items.len(),
                    s == state_id,
                    *cfg == augmented.spec_grammar(),
                    end_marker == TerminalId(cfg.terminals.len()),
                    ({
                        let (c, r) = lalr_scan(cfg, s, items@.take(i as int));
                        &&& conflicts@ == prefix + c
                        &&& reduce_terms@ == r
                    }),
                decreases items.len() - i,
            {
                let item = items[i];
                proof {
                    assert(items@.take(i + 1).drop_last() =~= items@.take(i as int));
                    assert(items@.take(i + 1).last() == item);
                }
                if item.production_index < cfg.productions.len() {
                    if item.is_complete(&cfg.productions[item.production_index]) {
                        if !augmented.is_accepting_production(item.production_index) || item.lookahead != end_marker {
                            match find_reduce(&reduce_terms, item.lookahead.0) {
                                Some(existing) => {
                                    if existing != ProductionId(item.production_index) {
                                        conflicts.push(Conflict::reduce_reduce(
                                            ItemSetId(state_id),
                                            item.lookahead,
                                            existing,
                                            ProductionId(item.production_index),
                                        ));
                                    }
                                },
                                None => {
                                    reduce_terms.push((item.lookahead.0, ProductionId(item.production_index)));
                                },
                            }
                        }
                    }
                }
                proof {
                    let (c, r) = lalr_scan(cfg, s, items@.take(i + 1));
                    assert(conflicts@ =~= prefix + c);
                }
                i = i + 1;
            }
            assert(items@.take(items.len() as int) =~= items@);
            let mut shift_terms: Vec<(usize, ItemSetId)> = Vec::new();
            let mut term_idx: usize = 0;
            while term_idx <= terminal_count
                invariant
                    term_idx <= terminal_count + 1,
                    terminal_count == cfg.terminals.len(),
                    cfg.wf(),
                    state_id < merged_states@.len(),
                    s == state_id,
                    cells == table.action.cells(),
                    table.action.shaped(merged_states@.len() as nat),
                    table.action.terminals() == terminal_count,
                    shift_terms@ == row_shifts(cells[s], term_idx as nat),
                decreases terminal_count + 1 - term_idx,
            {
                let action = table.action.get(ItemSetId(state_id), TerminalId(term_idx));
                if let Action::Shift(shift_state) = action {
                    shift_terms.push((term_idx, *shift_state));
                }
                assert(shift_terms@ =~= row_shifts(cells[s], (term_idx + 1) as nat));
                term_idx = term_idx + 1;
            }
            let ghost mid = conflicts@;
            let mut a: usize = 0;
            while a < shift_terms.len()
                invariant
                    a <= shift_terms.len(),
                    s == state_id,
                    conflicts@ == mid + sr_recorded(s, shift_terms@.take(a as int), reduce_terms@),
                decreases shift_terms.len() - a,
            {
                let (term, shift_state) = shift_terms[a];
                proof {
                    assert(shift_terms@.take(a + 1).drop_last() =~= shift_terms@.take(a as int));
                    assert(shift_terms@.take(a + 1).last() == (term, shift_state));
                }
                if let Some(prod_id) = find_reduce(&reduce_terms, term) {
                    conflicts.push(Conflict::shift_reduce(ItemSetId(state_id), TerminalId(term), shift_state, prod_id));
                }
                assert(conflicts@ =~= mid + sr_recorded(s, shift_terms@.take(a + 1), reduce_terms@));
                a = a + 1;
            }
            proof {
                assert(shift_terms@.take(shift_terms.len() as int) =~= shift_terms@);
                assert(conflicts@ =~= lalr_conflicts(cfg, cells, lists, (state_id + 1) as nat));
            }
            state_id = state_id + 1;
        }
        conflicts
    }
}

/// The ACTION writes of one merged state.
fn lalr_writes(
    items: &Vec<LR1Item>,
    rep: usize,
    mapping: &Vec<usize>,
    augmented: &AugmentedGrammar,
    collection: &LR1ItemSetCollection,
    end_marker: TerminalId,
) -> (res: Vec<(usize, Action)>)
    requires
        end_marker == TerminalId(augmented.spec_grammar().terminals.len()),
        forall|k: int| 0 <= k < items@.len() ==> (#[trigger] items@[k]).lookahead.0 <= augmented.spec_grammar().terminals.len(),
    ensures
        res@ == lalr_state_writes(&augmented.spec_grammar(), collection.spec_transitions(), mapping@, rep as int, items@),
        forall|k: int| 0 <= k < res@.len() ==> (#[trigger] res@[k]).0 <= augmented.spec_grammar().terminals.len(),
{
    let cfg = augmented.grammar();
    let ghost trans = collection.spec_transitions();
    let terminal_count = cfg.terminals.len();
    let mut res: Vec<(usize, Action)> = Vec::new();
    let mut i: usize = 0;
    while i < items.len()
        invariant
            i <= items.len(),
            cfg.wf(),
            *cfg == augmented.spec_grammar(),
            terminal_count == cfg.terminals.len(),
            end_marker == TerminalId(terminal_count),
            forall|k: int| 0 <= k < items@.len() ==> (#[trigger] items@[k]).lookahead.0 <= terminal_count,
            trans == collection.spec_transitions(),
            res@ == lalr_state_writes(cfg, trans, mapping@, rep as int, items@.take(i as int)),
            forall|k: int| 0 <= k < res@.len() ==> (#[trigger] res@[k]).0 <= terminal_count,
        decreases items.len() - i,
    {
        let item = items[i];
        proof {
            assert(items@.take(i + 1).drop_last() =~= items@.take(i as int));
            assert(items@.take(i + 1).last() == item);
            assert(items@[i as int] == item);
        }
        if item.production_index < cfg.productions.len() {
            let production = &cfg.productions[item.production_index];
            if item.is_complete(production) {
                if augmented.is_accepting_production(item.production_index) {
                    if item.lookahead == end_marker {
                        res.push((end_marker.0, Action::Accept));
                    }
                } else {
                    res.push((item.lookahead.0, Action::Reduce(ProductionId(item.production_index))));
                }
            } else {
                match item.next_symbol(production) {
                    Some(Symbol::Terminal(term_id)) => {
                        proof {
                            assert(crate::cfg::symbol_in_range(
                                cfg.productions@[item.production_index as int].rhs@[item.dot_position as int],
                                cfg.terminals.len() as nat,
                                cfg.non_terminals.len() as nat,
                            ));
                        }
                        if let Some(next_orig) = collection.get_transition(rep, &Symbol::Terminal(term_id)) {
                            if next_orig < mapping.len() {
                                let next_merged = mapping[next_orig];
                                res.push((term_id.0, Action::Shift(ItemSetId(next_merged))));
                            }
                        }
                    },
                    _ => {},
                }
            }
        }
        assert(res@ =~= lalr_state_writes(cfg, trans, mapping@, rep as int, items@.take(i + 1)));
        i = i + 1;
    }
    assert(items@.take(items.len() as int) =~= items@);
    res
}

/// The GOTO writes of one merged state.
fn lalr_gotos(
    items: &Vec<LR1Item>,
    rep: usize,
    mapping: &Vec<usize>,
    augmented: &AugmentedGrammar,
    collection: &LR1ItemSetCollection,
) -> (res: Vec<(usize, ItemSetId)>)
    ensures
        res@ == lalr_state_gotos(&augmented.spec_grammar(), collection.spec_transitions(), mapping@, rep as int, items@),
{
    let cfg = augmented.grammar();
    let ghost trans = collection.spec_transitions();
    let mut res: Vec<(usize, ItemSetId)> = Vec::new();
    let mut i: usize = 0;
    while i < items.len()
        invariant
            i <= items.len(),
            *cfg == augmented.spec_grammar(),
            trans == collection.spec_transitions(),
            res@ == lalr_state_gotos(cfg, trans, mapping@, rep as int, items@.take(i as int)),
        decreases items.len() - i,
    {
        let item = items[i];
        proof {
            assert(items@.take(i + 1).drop_last() =~= items@.take(i as int));
            assert(items@.take(i + 1).last() == item);
        }
        if item.production_index < cfg.productions.len() {
            let production = &cfg.productions[item.production_index];
            if !item.is_complete(production) {
                if let Some(Symbol::NonTerminal(nt_id)) = item.next_symbol(production) {
                    if let Some(next_orig) = collection.get_transition(rep, &Symbol::NonTerminal(nt_id)) {
                        if next_orig < mapping.len() {
                            res.push((nt_id.0, ItemSetId(mapping[next_orig])));
                        }
                    }
                }
            }
        }
        assert(res@ =~= lalr_state_gotos(cfg, trans, mapping@, rep as int, items@.take(i + 1)));
        i = i + 1;
    }
    assert(items@.take(items.len() as int) =~= items@);
    res
}

} // verus!
