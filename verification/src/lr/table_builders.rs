//! What every parsing table offers, and the parts all tables share.
use vstd::prelude::*;
use crate::cfg::{clone_names, ContextFreeGrammar, NonTerminalId, TerminalId};
use crate::lr::action::ActionTable;
use crate::lr::conflict::{count_rr, count_sr, Conflict, ConflictReport};
use crate::lr::goto::GotoTable;
use crate::lr::table::{copy_conflicts, empty_goto_row, error_row, tables_shaped, LALR1Table, LR0Table, LR1Table, SLRTable};

verus! {

/// The operations every parsing table offers.
pub trait LRTable {
    spec fn spec_action(&self) -> ActionTable;

    spec fn spec_goto(&self) -> GotoTable;

    spec fn spec_conflicts(&self) -> Seq<Conflict>;

    spec fn spec_state_count(&self) -> usize;

    spec fn spec_terminal_count(&self) -> usize;

    fn action(&self) -> (res: &ActionTable)
        ensures
            *res == self.spec_action(),
    ;

    fn goto(&self) -> (res: &GotoTable)
        ensures
            *res == self.spec_goto(),
    ;

    fn has_conflicts(&self) -> (res: bool)
        ensures
            res == (self.spec_conflicts().len() > 0),
    ;

    fn state_count(&self) -> (res: usize)
        ensures
            res == self.spec_state_count(),
    ;

    fn terminal_count(&self) -> (res: usize)
        ensures
            res == self.spec_terminal_count(),
    ;
}

impl LRTable for LR0Table {
    open spec fn spec_action(&self) -> ActionTable {
        self.action
    }

    open spec fn spec_goto(&self) -> GotoTable {
        self.goto
    }

    open spec fn spec_conflicts(&self) -> Seq<Conflict> {
        self.conflicts@
    }

    open spec fn spec_state_count(&self) -> usize {
        self.state_count
    }

    open spec fn spec_terminal_count(&self) -> usize {
        self.terminal_count
    }

    fn action(&self) -> (res: &ActionTable) {
        &self.action
    }

    fn goto(&self) -> (res: &GotoTable) {
        &self.goto
    }

    fn has_conflicts(&self) -> (res: bool) {
        self.conflicts.len() > 0
    }

    fn state_count(&self) -> (res: usize) {
        self.state_count
    }

    fn terminal_count(&self) -> (res: usize) {
        self.terminal_count
    }
}

impl LRTable for SLRTable {
    open spec fn spec_action(&self) -> ActionTable {
        self.action
    }

    open spec fn spec_goto(&self) -> GotoTable {
        self.goto
    }

    open spec fn spec_conflicts(&self) -> Seq<Conflict> {
        self.conflicts@
    }

    open spec fn spec_state_count(&self) -> usize {
        self.state_count
    }

    open spec fn spec_terminal_count(&self) -> usize {
        self.terminal_count
    }

    fn action(&self) -> (res: &ActionTable) {
        &self.action
    }

    fn goto(&self) -> (res: &GotoTable) {
        &self.goto
    }

    fn has_conflicts(&self) -> (res: bool) {
        self.conflicts.len() > 0
    }

    fn state_count(&self) -> (res: usize) {
        self.state_count
    }

    fn terminal_count(&self) -> (res: usize) {
        self.terminal_count
    }
}

impl LRTable for LR1Table {
    open spec fn spec_action(&self) -> ActionTable {
        self.action
    }

    open spec fn spec_goto(&self) -> GotoTable {
        self.goto
    }

    open spec fn spec_conflicts(&self) -> Seq<Conflict> {
        self.conflicts@
    }

    open spec fn spec_state_count(&self) -> usize {
        self.state_count
    }

    open spec fn spec_terminal_count(&self) -> usize {
        self.terminal_count
    }

    fn action(&self) -> (res: &ActionTable) {
        &self.action
    }

    fn goto(&self) -> (res: &GotoTable) {
        &self.goto
    }

    fn has_conflicts(&self) -> (res: bool) {
        self.conflicts.len() > 0
    }

    fn state_count(&self) -> (res: usize) {
        self.state_count
    }

    fn terminal_count(&self) -> (res: usize) {
        self.terminal_count
    }
}

impl LRTable for LALR1Table {
    open spec fn spec_action(&self) -> ActionTable {
        self.action
    }

    open spec fn spec_goto(&self) -> GotoTable {
        self.goto
    }

    open spec fn spec_conflicts(&self) -> Seq<Conflict> {
        self.conflicts@
    }

    open spec fn spec_state_count(&self) -> usize {
        self.state_count
    }

    open spec fn spec_terminal_count(&self) -> usize {
        self.terminal_count
    }

    fn action(&self) -> (res: &ActionTable) {
        &self.action
    }

    fn goto(&self) -> (res: &GotoTable) {
        &self.goto
    }

    fn has_conflicts(&self) -> (res: bool) {
        self.conflicts.len() > 0
    }

    fn state_count(&self) -> (res: usize) {
        self.state_count
    }

    fn terminal_count(&self) -> (res: usize) {
        self.terminal_count
    }
}

/// The parts every table has: ACTION, GOTO, sizes and conflicts.
#[derive(Debug)]
pub struct LrTableCore {
    pub action: ActionTable,
    pub goto: GotoTable,
    pub state_count: usize,
    pub terminal_count: usize,
    pub non_terminal_count: usize,
    pub conflicts: Vec<Conflict>,
}

impl LrTableCore {
    /// An empty table: every ACTION entry `Error`, every GOTO entry empty, no conflicts.
    pub fn new(state_count: usize, terminal_count: usize, non_terminal_count: usize) -> (res: Self)
        requires
            terminal_count < usize::MAX,
        ensures
            res.state_count == state_count,
            res.terminal_count == terminal_count,
            res.non_terminal_count == non_terminal_count,
            res.conflicts@.len() == 0,
            tables_shaped(&res.action, &res.goto, state_count as nat, terminal_count as nat, non_terminal_count as nat),
            forall|s: int| 0 <= s < state_count ==> #[trigger] res.action.cells()[s] == error_row((terminal_count + 1) as nat),
            forall|s: int| 0 <= s < state_count ==> #[trigger] res.goto.rows()[s] == empty_goto_row(non_terminal_count as nat),
    {
        let t = LR0Table::new(state_count, terminal_count, non_terminal_count);
        LrTableCore {
            action: t.action,
            goto: t.goto,
            state_count,
            terminal_count,
            non_terminal_count,
            conflicts: Vec::new(),
        }
    }

    pub fn has_conflicts(&self) -> (res: bool)
        ensures
            res == (self.conflicts@.len() > 0),
    {
        self.conflicts.len() > 0
    }

    /// The report of the conflicts.
    pub fn conflict_report(&self) -> (res: ConflictReport)
        ensures
            res.conflicts@ == self.conflicts@,
            res.shift_reduce_count == count_sr(self.conflicts@),
            res.reduce_reduce_count == count_rr(self.conflicts@),
    {
        ConflictReport::new(copy_conflicts(&self.conflicts))
    }

    /// The terminal names of the grammar, by id.
    pub fn terminal_names(cfg: &ContextFreeGrammar) -> (res: Vec<String>)
        ensures
            res@ == cfg.terminals@,
    {
        clone_names(&cfg.terminals)
    }

    /// The non-terminal names of the grammar, by id.
    pub fn non_terminal_names(cfg: &ContextFreeGrammar) -> (res: Vec<String>)
        ensures
            res@ == cfg.non_terminals@,
    {
        clone_names(&cfg.non_terminals)
    }
}

} // verus!
