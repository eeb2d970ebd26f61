//! Parsing conflicts: detection and reports.
use vstd::prelude::*;
use crate::cfg::TerminalId;
use crate::lr::action::{Action, ProductionId};
use crate::lr::goto::ItemSetId;

verus! {

/// The kind of a conflict.
#[derive(Debug, Clone, Copy, PartialEq, Eq, Structural)]
pub enum ConflictKind {
    /// A terminal allows both a shift and a reduction.
    ShiftReduce { terminal: TerminalId, shift_state: ItemSetId, reduce_production: ProductionId },
    /// A terminal allows reductions by two different productions.
    ReduceReduce { terminal: TerminalId, production1: ProductionId, production2: ProductionId },
}

/// A conflict in a state.
#[derive(Debug, Clone, Copy, PartialEq, Eq, Structural)]
pub struct Conflict {
    pub state: ItemSetId,
    pub kind: ConflictKind,
}

/// The shift/reduce conflict with the given parts.
pub open spec fn sr(state: ItemSetId, terminal: TerminalId, shift_state: ItemSetId, p: ProductionId) -> Conflict {
    Conflict { state, kind: ConflictKind::ShiftReduce { terminal, shift_state, reduce_production: p } }
}

/// The reduce/reduce conflict with the given parts.
pub open spec fn rr(state: ItemSetId, terminal: TerminalId, p1: ProductionId, p2: ProductionId) -> Conflict {
    Conflict { state, kind: ConflictKind::ReduceReduce { terminal, production1: p1, production2: p2 } }
}

impl Conflict {
    pub fn shift_reduce(
        state: ItemSetId,
        terminal: TerminalId,
        shift_state: ItemSetId,
        reduce_production: ProductionId,
    ) -> (res: Self)
        ensures
            res == sr(state, terminal, shift_state, reduce_production),
    {
        Conflict {
            state,
            kind: ConflictKind::ShiftReduce { terminal, shift_state, reduce_production },
        }
    }

    pub fn reduce_reduce(
        state: ItemSetId,
        terminal: TerminalId,
        production1: ProductionId,
        production2: ProductionId,
    ) -> (res: Self)
        ensures
            res == rr(state, terminal, production1, production2),
    {
        Conflict { state, kind: ConflictKind::ReduceReduce { terminal, production1, production2 } }
    }

    pub fn is_shift_reduce(&self) -> (res: bool)
        ensures
            res == (self.kind is ShiftReduce),
    {
        matches!(self.kind, ConflictKind::ShiftReduce { .. })
    }

    pub fn is_reduce_reduce(&self) -> (res: bool)
        ensures
            res == (self.kind is ReduceReduce),
    {
        matches!(self.kind, ConflictKind::ReduceReduce { .. })
    }
}

/// The conflict between an action already in a cell and a new one, if any:
/// shift against reduce (either order), or two reductions by different productions.
pub open spec fn spec_detect(state: ItemSetId, terminal: TerminalId, existing: Action, new: Action) -> Option<Conflict> {
    match (existing, new) {
        (Action::Shift(s), Action::Reduce(p)) => Some(sr(state, terminal, s, p)),
        (Action::Reduce(p), Action::Shift(s)) => Some(sr(state, terminal, s, p)),
        (Action::Reduce(p1), Action::Reduce(p2)) => if p1 != p2 {
            Some(rr(state, terminal, p1, p2))
        } else {
            None
        },
        _ => None,
    }
}

/// The conflicts found in a list of candidate action pairs, in order.
pub open spec fn spec_detect_all(actions: Seq<(ItemSetId, TerminalId, Action, Action)>) -> Seq<Conflict>
    decreases actions.len(),
{
    if actions.len() == 0 {
        Seq::empty()
    } else {
        let rest = spec_detect_all(actions.drop_last());
        let (s, t, e, n) = actions.last();
        match spec_detect(s, t, e, n) {
            Some(c) => rest.push(c),
            None => rest,
        }
    }
}

/// Conflict detection.
pub struct ConflictDetector;

impl ConflictDetector {
    /// The conflict between the action `existing` and the action `new` for the
    /// same state and terminal, if any.
    pub fn detect(state: ItemSetId, terminal: TerminalId, existing: &Action, new: &Action) -> (res: Option<
        Conflict,
    >)
        ensures
            res == spec_detect(state, terminal, *existing, *new),
    {
        match (existing, new) {
            (Action::Shift(shift_state), Action::Reduce(prod)) => {
                Some(Conflict::shift_reduce(state, terminal, *shift_state, *prod))
            },
            (Action::Reduce(prod), Action::Shift(shift_state)) => {
                Some(Conflict::shift_reduce(state, terminal, *shift_state, *prod))
            },
            (Action::Reduce(p1), Action::Reduce(p2)) => {
                if p1 != p2 {
                    Some(Conflict::reduce_reduce(state, terminal, *p1, *p2))
                } else {
                    None
                }
            },
            _ => None,
        }
    }

    /// The conflicts of every candidate pair, in order.
    pub fn detect_all(actions: &[(ItemSetId, TerminalId, Action, Action)]) -> (res: Vec<Conflict>)
        ensures
            res@ == spec_detect_all(actions@),
    {
        let mut res: Vec<Conflict> = Vec::new();
        let mut i: usize = 0;
        while i < actions.len()
            invariant
                i <= actions.len(),
                res@ == spec_detect_all(actions@.take(i as int)),
            decreases actions.len() - i,
        {
            let (s, t, e, n) = actions[i];
            assert(actions@.take(i + 1).drop_last() =~= actions@.take(i as int));
            if let Some(c) = Self::detect(s, t, &e, &n) {
                res.push(c);
            }
            i = i + 1;
        }
        assert(actions@.take(actions.len() as int) =~= actions@);
        res
    }
}

/// The number of shift/reduce conflicts in `cs`.
pub open spec fn count_sr(cs: Seq<Conflict>) -> nat
    decreases cs.len(),
{
    if cs.len() == 0 {
        0
    } else {
        count_sr(cs.drop_last()) + if cs.last().kind is ShiftReduce {
            1nat
        } else {
            0nat
        }
    }
}

/// The number of reduce/reduce conflicts in `cs`.
pub open spec fn count_rr(cs: Seq<Conflict>) -> nat
    decreases cs.len(),
{
    if cs.len() == 0 {
        0
    } else {
        count_rr(cs.drop_last()) + if cs.last().kind is ReduceReduce {
            1nat
        } else {
            0nat
        }
    }
}

/// Every conflict is either shift/reduce or reduce/reduce.
pub proof fn lemma_counts_add_up(cs: Seq<Conflict>)
    ensures
        count_sr(cs) + count_rr(cs) == cs.len(),
    decreases cs.len(),
{
    if cs.len() > 0 {
        lemma_counts_add_up(cs.drop_last());
    }
}

/// A summary of the conflicts of a table.
#[derive(Debug)]
pub struct ConflictReport {
    pub conflicts: Vec<Conflict>,
    pub shift_reduce_count: usize,
    pub reduce_reduce_count: usize,
}

impl ConflictReport {
    /// The report of `conflicts`, with the counts of each kind.
    pub fn new(conflicts: Vec<Conflict>) -> (res: Self)
        ensures
            res.conflicts@ == conflicts@,
            res.shift_reduce_count == count_sr(conflicts@),
            res.reduce_reduce_count == count_rr(conflicts@),
            res.shift_reduce_count + res.reduce_reduce_count == res.conflicts@.len(),
    {
        let mut shift_reduce_count: usize = 0;
        let mut reduce_reduce_count: usize = 0;
        let mut i: usize = 0;
        while i < conflicts.len()
            invariant
                i <= conflicts.len(),
                shift_reduce_count == count_sr(conflicts@.take(i as int)),
                reduce_reduce_count == count_rr(conflicts@.take(i as int)),
            decreases conflicts.len() - i,
        {
            proof {
                assert(conflicts@.take(i + 1).drop_last() =~= conflicts@.take(i as int));
                lemma_counts_add_up(conflicts@.take(i as int));
            }
            if conflicts[i].is_shift_reduce() {
                shift_reduce_count = shift_reduce_count + 1;
            } else {
                reduce_reduce_count = reduce_reduce_count + 1;
            }
            i = i + 1;
        }
        assert(conflicts@.take(conflicts.len() as int) =~= conflicts@);
        proof {
            lemma_counts_add_up(conflicts@);
        }
        ConflictReport { conflicts, shift_reduce_count, reduce_reduce_count }
    }

    /// Whether there is any conflict.
    pub fn is_ambiguous(&self) -> (res: bool)
        ensures
            res == (self.conflicts@.len() > 0),
    {
        self.conflicts.len() > 0
    }

    pub fn has_shift_reduce_conflicts(&self) -> (res: bool)
        ensures
            res == (self.shift_reduce_count > 0),
    {
        self.shift_reduce_count > 0
    }

    pub fn has_reduce_reduce_conflicts(&self) -> (res: bool)
        ensures
            res == (self.reduce_reduce_count > 0),
    {
        self.reduce_reduce_count > 0
    }
}

} // verus!
