//! Parsing actions and the ACTION table.
use vstd::prelude::*;
use crate::cfg::TerminalId;
use crate::lr::goto::ItemSetId;
use crate::text::{decimal, push_str, push_usize};

verus! {

/// The index of a production.
#[derive(Debug, Clone, Copy, PartialEq, Eq, Structural, Hash)]
pub struct ProductionId(pub usize);

/// An entry of the ACTION table.
#[derive(Debug, Clone, Copy, PartialEq, Eq, Structural, Hash)]
pub enum Action {
    /// Push the terminal and go to the state.
    Shift(ItemSetId),
    /// Reduce by the production.
    Reduce(ProductionId),
    /// The input is accepted.
    Accept,
    /// No action: a syntax error.
    Error,
}

/// The text of an action: `s<state>`, `r<production>`, `acc`, or nothing for an error.
pub open spec fn action_text(a: Action) -> Seq<char> {
    match a {
        Action::Shift(s) => seq!['s'] + decimal(s.0 as nat),
        Action::Reduce(p) => seq!['r'] + decimal(p.0 as nat),
        Action::Accept => seq!['a', 'c', 'c'],
        Action::Error => Seq::empty(),
    }
}

impl Action {
    pub fn shift(state: usize) -> (res: Self)
        ensures
            res == Action::Shift(ItemSetId(state)),
    {
        Action::Shift(ItemSetId(state))
    }

    pub fn reduce(production: usize) -> (res: Self)
        ensures
            res == Action::Reduce(ProductionId(production)),
    {
        Action::Reduce(ProductionId(production))
    }

    pub fn accept() -> (res: Self)
        ensures
            res == Action::Accept,
    {
        Action::Accept
    }

    pub fn error() -> (res: Self)
        ensures
            res == Action::Error,
    {
        Action::Error
    }

    pub fn is_shift(&self) -> (res: bool)
        ensures
            res == (*self is Shift),
    {
        matches!(self, Action::Shift(_))
    }

    pub fn is_reduce(&self) -> (res: bool)
        ensures
            res == (*self is Reduce),
    {
        matches!(self, Action::Reduce(_))
    }

    pub fn is_accept(&self) -> (res: bool)
        ensures
            res == (*self is Accept),
    {
        matches!(self, Action::Accept)
    }

    pub fn is_error(&self) -> (res: bool)
        ensures
            res == (*self is Error),
    {
        matches!(self, Action::Error)
    }

    /// The target state of a shift.
    pub fn shift_state(&self) -> (res: Option<ItemSetId>)
        ensures
            res == (match *self {
                Action::Shift(s) => Some(s),
                _ => None,
            }),
    {
        match self {
            Action::Shift(state) => Some(*state),
            _ => None,
        }
    }

    /// The production of a reduction.
    pub fn reduce_production(&self) -> (res: Option<ProductionId>)
        ensures
            res == (match *self {
                Action::Reduce(p) => Some(p),
                _ => None,
            }),
    {
        match self {
            Action::Reduce(prod) => Some(*prod),
            _ => None,
        }
    }

    /// The text of the action (see `action_text`).
    pub fn to_string(&self) -> (res: String)
        ensures
            res@ == action_text(*self),
    {
        let mut s = String::new();
        match self {
            Action::Shift(state) => {
                push_str(&mut s, "s");
                proof {
                    reveal_strlit("s");
                }
                push_usize(&mut s, state.0);
            },
            Action::Reduce(prod) => {
                push_str(&mut s, "r");
                proof {
                    reveal_strlit("r");
                }
                push_usize(&mut s, prod.0);
            },
            Action::Accept => {
                push_str(&mut s, "acc");
                proof {
                    reveal_strlit("acc");
                }
            },
            Action::Error => {},
        }
        proof {
            assert(s@ =~= action_text(*self));
        }
        s
    }
}

impl Default for Action {
    fn default() -> (res: Self)
        ensures
            res == Action::Error,
    {
        Action::Error
    }
}

/// The ACTION table: for each state, one entry per terminal and one for `$`.
#[derive(Debug)]
pub struct ActionTable {
    actions: Vec<Vec<Action>>,
    terminal_count: usize,
}

impl ActionTable {
    #[verifier::type_invariant]
    spec fn rows_fit(&self) -> bool {
        &&& self.terminal_count < usize::MAX
        &&& forall|s: int|
            0 <= s < self.actions.len() ==> (#[trigger] self.actions@[s])@.len() == self.terminal_count + 1
    }

    /// The table contents, row by row.
    pub closed spec fn cells(&self) -> Seq<Seq<Action>> {
        Seq::new(self.actions.len() as nat, |s: int| self.actions@[s]@)
    }

    /// The number of terminals (the row length is one more, for `$`).
    pub closed spec fn terminals(&self) -> nat {
        self.terminal_count as nat
    }

    /// The table has the given number of rows, each `terminals() + 1` long.
    pub open spec fn shaped(&self, rows: nat) -> bool {
        &&& self.cells().len() == rows
        &&& forall|s: int| 0 <= s < rows ==> (#[trigger] self.cells()[s]).len() == self.terminals() + 1
    }

    /// A table of `state_count` rows where every entry is `Error`.
    pub fn new(state_count: usize, terminal_count: usize) -> (res: Self)
        requires
            terminal_count < usize::MAX,
        ensures
            res.shaped(state_count as nat),
            res.terminals() == terminal_count,
            forall|s: int, t: int|
                0 <= s < state_count && 0 <= t <= terminal_count ==> #[trigger] res.cells()[s][t]
                    == Action::Error,
    {
        let mut actions: Vec<Vec<Action>> = Vec::new();
        let mut s: usize = 0;
        while s < state_count
            invariant
                s <= state_count,
                terminal_count < usize::MAX,
                actions.len() == s,
                forall|i: int| 0 <= i < s ==> (#[trigger] actions@[i])@.len() == terminal_count + 1,
                forall|i: int, t: int| 0 <= i < s && 0 <= t <= terminal_count ==> actions@[i]@[t] == Action::Error,
            decreases state_count - s,
        {
            let mut row: Vec<Action> = Vec::new();
            let mut t: usize = 0;
            while t <= terminal_count
                invariant
                    t <= terminal_count + 1,
                    terminal_count < usize::MAX,
                    row.len() == t,
                    forall|k: int| 0 <= k < t ==> row@[k] == Action::Error,
                decreases terminal_count + 1 - t,
            {
                row.push(Action::Error);
                t = t + 1;
            }
            actions.push(row);
            s = s + 1;
        }
        ActionTable { actions, terminal_count }
    }

    /// The action for `state` on `terminal`.
    pub fn get(&self, state: ItemSetId, terminal: TerminalId) -> (res: &Action)
        requires
            state.0 < self.cells().len(),
            terminal.0 <= self.terminals(),
        ensures
            *res == self.cells()[state.0 as int][terminal.0 as int],
    {
        proof {
            use_type_invariant(self);
        }
        &self.actions[state.0][terminal.0]
    }

    /// Sets the action for `state` on `terminal`.
    pub fn set(&mut self, state: ItemSetId, terminal: TerminalId, action: Action)
        requires
            state.0 < old(self).cells().len(),
            terminal.0 <= old(self).terminals(),
        ensures
            final(self).terminals() == old(self).terminals(),
            final(self).cells() == old(self).cells().update(
                state.0 as int,
                old(self).cells()[state.0 as int].update(terminal.0 as int, action),
            ),
    {
        proof {
            use_type_invariant(&*self);
        }
        let mut actions: Vec<Vec<Action>> = Vec::new();
        std::mem::swap(&mut actions, &mut self.actions);
        let mut row = copy_actions(&actions[state.0]);
        row.set(terminal.0, action);
        actions.set(state.0, row);
        self.actions = actions;
        proof {
            assert(self.cells() =~= old(self).cells().update(
                state.0 as int,
                old(self).cells()[state.0 as int].update(terminal.0 as int, action),
            ));
        }
    }

    /// Sets a shift to `next_state`.
    pub fn set_shift(&mut self, state: ItemSetId, terminal: TerminalId, next_state: ItemSetId)
        requires
            state.0 < old(self).cells().len(),
            terminal.0 <= old(self).terminals(),
        ensures
            final(self).terminals() == old(self).terminals(),
            final(self).cells() == old(self).cells().update(
                state.0 as int,
                old(self).cells()[state.0 as int].update(terminal.0 as int, Action::Shift(next_state)),
            ),
    {
        self.set(state, terminal, Action::Shift(next_state))
    }

    /// Sets a reduction by `production`.
    pub fn set_reduce(&mut self, state: ItemSetId, terminal: TerminalId, production: ProductionId)
        requires
            state.0 < old(self).cells().len(),
            terminal.0 <= old(self).terminals(),
        ensures
            final(self).terminals() == old(self).terminals(),
            final(self).cells() == old(self).cells().update(
                state.0 as int,
                old(self).cells()[state.0 as int].update(terminal.0 as int, Action::Reduce(production)),
            ),
    {
        self.set(state, terminal, Action::Reduce(production))
    }

    /// Sets `Accept`.
    pub fn set_accept(&mut self, state: ItemSetId, terminal: TerminalId)
        requires
            state.0 < old(self).cells().len(),
            terminal.0 <= old(self).terminals(),
        ensures
            final(self).terminals() == old(self).terminals(),
            final(self).cells() == old(self).cells().update(
                state.0 as int,
                old(self).cells()[state.0 as int].update(terminal.0 as int, Action::Accept),
            ),
    {
        self.set(state, terminal, Action::Accept)
    }

    /// The number of states (rows).
    pub fn state_count(&self) -> (res: usize)
        ensures
            res == self.cells().len(),
            self.shaped(res as nat),
    {
        proof {
            use_type_invariant(self);
        }
        self.actions.len()
    }

    /// The number of terminals (without `$`).
    pub fn terminal_count(&self) -> (res: usize)
        ensures
            res == self.terminals(),
            res < usize::MAX,
    {
        proof {
            use_type_invariant(self);
        }
        self.terminal_count
    }

    /// All entries as `(state, terminal, action)`, row by row.
    pub fn iter(&self) -> (res: Vec<(usize, usize, Action)>)
        ensures
            res@.len() == self.cells().len() * (self.terminals() + 1),
            forall|s: int, t: int|
                0 <= s < self.cells().len() && 0 <= t <= self.terminals() ==> #[trigger] res@[s * (
                self.terminals() + 1) + t] == (s as usize, t as usize, self.cells()[s][t]),
    {
        proof {
            use_type_invariant(self);
        }
        let w = self.terminal_count + 1;
        let mut res: Vec<(usize, usize, Action)> = Vec::new();
        let mut s: usize = 0;
        while s < self.actions.len()
            invariant
                s <= self.actions.len(),
                w == self.terminal_count + 1,
                self.terminal_count < usize::MAX,
                forall|i: int| 0 <= i < self.actions.len() ==> (#[trigger] self.actions@[i])@.len() == w,
                res@.len() == s * w,
                forall|i: int, t: int|
                    0 <= i < s && 0 <= t < w ==> #[trigger] res@[i * w + t] == (i as usize, t as usize, self.actions@[i]@[t]),
            decreases self.actions.len() - s,
        {
            let mut t: usize = 0;
            let ghost base = res@.len();
            assert(base == s * w);
            while t < w
                invariant
                    t <= w,
                    s < self.actions.len(),
                    w == self.terminal_count + 1,
                    self.actions@[s as int]@.len() == w,
                    base == s * w,
                    res@.len() == base + t,
                    forall|i: int, t2: int|
                        0 <= i < s && 0 <= t2 < w ==> #[trigger] res@[i * w + t2] == (i as usize, t2 as usize, self.actions@[i]@[t2]),
                    forall|t2: int| 0 <= t2 < t ==> #[trigger] res@[base + t2] == (s, t2 as usize, self.actions@[s as int]@[t2]),
                decreases w - t,
            {
                res.push((s, t, self.actions[s][t]));
                proof {
                    assert forall|i: int, t2: int|
                        0 <= i < s && 0 <= t2 < w implies #[trigger] res@[i * w + t2] == (i as usize, t2 as usize, self.actions@[i]@[t2]) by {
                        assert(i * w + t2 < s * w) by (nonlinear_arith)
                            requires
                                0 <= i < s,
                                0 <= t2 < w,
                        ;
                    }
                }
                t = t + 1;
            }
            proof {
                assert forall|i: int, t2: int|
                    0 <= i < s + 1 && 0 <= t2 < w implies #[trigger] res@[i * w + t2] == (i as usize, t2 as usize, self.actions@[i]@[t2]) by {
                    if i == s {
                        assert(i * w + t2 == base + t2);
                    }
                }
                assert((s + 1) * w == s * w + w) by (nonlinear_arith);
            }
            s = s + 1;
        }
        res
    }
}

fn copy_actions(row: &Vec<Action>) -> (res: Vec<Action>)
    ensures
        res@ == row@,
{
    let mut res: Vec<Action> = Vec::new();
    let mut i: usize = 0;
    while i < row.len()
        invariant
            i <= row.len(),
            res@ == row@.take(i as int),
        decreases row.len() - i,
    {
        res.push(row[i]);
        assert(row@.take(i + 1) =~= row@.take(i as int).push(row@[i as int]));
        i = i + 1;
    }
    assert(row@.take(row.len() as int) =~= row@);
    res
}

} // verus!
