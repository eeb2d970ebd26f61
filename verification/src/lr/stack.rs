//! The LR parse stack.
use vstd::prelude::*;
use crate::cfg::{NonTerminalId, TerminalId};
use crate::lr::action::ProductionId;
use crate::lr::goto::ItemSetId;
use crate::text::{decimal, join, push_str, push_usize, views, join_strings};

verus! {

/// An entry of the parse stack.
#[derive(Debug, Clone, Copy, PartialEq, Eq, Structural)]
pub enum StackSymbol {
    State(ItemSetId),
    Terminal(TerminalId),
    NonTerminal(NonTerminalId),
}

/// The text of a stack entry: `s`, `t` or `N` followed by its number.
pub open spec fn stack_symbol_text(sym: StackSymbol) -> Seq<char> {
    match sym {
        StackSymbol::State(id) => seq!['s'] + decimal(id.0 as nat),
        StackSymbol::Terminal(id) => seq!['t'] + decimal(id.0 as nat),
        StackSymbol::NonTerminal(id) => seq!['N'] + decimal(id.0 as nat),
    }
}

impl StackSymbol {
    pub fn state(id: usize) -> (res: Self)
        ensures
            res == StackSymbol::State(ItemSetId(id)),
    {
        StackSymbol::State(ItemSetId(id))
    }

    pub fn terminal(id: TerminalId) -> (res: Self)
        ensures
            res == StackSymbol::Terminal(id),
    {
        StackSymbol::Terminal(id)
    }

    pub fn non_terminal(id: NonTerminalId) -> (res: Self)
        ensures
            res == StackSymbol::NonTerminal(id),
    {
        StackSymbol::NonTerminal(id)
    }

    pub fn is_state(&self) -> (res: bool)
        ensures
            res == (*self is State),
    {
        matches!(self, StackSymbol::State(_))
    }

    pub fn is_terminal(&self) -> (res: bool)
        ensures
            res == (*self is Terminal),
    {
        matches!(self, StackSymbol::Terminal(_))
    }

    pub fn is_non_terminal(&self) -> (res: bool)
        ensures
            res == (*self is NonTerminal),
    {
        matches!(self, StackSymbol::NonTerminal(_))
    }

    pub fn state_id(&self) -> (res: Option<ItemSetId>)
        ensures
            res == (match *self {
                StackSymbol::State(id) => Some(id),
                _ => None,
            }),
    {
        match self {
            StackSymbol::State(id) => Some(*id),
            _ => None,
        }
    }

    pub fn terminal_id(&self) -> (res: Option<TerminalId>)
        ensures
            res == (match *self {
                StackSymbol::Terminal(id) => Some(id),
                _ => None,
            }),
    {
        match self {
            StackSymbol::Terminal(id) => Some(*id),
            _ => None,
        }
    }

    pub fn non_terminal_id(&self) -> (res: Option<NonTerminalId>)
        ensures
            res == (match *self {
                StackSymbol::NonTerminal(id) => Some(id),
                _ => None,
            }),
    {
        match self {
            StackSymbol::NonTerminal(id) => Some(*id),
            _ => None,
        }
    }

    /// The text of the entry (see `stack_symbol_text`).
    pub fn to_string(&self) -> (res: String)
        ensures
            res@ == stack_symbol_text(*self),
    {
        let mut s = String::new();
        match self {
            StackSymbol::State(id) => {
                push_str(&mut s, "s");
                proof {
                    reveal_strlit("s");
                }
                push_usize(&mut s, id.0);
            },
            StackSymbol::Terminal(id) => {
                push_str(&mut s, "t");
                proof {
                    reveal_strlit("t");
                }
                push_usize(&mut s, id.0);
            },
            StackSymbol::NonTerminal(id) => {
                push_str(&mut s, "N");
                proof {
                    reveal_strlit("N");
                }
                push_usize(&mut s, id.0);
            },
        }
        proof {
            assert(s@ =~= stack_symbol_text(*self));
        }
        s
    }
}

/// The state nearest the top of a stack, if there is one.
pub open spec fn top_state_of(s: Seq<StackSymbol>) -> Option<ItemSetId>
    decreases s.len(),
{
    if s.len() == 0 {
        None
    } else {
        match s.last() {
            StackSymbol::State(id) => Some(id),
            _ => top_state_of(s.drop_last()),
        }
    }
}

/// The entries of `s` from the top down.
pub open spec fn reversed(s: Seq<StackSymbol>) -> Seq<StackSymbol> {
    Seq::new(s.len(), |i: int| s[s.len() - 1 - i])
}

/// The text of a whole stack, bottom first: `[s0, t1, s2]`.
pub open spec fn stack_text(s: Seq<StackSymbol>) -> Seq<char> {
    seq!['['] + join(s.map_values(|x: StackSymbol| stack_symbol_text(x)), seq![',', ' ']) + seq![']']
}

/// The parse stack; its bottom entry is pushed by `new`.
#[derive(Debug, Clone)]
pub struct LRStack {
    stack: Vec<StackSymbol>,
}

impl View for LRStack {
    type V = Seq<StackSymbol>;

    open spec fn view(&self) -> Seq<StackSymbol> {
        self.symbols_view()
    }
}

impl LRStack {
    /// The entries, bottom first.
    pub closed spec fn symbols_view(&self) -> Seq<StackSymbol> {
        self.stack@
    }

    /// A stack holding only `initial_state`.
    pub fn new(initial_state: ItemSetId) -> (res: Self)
        ensures
            res@ == seq![StackSymbol::State(initial_state)],
    {
        let mut stack = Vec::new();
        stack.push(StackSymbol::State(initial_state));
        LRStack { stack }
    }

    pub fn push(&mut self, symbol: StackSymbol)
        ensures
            final(self)@ == old(self)@.push(symbol),
    {
        self.stack.push(symbol);
    }

    /// Removes and returns the top entry; `None` on an empty stack.
    pub fn pop(&mut self) -> (res: Option<StackSymbol>)
        ensures
            old(self)@.len() == 0 ==> res is None && final(self)@ == old(self)@,
            old(self)@.len() > 0 ==> res == Some(old(self)@.last()) && final(self)@ == old(self)@.drop_last(),
    {
        self.stack.pop()
    }

    /// Pops up to `n` entries and returns them in the order they were popped.
    pub fn pop_n(&mut self, n: usize) -> (res: Vec<StackSymbol>)
        ensures
            ({
                let k = if n <= old(self)@.len() { n as int } else { old(self)@.len() as int };
                &&& final(self)@ == old(self)@.subrange(0, old(self)@.len() - k)
                &&& res@ == reversed(old(self)@.subrange(old(self)@.len() - k, old(self)@.len() as int))
            }),
    {
        let ghost orig = self.stack@;
        let mut result: Vec<StackSymbol> = Vec::new();
        let mut i: usize = 0;
        while i < n
            invariant
                i <= n,
                result@.len() <= i,
                result@.len() <= orig.len(),
                self.stack@ == orig.subrange(0, orig.len() - result@.len()),
                result@ == reversed(orig.subrange(orig.len() - result@.len(), orig.len() as int)),
                result@.len() < i ==> self.stack@.len() == 0,
            decreases n - i,
        {
            let ghost before = result@;
            match self.stack.pop() {
                Some(sym) => {
                    result.push(sym);
                    proof {
                        let k = before.len();
                        assert(sym == orig[orig.len() - 1 - k]);
                        assert(result@ =~= reversed(orig.subrange(orig.len() - result@.len(), orig.len() as int)));
                    }
                },
                None => {},
            }
            i = i + 1;
        }
        result
    }

    /// The top entry, if any.
    pub fn top(&self) -> (res: Option<&StackSymbol>)
        ensures
            self@.len() == 0 ==> res is None,
            self@.len() > 0 ==> res == Some(&self@.last()),
    {
        self.stack.last()
    }

    /// The state nearest the top, if any.
    pub fn top_state(&self) -> (res: Option<ItemSetId>)
        ensures
            res == top_state_of(self@),
    {
        let mut i: usize = self.stack.len();
        assert(self.stack@.take(i as int) =~= self.stack@);
        while i > 0
            invariant
                i <= self.stack@.len(),
                top_state_of(self.stack@) == top_state_of(self.stack@.take(i as int)),
            decreases i,
        {
            let ghost t = self.stack@.take(i as int);
            assert(t.drop_last() =~= self.stack@.take(i - 1));
            match self.stack[i - 1] {
                StackSymbol::State(id) => {
                    return Some(id);
                },
                _ => {},
            }
            i = i - 1;
        }
        assert(self.stack@.take(0) =~= Seq::<StackSymbol>::empty());
        None
    }

    pub fn len(&self) -> (res: usize)
        ensures
            res == self@.len(),
    {
        self.stack.len()
    }

    pub fn is_empty(&self) -> (res: bool)
        ensures
            res == (self@.len() == 0),
    {
        self.stack.len() == 0
    }

    pub fn clear(&mut self)
        ensures
            final(self)@ == Seq::<StackSymbol>::empty(),
    {
        self.stack.clear();
    }

    /// The entries, bottom first.
    pub fn iter(&self) -> (res: Vec<StackSymbol>)
        ensures
            res@ == self@,
    {
        self.stack.clone()
    }

    /// The entries, bottom first.
    pub fn symbols(&self) -> (res: &[StackSymbol])
        ensures
            res@ == self@,
    {
        self.stack.as_slice()
    }

    pub fn push_state(&mut self, state: ItemSetId)
        ensures
            final(self)@ == old(self)@.push(StackSymbol::State(state)),
    {
        self.stack.push(StackSymbol::State(state));
    }

    pub fn push_terminal(&mut self, terminal: TerminalId)
        ensures
            final(self)@ == old(self)@.push(StackSymbol::Terminal(terminal)),
    {
        self.stack.push(StackSymbol::Terminal(terminal));
    }

    pub fn push_non_terminal(&mut self, non_terminal: NonTerminalId)
        ensures
            final(self)@ == old(self)@.push(StackSymbol::NonTerminal(non_terminal)),
    {
        self.stack.push(StackSymbol::NonTerminal(non_terminal));
    }

    /// The text of the stack (see `stack_text`).
    pub fn to_string(&self) -> (res: String)
        ensures
            res@ == stack_text(self@),
    {
        let mut parts: Vec<String> = Vec::new();
        let mut i: usize = 0;
        while i < self.stack.len()
            invariant
                i <= self.stack@.len(),
                views(parts@) =~= self.stack@.take(i as int).map_values(|x: StackSymbol| stack_symbol_text(x)),
            decreases self.stack@.len() - i,
        {
            let t = self.stack[i].to_string();
            let ghost before = parts@;
            parts.push(t);
            proof {
                assert(views(parts@) =~= views(before).push(t@));
                assert(self.stack@.take(i + 1) =~= self.stack@.take(i as int).push(self.stack@[i as int]));
            }
            i = i + 1;
        }
        assert(self.stack@.take(self.stack@.len() as int) =~= self.stack@);
        assert(views(parts@) == self@.map_values(|x: StackSymbol| stack_symbol_text(x)));
        let mut s = String::new();
        push_str(&mut s, "[");
        let body = join_strings(&parts, ", ");
        push_str(&mut s, body.as_str());
        push_str(&mut s, "]");
        proof {
            reveal_strlit("[");
            reveal_strlit(", ");
            reveal_strlit("]");
            assert(", "@ =~= seq![',', ' ']);
            assert(body@ == join(self@.map_values(|x: StackSymbol| stack_symbol_text(x)), seq![',', ' ']));
            assert(s@ =~= stack_text(self@));
        }
        s
    }
}

/// What the parser does with the stack in one step.
#[derive(Debug, Clone, Copy, PartialEq, Eq, Structural)]
pub enum StackAction {
    Shift(ItemSetId),
    Reduce(ProductionId, usize, NonTerminalId),
    Accept,
    Error,
}

impl StackAction {
    pub fn shift(state: usize) -> (res: Self)
        ensures
            res == StackAction::Shift(ItemSetId(state)),
    {
        StackAction::Shift(ItemSetId(state))
    }

    pub fn reduce(production: usize, rhs_len: usize, lhs: NonTerminalId) -> (res: Self)
        ensures
            res == StackAction::Reduce(ProductionId(production), rhs_len, lhs),
    {
        StackAction::Reduce(ProductionId(production), rhs_len, lhs)
    }

    pub fn accept() -> (res: Self)
        ensures
            res == StackAction::Accept,
    {
        StackAction::Accept
    }

    pub fn error() -> (res: Self)
        ensures
            res == StackAction::Error,
    {
        StackAction::Error
    }

    pub fn is_shift(&self) -> (res: bool)
        ensures
            res == (*self is Shift),
    {
        matches!(self, StackAction::Shift(_))
    }

    pub fn is_reduce(&self) -> (res: bool)
        ensures
            res == (*self is Reduce),
    {
        matches!(self, StackAction::Reduce(_, _, _))
    }

    pub fn is_accept(&self) -> (res: bool)
        ensures
            res == (*self is Accept),
    {
        matches!(self, StackAction::Accept)
    }

    pub fn is_error(&self) -> (res: bool)
        ensures
            res == (*self is Error),
    {
        matches!(self, StackAction::Error)
    }
}

} // verus!
