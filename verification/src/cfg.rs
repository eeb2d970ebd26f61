//! Context-free grammars: symbols, productions and the grammar itself.
use vstd::prelude::*;

verus! {

/// Identifier of a terminal symbol (index into `ContextFreeGrammar::terminals`).
/// The index equal to the number of terminals stands for the end marker `$`.
#[derive(Clone, Copy, PartialEq, Eq, Structural, Hash, Debug, PartialOrd, Ord)]
pub struct TerminalId(pub usize);

/// Identifier of a non-terminal symbol (index into `ContextFreeGrammar::non_terminals`).
#[derive(Clone, Copy, PartialEq, Eq, Structural, Hash, Debug, PartialOrd, Ord)]
pub struct NonTerminalId(pub usize);

/// A grammar symbol.
#[derive(Clone, Copy, PartialEq, Eq, Structural, Hash, Debug)]
pub enum Symbol {
    Terminal(TerminalId),
    NonTerminal(NonTerminalId),
    Epsilon,
}

} // verus!

verus! {

/// A production `lhs -> rhs`. An epsilon production has the right-hand side `[ε]`
/// (or, when built by hand, an empty right-hand side).
#[derive(Debug)]
pub struct Production {
    pub lhs: NonTerminalId,
    pub rhs: Vec<Symbol>,
}

impl Clone for Production {
    fn clone(&self) -> (res: Self)
        ensures
            res.lhs == self.lhs,
            res.rhs@ == self.rhs@,
    {
        Production { lhs: self.lhs, rhs: self.rhs.clone() }
    }
}

/// Whether a right-hand side denotes the empty string.
pub open spec fn spec_is_epsilon_rhs(rhs: Seq<Symbol>) -> bool {
    rhs.len() == 0 || (rhs.len() == 1 && rhs[0] == Symbol::Epsilon)
}

impl Production {
    pub fn new(lhs: NonTerminalId, rhs: Vec<Symbol>) -> (res: Self)
        ensures
            res.lhs == lhs,
            res.rhs@ == rhs@,
    {
        Production { lhs, rhs }
    }

    /// The production `lhs -> ε`.
    pub fn epsilon(lhs: NonTerminalId) -> (res: Self)
        ensures
            res.lhs == lhs,
            res.rhs@ == seq![Symbol::Epsilon],
    {
        let mut rhs = Vec::new();
        rhs.push(Symbol::Epsilon);
        Production { lhs, rhs }
    }

    pub open spec fn spec_is_epsilon(&self) -> bool {
        spec_is_epsilon_rhs(self.rhs@)
    }

    #[verifier::when_used_as_spec(spec_is_epsilon)]
    pub fn is_epsilon(&self) -> (res: bool)
        ensures
            res == self.spec_is_epsilon(),
    {
        self.rhs.len() == 0 || (self.rhs.len() == 1 && self.rhs[0] == Symbol::Epsilon)
    }
}

/// A context-free grammar. Terminals and non-terminals are numbered by their
/// position in `terminals` and `non_terminals`; `start_symbol` is the start symbol.
#[derive(Debug)]
pub struct ContextFreeGrammar {
    pub terminals: Vec<String>,
    pub non_terminals: Vec<String>,
    pub productions: Vec<Production>,
    pub start_symbol: NonTerminalId,
}

/// Two grammars with the same symbols, productions and start symbol.
pub open spec fn same_grammar(a: &ContextFreeGrammar, b: &ContextFreeGrammar) -> bool {
    &&& a.terminals@ == b.terminals@
    &&& a.non_terminals@ == b.non_terminals@
    &&& a.start_symbol == b.start_symbol
    &&& a.productions@.len() == b.productions@.len()
    &&& forall|p: int|
        0 <= p < a.productions@.len() ==> (#[trigger] a.productions@[p]).lhs == b.productions@[p].lhs
            && a.productions@[p].rhs@ == b.productions@[p].rhs@
}

pub(crate) fn clone_names(v: &Vec<String>) -> (res: Vec<String>)
    ensures
        res@ == v@,
{
    let mut res: Vec<String> = Vec::new();
    let mut i: usize = 0;
    while i < v.len()
        invariant
            i <= v.len(),
            res@ == v@.take(i as int),
        decreases v.len() - i,
    {
        res.push(v[i].clone());
        assert(v@.take(i + 1) =~= v@.take(i as int).push(v@[i as int]));
        i = i + 1;
    }
    assert(v@.take(v.len() as int) =~= v@);
    res
}

impl Clone for ContextFreeGrammar {
    fn clone(&self) -> (res: Self)
        ensures
            same_grammar(self, &res),
            self.wf() ==> res.wf(),
    {
        let mut productions: Vec<Production> = Vec::new();
        let mut i: usize = 0;
        while i < self.productions.len()
            invariant
                i <= self.productions@.len(),
                productions@.len() == i,
                forall|p: int|
                    0 <= p < i ==> (#[trigger] productions@[p]).lhs == self.productions@[p].lhs
                        && productions@[p].rhs@ == self.productions@[p].rhs@,
            decreases self.productions@.len() - i,
        {
            productions.push(self.productions[i].clone());
            i = i + 1;
        }
        let res = ContextFreeGrammar {
            terminals: clone_names(&self.terminals),
            non_terminals: clone_names(&self.non_terminals),
            productions,
            start_symbol: self.start_symbol,
        };
        proof {
            if self.wf() {
                assert forall|p: int, k: int|
                    0 <= p < res.productions.len() && 0 <= k < res.productions@[p].rhs.len()
                        implies symbol_in_range(
                        #[trigger] res.productions@[p].rhs@[k],
                        res.terminals.len() as nat,
                        res.non_terminals.len() as nat,
                    ) by {
                    assert(res.productions@[p].rhs@ == self.productions@[p].rhs@);
                    assert(self.productions@[p].rhs@[k] == res.productions@[p].rhs@[k]);
                }
            }
        }
        res
    }
}

/// Whether a symbol refers to an existing terminal or non-terminal.
pub open spec fn symbol_in_range(sym: Symbol, n_terms: nat, n_nts: nat) -> bool {
    match sym {
        Symbol::Terminal(t) => t.0 < n_terms,
        Symbol::NonTerminal(n) => n.0 < n_nts,
        Symbol::Epsilon => true,
    }
}

impl ContextFreeGrammar {
    /// Every id used by the grammar refers to an existing symbol.
    pub open spec fn wf(&self) -> bool {
        &&& self.start_symbol.0 < self.non_terminals.len()
        &&& self.terminals.len() < usize::MAX
        &&& forall|p: int|
            0 <= p < self.productions.len() ==> (#[trigger] self.productions@[p]).lhs.0
                < self.non_terminals.len()
        &&& forall|p: int, k: int|
            0 <= p < self.productions.len() && 0 <= k < self.productions@[p].rhs.len()
                ==> symbol_in_range(
                #[trigger] self.productions@[p].rhs@[k],
                self.terminals.len() as nat,
                self.non_terminals.len() as nat,
            )
    }

    /// The id of the terminal named `name`, if there is one (the first such).
    pub fn terminal_id(&self, name: &str) -> (res: Option<TerminalId>)
        ensures
            res matches Some(id) ==> id.0 < self.terminals@.len() && self.terminals@[id.0 as int]@ == name@
                && forall|k: int| 0 <= k < id.0 ==> #[trigger] self.terminals@[k]@ != name@,
            res is None ==> forall|k: int| 0 <= k < self.terminals@.len() ==> #[trigger] self.terminals@[k]@ != name@,
    {
        let mut i: usize = 0;
        while i < self.terminals.len()
            invariant
                i <= self.terminals@.len(),
                forall|k: int| 0 <= k < i ==> #[trigger] self.terminals@[k]@ != name@,
            decreases self.terminals@.len() - i,
        {
            if crate::text::str_eq(self.terminals[i].as_str(), name) {
                return Some(TerminalId(i));
            }
            i = i + 1;
        }
        None
    }

    /// The id of the non-terminal named `name`, if there is one (the first such).
    pub fn non_terminal_id(&self, name: &str) -> (res: Option<NonTerminalId>)
        ensures
            res matches Some(id) ==> id.0 < self.non_terminals@.len() && self.non_terminals@[id.0 as int]@ == name@
                && forall|k: int| 0 <= k < id.0 ==> #[trigger] self.non_terminals@[k]@ != name@,
            res is None ==> forall|k: int| 0 <= k < self.non_terminals@.len() ==> #[trigger] self.non_terminals@[k]@ != name@,
    {
        let mut i: usize = 0;
        while i < self.non_terminals.len()
            invariant
                i <= self.non_terminals@.len(),
                forall|k: int| 0 <= k < i ==> #[trigger] self.non_terminals@[k]@ != name@,
            decreases self.non_terminals@.len() - i,
        {
            if crate::text::str_eq(self.non_terminals[i].as_str(), name) {
                return Some(NonTerminalId(i));
            }
            i = i + 1;
        }
        None
    }

    /// The right-hand side of production `p` as a sequence of symbols.
    pub open spec fn rhs_of(&self, p: int) -> Seq<Symbol> {
        self.productions@[p].rhs@
    }

    /// The name printed for a terminal id; the id one past the last terminal is `$`.
    pub open spec fn spec_terminal_name(&self, id: TerminalId) -> Seq<char> {
        if id.0 < self.terminals.len() {
            self.terminals@[id.0 as int]@
        } else {
            seq!['$']
        }
    }

    pub fn get_terminal_name(&self, id: TerminalId) -> (res: &str)
        ensures
            res@ == self.spec_terminal_name(id),
    {
        if id.0 < self.terminals.len() {
            self.terminals[id.0].as_str()
        } else {
            proof {
                reveal_strlit("$");
            }
            "$"
        }
    }

    /// The name printed for a non-terminal id; unknown ids print as `?`.
    pub open spec fn spec_non_terminal_name(&self, id: NonTerminalId) -> Seq<char> {
        if id.0 < self.non_terminals.len() {
            self.non_terminals@[id.0 as int]@
        } else {
            seq!['?']
        }
    }

    pub fn get_non_terminal_name(&self, id: NonTerminalId) -> (res: &str)
        ensures
            res@ == self.spec_non_terminal_name(id),
    {
        if id.0 < self.non_terminals.len() {
            self.non_terminals[id.0].as_str()
        } else {
            proof {
                reveal_strlit("?");
            }
            "?"
        }
    }
}

} // verus!
