//! The augmented grammar: a new start symbol `S'` with the production `S' -> S`.
use vstd::prelude::*;
use vstd::string::StringExecFns;
use crate::cfg::{ContextFreeGrammar, NonTerminalId, Production, Symbol, TerminalId};
use crate::counting::lemma_distinct_in_range;
use crate::text::{decimal, lemma_decimal_injective, lemma_decimal_len, usize_to_string};

verus! {

/// The candidate names for the augmented start symbol: `S'`, `S'1`, `S'2`, ...
pub open spec fn augmented_name(c: nat) -> Seq<char> {
    if c == 0 {
        seq!['S', '\'']
    } else {
        seq!['S', '\''] + decimal(c)
    }
}

/// Some name of `names` is `n`.
pub open spec fn has_name(names: Seq<String>, n: Seq<char>) -> bool {
    exists|i: int| 0 <= i < names.len() && (#[trigger] names[i])@ == n
}

/// The number of the augmented start name chosen for a grammar with the
/// non-terminal names `names`: the first candidate not already in use.
pub open spec fn is_first_free_name(names: Seq<String>, c: nat) -> bool {
    &&& !has_name(names, augmented_name(c))
    &&& forall|k: nat| k < c ==> has_name(names, #[trigger] augmented_name(k))
}

proof fn lemma_augmented_name_injective(a: nat, b: nat)
    requires
        augmented_name(a) == augmented_name(b),
    ensures
        a == b,
{
    if a != 0 && b != 0 {
        let pa = augmented_name(a);
        assert(decimal(a) =~= pa.skip(2));
        assert(decimal(b) =~= augmented_name(b).skip(2));
        lemma_decimal_injective(a, b);
    } else if a != 0 {
        lemma_decimal_len(a);
        assert(augmented_name(a).len() > 2);
    } else if b != 0 {
        lemma_decimal_len(b);
        assert(augmented_name(b).len() > 2);
    }
}

/// When the first `k` candidates are all in use, there are at least `k` names.
proof fn lemma_used_names_bound(names: Seq<String>, k: nat)
    requires
        forall|c: nat| c < k ==> has_name(names, #[trigger] augmented_name(c)),
    ensures
        k <= names.len(),
{
    let ps = Seq::new(
        k,
        |c: int| choose|i: int| 0 <= i < names.len() && (#[trigger] names[i])@ == augmented_name(c as nat),
    );
    assert forall|c: int| 0 <= c < ps.len() implies 0 <= #[trigger] ps[c] < names.len() && names[ps[c]]@
        == augmented_name(c as nat) by {
        assert(has_name(names, augmented_name(c as nat)));
    }
    assert forall|a: int, b: int| 0 <= a < ps.len() && 0 <= b < ps.len() && a != b implies ps[a] != ps[b] by {
        if ps[a] == ps[b] {
            lemma_augmented_name_injective(a as nat, b as nat);
        }
    }
    lemma_distinct_in_range(ps, names.len() as int);
}

/// Whether `name` is one of `names`.
pub(crate) fn contains_name(names: &Vec<String>, name: &str) -> (res: bool)
    ensures
        res == has_name(names@, name@),
{
    let target = String::from_str(name);
    let mut i: usize = 0;
    while i < names.len()
        invariant
            i <= names.len(),
            target@ == name@,
            forall|j: int| 0 <= j < i ==> (#[trigger] names@[j])@ != name@,
        decreases names.len() - i,
    {
        if names[i] == target {
            assert(names@[i as int]@ == name@);
            return true;
        }
        i = i + 1;
    }
    false
}

/// `a` is the augmentation of `cfg`: `cfg` with the fresh non-terminal `S'`
/// (the first of `S'`, `S'1`, ... not already taken) appended, the production
/// `S' -> S` put first and `S'` made the start symbol.
pub open spec fn augments(cfg: &ContextFreeGrammar, a: &AugmentedGrammar) -> bool {
    let g = a.spec_grammar();
    &&& a.spec_original_start() == cfg.start_symbol
    &&& a.spec_augmented_start() == NonTerminalId(cfg.non_terminals.len())
    &&& g.terminals@ == cfg.terminals@
    &&& g.non_terminals@.len() == cfg.non_terminals@.len() + 1
    &&& forall|i: int| 0 <= i < cfg.non_terminals.len() ==> #[trigger] g.non_terminals@[i] == cfg.non_terminals@[i]
    &&& exists|c: nat|
        is_first_free_name(cfg.non_terminals@, c) && g.non_terminals@[cfg.non_terminals.len() as int]@ == augmented_name(c)
    &&& g.productions.len() == cfg.productions.len() + 1
    &&& g.productions@[0].lhs == NonTerminalId(cfg.non_terminals.len())
    &&& g.productions@[0].rhs@ == seq![Symbol::NonTerminal(cfg.start_symbol)]
    &&& forall|i: int| 0 <= i < cfg.productions.len() ==> (#[trigger] g.productions@[i + 1]).lhs
        == cfg.productions@[i].lhs && g.productions@[i + 1].rhs@ == cfg.productions@[i].rhs@
    &&& g.start_symbol == NonTerminalId(cfg.non_terminals.len())
}

/// Augmenting grammars with the same symbols and productions gives the same result.
pub proof fn lemma_augments_same(cfg1: &ContextFreeGrammar, cfg2: &ContextFreeGrammar, a: &AugmentedGrammar)
    requires
        crate::cfg::same_grammar(cfg1, cfg2),
        augments(cfg2, a),
    ensures
        augments(cfg1, a),
{
    let g = a.spec_grammar();
    assert forall|i: int| 0 <= i < cfg1.productions.len() implies (#[trigger] g.productions@[i + 1]).lhs
        == cfg1.productions@[i].lhs && g.productions@[i + 1].rhs@ == cfg1.productions@[i].rhs@ by {
        assert(cfg1.productions@[i].lhs == cfg2.productions@[i].lhs);
    }
}

/// The augmented grammar of an LR construction: production 0 is `S' -> S`, where
/// `S'` is a new non-terminal and `S` the original start symbol.
#[derive(Debug)]
pub struct AugmentedGrammar {
    cfg: ContextFreeGrammar,
    augmented_start: NonTerminalId,
    original_start: NonTerminalId,
}

impl AugmentedGrammar {
    #[verifier::type_invariant]
    spec fn shape(&self) -> bool {
        &&& self.cfg.wf()
        &&& self.cfg.productions.len() >= 1
        &&& self.cfg.productions@[0].lhs == self.augmented_start
        &&& self.cfg.productions@[0].rhs@ == seq![Symbol::NonTerminal(self.original_start)]
        &&& self.cfg.start_symbol == self.augmented_start
        &&& self.augmented_start.0 + 1 == self.cfg.non_terminals.len()
        &&& self.original_start.0 < self.augmented_start.0
    }

    /// The augmented grammar itself.
    pub closed spec fn spec_grammar(&self) -> ContextFreeGrammar {
        self.cfg
    }

    /// The new start symbol `S'`.
    pub closed spec fn spec_augmented_start(&self) -> NonTerminalId {
        self.augmented_start
    }

    /// The start symbol of the original grammar.
    pub closed spec fn spec_original_start(&self) -> NonTerminalId {
        self.original_start
    }

    /// The facts every augmented grammar satisfies.
    pub open spec fn valid(&self) -> bool {
        let g = self.spec_grammar();
        &&& g.wf()
        &&& g.productions.len() >= 1
        &&& g.productions@[0].lhs == self.spec_augmented_start()
        &&& g.productions@[0].rhs@ == seq![Symbol::NonTerminal(self.spec_original_start())]
        &&& g.start_symbol == self.spec_augmented_start()
        &&& self.spec_augmented_start().0 + 1 == g.non_terminals.len()
        &&& self.spec_original_start().0 < self.spec_augmented_start().0
    }

    /// Augments `cfg`: adds the non-terminal `S'` (or `S'1`, `S'2`, ... when that
    /// name is taken), inserts `S' -> S` as production 0 and makes `S'` the start.
    pub fn new(cfg: ContextFreeGrammar) -> (res: Self)
        requires
            cfg.wf(),
            cfg.non_terminals.len() + 1 < usize::MAX,
        ensures
            res.spec_original_start() == cfg.start_symbol,
            res.spec_augmented_start() == NonTerminalId(cfg.non_terminals.len()),
            res.spec_grammar().terminals@ == cfg.terminals@,
            res.spec_grammar().non_terminals@.len() == cfg.non_terminals@.len() + 1,
            forall|i: int| 0 <= i < cfg.non_terminals.len() ==> #[trigger] res.spec_grammar().non_terminals@[i]
                == cfg.non_terminals@[i],
            exists|c: nat|
                is_first_free_name(cfg.non_terminals@, c) && res.spec_grammar().non_terminals@[cfg.non_terminals.len()
                    as int]@ == augmented_name(c),
            res.spec_grammar().productions.len() == cfg.productions.len() + 1,
            res.spec_grammar().productions@[0].lhs == NonTerminalId(cfg.non_terminals.len()),
            res.spec_grammar().productions@[0].rhs@ == seq![Symbol::NonTerminal(cfg.start_symbol)],
            forall|i: int| 0 <= i < cfg.productions.len() ==> (#[trigger] res.spec_grammar().productions@[i + 1]).lhs
                == cfg.productions@[i].lhs && res.spec_grammar().productions@[i + 1].rhs@ == cfg.productions@[i].rhs@,
            res.spec_grammar().start_symbol == NonTerminalId(cfg.non_terminals.len()),
            augments(&cfg, &res),
    {
        let original_start = cfg.start_symbol;
        let mut augmented_cfg = cfg;
        let ghost old_names = augmented_cfg.non_terminals@;
        let (name, c) = Self::generate_augmented_start_name(&augmented_cfg);
        let ghost name_view = name@;
        let augmented_start = Self::add_augmented_start(&mut augmented_cfg, name, original_start);
        proof {
            let g = augmented_cfg;
            assert(g.non_terminals@[old_names.len() as int]@ == augmented_name(c@));
            assert forall|p: int| 0 <= p < g.productions.len() implies (#[trigger] g.productions@[p]).lhs.0
                < g.non_terminals.len() by {
                if p > 0 {
                    let i = p - 1;
                    assert(g.productions@[i + 1] == cfg.productions@[i]);
                }
            }
            assert forall|p: int, k: int|
                0 <= p < g.productions.len() && 0 <= k < g.productions@[p].rhs.len()
                    implies crate::cfg::symbol_in_range(
                    #[trigger] g.productions@[p].rhs@[k],
                    g.terminals.len() as nat,
                    g.non_terminals.len() as nat,
                ) by {
                if p > 0 {
                    let i = p - 1;
                    assert(g.productions@[i + 1] == cfg.productions@[i]);
                    assert(crate::cfg::symbol_in_range(
                        cfg.productions@[i].rhs@[k],
                        cfg.terminals.len() as nat,
                        cfg.non_terminals.len() as nat,
                    ));
                }
            }
            assert forall|i: int| 0 <= i < cfg.productions.len() implies (#[trigger] g.productions@[i + 1]).lhs
                == cfg.productions@[i].lhs && g.productions@[i + 1].rhs@ == cfg.productions@[i].rhs@ by {
                assert(g.productions@[i + 1] == cfg.productions@[i]);
            }
        }
        AugmentedGrammar { cfg: augmented_cfg, augmented_start, original_start }
    }

    /// The first candidate name (`S'`, `S'1`, `S'2`, ...) not used by `cfg`.
    fn generate_augmented_start_name(cfg: &ContextFreeGrammar) -> (res: (String, Ghost<nat>))
        ensures
            is_first_free_name(cfg.non_terminals@, res.1@),
            res.0@ == augmented_name(res.1@),
    {
        let base = String::from_str("S'");
        proof {
            reveal_strlit("S'");
        }
        assert(base@ == augmented_name(0));
        if !contains_name(&cfg.non_terminals, base.as_str()) {
            return (base, Ghost(0));
        }
        proof {
            assert forall|k: nat| k < 1 implies has_name(cfg.non_terminals@, #[trigger] augmented_name(k)) by {}
            lemma_used_names_bound(cfg.non_terminals@, 1);
        }
        let mut counter: usize = 1;
        loop
            invariant
                1 <= counter <= cfg.non_terminals.len(),
                forall|k: nat| k < counter ==> has_name(cfg.non_terminals@, #[trigger] augmented_name(k)),
            decreases cfg.non_terminals.len() - counter,
        {
            let mut name = String::from_str("S'");
            proof {
                reveal_strlit("S'");
            }
            name.append(usize_to_string(counter).as_str());
            assert(name@ =~= augmented_name(counter as nat));
            if !contains_name(&cfg.non_terminals, name.as_str()) {
                return (name, Ghost(counter as nat));
            }
            proof {
                assert forall|k: nat| k < counter + 1 implies has_name(cfg.non_terminals@, #[trigger] augmented_name(k)) by {
                    if k == counter {
                        assert(name@ == augmented_name(k));
                    }
                }
                lemma_used_names_bound(cfg.non_terminals@, (counter + 1) as nat);
            }
            counter = counter + 1;
        }
    }

    /// Adds the non-terminal `name` and the production `name -> original_start`
    /// (as production 0), and makes `name` the start symbol.
    fn add_augmented_start(cfg: &mut ContextFreeGrammar, name: String, original_start: NonTerminalId) -> (res:
        NonTerminalId)
        requires
            old(cfg).non_terminals.len() + 1 < usize::MAX,
        ensures
            res == NonTerminalId(old(cfg).non_terminals.len()),
            final(cfg).terminals@ == old(cfg).terminals@,
            final(cfg).non_terminals@ == old(cfg).non_terminals@.push(name),
            final(cfg).productions@.len() == old(cfg).productions@.len() + 1,
            final(cfg).productions@[0].lhs == res,
            final(cfg).productions@[0].rhs@ == seq![Symbol::NonTerminal(original_start)],
            forall|i: int| 0 <= i < old(cfg).productions.len() ==> #[trigger] final(cfg).productions@[i + 1]
                == old(cfg).productions@[i],
            final(cfg).start_symbol == res,
    {
        let augmented_start = NonTerminalId(cfg.non_terminals.len());
        cfg.non_terminals.push(name);
        let mut rhs: Vec<Symbol> = Vec::new();
        rhs.push(Symbol::NonTerminal(original_start));
        let new_production = Production::new(augmented_start, rhs);
        cfg.productions.insert(0, new_production);
        cfg.start_symbol = augmented_start;
        augmented_start
    }

    /// The new start symbol `S'`.
    pub fn augmented_start(&self) -> (res: NonTerminalId)
        ensures
            res == self.spec_augmented_start(),
    {
        self.augmented_start
    }

    /// The start symbol of the original grammar.
    pub fn original_start(&self) -> (res: NonTerminalId)
        ensures
            res == self.spec_original_start(),
    {
        self.original_start
    }

    /// The index of `S' -> S` (always 0).
    pub fn start_production_index(&self) -> (res: usize)
        ensures
            res == 0,
    {
        0
    }

    /// The augmented grammar.
    pub fn grammar(&self) -> (res: &ContextFreeGrammar)
        ensures
            *res == self.spec_grammar(),
            self.valid(),
    {
        proof {
            use_type_invariant(self);
        }
        &self.cfg
    }

    /// The augmented grammar, by value.
    pub fn into_grammar(self) -> (res: ContextFreeGrammar)
        ensures
            res == self.spec_grammar(),
    {
        self.cfg
    }

    /// The name of a non-terminal.
    pub fn get_non_terminal_name(&self, id: NonTerminalId) -> (res: &str)
        ensures
            res@ == self.spec_grammar().spec_non_terminal_name(id),
    {
        self.cfg.get_non_terminal_name(id)
    }

    /// The name of a terminal (`$` for the end marker).
    pub fn get_terminal_name(&self, id: TerminalId) -> (res: &str)
        ensures
            res@ == self.spec_grammar().spec_terminal_name(id),
    {
        self.cfg.get_terminal_name(id)
    }

    /// All productions.
    pub fn productions(&self) -> (res: &[Production])
        ensures
            res@ == self.spec_grammar().productions@,
    {
        self.cfg.productions.as_slice()
    }

    /// The production at `index`, if any.
    pub fn get_production(&self, index: usize) -> (res: Option<&Production>)
        ensures
            index < self.spec_grammar().productions.len() ==> res == Some(
                &self.spec_grammar().productions@[index as int],
            ),
            index >= self.spec_grammar().productions.len() ==> res is None,
    {
        if index < self.cfg.productions.len() {
            Some(&self.cfg.productions[index])
        } else {
            None
        }
    }

    /// Whether `id` is the augmented start symbol.
    pub fn is_augmented_start(&self, id: NonTerminalId) -> (res: bool)
        ensures
            res == (id == self.spec_augmented_start()),
    {
        id == self.augmented_start
    }

    /// Whether production `production_index` is the accepting production `S' -> S`.
    pub fn is_accepting_production(&self, production_index: usize) -> (res: bool)
        ensures
            res == (production_index == 0),
    {
        production_index == 0
    }

    /// The non-terminal names.
    pub fn non_terminals(&self) -> (res: &[String])
        ensures
            res@ == self.spec_grammar().non_terminals@,
    {
        self.cfg.non_terminals.as_slice()
    }

    /// Reads a grammar from its text form and augments it.
    pub fn from_str(input: &str) -> (res: Result<Self, String>)
        ensures
            res is Ok ==> exists|g: ContextFreeGrammar|
                crate::grammar_text::parse_outcome(input@, Ok(g)) && #[trigger] augments(&g, &res->Ok_0),
            res matches Err(m) ==> crate::grammar_text::parse_outcome(input@, Err(m)),
    {
        let parsed = ContextFreeGrammar::parse(input);
        match parsed {
            Ok(cfg) => {
                let ghost g = cfg;
                let a = AugmentedGrammar::new(cfg);
                let res: Result<Self, String> = Ok(a);
                assert(crate::grammar_text::parse_outcome(input@, Ok(g)) && augments(&g, &res->Ok_0));
                res
            },
            Err(m) => Err(m),
        }
    }

    /// Each terminal name with its id.
    pub fn terminal_map(&self) -> (res: Vec<(String, TerminalId)>)
        ensures
            res@.len() == self.spec_grammar().terminals@.len(),
            forall|i: int|
                0 <= i < res@.len() ==> #[trigger] res@[i].0 == self.spec_grammar().terminals@[i] && res@[i].1
                    == TerminalId(i as usize),
    {
        let names = &self.cfg.terminals;
        let mut res: Vec<(String, TerminalId)> = Vec::new();
        let mut i: usize = 0;
        while i < names.len()
            invariant
                i <= names@.len(),
                *names == self.spec_grammar().terminals,
                res@.len() == i,
                forall|k: int| 0 <= k < i ==> #[trigger] res@[k].0 == names@[k] && res@[k].1 == TerminalId(k as usize),
            decreases names@.len() - i,
        {
            res.push((names[i].clone(), TerminalId(i)));
            i = i + 1;
        }
        res
    }

    /// Each non-terminal name with its id.
    pub fn non_terminal_map(&self) -> (res: Vec<(String, NonTerminalId)>)
        ensures
            res@.len() == self.spec_grammar().non_terminals@.len(),
            forall|i: int|
                0 <= i < res@.len() ==> #[trigger] res@[i].0 == self.spec_grammar().non_terminals@[i] && res@[i].1
                    == NonTerminalId(i as usize),
    {
        let names = &self.cfg.non_terminals;
        let mut res: Vec<(String, NonTerminalId)> = Vec::new();
        let mut i: usize = 0;
        while i < names.len()
            invariant
                i <= names@.len(),
                *names == self.spec_grammar().non_terminals,
                res@.len() == i,
                forall|k: int| 0 <= k < i ==> #[trigger] res@[k].0 == names@[k] && res@[k].1 == NonTerminalId(k as usize),
            decreases names@.len() - i,
        {
            res.push((names[i].clone(), NonTerminalId(i)));
            i = i + 1;
        }
        res
    }

    /// The terminal names.
    pub fn terminals(&self) -> (res: &[String])
        ensures
            res@ == self.spec_grammar().terminals@,
    {
        self.cfg.terminals.as_slice()
    }
}

} // verus!
