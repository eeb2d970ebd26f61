//! The classes of LR grammars.
use vstd::prelude::*;

verus! {

/// The class of LR grammars a grammar belongs to.
#[derive(Debug, Clone, Copy, PartialEq, Eq, Structural)]
pub enum LRGrammarType {
    LR0,
    SLR1,
    LALR1,
    LR1,
    NotLR,
    Unknown,
}

/// The printed name of a grammar class.
pub open spec fn grammar_type_name(t: LRGrammarType) -> Seq<char> {
    match t {
        LRGrammarType::LR0 => seq!['L', 'R', '(', '0', ')'],
        LRGrammarType::SLR1 => seq!['S', 'L', 'R', '(', '1', ')'],
        LRGrammarType::LALR1 => seq!['L', 'A', 'L', 'R', '(', '1', ')'],
        LRGrammarType::LR1 => seq!['L', 'R', '(', '1', ')'],
        LRGrammarType::NotLR => seq!['N', 'o', 't', ' ', 'L', 'R'],
        LRGrammarType::Unknown => seq!['U', 'n', 'k', 'n', 'o', 'w', 'n'],
    }
}

impl LRGrammarType {
    /// Whether the grammar can be parsed deterministically by an LR parser.
    pub fn is_deterministic(&self) -> (res: bool)
        ensures
            res == (*self is LR0 || *self is SLR1 || *self is LALR1 || *self is LR1),
    {
        matches!(self, LRGrammarType::LR0 | LRGrammarType::SLR1 | LRGrammarType::LALR1 | LRGrammarType::LR1)
    }

    pub fn is_lr0(&self) -> (res: bool)
        ensures
            res == (*self is LR0),
    {
        matches!(self, LRGrammarType::LR0)
    }

    pub fn is_slr1(&self) -> (res: bool)
        ensures
            res == (*self is SLR1),
    {
        matches!(self, LRGrammarType::SLR1)
    }

    pub fn is_lalr1(&self) -> (res: bool)
        ensures
            res == (*self is LALR1),
    {
        matches!(self, LRGrammarType::LALR1)
    }

    pub fn is_lr1(&self) -> (res: bool)
        ensures
            res == (*self is LR1),
    {
        matches!(self, LRGrammarType::LR1)
    }

    /// The printed name of the class.
    pub fn name(&self) -> (res: &'static str)
        ensures
            res@ == grammar_type_name(*self),
    {
        match self {
            LRGrammarType::LR0 => {
                proof {
                    reveal_strlit("LR(0)");
                }
                "LR(0)"
            },
            LRGrammarType::SLR1 => {
                proof {
                    reveal_strlit("SLR(1)");
                }
                "SLR(1)"
            },
            LRGrammarType::LALR1 => {
                proof {
                    reveal_strlit("LALR(1)");
                }
                "LALR(1)"
            },
            LRGrammarType::LR1 => {
                proof {
                    reveal_strlit("LR(1)");
                }
                "LR(1)"
            },
            LRGrammarType::NotLR => {
                proof {
                    reveal_strlit("Not LR");
                }
                "Not LR"
            },
            LRGrammarType::Unknown => {
                proof {
                    reveal_strlit("Unknown");
                }
                "Unknown"
            },
        }
    }

    /// The printed name of the class, as a `String`.
    pub fn to_string(&self) -> (res: String)
        ensures
            res@ == grammar_type_name(*self),
    {
        let mut s = String::new();
        crate::text::push_str(&mut s, self.name());
        assert(s@ =~= grammar_type_name(*self));
        s
    }
}

} // verus!
