//! LR(0) and LR(1) items.
use vstd::prelude::*;
use crate::cfg::{Production, Symbol, TerminalId, spec_is_epsilon_rhs};

verus! {

/// Whether an item with the dot at `dot` is complete for right-hand side `rhs`.
pub open spec fn spec_item_complete(dot: usize, rhs: Seq<Symbol>) -> bool {
    if spec_is_epsilon_rhs(rhs) {
        dot == 1
    } else {
        dot >= rhs.len()
    }
}

/// The symbol right after the dot, if any. For an epsilon production the
/// symbol after a dot at position 0 is `ε`.
pub open spec fn spec_next_symbol(dot: usize, rhs: Seq<Symbol>) -> Option<Symbol> {
    if spec_is_epsilon_rhs(rhs) {
        if dot == 0 {
            Some(Symbol::Epsilon)
        } else {
            None
        }
    } else if dot < rhs.len() {
        Some(rhs[dot as int])
    } else {
        None
    }
}

/// Kernel items are those with the dot moved past position 0, plus the
/// initial item of the augmented start production (production 0).
pub open spec fn spec_is_kernel(prod: usize, dot: usize) -> bool {
    dot > 0 || prod == 0
}

fn item_is_complete(dot: usize, production: &Production) -> (res: bool)
    ensures
        res == spec_item_complete(dot, production.rhs@),
{
    if production.is_epsilon() {
        dot == 1
    } else {
        dot >= production.rhs.len()
    }
}

fn item_next_symbol(dot: usize, production: &Production) -> (res: Option<Symbol>)
    ensures
        res == spec_next_symbol(dot, production.rhs@),
{
    if production.is_epsilon() {
        if dot == 0 {
            Some(Symbol::Epsilon)
        } else {
            None
        }
    } else if dot < production.rhs.len() {
        Some(production.rhs[dot])
    } else {
        None
    }
}

/// An LR(0) item `[A -> α·β]`: production index and dot position.
#[derive(Clone, Copy, PartialEq, Eq, Structural, Hash, Debug, PartialOrd, Ord)]
pub struct LR0Item {
    pub production_index: usize,
    pub dot_position: usize,
}

impl LR0Item {
    pub fn new(production_index: usize, dot_position: usize) -> (res: Self)
        ensures
            res.production_index == production_index,
            res.dot_position == dot_position,
    {
        LR0Item { production_index, dot_position }
    }

    /// The initial item of a production (dot at position 0).
    pub fn from_production(production_index: usize) -> (res: Self)
        ensures
            res.production_index == production_index,
            res.dot_position == 0,
    {
        LR0Item { production_index, dot_position: 0 }
    }

    pub fn is_kernel(&self) -> (res: bool)
        ensures
            res == spec_is_kernel(self.production_index, self.dot_position),
    {
        self.dot_position > 0 || self.production_index == 0
    }

    pub fn is_complete(&self, production: &Production) -> (res: bool)
        ensures
            res == spec_item_complete(self.dot_position, production.rhs@),
    {
        item_is_complete(self.dot_position, production)
    }

    pub fn next_symbol(&self, production: &Production) -> (res: Option<Symbol>)
        ensures
            res == spec_next_symbol(self.dot_position, production.rhs@),
    {
        item_next_symbol(self.dot_position, production)
    }

    pub open spec fn spec_advance(self) -> Self {
        LR0Item { production_index: self.production_index, dot_position: (self.dot_position + 1) as usize }
    }

    /// The item with the dot moved one position to the right.
    pub fn advance(&self) -> (res: Self)
        requires
            self.dot_position < usize::MAX,
        ensures
            res == self.spec_advance(),
    {
        LR0Item { production_index: self.production_index, dot_position: self.dot_position + 1 }
    }

    /// The core of an LR(0) item is the item itself.
    pub fn get_core(&self) -> (res: Self)
        ensures
            res == *self,
    {
        *self
    }
}

/// An LR(1) item `[A -> α·β, a]`: an LR(0) item plus a lookahead terminal.
#[derive(Clone, Copy, PartialEq, Eq, Structural, Hash, Debug)]
pub struct LR1Item {
    pub production_index: usize,
    pub dot_position: usize,
    pub lookahead: TerminalId,
}

impl LR1Item {
    pub fn new(production_index: usize, dot_position: usize, lookahead: TerminalId) -> (res: Self)
        ensures
            res.production_index == production_index,
            res.dot_position == dot_position,
            res.lookahead == lookahead,
    {
        LR1Item { production_index, dot_position, lookahead }
    }

    pub fn from_production(production_index: usize, lookahead: TerminalId) -> (res: Self)
        ensures
            res.production_index == production_index,
            res.dot_position == 0,
            res.lookahead == lookahead,
    {
        LR1Item { production_index, dot_position: 0, lookahead }
    }

    pub fn is_kernel(&self) -> (res: bool)
        ensures
            res == spec_is_kernel(self.production_index, self.dot_position),
    {
        self.dot_position > 0 || self.production_index == 0
    }

    pub fn is_complete(&self, production: &Production) -> (res: bool)
        ensures
            res == spec_item_complete(self.dot_position, production.rhs@),
    {
        item_is_complete(self.dot_position, production)
    }

    pub fn next_symbol(&self, production: &Production) -> (res: Option<Symbol>)
        ensures
            res == spec_next_symbol(self.dot_position, production.rhs@),
    {
        item_next_symbol(self.dot_position, production)
    }

    pub open spec fn spec_advance(self) -> Self {
        LR1Item {
            production_index: self.production_index,
            dot_position: (self.dot_position + 1) as usize,
            lookahead: self.lookahead,
        }
    }

    /// The item with the dot moved one position right; the lookahead is kept.
    pub fn advance(&self) -> (res: Self)
        requires
            self.dot_position < usize::MAX,
        ensures
            res == self.spec_advance(),
    {
        LR1Item {
            production_index: self.production_index,
            dot_position: self.dot_position + 1,
            lookahead: self.lookahead,
        }
    }

    pub open spec fn spec_core(self) -> LR0Item {
        LR0Item { production_index: self.production_index, dot_position: self.dot_position }
    }

    /// The LR(0) core: the item without its lookahead.
    pub fn get_core(&self) -> (res: LR0Item)
        ensures
            res == self.spec_core(),
    {
        LR0Item::new(self.production_index, self.dot_position)
    }

    pub fn with_lookahead(&self, lookahead: TerminalId) -> (res: Self)
        ensures
            res.production_index == self.production_index,
            res.dot_position == self.dot_position,
            res.lookahead == lookahead,
    {
        LR1Item { production_index: self.production_index, dot_position: self.dot_position, lookahead }
    }
}

/// Either kind of item.
#[derive(Clone, Copy, PartialEq, Eq, Structural, Hash, Debug)]
pub enum Item {
    LR0(LR0Item),
    LR1(LR1Item),
}

impl Item {
    pub open spec fn spec_production_index(self) -> usize {
        match self {
            Item::LR0(i) => i.production_index,
            Item::LR1(i) => i.production_index,
        }
    }

    pub open spec fn spec_dot_position(self) -> usize {
        match self {
            Item::LR0(i) => i.dot_position,
            Item::LR1(i) => i.dot_position,
        }
    }

    pub fn production_index(&self) -> (res: usize)
        ensures
            res == self.spec_production_index(),
    {
        match self {
            Item::LR0(item) => item.production_index,
            Item::LR1(item) => item.production_index,
        }
    }

    pub fn dot_position(&self) -> (res: usize)
        ensures
            res == self.spec_dot_position(),
    {
        match self {
            Item::LR0(item) => item.dot_position,
            Item::LR1(item) => item.dot_position,
        }
    }

    pub fn is_kernel(&self) -> (res: bool)
        ensures
            res == spec_is_kernel(self.spec_production_index(), self.spec_dot_position()),
    {
        match self {
            Item::LR0(item) => item.is_kernel(),
            Item::LR1(item) => item.is_kernel(),
        }
    }

    pub fn is_complete(&self, production: &Production) -> (res: bool)
        ensures
            res == spec_item_complete(self.spec_dot_position(), production.rhs@),
    {
        match self {
            Item::LR0(item) => item.is_complete(production),
            Item::LR1(item) => item.is_complete(production),
        }
    }

    pub fn next_symbol(&self, production: &Production) -> (res: Option<Symbol>)
        ensures
            res == spec_next_symbol(self.spec_dot_position(), production.rhs@),
    {
        match self {
            Item::LR0(item) => item.next_symbol(production),
            Item::LR1(item) => item.next_symbol(production),
        }
    }

    /// Moves the dot one position right, keeping the kind and the lookahead.
    pub fn advance(&self) -> (res: Self)
        requires
            self.spec_dot_position() < usize::MAX,
        ensures
            res == (match *self {
                Item::LR0(i) => Item::LR0(i.spec_advance()),
                Item::LR1(i) => Item::LR1(i.spec_advance()),
            }),
    {
        match self {
            Item::LR0(item) => Item::LR0(item.advance()),
            Item::LR1(item) => Item::LR1(item.advance()),
        }
    }

    pub fn get_core(&self) -> (res: LR0Item)
        ensures
            res.production_index == self.spec_production_index(),
            res.dot_position == self.spec_dot_position(),
    {
        match self {
            Item::LR0(item) => *item,
            Item::LR1(item) => item.get_core(),
        }
    }

    pub fn lookahead(&self) -> (res: Option<TerminalId>)
        ensures
            res == (match *self {
                Item::LR0(_) => None,
                Item::LR1(i) => Some(i.lookahead),
            }),
    {
        match self {
            Item::LR0(_) => None,
            Item::LR1(item) => Some(item.lookahead),
        }
    }
}

/// The two kinds of items.
#[derive(Clone, Copy, PartialEq, Eq, Structural, Hash, Debug)]
pub enum ItemKind {
    LR0,
    LR1,
}

/// Common interface of LR(0) and LR(1) items.
pub trait ItemTrait: Sized {
    spec fn spec_production_index(&self) -> usize;

    spec fn spec_dot_position(&self) -> usize;

    spec fn spec_lookahead(&self) -> Option<TerminalId>;

    fn production_index(&self) -> (res: usize)
        ensures
            res == self.spec_production_index(),
    ;

    fn dot_position(&self) -> (res: usize)
        ensures
            res == self.spec_dot_position(),
    ;

    fn is_kernel(&self) -> (res: bool)
        ensures
            res == spec_is_kernel(self.spec_production_index(), self.spec_dot_position()),
    ;

    fn is_complete(&self, production: &Production) -> (res: bool)
        ensures
            res == spec_item_complete(self.spec_dot_position(), production.rhs@),
    ;

    fn next_symbol(&self, production: &Production) -> (res: Option<Symbol>)
        ensures
            res == spec_next_symbol(self.spec_dot_position(), production.rhs@),
    ;

    fn advance(&self) -> (res: Self)
        requires
            self.spec_dot_position() < usize::MAX,
        ensures
            res.spec_production_index() == self.spec_production_index(),
            res.spec_dot_position() == self.spec_dot_position() + 1,
            res.spec_lookahead() == self.spec_lookahead(),
    ;

    fn get_core(&self) -> (res: LR0Item)
        ensures
            res.production_index == self.spec_production_index(),
            res.dot_position == self.spec_dot_position(),
    ;

    fn lookahead(&self) -> (res: Option<TerminalId>)
        ensures
            res == self.spec_lookahead(),
    ;

    fn kind() -> ItemKind;
}

impl ItemTrait for LR0Item {
    open spec fn spec_production_index(&self) -> usize {
        self.production_index
    }

    open spec fn spec_dot_position(&self) -> usize {
        self.dot_position
    }

    open spec fn spec_lookahead(&self) -> Option<TerminalId> {
        None
    }

    fn production_index(&self) -> usize {
        self.production_index
    }

    fn dot_position(&self) -> usize {
        self.dot_position
    }

    fn is_kernel(&self) -> bool {
        LR0Item::is_kernel(self)
    }

    fn is_complete(&self, production: &Production) -> bool {
        LR0Item::is_complete(self, production)
    }

    fn next_symbol(&self, production: &Production) -> Option<Symbol> {
        LR0Item::next_symbol(self, production)
    }

    fn advance(&self) -> Self {
        LR0Item::advance(self)
    }

    fn get_core(&self) -> LR0Item {
        *self
    }

    fn lookahead(&self) -> Option<TerminalId> {
        None
    }

    fn kind() -> (res: ItemKind)
        ensures
            res == ItemKind::LR0,
    {
        ItemKind::LR0
    }
}

impl ItemTrait for LR1Item {
    open spec fn spec_production_index(&self) -> usize {
        self.production_index
    }

    open spec fn spec_dot_position(&self) -> usize {
        self.dot_position
    }

    open spec fn spec_lookahead(&self) -> Option<TerminalId> {
        Some(self.lookahead)
    }

    fn production_index(&self) -> usize {
        self.production_index
    }

    fn dot_position(&self) -> usize {
        self.dot_position
    }

    fn is_kernel(&self) -> bool {
        LR1Item::is_kernel(self)
    }

    fn is_complete(&self, production: &Production) -> bool {
        LR1Item::is_complete(self, production)
    }

    fn next_symbol(&self, production: &Production) -> Option<Symbol> {
        LR1Item::next_symbol(self, production)
    }

    fn advance(&self) -> Self {
        LR1Item::advance(self)
    }

    fn get_core(&self) -> LR0Item {
        LR1Item::get_core(self)
    }

    fn lookahead(&self) -> Option<TerminalId> {
        Some(self.lookahead)
    }

    fn kind() -> (res: ItemKind)
        ensures
            res == ItemKind::LR1,
    {
        ItemKind::LR1
    }
}

/// Whether `x` occurs in `v`.
pub(crate) fn contains_lr0(v: &Vec<LR0Item>, x: LR0Item) -> (res: bool)
    ensures
        res == v@.contains(x),
{
    let mut i: usize = 0;
    while i < v.len()
        invariant
            i <= v.len(),
            forall|j: int| 0 <= j < i ==> v@[j] != x,
        decreases v.len() - i,
    {
        if v[i] == x {
            return true;
        }
        i = i + 1;
    }
    false
}

/// Adds `x` to the duplicate-free list `v` unless it is already there.
pub(crate) fn insert_lr0(v: &mut Vec<LR0Item>, x: LR0Item) -> (added: bool)
    requires
        old(v)@.no_duplicates(),
    ensures
        final(v)@.no_duplicates(),
        added == !old(v)@.contains(x),
        added ==> final(v)@ == old(v)@.push(x),
        !added ==> final(v)@ == old(v)@,
        forall|y: LR0Item| #[trigger] final(v)@.contains(y) <==> (old(v)@.contains(y) || y == x),
{
    if contains_lr0(v, x) {
        false
    } else {
        let ghost before = v@;
        v.push(x);
        proof {
            assert forall|y: LR0Item| #[trigger] v@.contains(y) <==> (before.contains(y) || y == x) by {
                if before.contains(y) {
                    let k = choose|k: int| 0 <= k < before.len() && before[k] == y;
                    assert(v@[k] == y);
                }
                if y == x {
                    assert(v@[before.len() as int] == x);
                }
            }
        }
        true
    }
}

/// Whether `x` occurs in `v`.
pub(crate) fn contains_lr1(v: &Vec<LR1Item>, x: LR1Item) -> (res: bool)
    ensures
        res == v@.contains(x),
{
    let mut i: usize = 0;
    while i < v.len()
        invariant
            i <= v.len(),
            forall|j: int| 0 <= j < i ==> v@[j] != x,
        decreases v.len() - i,
    {
        if v[i] == x {
            return true;
        }
        i = i + 1;
    }
    false
}

/// Adds `x` to the duplicate-free list `v` unless it is already there.
pub(crate) fn insert_lr1(v: &mut Vec<LR1Item>, x: LR1Item) -> (added: bool)
    requires
        old(v)@.no_duplicates(),
    ensures
        final(v)@.no_duplicates(),
        added == !old(v)@.contains(x),
        added ==> final(v)@ == old(v)@.push(x),
        !added ==> final(v)@ == old(v)@,
        forall|y: LR1Item| #[trigger] final(v)@.contains(y) <==> (old(v)@.contains(y) || y == x),
{
    if contains_lr1(v, x) {
        false
    } else {
        let ghost before = v@;
        v.push(x);
        proof {
            assert forall|y: LR1Item| #[trigger] v@.contains(y) <==> (before.contains(y) || y == x) by {
                if before.contains(y) {
                    let k = choose|k: int| 0 <= k < before.len() && before[k] == y;
                    assert(v@[k] == y);
                }
                if y == x {
                    assert(v@[before.len() as int] == x);
                }
            }
        }
        true
    }
}

} // verus!
