//! Item sets: the states of LR(0) and LR(1) automata.
use vstd::prelude::*;
use crate::cfg::{ContextFreeGrammar, Symbol, TerminalId};
use crate::lr::augmented::AugmentedGrammar;
use crate::lr::closure::{LR0Closure, LR1Closure, calculator_fits, is_lr0_closure, is_lr1_closure};
use crate::lr::goto::{LR0Goto, LR1Goto, goto_kernel0, goto_kernel1};
use crate::lr::item::{
    LR0Item, LR1Item, contains_lr0, contains_lr1, insert_lr0, insert_lr1, spec_is_kernel,
};
use crate::lr::lookahead::{LookaheadCalculator, lemma_to_set_push};
use crate::lr::sorting::{lt0, sort_lr0, sorted0};
use std::collections::hash_map::DefaultHasher;
use std::hash::Hasher;
use vstd::std_specs::hash::DefaultHasherAdditionalSpecFns;

verus! {

/// A copy of a list of LR(0) items.
pub(crate) fn copy_lr0(v: &Vec<LR0Item>) -> (res: Vec<LR0Item>)
    ensures
        res@ == v@,
{
    let mut res: Vec<LR0Item> = Vec::new();
    let mut i: usize = 0;
    while i < v.len()
        invariant
            i <= v.len(),
            res@ == v@.take(i as int),
        decreases v.len() - i,
    {
        res.push(v[i]);
        assert(v@.take(i + 1) =~= v@.take(i as int).push(v@[i as int]));
        i = i + 1;
    }
    assert(v@.take(v.len() as int) =~= v@);
    res
}

/// A copy of a list of LR(1) items.
pub(crate) fn copy_lr1(v: &Vec<LR1Item>) -> (res: Vec<LR1Item>)
    ensures
        res@ == v@,
{
    let mut res: Vec<LR1Item> = Vec::new();
    let mut i: usize = 0;
    while i < v.len()
        invariant
            i <= v.len(),
            res@ == v@.take(i as int),
        decreases v.len() - i,
    {
        res.push(v[i]);
        assert(v@.take(i + 1) =~= v@.take(i as int).push(v@[i as int]));
        i = i + 1;
    }
    assert(v@.take(v.len() as int) =~= v@);
    res
}

/// The items of `v` (any order, duplicates allowed) as a duplicate-free list.
fn dedup_lr0(v: &Vec<LR0Item>) -> (res: Vec<LR0Item>)
    ensures
        res@.no_duplicates(),
        res@.to_set() == v@.to_set(),
{
    let mut res: Vec<LR0Item> = Vec::new();
    let mut i: usize = 0;
    while i < v.len()
        invariant
            i <= v.len(),
            res@.no_duplicates(),
            res@.to_set() == v@.take(i as int).to_set(),
        decreases v.len() - i,
    {
        insert_lr0(&mut res, v[i]);
        proof {
            assert(v@.take(i + 1) =~= v@.take(i as int).push(v@[i as int]));
            lemma_to_set_push(v@.take(i as int), v@[i as int]);
            assert(res@.to_set() =~= v@.take(i + 1).to_set());
        }
        i = i + 1;
    }
    assert(v@.take(v.len() as int) =~= v@);
    res
}

/// The items of `v` as a duplicate-free list.
fn dedup_lr1(v: &Vec<LR1Item>) -> (res: Vec<LR1Item>)
    ensures
        res@.no_duplicates(),
        res@.to_set() == v@.to_set(),
{
    let mut res: Vec<LR1Item> = Vec::new();
    let mut i: usize = 0;
    while i < v.len()
        invariant
            i <= v.len(),
            res@.no_duplicates(),
            res@.to_set() == v@.take(i as int).to_set(),
        decreases v.len() - i,
    {
        insert_lr1(&mut res, v[i]);
        proof {
            assert(v@.take(i + 1) =~= v@.take(i as int).push(v@[i as int]));
            lemma_to_set_push(v@.take(i as int), v@[i as int]);
            assert(res@.to_set() =~= v@.take(i + 1).to_set());
        }
        i = i + 1;
    }
    assert(v@.take(v.len() as int) =~= v@);
    res
}

/// The kernel items of a set of LR(0) items.
pub open spec fn kernel0(s: Set<LR0Item>) -> Set<LR0Item> {
    s.filter(|it: LR0Item| spec_is_kernel(it.production_index, it.dot_position))
}

/// The kernel items of a set of LR(1) items.
pub open spec fn kernel1(s: Set<LR1Item>) -> Set<LR1Item> {
    s.filter(|it: LR1Item| spec_is_kernel(it.production_index, it.dot_position))
}

/// The LR(0) cores of a set of LR(1) items.
pub open spec fn cores(s: Set<LR1Item>) -> Set<LR0Item> {
    s.map(|it: LR1Item| it.spec_core())
}

/// A state of the LR(0) automaton: a set of LR(0) items.
#[derive(Debug)]
pub struct LR0ItemSet {
    items: Vec<LR0Item>,
}

impl View for LR0ItemSet {
    type V = Set<LR0Item>;

    open spec fn view(&self) -> Set<LR0Item> {
        self.item_list().to_set()
    }
}

impl LR0ItemSet {
    #[verifier::type_invariant]
    spec fn distinct(&self) -> bool {
        self.items@.no_duplicates()
    }

    /// The item list behind the set.
    pub closed spec fn item_list(&self) -> Seq<LR0Item> {
        self.items@
    }

    /// Wraps a duplicate-free list.
    fn wrap(items: Vec<LR0Item>) -> (res: Self)
        requires
            items@.no_duplicates(),
        ensures
            res@ == items@.to_set(),
            res.item_list() == items@,
    {
        LR0ItemSet { items }
    }

    /// The empty item set.
    pub fn new() -> (res: Self)
        ensures
            res@ == Set::<LR0Item>::empty(),
    {
        let res = LR0ItemSet { items: Vec::new() };
        assert(res@ =~= Set::<LR0Item>::empty());
        res
    }

    /// The set of the given items.
    pub fn from_items(items: Vec<LR0Item>) -> (res: Self)
        ensures
            res@ == items@.to_set(),
    {
        LR0ItemSet { items: dedup_lr0(&items) }
    }

    /// Adds `item`; returns whether it was new.
    pub fn insert(&mut self, item: LR0Item) -> (added: bool)
        ensures
            final(self)@ == old(self)@.insert(item),
            added == !old(self)@.contains(item),
    {
        proof {
            use_type_invariant(&*self);
        }
        let mut v: Vec<LR0Item> = Vec::new();
        std::mem::swap(&mut v, &mut self.items);
        let added = insert_lr0(&mut v, item);
        self.items = v;
        proof {
            assert(self@ =~= old(self)@.insert(item));
        }
        added
    }

    /// Adds every item of `items`.
    pub fn extend(&mut self, items: Vec<LR0Item>)
        ensures
            final(self)@ == old(self)@.union(items@.to_set()),
    {
        let ghost start = self@;
        let mut i: usize = 0;
        while i < items.len()
            invariant
                i <= items.len(),
                self@ == start.union(items@.take(i as int).to_set()),
            decreases items.len() - i,
        {
            self.insert(items[i]);
            proof {
                assert(items@.take(i + 1) =~= items@.take(i as int).push(items@[i as int]));
                lemma_to_set_push(items@.take(i as int), items@[i as int]);
                assert(self@ =~= start.union(items@.take(i + 1).to_set()));
            }
            i = i + 1;
        }
        assert(items@.take(items.len() as int) =~= items@);
    }

    /// Whether `item` is in the set.
    pub fn contains(&self, item: &LR0Item) -> (res: bool)
        ensures
            res == self@.contains(*item),
    {
        contains_lr0(&self.items, *item)
    }

    /// The number of items.
    pub fn len(&self) -> (res: usize)
        ensures
            res == self@.len(),
    {
        proof {
            use_type_invariant(self);
            self.items@.unique_seq_to_set();
        }
        self.items.len()
    }

    /// Whether the set is empty.
    pub fn is_empty(&self) -> (res: bool)
        ensures
            res == (self@.len() == 0),
    {
        self.len() == 0
    }

    /// The items, each once.
    pub fn iter(&self) -> (res: Vec<LR0Item>)
        ensures
            res@.no_duplicates(),
            res@.to_set() == self@,
    {
        proof {
            use_type_invariant(self);
        }
        copy_lr0(&self.items)
    }

    /// The items, each once.
    pub fn items(&self) -> (res: &Vec<LR0Item>)
        ensures
            res@.no_duplicates(),
            res@.to_set() == self@,
            res@ == self.item_list(),
    {
        proof {
            use_type_invariant(self);
        }
        &self.items
    }

    /// The kernel items: dot not at the start, or the augmented start production.
    pub fn kernel_items(&self) -> (res: Vec<LR0Item>)
        ensures
            res@.no_duplicates(),
            res@.to_set() == kernel0(self@),
    {
        proof {
            use_type_invariant(self);
        }
        let mut res: Vec<LR0Item> = Vec::new();
        let mut i: usize = 0;
        while i < self.items.len()
            invariant
                i <= self.items.len(),
                self.items@.no_duplicates(),
                res@.no_duplicates(),
                res@.to_set() == kernel0(self.items@.take(i as int).to_set()),
            decreases self.items.len() - i,
        {
            let it = self.items[i];
            proof {
                assert(self.items@.take(i + 1) =~= self.items@.take(i as int).push(it));
                lemma_to_set_push(self.items@.take(i as int), it);
            }
            let ghost old_res = res@;
            if it.is_kernel() {
                insert_lr0(&mut res, it);
            }
            proof {
                assert forall|x: LR0Item| #[trigger] res@.to_set().contains(x) <==> kernel0(
                    self.items@.take(i + 1).to_set(),
                ).contains(x) by {
                    assert(old_res.to_set().contains(x) == old_res.contains(x));
                    assert(kernel0(self.items@.take(i as int).to_set()).contains(x) == (self.items@.take(
                        i as int,
                    ).to_set().contains(x) && spec_is_kernel(x.production_index, x.dot_position)));
                }
                assert(res@.to_set() =~= kernel0(self.items@.take(i + 1).to_set()));
            }
            i = i + 1;
        }
        assert(self.items@.take(self.items.len() as int) =~= self.items@);
        res
    }

    /// The LR(0) closure of the set.
    pub fn closure(&self, cfg: &ContextFreeGrammar) -> (res: LR0ItemSet)
        ensures
            is_lr0_closure(cfg, self@, res@),
    {
        let items = LR0Closure::compute(&self.items, cfg);
        LR0ItemSet::wrap(items)
    }

    /// GOTO(self, `symbol`), or `None` when no item has `symbol` after its dot.
    pub fn goto(&self, cfg: &ContextFreeGrammar, symbol: &Symbol) -> (res: Option<LR0ItemSet>)
        ensures
            res is None <==> goto_kernel0(cfg, self@, *symbol).is_empty(),
            res matches Some(r) ==> is_lr0_closure(cfg, goto_kernel0(cfg, self@, *symbol), r@),
    {
        match LR0Goto::compute(&self.items, cfg, *symbol) {
            Some(items) => Some(LR0ItemSet::wrap(items)),
            None => None,
        }
    }

    /// The core of the set: its kernel items.
    pub fn get_core(&self) -> (res: Vec<LR0Item>)
        ensures
            res@.no_duplicates(),
            res@.to_set() == kernel0(self@),
    {
        self.kernel_items()
    }

    /// A hash of the core: the kernel items in increasing order, each written to
    /// a fresh `DefaultHasher` as its production and dot position, eight
    /// little-endian bytes apiece. Sets with the same core give the same value.
    pub fn core_hash(&self) -> (res: u64)
        ensures
            res == DefaultHasher::spec_finish(core_chunks(sorted_core0(self@))),
    {
        let mut hasher = DefaultHasher::new();
        let core = sort_lr0(&self.kernel_items());
        proof {
            lemma_sorted_core0(self@, core@);
        }
        let mut i: usize = 0;
        while i < core.len()
            invariant
                i <= core@.len(),
                hasher@ == core_chunks(core@.take(i as int)),
            decreases core@.len() - i,
        {
            let it = core[i];
            let p = le_bytes8(it.production_index);
            let d = le_bytes8(it.dot_position);
            hasher.write(p.as_slice());
            hasher.write(d.as_slice());
            proof {
                assert(core@.take(i + 1).drop_last() =~= core@.take(i as int));
                assert(core@.take(i + 1).last() == it);
            }
            i = i + 1;
        }
        assert(core@.take(core@.len() as int) =~= core@);
        hasher.finish()
    }
}

/// The `k` low bytes of `x`, least significant first.
pub open spec fn le_bytes(x: nat, k: nat) -> Seq<u8>
    decreases k,
{
    if k == 0 {
        Seq::empty()
    } else {
        seq![(x % 256) as u8] + le_bytes(x / 256, (k - 1) as nat)
    }
}

/// The eight little-endian bytes of `x`.
fn le_bytes8(x: usize) -> (res: Vec<u8>)
    ensures
        res@ == le_bytes(x as nat, 8),
{
    let mut out: Vec<u8> = Vec::new();
    let mut y: usize = x;
    let mut k: usize = 0;
    while k < 8
        invariant
            k <= 8,
            out@ + le_bytes(y as nat, (8 - k) as nat) == le_bytes(x as nat, 8),
        decreases 8 - k,
    {
        let ghost before = out@;
        out.push((y % 256) as u8);
        proof {
            assert(le_bytes(y as nat, (8 - k) as nat) == seq![(y % 256) as u8] + le_bytes((y / 256) as nat, (8 - k - 1) as nat));
            assert(out@ + le_bytes((y / 256) as nat, (8 - k - 1) as nat) =~= before + le_bytes(y as nat, (8 - k) as nat));
        }
        y = y / 256;
        k = k + 1;
    }
    assert(le_bytes(y as nat, 0) =~= Seq::<u8>::empty());
    assert(out@ + Seq::<u8>::empty() =~= out@);
    out
}

/// What the core hash writes for a list of items: the production and the dot
/// position of each, in order.
pub open spec fn core_chunks(c: Seq<LR0Item>) -> Seq<Seq<u8>>
    decreases c.len(),
{
    if c.len() == 0 {
        Seq::empty()
    } else {
        core_chunks(c.drop_last()).push(le_bytes(c.last().production_index as nat, 8)).push(
            le_bytes(c.last().dot_position as nat, 8),
        )
    }
}

/// The kernel of `s` in increasing order.
pub open spec fn sorted_core0(s: Set<LR0Item>) -> Seq<LR0Item> {
    choose|c: Seq<LR0Item>| sorted0(c) && c.to_set() == kernel0(s)
}

/// Two increasing lists of the same items are equal.
proof fn lemma_sorted0_unique(a: Seq<LR0Item>, b: Seq<LR0Item>)
    requires
        sorted0(a),
        sorted0(b),
        a.to_set() == b.to_set(),
    ensures
        a == b,
    decreases a.len() + b.len(),
{
    if a.len() == 0 {
        if b.len() > 0 {
            assert(b.to_set().contains(b[0]));
        }
        assert(a =~= b);
    } else if b.len() == 0 {
        assert(a.to_set().contains(a[0]));
    } else {
        assert(a.to_set().contains(a[0]) && b.to_set().contains(b[0]));
        let ib = choose|i: int| 0 <= i < a.len() && a[i] == b[0];
        let ia = choose|i: int| 0 <= i < b.len() && b[i] == a[0];
        if a[0] != b[0] {
            assert(ib > 0 && ia > 0);
            assert(lt0(a[0], a[ib]));
            assert(lt0(b[0], b[ia]));
        }
        let ra = a.skip(1);
        let rb = b.skip(1);
        assert forall|x: LR0Item| ra.to_set().contains(x) <==> rb.to_set().contains(x) by {
            if ra.contains(x) {
                let i = choose|i: int| 0 <= i < ra.len() && ra[i] == x;
                assert(a[i + 1] == x);
                assert(lt0(a[0], a[i + 1]));
                assert(a.to_set().contains(x));
                let j = choose|j: int| 0 <= j < b.len() && b[j] == x;
                assert(j != 0);
                assert(rb[j - 1] == x);
            }
            if rb.contains(x) {
                let i = choose|i: int| 0 <= i < rb.len() && rb[i] == x;
                assert(b[i + 1] == x);
                assert(lt0(b[0], b[i + 1]));
                assert(b.to_set().contains(x));
                let j = choose|j: int| 0 <= j < a.len() && a[j] == x;
                assert(j != 0);
                assert(ra[j - 1] == x);
            }
        }
        assert(ra.to_set() =~= rb.to_set());
        assert forall|i: int, j: int| 0 <= i < j < ra.len() implies lt0(#[trigger] ra[i], #[trigger] ra[j]) by {
            assert(ra[i] == a[i + 1] && ra[j] == a[j + 1]);
        }
        assert forall|i: int, j: int| 0 <= i < j < rb.len() implies lt0(#[trigger] rb[i], #[trigger] rb[j]) by {
            assert(rb[i] == b[i + 1] && rb[j] == b[j + 1]);
        }
        lemma_sorted0_unique(ra, rb);
        assert(a =~= seq![a[0]] + ra);
        assert(b =~= seq![b[0]] + rb);
    }
}

/// An increasing list of the kernel is `sorted_core0`.
proof fn lemma_sorted_core0(s: Set<LR0Item>, c: Seq<LR0Item>)
    requires
        sorted0(c),
        c.to_set() == kernel0(s),
    ensures
        sorted_core0(s) == c,
{
    let d = sorted_core0(s);
    assert(sorted0(d) && d.to_set() == kernel0(s));
    lemma_sorted0_unique(d, c);
}

impl Default for LR0ItemSet {
    fn default() -> (res: Self)
        ensures
            res@ == Set::<LR0Item>::empty(),
    {
        Self::new()
    }
}

/// A state of the LR(1) automaton: a set of LR(1) items.
#[derive(Debug)]
pub struct LR1ItemSet {
    items: Vec<LR1Item>,
}

impl View for LR1ItemSet {
    type V = Set<LR1Item>;

    open spec fn view(&self) -> Set<LR1Item> {
        self.item_list().to_set()
    }
}

impl LR1ItemSet {
    #[verifier::type_invariant]
    spec fn distinct(&self) -> bool {
        self.items@.no_duplicates()
    }

    /// The item list behind the set.
    pub closed spec fn item_list(&self) -> Seq<LR1Item> {
        self.items@
    }

    /// Wraps a duplicate-free list.
    fn wrap(items: Vec<LR1Item>) -> (res: Self)
        requires
            items@.no_duplicates(),
        ensures
            res@ == items@.to_set(),
            res.item_list() == items@,
    {
        LR1ItemSet { items }
    }

    /// The empty item set.
    pub fn new() -> (res: Self)
        ensures
            res@ == Set::<LR1Item>::empty(),
    {
        let res = LR1ItemSet { items: Vec::new() };
        assert(res@ =~= Set::<LR1Item>::empty());
        res
    }

    /// The set of the given items.
    pub fn from_items(items: Vec<LR1Item>) -> (res: Self)
        ensures
            res@ == items@.to_set(),
    {
        LR1ItemSet { items: dedup_lr1(&items) }
    }

    /// Adds `item`; returns whether it was new.
    pub fn insert(&mut self, item: LR1Item) -> (added: bool)
        ensures
            final(self)@ == old(self)@.insert(item),
            added == !old(self)@.contains(item),
    {
        proof {
            use_type_invariant(&*self);
        }
        let mut v: Vec<LR1Item> = Vec::new();
        std::mem::swap(&mut v, &mut self.items);
        let added = insert_lr1(&mut v, item);
        self.items = v;
        proof {
            assert(self@ =~= old(self)@.insert(item));
        }
        added
    }

    /// Adds every item of `items`.
    pub fn extend(&mut self, items: Vec<LR1Item>)
        ensures
            final(self)@ == old(self)@.union(items@.to_set()),
    {
        let ghost start = self@;
        let mut i: usize = 0;
        while i < items.len()
            invariant
                i <= items.len(),
                self@ == start.union(items@.take(i as int).to_set()),
            decreases items.len() - i,
        {
            self.insert(items[i]);
            proof {
                assert(items@.take(i + 1) =~= items@.take(i as int).push(items@[i as int]));
                lemma_to_set_push(items@.take(i as int), items@[i as int]);
                assert(self@ =~= start.union(items@.take(i + 1).to_set()));
            }
            i = i + 1;
        }
        assert(items@.take(items.len() as int) =~= items@);
    }

    /// Whether `item` is in the set.
    pub fn contains(&self, item: &LR1Item) -> (res: bool)
        ensures
            res == self@.contains(*item),
    {
        contains_lr1(&self.items, *item)
    }

    /// The number of items.
    pub fn len(&self) -> (res: usize)
        ensures
            res == self@.len(),
    {
        proof {
            use_type_invariant(self);
            self.items@.unique_seq_to_set();
        }
        self.items.len()
    }

    /// Whether the set is empty.
    pub fn is_empty(&self) -> (res: bool)
        ensures
            res == (self@.len() == 0),
    {
        self.len() == 0
    }

    /// The items, each once.
    pub fn iter(&self) -> (res: Vec<LR1Item>)
        ensures
            res@.no_duplicates(),
            res@.to_set() == self@,
    {
        proof {
            use_type_invariant(self);
        }
        copy_lr1(&self.items)
    }

    /// The items, each once.
    pub fn items(&self) -> (res: &Vec<LR1Item>)
        ensures
            res@.no_duplicates(),
            res@.to_set() == self@,
            res@ == self.item_list(),
    {
        proof {
            use_type_invariant(self);
        }
        &self.items
    }

    /// The kernel items.
    pub fn kernel_items(&self) -> (res: Vec<LR1Item>)
        ensures
            res@.no_duplicates(),
            res@.to_set() == kernel1(self@),
    {
        proof {
            use_type_invariant(self);
        }
        let mut res: Vec<LR1Item> = Vec::new();
        let mut i: usize = 0;
        while i < self.items.len()
            invariant
                i <= self.items.len(),
                self.items@.no_duplicates(),
                res@.no_duplicates(),
                res@.to_set() == kernel1(self.items@.take(i as int).to_set()),
            decreases self.items.len() - i,
        {
            let it = self.items[i];
            proof {
                assert(self.items@.take(i + 1) =~= self.items@.take(i as int).push(it));
                lemma_to_set_push(self.items@.take(i as int), it);
            }
            let ghost old_res = res@;
            if it.is_kernel() {
                insert_lr1(&mut res, it);
            }
            proof {
                assert forall|x: LR1Item| #[trigger] res@.to_set().contains(x) <==> kernel1(
                    self.items@.take(i + 1).to_set(),
                ).contains(x) by {
                    assert(old_res.to_set().contains(x) == old_res.contains(x));
                    assert(kernel1(self.items@.take(i as int).to_set()).contains(x) == (self.items@.take(
                        i as int,
                    ).to_set().contains(x) && spec_is_kernel(x.production_index, x.dot_position)));
                }
                assert(res@.to_set() =~= kernel1(self.items@.take(i + 1).to_set()));
            }
            i = i + 1;
        }
        assert(self.items@.take(self.items.len() as int) =~= self.items@);
        res
    }

    /// The LR(1) closure of the set.
    pub fn closure(&self, cfg: &ContextFreeGrammar, calculator: &LookaheadCalculator) -> (res: LR1ItemSet)
        requires
            cfg.wf(),
            calculator_fits(cfg, calculator),
            forall|it: LR1Item| #[trigger] self@.contains(it) ==> it.lookahead.0 <= cfg.terminals.len(),
        ensures
            is_lr1_closure(cfg, calculator, self@, res@),
    {
        proof {
            assert forall|k: int| 0 <= k < self.items.len() implies (#[trigger] self.items@[k]).lookahead.0
                <= cfg.terminals.len() by {
                assert(self@.contains(self.items@[k]));
            }
        }
        let items = LR1Closure::compute(&self.items, cfg, calculator);
        LR1ItemSet::wrap(items)
    }

    /// GOTO(self, `symbol`), or `None` when no item has `symbol` after its dot.
    pub fn goto(&self, cfg: &ContextFreeGrammar, calculator: &LookaheadCalculator, symbol: &Symbol) -> (res:
        Option<LR1ItemSet>)
        requires
            cfg.wf(),
            calculator_fits(cfg, calculator),
            forall|it: LR1Item| #[trigger] self@.contains(it) ==> it.lookahead.0 <= cfg.terminals.len(),
        ensures
            res is None <==> goto_kernel1(cfg, self@, *symbol).is_empty(),
            res matches Some(r) ==> is_lr1_closure(cfg, calculator, goto_kernel1(cfg, self@, *symbol), r@),
    {
        proof {
            assert forall|k: int| 0 <= k < self.items.len() implies (#[trigger] self.items@[k]).lookahead.0
                <= cfg.terminals.len() by {
                assert(self@.contains(self.items@[k]));
            }
        }
        match LR1Goto::compute(&self.items, cfg, calculator, *symbol) {
            Some(items) => Some(LR1ItemSet::wrap(items)),
            None => None,
        }
    }

    /// The core: the LR(0) cores of the kernel items.
    pub fn get_core(&self) -> (res: LR0ItemSet)
        ensures
            res@ == cores(kernel1(self@)),
    {
        let kernel = self.kernel_items();
        let mut core_set = LR0ItemSet::new();
        let mut i: usize = 0;
        while i < kernel.len()
            invariant
                i <= kernel.len(),
                kernel@.to_set() == kernel1(self@),
                core_set@ == cores(kernel@.take(i as int).to_set()),
            decreases kernel.len() - i,
        {
            let it = kernel[i];
            let ghost old_set = core_set@;
            core_set.insert(it.get_core());
            proof {
                assert(kernel@.take(i + 1) =~= kernel@.take(i as int).push(it));
                lemma_to_set_push(kernel@.take(i as int), it);
                assert(core_set@ =~= cores(kernel@.take(i + 1).to_set())) by {
                    assert forall|c: LR0Item| #[trigger] core_set@.contains(c) <==> cores(
                        kernel@.take(i + 1).to_set(),
                    ).contains(c) by {
                        if cores(kernel@.take(i + 1).to_set()).contains(c) {
                            let x = choose|x: LR1Item| kernel@.take(i + 1).to_set().contains(x) && x.spec_core() == c;
                            if x != it {
                                assert(kernel@.take(i as int).to_set().contains(x));
                                assert(cores(kernel@.take(i as int).to_set()).contains(c));
                            }
                        }
                        if core_set@.contains(c) && c != it.spec_core() {
                            assert(old_set.contains(c));
                            assert(cores(kernel@.take(i as int).to_set()).contains(c));
                            let x = choose|x: LR1Item| kernel@.take(i as int).to_set().contains(x) && x.spec_core() == c;
                            assert(kernel@.take(i + 1).to_set().contains(x));
                        }
                        if c == it.spec_core() {
                            assert(kernel@.take(i + 1).to_set().contains(it));
                        }
                    }
                }
            }
            i = i + 1;
        }
        assert(kernel@.take(kernel.len() as int) =~= kernel@);
        core_set
    }

    /// Adds the items of `other` whose lookahead is new for their core (LALR
    /// merging of states with the same core); returns whether the set grew.
    pub fn merge_lookaheads(&mut self, other: &LR1ItemSet) -> (changed: bool)
        ensures
            final(self)@ == old(self)@.union(other@),
            changed == !other@.subset_of(old(self)@),
    {
        proof {
            use_type_invariant(&*self);
            use_type_invariant(other);
        }
        let ghost start = self@;
        let mut changed = false;
        let mut i: usize = 0;
        while i < other.items.len()
            invariant
                i <= other.items.len(),
                self@ == start.union(other.items@.take(i as int).to_set()),
                changed == !other.items@.take(i as int).to_set().subset_of(start),
            decreases other.items.len() - i,
        {
            let other_item = other.items[i];
            let item_core = other_item.get_core();
            let mut found_match = false;
            let mut j: usize = 0;
            proof {
                use_type_invariant(&*self);
            }
            while j < self.items.len()
                invariant_except_break
                    !found_match,
                invariant
                    j <= self.items.len(),
                    item_core == other_item.spec_core(),
                    forall|k: int| 0 <= k < j ==> (#[trigger] self.items@[k]).spec_core() != item_core,
                ensures
                    found_match ==> j < self.items.len() && self.items@[j as int].spec_core() == item_core,
                    !found_match ==> j == self.items.len(),
                decreases self.items.len() - j,
            {
                if self.items[j].get_core() == item_core {
                    found_match = true;
                    break;
                }
                j = j + 1;
            }
            let ghost before = self@;
            if found_match {
                let self_item = self.items[j];
                if self_item.lookahead != other_item.lookahead {
                    let merged = LR1Item::new(
                        other_item.production_index,
                        other_item.dot_position,
                        other_item.lookahead,
                    );
                    if !self.contains(&merged) {
                        self.insert(merged);
                        changed = true;
                    }
                } else {
                    assert(self_item == other_item);
                    assert(self.items@[j as int] == other_item);
                    assert(self@.contains(other_item));
                }
            } else {
                proof {
                    if self@.contains(other_item) {
                        let k = choose|k: int| 0 <= k < self.items@.len() && self.items@[k] == other_item;
                        assert(self.items@[k].spec_core() == item_core);
                    }
                }
                self.insert(other_item);
                changed = true;
            }
            proof {
                assert(other.items@.take(i + 1) =~= other.items@.take(i as int).push(other_item));
                lemma_to_set_push(other.items@.take(i as int), other_item);
                assert(self@ =~= start.union(other.items@.take(i + 1).to_set()));
                assert(self@.contains(other_item));
            }
            i = i + 1;
        }
        assert(other.items@.take(other.items.len() as int) =~= other.items@);
        changed
    }
}

impl Default for LR1ItemSet {
    fn default() -> (res: Self)
        ensures
            res@ == Set::<LR1Item>::empty(),
    {
        Self::new()
    }
}

/// The initial state of the LR(0) automaton: the closure of `{[S' -> ·S]}`.
pub fn create_initial_lr0_item_set(augmented: &AugmentedGrammar) -> (res: LR0ItemSet)
    ensures
        is_lr0_closure(
            &augmented.spec_grammar(),
            set![LR0Item { production_index: 0, dot_position: 0 }],
            res@,
        ),
{
    let mut item_set = LR0ItemSet::new();
    item_set.insert(LR0Item::from_production(0));
    assert(item_set@ =~= set![LR0Item { production_index: 0, dot_position: 0 }]);
    item_set.closure(augmented.grammar())
}

/// The initial state of the LR(1) automaton: the closure of `{[S' -> ·S, $]}`.
pub fn create_initial_lr1_item_set(augmented: &AugmentedGrammar, calculator: &LookaheadCalculator) -> (res:
    LR1ItemSet)
    requires
        calculator_fits(&augmented.spec_grammar(), calculator),
    ensures
        is_lr1_closure(
            &augmented.spec_grammar(),
            calculator,
            set![LR1Item { production_index: 0, dot_position: 0, lookahead: calculator.spec_end_marker() }],
            res@,
        ),
{
    let end_marker = calculator.end_marker();
    let mut item_set = LR1ItemSet::new();
    item_set.insert(LR1Item::from_production(0, end_marker));
    let g = augmented.grammar();
    assert(item_set@ =~= set![LR1Item { production_index: 0, dot_position: 0, lookahead: end_marker }]);
    item_set.closure(g, calculator)
}

} // verus!
