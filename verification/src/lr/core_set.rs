//! Cores of LR(1) item sets and the merging of states with the same core (LALR).
use vstd::prelude::*;
use crate::lr::item::{LR0Item, LR1Item};
use crate::lr::item_set::{LR0ItemSet, LR1ItemSet, cores};
use crate::lr::lookahead::lemma_to_set_push;
use crate::lr::states::same_items0;

verus! {

/// A set of LR(0) items: the core of an LR(1) item set.
#[derive(Debug)]
pub struct CoreSet {
    items: LR0ItemSet,
}

impl View for CoreSet {
    type V = Set<LR0Item>;

    closed spec fn view(&self) -> Set<LR0Item> {
        self.items@
    }
}

/// The cores of the items of `v`, as a set.
fn core_items(v: &Vec<LR1Item>) -> (res: LR0ItemSet)
    ensures
        res@ == cores(v@.to_set()),
{
    let mut res = LR0ItemSet::new();
    let mut i: usize = 0;
    while i < v.len()
        invariant
            i <= v.len(),
            res@ == cores(v@.take(i as int).to_set()),
        decreases v.len() - i,
    {
        let it = v[i];
        let ghost before = res@;
        res.insert(it.get_core());
        proof {
            assert(v@.take(i + 1) =~= v@.take(i as int).push(it));
            lemma_to_set_push(v@.take(i as int), it);
            assert forall|c: LR0Item| #[trigger] res@.contains(c) <==> cores(v@.take(i + 1).to_set()).contains(c) by {
                if cores(v@.take(i + 1).to_set()).contains(c) {
                    let x = choose|x: LR1Item| v@.take(i + 1).to_set().contains(x) && x.spec_core() == c;
                    if x != it {
                        assert(v@.take(i as int).to_set().contains(x));
                        assert(cores(v@.take(i as int).to_set()).contains(c));
                    }
                }
                if res@.contains(c) && c != it.spec_core() {
                    assert(before.contains(c));
                    let x = choose|x: LR1Item| v@.take(i as int).to_set().contains(x) && x.spec_core() == c;
                    assert(v@.take(i + 1).to_set().contains(x));
                }
                if c == it.spec_core() {
                    assert(v@.take(i + 1).to_set().contains(it));
                }
            }
            assert(res@ =~= cores(v@.take(i + 1).to_set()));
        }
        i = i + 1;
    }
    assert(v@.take(v.len() as int) =~= v@);
    res
}

impl CoreSet {
    /// The empty core.
    pub fn new() -> (res: Self)
        ensures
            res@ == Set::<LR0Item>::empty(),
    {
        CoreSet { items: LR0ItemSet::new() }
    }

    /// The set of the given LR(0) items.
    pub fn from_items(items: Vec<LR0Item>) -> (res: Self)
        ensures
            res@ == items@.to_set(),
    {
        CoreSet { items: LR0ItemSet::from_items(items) }
    }

    /// The cores of the given LR(1) items.
    pub fn from_lr1_items(items: Vec<LR1Item>) -> (res: Self)
        ensures
            res@ == cores(items@.to_set()),
    {
        CoreSet { items: core_items(&items) }
    }

    /// Adds `item`; returns whether it was new.
    pub fn insert(&mut self, item: LR0Item) -> (added: bool)
        ensures
            final(self)@ == old(self)@.insert(item),
            added == !old(self)@.contains(item),
    {
        self.items.insert(item)
    }

    /// Whether `item` is in the set.
    pub fn contains(&self, item: &LR0Item) -> (res: bool)
        ensures
            res == self@.contains(*item),
    {
        self.items.contains(item)
    }

    /// The number of items.
    pub fn len(&self) -> (res: usize)
        ensures
            res == self@.len(),
    {
        self.items.len()
    }

    /// Whether the set is empty.
    pub fn is_empty(&self) -> (res: bool)
        ensures
            res == (self@.len() == 0),
    {
        self.items.is_empty()
    }

    /// The items, each once.
    pub fn iter(&self) -> (res: Vec<LR0Item>)
        ensures
            res@.no_duplicates(),
            res@.to_set() == self@,
    {
        self.items.iter()
    }

    /// The items, each once.
    pub fn items(&self) -> (res: &Vec<LR0Item>)
        ensures
            res@.no_duplicates(),
            res@.to_set() == self@,
    {
        self.items.items()
    }
}

impl Default for CoreSet {
    fn default() -> (res: Self)
        ensures
            res@ == Set::<LR0Item>::empty(),
    {
        Self::new()
    }
}

/// No two states have the same core.
pub open spec fn distinct_cores(states: Seq<Set<LR1Item>>) -> bool {
    forall|i: int, j: int|
        0 <= i < states.len() && 0 <= j < states.len() && i != j ==> cores(#[trigger] states[i]) != cores(
            #[trigger] states[j],
        )
}

/// Merges LR(1) item sets with the same core (for LALR(1)).
#[derive(Debug)]
pub struct CoreSetMerger {
    cores: Vec<LR0ItemSet>,
    states: Vec<LR1ItemSet>,
}

impl CoreSetMerger {
    #[verifier::type_invariant]
    spec fn consistent(&self) -> bool {
        &&& self.cores.len() == self.states.len()
        &&& forall|i: int| 0 <= i < self.states.len() ==> #[trigger] self.cores@[i]@ == cores(self.states@[i]@)
        &&& forall|i: int, j: int|
            0 <= i < self.cores.len() && 0 <= j < self.cores.len() && i != j ==> self.cores@[i]@ != self.cores@[j]@
    }

    /// The merged states.
    pub closed spec fn spec_states(&self) -> Seq<Set<LR1Item>> {
        Seq::new(self.states.len() as nat, |i: int| self.states@[i]@)
    }

    proof fn lemma_distinct(&self)
        requires
            self.consistent(),
        ensures
            distinct_cores(self.spec_states()),
    {
        assert forall|i: int, j: int|
            0 <= i < self.spec_states().len() && 0 <= j < self.spec_states().len() && i != j implies cores(
            #[trigger] self.spec_states()[i],
        ) != cores(#[trigger] self.spec_states()[j]) by {
            assert(self.cores@[i]@ == cores(self.states@[i]@));
            assert(self.cores@[j]@ == cores(self.states@[j]@));
        }
    }

    /// A merger with no state.
    pub fn new() -> (res: Self)
        ensures
            res.spec_states().len() == 0,
    {
        CoreSetMerger { cores: Vec::new(), states: Vec::new() }
    }

    /// Adds an LR(1) item set: when a state with the same core (the cores of all
    /// its items) exists, the items are merged into it; otherwise it becomes a new
    /// state. Returns the state's index. No two states ever share a core.
    pub fn add_or_merge(&mut self, items: Vec<LR1Item>) -> (res: usize)
        ensures
            distinct_cores(final(self).spec_states()),
            (exists|i: int| 0 <= i < old(self).spec_states().len() && cores(#[trigger] old(self).spec_states()[i])
                == cores(items@.to_set())) ==> {
                &&& res < old(self).spec_states().len()
                &&& cores(old(self).spec_states()[res as int]) == cores(items@.to_set())
                &&& final(self).spec_states() == old(self).spec_states().update(
                    res as int,
                    old(self).spec_states()[res as int].union(items@.to_set()),
                )
            },
            !(exists|i: int| 0 <= i < old(self).spec_states().len() && cores(#[trigger] old(self).spec_states()[i])
                == cores(items@.to_set())) ==> {
                &&& res == old(self).spec_states().len()
                &&& final(self).spec_states() == old(self).spec_states().push(items@.to_set())
            },
    {
        proof {
            use_type_invariant(&*self);
        }
        let core_set = core_items(&items);
        let mut found: Option<usize> = None;
        let mut k: usize = 0;
        while k < self.cores.len()
            invariant_except_break
                found is None,
            invariant
                k <= self.cores.len(),
                forall|m: int| 0 <= m < k ==> (#[trigger] self.cores@[m])@ != core_set@,
            ensures
                found matches Some(f) ==> f < self.cores.len() && self.cores@[f as int]@ == core_set@,
                found is None ==> forall|m: int| 0 <= m < self.cores.len() ==> (#[trigger] self.cores@[m])@ != core_set@,
            decreases self.cores.len() - k,
        {
            if same_items0(&self.cores[k], &core_set) {
                found = Some(k);
                break;
            }
            k = k + 1;
        }
        match found {
            Some(state_id) => {
                assert(self.spec_states()[state_id as int] == self.states@[state_id as int]@);
                self.merge_lookaheads(state_id, &items);
                proof {
                    use_type_invariant(&*self);
                    self.lemma_distinct();
                }
                state_id
            },
            None => {
                proof {
                    if exists|i: int| 0 <= i < old(self).spec_states().len() && cores(#[trigger] old(self).spec_states()[i])
                        == cores(items@.to_set()) {
                        let i = choose|i: int| 0 <= i < old(self).spec_states().len() && cores(#[trigger] old(self).spec_states()[i])
                            == cores(items@.to_set());
                        assert(self.cores@[i]@ == cores(self.states@[i]@));
                    }
                }
                let state_id = self.states.len();
                let new_state = LR1ItemSet::from_items(items);
                let ghost old_states = self.spec_states();
                let mut whole = CoreSetMerger::new();
                std::mem::swap(&mut whole, self);
                let CoreSetMerger { cores: mut cores_v, states: mut states_v } = whole;
                let ghost old_cores = cores_v@;
                let ghost old_states_v = states_v@;
                cores_v.push(core_set);
                states_v.push(new_state);
                proof {
                    assert forall|i: int, j: int|
                        0 <= i < cores_v.len() && 0 <= j < cores_v.len() && i != j implies cores_v@[i]@ != cores_v@[j]@ by {
                        if i < old_cores.len() && j < old_cores.len() {
                            assert(cores_v@[i] == old_cores[i]);
                            assert(cores_v@[j] == old_cores[j]);
                        } else if i == old_cores.len() {
                            assert(cores_v@[j] == old_cores[j]);
                        } else {
                            assert(cores_v@[i] == old_cores[i]);
                        }
                    }
                    assert forall|i: int| 0 <= i < states_v.len() implies #[trigger] cores_v@[i]@ == cores(states_v@[i]@) by {
                        if i < old_cores.len() {
                            assert(cores_v@[i] == old_cores[i]);
                            assert(states_v@[i] == old_states_v[i]);
                        }
                    }
                }
                *self = CoreSetMerger { cores: cores_v, states: states_v };
                proof {
                    assert(self.spec_states() =~= old_states.push(items@.to_set()));
                    use_type_invariant(&*self);
                    self.lemma_distinct();
                }
                state_id
            },
        }
    }

    /// Merges `new_items` into state `state_id`: an item is added when no item of
    /// the state has its core, or when some item with its core has another lookahead.
    fn merge_lookaheads(&mut self, state_id: usize, new_items: &Vec<LR1Item>)
        requires
            state_id < old(self).spec_states().len(),
            cores(old(self).spec_states()[state_id as int]) == cores(new_items@.to_set()),
        ensures
            final(self).spec_states() == old(self).spec_states().update(
                state_id as int,
                old(self).spec_states()[state_id as int].union(new_items@.to_set()),
            ),
    {
        proof {
            use_type_invariant(&*self);
        }
        let mut existing = LR1ItemSet::from_items(self.states[state_id].iter());
        let ghost start = existing@;
        assert(start == self.states@[state_id as int]@);
        let mut i: usize = 0;
        while i < new_items.len()
            invariant
                i <= new_items.len(),
                existing@ == start.union(new_items@.take(i as int).to_set()),
            decreases new_items.len() - i,
        {
            let new_item = new_items[i];
            let list = existing.iter();
            let mut found = false;
            let mut j: usize = 0;
            while j < list.len()
                invariant_except_break
                    !found,
                invariant
                    j <= list.len(),
                    forall|k: int| 0 <= k < j ==> (#[trigger] list@[k]).spec_core() != new_item.spec_core(),
                ensures
                    found ==> exists|k: int| 0 <= k < list@.len() && (#[trigger] list@[k]).spec_core() == new_item.spec_core(),
                    !found ==> forall|k: int| 0 <= k < list@.len() ==> (#[trigger] list@[k]).spec_core() != new_item.spec_core(),
                decreases list.len() - j,
            {
                if list[j].get_core() == new_item.get_core() {
                    found = true;
                    break;
                }
                j = j + 1;
            }
            if !found {
                existing.insert(new_item);
            } else {
                let mut to_insert = false;
                let mut m: usize = 0;
                while m < list.len()
                    invariant_except_break
                        !to_insert,
                    invariant
                        m <= list.len(),
                        forall|k: int| 0 <= k < m && (#[trigger] list@[k]).spec_core() == new_item.spec_core()
                            ==> list@[k].lookahead == new_item.lookahead,
                    ensures
                        to_insert || forall|k: int| 0 <= k < list@.len() && (#[trigger] list@[k]).spec_core() == new_item.spec_core()
                            ==> list@[k].lookahead == new_item.lookahead,
                    decreases list.len() - m,
                {
                    if list[m].get_core() == new_item.get_core() && list[m].lookahead != new_item.lookahead {
                        to_insert = true;
                        break;
                    }
                    m = m + 1;
                }
                if to_insert {
                    existing.insert(new_item);
                } else {
                    proof {
                        let k = choose|k: int| 0 <= k < list@.len() && (#[trigger] list@[k]).spec_core() == new_item.spec_core();
                        assert(list@[k] == new_item);
                        assert(list@.to_set().contains(new_item));
                    }
                }
            }
            proof {
                assert(new_items@.take(i + 1) =~= new_items@.take(i as int).push(new_item));
                lemma_to_set_push(new_items@.take(i as int), new_item);
                assert(existing@ =~= start.union(new_items@.take(i + 1).to_set()));
            }
            i = i + 1;
        }
        assert(new_items@.take(new_items.len() as int) =~= new_items@);
        let ghost old_states = self.spec_states();
        proof {
            let merged = start.union(new_items@.to_set());
            assert(cores(merged) =~= cores(start)) by {
                assert forall|c: LR0Item| cores(merged).contains(c) implies cores(start).contains(c) by {
                    let x = choose|x: LR1Item| merged.contains(x) && x.spec_core() == c;
                    if !start.contains(x) {
                        assert(cores(new_items@.to_set()).contains(c));
                    }
                }
                assert forall|c: LR0Item| cores(start).contains(c) implies cores(merged).contains(c) by {
                    let x = choose|x: LR1Item| start.contains(x) && x.spec_core() == c;
                    assert(merged.contains(x));
                }
            }
        }
        let mut whole = CoreSetMerger::new();
        std::mem::swap(&mut whole, self);
        let CoreSetMerger { cores: cores_v, states: mut states_v } = whole;
        let ghost old_states_v = states_v@;
        states_v.set(state_id, existing);
        proof {
            assert forall|i: int| 0 <= i < states_v.len() implies #[trigger] cores_v@[i]@ == cores(states_v@[i]@) by {
                if i != state_id {
                    assert(states_v@[i] == old_states_v[i]);
                }
            }
        }
        *self = CoreSetMerger { cores: cores_v, states: states_v };
        proof {
            assert(self.spec_states() =~= old_states.update(state_id as int, start.union(new_items@.to_set())));
        }
    }

    /// The state with the given index, if any.
    pub fn get_state(&self, state_id: usize) -> (res: Option<&LR1ItemSet>)
        ensures
            state_id < self.spec_states().len() ==> (res matches Some(s) && s@ == self.spec_states()[state_id as int]),
            state_id >= self.spec_states().len() ==> res is None,
    {
        if state_id < self.states.len() {
            Some(&self.states[state_id])
        } else {
            None
        }
    }

    /// The number of states.
    pub fn state_count(&self) -> (res: usize)
        ensures
            res == self.spec_states().len(),
    {
        self.states.len()
    }

    /// The states.
    pub fn states(&self) -> (res: &[LR1ItemSet])
        ensures
            res@.len() == self.spec_states().len(),
            forall|i: int| 0 <= i < res@.len() ==> (#[trigger] res@[i])@ == self.spec_states()[i],
    {
        self.states.as_slice()
    }

    /// The states, by value.
    pub fn into_states(self) -> (res: Vec<LR1ItemSet>)
        ensures
            res@.len() == self.spec_states().len(),
            forall|i: int| 0 <= i < res@.len() ==> (#[trigger] res@[i])@ == self.spec_states()[i],
    {
        self.states
    }
}

impl Default for CoreSetMerger {
    fn default() -> (res: Self)
        ensures
            res.spec_states().len() == 0,
    {
        Self::new()
    }
}

/// Index `i` is listed in some group.
pub open spec fn in_some_group(groups: Seq<(CoreSet, Vec<usize>)>, i: int) -> bool {
    exists|a: int, k: int| 0 <= a < groups.len() && 0 <= k < groups[a].1@.len() && #[trigger] groups[a].1@[k] == i
}

/// A copy of a list of indices.
fn copy_usizes(v: &Vec<usize>) -> (res: Vec<usize>)
    ensures
        res@ == v@,
{
    let mut res: Vec<usize> = Vec::new();
    let mut i: usize = 0;
    while i < v.len()
        invariant
            i <= v.len(),
            res@ == v@.take(i as int),
        decreases v.len() - i,
    {
        res.push(v[i]);
        assert(v@.take(i + 1) =~= v@.take(i as int).push(v@[i as int]));
        i = i + 1;
    }
    assert(v@.take(v.len() as int) =~= v@);
    res
}

/// Comparison and grouping of LR(1) item sets by core.
pub struct CoreSetDetector;

impl CoreSetDetector {
    /// Whether the two item sets have the same cores.
    pub fn are_core_equivalent(set1: &Vec<LR1Item>, set2: &Vec<LR1Item>) -> (res: bool)
        ensures
            res == (cores(set1@.to_set()) == cores(set2@.to_set())),
    {
        let c1 = core_items(set1);
        let c2 = core_items(set2);
        same_items0(&c1, &c2)
    }

    /// The cores of an item set.
    pub fn get_core(items: &Vec<LR1Item>) -> (res: CoreSet)
        ensures
            res@ == cores(items@.to_set()),
    {
        CoreSet { items: core_items(items) }
    }

    /// The item sets grouped by core: one group per distinct core, in order of
    /// first appearance, each listing the indices of its item sets in increasing
    /// order (at least one).
    pub fn group_by_core(item_sets: &[Vec<LR1Item>]) -> (res: Vec<(CoreSet, Vec<usize>)>)
        ensures
            forall|a: int, b: int| 0 <= a < res@.len() && 0 <= b < res@.len() && a != b ==> res@[a].0@ != res@[b].0@,
            forall|a: int, k: int|
                0 <= a < res@.len() && 0 <= k < res@[a].1@.len() ==> #[trigger] res@[a].1@[k] < item_sets@.len() && cores(
                    item_sets@[res@[a].1@[k] as int]@.to_set(),
                ) == res@[a].0@,
            forall|a: int, k: int, m: int|
                0 <= a < res@.len() && 0 <= k < m < res@[a].1@.len() ==> #[trigger] res@[a].1@[k] < #[trigger] res@[a].1@[m],
            forall|i: int| 0 <= i < item_sets@.len() ==> #[trigger] in_some_group(res@, i),
            forall|a: int| 0 <= a < res@.len() ==> (#[trigger] res@[a]).1@.len() > 0,
    {
        let mut groups: Vec<(CoreSet, Vec<usize>)> = Vec::new();
        let mut idx: usize = 0;
        while idx < item_sets.len()
            invariant
                idx <= item_sets@.len(),
                forall|a: int, b: int| 0 <= a < groups@.len() && 0 <= b < groups@.len() && a != b ==> groups@[a].0@ != groups@[b].0@,
                forall|a: int, k: int|
                    0 <= a < groups@.len() && 0 <= k < groups@[a].1@.len() ==> #[trigger] groups@[a].1@[k] < idx && cores(
                        item_sets@[groups@[a].1@[k] as int]@.to_set(),
                    ) == groups@[a].0@,
                forall|a: int, k: int, m: int|
                    0 <= a < groups@.len() && 0 <= k < m < groups@[a].1@.len() ==> #[trigger] groups@[a].1@[k] < #[trigger] groups@[a].1@[m],
                forall|i: int| 0 <= i < idx ==> #[trigger] in_some_group(groups@, i),
                forall|a: int| 0 <= a < groups@.len() ==> (#[trigger] groups@[a]).1@.len() > 0,
            decreases item_sets.len() - idx,
        {
            let core = Self::get_core(&item_sets[idx]);
            let mut found: Option<usize> = None;
            let mut g: usize = 0;
            while g < groups.len()
                invariant_except_break
                    found is None,
                invariant
                    g <= groups.len(),
                    forall|m: int| 0 <= m < g ==> (#[trigger] groups@[m]).0@ != core@,
                ensures
                    found matches Some(f) ==> f < groups.len() && groups@[f as int].0@ == core@,
                    found is None ==> forall|m: int| 0 <= m < groups.len() ==> (#[trigger] groups@[m]).0@ != core@,
                decreases groups.len() - g,
            {
                if same_items0(&groups[g].0.items, &core.items) {
                    found = Some(g);
                    break;
                }
                g = g + 1;
            }
            let ghost old_groups = groups@;
            match found {
                Some(gi) => {
                    let key = CoreSet::from_items(groups[gi].0.iter());
                    let mut members = copy_usizes(&groups[gi].1);
                    let ghost old_members = members@;
                    members.push(idx);
                    groups.set(gi, (key, members));
                    proof {
                        assert(groups@[gi as int].1@ == old_members.push(idx));
                        assert forall|a: int, b: int| 0 <= a < groups@.len() && 0 <= b < groups@.len() && a != b implies groups@[a].0@
                            != groups@[b].0@ by {
                            assert(groups@[a].0@ == old_groups[a].0@);
                            assert(groups@[b].0@ == old_groups[b].0@);
                        }
                        assert forall|a: int, k: int|
                            0 <= a < groups@.len() && 0 <= k < groups@[a].1@.len() implies #[trigger] groups@[a].1@[k] < idx + 1 && cores(
                                item_sets@[groups@[a].1@[k] as int]@.to_set(),
                            ) == groups@[a].0@ by {
                            if a == gi && k == old_members.len() {
                            } else {
                                assert(groups@[a].1@[k] == old_groups[a].1@[k]);
                            }
                        }
                        assert forall|a: int, k: int, m: int|
                            0 <= a < groups@.len() && 0 <= k < m < groups@[a].1@.len() implies #[trigger] groups@[a].1@[k] < #[trigger] groups@[a].1@[m] by {
                            if a == gi && m == old_members.len() {
                                assert(groups@[a].1@[k] == old_groups[a].1@[k]);
                            } else {
                                assert(groups@[a].1@[k] == old_groups[a].1@[k]);
                                assert(groups@[a].1@[m] == old_groups[a].1@[m]);
                            }
                        }
                        assert forall|i: int| 0 <= i < idx + 1 implies #[trigger] in_some_group(groups@, i) by {
                            if i == idx {
                                assert(groups@[gi as int].1@[old_members.len() as int] == i);
                            } else {
                                assert(in_some_group(old_groups, i));
                                let (a, k) = choose|a: int, k: int|
                                    0 <= a < old_groups.len() && 0 <= k < old_groups[a].1@.len() && #[trigger] old_groups[a].1@[k] == i;
                                assert(groups@[a].1@[k] == i);
                            }
                        }
                    }
                },
                None => {
                    let mut members: Vec<usize> = Vec::new();
                    members.push(idx);
                    groups.push((core, members));
                    proof {
                        let last = old_groups.len() as int;
                        assert(groups@[last].1@[0] == idx);
                        assert forall|a: int, b: int| 0 <= a < groups@.len() && 0 <= b < groups@.len() && a != b implies groups@[a].0@
                            != groups@[b].0@ by {
                            if a < last && b < last {
                                assert(groups@[a] == old_groups[a]);
                                assert(groups@[b] == old_groups[b]);
                            } else if a == last {
                                assert(groups@[b] == old_groups[b]);
                            } else {
                                assert(groups@[a] == old_groups[a]);
                            }
                        }
                        assert forall|a: int, k: int|
                            0 <= a < groups@.len() && 0 <= k < groups@[a].1@.len() implies #[trigger] groups@[a].1@[k] < idx + 1 && cores(
                                item_sets@[groups@[a].1@[k] as int]@.to_set(),
                            ) == groups@[a].0@ by {
                            if a < last {
                                assert(groups@[a] == old_groups[a]);
                            }
                        }
                        assert forall|a: int, k: int, m: int|
                            0 <= a < groups@.len() && 0 <= k < m < groups@[a].1@.len() implies #[trigger] groups@[a].1@[k] < #[trigger] groups@[a].1@[m] by {
                            if a < last {
                                assert(groups@[a] == old_groups[a]);
                            }
                        }
                        assert forall|i: int| 0 <= i < idx + 1 implies #[trigger] in_some_group(groups@, i) by {
                            if i == idx {
                                assert(groups@[last].1@[0] == i);
                            } else {
                                assert(in_some_group(old_groups, i));
                                let (a, k) = choose|a: int, k: int|
                                    0 <= a < old_groups.len() && 0 <= k < old_groups[a].1@.len() && #[trigger] old_groups[a].1@[k] == i;
                                assert(groups@[a] == old_groups[a]);
                                assert(groups@[a].1@[k] == i);
                            }
                        }
                    }
                },
            }
            idx = idx + 1;
        }
        groups
    }
}

} // verus!
