use starry::cfg::{NonTerminalId, Production, Symbol, TerminalId};
use starry::lr::core_set::{CoreSet, CoreSetDetector, CoreSetMerger};
use starry::lr::item::{Item, LR0Item, LR1Item};
use starry::lr::item_set::{LR0ItemSet, LR1ItemSet};
use starry::lr::lookahead::LookaheadSet;

fn make_production() -> Production {
    let lhs_id = NonTerminalId(0);
    let rhs_symbols = vec![
        Symbol::NonTerminal(NonTerminalId(0)),
        Symbol::Terminal(TerminalId(0)),
        Symbol::NonTerminal(NonTerminalId(1)),
    ];
    Production::new(lhs_id, rhs_symbols)
}

#[test]
fn test_lr0_item_creation() {
    let item = LR0Item::new(0, 0);
    assert_eq!(item.production_index, 0);
    assert_eq!(item.dot_position, 0);
    assert!(item.is_kernel());
}

#[test]
fn test_lr0_item_advance() {
    let item = LR0Item::new(0, 0);
    let advanced = item.advance();
    assert_eq!(advanced.dot_position, 1);
}

#[test]
fn test_lr0_item_next_symbol() {
    let prod = make_production();
    let item = LR0Item::new(0, 0);
    let next = item.next_symbol(&prod);
    assert!(next.is_some());
}

#[test]
fn test_lr0_item_complete() {
    let prod = make_production();
    let item = LR0Item::new(0, 3);
    assert!(item.is_complete(&prod));
}

#[test]
fn item_next_symbol_and_completion_along_a_production() {
    let prod = make_production();
    let item = LR0Item::new(0, 1);
    assert_eq!(item.next_symbol(&prod), Some(Symbol::Terminal(TerminalId(0))));
    assert!(!item.is_complete(&prod));
    assert_eq!(LR0Item::new(0, 3).next_symbol(&prod), None);
    assert_eq!(LR0Item::from_production(4), LR0Item::new(4, 0));
}

#[test]
fn test_lr1_item_creation() {
    let lookahead = TerminalId(0);
    let item = LR1Item::new(0, 0, lookahead);
    assert_eq!(item.production_index, 0);
    assert_eq!(item.dot_position, 0);
    assert_eq!(item.lookahead, lookahead);
}

#[test]
fn test_lr1_item_core() {
    let lookahead = TerminalId(0);
    let item = LR1Item::new(0, 2, lookahead);
    let core = item.get_core();
    assert_eq!(core.production_index, 0);
    assert_eq!(core.dot_position, 2);
}

#[test]
fn test_lr1_item_advance() {
    let lookahead = TerminalId(0);
    let item = LR1Item::new(0, 0, lookahead);
    let advanced = item.advance();
    assert_eq!(advanced.dot_position, 1);
    assert_eq!(advanced.lookahead, lookahead);
}

#[test]
fn lr1_item_with_lookahead_keeps_the_core() {
    let item = LR1Item::new(3, 1, TerminalId(0));
    let other = item.with_lookahead(TerminalId(5));
    assert_eq!(other.lookahead, TerminalId(5));
    assert_eq!(other.get_core(), item.get_core());
}

#[test]
fn test_item_enum() {
    let lr0 = Item::LR0(LR0Item::new(0, 0));
    let lr1 = Item::LR1(LR1Item::new(0, 0, TerminalId(0)));

    assert_eq!(lr0.production_index(), 0);
    assert_eq!(lr1.production_index(), 0);
    assert!(lr1.lookahead().is_some());
    assert!(lr0.lookahead().is_none());
}

#[test]
fn test_kernel_item() {
    let item = LR0Item::new(0, 0);
    assert!(item.is_kernel());

    let item2 = LR0Item::new(1, 0);
    assert!(!item2.is_kernel());

    let item3 = LR0Item::new(1, 1);
    assert!(item3.is_kernel());
}

#[test]
fn test_epsilon_item() {
    let prod = Production::epsilon(NonTerminalId(0));
    let item = LR0Item::new(0, 0);

    assert!(!item.is_complete(&prod));

    let advanced = item.advance();
    assert!(advanced.is_complete(&prod));
}

#[test]
fn item_test_display() {
    let item = LR0Item::new(0, 1);
    assert_eq!(item.to_string(), "[0 · 1]");

    let item1 = LR1Item::new(0, 1, TerminalId(2));
    assert_eq!(item1.to_string(), "[0 · 1, 2]");
}

#[test]
fn test_lr0_item_set_creation() {
    let mut set = LR0ItemSet::new();
    set.insert(LR0Item::new(0, 0));

    assert_eq!(set.len(), 1);
    assert!(!set.is_empty());
}

#[test]
fn item_set_insert_ignores_duplicates() {
    let mut set = LR0ItemSet::new();
    assert!(set.insert(LR0Item::new(2, 1)));
    assert!(!set.insert(LR0Item::new(2, 1)));
    assert_eq!(set.len(), 1);
    assert!(set.contains(&LR0Item::new(2, 1)));
    assert!(!set.contains(&LR0Item::new(2, 0)));
}

#[test]
fn test_lr1_item_set_creation() {
    let mut set = LR1ItemSet::new();
    set.insert(LR1Item::new(0, 0, TerminalId(0)));

    assert_eq!(set.len(), 1);
    assert!(!set.is_empty());
}

#[test]
fn test_kernel_items() {
    let mut set = LR0ItemSet::new();
    set.insert(LR0Item::new(0, 0));
    set.insert(LR0Item::new(1, 0));
    set.insert(LR0Item::new(1, 1));

    let kernel = set.kernel_items();

    assert_eq!(kernel.len(), 2);
}

#[test]
fn test_core_extraction() {
    let mut lr1_set = LR1ItemSet::new();
    lr1_set.insert(LR1Item::new(0, 0, TerminalId(0)));
    lr1_set.insert(LR1Item::new(0, 0, TerminalId(1)));

    let core = lr1_set.get_core();

    assert_eq!(core.len(), 1);
}

#[test]
fn item_set_test_display() {
    let mut set = LR0ItemSet::new();
    set.insert(LR0Item::new(0, 0));
    set.insert(LR0Item::new(1, 1));

    let display = set.to_string();
    assert!(display.contains("LR(0) ItemSet"));
    assert!(display.contains("[0 · 0]"));
    assert!(display.contains("[1 · 1]"));
}

#[test]
fn item_set_display_is_sorted() {
    let mut set = LR0ItemSet::new();
    set.insert(LR0Item::new(1, 1));
    set.insert(LR0Item::new(0, 0));
    assert_eq!(set.to_string(), "LR(0) ItemSet (2 items):\n  [0 · 0]\n  [1 · 1]\n");
}

#[test]
fn merge_lookaheads_adds_only_new_items() {
    let mut a = LR1ItemSet::new();
    a.insert(LR1Item::new(0, 0, TerminalId(0)));
    let mut b = LR1ItemSet::new();
    b.insert(LR1Item::new(0, 0, TerminalId(0)));
    b.insert(LR1Item::new(0, 0, TerminalId(1)));
    assert!(a.merge_lookaheads(&b));
    assert_eq!(a.len(), 2);
    assert!(!a.merge_lookaheads(&b));
    assert_eq!(a.len(), 2);
}

#[test]
fn test_lookahead_set_operations() {
    let mut set1 = LookaheadSet::from_terminal(TerminalId(0));
    set1.insert(TerminalId(1));

    let mut set2 = LookaheadSet::from_terminal(TerminalId(1));
    set2.insert(TerminalId(2));

    let union = set1.union(&set2);
    assert_eq!(union.len(), 3);

    let intersection = set1.intersection(&set2);
    assert_eq!(intersection.len(), 1);
}

#[test]
fn lookahead_difference_and_extend() {
    let a = LookaheadSet::from_terminals(vec![TerminalId(0), TerminalId(1), TerminalId(1)]);
    assert_eq!(a.len(), 2);
    let b = LookaheadSet::from_terminal(TerminalId(1));
    let d = a.difference(&b);
    assert_eq!(d.len(), 1);
    assert!(d.contains(TerminalId(0)));
    assert!(!d.contains(TerminalId(1)));
    let mut e = LookaheadSet::new();
    assert!(e.is_empty());
    assert!(e.extend(&a));
    assert!(!e.extend(&b));
    assert_eq!(e.len(), 2);
}

#[test]
fn lookahead_test_display() {
    let mut set = LookaheadSet::new();
    set.insert(TerminalId(0));
    set.insert(TerminalId(2));

    let display = set.to_string();
    assert!(display.contains("0"));
    assert!(display.contains("2"));
}

#[test]
fn lookahead_display_is_sorted_text() {
    let mut set = LookaheadSet::new();
    set.insert(TerminalId(10));
    set.insert(TerminalId(2));
    assert_eq!(set.to_string(), "{ 10, 2 }");
    assert_eq!(LookaheadSet::new().to_string(), "{  }");
}

#[test]
fn test_core_set_creation() {
    let mut core = CoreSet::new();
    core.insert(LR0Item::new(0, 0));
    core.insert(LR0Item::new(1, 1));

    assert_eq!(core.len(), 2);
}

#[test]
fn test_core_set_from_lr1() {
    let lr1_items = vec![LR1Item::new(0, 0, TerminalId(0)), LR1Item::new(0, 0, TerminalId(1))];

    let core = CoreSet::from_lr1_items(lr1_items);

    assert_eq!(core.len(), 1);
}

#[test]
fn test_core_set_merger() {
    let mut merger = CoreSetMerger::new();

    let set1 = vec![LR1Item::new(0, 0, TerminalId(0))];

    let id1 = merger.add_or_merge(set1);
    assert_eq!(id1, 0);

    let set2 = vec![LR1Item::new(0, 0, TerminalId(1))];

    let id2 = merger.add_or_merge(set2);
    assert_eq!(id2, 0);

    assert_eq!(merger.state_count(), 1);
    let merged = merger.get_state(0).unwrap();
    assert_eq!(merged.len(), 2);
}

#[test]
fn core_set_merger_keeps_distinct_cores_apart() {
    let mut merger = CoreSetMerger::new();
    assert_eq!(merger.add_or_merge(vec![LR1Item::new(0, 0, TerminalId(0))]), 0);
    assert_eq!(merger.add_or_merge(vec![LR1Item::new(1, 1, TerminalId(0))]), 1);
    assert_eq!(merger.add_or_merge(vec![LR1Item::new(1, 1, TerminalId(3))]), 1);
    assert_eq!(merger.state_count(), 2);
    assert_eq!(merger.get_state(1).unwrap().len(), 2);
    assert!(merger.get_state(2).is_none());
}

#[test]
fn test_core_equivalence() {
    let set1 = vec![LR1Item::new(0, 0, TerminalId(0)), LR1Item::new(1, 1, TerminalId(0))];

    let set2 = vec![LR1Item::new(0, 0, TerminalId(1)), LR1Item::new(1, 1, TerminalId(2))];

    assert!(CoreSetDetector::are_core_equivalent(&set1, &set2));
}

#[test]
fn core_sets_differ_when_an_item_is_missing() {
    let set1 = vec![LR1Item::new(0, 0, TerminalId(0)), LR1Item::new(1, 1, TerminalId(0))];
    let set2 = vec![LR1Item::new(0, 0, TerminalId(1))];
    assert!(!CoreSetDetector::are_core_equivalent(&set1, &set2));
    let groups = CoreSetDetector::group_by_core(&[set1.clone(), set2.clone(), set1]);
    assert_eq!(groups.len(), 2);
    assert_eq!(groups[0].1, vec![0, 2]);
    assert_eq!(groups[1].1, vec![1]);
}

#[test]
fn core_hash_depends_only_on_the_kernel() {
    let mut a = LR0ItemSet::new();
    a.insert(LR0Item::new(2, 1));
    a.insert(LR0Item::new(0, 0));
    a.insert(LR0Item::new(3, 0));
    let mut b = LR0ItemSet::new();
    b.insert(LR0Item::new(0, 0));
    b.insert(LR0Item::new(2, 1));
    assert_eq!(a.core_hash(), b.core_hash());
}
