use starry::cfg::{ContextFreeGrammar, NonTerminalId, TerminalId};
use starry::lr::action::{ActionTable, ProductionId};
use starry::lr::all_items::{AllLR0Items, AllLR1Items};
use starry::lr::augmented::AugmentedGrammar;
use starry::lr::goto::{GotoTable, ItemSetId};
use starry::lr::item::{LR0Item, LR1Item};
use starry::lr::item_set::LR1ItemSet;
use starry::lr::states::LR0ItemSetCollection;
use starry::lr::table::{LR0Table, LR0TableBuilder, SLRTable};
use starry::lr::table_builders::LrTableCore;

#[test]
fn lr0_table_print_text() {
    let augmented = AugmentedGrammar::new(ContextFreeGrammar::parse("E -> num").unwrap());
    let table = LR0TableBuilder::build(&augmented);
    let expected = "LR(0) Parsing Table:\n\nACTION Table:\nState | num |   $ |\n-----|-----|-----|\n    0 |  s1 |     |\n    1 |  r1 |  r1 |\n    2 |     | acc |\n\nGOTO Table:\nState | E | S' |\n-----|---|----|\n    0 | 2 |    |\n    1 |   |    |\n    2 |   |    |\n";
    assert_eq!(table.print_text(augmented.grammar()), expected);
}

#[test]
fn collection_print_text() {
    let augmented = AugmentedGrammar::new(ContextFreeGrammar::parse("E -> num").unwrap());
    let coll = LR0ItemSetCollection::build_from_augmented(&augmented);
    let expected = "LR(0) Item Set Collection (3 states):\n\n I0:\nLR(0) ItemSet (2 items):\n  [S' -> · E]\n  [E -> · num]\n\n I1:\nLR(0) ItemSet (1 items):\n  [E -> num ·]\n\n I2:\nLR(0) ItemSet (1 items):\n  [S' -> E ·]\n\nTransitions: \n  State 0 --num--> State 1\n  State 0 --E--> State 2\n";
    assert_eq!(coll.print_text(augmented.grammar()), expected);
}

#[test]
fn action_columns_widen_to_their_entries() {
    let mut a = ActionTable::new(2, 1);
    a.set_reduce(ItemSetId(1), TerminalId(1), ProductionId(12));
    let expected = "ACTION Table:\nState | identifier |   $ |\n-----|------------|-----|\n    0 |            |     |\n    1 |            | r12 |\n";
    assert_eq!(a.print_text(&["identifier".to_string()]), expected);
    let unnamed = ActionTable::new(1, 1).print_text(&[]);
    assert_eq!(unnamed, "ACTION Table:\nState | T0 | $ |\n-----|----|---|\n    0 |    |   |\n");
}

#[test]
fn goto_columns_without_names() {
    let mut g = GotoTable::new(2, 2);
    g.set(ItemSetId(0), NonTerminalId(1), ItemSetId(123));
    let expected = "GOTO Table:\nState | E |  N1 |\n-----|---|-----|\n    0 |   | 123 |\n    1 |   |     |\n";
    assert_eq!(g.print_text(&["E".to_string()]), expected);
}

#[test]
fn empty_tables_print_headings_only() {
    let t = LR0Table::new(0, 0, 0);
    let cfg = ContextFreeGrammar::parse("E -> num").unwrap();
    assert_eq!(
        t.print_text(&cfg),
        "LR(0) Parsing Table:\n\nACTION Table:\nState | $ |\n-----|---|\n\nGOTO Table:\nState |\n-----|\n"
    );
    let core = LrTableCore::new(0, 0, 0);
    assert_eq!(
        core.print_header_text(&cfg, "Title"),
        "Title\n\nACTION Table:\nState | $ |\n-----|---|\n\nGOTO Table:\nState |\n-----|\n"
    );
    let slr = SLRTable::new(0, 0, 0);
    assert!(slr.print_text(&cfg).starts_with("SLR(1) Parsing Table:\n\n"));
}

#[test]
fn item_lists_print_with_names() {
    let cfg = ContextFreeGrammar::parse("E -> num").unwrap();
    let all = AllLR0Items::build(&cfg);
    assert_eq!(all.print_text(&cfg), "All LR(0) Items (2 items):\n  [E -> · num]\n  [E -> num ·]\n");
    let list = AllLR1Items::new(vec![LR1Item::new(0, 1, TerminalId(1)), LR1Item::new(0, 0, TerminalId(0))]);
    assert_eq!(list.print_text(&cfg), "All LR(1) Items (2 items):\n  [E -> · num, num]\n  [E -> num ·, $]\n");
    let mut set = LR1ItemSet::new();
    set.insert(LR1Item::new(0, 1, TerminalId(1)));
    assert_eq!(set.print_text(&cfg), "LR(1) ItemSet (1 items):\n  [E -> num ·, $]\n");
    assert_eq!(LR0Item::new(0, 0).format_with_grammar(&cfg), "[E -> · num]");
}
