use starry::cfg::{ContextFreeGrammar, NonTerminalId, Symbol, TerminalId};
use starry::lr::augmented::AugmentedGrammar;
use starry::lr::closure::{LR0Closure, LR1Closure};
use starry::lr::first::LRFirstCalculator;
use starry::lr::follow::LRFollowCalculator;
use starry::lr::goto::{GotoTable, ItemSetId, LR0Goto, LR1Goto};
use starry::lr::item::{LR0Item, LR1Item};
use starry::lr::item_set::{create_initial_lr0_item_set, create_initial_lr1_item_set};
use starry::lr::lookahead::LookaheadCalculator;
use starry::lr::table::{
    GrammarType, LALR1TableBuilder, LR0Table, LR0TableBuilder, LR1TableBuilder, SLRTable, SLRTableBuilder,
};

fn parse_grammar(input: &str) -> ContextFreeGrammar {
    ContextFreeGrammar::parse(input).unwrap()
}

#[test]
fn grammar_text_is_read_in_order() {
    let g = parse_grammar("E -> E + T | T\nT -> num");
    assert_eq!(g.non_terminals, vec!["E".to_string(), "T".to_string()]);
    assert_eq!(g.terminals, vec!["+".to_string(), "num".to_string()]);
    assert_eq!(g.productions.len(), 3);
    assert_eq!(g.start_symbol, NonTerminalId(0));
    assert_eq!(
        g.productions[0].rhs,
        vec![
            Symbol::NonTerminal(NonTerminalId(0)),
            Symbol::Terminal(TerminalId(0)),
            Symbol::NonTerminal(NonTerminalId(1))
        ]
    );
    assert_eq!(g.non_terminal_id("T"), Some(NonTerminalId(1)));
    assert_eq!(g.terminal_id("num"), Some(TerminalId(1)));
    assert_eq!(g.terminal_id("E"), None);
}

#[test]
fn grammar_text_errors() {
    assert_eq!(ContextFreeGrammar::parse("").unwrap_err(), "Empty grammar");
    assert_eq!(ContextFreeGrammar::parse("E -> a\nE b").unwrap_err(), "Invalid production at line 2");
    let eps = parse_grammar("A -> a | ε");
    assert_eq!(eps.productions.len(), 2);
    assert!(eps.productions[1].is_epsilon());
}

#[test]
fn test_augmented_grammar_creation() {
    let cfg = ContextFreeGrammar::parse("E -> E + T | T\nT -> num").unwrap();
    let augmented = AugmentedGrammar::new(cfg);

    assert!(augmented.is_augmented_start(augmented.augmented_start()));
    assert_eq!(augmented.productions().len(), 4);
    assert_eq!(augmented.productions()[0].lhs, augmented.augmented_start());
}

#[test]
fn test_augmented_start_name_generation() {
    let cfg = ContextFreeGrammar::parse("E -> a").unwrap();
    let augmented = AugmentedGrammar::new(cfg);

    assert_eq!(augmented.get_non_terminal_name(augmented.augmented_start()), "S'");
}

#[test]
fn test_augmented_start_name_conflict() {
    let cfg = ContextFreeGrammar::parse("S' -> a\nE -> b").unwrap();
    let augmented = AugmentedGrammar::new(cfg);

    let augmented_start_name = augmented.get_non_terminal_name(augmented.augmented_start());
    assert_ne!(augmented_start_name, "S'");
    assert!(augmented_start_name.starts_with("S'"));
}

#[test]
fn augmented_start_name_skips_every_taken_name() {
    let cfg = ContextFreeGrammar::parse("S' -> S'1\nS'1 -> a").unwrap();
    let augmented = AugmentedGrammar::new(cfg);
    assert_eq!(augmented.get_non_terminal_name(augmented.augmented_start()), "S'2");
}

#[test]
fn test_accepting_production() {
    let cfg = ContextFreeGrammar::parse("E -> num").unwrap();
    let augmented = AugmentedGrammar::new(cfg);

    assert!(augmented.is_accepting_production(0));
    assert!(!augmented.is_accepting_production(1));
}

#[test]
fn test_from_str() {
    let augmented = AugmentedGrammar::from_str("E -> num").unwrap();

    assert_eq!(augmented.productions().len(), 2);
    assert!(augmented.is_augmented_start(augmented.augmented_start()));
}

#[test]
fn augmented_from_str_passes_errors_on() {
    assert!(AugmentedGrammar::from_str("").is_err());
}

#[test]
fn test_original_start_preserved() {
    let cfg = ContextFreeGrammar::parse("E -> T\nT -> num").unwrap();
    let original_start = cfg.start_symbol;

    let augmented = AugmentedGrammar::new(cfg);

    assert_eq!(augmented.original_start(), original_start);
    assert_ne!(augmented.augmented_start(), augmented.original_start());
}

#[test]
fn augmented_test_display() {
    let cfg = ContextFreeGrammar::parse("E -> num").unwrap();
    let augmented = AugmentedGrammar::new(cfg);

    let display = augmented.to_string();
    assert!(display.contains("Augmented Grammar"));
    assert!(display.contains("S'"));
    assert!(display.contains("E -> num"));
}

#[test]
fn test_lr0_closure() {
    let grammar = parse_grammar("E -> E + T | T\nT -> num");
    let augmented = AugmentedGrammar::new(grammar);

    let items = vec![LR0Item::from_production(0)];

    let closure = LR0Closure::compute(&items, augmented.grammar());

    assert!(closure.len() > 1);
}

#[test]
fn lr0_closure_is_exact_on_the_expression_grammar() {
    let grammar = parse_grammar("E -> E + T | T\nT -> num");
    let augmented = AugmentedGrammar::new(grammar);
    let mut closure = LR0Closure::compute(&vec![LR0Item::from_production(0)], augmented.grammar());
    closure.sort();
    let expected: Vec<LR0Item> = (0..4).map(LR0Item::from_production).collect();
    assert_eq!(closure, expected);
    let again = LR0Closure::compute(&closure, augmented.grammar());
    assert_eq!(again.len(), closure.len());
}

#[test]
fn test_lr1_closure() {
    let grammar = parse_grammar("E -> E + T | T\nT -> num");
    let augmented = AugmentedGrammar::new(grammar);
    let calculator = LookaheadCalculator::new(augmented.grammar());

    let items = vec![LR1Item::from_production(0, calculator.end_marker())];

    let closure = LR1Closure::compute(&items, augmented.grammar(), &calculator);

    assert!(closure.len() > 1);
}

#[test]
fn test_lr0_goto() {
    let grammar = parse_grammar("E -> T\nT -> num");
    let augmented = AugmentedGrammar::new(grammar);

    let items = vec![LR0Item::from_production(0)];
    let closure = LR0Closure::compute(&items, augmented.grammar());

    let t_id = augmented.grammar().non_terminal_id("T").unwrap();
    let goto_result = LR0Goto::compute(&closure, augmented.grammar(), Symbol::NonTerminal(t_id));

    assert!(goto_result.is_some());
}

#[test]
fn test_lr0_get_transitions() {
    let grammar = parse_grammar("E -> T\nT -> num");
    let augmented = AugmentedGrammar::new(grammar);

    let items = vec![LR0Item::from_production(0)];
    let closure = LR0Closure::compute(&items, augmented.grammar());

    let transitions = LR0Goto::get_transitions(&closure, augmented.grammar());

    assert!(!transitions.is_empty());
}

#[test]
fn test_lr1_goto() {
    let grammar = parse_grammar("E -> T\nT -> num");
    let augmented = AugmentedGrammar::new(grammar);
    let calculator = LookaheadCalculator::new(augmented.grammar());

    let items = vec![LR1Item::from_production(0, calculator.end_marker())];
    let closure = LR1Closure::compute(&items, augmented.grammar(), &calculator);

    let t_id = augmented.grammar().non_terminal_id("T").unwrap();
    let goto_result = LR1Goto::compute(&closure, augmented.grammar(), &calculator, Symbol::NonTerminal(t_id));

    assert!(goto_result.is_some());
}

#[test]
fn goto_on_an_absent_symbol_is_none() {
    let grammar = parse_grammar("E -> T\nT -> num");
    let augmented = AugmentedGrammar::new(grammar);
    let closure = LR0Closure::compute(&vec![LR0Item::from_production(0)], augmented.grammar());
    let e_id = augmented.grammar().non_terminal_id("E").unwrap();
    let plus_like = Symbol::Terminal(TerminalId(5));
    assert!(LR0Goto::compute(&closure, augmented.grammar(), plus_like).is_none());
    let after_e = LR0Goto::compute(&closure, augmented.grammar(), Symbol::NonTerminal(e_id)).unwrap();
    assert_eq!(after_e, vec![LR0Item::new(0, 1)]);
}

#[test]
fn test_goto_table() {
    let mut table = GotoTable::new(3, 2);

    table.set(ItemSetId(0), NonTerminalId(0), ItemSetId(1));

    assert_eq!(table.get(ItemSetId(0), NonTerminalId(0)), Some(ItemSetId(1)));
    assert_eq!(table.get(ItemSetId(0), NonTerminalId(1)), None);
}

#[test]
fn test_lr0_item_set_closure() {
    let grammar = parse_grammar("E -> E + T | T\nT -> num");
    let augmented = AugmentedGrammar::new(grammar);

    let initial = create_initial_lr0_item_set(&augmented);

    assert!(initial.len() > 1);
}

#[test]
fn test_lr0_item_set_goto() {
    let grammar = parse_grammar("E -> T\nT -> num");
    let augmented = AugmentedGrammar::new(grammar);

    let initial = create_initial_lr0_item_set(&augmented);

    let t_id = augmented.grammar().non_terminal_id("T").unwrap();
    let goto_set = initial.goto(augmented.grammar(), &Symbol::NonTerminal(t_id));

    assert!(goto_set.is_some());
}

#[test]
fn test_lr1_item_set_closure() {
    let grammar = parse_grammar("E -> E + T | T\nT -> num");
    let augmented = AugmentedGrammar::new(grammar);
    let calculator = LookaheadCalculator::new(augmented.grammar());

    let initial = create_initial_lr1_item_set(&augmented, &calculator);

    assert!(initial.len() > 1);
}

#[test]
fn test_lr1_item_set_goto() {
    let grammar = parse_grammar("E -> T\nT -> num");
    let augmented = AugmentedGrammar::new(grammar);
    let calculator = LookaheadCalculator::new(augmented.grammar());

    let initial = create_initial_lr1_item_set(&augmented, &calculator);

    let t_id = augmented.grammar().non_terminal_id("T").unwrap();
    let goto_set = initial.goto(augmented.grammar(), &calculator, &Symbol::NonTerminal(t_id));

    assert!(goto_set.is_some());
}

#[test]
fn test_lookahead_calculator_creation() {
    let grammar = parse_grammar("E -> E + T | T\nT -> num");
    let calculator = LookaheadCalculator::new(&grammar);

    assert!(calculator.first_set().terminals(NonTerminalId(0)).len() > 0);
}

#[test]
fn test_compute_first_of_symbols() {
    let grammar = parse_grammar("E -> T\nT -> num");
    let calculator = LookaheadCalculator::new(&grammar);

    let t_id = grammar.non_terminal_id("T").unwrap();
    let symbols = vec![Symbol::NonTerminal(t_id)];
    let first = calculator.compute_first_of_symbols(&symbols);

    assert!(!first.is_empty());
}

#[test]
fn test_propagate_lookahead() {
    let grammar = parse_grammar("E -> T E'\nE' -> + T | ε\nT -> num");
    let calculator = LookaheadCalculator::new(&grammar);

    let t_id = grammar.non_terminal_id("T").unwrap();
    let e_prime_id = grammar.non_terminal_id("E'").unwrap();

    let beta = vec![Symbol::NonTerminal(e_prime_id), Symbol::NonTerminal(t_id)];
    let lookahead = TerminalId(0);

    let result = calculator.propagate_lookahead(&beta, lookahead);

    assert!(!result.is_empty());
}

#[test]
fn lookahead_propagates_through_a_nullable_suffix() {
    let grammar = parse_grammar("E -> T E'\nE' -> + T | ε\nT -> num");
    let calculator = LookaheadCalculator::new(&grammar);
    let e_prime_id = grammar.non_terminal_id("E'").unwrap();
    let plus = grammar.terminal_id("+").unwrap();
    let num = grammar.terminal_id("num").unwrap();
    let end = calculator.end_marker();
    let mut firsts = calculator.propagate_lookahead(&[Symbol::NonTerminal(e_prime_id)], end);
    firsts.sort();
    assert_eq!(firsts, vec![plus, end]);
    let t_first = calculator.first_terminals(&[Symbol::NonTerminal(grammar.non_terminal_id("T").unwrap())]);
    assert_eq!(t_first, vec![num]);
}

#[test]
fn lookahead_test_nullable_detection() {
    let grammar = parse_grammar("S -> A B\nA -> a | ε\nB -> b");
    let calculator = LookaheadCalculator::new(&grammar);

    let a_id = grammar.non_terminal_id("A").unwrap();
    assert!(calculator.is_nullable(a_id));

    let b_id = grammar.non_terminal_id("B").unwrap();
    assert!(!calculator.is_nullable(b_id));
}

#[test]
fn test_end_marker() {
    let grammar = parse_grammar("E -> num");
    let calculator = LookaheadCalculator::new(&grammar);

    let end_marker = calculator.end_marker();
    assert_eq!(end_marker, TerminalId(grammar.terminals.len()));
}

#[test]
fn test_lr_first_calculator() {
    let grammar = parse_grammar("E -> T\nT -> num");
    let calculator = LRFirstCalculator::new(&grammar);

    let t_id = grammar.non_terminal_id("T").unwrap();
    let symbols = vec![Symbol::NonTerminal(t_id)];
    let first = calculator.compute_first_of_symbols(&symbols);

    assert!(!first.is_empty());
}

#[test]
fn first_test_nullable_detection() {
    let grammar = parse_grammar("S -> A B\nA -> a | ε\nB -> b");
    let calculator = LRFirstCalculator::new(&grammar);

    let a_id = grammar.non_terminal_id("A").unwrap();
    assert!(calculator.is_nullable(a_id));

    let b_id = grammar.non_terminal_id("B").unwrap();
    assert!(!calculator.is_nullable(b_id));
}

#[test]
fn first_of_a_nullable_prefix_reaches_past_it() {
    let grammar = parse_grammar("S -> A B\nA -> a | ε\nB -> b");
    let calculator = LRFirstCalculator::new(&grammar);
    let a = grammar.non_terminal_id("A").unwrap();
    let b = grammar.non_terminal_id("B").unwrap();
    let mut first = calculator.compute_first_of_symbols(&[Symbol::NonTerminal(a), Symbol::NonTerminal(b)]);
    first.sort();
    assert_eq!(first, vec![grammar.terminal_id("a").unwrap(), grammar.terminal_id("b").unwrap()]);
    assert!(calculator.is_string_nullable(&[Symbol::NonTerminal(a), Symbol::Epsilon]));
    assert!(!calculator.is_string_nullable(&[Symbol::NonTerminal(a), Symbol::NonTerminal(b)]));
}

#[test]
fn test_lr_follow_calculator() {
    let grammar = parse_grammar("E -> T\nT -> num");
    let follow_sets = LRFollowCalculator::compute(&grammar);

    let e_id = grammar.non_terminal_id("E").unwrap();
    assert!(follow_sets.contains_end_marker(e_id));
}

#[test]
fn test_follow_with_nullable() {
    let grammar = parse_grammar("S -> A B\nA -> a | ε\nB -> b");
    let follow_sets = LRFollowCalculator::compute(&grammar);

    let a_id = grammar.non_terminal_id("A").unwrap();
    let a_follow = follow_sets.terminals(a_id);
    assert!(!a_follow.is_empty());
}

#[test]
fn follow_sets_of_the_expression_grammar() {
    let grammar = parse_grammar("E -> E + T | T\nT -> num");
    let follow = LRFollowCalculator::compute(&grammar);
    let e = grammar.non_terminal_id("E").unwrap();
    let t = grammar.non_terminal_id("T").unwrap();
    let plus = grammar.terminal_id("+").unwrap();
    let num = grammar.terminal_id("num").unwrap();
    assert!(follow.contains(e, plus));
    assert!(follow.contains(t, plus));
    assert!(!follow.contains(t, num));
    assert!(follow.contains_end_marker(t));
}

#[test]
fn table_test_lr0_table_creation() {
    let table = LR0Table::new(5, 3, 2);

    assert_eq!(table.state_count, 5);
    assert_eq!(table.terminal_count, 3);
    assert_eq!(table.non_terminal_count, 2);
    assert!(!table.has_conflicts());
}

#[test]
fn lr0_test_lr0_table_creation() {
    let table = LR0Table::new(5, 3, 2);

    assert_eq!(table.state_count, 5);
    assert_eq!(table.terminal_count, 3);
    assert_eq!(table.non_terminal_count, 2);
    assert!(!table.has_conflicts());
}

#[test]
fn table_test_lr0_table_builder_simple() {
    let grammar = parse_grammar("E -> num");
    let augmented = AugmentedGrammar::new(grammar);

    let table = LR0TableBuilder::build(&augmented);

    assert!(table.state_count > 0);
    assert!(table.is_lr0());
}

#[test]
fn lr0_test_lr0_table_builder_simple() {
    let grammar = parse_grammar("E -> num");
    let augmented = AugmentedGrammar::new(grammar);

    let table = LR0TableBuilder::build(&augmented);

    assert!(table.state_count > 0);
    assert!(table.is_lr0());
}

#[test]
fn table_test_slr_table_creation() {
    let table = SLRTable::new(5, 3, 2);

    assert_eq!(table.state_count, 5);
    assert_eq!(table.terminal_count, 3);
    assert_eq!(table.non_terminal_count, 2);
    assert!(!table.has_conflicts());
}

#[test]
fn slr1_test_slr_table_creation() {
    let table = SLRTable::new(5, 3, 2);

    assert_eq!(table.state_count, 5);
    assert_eq!(table.terminal_count, 3);
    assert_eq!(table.non_terminal_count, 2);
    assert!(!table.has_conflicts());
}

#[test]
fn table_test_slr_table_builder_simple() {
    let grammar = parse_grammar("E -> num");
    let augmented = AugmentedGrammar::new(grammar);

    let table = SLRTableBuilder::build(&augmented);

    assert!(table.state_count > 0);
    assert!(table.is_lr0());
}

#[test]
fn slr1_test_slr_table_builder_simple() {
    let grammar = parse_grammar("E -> num");
    let augmented = AugmentedGrammar::new(grammar);

    let table = SLRTableBuilder::build(&augmented);

    assert!(table.state_count > 0);
    assert!(table.is_lr0());
}

#[test]
fn test_grammar_type_display() {
    assert_eq!(GrammarType::LR0.to_string(), "LR(0)");
    assert_eq!(GrammarType::SLR1.to_string(), "SLR(1)");
    assert_eq!(GrammarType::LR1.to_string(), "LR(1)");
    assert_eq!(GrammarType::LALR1.to_string(), "LALR(1)");
    assert_eq!(GrammarType::NotLR.to_string(), "Not LR");
}

#[test]
fn table_test_lr1_table_builder_simple() {
    let grammar = parse_grammar("E -> num");
    let augmented = AugmentedGrammar::new(grammar);

    let table = LR1TableBuilder::build(&augmented);

    assert!(table.state_count > 0);
    assert!(table.is_lr1());
}

#[test]
fn lr1_test_lr1_table_builder_simple() {
    let grammar = parse_grammar("E -> num");
    let augmented = AugmentedGrammar::new(grammar);

    let table = LR1TableBuilder::build(&augmented);

    assert!(table.state_count > 0);
    assert!(table.is_lr1());
}

#[test]
fn table_test_lalr1_table_builder_simple() {
    let grammar = parse_grammar("E -> num");
    let augmented = AugmentedGrammar::new(grammar);

    let table = LALR1TableBuilder::build(&augmented);

    assert!(table.state_count > 0);
    assert!(table.is_lalr1());
}

#[test]
fn lalr1_test_lalr1_table_builder_simple() {
    let grammar = parse_grammar("E -> num");
    let augmented = AugmentedGrammar::new(grammar);

    let table = LALR1TableBuilder::build(&augmented);

    assert!(table.state_count > 0);
    assert!(table.is_lalr1());
}

#[test]
fn table_test_lr1_table_expression() {
    let grammar = parse_grammar("E -> E + T | T\nT -> num");
    let augmented = AugmentedGrammar::new(grammar);

    let table = LR1TableBuilder::build(&augmented);

    assert!(table.is_lr1());
}

#[test]
fn lr1_test_lr1_table_expression() {
    let grammar = parse_grammar("E -> E + T | T\nT -> num");
    let augmented = AugmentedGrammar::new(grammar);

    let table = LR1TableBuilder::build(&augmented);

    assert!(table.is_lr1());
}

#[test]
fn table_test_lalr1_table_expression() {
    let grammar = parse_grammar("E -> E + T | T\nT -> num");
    let augmented = AugmentedGrammar::new(grammar);

    let table = LALR1TableBuilder::build(&augmented);

    assert!(table.is_lalr1());
}

#[test]
fn lalr1_test_lalr1_table_expression() {
    let grammar = parse_grammar("E -> E + T | T\nT -> num");
    let augmented = AugmentedGrammar::new(grammar);

    let table = LALR1TableBuilder::build(&augmented);

    assert!(table.is_lalr1());
}

#[test]
fn lr0_table_for_a_single_production() {
    // S' -> E (production 0), E -> num (production 1).
    let augmented = AugmentedGrammar::new(parse_grammar("E -> num"));
    let table = LR0TableBuilder::build(&augmented);
    assert_eq!(table.state_count, 3);
    let num = TerminalId(0);
    let end = TerminalId(1);
    let e = NonTerminalId(0);
    let after_num = table.action.get(ItemSetId(0), num).shift_state().unwrap();
    assert_eq!(table.action.get(after_num, end).reduce_production().map(|p| p.0), Some(1));
    let after_e = table.goto.get(ItemSetId(0), e).unwrap();
    assert!(table.action.get(after_e, end).is_accept());
}

#[test]
fn ambiguous_grammar_has_conflicts_in_every_table() {
    let augmented = AugmentedGrammar::new(parse_grammar("E -> E + E | num"));
    assert!(LR0TableBuilder::build(&augmented).has_conflicts());
    assert!(SLRTableBuilder::build(&augmented).has_conflicts());
    assert!(LR1TableBuilder::build(&augmented).has_conflicts());
    assert!(LALR1TableBuilder::build(&augmented).has_conflicts());
    assert_eq!(LR1TableBuilder::build(&augmented).grammar_type(), GrammarType::NotLR);
}

#[test]
fn expression_grammar_is_slr1() {
    let augmented = AugmentedGrammar::new(parse_grammar("E -> E + T | T\nT -> num"));
    let slr = SLRTableBuilder::build(&augmented);
    assert!(slr.is_slr1());
    assert!(!slr.has_conflicts());
}

#[test]
fn lalr_merges_lr1_states_with_the_same_core() {
    // The classic example: LR(1) has 10 states, LALR(1) merges them into 7.
    let augmented = AugmentedGrammar::new(parse_grammar("S -> C C\nC -> c C | d"));
    let lr1 = LR1TableBuilder::build(&augmented);
    let lalr = LALR1TableBuilder::build(&augmented);
    assert_eq!(lr1.state_count, 10);
    assert_eq!(lalr.state_count, 7);
    assert!(lr1.is_lr1());
    assert!(lalr.is_lalr1());
    let lr0 = LR0TableBuilder::build(&augmented);
    assert_eq!(lr0.state_count, 7);
}
