use starry::cfg::{ContextFreeGrammar, NonTerminalId, Symbol, TerminalId};
use starry::lr::action::{Action, ProductionId};
use starry::lr::augmented::AugmentedGrammar;
use starry::lr::builder::LRParserBuilder;
use starry::lr::conflict::ConflictDetector;
use starry::lr::first::LRFirstCalculator;
use starry::lr::follow::LRFollowCalculator;
use starry::lr::goto::ItemSetId;
use starry::lr::grammar_type::LRGrammarType;
use starry::lr::item::LR0Item;
use starry::lr::lookahead::{compute_closure_lookaheads, LookaheadCalculator};
use starry::lr::parser::{LRParser, LRParserConfig};
use starry::lr::table_builders::LrTableCore;
use starry::lr::validator::SLR1Validator;
use starry::parser::ParserBuilder;
use starry::semantic::warmup::WarmupEvaluator;

fn grammar(text: &str) -> ContextFreeGrammar {
    ContextFreeGrammar::parse(text).unwrap()
}

#[test]
fn detect_all_lists_conflicts_in_order() {
    let pairs = vec![
        (ItemSetId(0), TerminalId(0), Action::shift(1), Action::reduce(2)),
        (ItemSetId(1), TerminalId(0), Action::shift(1), Action::shift(1)),
        (ItemSetId(2), TerminalId(1), Action::reduce(3), Action::reduce(4)),
    ];
    let found = ConflictDetector::detect_all(&pairs);
    assert_eq!(found.len(), 2);
    assert!(found[0].is_shift_reduce());
    assert!(found[1].is_reduce_reduce());
    assert_eq!(found[1].state, ItemSetId(2));
}

#[test]
fn follow_sets_settle_an_slr_state() {
    // S' -> S, S -> A a | b, A -> ε: the state after S' -> · S holds a completed
    // A -> · (ε) item and shifts b; FOLLOW(A) = {a} keeps them apart.
    let g = grammar("S -> A a | b\nA -> ε");
    let a = AugmentedGrammar::new(g);
    let state = vec![LR0Item::new(0, 0), LR0Item::new(1, 0), LR0Item::new(2, 0), LR0Item::new(3, 0)];
    assert!(SLR1Validator::can_resolve_with_follow(&state, a.grammar()));
}

#[test]
fn unchecked_build_and_configuration() {
    let mut parser = LRParserBuilder::new().grammar(grammar("E -> num")).build_unchecked().ok().unwrap();
    assert!(!parser.config().trace);
    let config = LRParserConfig { trace: true, max_errors: 3, ..Default::default() };
    parser.set_config(config);
    assert!(parser.config().trace);
    assert_eq!(parser.config().max_errors, 3);
    assert!(LRParserBuilder::new().build_unchecked().is_err());
    let lr1 = LRParserBuilder::new().grammar(grammar("E -> num")).grammar_type(LRGrammarType::LR1).build();
    assert!(lr1.is_ok());
    let none = LRParserBuilder::new().grammar(grammar("E -> num")).grammar_type(LRGrammarType::NotLR).build_unchecked();
    assert!(none.err().unwrap().is_invalid_grammar());
    assert!(LRParser::new(grammar("E -> num")).ok().unwrap().table().state_count() > 0);
}

#[test]
fn nullable_first_and_follow_together() {
    let g = grammar("S -> A B\nA -> a | ε\nB -> b");
    let (nullable, first, follow) = LRFollowCalculator::compute_all(&g);
    let a = g.non_terminal_id("A").unwrap();
    let s = g.non_terminal_id("S").unwrap();
    assert!(nullable[a.0]);
    assert!(!nullable[s.0]);
    let ta = g.terminal_id("a").unwrap();
    let tb = g.terminal_id("b").unwrap();
    assert!(first.contains(s, ta));
    assert!(first.contains(s, tb));
    assert!(follow.contains(a, tb));
    assert!(follow.contains_end_marker(s));
}

#[test]
fn first_with_a_stand_in_for_the_empty_string() {
    let g = grammar("S -> A B\nA -> a | ε\nB -> b | ε");
    let calc = LRFirstCalculator::new(&g);
    let a = g.non_terminal_id("A").unwrap();
    let b = g.non_terminal_id("B").unwrap();
    let end = calc.end_marker();
    let mut both = calc.compute_first_of_symbols_with_end_marker(&[Symbol::NonTerminal(a), Symbol::NonTerminal(b)], end);
    both.sort();
    assert_eq!(both, vec![g.terminal_id("a").unwrap(), g.terminal_id("b").unwrap(), end]);
    let lookahead = LookaheadCalculator::new(&g);
    let mut via_calc = lookahead.compute_first_of_symbols_with_lookahead(&[Symbol::NonTerminal(b)], TerminalId(0));
    via_calc.sort();
    assert_eq!(via_calc, vec![TerminalId(0), g.terminal_id("b").unwrap()]);
    let mut closure_la = compute_closure_lookaheads(&g, &lookahead, &[], TerminalId(1));
    closure_la.sort();
    assert_eq!(closure_la, vec![TerminalId(1)]);
    assert_eq!(calc.nullable().len(), 3);
    assert!(calc.first_set().contains(a, g.terminal_id("a").unwrap()));
}

#[test]
fn augmented_grammar_accessors() {
    let a = AugmentedGrammar::new(grammar("E -> num"));
    assert_eq!(a.start_production_index(), 0);
    let map = a.non_terminal_map();
    assert_eq!(map, vec![("E".to_string(), NonTerminalId(0)), ("S'".to_string(), NonTerminalId(1))]);
    assert_eq!(a.terminal_map(), vec![("num".to_string(), TerminalId(0))]);
    assert_eq!(a.get_terminal_name(TerminalId(0)), "num");
    assert_eq!(a.get_terminal_name(TerminalId(1)), "$");
    assert!(a.get_production(1).is_some());
    assert!(a.get_production(2).is_none());
    let g = a.into_grammar();
    assert_eq!(g.productions.len(), 2);
    assert_eq!(g.start_symbol, NonTerminalId(1));
}

#[test]
fn table_core_header_text() {
    let core = LrTableCore::new(1, 0, 1);
    assert_eq!(
        core.fmt_header("Title"),
        "Title\nACTION Table:\n       $  \n  0:  \n\nGOTO Table:\n     N0   \n  0:      \n\n"
    );
    assert!(!core.has_conflicts());
    assert_eq!(core.conflict_report().conflicts.len(), 0);
    let g = grammar("E -> num");
    assert_eq!(LrTableCore::terminal_names(&g), vec!["num".to_string()]);
    assert_eq!(LrTableCore::non_terminal_names(&g), vec!["E".to_string()]);
}

#[test]
fn builders_and_counters_start_empty() {
    assert!(ParserBuilder::new().with_grammar(grammar("E -> num")).with_grammar_from_str("E -> x").is_ok());
    let stats = WarmupEvaluator::new().into_stats();
    assert_eq!(stats.node_count, 0);
    assert_eq!(stats.max_scope_depth, 0);
    assert_eq!(stats.estimated_symbol_count, 0);
    let _ = ProductionId(0);
}
