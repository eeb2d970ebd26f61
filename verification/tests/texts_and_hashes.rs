use starry::cfg::{ContextFreeGrammar, Symbol};
use starry::lr::augmented::AugmentedGrammar;
use starry::lr::closure::LR1Closure;
use starry::lr::core_set::CoreSetDetector;
use starry::lr::item::{LR0Item, LR1Item};
use starry::lr::item_set::LR0ItemSet;
use starry::lr::lookahead::LookaheadCalculator;
use starry::lr::parser::{LRParser, LRParserConfig};
use starry::lr::states::LR0ItemSetCollection;
use starry::lr::table::SLRTableBuilder;
use starry::lr::goto::ItemSetId;
use starry::cfg::TerminalId;
use starry::semantic::ir::TacOp;
use starry::semantic::quadruple::{call_args_operand, Quadruple, Triple, TripleRef};
use starry::semantic::tac::Operand;

fn parse_grammar(input: &str) -> ContextFreeGrammar {
    ContextFreeGrammar::parse(input).unwrap()
}

#[test]
fn first_of_the_empty_string_is_epsilon() {
    let grammar = parse_grammar("E -> T\nT -> num");
    let calculator = LookaheadCalculator::new(&grammar);
    assert_eq!(calculator.compute_first_of_symbols(&[]), vec![None]);
}

#[test]
fn first_of_epsilon_then_a_terminal_has_no_epsilon() {
    let grammar = parse_grammar("E -> T\nT -> num");
    let calculator = LookaheadCalculator::new(&grammar);
    let num = grammar.terminal_id("num").unwrap();
    let first = calculator.compute_first_of_symbols(&[Symbol::Epsilon, Symbol::Terminal(num)]);
    assert_eq!(first, vec![Some(num)]);
}

#[test]
fn first_of_nullable_non_terminals_has_epsilon() {
    let grammar = parse_grammar("S -> A B\nA -> a | ε\nB -> b");
    let calculator = LookaheadCalculator::new(&grammar);
    let a = grammar.non_terminal_id("A").unwrap();
    let first = calculator.compute_first_of_symbols(&[Symbol::NonTerminal(a), Symbol::NonTerminal(a)]);
    assert!(first.contains(&None));
    assert!(first.contains(&Some(grammar.terminal_id("a").unwrap())));
    let b = grammar.non_terminal_id("B").unwrap();
    let first = calculator.compute_first_of_symbols(&[Symbol::NonTerminal(a), Symbol::NonTerminal(b)]);
    assert!(!first.contains(&None));
}

#[test]
fn core_hash_does_not_depend_on_insertion_order() {
    let mut s1 = LR0ItemSet::new();
    s1.insert(LR0Item::new(2, 1));
    s1.insert(LR0Item::new(1, 2));
    s1.insert(LR0Item::new(3, 0));
    let mut s2 = LR0ItemSet::new();
    s2.insert(LR0Item::new(1, 2));
    s2.insert(LR0Item::new(2, 1));
    assert_eq!(s1.core_hash(), s2.core_hash());
}

#[test]
fn quadruple_text_shows_each_part() {
    let q = Quadruple::new(
        TacOp::Add,
        Some(Operand::Name("a".to_string())),
        Some(Operand::IntConst(-42)),
        Some(Operand::Temp(3)),
    );
    assert_eq!(q.text("", "", ""), "(+, a, -42, t3)");
    let q = Quadruple::new(TacOp::Jmp, None, None, Some(Operand::Label(7)));
    assert_eq!(q.text("", "", ""), "(jmp, —, —, L7)");
    let q = Quadruple::new(TacOp::Assign, Some(Operand::FloatConst(0)), Some(Operand::BoolConst(true)), Some(Operand::StrConst(2)));
    assert_eq!(q.text("1.5", "", ""), "(=, 1.5, true, str#2)");
}

#[test]
fn triple_text_shows_positions_in_brackets() {
    let t = Triple::new(TacOp::Mul, Some(TripleRef::Index(1)), Some(TripleRef::Operand(Operand::IntConst(i64::MIN))));
    assert_eq!(t.text("", ""), "(*, (1), -9223372036854775808)");
    let t = Triple::new(TacOp::Neg, Some(TripleRef::Operand(Operand::FloatConst(0))), None);
    assert_eq!(t.text("2.5", ""), "(neg, 2.5, —)");
    assert_eq!(TripleRef::Index(4).text(""), "(4)");
}

#[test]
fn groups_by_core_are_never_empty() {
    let set1 = vec![LR1Item::new(0, 0, TerminalId(0)), LR1Item::new(1, 1, TerminalId(0))];
    let set2 = vec![LR1Item::new(0, 0, TerminalId(1)), LR1Item::new(1, 1, TerminalId(1))];
    let set3 = vec![LR1Item::new(2, 0, TerminalId(0))];
    let groups = CoreSetDetector::group_by_core(&[set1, set2, set3]);
    assert_eq!(groups.len(), 2);
    assert!(groups.iter().all(|(_, members)| !members.is_empty()));
}

#[test]
fn slr_table_from_a_collection_matches_the_builder() {
    let augmented = AugmentedGrammar::new(parse_grammar("E -> E + T | T\nT -> num"));
    let collection = LR0ItemSetCollection::build_from_augmented(&augmented);
    let from_collection = SLRTableBuilder::build_from_collection(&augmented, &collection);
    let built = SLRTableBuilder::build(&augmented);
    assert_eq!(from_collection.state_count, built.state_count);
    assert_eq!(from_collection.has_conflicts(), built.has_conflicts());
    for s in 0..built.state_count {
        for t in 0..=augmented.grammar().terminals.len() {
            assert_eq!(
                from_collection.action.get(ItemSetId(s), TerminalId(t)),
                built.action.get(ItemSetId(s), TerminalId(t))
            );
        }
    }
}

#[test]
fn try_parse_refuses_a_trace_past_the_end() {
    let grammar = parse_grammar("S -> a");
    let config = LRParserConfig { trace: true, error_recovery: true, max_errors: 10, ..LRParserConfig::default() };
    let parser = LRParser::with_config(grammar, config).unwrap();
    assert!(parser.try_parse(&[]).is_none());
    let a = parser.grammar().terminal_id("a").unwrap();
    let result = parser.try_parse(&[a]).unwrap().unwrap();
    assert!(result.success);
}

#[test]
fn lr1_closure_carries_any_lookahead() {
    let grammar = parse_grammar("E -> T\nT -> num");
    let calculator = LookaheadCalculator::new(&grammar);
    let far = TerminalId(999);
    let closure = LR1Closure::compute(&vec![LR1Item::new(0, 0, far)], &grammar, &calculator);
    assert_eq!(closure.len(), 2);
    assert!(closure.contains(&LR1Item::new(0, 0, far)));
    assert!(closure.contains(&LR1Item::new(1, 0, far)));
}

#[test]
fn call_arguments_become_one_name() {
    let args = vec![Operand::IntConst(1), Operand::Temp(2), Operand::FloatConst(0)];
    let floats = vec![String::new(), String::new(), "0.5".to_string()];
    match call_args_operand(&args, &floats) {
        Some(Operand::Name(n)) => assert_eq!(n, "(1,t2,0.5)"),
        _ => panic!("expected a name"),
    }
    assert!(call_args_operand(&vec![], &vec![]).is_none());
}
