use starry::cfg::{ContextFreeGrammar, NonTerminalId, TerminalId};
use starry::lr::builder::{LRParserBuilder, LRValidator};
use starry::lr::error::{LRError, LRErrorKind, LRValidationError, LRValidationReport};
use starry::lr::goto::ItemSetId;
use starry::lr::grammar_type::LRGrammarType;
use starry::lr::parser::{LRParser, LRParserConfig};
use starry::lr::stack::{LRStack, StackSymbol};
use starry::lr::validator::{LALR1Validator, LR0Validator, LR1Validator, SLR1Validator};
use starry::parser::ParserBuilder;
use starry::semantic::dependency::DependencyGraph;
use starry::semantic::ir::{LabelManager, TacOp, TempManager};
use starry::semantic::store::AstWalker;

fn parse_grammar(input: &str) -> ContextFreeGrammar {
    ContextFreeGrammar::parse(input).unwrap()
}

#[test]
fn test_lr_error_creation() {
    let error = LRError::unexpected_token(vec![TerminalId(0), TerminalId(1)], TerminalId(2), ItemSetId(0));

    assert!(error.is_unexpected_token());
    assert!(error.position.is_none());
}

#[test]
fn test_lr_error_with_position() {
    let error = LRError::unexpected_token(vec![TerminalId(0)], TerminalId(1), ItemSetId(0)).with_position(5);

    assert_eq!(error.position, Some(5));
}

#[test]
fn error_kinds_and_context() {
    let e = LRError::invalid_grammar("bad".to_string()).with_context("while building".to_string());
    assert!(e.is_invalid_grammar());
    assert!(!e.is_conflict());
    assert_eq!(e.context, Some("while building".to_string()));
    assert_eq!(LRError::stack_underflow().kind, LRErrorKind::StackUnderflow);
    assert!(LRError::conflict(Vec::new()).is_conflict());
    assert!(!LRError::no_action(ItemSetId(1), TerminalId(0)).is_unexpected_token());
}

#[test]
fn test_validation_report() {
    let mut report = LRValidationReport::new();
    assert!(report.is_valid);

    report.add_error(LRValidationError::NotSLR1);
    assert!(!report.is_valid);
    assert!(report.has_errors());
}

#[test]
fn warnings_do_not_invalidate_a_report() {
    let mut report = LRValidationReport::new();
    report.add_warning("note".to_string());
    assert!(report.is_valid);
    assert!(report.has_warnings());
    assert!(!report.has_errors());
}

#[test]
fn test_grammar_type() {
    assert!(LRGrammarType::LR0.is_deterministic());
    assert!(LRGrammarType::SLR1.is_slr1());
    assert!(!LRGrammarType::NotLR.is_deterministic());

    assert_eq!(LRGrammarType::LALR1.name(), "LALR(1)");
}

#[test]
fn test_stack_symbol_creation() {
    let state = StackSymbol::state(0);
    assert!(state.is_state());
    assert_eq!(state.state_id(), Some(ItemSetId(0)));

    let term = StackSymbol::terminal(TerminalId(1));
    assert!(term.is_terminal());

    let nt = StackSymbol::non_terminal(NonTerminalId(2));
    assert!(nt.is_non_terminal());
}

#[test]
fn test_lr_stack_operations() {
    let mut stack = LRStack::new(ItemSetId(0));

    assert_eq!(stack.len(), 1);
    assert_eq!(stack.top_state(), Some(ItemSetId(0)));

    stack.push_state(ItemSetId(1));
    assert_eq!(stack.len(), 2);

    stack.push_terminal(TerminalId(0));
    assert_eq!(stack.len(), 3);

    let popped = stack.pop();
    assert!(popped.is_some());
    assert_eq!(stack.len(), 2);
}

#[test]
fn stack_pop_undoes_push_and_top_state_skips_symbols() {
    let mut stack = LRStack::new(ItemSetId(4));
    stack.push_terminal(TerminalId(3));
    assert_eq!(stack.top_state(), Some(ItemSetId(4)));
    stack.push_state(ItemSetId(9));
    assert_eq!(stack.pop(), Some(StackSymbol::state(9)));
    assert_eq!(stack.pop(), Some(StackSymbol::terminal(TerminalId(3))));
    let taken = stack.pop_n(5);
    assert_eq!(taken, vec![StackSymbol::state(4)]);
    assert!(stack.is_empty());
    assert_eq!(stack.pop(), None);
    assert_eq!(stack.top_state(), None);
}

#[test]
fn test_stack_display() {
    let mut stack = LRStack::new(ItemSetId(0));
    stack.push_terminal(TerminalId(1));
    stack.push_state(ItemSetId(2));

    let display = stack.to_string();
    assert!(display.contains("s0"));
    assert!(display.contains("t1"));
    assert!(display.contains("s2"));
}

#[test]
fn stack_display_exact() {
    let mut stack = LRStack::new(ItemSetId(0));
    stack.push_non_terminal(NonTerminalId(3));
    assert_eq!(stack.to_string(), "[s0, N3]");
}

#[test]
fn test_lr0_validator_simple() {
    let grammar = parse_grammar("E -> num");
    let report = LR0Validator::validate(&grammar);

    assert!(report.is_valid);
    assert!(report.grammar_type.is_lr0());
}

#[test]
fn test_slr1_validator_simple() {
    let grammar = parse_grammar("E -> num");
    let report = SLR1Validator::validate(&grammar);

    assert!(report.is_valid);
}

#[test]
fn test_slr1_validator_expression() {
    let grammar = parse_grammar(
        r#"
            E -> E + T | T
            T -> num
        "#,
    );
    let report = SLR1Validator::validate(&grammar);

    assert!(report.is_valid || report.grammar_type == LRGrammarType::NotLR);
}

#[test]
fn validators_reject_an_ambiguous_grammar() {
    let grammar = parse_grammar("E -> E + E | num");
    assert!(!LR0Validator::validate(&grammar).is_valid);
    assert!(!SLR1Validator::validate(&grammar).is_valid);
    assert!(!LR1Validator::validate(&grammar).is_valid);
    assert!(!LALR1Validator::validate(&grammar).is_valid);
    assert_eq!(LRValidator::get_grammar_type(&grammar), LRGrammarType::NotLR);
    assert!(!LRValidator::is_lr1(&grammar));
}

#[test]
fn test_builder_simple() {
    let grammar = parse_grammar("E -> num");
    let parser = LRParserBuilder::new().grammar(grammar).build();

    assert!(parser.is_ok());
}

#[test]
fn test_builder_with_config() {
    let grammar = parse_grammar("E -> num");
    let parser = LRParserBuilder::new().grammar(grammar).trace(true).error_recovery(true).max_errors(5).build();

    assert!(parser.is_ok());
    let parser = parser.unwrap();
    assert!(parser.config().trace);
    assert!(parser.config().error_recovery);
    assert_eq!(parser.config().max_errors, 5);
}

#[test]
fn builder_without_grammar_fails() {
    let err = LRParserBuilder::new().build().err().unwrap();
    assert!(err.is_invalid_grammar());
}

#[test]
fn builder_refuses_an_ambiguous_grammar() {
    let grammar = parse_grammar("E -> E + E | num");
    let err = LRParserBuilder::new().grammar(grammar).build().err().unwrap();
    assert!(err.is_invalid_grammar());
    let grammar = parse_grammar("E -> E + E | num");
    let err = LRParserBuilder::new().grammar(grammar).validate(false).build().err().unwrap();
    assert!(err.is_conflict());
}

#[test]
fn test_validator_simple() {
    let grammar = parse_grammar("E -> num");
    let report = LRValidator::validate(&grammar);

    assert!(report.is_valid);
}

#[test]
fn test_is_slr1() {
    let grammar = parse_grammar("E -> num");
    assert!(LRValidator::is_slr1(&grammar));
}

#[test]
fn test_get_grammar_type() {
    let grammar = parse_grammar("E -> num");
    let grammar_type = LRValidator::get_grammar_type(&grammar);

    assert!(grammar_type.is_deterministic());
}

#[test]
fn test_lr_parser_creation() {
    let grammar = parse_grammar("E -> num");
    let parser = LRParser::new(grammar);

    assert!(parser.is_ok());
}

#[test]
fn test_parse_simple() {
    let grammar = parse_grammar("E -> num");
    let num = grammar.terminal_id("num").unwrap();
    let parser = LRParser::new(grammar).unwrap();

    let tokens = vec![num];

    let result = parser.parse(&tokens);
    assert!(result.is_ok());

    let parse_result = result.unwrap();
    assert!(parse_result.success);
}

#[test]
fn test_parse_trace() {
    let grammar = parse_grammar("E -> num");
    let num = grammar.terminal_id("num").unwrap();
    let config = LRParserConfig { trace: true, ..Default::default() };
    let parser = LRParser::with_config(grammar, config).unwrap();

    let tokens = vec![num];

    let result = parser.parse(&tokens).unwrap();
    assert!(!result.trace.is_empty());
}

#[test]
fn parse_expression_and_reject_bad_input() {
    let grammar = parse_grammar("E -> E + T | T\nT -> num");
    let plus = grammar.terminal_id("+").unwrap();
    let num = grammar.terminal_id("num").unwrap();
    let parser = LRParser::new(grammar).unwrap();
    assert!(parser.parse(&[num, plus, num]).unwrap().success);
    let bad = parser.parse(&[num, plus]).unwrap();
    assert!(!bad.success);
    assert_eq!(bad.errors.len(), 1);
    assert!(!parser.parse(&[]).unwrap().success);
}

#[test]
fn parse_trace_records_derivations() {
    let grammar = parse_grammar("E -> num");
    let num = grammar.terminal_id("num").unwrap();
    let config = LRParserConfig { trace: true, ..Default::default() };
    let parser = LRParser::with_config(grammar, config).unwrap();
    let result = parser.parse(&[num]).unwrap();
    assert_eq!(result.derivations, vec!["E -> ...".to_string()]);
    assert_eq!(result.trace.steps().len(), 3);
}

#[test]
fn parser_builder_reads_a_grammar() {
    let b = ParserBuilder::new().with_grammar_from_str("Expr -> num");
    assert!(b.is_ok());
    assert!(ParserBuilder::new().with_grammar_from_str("").is_err());
}

#[test]
fn dependency_order_puts_dependents_first() {
    let mut g = DependencyGraph::new();
    g.add_dependency("A", "B");
    g.add_dependency("B", "C");
    assert_eq!(g.node_count(), 3);
    assert_eq!(g.edge_count(), 2);
    let order = g.topological_sort().unwrap();
    assert_eq!(order, vec!["A".to_string(), "B".to_string(), "C".to_string()]);
}

#[test]
fn dependency_cycle_is_reported() {
    let deps = vec![("A".to_string(), vec!["B".to_string()]), ("B".to_string(), vec!["A".to_string()])];
    let g = DependencyGraph::from_dependencies(&deps);
    let cycle = g.topological_sort().unwrap_err();
    assert_eq!(cycle.len(), 3);
    assert_eq!(cycle.first(), cycle.last());
}

#[test]
fn temporaries_and_labels_are_numbered_in_order() {
    let mut t = TempManager::new();
    assert_eq!(t.new_temp(), 0);
    assert_eq!(t.new_temp(), 1);
    assert_eq!(t.count(), 2);
    assert_eq!(TempManager::temp_name(1), "t1");
    t.reset();
    assert_eq!(t.new_temp(), 0);
    let mut l = LabelManager::new();
    assert_eq!(l.new_label(), 0);
    assert_eq!(LabelManager::label_name(12), "L12");
    assert_eq!(TacOp::Index.to_string(), "[]");
    let mut w = AstWalker::new();
    assert_eq!(w.alloc_node_id().get(), 0);
    assert_eq!(w.alloc_node_id().get(), 1);
    assert_eq!(w.node_count(), 2);
}

#[test]
fn graph_from_a_dependency_list() {
    let deps = vec![
        ("A".to_string(), vec!["B".to_string(), "C".to_string()]),
        ("B".to_string(), vec!["C".to_string()]),
        ("A".to_string(), vec!["D".to_string()]),
        ("E".to_string(), vec![]),
    ];
    let g = DependencyGraph::from_dependencies(&deps);
    assert_eq!(g.node_count(), 5);
    assert_eq!(g.edge_count(), 4);
    let order = g.topological_sort().unwrap();
    let pos = |n: &str| order.iter().position(|x| x == n).unwrap();
    assert!(pos("A") < pos("B"));
    assert!(pos("B") < pos("C"));
    assert!(pos("A") < pos("D"));
    assert_eq!(order.len(), 5);
}
