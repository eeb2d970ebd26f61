use starry::cfg::{ContextFreeGrammar, TerminalId};
use starry::lr::augmented::AugmentedGrammar;
use starry::lr::error::LRErrorKind;
use starry::lr::parser::LRParser;
use starry::lr::token_mapper::TokenMapper;
use starry::parser::{ParseTreeNode, Parser, ParserBuilder, TokenStream};
use starry::token_mapper::{matches_terminal, terminal_id_from_token, Token, TokenKind};

fn name_table(input: &str) -> (Vec<(String, TerminalId)>, Vec<String>, TerminalId) {
    let cfg = ContextFreeGrammar::parse(input).unwrap();
    let augmented = AugmentedGrammar::new(cfg);
    let names = augmented.grammar().terminals.clone();
    let end_marker = TerminalId(names.len());
    (augmented.terminal_map(), names, end_marker)
}

fn create_mapper() -> TokenMapper {
    let (map, names, end_marker) = name_table("E -> num");
    TokenMapper::new(map, names, end_marker)
}

#[test]
fn test_map_integer_token() {
    let mapper = create_mapper();
    let kind = TokenKind::Integer(42);
    let result = mapper.terminal_id_from_token(&kind);
    assert!(result.is_some());
}

#[test]
fn test_map_identifier_token() {
    let (map, names, end_marker) = name_table("E -> id");
    let mapper = TokenMapper::new(map, names, end_marker);
    let kind = TokenKind::Identifier("id".to_string());
    let result = mapper.terminal_id_from_token(&kind);
    assert!(result.is_some());
}

#[test]
fn test_map_eof() {
    let mapper = create_mapper();
    let result = mapper.terminal_id_from_token(&TokenKind::Eof);
    assert_eq!(result, Some(mapper.end_marker()));
}

#[test]
fn test_matches_terminal() {
    let mapper = create_mapper();
    let num_id = mapper.terminal_id_from_token(&TokenKind::Integer(42)).unwrap();
    assert!(mapper.matches_terminal(num_id, &TokenKind::Integer(99)));
    assert!(mapper.matches_terminal(num_id, &TokenKind::Float(3.14f64.to_bits())));
}

#[test]
fn test_get_terminal_name() {
    let mapper = create_mapper();
    let num_id = mapper.terminal_id_from_token(&TokenKind::Integer(42)).unwrap();
    let name = mapper.get_terminal_name(num_id);
    assert_eq!(name, "num");
}

#[test]
fn test_tokenize_simple() {
    let mapper = create_mapper();
    let tokens = vec![Token::new(TokenKind::Integer(42), "42".to_string(), 0, 0)];
    let result = mapper.tokenize(&tokens).unwrap();
    assert_eq!(result.len(), 1);
}

#[test]
fn token_mapper_test_map_integer_token() {
    let (map, _, end_marker) = name_table("E -> num");
    let result = terminal_id_from_token(&TokenKind::Integer(42), &map, end_marker);
    assert!(result.is_some());
}

#[test]
fn token_mapper_test_map_identifier_token() {
    let (map, _, end_marker) = name_table("E -> id");
    let result = terminal_id_from_token(&TokenKind::Identifier("id".to_string()), &map, end_marker);
    assert!(result.is_some());
}

#[test]
fn token_mapper_test_map_eof() {
    let (map, _, end_marker) = name_table("E -> num");
    let result = terminal_id_from_token(&TokenKind::Eof, &map, end_marker);
    assert_eq!(result, Some(end_marker));
}

#[test]
fn test_matches_integer() {
    let (map, _, end_marker) = name_table("E -> num");
    let num_id = terminal_id_from_token(&TokenKind::Integer(42), &map, end_marker).unwrap();
    assert!(matches_terminal(num_id, &TokenKind::Integer(99), "num", end_marker));
    assert!(matches_terminal(num_id, &TokenKind::Float(3.14f64.to_bits()), "num", end_marker));
}

#[test]
fn test_matches_terminal_name() {
    let (map, _, end_marker) = name_table("E -> id");
    let id = terminal_id_from_token(&TokenKind::Identifier("id".to_string()), &map, end_marker).unwrap();
    assert!(matches_terminal(id, &TokenKind::Identifier("id".to_string()), "id", end_marker));
    assert!(!matches_terminal(id, &TokenKind::Identifier("x".to_string()), "id", end_marker));
}

#[test]
fn tokenize_drops_the_end_marker_and_reports_unknown_tokens() {
    let (map, names, end_marker) = name_table("E -> E + num | num");
    let mapper = TokenMapper::new(map, names, end_marker);
    let num = mapper.terminal_id_from_token(&TokenKind::Integer(0)).unwrap();
    let plus = mapper.terminal_id_from_token(&TokenKind::Operator("+".to_string())).unwrap();
    let tokens = vec![
        Token::new(TokenKind::Integer(1), "1".to_string(), 1, 1),
        Token::new(TokenKind::Operator("+".to_string()), "+".to_string(), 1, 3),
        Token::new(TokenKind::Integer(2), "2".to_string(), 1, 5),
        Token::new(TokenKind::Eof, String::new(), 1, 6),
    ];
    assert_eq!(mapper.tokenize(&tokens).unwrap(), vec![num, plus, num]);
    let bad = vec![
        Token::new(TokenKind::Integer(1), "1".to_string(), 1, 1),
        Token::new(TokenKind::Operator("*".to_string()), "*".to_string(), 2, 7),
    ];
    let err = mapper.tokenize(&bad).err().unwrap();
    assert_eq!(err.position, Some(1));
    match err.kind {
        LRErrorKind::InvalidGrammar { message } => {
            assert_eq!(message, "Unknown token: Operator(\"*\") at line 2 col 7")
        }
        _ => panic!("expected an invalid-grammar error"),
    }
}

#[test]
fn numbers_match_num_in_any_case() {
    let end_marker = TerminalId(5);
    assert!(matches_terminal(TerminalId(0), &TokenKind::Integer(1), "NuM", end_marker));
    assert!(!matches_terminal(TerminalId(0), &TokenKind::Integer(1), "number", end_marker));
    assert!(matches_terminal(TerminalId(0), &TokenKind::StringLiteral("s".to_string()), "STRING", end_marker));
    assert!(matches_terminal(end_marker, &TokenKind::Eof, "", end_marker));
    assert!(!matches_terminal(TerminalId(0), &TokenKind::Unknown("//".to_string()), "//", end_marker));
}

fn create_simple_grammar() -> ContextFreeGrammar {
    let input = r#"
            Expr -> Term + Expr | Term
            Term -> num
        "#;
    ContextFreeGrammar::parse(input).unwrap()
}

#[test]
fn test_parser_simple() {
    let cfg = create_simple_grammar();
    let stream = TokenStream::new(vec![Token::new(TokenKind::Integer(42), "42".to_string(), 1, 1)]);
    let mut parser = Parser::new(cfg, stream);
    let result = parser.parse();
    assert!(result.is_ok());
}

#[test]
fn test_parser_addition() {
    let cfg = create_simple_grammar();
    let stream = TokenStream::new(vec![
        Token::new(TokenKind::Integer(1), "1".to_string(), 1, 1),
        Token::new(TokenKind::Operator("+".to_string()), "+".to_string(), 1, 3),
        Token::new(TokenKind::Integer(2), "2".to_string(), 1, 5),
    ]);
    let mut parser = Parser::new(cfg, stream);
    let result = parser.parse();
    assert!(result.is_ok());
    match result.unwrap() {
        ParseTreeNode::NonTerminal { name, children } => {
            assert_eq!(name, "Expr");
            assert_eq!(children.len(), 3);
        }
        _ => panic!("expected a non-terminal at the root"),
    }
}

#[test]
fn test_parser_builder() {
    let stream = TokenStream::new(vec![Token::new(TokenKind::Integer(42), "42".to_string(), 1, 1)]);
    let parser = ParserBuilder::new().with_grammar_from_str("Expr -> num").unwrap().build(stream).unwrap();
    assert!(parser.grammar().non_terminals.len() > 0);
}

#[test]
fn descent_backtracks_and_reports_the_start_symbol() {
    let cfg = create_simple_grammar();
    let stream = TokenStream::new(vec![Token::new(TokenKind::Operator("+".to_string()), "+".to_string(), 3, 9)]);
    let mut parser = Parser::new(cfg, stream);
    let err = parser.parse().err().unwrap();
    assert_eq!(err.message, "Failed to parse non-terminal: Expr");
    assert_eq!((err.line, err.column), (3, 9));
    assert_eq!(parser.stream_position(), 0);
    let no_grammar = ParserBuilder::new().build(TokenStream::new(vec![]));
    assert_eq!(no_grammar.err().unwrap(), "No grammar provided");
}

#[test]
fn lr_parser_reads_tokens() {
    let cfg = ContextFreeGrammar::parse("E -> E + num | num").unwrap();
    let parser = LRParser::new(cfg).ok().unwrap();
    let tokens = vec![
        Token::new(TokenKind::Integer(1), "1".to_string(), 1, 1),
        Token::new(TokenKind::Operator("+".to_string()), "+".to_string(), 1, 3),
        Token::new(TokenKind::Integer(2), "2".to_string(), 1, 5),
        Token::new(TokenKind::Eof, String::new(), 1, 6),
    ];
    assert!(parser.parse_tokens(&tokens).unwrap().success);
    let bad = vec![Token::new(TokenKind::Keyword("while".to_string()), "while".to_string(), 4, 2)];
    assert_eq!(parser.parse_tokens(&bad).err().unwrap().position, Some(0));
}
