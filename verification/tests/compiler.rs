use rpg_rs::compile;
use rpg_rs::models::{Branch, ErrorType, OpCode, TokenType};
use rpg_rs::models::Lexer;

fn info(text: &str) -> OpCode {
    OpCode::Info(String::from(text))
}

fn question(text: &str, slot: usize) -> OpCode {
    OpCode::Question(String::from(text), slot)
}

#[test]
fn compile_is_deterministic() {
    let source = "\"Pick\" { \"yes\" => { ?0 \"name?\" \"Hi $0\" } \"no\" => { \"Bye\" } }";
    let a = compile(String::from(source)).unwrap();
    let b = compile(String::from(source)).unwrap();
    assert_eq!(a, b);
}

#[test]
fn empty_source_compiles_to_empty_program() {
    let code = compile(String::new()).unwrap();
    assert!(code.is_empty());
}

#[test]
fn info_question_sequence() {
    let code = compile(String::from("?0 \"name?\" \"Hi $0!\"")).unwrap();
    assert_eq!(code, vec![question("name?", 0), info("Hi $0!")]);
}

#[test]
fn branch_tree_shape() {
    let code = compile(String::from(
        "\"Pick\" { \"a\" => { \"A\" } \"b\" => { \"B\" \"C\" } }",
    ))
    .unwrap();
    assert_eq!(code.len(), 1);
    match &code[0] {
        OpCode::Branch(header, options) => {
            assert_eq!(header, "Pick");
            assert_eq!(options.len(), 2);
            assert_eq!(options[0], Branch::new(String::from("a"), vec![info("A")]));
            assert_eq!(
                options[1],
                Branch::new(String::from("b"), vec![info("B"), info("C")])
            );
        }
        other => panic!("expected a branch, got {:?}", other),
    }
}

#[test]
fn sibling_option_cannot_see_declaration() {
    let e = compile(String::from(
        "\"Pick\" { \"yes\" => { ?0 \"name?\" \"Hi $0\" } \"no\" => { \"Bye $0\" } }",
    ))
    .unwrap_err();
    assert_eq!(*e.error_type(), ErrorType::InvalidIdentifier(0));
}

#[test]
fn same_option_sees_declaration() {
    let code = compile(String::from(
        "\"Pick\" { \"yes\" => { ?0 \"name?\" \"Hi $0\" } \"no\" => { \"Bye\" } }",
    ));
    assert!(code.is_ok());
}

#[test]
fn declaration_does_not_survive_branch_close() {
    let e = compile(String::from(
        "\"Pick\" { \"yes\" => { ?0 \"name?\" } } \"later $0\"",
    ))
    .unwrap_err();
    assert_eq!(*e.error_type(), ErrorType::InvalidIdentifier(0));
}

#[test]
fn nested_branch_sees_outer_declaration() {
    let code = compile(String::from(
        "?1 \"outer?\" \"Pick\" { \"deep\" => { \"Inner\" { \"leaf\" => { \"got $1\" } } } }",
    ));
    assert!(code.is_ok());
}

#[test]
fn forward_reference_is_rejected() {
    let e = compile(String::from("\"Hi $0\" ?0 \"What's your name?\"")).unwrap_err();
    assert_eq!(*e.error_type(), ErrorType::InvalidIdentifier(0));
    assert_eq!(e.exit_code(), 42);
}

#[test]
fn declare_then_reference_is_accepted() {
    let code = compile(String::from("?0 \"What's your name?\" \"Hi $0\""));
    assert!(code.is_ok());
}

#[test]
fn own_prompt_cannot_reference_own_slot() {
    let e = compile(String::from("?0 \"loop $0\"")).unwrap_err();
    assert_eq!(*e.error_type(), ErrorType::InvalidIdentifier(0));
}

#[test]
fn literal_dollar_parses() {
    let code = compile(String::from("\"Cost: $ USD\"")).unwrap();
    assert_eq!(code, vec![info("Cost: $ USD")]);
}

#[test]
fn trailing_dollar_parses() {
    let code = compile(String::from("\"100$\"")).unwrap();
    assert_eq!(code, vec![info("100$")]);
}

#[test]
fn unterminated_literal_points_at_opening_quote() {
    let e = compile(String::from("\"abc")).unwrap_err();
    assert!(matches!(e.error_type(), ErrorType::Missing(_)));
    assert_eq!((e.line(), e.column()), (1, 1));
    assert_eq!(e.exit_code(), 40);
}

#[test]
fn unterminated_literal_after_spaces() {
    let e = compile(String::from("  \"abc")).unwrap_err();
    assert!(matches!(e.error_type(), ErrorType::Missing(_)));
    assert_eq!((e.line(), e.column()), (1, 3));
}

#[test]
fn invalid_character_is_invalid_syntax() {
    let e = compile(String::from("%")).unwrap_err();
    assert_eq!(*e.error_type(), ErrorType::InvalidSyntax);
    assert_eq!((e.line(), e.column()), (1, 1));
    assert_eq!(e.exit_code(), -1);
}

#[test]
fn position_tracks_lines_and_columns() {
    let e = compile(String::from("\n %")).unwrap_err();
    assert_eq!(*e.error_type(), ErrorType::InvalidSyntax);
    assert_eq!((e.line(), e.column()), (2, 2));
}

#[test]
fn lambda_needs_closing_angle() {
    let e = compile(String::from("=")).unwrap_err();
    assert!(matches!(e.error_type(), ErrorType::Missing(_)));
    assert_eq!((e.line(), e.column()), (1, 1));
    let e = compile(String::from("=x")).unwrap_err();
    assert!(matches!(e.error_type(), ErrorType::Expected(_)));
    assert_eq!((e.line(), e.column()), (1, 2));
    assert_eq!(e.exit_code(), 41);
}

#[test]
fn assignment_needs_equals() {
    let e = compile(String::from(":")).unwrap_err();
    assert!(matches!(e.error_type(), ErrorType::Missing(_)));
    let e = compile(String::from(":x")).unwrap_err();
    assert!(matches!(e.error_type(), ErrorType::Expected(_)));
}

#[test]
fn question_mark_needs_digits() {
    let e = compile(String::from("?")).unwrap_err();
    assert!(matches!(e.error_type(), ErrorType::Missing(_)));
    let e = compile(String::from("? \"q\"")).unwrap_err();
    assert!(matches!(e.error_type(), ErrorType::Missing(_)));
}

#[test]
fn question_needs_prompt_literal() {
    let e = compile(String::from("?0")).unwrap_err();
    assert!(matches!(e.error_type(), ErrorType::Missing(_)));
    let e = compile(String::from("?0 ?1 \"q\"")).unwrap_err();
    assert!(matches!(e.error_type(), ErrorType::Expected(_)));
}

#[test]
fn stray_token_expects_message() {
    let e = compile(String::from("#")).unwrap_err();
    assert!(matches!(e.error_type(), ErrorType::Expected(_)));
}

#[test]
fn branch_without_options_is_rejected() {
    let e = compile(String::from("\"h\" { }")).unwrap_err();
    assert!(matches!(e.error_type(), ErrorType::Expected(_)));
}

#[test]
fn branch_missing_closing_brace() {
    let e = compile(String::from("\"h\" {")).unwrap_err();
    assert!(matches!(e.error_type(), ErrorType::Missing(_)));
}

#[test]
fn option_missing_arrow() {
    let e = compile(String::from("\"h\" { \"a\" }")).unwrap_err();
    assert!(matches!(e.error_type(), ErrorType::Expected(_)));
    let e = compile(String::from("\"h\" { \"a\"")).unwrap_err();
    assert!(matches!(e.error_type(), ErrorType::Missing(_)));
}

#[test]
fn option_missing_body_brace() {
    let e = compile(String::from("\"h\" { \"a\" => }")).unwrap_err();
    assert!(matches!(e.error_type(), ErrorType::Expected(_)));
    let e = compile(String::from("\"h\" { \"a\" =>")).unwrap_err();
    assert!(matches!(e.error_type(), ErrorType::Missing(_)));
}

#[test]
fn option_body_missing_closing_brace() {
    let e = compile(String::from("\"h\" { \"a\" => { \"x\"")).unwrap_err();
    assert!(matches!(e.error_type(), ErrorType::Missing(_)));
}

#[test]
fn lexer_produces_positioned_tokens() {
    let tokens = Lexer::lex(String::from("- ( ) # => := { } abc12 def \"lit\"")).unwrap();
    let kinds: Vec<TokenType> = tokens.iter().map(|t| t.token_type.clone()).collect();
    assert_eq!(
        kinds,
        vec![
            TokenType::TellOp,
            TokenType::ParOpen,
            TokenType::ParClose,
            TokenType::BranchOp,
            TokenType::LambdaOp,
            TokenType::AssignmentOp,
            TokenType::BrackOpen,
            TokenType::BrackClose,
            TokenType::Identifier(String::from("abc12")),
            TokenType::Identifier(String::from("def")),
            TokenType::StringLiteral(String::from("lit")),
        ]
    );
    assert_eq!(tokens[0].position.line, 1);
    assert_eq!(tokens[0].position.column, 1);
    assert_eq!(tokens[4].position.column, 9);
}

#[test]
fn lexer_numbers_question_declarations() {
    let tokens = Lexer::lex(String::from("?42 \"q\"")).unwrap();
    assert_eq!(tokens[0].token_type, TokenType::IdentifierNumber(42));
    assert_eq!(tokens[0].position.column, 1);
    assert_eq!(tokens[1].position.column, 5);
}

#[test]
fn literal_spans_lines_and_positions_resume() {
    let tokens = Lexer::lex(String::from("\"a\nb\" \"c\"")).unwrap();
    assert_eq!(
        tokens[0].token_type,
        TokenType::StringLiteral(String::from("a\nb"))
    );
    assert_eq!((tokens[0].position.line, tokens[0].position.column), (1, 1));
    assert_eq!((tokens[1].position.line, tokens[1].position.column), (2, 4));
}

#[test]
fn multi_digit_references_resolve() {
    let code = compile(String::from("?10 \"q\" \"v $10\""));
    assert!(code.is_ok());
    let e = compile(String::from("?1 \"q\" \"v $10\"")).unwrap_err();
    assert_eq!(*e.error_type(), ErrorType::InvalidIdentifier(10));
}

#[test]
fn slot_id_past_machine_range_is_invalid_syntax() {
    let e = compile(String::from("?99999999999999999999999999999999999999 \"q\""))
        .unwrap_err();
    assert_eq!(*e.error_type(), ErrorType::InvalidSyntax);
}

#[test]
fn reference_past_machine_range_is_invalid_syntax() {
    let e = compile(String::from("\"v $99999999999999999999999999999999999999\""))
        .unwrap_err();
    assert_eq!(*e.error_type(), ErrorType::InvalidSyntax);
}
