use calculator::ast::{ParseNode, ParserError, Rational};
use calculator::lexer::lexer;
use calculator::parser::Parser;
use calculator::token::{is_decimal, is_operator, is_parenthesis, Token, TokenType};

#[test]
fn operator_characters_are_recognized() {
    for c in ['+', '-', '*', '/', '^'] {
        assert!(is_operator(c));
    }
    assert!(!is_operator('('));
    assert!(!is_operator('1'));
    assert!(!is_operator('a'));
}

#[test]
fn decimal_separators_are_recognized() {
    assert!(is_decimal('.'));
    assert!(is_decimal(','));
    assert!(!is_decimal('1'));
    assert!(!is_decimal('-'));
}

#[test]
fn parenthesis_characters_are_recognized() {
    assert!(is_parenthesis('('));
    assert!(is_parenthesis(')'));
    assert!(!is_parenthesis('^'));
    assert!(!is_parenthesis('x'));
}

#[test]
fn token_copy_preserves_kind_and_text() {
    let t = Token { typ: TokenType::Number, lex: String::from("3.25") };
    let c = t.copy();
    assert_eq!(c.typ, TokenType::Number);
    assert_eq!(c.lex, "3.25");
}

fn kinds_and_lexemes(line: &str) -> Vec<(TokenType, String)> {
    lexer(line).into_iter().map(|t| (t.typ, t.lex)).collect()
}

#[test]
fn digits_and_separators_form_one_number_token() {
    let toks = kinds_and_lexemes("12.5+007");
    assert_eq!(
        toks,
        vec![
            (TokenType::Number, "12.5".to_string()),
            (TokenType::BinaryOp, "+".to_string()),
            (TokenType::Number, "007".to_string()),
        ]
    );
}

#[test]
fn letters_form_one_function_token() {
    let toks = kinds_and_lexemes("sqrt(9)");
    assert_eq!(
        toks,
        vec![
            (TokenType::Function, "sqrt".to_string()),
            (TokenType::Parenthesis, "(".to_string()),
            (TokenType::Number, "9".to_string()),
            (TokenType::Parenthesis, ")".to_string()),
        ]
    );
}

#[test]
fn minus_at_line_start_is_binary() {
    let toks = kinds_and_lexemes("-3");
    assert_eq!(toks[0], (TokenType::BinaryOp, "-".to_string()));
}

#[test]
fn minus_after_open_parenthesis_is_unary() {
    let toks = kinds_and_lexemes("(-3)");
    assert_eq!(toks[1], (TokenType::UnaryOp, "-".to_string()));
}

#[test]
fn minus_after_binary_operator_is_unary() {
    let toks = kinds_and_lexemes("2--3");
    assert_eq!(toks[1], (TokenType::BinaryOp, "-".to_string()));
    assert_eq!(toks[2], (TokenType::UnaryOp, "-".to_string()));
}

#[test]
fn minus_after_number_is_binary() {
    let toks = kinds_and_lexemes("2-3");
    assert_eq!(toks[1], (TokenType::BinaryOp, "-".to_string()));
}

#[test]
fn caret_is_always_binary() {
    let toks = kinds_and_lexemes("(^2");
    assert_eq!(toks[1], (TokenType::BinaryOp, "^".to_string()));
}

#[test]
fn retokenizing_the_lexeme_reconstruction_gives_the_same_tokens() {
    let first = kinds_and_lexemes("2 + 3*(41.5-1) / sqrt(9)");
    let rebuilt: String = first.iter().map(|(_, lex)| lex.as_str()).collect();
    let second = kinds_and_lexemes(&rebuilt);
    assert_eq!(first, second);
}

#[test]
fn parser_new_starts_empty() {
    let p = Parser::new();
    assert_eq!(p.curr_index, 0);
    assert_eq!(p.all_tokens.len(), 0);
}

#[test]
fn parser_cursor_stops_at_the_buffer_end() {
    let mut p = Parser::new();
    let r = p.create_ast(lexer("2+3"));
    assert!(r.is_ok());
    assert_eq!(p.curr_index, 3);
}

#[test]
fn evaluating_a_unary_minus_node_negates() {
    let node = ParseNode::Unary('-', Box::new(ParseNode::Number(Rational { num: 5, den: 1 })));
    let r = node.evaluate().unwrap();
    assert_eq!(r.num, -5);
    assert_eq!(r.den, 1);
}

#[test]
fn evaluating_an_unknown_operator_gives_zero() {
    let node = ParseNode::Binary(
        '%',
        Box::new(ParseNode::Number(Rational { num: 5, den: 1 })),
        Box::new(ParseNode::Number(Rational { num: 3, den: 1 })),
    );
    let r = node.evaluate().unwrap();
    assert!(r.equals_int(0));
}

#[test]
fn evaluating_a_null_node_gives_zero() {
    let r = ParseNode::Null.evaluate().unwrap();
    assert!(r.equals_int(0));
}

#[test]
fn parse_errors_reset_nothing_across_lines() {
    let mut p = Parser::new();
    assert!(matches!(p.create_ast(lexer("(1+2")), Err(ParserError::SyntaxError(_))));
    let r = p.create_ast(lexer("1+2"));
    let v = r.unwrap().evaluate().unwrap();
    assert!(v.equals_int(3));
}

#[test]
fn rational_equality_against_integers() {
    let mut p = Parser::new();
    let v = p.create_ast(lexer("3")).unwrap().evaluate().unwrap();
    assert!(v.equals_int(3));
    assert!(!v.equals_int(4));
}

#[test]
fn adjacent_number_tokens_merge_when_retokenized() {
    // Two numbers separated only by skipped characters reconstruct into one
    // numeral: the one case the round trip cannot preserve.
    let first = kinds_and_lexemes("2 3");
    assert_eq!(first.len(), 2);
    let rebuilt: String = first.iter().map(|(_, lex)| lex.as_str()).collect();
    let second = kinds_and_lexemes(&rebuilt);
    assert_eq!(second, vec![(TokenType::Number, "23".to_string())]);
}
