use calculator::ast::{ParserError, Rational};
use calculator::lexer::lexer;
use calculator::parser::parse_and_evaluate;

fn eval(line: &str) -> Result<Rational, ParserError> {
    parse_and_evaluate(lexer(line))
}

fn eval_ok(line: &str) -> Rational {
    match eval(line) {
        Ok(v) => v,
        Err(e) => panic!("expected a value for {:?}, got {:?}", line, e),
    }
}

fn expect_syntax_error(line: &str, message: &str) {
    match eval(line) {
        Err(ParserError::SyntaxError(m)) => assert_eq!(m, message),
        other => panic!("expected a syntax error for {:?}, got {:?}", line, other),
    }
}

fn expect_math_error(line: &str, message: &str) {
    match eval(line) {
        Err(ParserError::MathError(m)) => assert_eq!(m, message),
        other => panic!("expected a math error for {:?}, got {:?}", line, other),
    }
}

#[test]
fn multiplication_binds_before_addition() {
    let r = eval_ok("2+3*4");
    assert!(r.equals_int(14));
}

#[test]
fn parentheses_override_precedence() {
    let r = eval_ok("(2+3)*4");
    assert!(r.equals_int(20));
}

#[test]
fn division_is_left_associative() {
    let r = eval_ok("10/2/5");
    assert!(r.equals_int(1));
}

#[test]
fn power_is_left_associative() {
    let r = eval_ok("2^3^2");
    assert!(r.equals_int(64));
}

#[test]
fn missing_closing_parenthesis_is_a_syntax_error() {
    expect_syntax_error("(1+2", "No Closing Parenthesis Found");
}

#[test]
fn leading_close_parenthesis_is_a_syntax_error() {
    expect_syntax_error(")2+2(", "Unexpected Token");
}

#[test]
fn empty_line_tokenizes_to_nothing_and_fails_to_parse() {
    assert_eq!(lexer("").len(), 0);
    expect_syntax_error("", "Unexpected End Of Input");
}

#[test]
fn whitespace_only_line_fails_the_same_way() {
    assert_eq!(lexer(" \t ").len(), 0);
    expect_syntax_error(" \t ", "Unexpected End Of Input");
}

#[test]
fn subtraction_folds_left() {
    let r = eval_ok("10-3-4");
    assert!(r.equals_int(3));
}

#[test]
fn decimals_evaluate_exactly() {
    let r = eval_ok("1.5+2.25");
    assert_eq!(r.num, 3750);
    assert_eq!(r.den, 1000);
}

#[test]
fn division_keeps_the_exact_fraction() {
    let r = eval_ok("10/4");
    assert_eq!(r.num, 10);
    assert_eq!(r.den, 4);
}

#[test]
fn division_by_zero_is_a_math_error() {
    expect_math_error("1/0", "Division By Zero");
}

#[test]
fn fractional_exponent_is_a_math_error() {
    expect_math_error("2^(1/2)", "Non-Integer Exponent");
}

#[test]
fn negative_exponent_flips_the_base() {
    let r = eval_ok("2^(0-2)");
    assert_eq!(r.num, 1);
    assert_eq!(r.den, 4);
}

#[test]
fn exponent_written_as_a_fraction_may_still_be_whole() {
    let r = eval_ok("2^(10/5)");
    assert!(r.equals_int(4));
}

#[test]
fn overlong_numeral_is_rejected_as_malformed() {
    expect_syntax_error(
        "99999999999999999999999999999999999999999",
        "Malformed Number Literal",
    );
}

#[test]
fn product_beyond_the_machine_word_is_an_overflow() {
    expect_math_error(
        "100000000000000000000*10000000000000000000",
        "Arithmetic Overflow",
    );
}

#[test]
fn comma_separator_is_rejected_as_malformed() {
    expect_syntax_error("1,5", "Malformed Number Literal");
}

#[test]
fn two_dots_are_rejected_as_malformed() {
    expect_syntax_error("1.2.3", "Malformed Number Literal");
}

#[test]
fn unary_minus_has_no_grammar_rule() {
    expect_syntax_error("(-3)", "Unexpected Token");
}

#[test]
fn function_names_have_no_grammar_rule() {
    expect_syntax_error("sqrt(2)", "Unexpected Token");
}

#[test]
fn unrecognized_characters_are_skipped() {
    let r = eval_ok("2&+@3");
    assert!(r.equals_int(5));
}

#[test]
fn tokens_after_one_expression_are_ignored() {
    let r = eval_ok("2+3)");
    assert!(r.equals_int(5));
}

#[test]
fn blanks_around_tokens_are_skipped() {
    let r = eval_ok("  2  +  3  ");
    assert!(r.equals_int(5));
}

#[test]
fn mixed_levels_group_conventionally() {
    let r = eval_ok("1+2*3^2");
    assert!(r.equals_int(19));
}
