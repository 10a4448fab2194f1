use advanced_calculator::calculator::Calculator;
use advanced_calculator::evaluation::{EvaluationError, Operator, PostfixStep};
use advanced_calculator::tokenizer::TokenizeWarning;
use advanced_calculator::expression::PostfixFailure;

fn strings(v: &[&str]) -> Vec<String> {
    v.iter().map(|s| s.to_string()).collect()
}

fn number_flags(tokens: &[String]) -> Vec<bool> {
    tokens
        .iter()
        .map(|t| !t.is_empty() && t.len() <= 100 && t.parse::<f64>().map(|n| n.is_finite()).unwrap_or(false))
        .collect()
}

fn to_postfix(tokens: &[String]) -> Vec<String> {
    let flags = number_flags(tokens);
    Calculator::infix_to_postfix(tokens, &flags)
}

/// Drives the library's postfix steps with `f64` arithmetic.
fn evaluate(expr: &str) -> Result<f64, String> {
    let postfix = to_postfix(&Calculator::tokenize(expr));
    let flags = number_flags(&postfix);
    let mut stack: Vec<f64> = Vec::new();
    for (token, number) in postfix.iter().zip(flags) {
        match Calculator::postfix_step(stack.len(), token, number) {
            PostfixStep::PushNumber => stack.push(token.parse().unwrap()),
            PostfixStep::Apply(op) => {
                let b = stack.pop().unwrap();
                let a = stack.pop().unwrap();
                stack.push(match op {
                    Operator::Add => a + b,
                    Operator::Subtract => a - b,
                    Operator::Multiply => a * b,
                    Operator::Divide => a / b,
                    Operator::Modulo => a % b,
                });
            }
            PostfixStep::Fail(e) => return Err(e.message()),
            PostfixStep::Skip => {}
        }
    }
    Calculator::postfix_outcome(stack.len()).map_err(|e| e.message())?;
    Ok(stack[0])
}

#[test]
fn is_operator_accepts_the_five_operators() {
    for op in ["+", "-", "*", "/", "%"] {
        assert!(Calculator::is_operator(op));
    }
    for other in ["", "^", "(", "++", "1", "x"] {
        assert!(!Calculator::is_operator(other));
    }
}

#[test]
fn get_precedence_values() {
    assert_eq!(Calculator::get_precedence("+"), 1);
    assert_eq!(Calculator::get_precedence("-"), 1);
    assert_eq!(Calculator::get_precedence("*"), 2);
    assert_eq!(Calculator::get_precedence("/"), 2);
    assert_eq!(Calculator::get_precedence("%"), 2);
    assert_eq!(Calculator::get_precedence("("), 0);
    assert_eq!(Calculator::get_precedence("**"), 0);
    assert_eq!(Calculator::get_precedence(""), 0);
}

#[test]
fn tokenize_simple_expression() {
    assert_eq!(Calculator::tokenize("3 + 4 * 2"), strings(&["3", "+", "4", "*", "2"]));
    assert_eq!(Calculator::tokenize("12.5/0.5"), strings(&["12.5", "/", "0.5"]));
}

#[test]
fn tokenize_unary_minus() {
    assert_eq!(Calculator::tokenize("-5 + 3"), strings(&["-5", "+", "3"]));
    assert_eq!(Calculator::tokenize("(1 - -2)"), strings(&["(", "1", "-", "-2", ")"]));
    assert_eq!(Calculator::tokenize("2*-3"), strings(&["2", "*", "-3"]));
    assert_eq!(Calculator::tokenize("4-3"), strings(&["4", "-", "3"]));
    // A lone minus before a parenthesis stays a token of its own.
    assert_eq!(Calculator::tokenize("-(2)"), strings(&["-", "(", "2", ")"]));
}

#[test]
fn tokenize_skips_whitespace_of_every_kind() {
    assert_eq!(Calculator::tokenize("\t1\u{a0}+\u{3000}2\n"), strings(&["1", "+", "2"]));
    assert_eq!(Calculator::tokenize("   "), Vec::<String>::new());
}

#[test]
fn tokenize_reports_invalid_characters() {
    let r = Calculator::tokenize_report("2a+b1");
    assert_eq!(r.tokens, strings(&["2", "+", "1"]));
    assert_eq!(
        r.warnings,
        vec![TokenizeWarning::InvalidCharacter('a'), TokenizeWarning::InvalidCharacter('b')]
    );
}

#[test]
fn tokenize_reports_parenthesis_problems() {
    let r = Calculator::tokenize_report("(1+2");
    assert_eq!(r.tokens, strings(&["(", "1", "+", "2"]));
    assert_eq!(r.warnings, vec![TokenizeWarning::UnbalancedParentheses]);

    let r = Calculator::tokenize_report(")1(");
    assert_eq!(r.tokens, strings(&[")", "1", "("]));
    assert_eq!(r.warnings, vec![TokenizeWarning::UnmatchedClosingParenthesis]);

    let r = Calculator::tokenize_report("1)");
    assert_eq!(
        r.warnings,
        vec![TokenizeWarning::UnmatchedClosingParenthesis, TokenizeWarning::UnbalancedParentheses]
    );

    let r = Calculator::tokenize_report("((1))");
    assert!(r.warnings.is_empty());
}

#[test]
fn law_tokens_spell_the_token_characters() {
    let input = " 1.5 *( x2 -  -3)?";
    let tokens = Calculator::tokenize(input);
    assert_eq!(tokens.concat(), "1.5*(2--3)");
    assert!(tokens.iter().all(|t| !t.is_empty()));
}

#[test]
fn infix_to_postfix_respects_precedence() {
    let postfix = to_postfix(&strings(&["3", "+", "4", "*", "2"]));
    assert_eq!(postfix, strings(&["3", "4", "2", "*", "+"]));
    let postfix = to_postfix(&strings(&["3", "*", "4", "+", "2"]));
    assert_eq!(postfix, strings(&["3", "4", "*", "2", "+"]));
}

#[test]
fn infix_to_postfix_is_left_associative() {
    let postfix = to_postfix(&strings(&["10", "-", "4", "-", "3"]));
    assert_eq!(postfix, strings(&["10", "4", "-", "3", "-"]));
    let postfix = to_postfix(&strings(&["8", "/", "4", "%", "3"]));
    assert_eq!(postfix, strings(&["8", "4", "/", "3", "%"]));
}

#[test]
fn infix_to_postfix_with_parentheses() {
    let postfix = to_postfix(&strings(&["(", "1", "+", "2", ")", "*", "3"]));
    assert_eq!(postfix, strings(&["1", "2", "+", "3", "*"]));
    let postfix = to_postfix(&strings(&["2", "*", "(", "3", "-", "(", "4", "+", "1", ")", ")"]));
    assert_eq!(postfix, strings(&["2", "3", "4", "1", "+", "-", "*"]));
}

#[test]
fn infix_to_postfix_unmatched_parentheses() {
    // An unclosed `(` is drained at the end.
    let postfix = to_postfix(&strings(&["(", "1", "+", "2"]));
    assert_eq!(postfix, strings(&["1", "2", "+", "("]));
    // A `)` without partner empties the stack and is dropped.
    let postfix = to_postfix(&strings(&["1", "+", "2", ")", "*", "3"]));
    assert_eq!(postfix, strings(&["1", "2", "+", "3", "*"]));
}

#[test]
fn infix_to_postfix_drops_unknown_tokens() {
    let tokens = strings(&["1", "x", "+", ".", "2"]);
    let flags = vec![true, false, false, false, true];
    assert_eq!(Calculator::infix_to_postfix(&tokens, &flags), strings(&["1", "2", "+"]));
}

#[test]
fn law_postfix_keeps_numbers_and_operators() {
    let tokens = Calculator::tokenize("(7 - 2) * 3 + 8 / (1 + 1) % 5");
    let flags = number_flags(&tokens);
    let postfix = Calculator::infix_to_postfix(&tokens, &flags);
    let numbers_in: Vec<&String> = tokens.iter().filter(|t| number_flags(&[(*t).clone()])[0]).collect();
    let numbers_out: Vec<&String> = postfix.iter().filter(|t| number_flags(&[(*t).clone()])[0]).collect();
    assert_eq!(numbers_in, numbers_out);
    for op in ["+", "-", "*", "/", "%"] {
        let count_in = tokens.iter().filter(|t| t.as_str() == op).count();
        let count_out = postfix.iter().filter(|t| t.as_str() == op).count();
        assert_eq!(count_in, count_out);
    }
    assert!(!postfix.iter().any(|t| t == "(" || t == ")"));
}

#[test]
fn postfix_step_decisions() {
    assert_eq!(Calculator::postfix_step(0, "4", true), PostfixStep::PushNumber);
    assert_eq!(
        Calculator::postfix_step(1, "+", false),
        PostfixStep::Fail(EvaluationError::NotEnoughOperands)
    );
    assert_eq!(Calculator::postfix_step(2, "+", false), PostfixStep::Apply(Operator::Add));
    assert_eq!(Calculator::postfix_step(3, "-", false), PostfixStep::Apply(Operator::Subtract));
    assert_eq!(Calculator::postfix_step(2, "*", false), PostfixStep::Apply(Operator::Multiply));
    assert_eq!(Calculator::postfix_step(2, "/", false), PostfixStep::Apply(Operator::Divide));
    assert_eq!(Calculator::postfix_step(2, "%", false), PostfixStep::Apply(Operator::Modulo));
    assert_eq!(Calculator::postfix_step(2, "(", false), PostfixStep::Skip);
}

#[test]
fn postfix_outcome_needs_exactly_one_value() {
    assert_eq!(Calculator::postfix_outcome(1), Ok(()));
    assert_eq!(Calculator::postfix_outcome(0), Err(EvaluationError::InvalidExpression));
    assert_eq!(Calculator::postfix_outcome(2), Err(EvaluationError::InvalidExpression));
}

#[test]
fn operator_from_token() {
    assert_eq!(Operator::from_token("%"), Some(Operator::Modulo));
    assert_eq!(Operator::from_token("^"), None);
    assert_eq!(Operator::from_token("+-"), None);
}

#[test]
fn evaluation_error_messages() {
    assert_eq!(EvaluationError::NotEnoughOperands.message(), "Invalid expression: not enough operands");
    assert_eq!(EvaluationError::NonFiniteOperand.message(), "Non-finite operand in expression");
    assert_eq!(EvaluationError::NonFiniteResult.message(), "Result is not a finite number");
    assert_eq!(EvaluationError::InvalidExpression.message(), "Invalid expression");
}

#[test]
fn expressions_evaluate_with_precedence() {
    assert_eq!(evaluate("3 + 4 * 2"), Ok(11.0));
    assert_eq!(evaluate("(3 + 4) * 2"), Ok(14.0));
    assert_eq!(evaluate("10 - 4 - 3"), Ok(3.0));
    assert_eq!(evaluate("-5 + 3"), Ok(-2.0));
    assert_eq!(evaluate("7 % 4 * 2"), Ok(6.0));
}

#[test]
fn malformed_expressions_fail() {
    assert_eq!(evaluate("1 +"), Err("Invalid expression: not enough operands".to_string()));
    // Whitespace inside a number is skipped: "1 2" reads as 12.
    assert_eq!(evaluate("1 2"), Ok(12.0));
    assert_eq!(evaluate("(1)(2)"), Err("Invalid expression".to_string()));
    assert_eq!(evaluate(""), Err("Invalid expression".to_string()));
}

#[test]
fn law_operator_precedence_examples() {
    for t in ["+", "-", "*", "/", "%", "(", ")", "", "x", "**"] {
        assert_eq!(Calculator::is_operator(t), Calculator::get_precedence(t) > 0);
    }
}

#[test]
fn law_postfix_evaluates_to_meaning_examples() {
    // left grouping: 1 - (2 - 3) differs from 1 - 2 - 3
    assert_eq!(evaluate("1 - (2 - 3)"), Ok(2.0));
    assert_eq!(evaluate("1 - 2 - 3"), Ok(-4.0));
    assert_eq!(to_postfix(&Calculator::tokenize("1 - (2 - 3)")), strings(&["1", "2", "3", "-", "-"]));
    assert_eq!(evaluate("2 * (3 + 4) - 5"), Ok(9.0));
    assert_eq!(evaluate("((2))"), Ok(2.0));
    assert_eq!(evaluate("8 / 4 / 2"), Ok(1.0));
    assert_eq!(evaluate("2 + 3 * 4 - 6 / 2 % 2"), Ok(13.0));
}

fn eval_with(expr: &str) -> Result<f64, PostfixFailure<&'static str>> {
    let postfix = to_postfix(&Calculator::tokenize(expr));
    let flags = number_flags(&postfix);
    Calculator::evaluate_postfix_with(
        &postfix,
        &flags,
        |t: &str| t.parse::<f64>().unwrap(),
        |op: Operator, a: f64, b: f64| match op {
            Operator::Add => Ok(a + b),
            Operator::Subtract => Ok(a - b),
            Operator::Multiply => Ok(a * b),
            Operator::Divide => if b == 0.0 { Err("division by zero") } else { Ok(a / b) },
            Operator::Modulo => Ok(a % b),
        },
    )
}

#[test]
fn evaluate_postfix_with_values() {
    assert!(matches!(eval_with("3 + 4 * 2"), Ok(v) if v == 11.0));
    assert!(matches!(eval_with("10 - 4 - 3"), Ok(v) if v == 3.0));
    assert!(matches!(eval_with("8 / (4 - 2)"), Ok(v) if v == 4.0));
    assert!(matches!(eval_with("1 +"), Err(PostfixFailure::Malformed(EvaluationError::NotEnoughOperands))));
    assert!(matches!(eval_with("(1)(2)"), Err(PostfixFailure::Malformed(EvaluationError::InvalidExpression))));
    assert!(matches!(eval_with(""), Err(PostfixFailure::Malformed(EvaluationError::InvalidExpression))));
    assert!(matches!(eval_with("1 / 0"), Err(PostfixFailure::Operation("division by zero"))));
    // the operation's refusal comes first when it happens before the malformation
    assert!(matches!(eval_with("1 / 0 +"), Err(PostfixFailure::Operation("division by zero"))));
}

#[test]
fn law_nested_parentheses_vanish_example() {
    let postfix = to_postfix(&Calculator::tokenize("((1 + 2) * (3 - (4 / 2)))"));
    assert_eq!(postfix, strings(&["1", "2", "+", "3", "4", "2", "/", "-", "*"]));
}

fn eval_postfix(postfix: &[&str]) -> Result<f64, PostfixFailure<&'static str>> {
    let postfix = strings(postfix);
    let flags = number_flags(&postfix);
    Calculator::evaluate_postfix_with(
        &postfix,
        &flags,
        |t: &str| t.parse::<f64>().unwrap(),
        |op: Operator, a: f64, b: f64| match op {
            Operator::Add => Ok(a + b),
            Operator::Subtract => Ok(a - b),
            Operator::Multiply => Ok(a * b),
            Operator::Divide => if b == 0.0 { Err("division by zero") } else { Ok(a / b) },
            Operator::Modulo => Ok(a % b),
        },
    )
}

#[test]
fn evaluate_postfix_with_operand_order() {
    assert!(matches!(eval_postfix(&["10", "4", "-", "2", "/"]), Ok(v) if v == 3.0));
    assert!(matches!(eval_postfix(&["5"]), Ok(v) if v == 5.0));
    assert!(matches!(eval_postfix(&["1", "+"]), Err(PostfixFailure::Malformed(EvaluationError::NotEnoughOperands))));
    assert!(matches!(eval_postfix(&["1", "2"]), Err(PostfixFailure::Malformed(EvaluationError::InvalidExpression))));
    assert!(matches!(eval_postfix(&[]), Err(PostfixFailure::Malformed(EvaluationError::InvalidExpression))));
    // no division appears, so no division refusal can come out
    assert!(matches!(eval_postfix(&["5", "0", "+"]), Ok(v) if v == 5.0));
}

#[test]
fn law_other_tokens_ignored_example() {
    let with_others = eval_postfix(&["10", "x", "4", "(", "-", ")", "2", "1.2.3", "/"]);
    let without = eval_postfix(&["10", "4", "-", "2", "/"]);
    assert!(matches!((with_others, without), (Ok(a), Ok(b)) if a == b && a == 3.0));
}

fn eval_expression(expr: &str) -> Result<f64, PostfixFailure<&'static str>> {
    Calculator::evaluate_expression_with(
        expr,
        |t: &str| number_flags(&[t.to_string()])[0],
        |t: &str| t.parse::<f64>().unwrap(),
        |op: Operator, a: f64, b: f64| match op {
            Operator::Add => Ok(a + b),
            Operator::Subtract => Ok(a - b),
            Operator::Multiply => Ok(a * b),
            Operator::Divide => if b == 0.0 { Err("division by zero") } else { Ok(a / b) },
            Operator::Modulo => Ok(a % b),
        },
    )
}

#[test]
fn evaluate_expression_with_examples() {
    assert!(matches!(eval_expression("3 + 4 * 2"), Ok(v) if v == 11.0));
    assert!(matches!(eval_expression("(10 - 4) / 2"), Ok(v) if v == 3.0));
    assert!(matches!(eval_expression("-5 + 3"), Ok(v) if v == -2.0));
    assert!(matches!(eval_expression("1 / (2 - 2)"), Err(PostfixFailure::Operation("division by zero"))));
    assert!(matches!(eval_expression("1 +"), Err(PostfixFailure::Malformed(EvaluationError::NotEnoughOperands))));
    assert!(matches!(eval_expression(""), Err(PostfixFailure::Malformed(EvaluationError::InvalidExpression))));
    assert!(matches!(eval_expression("2 x * 3"), Ok(v) if v == 6.0));
}
