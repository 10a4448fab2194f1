//! The bookkeeping of a postfix evaluation: which tokens push a number,
//! which apply an operator, and when the expression is malformed.  The
//! arithmetic itself is done by the caller.

use vstd::prelude::*;
use vstd::string::StrSliceExecFns;
use vstd::string::StringExecFns;
use crate::calculator::{Calculator, is_operator_token};

verus! {

/// The five binary operators.
#[derive(Clone, Copy, Debug, PartialEq, Eq, Structural)]
pub enum Operator {
    Add,
    Subtract,
    Multiply,
    Divide,
    Modulo,
}

/// Why a postfix evaluation fails.
#[derive(Clone, Copy, Debug, PartialEq, Eq, Structural)]
pub enum EvaluationError {
    /// An operator found fewer than two values to work on.
    NotEnoughOperands,
    /// An operand was infinite or not a number.
    NonFiniteOperand,
    /// An operation gave an infinite value or not a number.
    NonFiniteResult,
    /// At the end, the number of values left is not one.
    InvalidExpression,
}

/// What to do with one postfix token.
#[derive(Clone, Copy, Debug, PartialEq, Eq, Structural)]
pub enum PostfixStep {
    /// Push the token's value.
    PushNumber,
    /// Pop the right operand, then the left one, and push the result.
    Apply(Operator),
    /// Stop with this error.
    Fail(EvaluationError),
    /// Ignore the token.
    Skip,
}

/// The operator a token stands for.
pub open spec fn operator_of_token(t: Seq<char>) -> Option<Operator> {
    if t == seq!['+'] {
        Some(Operator::Add)
    } else if t == seq!['-'] {
        Some(Operator::Subtract)
    } else if t == seq!['*'] {
        Some(Operator::Multiply)
    } else if t == seq!['/'] {
        Some(Operator::Divide)
    } else if t == seq!['%'] {
        Some(Operator::Modulo)
    } else {
        None
    }
}

/// What the evaluator does with token `t` while `depth` values are stacked.
pub open spec fn postfix_step_of(depth: nat, t: Seq<char>, number: bool) -> PostfixStep {
    if number {
        PostfixStep::PushNumber
    } else if is_operator_token(t) {
        if depth < 2 {
            PostfixStep::Fail(EvaluationError::NotEnoughOperands)
        } else {
            PostfixStep::Apply(operator_of_token(t).unwrap())
        }
    } else {
        PostfixStep::Skip
    }
}

impl Operator {
    /// The operator a token stands for, if any.
    pub fn from_token(token: &str) -> (op: Option<Operator>)
        ensures
            op == operator_of_token(token@),
    {
        if token.unicode_len() != 1 {
            return None;
        }
        let c = token.get_char(0);
        assert(token@ =~= seq![c]);
        if c == '+' {
            Some(Operator::Add)
        } else if c == '-' {
            Some(Operator::Subtract)
        } else if c == '*' {
            Some(Operator::Multiply)
        } else if c == '/' {
            Some(Operator::Divide)
        } else if c == '%' {
            Some(Operator::Modulo)
        } else {
            None
        }
    }
}

impl EvaluationError {
    pub open spec fn spec_message(self) -> Seq<char> {
        match self {
            EvaluationError::NotEnoughOperands => "Invalid expression: not enough operands"@,
            EvaluationError::NonFiniteOperand => "Non-finite operand in expression"@,
            EvaluationError::NonFiniteResult => "Result is not a finite number"@,
            EvaluationError::InvalidExpression => "Invalid expression"@,
        }
    }

    /// The text the calculator reports for this error.
    pub fn message(&self) -> (m: String)
        ensures
            m@ == self.spec_message(),
    {
        match self {
            EvaluationError::NotEnoughOperands => String::from_str(
                "Invalid expression: not enough operands",
            ),
            EvaluationError::NonFiniteOperand => String::from_str("Non-finite operand in expression"),
            EvaluationError::NonFiniteResult => String::from_str("Result is not a finite number"),
            EvaluationError::InvalidExpression => String::from_str("Invalid expression"),
        }
    }
}

impl Calculator {
    /// Decides what a postfix evaluation does with `token` when `depth`
    /// values are on its stack; `is_number` tells whether the token is a
    /// number.
    pub fn postfix_step(depth: usize, token: &str, is_number: bool) -> (step: PostfixStep)
        ensures
            step == postfix_step_of(depth as nat, token@, is_number),
    {
        if is_number {
            PostfixStep::PushNumber
        } else if Calculator::is_operator(token) {
            if depth < 2 {
                PostfixStep::Fail(EvaluationError::NotEnoughOperands)
            } else {
                assert(token@ =~= seq![token@[0]]);
                let op = Operator::from_token(token);
                assert(op.is_some());
                PostfixStep::Apply(op.unwrap())
            }
        } else {
            PostfixStep::Skip
        }
    }

    /// Decides the outcome once every token is read and `depth` values are
    /// left: exactly one value is a result.
    pub fn postfix_outcome(depth: usize) -> (r: Result<(), EvaluationError>)
        ensures
            r == (if depth == 1 { Ok(()) } else { Err(EvaluationError::InvalidExpression) }),
    {
        if depth != 1 {
            Err(EvaluationError::InvalidExpression)
        } else {
            Ok(())
        }
    }
}

} // verus!
