//! The calculator's operators and their precedence.

use vstd::prelude::*;
use vstd::string::StrSliceExecFns;

verus! {

/// The calculator: a namespace for the expression functions.
pub struct Calculator;

/// The five binary operator characters.
pub open spec fn is_operator_char(c: char) -> bool {
    c == '+' || c == '-' || c == '*' || c == '/' || c == '%'
}

/// Whether a token is one of the operators `+ - * / %`.
pub open spec fn is_operator_token(t: Seq<char>) -> bool {
    t.len() == 1 && is_operator_char(t[0])
}

/// The binding strength of a token: 1 for `+ -`, 2 for `* / %`, 0 for
/// anything else.
pub open spec fn precedence(t: Seq<char>) -> int {
    if t == seq!['+'] || t == seq!['-'] {
        1
    } else if t == seq!['*'] || t == seq!['/'] || t == seq!['%'] {
        2
    } else {
        0
    }
}

/// Executable operator-character test.
pub fn char_is_operator(c: char) -> (b: bool)
    ensures
        b == is_operator_char(c),
{
    c == '+' || c == '-' || c == '*' || c == '/' || c == '%'
}

impl Calculator {
    /// Checks if a string is a supported operator.
    pub fn is_operator(token: &str) -> (b: bool)
        ensures
            b == is_operator_token(token@),
    {
        token.unicode_len() == 1 && char_is_operator(token.get_char(0))
    }

    /// Gets the precedence of an operator.
    pub fn get_precedence(op: &str) -> (p: i32)
        ensures
            p == precedence(op@),
    {
        if op.unicode_len() != 1 {
            assert(op@ != seq!['+'] && op@ != seq!['-'] && op@ != seq!['*'] && op@ != seq!['/']
                && op@ != seq!['%']);
            return 0;
        }
        let c = op.get_char(0);
        assert(op@ =~= seq![c]);
        if c == '+' || c == '-' {
            1
        } else if c == '*' || c == '/' || c == '%' {
            2
        } else {
            0
        }
    }
}

/// Operators are exactly the tokens of positive precedence, and `* / %`
/// bind tighter than `+ -`.
pub proof fn law_operator_precedence(t: Seq<char>)
    ensures
        is_operator_token(t) <==> precedence(t) > 0,
        precedence(t) == 0 || precedence(t) == 1 || precedence(t) == 2,
        precedence(t) == 2 <==> (t == seq!['*'] || t == seq!['/'] || t == seq!['%']),
{
    if t.len() == 1 {
        if is_operator_char(t[0]) {
            assert(t =~= seq![t[0]]);
        }
    }
}

} // verus!
