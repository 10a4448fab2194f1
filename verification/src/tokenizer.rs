//! Splitting an expression into number, operator and parenthesis tokens.

use vstd::prelude::*;
use vstd::string::StrSliceExecFns;
use crate::text::{
    is_white_space, is_digit, char_is_whitespace, char_is_digit, chars_of, single_char_string,
    is_single_char, string_views, lemma_string_views_push,
};
use crate::calculator::{Calculator, is_operator_char, is_operator_token, char_is_operator};

verus! {

/// A diagnostic noticed while tokenizing; the tokens are produced anyway.
#[derive(Clone, Copy, Debug, PartialEq, Eq, Structural)]
pub enum TokenizeWarning {
    /// A `)` brought the parenthesis count below zero.
    UnmatchedClosingParenthesis,
    /// A character that is neither whitespace, digit, `.`, parenthesis
    /// nor operator; it is skipped.
    InvalidCharacter(char),
    /// At the end, the numbers of `(` and `)` differ.
    UnbalancedParentheses,
}

/// The tokens of an expression with the warnings met on the way.
pub struct TokenizeReport {
    pub tokens: Vec<String>,
    pub warnings: Vec<TokenizeWarning>,
}

/// The tokenizer's state after a prefix of the input.
pub struct TokenizerState {
    /// Tokens completed so far.
    pub tokens: Seq<Seq<char>>,
    /// The number being collected.
    pub current: Seq<char>,
    /// Opened minus closed parentheses.
    pub depth: int,
    pub warnings: Seq<TokenizeWarning>,
}

pub open spec fn initial_tokenizer_state() -> TokenizerState {
    TokenizerState { tokens: seq![], current: seq![], depth: 0, warnings: seq![] }
}

/// The tokens after the number being collected, if any, is completed.
pub open spec fn flushed(tokens: Seq<Seq<char>>, current: Seq<char>) -> Seq<Seq<char>> {
    if current.len() > 0 {
        tokens.push(current)
    } else {
        tokens
    }
}

/// A `-` starts a negative number when nothing precedes it, or when it
/// follows `(` or an operator.
pub open spec fn minus_is_unary(tokens: Seq<Seq<char>>) -> bool {
    tokens.len() == 0 || tokens.last() == seq!['('] || is_operator_token(tokens.last())
}

/// The effect of one input character.
pub open spec fn tokenize_step(st: TokenizerState, c: char) -> TokenizerState {
    if is_white_space(c) {
        st
    } else if is_digit(c) || c == '.' {
        TokenizerState {
            tokens: st.tokens,
            current: st.current.push(c),
            depth: st.depth,
            warnings: st.warnings,
        }
    } else if c == '(' {
        TokenizerState {
            tokens: flushed(st.tokens, st.current).push(seq!['(']),
            current: seq![],
            depth: st.depth + 1,
            warnings: st.warnings,
        }
    } else if c == ')' {
        TokenizerState {
            tokens: flushed(st.tokens, st.current).push(seq![')']),
            current: seq![],
            depth: st.depth - 1,
            warnings: if st.depth - 1 < 0 {
                st.warnings.push(TokenizeWarning::UnmatchedClosingParenthesis)
            } else {
                st.warnings
            },
        }
    } else if is_operator_char(c) {
        let f = flushed(st.tokens, st.current);
        if c == '-' && minus_is_unary(f) {
            TokenizerState { tokens: f, current: seq!['-'], depth: st.depth, warnings: st.warnings }
        } else {
            TokenizerState {
                tokens: f.push(seq![c]),
                current: seq![],
                depth: st.depth,
                warnings: st.warnings,
            }
        }
    } else {
        TokenizerState {
            tokens: st.tokens,
            current: st.current,
            depth: st.depth,
            warnings: st.warnings.push(TokenizeWarning::InvalidCharacter(c)),
        }
    }
}

/// The tokenizer's state after reading all of `s`.
pub open spec fn tokenize_state(s: Seq<char>) -> TokenizerState
    decreases s.len(),
{
    if s.len() == 0 {
        initial_tokenizer_state()
    } else {
        tokenize_step(tokenize_state(s.drop_last()), s.last())
    }
}

/// The tokens of `s`.
pub open spec fn tokens_of(s: Seq<char>) -> Seq<Seq<char>> {
    let st = tokenize_state(s);
    flushed(st.tokens, st.current)
}

/// The warnings met while tokenizing `s`, in order.
pub open spec fn warnings_of(s: Seq<char>) -> Seq<TokenizeWarning> {
    let st = tokenize_state(s);
    if st.depth != 0 {
        st.warnings.push(TokenizeWarning::UnbalancedParentheses)
    } else {
        st.warnings
    }
}

/// Moves the number being collected, if any, to the tokens.
fn flush_current(tokens: &mut Vec<String>, current: &mut String)
    ensures
        string_views(final(tokens)@) == flushed(string_views(old(tokens)@), old(current)@),
        final(current)@ == Seq::<char>::empty(),
{
    if !current.as_str().is_empty() {
        let done = current.clone();
        *current = String::new();
        proof {
            lemma_string_views_push(tokens@, done);
        }
        tokens.push(done);
    } else {
        assert(current@ =~= Seq::<char>::empty());
    }
}

/// Appends the one-character token `c`.
fn push_char_token(tokens: &mut Vec<String>, c: char)
    ensures
        string_views(final(tokens)@) == string_views(old(tokens)@).push(seq![c]),
{
    let t = single_char_string(c);
    proof {
        lemma_string_views_push(tokens@, t);
    }
    tokens.push(t);
}

impl Calculator {
    /// Tokenizes a mathematical expression and reports the warnings met
    /// on the way.
    pub fn tokenize_report(expr: &str) -> (r: TokenizeReport)
        ensures
            string_views(r.tokens@) == tokens_of(expr@),
            r.warnings@ == warnings_of(expr@),
    {
        let chars = chars_of(expr);
        let mut tokens: Vec<String> = Vec::new();
        let mut current = String::new();
        let mut depth: i128 = 0;
        let mut warnings: Vec<TokenizeWarning> = Vec::new();
        let mut i: usize = 0;
        assert(chars@.take(0) =~= Seq::<char>::empty());
        assert(string_views(tokens@) =~= Seq::<Seq<char>>::empty());
        while i < chars.len()
            invariant
                i <= chars.len(),
                chars@ == expr@,
                -(i as int) <= depth <= i as int,
                string_views(tokens@) == tokenize_state(chars@.take(i as int)).tokens,
                current@ == tokenize_state(chars@.take(i as int)).current,
                depth as int == tokenize_state(chars@.take(i as int)).depth,
                warnings@ == tokenize_state(chars@.take(i as int)).warnings,
            decreases chars.len() - i,
        {
            let c = chars[i];
            assert(chars@.take(i + 1).drop_last() =~= chars@.take(i as int));
            assert(chars@.take(i + 1).last() == c);
            if char_is_whitespace(c) {
            } else if char_is_digit(c) || c == '.' {
                current.push(c);
            } else if c == '(' {
                depth = depth + 1;
                flush_current(&mut tokens, &mut current);
                push_char_token(&mut tokens, '(');
            } else if c == ')' {
                depth = depth - 1;
                if depth < 0 {
                    warnings.push(TokenizeWarning::UnmatchedClosingParenthesis);
                }
                flush_current(&mut tokens, &mut current);
                push_char_token(&mut tokens, ')');
            } else if char_is_operator(c) {
                flush_current(&mut tokens, &mut current);
                let n = tokens.len();
                let unary = c == '-' && (n == 0 || is_single_char(tokens[n - 1].as_str(), '(')
                    || Calculator::is_operator(tokens[n - 1].as_str()));
                assert(n > 0 ==> tokens@[n - 1]@ == string_views(tokens@).last());
                if unary {
                    current.push('-');
                } else {
                    push_char_token(&mut tokens, c);
                }
            } else {
                warnings.push(TokenizeWarning::InvalidCharacter(c));
            }
            i = i + 1;
        }
        assert(chars@.take(i as int) =~= expr@);
        flush_current(&mut tokens, &mut current);
        if depth != 0 {
            warnings.push(TokenizeWarning::UnbalancedParentheses);
        }
        TokenizeReport { tokens, warnings }
    }

    /// Tokenizes a mathematical expression.
    pub fn tokenize(expr: &str) -> (tokens: Vec<String>)
        ensures
            string_views(tokens@) == tokens_of(expr@),
    {
        Calculator::tokenize_report(expr).tokens
    }
}

} // verus!

verus! {

/// The characters that take part in tokens: digits, `.`, parentheses and
/// operators.
pub open spec fn is_token_char(c: char) -> bool {
    is_digit(c) || c == '.' || c == '(' || c == ')' || is_operator_char(c)
}

/// The characters of `s` that take part in tokens, in order.
pub open spec fn token_chars(s: Seq<char>) -> Seq<char>
    decreases s.len(),
{
    if s.len() == 0 {
        seq![]
    } else if is_token_char(s.last()) {
        token_chars(s.drop_last()).push(s.last())
    } else {
        token_chars(s.drop_last())
    }
}

/// The tokens written one after the other.
pub open spec fn concat_all(ts: Seq<Seq<char>>) -> Seq<char>
    decreases ts.len(),
{
    if ts.len() == 0 {
        seq![]
    } else {
        concat_all(ts.drop_last()) + ts.last()
    }
}

/// How many times `c` occurs in `s`.
pub open spec fn count_char(s: Seq<char>, c: char) -> int
    decreases s.len(),
{
    if s.len() == 0 {
        0
    } else {
        count_char(s.drop_last(), c) + if s.last() == c { 1int } else { 0int }
    }
}

pub open spec fn is_digit_or_dot(c: char) -> bool {
    is_digit(c) || c == '.'
}

/// A run of digits and dots, possibly after a leading `-`.
pub open spec fn is_numeral_shape(t: Seq<char>) -> bool {
    &&& t.len() > 0
    &&& (t[0] == '-' || is_digit_or_dot(t[0]))
    &&& forall|i: int| 1 <= i < t.len() ==> is_digit_or_dot(#[trigger] t[i])
}

/// What a token can look like: a parenthesis, an operator, or a numeral.
pub open spec fn is_token_shape(t: Seq<char>) -> bool {
    t == seq!['('] || t == seq![')'] || is_operator_token(t) || is_numeral_shape(t)
}

/// What the tokenizer keeps true after every prefix of its input.
pub open spec fn tokenizer_invariant(s: Seq<char>, st: TokenizerState) -> bool {
    &&& concat_all(st.tokens) + st.current == token_chars(s)
    &&& forall|i: int| 0 <= i < st.tokens.len() ==> is_token_shape(#[trigger] st.tokens[i])
    &&& (st.current.len() == 0 || is_numeral_shape(st.current))
    &&& st.depth == count_char(s, '(') - count_char(s, ')')
    &&& !st.warnings.contains(TokenizeWarning::UnbalancedParentheses)
}

proof fn lemma_concat_push(ts: Seq<Seq<char>>, t: Seq<char>)
    ensures
        concat_all(ts.push(t)) == concat_all(ts) + t,
{
    assert(ts.push(t).drop_last() =~= ts);
}

proof fn lemma_flushed(ts: Seq<Seq<char>>, cur: Seq<char>)
    requires
        forall|i: int| 0 <= i < ts.len() ==> is_token_shape(#[trigger] ts[i]),
        cur.len() == 0 || is_numeral_shape(cur),
    ensures
        concat_all(flushed(ts, cur)) == concat_all(ts) + cur,
        forall|i: int|
            0 <= i < flushed(ts, cur).len() ==> is_token_shape(#[trigger] flushed(ts, cur)[i]),
{
    if cur.len() > 0 {
        lemma_concat_push(ts, cur);
        assert forall|i: int| 0 <= i < flushed(ts, cur).len() implies is_token_shape(
            #[trigger] flushed(ts, cur)[i],
        ) by {
            if i < ts.len() {
                assert(flushed(ts, cur)[i] == ts[i]);
            }
        }
    } else {
        assert(cur =~= Seq::<char>::empty());
        assert(concat_all(ts) + cur =~= concat_all(ts));
    }
}

proof fn lemma_push_shape(ts: Seq<Seq<char>>, t: Seq<char>)
    requires
        forall|i: int| 0 <= i < ts.len() ==> is_token_shape(#[trigger] ts[i]),
        is_token_shape(t),
    ensures
        forall|i: int| 0 <= i < ts.push(t).len() ==> is_token_shape(#[trigger] ts.push(t)[i]),
{
    assert forall|i: int| 0 <= i < ts.push(t).len() implies is_token_shape(
        #[trigger] ts.push(t)[i],
    ) by {
        if i < ts.len() {
            assert(ts.push(t)[i] == ts[i]);
        }
    }
}

proof fn lemma_push_other_warning(ws: Seq<TokenizeWarning>, w: TokenizeWarning)
    requires
        !ws.contains(TokenizeWarning::UnbalancedParentheses),
        w != TokenizeWarning::UnbalancedParentheses,
    ensures
        !ws.push(w).contains(TokenizeWarning::UnbalancedParentheses),
{
    let w2 = ws.push(w);
    if w2.contains(TokenizeWarning::UnbalancedParentheses) {
        let k = choose|k: int|
            0 <= k < w2.len() && w2[k] == TokenizeWarning::UnbalancedParentheses;
        if k < ws.len() {
            assert(ws[k] == w2[k]);
        }
    }
}

/// The invariant before reading `c`, for the input `p` that ends before it.
spec fn step_context(s: Seq<char>, p: Seq<char>, c: char, st: TokenizerState) -> bool {
    &&& s.len() > 0
    &&& p == s.drop_last()
    &&& c == s.last()
    &&& tokenizer_invariant(p, st)
}

proof fn lemma_case_white_space(s: Seq<char>, p: Seq<char>, c: char, st: TokenizerState)
    requires
        step_context(s, p, c, st),
        is_white_space(c),
    ensures
        tokenizer_invariant(s, tokenize_step(st, c)),
{
    assert(tokenize_step(st, c) == st);
}

proof fn lemma_case_numeral(s: Seq<char>, p: Seq<char>, c: char, st: TokenizerState)
    requires
        step_context(s, p, c, st),
        !is_white_space(c),
        is_digit_or_dot(c),
    ensures
        tokenizer_invariant(s, tokenize_step(st, c)),
{
    let nx = tokenize_step(st, c);
    let cur = st.current.push(c);
    assert(nx.tokens == st.tokens && nx.current == cur && nx.depth == st.depth && nx.warnings
        == st.warnings);
    assert(concat_all(st.tokens) + cur =~= (concat_all(st.tokens) + st.current).push(c));
    assert forall|i: int| 1 <= i < cur.len() implies is_digit_or_dot(#[trigger] cur[i]) by {
        if i < st.current.len() {
            assert(cur[i] == st.current[i]);
        }
    }
}

proof fn lemma_case_parenthesis(s: Seq<char>, p: Seq<char>, c: char, st: TokenizerState)
    requires
        step_context(s, p, c, st),
        c == '(' || c == ')',
    ensures
        tokenizer_invariant(s, tokenize_step(st, c)),
{
    let nx = tokenize_step(st, c);
    let f = flushed(st.tokens, st.current);
    lemma_flushed(st.tokens, st.current);
    assert(nx.tokens == f.push(seq![c]));
    assert(nx.current == Seq::<char>::empty());
    if c == ')' && st.depth - 1 < 0 {
        assert(nx.warnings == st.warnings.push(TokenizeWarning::UnmatchedClosingParenthesis));
        lemma_push_other_warning(st.warnings, TokenizeWarning::UnmatchedClosingParenthesis);
    } else {
        assert(nx.warnings == st.warnings);
    }
    lemma_concat_push(f, seq![c]);
    lemma_push_shape(f, seq![c]);
    assert(concat_all(f) + seq![c] =~= (concat_all(st.tokens) + st.current).push(c));
    assert(concat_all(nx.tokens) + nx.current =~= concat_all(nx.tokens));
}

proof fn lemma_case_operator(s: Seq<char>, p: Seq<char>, c: char, st: TokenizerState)
    requires
        step_context(s, p, c, st),
        is_operator_char(c),
    ensures
        tokenizer_invariant(s, tokenize_step(st, c)),
{
    let nx = tokenize_step(st, c);
    let f = flushed(st.tokens, st.current);
    lemma_flushed(st.tokens, st.current);
    assert(nx.warnings == st.warnings && nx.depth == st.depth);
    if c == '-' && minus_is_unary(f) {
        let cur: Seq<char> = seq!['-'];
        assert(nx.tokens == f && nx.current == cur);
        assert(concat_all(f) + cur =~= (concat_all(st.tokens) + st.current).push(c));
        assert(is_numeral_shape(cur));
    } else {
        assert(nx.tokens == f.push(seq![c]) && nx.current == Seq::<char>::empty());
        lemma_concat_push(f, seq![c]);
        assert(is_operator_token(seq![c]));
        lemma_push_shape(f, seq![c]);
        assert(concat_all(f) + seq![c] =~= (concat_all(st.tokens) + st.current).push(c));
        assert(concat_all(nx.tokens) + nx.current =~= concat_all(nx.tokens));
    }
}

proof fn lemma_case_invalid(s: Seq<char>, p: Seq<char>, c: char, st: TokenizerState)
    requires
        step_context(s, p, c, st),
        !is_white_space(c),
        !is_token_char(c),
    ensures
        tokenizer_invariant(s, tokenize_step(st, c)),
{
    let nx = tokenize_step(st, c);
    assert(nx.tokens == st.tokens && nx.current == st.current && nx.depth == st.depth);
    assert(nx.warnings == st.warnings.push(TokenizeWarning::InvalidCharacter(c)));
    lemma_push_other_warning(st.warnings, TokenizeWarning::InvalidCharacter(c));
}

/// The tokenizer's invariant holds after every prefix.
proof fn lemma_tokenizer_invariant(s: Seq<char>)
    ensures
        tokenizer_invariant(s, tokenize_state(s)),
    decreases s.len(),
{
    if s.len() == 0 {
        assert(concat_all(Seq::<Seq<char>>::empty()) + Seq::<char>::empty()
            =~= Seq::<char>::empty());
        let e = Seq::<TokenizeWarning>::empty();
        assert(!e.contains(TokenizeWarning::UnbalancedParentheses));
    } else {
        let p = s.drop_last();
        let c = s.last();
        lemma_tokenizer_invariant(p);
        let st = tokenize_state(p);
        assert(tokenize_state(s) == tokenize_step(st, c));
        if is_white_space(c) {
            lemma_case_white_space(s, p, c, st);
        } else if is_digit_or_dot(c) {
            lemma_case_numeral(s, p, c, st);
        } else if c == '(' || c == ')' {
            lemma_case_parenthesis(s, p, c, st);
        } else if is_operator_char(c) {
            lemma_case_operator(s, p, c, st);
        } else {
            lemma_case_invalid(s, p, c, st);
        }
    }
}

/// Written one after the other, the tokens spell the input with every
/// character dropped that is not a digit, `.`, parenthesis or operator.
pub proof fn law_tokens_spell_input(s: Seq<char>)
    ensures
        concat_all(tokens_of(s)) == token_chars(s),
{
    lemma_tokenizer_invariant(s);
    let st = tokenize_state(s);
    lemma_flushed(st.tokens, st.current);
}

/// Every token is `(`, `)`, an operator, or a run of digits and dots that
/// may start with `-`; in particular no token is empty.
pub proof fn law_token_shapes(s: Seq<char>)
    ensures
        forall|i: int| 0 <= i < tokens_of(s).len() ==> is_token_shape(#[trigger] tokens_of(s)[i]),
        forall|i: int| 0 <= i < tokens_of(s).len() ==> (#[trigger] tokens_of(s)[i]).len() > 0,
{
    lemma_tokenizer_invariant(s);
    let st = tokenize_state(s);
    lemma_flushed(st.tokens, st.current);
    assert forall|i: int| 0 <= i < tokens_of(s).len() implies (#[trigger] tokens_of(s)[i]).len()
        > 0 by {
        assert(is_token_shape(tokens_of(s)[i]));
    }
}

/// The unbalanced-parentheses warning is given exactly when the input
/// holds different numbers of `(` and `)`.
pub proof fn law_unbalanced_warning(s: Seq<char>)
    ensures
        warnings_of(s).contains(TokenizeWarning::UnbalancedParentheses) <==> count_char(s, '(')
            != count_char(s, ')'),
{
    lemma_tokenizer_invariant(s);
    let st = tokenize_state(s);
    if st.depth != 0 {
        let w = st.warnings.push(TokenizeWarning::UnbalancedParentheses);
        assert(w[w.len() - 1] == TokenizeWarning::UnbalancedParentheses);
    }
}

} // verus!

verus! {

/// `s` with every whitespace character removed.
pub open spec fn without_white_space(s: Seq<char>) -> Seq<char>
    decreases s.len(),
{
    if s.len() == 0 {
        seq![]
    } else if is_white_space(s.last()) {
        without_white_space(s.drop_last())
    } else {
        without_white_space(s.drop_last()).push(s.last())
    }
}

proof fn lemma_state_ignores_white_space(s: Seq<char>)
    ensures
        tokenize_state(s) == tokenize_state(without_white_space(s)),
    decreases s.len(),
{
    if s.len() > 0 {
        lemma_state_ignores_white_space(s.drop_last());
        let w = without_white_space(s.drop_last());
        if !is_white_space(s.last()) {
            let w2 = w.push(s.last());
            assert(w2.drop_last() =~= w);
            assert(w2.last() == s.last());
        }
    }
}

/// Whitespace is insignificant: removing every whitespace character from
/// the input changes neither the tokens nor the warnings.
pub proof fn law_white_space_insignificant(s: Seq<char>)
    ensures
        tokens_of(s) == tokens_of(without_white_space(s)),
        warnings_of(s) == warnings_of(without_white_space(s)),
{
    lemma_state_ignores_white_space(s);
}

/// A whitespace character between two parts of the input changes nothing:
/// `a`, a space, then `b` tokenizes as `a` followed directly by `b`.
pub proof fn law_white_space_between(a: Seq<char>, c: char, b: Seq<char>)
    requires
        is_white_space(c),
    ensures
        tokens_of(a + seq![c] + b) == tokens_of(a + b),
        warnings_of(a + seq![c] + b) == warnings_of(a + b),
{
    lemma_without_white_space_concat(a + seq![c], b);
    lemma_without_white_space_concat(a, seq![c]);
    lemma_without_white_space_concat(a, b);
    assert(seq![c].drop_last() =~= Seq::<char>::empty());
    assert(seq![c].last() == c);
    assert(without_white_space(Seq::<char>::empty()) == Seq::<char>::empty());
    assert(without_white_space(seq![c]) == Seq::<char>::empty());
    assert(without_white_space(a) + Seq::<char>::empty() =~= without_white_space(a));
    law_white_space_insignificant(a + seq![c] + b);
    law_white_space_insignificant(a + b);
}

proof fn lemma_without_white_space_concat(a: Seq<char>, b: Seq<char>)
    ensures
        without_white_space(a + b) == without_white_space(a) + without_white_space(b),
    decreases b.len(),
{
    if b.len() == 0 {
        assert(a + b =~= a);
        assert(without_white_space(a) + without_white_space(b) =~= without_white_space(a));
    } else {
        assert((a + b).drop_last() =~= a + b.drop_last());
        assert((a + b).last() == b.last());
        lemma_without_white_space_concat(a, b.drop_last());
        if !is_white_space(b.last()) {
            assert(without_white_space(a) + without_white_space(b.drop_last()).push(b.last())
                =~= (without_white_space(a) + without_white_space(b.drop_last())).push(b.last()));
        }
    }
}

} // verus!
