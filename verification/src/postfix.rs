//! Converting infix tokens to postfix order, and the bookkeeping of a
//! postfix evaluation.

use vstd::prelude::*;
use crate::text::{
    is_single_char, string_views, lemma_string_views_push, lemma_string_views_drop_last,
};
use crate::calculator::{Calculator, is_operator_token, precedence};

verus! {

/// A token together with whether it was recognised as a number.
pub type MarkedToken = (Seq<char>, bool);

/// The texts of marked tokens.
pub open spec fn texts(s: Seq<MarkedToken>) -> Seq<Seq<char>> {
    s.map_values(|m: MarkedToken| m.0)
}

proof fn lemma_texts_push(s: Seq<MarkedToken>, m: MarkedToken)
    ensures
        texts(s.push(m)) == texts(s).push(m.0),
{
    assert(texts(s.push(m)) =~= texts(s).push(m.0));
}

/// The state of the conversion: the postfix output so far and the stack
/// of pending operators and open parentheses (top at the end).
pub struct ConversionState {
    pub output: Seq<MarkedToken>,
    pub stack: Seq<Seq<char>>,
}

/// On `)`: moves operators from the stack to the output until an open
/// parenthesis, which is dropped, or until the stack is empty.
pub open spec fn pop_to_open(output: Seq<MarkedToken>, stack: Seq<Seq<char>>) -> ConversionState
    decreases stack.len(),
{
    if stack.len() == 0 {
        ConversionState { output, stack }
    } else if stack.last() == seq!['('] {
        ConversionState { output, stack: stack.drop_last() }
    } else {
        pop_to_open(output.push((stack.last(), false)), stack.drop_last())
    }
}

/// Before pushing operator `t`: moves operators from the stack to the
/// output while the top is not `(` and binds at least as tightly as `t`.
pub open spec fn pop_binding(
    output: Seq<MarkedToken>,
    stack: Seq<Seq<char>>,
    t: Seq<char>,
) -> ConversionState
    decreases stack.len(),
{
    if stack.len() == 0 || stack.last() == seq!['('] || precedence(stack.last()) < precedence(t) {
        ConversionState { output, stack }
    } else {
        pop_binding(output.push((stack.last(), false)), stack.drop_last(), t)
    }
}

/// At the end: moves the whole stack, top first, to the output.
pub open spec fn drain(output: Seq<MarkedToken>, stack: Seq<Seq<char>>) -> Seq<MarkedToken>
    decreases stack.len(),
{
    if stack.len() == 0 {
        output
    } else {
        drain(output.push((stack.last(), false)), stack.drop_last())
    }
}

/// The effect of one token `t`; `number` tells whether it is a number.
pub open spec fn conversion_step(st: ConversionState, t: Seq<char>, number: bool) -> ConversionState {
    if number {
        ConversionState { output: st.output.push((t, true)), stack: st.stack }
    } else if t == seq!['('] {
        ConversionState { output: st.output, stack: st.stack.push(t) }
    } else if t == seq![')'] {
        pop_to_open(st.output, st.stack)
    } else if is_operator_token(t) {
        let r = pop_binding(st.output, st.stack, t);
        ConversionState { output: r.output, stack: r.stack.push(t) }
    } else {
        st
    }
}

/// The state after the first `n` tokens.
pub open spec fn conversion_upto(tokens: Seq<Seq<char>>, numbers: Seq<bool>, n: nat) -> ConversionState
    decreases n,
{
    if n == 0 {
        ConversionState { output: seq![], stack: seq![] }
    } else {
        conversion_step(
            conversion_upto(tokens, numbers, (n - 1) as nat),
            tokens[n - 1],
            numbers[n - 1],
        )
    }
}

/// The postfix sequence, each token marked as it was.
pub open spec fn postfix_marked(tokens: Seq<Seq<char>>, numbers: Seq<bool>) -> Seq<MarkedToken> {
    let st = conversion_upto(tokens, numbers, tokens.len());
    drain(st.output, st.stack)
}

/// The postfix form of `tokens`, where `numbers[i]` tells whether
/// `tokens[i]` is a number.
pub open spec fn postfix_of(tokens: Seq<Seq<char>>, numbers: Seq<bool>) -> Seq<Seq<char>> {
    texts(postfix_marked(tokens, numbers))
}

impl Calculator {
    /// Converts infix tokens to postfix notation.  `number_flags[i]` tells
    /// whether `tokens[i]` is a number (see `is_number`).
    pub fn infix_to_postfix(tokens: &[String], number_flags: &[bool]) -> (postfix: Vec<String>)
        requires
            number_flags@.len() == tokens@.len(),
        ensures
            string_views(postfix@) == postfix_of(string_views(tokens@), number_flags@),
    {
        let ghost toks = string_views(tokens@);
        let mut postfix: Vec<String> = Vec::new();
        let mut op_stack: Vec<String> = Vec::new();
        let ghost mut out: Seq<MarkedToken> = seq![];
        assert(string_views(postfix@) =~= texts(out));
        assert(string_views(op_stack@) =~= Seq::<Seq<char>>::empty());
        let mut i: usize = 0;
        while i < tokens.len()
            invariant
                i <= tokens@.len(),
                number_flags@.len() == tokens@.len(),
                toks == string_views(tokens@),
                string_views(postfix@) == texts(out),
                conversion_upto(toks, number_flags@, i as nat) == (ConversionState {
                    output: out,
                    stack: string_views(op_stack@),
                }),
            decreases tokens.len() - i,
        {
            let token = &tokens[i];
            assert(toks[i as int] == token@);
            if number_flags[i] {
                let t = token.clone();
                proof {
                    lemma_string_views_push(postfix@, t);
                    lemma_texts_push(out, (t@, true));
                    out = out.push((t@, true));
                }
                postfix.push(t);
            } else if is_single_char(token.as_str(), '(') {
                let t = token.clone();
                proof {
                    lemma_string_views_push(op_stack@, t);
                }
                op_stack.push(t);
            } else if is_single_char(token.as_str(), ')') {
                let ghost out0 = out;
                let ghost stk0 = string_views(op_stack@);
                loop
                    invariant_except_break
                        pop_to_open(out, string_views(op_stack@)) == pop_to_open(out0, stk0),
                        string_views(postfix@) == texts(out),
                    ensures
                        (ConversionState { output: out, stack: string_views(op_stack@) })
                            == pop_to_open(out0, stk0),
                        string_views(postfix@) == texts(out),
                    decreases op_stack@.len(),
                {
                    let ghost before_pop = op_stack@;
                    match op_stack.pop() {
                        None => {
                            break;
                        },
                        Some(top) => {
                            proof {
                                lemma_string_views_drop_last(before_pop);
                            }
                            if is_single_char(top.as_str(), '(') {
                                break;
                            }
                            proof {
                                lemma_string_views_push(postfix@, top);
                                lemma_texts_push(out, (top@, false));
                                out = out.push((top@, false));
                            }
                            postfix.push(top);
                        },
                    }
                }
            } else if Calculator::is_operator(token.as_str()) {
                let ghost out0 = out;
                let ghost stk0 = string_views(op_stack@);
                loop
                    invariant_except_break
                        pop_binding(out, string_views(op_stack@), token@) == pop_binding(
                            out0,
                            stk0,
                            token@,
                        ),
                        string_views(postfix@) == texts(out),
                    ensures
                        (ConversionState { output: out, stack: string_views(op_stack@) })
                            == pop_binding(out0, stk0, token@),
                        string_views(postfix@) == texts(out),
                    decreases op_stack@.len(),
                {
                    let n = op_stack.len();
                    if n == 0 {
                        break;
                    }
                    proof {
                        lemma_string_views_drop_last(op_stack@);
                    }
                    if is_single_char(op_stack[n - 1].as_str(), '(')
                        || Calculator::get_precedence(op_stack[n - 1].as_str())
                        < Calculator::get_precedence(token.as_str()) {
                        break;
                    }
                    let top = op_stack.pop().unwrap();
                    proof {
                        lemma_string_views_push(postfix@, top);
                        lemma_texts_push(out, (top@, false));
                        out = out.push((top@, false));
                    }
                    postfix.push(top);
                }
                let t = token.clone();
                proof {
                    lemma_string_views_push(op_stack@, t);
                }
                op_stack.push(t);
            }
            i = i + 1;
        }
        let ghost out0 = out;
        let ghost stk0 = string_views(op_stack@);
        while op_stack.len() > 0
            invariant
                drain(out, string_views(op_stack@)) == drain(out0, stk0),
                string_views(postfix@) == texts(out),
            decreases op_stack@.len(),
        {
            proof {
                lemma_string_views_drop_last(op_stack@);
            }
            let top = op_stack.pop().unwrap();
            proof {
                lemma_string_views_push(postfix@, top);
                lemma_texts_push(out, (top@, false));
                out = out.push((top@, false));
            }
            postfix.push(top);
        }
        assert(string_views(op_stack@) =~= Seq::<Seq<char>>::empty());
        postfix
    }
}

} // verus!

verus! {

/// The input tokens, each marked as it was.
pub open spec fn marked_input(tokens: Seq<Seq<char>>, numbers: Seq<bool>, n: nat) -> Seq<MarkedToken> {
    Seq::new(n, |i: int| (tokens[i], numbers[i]))
}

/// The texts of the tokens marked as numbers, in order.
pub open spec fn numbers_in(s: Seq<MarkedToken>) -> Seq<Seq<char>>
    decreases s.len(),
{
    if s.len() == 0 {
        seq![]
    } else if s.last().1 {
        numbers_in(s.drop_last()).push(s.last().0)
    } else {
        numbers_in(s.drop_last())
    }
}

/// How many tokens of `s` not marked as numbers read `t`.
pub open spec fn count_unmarked(s: Seq<MarkedToken>, t: Seq<char>) -> int
    decreases s.len(),
{
    if s.len() == 0 {
        0
    } else {
        count_unmarked(s.drop_last(), t) + if !s.last().1 && s.last().0 == t { 1int } else { 0int }
    }
}

/// How many entries of `s` read `t`.
pub open spec fn count_text(s: Seq<Seq<char>>, t: Seq<char>) -> int
    decreases s.len(),
{
    if s.len() == 0 {
        0
    } else {
        count_text(s.drop_last(), t) + if s.last() == t { 1int } else { 0int }
    }
}

/// What the conversion keeps true of its output and stack, measured against
/// the marked input read so far.
pub open spec fn conversion_sound(
    output: Seq<MarkedToken>,
    stack: Seq<Seq<char>>,
    input: Seq<MarkedToken>,
) -> bool {
    &&& numbers_in(output) == numbers_in(input)
    &&& forall|i: int| 0 <= i < output.len() && !(#[trigger] output[i]).1 ==> is_operator_token(output[i].0)
    &&& forall|i: int| 0 <= i < stack.len() ==> is_operator_token(#[trigger] stack[i]) || stack[i] == seq!['(']
    &&& forall|o: Seq<char>| is_operator_token(o) ==> count_unmarked(output, o) + count_text(stack, o)
        == #[trigger] count_unmarked(input, o)
}

proof fn lemma_numbers_push(s: Seq<MarkedToken>, m: MarkedToken)
    ensures
        numbers_in(s.push(m)) == if m.1 { numbers_in(s).push(m.0) } else { numbers_in(s) },
        forall|o: Seq<char>| #[trigger] count_unmarked(s.push(m), o) == count_unmarked(s, o) + if !m.1 && m.0 == o { 1int } else { 0int },
{
    assert(s.push(m).drop_last() =~= s);
}

proof fn lemma_count_text_push(s: Seq<Seq<char>>, t: Seq<char>)
    ensures
        forall|o: Seq<char>| #[trigger] count_text(s.push(t), o) == count_text(s, o) + if t == o { 1int } else { 0int },
{
    assert(s.push(t).drop_last() =~= s);
}

/// Moving the top of the stack to the output keeps the conversion sound.
proof fn lemma_move_top(output: Seq<MarkedToken>, stack: Seq<Seq<char>>, input: Seq<MarkedToken>)
    requires
        conversion_sound(output, stack, input),
        stack.len() > 0,
        is_operator_token(stack.last()),
    ensures
        conversion_sound(output.push((stack.last(), false)), stack.drop_last(), input),
{
    let out2 = output.push((stack.last(), false));
    let st2 = stack.drop_last();
    lemma_numbers_push(output, (stack.last(), false));
    assert forall|i: int| 0 <= i < out2.len() && !(#[trigger] out2[i]).1 implies is_operator_token(out2[i].0) by {
        if i < output.len() {
            assert(out2[i] == output[i]);
        }
    }
    assert forall|i: int| 0 <= i < st2.len() implies is_operator_token(#[trigger] st2[i]) || st2[i] == seq!['('] by {
        assert(st2[i] == stack[i]);
    }
}

proof fn lemma_pop_to_open_sound(output: Seq<MarkedToken>, stack: Seq<Seq<char>>, input: Seq<MarkedToken>)
    requires
        conversion_sound(output, stack, input),
    ensures
        conversion_sound(pop_to_open(output, stack).output, pop_to_open(output, stack).stack, input),
    decreases stack.len(),
{
    if stack.len() == 0 {
    } else if stack.last() == seq!['('] {
        let st2 = stack.drop_last();
        assert forall|i: int| 0 <= i < st2.len() implies is_operator_token(#[trigger] st2[i]) || st2[i] == seq!['('] by {
            assert(st2[i] == stack[i]);
        }
        assert forall|o: Seq<char>| is_operator_token(o) implies count_unmarked(output, o) + count_text(st2, o)
            == #[trigger] count_unmarked(input, o) by {
            assert(o != seq!['(']);
        }
    } else {
        assert(is_operator_token(stack[stack.len() - 1]));
        lemma_move_top(output, stack, input);
        lemma_pop_to_open_sound(output.push((stack.last(), false)), stack.drop_last(), input);
    }
}

proof fn lemma_pop_binding_sound(
    output: Seq<MarkedToken>,
    stack: Seq<Seq<char>>,
    t: Seq<char>,
    input: Seq<MarkedToken>,
)
    requires
        conversion_sound(output, stack, input),
    ensures
        conversion_sound(pop_binding(output, stack, t).output, pop_binding(output, stack, t).stack, input),
    decreases stack.len(),
{
    if stack.len() == 0 || stack.last() == seq!['('] || precedence(stack.last()) < precedence(t) {
    } else {
        assert(is_operator_token(stack[stack.len() - 1]));
        lemma_move_top(output, stack, input);
        lemma_pop_binding_sound(output.push((stack.last(), false)), stack.drop_last(), t, input);
    }
}

proof fn lemma_drain_sound(output: Seq<MarkedToken>, stack: Seq<Seq<char>>, input: Seq<MarkedToken>)
    requires
        numbers_in(output) == numbers_in(input),
        forall|i: int| 0 <= i < output.len() && !(#[trigger] output[i]).1 ==> is_operator_token(output[i].0) || output[i].0 == seq!['('],
        forall|i: int| 0 <= i < stack.len() ==> is_operator_token(#[trigger] stack[i]) || stack[i] == seq!['('],
        forall|o: Seq<char>| is_operator_token(o) ==> count_unmarked(output, o) + count_text(stack, o)
            == #[trigger] count_unmarked(input, o),
    ensures
        numbers_in(drain(output, stack)) == numbers_in(input),
        forall|i: int| 0 <= i < drain(output, stack).len() && !(#[trigger] drain(output, stack)[i]).1
            ==> is_operator_token(drain(output, stack)[i].0) || drain(output, stack)[i].0 == seq!['('],
        forall|o: Seq<char>| is_operator_token(o) ==> #[trigger] count_unmarked(drain(output, stack), o)
            == count_unmarked(input, o),
    decreases stack.len(),
{
    if stack.len() > 0 {
        let m = (stack.last(), false);
        let out2 = output.push(m);
        let st2 = stack.drop_last();
        lemma_numbers_push(output, m);
        assert forall|i: int| 0 <= i < out2.len() && !(#[trigger] out2[i]).1 implies is_operator_token(out2[i].0) || out2[i].0 == seq!['('] by {
            if i < output.len() {
                assert(out2[i] == output[i]);
            } else {
                assert(stack[stack.len() - 1] == stack.last());
            }
        }
        assert forall|i: int| 0 <= i < st2.len() implies is_operator_token(#[trigger] st2[i]) || st2[i] == seq!['('] by {
            assert(st2[i] == stack[i]);
        }
        lemma_drain_sound(out2, st2, input);
    }
}

/// The conversion is sound after every prefix of the input.
proof fn lemma_conversion_sound(tokens: Seq<Seq<char>>, numbers: Seq<bool>, n: nat)
    requires
        n <= tokens.len(),
        numbers.len() == tokens.len(),
    ensures
        conversion_sound(
            conversion_upto(tokens, numbers, n).output,
            conversion_upto(tokens, numbers, n).stack,
            marked_input(tokens, numbers, n),
        ),
    decreases n,
{
    if n == 0 {
        assert(marked_input(tokens, numbers, 0) =~= Seq::<MarkedToken>::empty());
    } else {
        let k = (n - 1) as nat;
        lemma_conversion_sound(tokens, numbers, k);
        let st = conversion_upto(tokens, numbers, k);
        let before = marked_input(tokens, numbers, k);
        let input = marked_input(tokens, numbers, n);
        let t = tokens[k as int];
        let m = (t, numbers[k as int]);
        assert(input =~= before.push(m));
        lemma_numbers_push(before, m);
        let nx = conversion_upto(tokens, numbers, n);
        assert(nx == conversion_step(st, t, numbers[k as int]));
        if numbers[k as int] {
            lemma_numbers_push(st.output, m);
            let out2 = st.output.push(m);
            assert forall|i: int| 0 <= i < out2.len() && !(#[trigger] out2[i]).1 implies is_operator_token(out2[i].0) by {
                if i < st.output.len() {
                    assert(out2[i] == st.output[i]);
                }
            }
        } else if t == seq!['('] {
            lemma_count_text_push(st.stack, t);
            let st2 = st.stack.push(t);
            assert forall|i: int| 0 <= i < st2.len() implies is_operator_token(#[trigger] st2[i]) || st2[i] == seq!['('] by {
                if i < st.stack.len() {
                    assert(st2[i] == st.stack[i]);
                }
            }
            assert forall|o: Seq<char>| is_operator_token(o) implies count_unmarked(st.output, o) + count_text(st2, o)
                == #[trigger] count_unmarked(input, o) by {
                assert(o != t);
                assert(count_unmarked(before, o) == count_unmarked(st.output, o) + count_text(st.stack, o));
            }
        } else if t == seq![')'] {
            assert forall|o: Seq<char>| is_operator_token(o) implies count_unmarked(st.output, o) + count_text(st.stack, o)
                == #[trigger] count_unmarked(input, o) by {
                assert(o != t);
                assert(count_unmarked(before, o) == count_unmarked(st.output, o) + count_text(st.stack, o));
            }
            lemma_pop_to_open_sound(st.output, st.stack, input);
        } else if is_operator_token(t) {
            assert forall|o: Seq<char>| is_operator_token(o) implies count_unmarked(st.output, o) + count_text(st.stack, o)
                + (if t == o { 1int } else { 0int }) == #[trigger] count_unmarked(input, o) by {
                assert(count_unmarked(before, o) == count_unmarked(st.output, o) + count_text(st.stack, o));
            }
            let r = pop_binding(st.output, st.stack, t);
            // soundness against the input without `t` on the stack yet
            assert(conversion_sound(st.output, st.stack, before));
            lemma_pop_binding_sound(st.output, st.stack, t, before);
            lemma_count_text_push(r.stack, t);
            let st2 = r.stack.push(t);
            assert forall|i: int| 0 <= i < st2.len() implies is_operator_token(#[trigger] st2[i]) || st2[i] == seq!['('] by {
                if i < r.stack.len() {
                    assert(st2[i] == r.stack[i]);
                }
            }
            assert forall|o: Seq<char>| is_operator_token(o) implies count_unmarked(r.output, o) + count_text(st2, o)
                == #[trigger] count_unmarked(input, o) by {
                assert(count_unmarked(before, o) == count_unmarked(r.output, o) + count_text(r.stack, o));
            }
        } else {
            assert forall|o: Seq<char>| is_operator_token(o) implies count_unmarked(st.output, o) + count_text(st.stack, o)
                == #[trigger] count_unmarked(input, o) by {
                assert(o != t);
                assert(count_unmarked(before, o) == count_unmarked(st.output, o) + count_text(st.stack, o));
            }
        }
    }
}

/// The numbers come out in the order in which they came in, none lost and
/// none added.
pub proof fn law_postfix_keeps_numbers(tokens: Seq<Seq<char>>, numbers: Seq<bool>)
    requires
        numbers.len() == tokens.len(),
    ensures
        numbers_in(postfix_marked(tokens, numbers)) == numbers_in(
            marked_input(tokens, numbers, tokens.len()),
        ),
{
    lemma_postfix_sound(tokens, numbers);
}

/// Every operator of the input comes out exactly once.
pub proof fn law_postfix_keeps_operators(tokens: Seq<Seq<char>>, numbers: Seq<bool>, o: Seq<char>)
    requires
        numbers.len() == tokens.len(),
        is_operator_token(o),
    ensures
        count_unmarked(postfix_marked(tokens, numbers), o) == count_unmarked(
            marked_input(tokens, numbers, tokens.len()),
            o,
        ),
{
    lemma_postfix_sound(tokens, numbers);
}

/// Besides numbers, the output holds only operators and `(`: a `)` never
/// comes out.
pub proof fn law_postfix_shape(tokens: Seq<Seq<char>>, numbers: Seq<bool>)
    requires
        numbers.len() == tokens.len(),
    ensures
        forall|i: int|
            0 <= i < postfix_marked(tokens, numbers).len() && !(#[trigger] postfix_marked(
                tokens,
                numbers,
            )[i]).1 ==> is_operator_token(postfix_marked(tokens, numbers)[i].0)
                || postfix_marked(tokens, numbers)[i].0 == seq!['('],
{
    lemma_postfix_sound(tokens, numbers);
}

proof fn lemma_postfix_sound(tokens: Seq<Seq<char>>, numbers: Seq<bool>)
    requires
        numbers.len() == tokens.len(),
    ensures
        numbers_in(postfix_marked(tokens, numbers)) == numbers_in(
            marked_input(tokens, numbers, tokens.len()),
        ),
        forall|i: int|
            0 <= i < postfix_marked(tokens, numbers).len() && !(#[trigger] postfix_marked(
                tokens,
                numbers,
            )[i]).1 ==> is_operator_token(postfix_marked(tokens, numbers)[i].0)
                || postfix_marked(tokens, numbers)[i].0 == seq!['('],
        forall|o: Seq<char>|
            is_operator_token(o) ==> #[trigger] count_unmarked(postfix_marked(tokens, numbers), o)
                == count_unmarked(marked_input(tokens, numbers, tokens.len()), o),
{
    lemma_conversion_sound(tokens, numbers, tokens.len());
    let st = conversion_upto(tokens, numbers, tokens.len());
    lemma_drain_sound(st.output, st.stack, marked_input(tokens, numbers, tokens.len()));
}

} // verus!

verus! {

/// The nesting depth after the marked tokens `m`: each unmarked `(`
/// opens, each unmarked `)` closes.
pub open spec fn paren_depth(m: Seq<MarkedToken>) -> int
    decreases m.len(),
{
    if m.len() == 0 {
        0
    } else {
        paren_depth(m.drop_last()) + if !m.last().1 && m.last().0 == seq!['('] {
            1int
        } else if !m.last().1 && m.last().0 == seq![')'] {
            -1int
        } else {
            0int
        }
    }
}

/// Every `)` closes an earlier `(`, and every `(` is closed.
pub open spec fn properly_nested(m: Seq<MarkedToken>) -> bool {
    &&& forall|k: int| 0 <= k <= m.len() ==> paren_depth(#[trigger] m.take(k)) >= 0
    &&& paren_depth(m) == 0
}

spec fn stack_entries_valid(stack: Seq<Seq<char>>) -> bool {
    forall|i: int| 0 <= i < stack.len() ==> is_operator_token(#[trigger] stack[i]) || stack[i] == seq!['(']
}

proof fn lemma_open_is_not_operator()
    ensures
        !is_operator_token(seq!['(']),
        !is_operator_token(seq![')']),
        seq!['('] != seq![')'],
{
    assert(seq!['('][0] == '(');
    assert(seq![')'][0] == ')');
}

proof fn lemma_valid_drop_last(stack: Seq<Seq<char>>)
    requires
        stack_entries_valid(stack),
        stack.len() > 0,
    ensures
        stack_entries_valid(stack.drop_last()),
        is_operator_token(stack.last()) || stack.last() == seq!['('],
{
    assert forall|i: int| 0 <= i < stack.drop_last().len() implies is_operator_token(
        #[trigger] stack.drop_last()[i],
    ) || stack.drop_last()[i] == seq!['('] by {
        assert(stack.drop_last()[i] == stack[i]);
    }
    assert(stack[stack.len() - 1] == stack.last());
}

proof fn lemma_pop_binding_keeps_opens(output: Seq<MarkedToken>, stack: Seq<Seq<char>>, t: Seq<char>)
    requires
        stack_entries_valid(stack),
    ensures
        count_text(pop_binding(output, stack, t).stack, seq!['(']) == count_text(stack, seq!['(']),
    decreases stack.len(),
{
    if !(stack.len() == 0 || stack.last() == seq!['('] || precedence(stack.last()) < precedence(t)) {
        lemma_valid_drop_last(stack);
        lemma_pop_binding_keeps_opens(output.push((stack.last(), false)), stack.drop_last(), t);
    }
}

proof fn lemma_pop_to_open_drops_one(output: Seq<MarkedToken>, stack: Seq<Seq<char>>)
    requires
        stack_entries_valid(stack),
        count_text(stack, seq!['(']) >= 1,
    ensures
        count_text(pop_to_open(output, stack).stack, seq!['(']) == count_text(stack, seq!['(']) - 1,
    decreases stack.len(),
{
    lemma_valid_drop_last(stack);
    if stack.last() != seq!['('] {
        lemma_pop_to_open_drops_one(output.push((stack.last(), false)), stack.drop_last());
    }
}

proof fn lemma_count_text_nonnegative(s: Seq<Seq<char>>, t: Seq<char>)
    ensures
        count_text(s, t) >= 0,
    decreases s.len(),
{
    if s.len() > 0 {
        lemma_count_text_nonnegative(s.drop_last(), t);
    }
}

proof fn lemma_no_open_all_operators(stack: Seq<Seq<char>>)
    requires
        stack_entries_valid(stack),
        count_text(stack, seq!['(']) == 0,
    ensures
        forall|i: int| 0 <= i < stack.len() ==> is_operator_token(#[trigger] stack[i]),
    decreases stack.len(),
{
    if stack.len() > 0 {
        lemma_valid_drop_last(stack);
        lemma_count_text_nonnegative(stack.drop_last(), seq!['(']);
        lemma_no_open_all_operators(stack.drop_last());
        assert forall|i: int| 0 <= i < stack.len() implies is_operator_token(#[trigger] stack[i]) by {
            if i < stack.len() - 1 {
                assert(stack[i] == stack.drop_last()[i]);
            }
        }
    }
}

proof fn lemma_drain_operators(output: Seq<MarkedToken>, stack: Seq<Seq<char>>)
    requires
        forall|i: int| 0 <= i < output.len() && !(#[trigger] output[i]).1 ==> is_operator_token(output[i].0),
        forall|i: int| 0 <= i < stack.len() ==> is_operator_token(#[trigger] stack[i]),
    ensures
        forall|i: int| 0 <= i < drain(output, stack).len() && !(#[trigger] drain(output, stack)[i]).1
            ==> is_operator_token(drain(output, stack)[i].0),
    decreases stack.len(),
{
    if stack.len() > 0 {
        let out2 = output.push((stack.last(), false));
        assert forall|i: int| 0 <= i < out2.len() && !(#[trigger] out2[i]).1 implies is_operator_token(out2[i].0) by {
            if i < output.len() {
                assert(out2[i] == output[i]);
            } else {
                assert(stack[stack.len() - 1] == stack.last());
            }
        }
        assert forall|i: int| 0 <= i < stack.drop_last().len() implies is_operator_token(
            #[trigger] stack.drop_last()[i],
        ) by {
            assert(stack.drop_last()[i] == stack[i]);
        }
        lemma_drain_operators(out2, stack.drop_last());
        assert(drain(output, stack) == drain(out2, stack.drop_last()));
    } else {
        assert(drain(output, stack) == output);
    }
}

/// While no prefix closes more than it opened, the stack holds as many
/// `(` as are open.
proof fn lemma_open_count(tokens: Seq<Seq<char>>, numbers: Seq<bool>, n: nat)
    requires
        n <= tokens.len(),
        numbers.len() == tokens.len(),
        forall|k: int| 0 <= k <= n ==> paren_depth(#[trigger] marked_input(tokens, numbers, n).take(k)) >= 0,
    ensures
        count_text(conversion_upto(tokens, numbers, n).stack, seq!['('])
            == paren_depth(marked_input(tokens, numbers, n)),
    decreases n,
{
    lemma_conversion_sound(tokens, numbers, n);
    if n > 0 {
        let k = (n - 1) as nat;
        let input = marked_input(tokens, numbers, n);
        let before = marked_input(tokens, numbers, k);
        assert(input.drop_last() =~= before);
        assert forall|j: int| 0 <= j <= k implies paren_depth(#[trigger] before.take(j)) >= 0 by {
            assert(before.take(j) =~= input.take(j));
        }
        lemma_open_count(tokens, numbers, k);
        lemma_conversion_sound(tokens, numbers, k);
        let st = conversion_upto(tokens, numbers, k);
        let t = tokens[k as int];
        let num = numbers[k as int];
        assert(input.last() == (t, num));
        assert(conversion_upto(tokens, numbers, n) == conversion_step(st, t, num));
        assert(stack_entries_valid(st.stack));
        lemma_open_is_not_operator();
        assert(input.take(n as int) =~= input);
        if num {
        } else if t == seq!['('] {
            lemma_count_text_push(st.stack, t);
        } else if t == seq![')'] {
            lemma_pop_to_open_drops_one(st.output, st.stack);
        } else if is_operator_token(t) {
            lemma_pop_binding_keeps_opens(st.output, st.stack, t);
            lemma_count_text_push(pop_binding(st.output, st.stack, t).stack, t);
        }
    }
}

/// When the parentheses are properly nested, every `(` is matched during
/// the conversion: besides numbers, only operators come out.
pub proof fn law_nested_parentheses_vanish(tokens: Seq<Seq<char>>, numbers: Seq<bool>)
    requires
        numbers.len() == tokens.len(),
        properly_nested(marked_input(tokens, numbers, tokens.len())),
    ensures
        forall|i: int|
            0 <= i < postfix_marked(tokens, numbers).len() && !(#[trigger] postfix_marked(
                tokens,
                numbers,
            )[i]).1 ==> is_operator_token(postfix_marked(tokens, numbers)[i].0),
{
    let n = tokens.len();
    lemma_open_count(tokens, numbers, n);
    lemma_conversion_sound(tokens, numbers, n);
    let st = conversion_upto(tokens, numbers, n);
    lemma_no_open_all_operators(st.stack);
    lemma_drain_operators(st.output, st.stack);
}

} // verus!
