//! What an expression means: a tree of numbers and operators.  The laws
//! here show that converting the written form of any expression to
//! postfix order, and evaluating that with the calculator's postfix
//! steps, rebuilds exactly that tree, precedence and left associativity
//! included.

use vstd::prelude::*;
use crate::calculator::{is_operator_token, precedence};
use crate::postfix::{
    MarkedToken, texts, ConversionState, conversion_step, conversion_upto, pop_to_open,
    pop_binding, drain, postfix_marked, marked_input,
};
use crate::evaluation::{PostfixStep, postfix_step_of, Operator, EvaluationError, operator_of_token};
use crate::calculator::Calculator;
use crate::text::string_views;
use crate::text::is_white_space;
use crate::tokenizer::{
    TokenizerState, TokenizeWarning, tokenize_step, tokenize_state, initial_tokenizer_state,
    flushed, minus_is_unary, tokens_of, warnings_of, concat_all, is_digit_or_dot,
};

verus! {

/// An arithmetic expression as written: numbers, binary operators and
/// explicit parentheses.
pub enum Expr {
    /// A number token.
    Num(Seq<char>),
    /// An operator token with its left and right operands.
    Op(Seq<char>, Box<Expr>, Box<Expr>),
    /// An operand written in parentheses.
    Group(Box<Expr>),
}

impl Expr {
    pub open spec fn size(self) -> nat
        decreases self,
    {
        match self {
            Expr::Num(_) => 1,
            Expr::Op(_, a, b) => 1 + a.size() + b.size(),
            Expr::Group(x) => 1 + x.size(),
        }
    }

    /// Every operator node holds one of the five operators.
    pub open spec fn wf(self) -> bool
        decreases self,
    {
        match self {
            Expr::Num(_) => true,
            Expr::Op(o, a, b) => is_operator_token(o) && a.wf() && b.wf(),
            Expr::Group(x) => x.wf(),
        }
    }

    /// The tree without its parentheses: what the expression means.
    pub open spec fn meaning(self) -> Expr
        decreases self,
    {
        match self {
            Expr::Num(t) => Expr::Num(t),
            Expr::Op(o, a, b) => Expr::Op(o, Box::new(a.meaning()), Box::new(b.meaning())),
            Expr::Group(x) => x.meaning(),
        }
    }

    /// The weakest binding strength written outside parentheses: the
    /// precedence of the top operator, or 3 for a number or a group.
    pub open spec fn lowest(self) -> int {
        match self {
            Expr::Op(o, _, _) => precedence(o),
            _ => 3,
        }
    }

    /// A left operand needs parentheses under operator `o` when it binds
    /// more weakly than `o`.
    pub open spec fn needs_parens_left(self, o: Seq<char>) -> bool {
        self.lowest() < precedence(o)
    }

    /// A right operand needs parentheses under `o` when it binds no more
    /// tightly than `o` (operators group to the left).
    pub open spec fn needs_parens_right(self, o: Seq<char>) -> bool {
        self.lowest() <= precedence(o)
    }
}

pub open spec fn open_token() -> MarkedToken {
    (seq!['('], false)
}

pub open spec fn close_token() -> MarkedToken {
    (seq![')'], false)
}

/// `r` in parentheses.
pub open spec fn wrapped(r: Seq<MarkedToken>) -> Seq<MarkedToken> {
    seq![open_token()] + r + seq![close_token()]
}

/// The tokens that write `e` down, each marked as number or not, with the
/// parentheses that `e` holds plus those that precedence requires.
pub open spec fn render(e: Expr) -> Seq<MarkedToken>
    decreases e,
{
    match e {
        Expr::Num(t) => seq![(t, true)],
        Expr::Op(o, a, b) => {
            let ra = if a.needs_parens_left(o) { wrapped(render(*a)) } else { render(*a) };
            let rb = if b.needs_parens_right(o) { wrapped(render(*b)) } else { render(*b) };
            ra + seq![(o, false)] + rb
        },
        Expr::Group(x) => wrapped(render(*x)),
    }
}

/// The postfix order of `e`: operands first, then their operator.
pub open spec fn postorder(e: Expr) -> Seq<MarkedToken>
    decreases e,
{
    match e {
        Expr::Num(t) => seq![(t, true)],
        Expr::Op(o, a, b) => postorder(*a) + postorder(*b) + seq![(o, false)],
        Expr::Group(x) => postorder(*x),
    }
}

/// The marks of marked tokens.
pub open spec fn marks(s: Seq<MarkedToken>) -> Seq<bool> {
    s.map_values(|m: MarkedToken| m.1)
}

/// One postfix token applied to the stack of trees built so far, with the
/// calculator's postfix step deciding what happens.
pub open spec fn evaluation_step(values: Option<Seq<Expr>>, m: MarkedToken) -> Option<Seq<Expr>> {
    match values {
        None => None,
        Some(vs) => match postfix_step_of(vs.len(), m.0, m.1) {
            PostfixStep::PushNumber => Some(vs.push(Expr::Num(m.0))),
            PostfixStep::Apply(_) => Some(
                vs.drop_last().drop_last().push(
                    Expr::Op(m.0, Box::new(vs[vs.len() - 2]), Box::new(vs[vs.len() - 1])),
                ),
            ),
            PostfixStep::Fail(_) => None,
            PostfixStep::Skip => Some(vs),
        },
    }
}

/// The postfix tokens `s` applied, in order, to `start`.
pub open spec fn evaluate_from(start: Option<Seq<Expr>>, s: Seq<MarkedToken>) -> Option<Seq<Expr>>
    decreases s.len(),
{
    if s.len() == 0 {
        start
    } else {
        evaluation_step(evaluate_from(start, s.drop_last()), s.last())
    }
}

/// The trees a postfix evaluation leaves, or `None` when it fails.
pub open spec fn evaluate_postfix_trees(s: Seq<MarkedToken>) -> Option<Seq<Expr>> {
    evaluate_from(Some(seq![]), s)
}

/// The marked tokens `m` read, in order, by the conversion from `st`.
pub open spec fn run(st: ConversionState, m: Seq<MarkedToken>) -> ConversionState
    decreases m.len(),
{
    if m.len() == 0 {
        st
    } else {
        conversion_step(run(st, m.drop_last()), m.last().0, m.last().1)
    }
}

/// The operators above the last `(` of the stack all bind more weakly
/// than `p`.
pub open spec fn weaker_on_top(stack: Seq<Seq<char>>, p: int) -> bool
    decreases stack.len(),
{
    stack.len() == 0 || stack.last() == seq!['('] || (precedence(stack.last()) < p && weaker_on_top(
        stack.drop_last(),
        p,
    ))
}

pub open spec fn valid_stack(stack: Seq<Seq<char>>) -> bool {
    forall|i: int| 0 <= i < stack.len() ==> is_operator_token(#[trigger] stack[i]) || stack[i] == seq!['(']
}

/// All entries are operators binding at least as tightly as `p`.
pub open spec fn operators_at_least(pend: Seq<Seq<char>>, p: int) -> bool {
    forall|i: int| 0 <= i < pend.len() ==> is_operator_token(#[trigger] pend[i]) && precedence(pend[i]) >= p
}

/// The stack entries `pend` as they come out, top first.
pub open spec fn popped(pend: Seq<Seq<char>>) -> Seq<MarkedToken>
    decreases pend.len(),
{
    if pend.len() == 0 {
        seq![]
    } else {
        seq![(pend.last(), false)] + popped(pend.drop_last())
    }
}

proof fn lemma_run_concat(st: ConversionState, a: Seq<MarkedToken>, b: Seq<MarkedToken>)
    ensures
        run(st, a + b) == run(run(st, a), b),
    decreases b.len(),
{
    if b.len() == 0 {
        assert(a + b =~= a);
    } else {
        assert((a + b).drop_last() =~= a + b.drop_last());
        assert((a + b).last() == b.last());
        lemma_run_concat(st, a, b.drop_last());
    }
}

proof fn lemma_run_single(st: ConversionState, m: MarkedToken)
    ensures
        run(st, seq![m]) == conversion_step(st, m.0, m.1),
{
    assert(seq![m].drop_last() =~= Seq::<MarkedToken>::empty());
    assert(seq![m].last() == m);
    assert(run(st, seq![m].drop_last()) == st);
}

proof fn lemma_size_positive(e: Expr)
    ensures
        e.size() >= 1,
{
}

proof fn lemma_operator_facts(t: Seq<char>)
    requires
        is_operator_token(t),
    ensures
        t != seq!['('],
        t != seq![')'],
        1 <= precedence(t) <= 2,
{
    assert(t =~= seq![t[0]]);
    assert(seq!['('][0] == '(');
    assert(seq![')'][0] == ')');
}

proof fn lemma_valid_weaker(stack: Seq<Seq<char>>, p: int)
    requires
        valid_stack(stack),
        p >= 3,
    ensures
        weaker_on_top(stack, p),
    decreases stack.len(),
{
    if stack.len() > 0 {
        assert(valid_stack(stack.drop_last())) by {
            assert forall|i: int| 0 <= i < stack.drop_last().len() implies is_operator_token(
                #[trigger] stack.drop_last()[i],
            ) || stack.drop_last()[i] == seq!['('] by {
                assert(stack.drop_last()[i] == stack[i]);
            }
        }
        lemma_valid_weaker(stack.drop_last(), p);
        let top = stack[stack.len() - 1];
        if top != seq!['('] {
            lemma_operator_facts(top);
        }
    }
}

proof fn lemma_weaker_monotone(stack: Seq<Seq<char>>, p: int, q: int)
    requires
        weaker_on_top(stack, p),
        p <= q,
    ensures
        weaker_on_top(stack, q),
    decreases stack.len(),
{
    if stack.len() > 0 && stack.last() != seq!['('] {
        lemma_weaker_monotone(stack.drop_last(), p, q);
    }
}

proof fn lemma_weaker_push(stack: Seq<Seq<char>>, o: Seq<char>, q: int)
    requires
        weaker_on_top(stack, q),
        precedence(o) < q,
    ensures
        weaker_on_top(stack.push(o), q),
{
    assert(stack.push(o).drop_last() =~= stack);
}

proof fn lemma_popped_prepend(x: Seq<char>, pend: Seq<Seq<char>>)
    ensures
        popped(seq![x] + pend) == popped(pend) + seq![(x, false)],
    decreases pend.len(),
{
    if pend.len() == 0 {
        assert(seq![x] + pend =~= seq![x]);
        assert(seq![x].drop_last() =~= Seq::<Seq<char>>::empty());
        assert(popped(pend) + seq![(x, false)] =~= seq![(x, false)]);
        assert(seq![(x, false)] + popped(Seq::<Seq<char>>::empty()) =~= seq![(x, false)]);
    } else {
        assert((seq![x] + pend).drop_last() =~= seq![x] + pend.drop_last());
        lemma_popped_prepend(x, pend.drop_last());
        assert(popped(seq![x] + pend) =~= popped(pend) + seq![(x, false)]);
    }
}

proof fn lemma_pop_binding_pending(
    out: Seq<MarkedToken>,
    stack: Seq<Seq<char>>,
    pend: Seq<Seq<char>>,
    t: Seq<char>,
)
    requires
        operators_at_least(pend, precedence(t)),
        weaker_on_top(stack, precedence(t)),
    ensures
        pop_binding(out, stack + pend, t) == (ConversionState {
            output: out + popped(pend),
            stack,
        }),
    decreases pend.len(),
{
    if pend.len() == 0 {
        assert(stack + pend =~= stack);
        assert(out + popped(pend) =~= out);
    } else {
        let top = pend.last();
        assert(is_operator_token(pend[pend.len() - 1]));
        lemma_operator_facts(top);
        assert((stack + pend).last() == top);
        assert((stack + pend).drop_last() =~= stack + pend.drop_last());
        assert(operators_at_least(pend.drop_last(), precedence(t))) by {
            assert forall|i: int| 0 <= i < pend.drop_last().len() implies is_operator_token(
                #[trigger] pend.drop_last()[i],
            ) && precedence(pend.drop_last()[i]) >= precedence(t) by {
                assert(pend.drop_last()[i] == pend[i]);
            }
        }
        lemma_pop_binding_pending(out.push((top, false)), stack, pend.drop_last(), t);
        assert(out.push((top, false)) + popped(pend.drop_last()) =~= out + popped(pend));
    }
}

proof fn lemma_pop_to_open_pending(out: Seq<MarkedToken>, stack: Seq<Seq<char>>, pend: Seq<Seq<char>>)
    requires
        operators_at_least(pend, 1),
    ensures
        pop_to_open(out, stack.push(seq!['(']) + pend) == (ConversionState {
            output: out + popped(pend),
            stack,
        }),
    decreases pend.len(),
{
    let s = stack.push(seq!['(']);
    if pend.len() == 0 {
        assert(s + pend =~= s);
        assert(out + popped(pend) =~= out);
        assert(s.drop_last() =~= stack);
    } else {
        let top = pend.last();
        assert(is_operator_token(pend[pend.len() - 1]));
        lemma_operator_facts(top);
        assert((s + pend).last() == top);
        assert((s + pend).drop_last() =~= s + pend.drop_last());
        assert(operators_at_least(pend.drop_last(), 1)) by {
            assert forall|i: int| 0 <= i < pend.drop_last().len() implies is_operator_token(
                #[trigger] pend.drop_last()[i],
            ) && precedence(pend.drop_last()[i]) >= 1 by {
                assert(pend.drop_last()[i] == pend[i]);
            }
        }
        lemma_pop_to_open_pending(out.push((top, false)), stack, pend.drop_last());
        assert(out.push((top, false)) + popped(pend.drop_last()) =~= out + popped(pend));
    }
}

proof fn lemma_drain_pending(out: Seq<MarkedToken>, pend: Seq<Seq<char>>)
    ensures
        drain(out, pend) == out + popped(pend),
    decreases pend.len(),
{
    if pend.len() == 0 {
        assert(out + popped(pend) =~= out);
    } else {
        lemma_drain_pending(out.push((pend.last(), false)), pend.drop_last());
        assert(out.push((pend.last(), false)) + popped(pend.drop_last()) =~= out + popped(pend));
    }
}

/// Reading the written form of `e` from a state whose stack top holds
/// only weaker operators leaves the stack with some operators of `e`
/// pending; popped, they complete the postfix order of `e`.
proof fn lemma_convert_rendered(e: Expr, out: Seq<MarkedToken>, stack: Seq<Seq<char>>) -> (pend: Seq<
    Seq<char>,
>)
    requires
        e.wf(),
        valid_stack(stack),
        weaker_on_top(stack, e.lowest()),
    ensures
        run(ConversionState { output: out, stack }, render(e)).stack == stack + pend,
        run(ConversionState { output: out, stack }, render(e)).output + popped(pend) == out
            + postorder(e),
        operators_at_least(pend, e.lowest()),
    decreases e.size(),
{
    let st = ConversionState { output: out, stack };
    match e {
        Expr::Num(t) => {
            lemma_run_single(st, (t, true));
            assert(render(e) == seq![(t, true)]);
            assert(postorder(e) == seq![(t, true)]);
            assert(run(st, render(e)) == ConversionState { output: out.push((t, true)), stack });
            let p = Seq::<Seq<char>>::empty();
            assert(stack + p =~= stack);
            assert(popped(p) == Seq::<MarkedToken>::empty());
            assert(out.push((t, true)) + popped(p) =~= out + seq![(t, true)]);
            assert(run(ConversionState { output: out, stack }, render(e)).stack == stack + p);
            p
        },
        Expr::Group(x) => {
            let inner = stack.push(seq!['(']);
            let r = render(*x);
            assert(render(e) == seq![open_token()] + r + seq![close_token()]);
            lemma_run_concat(st, seq![open_token()] + r, seq![close_token()]);
            lemma_run_concat(st, seq![open_token()], r);
            lemma_run_single(st, open_token());
            let st1 = ConversionState { output: out, stack: inner };
            assert(run(st, seq![open_token()]) == st1);
            assert(valid_stack(inner)) by {
                assert forall|i: int| 0 <= i < inner.len() implies is_operator_token(
                    #[trigger] inner[i],
                ) || inner[i] == seq!['('] by {
                    if i < stack.len() {
                        assert(inner[i] == stack[i]);
                    }
                }
            }
            assert(inner.drop_last() =~= stack);
            let px = lemma_convert_rendered(*x, out, inner);
            let st2 = run(st1, r);
            lemma_run_single(st2, close_token());
            assert(operators_at_least(px, 1)) by {
                assert forall|i: int| 0 <= i < px.len() implies is_operator_token(#[trigger] px[i])
                    && precedence(px[i]) >= 1 by {
                    lemma_operator_facts(px[i]);
                }
            }
            lemma_pop_to_open_pending(st2.output, stack, px);
            let fin = run(st, render(e));
            assert(fin == run(st2, seq![close_token()]));
            assert(seq![')'] != seq!['(']) by {
                assert(seq![')'][0] != seq!['('][0]);
            }
            assert(fin == conversion_step(st2, seq![')'], false));
            assert(st2.stack == inner + px);
            assert(fin == pop_to_open(st2.output, inner + px));
            assert(fin.output == out + postorder(*x));
            assert(postorder(e) == postorder(*x));
            let p = Seq::<Seq<char>>::empty();
            assert(stack + p =~= stack);
            assert(fin.output + popped(p) =~= fin.output);
            p
        },
        Expr::Op(o, a, b) => {
            let pa = precedence(o);
            lemma_operator_facts(o);
            let a2 = if a.needs_parens_left(o) { Expr::Group(a) } else { *a };
            let b2 = if b.needs_parens_right(o) { Expr::Group(b) } else { *b };
            assert(render(a2) == if a.needs_parens_left(o) { wrapped(render(*a)) } else { render(*a) });
            assert(render(b2) == if b.needs_parens_right(o) { wrapped(render(*b)) } else { render(*b) });
            assert(postorder(a2) == postorder(*a));
            assert(postorder(b2) == postorder(*b));
            assert(a2.lowest() >= pa);
            assert(b2.lowest() > pa);
            assert(a2.wf() && b2.wf());
            lemma_size_positive(*a);
            lemma_size_positive(*b);
            assert(a2.size() < e.size());
            assert(b2.size() < e.size());
            assert(render(e) == render(a2) + seq![(o, false)] + render(b2));
            lemma_run_concat(st, render(a2) + seq![(o, false)], render(b2));
            lemma_run_concat(st, render(a2), seq![(o, false)]);
            // the left operand
            if a2.lowest() >= 3 {
                lemma_valid_weaker(stack, a2.lowest());
            } else {
                lemma_weaker_monotone(stack, pa, a2.lowest());
            }
            let pend_a = lemma_convert_rendered(a2, out, stack);
            let s1 = run(st, render(a2));
            // the operator pops the pending operators of the left operand
            lemma_run_single(s1, (o, false));
            assert(operators_at_least(pend_a, pa)) by {
                assert forall|i: int| 0 <= i < pend_a.len() implies is_operator_token(
                    #[trigger] pend_a[i],
                ) && precedence(pend_a[i]) >= pa by {}
            }
            lemma_pop_binding_pending(s1.output, stack, pend_a, o);
            let stack2 = stack.push(o);
            let out2 = out + postorder(*a);
            let s2 = run(st, render(a2) + seq![(o, false)]);
            assert(s2 == ConversionState { output: out2, stack: stack2 });
            // the right operand
            assert(valid_stack(stack2)) by {
                assert forall|i: int| 0 <= i < stack2.len() implies is_operator_token(
                    #[trigger] stack2[i],
                ) || stack2[i] == seq!['('] by {
                    if i < stack.len() {
                        assert(stack2[i] == stack[i]);
                    }
                }
            }
            lemma_weaker_monotone(stack, pa, b2.lowest());
            lemma_weaker_push(stack, o, b2.lowest());
            let pend_b = lemma_convert_rendered(b2, out2, stack2);
            let fin = run(st, render(e));
            assert(fin == run(s2, render(b2)));
            let pend = seq![o] + pend_b;
            assert(stack2 + pend_b =~= stack + pend);
            lemma_popped_prepend(o, pend_b);
            assert(fin.output + popped(pend_b) == out2 + postorder(*b));
            assert(fin.output + popped(pend) =~= (fin.output + popped(pend_b)) + seq![(o, false)]);
            assert(postorder(e) == postorder(*a) + postorder(*b) + seq![(o, false)]);
            assert(fin.output + popped(pend) =~= out + postorder(e));
            assert(operators_at_least(pend, pa)) by {
                assert forall|i: int| 0 <= i < pend.len() implies is_operator_token(
                    #[trigger] pend[i],
                ) && precedence(pend[i]) >= pa by {
                    if i > 0 {
                        assert(pend[i] == pend_b[i - 1]);
                    }
                }
            }
            pend
        },
    }
}

} // verus!

verus! {

proof fn lemma_run_is_conversion(tokens: Seq<Seq<char>>, numbers: Seq<bool>, n: nat)
    requires
        n <= tokens.len(),
        numbers.len() == tokens.len(),
    ensures
        conversion_upto(tokens, numbers, n) == run(
            ConversionState { output: seq![], stack: seq![] },
            marked_input(tokens, numbers, n),
        ),
    decreases n,
{
    if n > 0 {
        let k = (n - 1) as nat;
        lemma_run_is_conversion(tokens, numbers, k);
        assert(marked_input(tokens, numbers, n).drop_last() =~= marked_input(tokens, numbers, k));
        assert(marked_input(tokens, numbers, n).last() == (tokens[k as int], numbers[k as int]));
    }
}

proof fn lemma_marked_roundtrip(m: Seq<MarkedToken>)
    ensures
        marked_input(texts(m), marks(m), m.len()) == m,
{
    assert(marked_input(texts(m), marks(m), m.len()) =~= m);
}

proof fn lemma_evaluate_concat(start: Option<Seq<Expr>>, a: Seq<MarkedToken>, b: Seq<MarkedToken>)
    ensures
        evaluate_from(start, a + b) == evaluate_from(evaluate_from(start, a), b),
    decreases b.len(),
{
    if b.len() == 0 {
        assert(a + b =~= a);
    } else {
        assert((a + b).drop_last() =~= a + b.drop_last());
        assert((a + b).last() == b.last());
        lemma_evaluate_concat(start, a, b.drop_last());
    }
}

proof fn lemma_evaluate_single(start: Option<Seq<Expr>>, m: MarkedToken)
    ensures
        evaluate_from(start, seq![m]) == evaluation_step(start, m),
{
    assert(seq![m].drop_last() =~= Seq::<MarkedToken>::empty());
    assert(seq![m].last() == m);
    assert(evaluate_from(start, seq![m].drop_last()) == start);
}

proof fn lemma_evaluate_postorder(e: Expr, vs: Seq<Expr>)
    requires
        e.wf(),
    ensures
        evaluate_from(Some(vs), postorder(e)) == Some(vs.push(e.meaning())),
    decreases e,
{
    match e {
        Expr::Num(t) => {
            lemma_evaluate_single(Some(vs), (t, true));
        },
        Expr::Group(x) => {
            lemma_evaluate_postorder(*x, vs);
        },
        Expr::Op(o, a, b) => {
            lemma_evaluate_concat(Some(vs), postorder(*a) + postorder(*b), seq![(o, false)]);
            lemma_evaluate_concat(Some(vs), postorder(*a), postorder(*b));
            lemma_evaluate_postorder(*a, vs);
            let va = vs.push(a.meaning());
            lemma_evaluate_postorder(*b, va);
            let vb = va.push(b.meaning());
            lemma_evaluate_single(Some(vb), (o, false));
            assert(o =~= seq![o[0]]);
            assert(vb.drop_last().drop_last() =~= vs);
            assert(vb[vb.len() - 2] == a.meaning());
            assert(vb[vb.len() - 1] == b.meaning());
        },
    }
}

/// The conversion to postfix is correct: whatever expression is written
/// down, with the parentheses it holds and those that precedence and left
/// grouping require, the conversion yields its postorder, and evaluating
/// that with the calculator's postfix steps leaves exactly one value, the
/// expression's meaning.
pub proof fn law_postfix_evaluates_to_meaning(e: Expr)
    requires
        e.wf(),
    ensures
        postfix_marked(texts(render(e)), marks(render(e))) == postorder(e),
        evaluate_postfix_trees(postfix_marked(texts(render(e)), marks(render(e)))) == Some(
            seq![e.meaning()],
        ),
{
    let m = render(e);
    let tokens = texts(m);
    let numbers = marks(m);
    let init = ConversionState { output: seq![], stack: seq![] };
    lemma_run_is_conversion(tokens, numbers, tokens.len());
    lemma_marked_roundtrip(m);
    assert(weaker_on_top(Seq::<Seq<char>>::empty(), e.lowest()));
    assert(valid_stack(Seq::<Seq<char>>::empty()));
    let pend = lemma_convert_rendered(e, seq![], seq![]);
    let fin = run(init, m);
    assert(conversion_upto(tokens, numbers, tokens.len()) == fin);
    assert(Seq::<Seq<char>>::empty() + pend =~= pend);
    lemma_drain_pending(fin.output, pend);
    assert(Seq::<MarkedToken>::empty() + postorder(e) =~= postorder(e));
    lemma_evaluate_postorder(e, seq![]);
    assert(Seq::<Expr>::empty().push(e.meaning()) =~= seq![e.meaning()]);
}

} // verus!

verus! {

/// A number written the plain way: digits and dots, possibly after a `-`
/// that is followed by at least one of them.
pub open spec fn is_plain_number(t: Seq<char>) -> bool {
    &&& t.len() > 0
    &&& (is_digit_or_dot(t[0]) || (t[0] == '-' && t.len() >= 2))
    &&& forall|i: int| 1 <= i < t.len() ==> is_digit_or_dot(#[trigger] t[i])
}

impl Expr {
    /// Every number of the expression is written the plain way.
    pub open spec fn plain_numbers(self) -> bool
        decreases self,
    {
        match self {
            Expr::Num(t) => is_plain_number(t),
            Expr::Op(_, a, b) => a.plain_numbers() && b.plain_numbers(),
            Expr::Group(x) => x.plain_numbers(),
        }
    }
}

/// The text of an expression: its tokens written one after the other.
pub open spec fn written(e: Expr) -> Seq<char> {
    concat_all(texts(render(e)))
}

/// The characters of `s` read by the tokenizer from state `st`.
pub open spec fn tokenize_from(st: TokenizerState, s: Seq<char>) -> TokenizerState
    decreases s.len(),
{
    if s.len() == 0 {
        st
    } else {
        tokenize_step(tokenize_from(st, s.drop_last()), s.last())
    }
}

/// The tokenizer is ready for an operand: nothing is being collected, a
/// `-` would start a number, and no parenthesis is unmatched.
pub open spec fn ready_for_operand(st: TokenizerState) -> bool {
    st.current.len() == 0 && minus_is_unary(st.tokens) && st.depth >= 0
}

proof fn lemma_tokenize_state_from(s: Seq<char>)
    ensures
        tokenize_state(s) == tokenize_from(initial_tokenizer_state(), s),
    decreases s.len(),
{
    if s.len() > 0 {
        lemma_tokenize_state_from(s.drop_last());
    }
}

proof fn lemma_tokenize_concat(st: TokenizerState, a: Seq<char>, b: Seq<char>)
    ensures
        tokenize_from(st, a + b) == tokenize_from(tokenize_from(st, a), b),
    decreases b.len(),
{
    if b.len() == 0 {
        assert(a + b =~= a);
    } else {
        assert((a + b).drop_last() =~= a + b.drop_last());
        assert((a + b).last() == b.last());
        lemma_tokenize_concat(st, a, b.drop_last());
    }
}

proof fn lemma_tokenize_single(st: TokenizerState, c: char)
    ensures
        tokenize_from(st, seq![c]) == tokenize_step(st, c),
{
    assert(seq![c].drop_last() =~= Seq::<char>::empty());
    assert(seq![c].last() == c);
    assert(tokenize_from(st, seq![c].drop_last()) == st);
}

proof fn lemma_concat_all_append(a: Seq<Seq<char>>, b: Seq<Seq<char>>)
    ensures
        concat_all(a + b) == concat_all(a) + concat_all(b),
    decreases b.len(),
{
    if b.len() == 0 {
        assert(a + b =~= a);
        assert(concat_all(a) + concat_all(b) =~= concat_all(a));
    } else {
        assert((a + b).drop_last() =~= a + b.drop_last());
        assert((a + b).last() == b.last());
        lemma_concat_all_append(a, b.drop_last());
        assert(concat_all(a) + (concat_all(b.drop_last()) + b.last()) =~= (concat_all(a)
            + concat_all(b.drop_last())) + b.last());
    }
}

proof fn lemma_concat_all_single(t: Seq<char>)
    ensures
        concat_all(seq![t]) == t,
{
    assert(seq![t].drop_last() =~= Seq::<Seq<char>>::empty());
    assert(seq![t].last() == t);
    assert(concat_all(Seq::<Seq<char>>::empty()) == Seq::<char>::empty());
    assert(Seq::<char>::empty() + t =~= t);
}

proof fn lemma_texts_append(a: Seq<MarkedToken>, b: Seq<MarkedToken>)
    ensures
        texts(a + b) == texts(a) + texts(b),
{
    assert(texts(a + b) =~= texts(a) + texts(b));
}

/// Digits and dots extend the number being collected.
proof fn lemma_tokenize_digits(st: TokenizerState, d: Seq<char>)
    requires
        forall|i: int| 0 <= i < d.len() ==> is_digit_or_dot(#[trigger] d[i]),
    ensures
        tokenize_from(st, d) == (TokenizerState {
            tokens: st.tokens,
            current: st.current + d,
            depth: st.depth,
            warnings: st.warnings,
        }),
    decreases d.len(),
{
    if d.len() == 0 {
        assert(st.current + d =~= st.current);
    } else {
        let p = d.drop_last();
        assert forall|i: int| 0 <= i < p.len() implies is_digit_or_dot(#[trigger] p[i]) by {
            assert(p[i] == d[i]);
        }
        lemma_tokenize_digits(st, p);
        let c = d.last();
        assert(is_digit_or_dot(d[d.len() - 1]));
        assert(!is_white_space(c));
        assert((st.current + p).push(c) =~= st.current + d);
    }
}

/// The written tokens of an expression end with `)` or a plain number.
proof fn lemma_render_last(e: Expr)
    requires
        e.plain_numbers(),
    ensures
        texts(render(e)).len() > 0,
        texts(render(e)).last() == seq![')'] || is_plain_number(texts(render(e)).last()),
    decreases e,
{
    match e {
        Expr::Num(t) => {},
        Expr::Group(x) => {
            lemma_texts_append(seq![open_token()] + render(*x), seq![close_token()]);
        },
        Expr::Op(o, a, b) => {
            let ra = if a.needs_parens_left(o) { wrapped(render(*a)) } else { render(*a) };
            let rb = if b.needs_parens_right(o) { wrapped(render(*b)) } else { render(*b) };
            lemma_texts_append(ra + seq![(o, false)], rb);
            if b.needs_parens_right(o) {
                lemma_texts_append(seq![open_token()] + render(*b), seq![close_token()]);
            } else {
                lemma_render_last(*b);
            }
        },
    }
}

proof fn lemma_plain_number_not_symbol(t: Seq<char>)
    requires
        is_plain_number(t),
    ensures
        t != seq!['('],
        !crate::calculator::is_operator_token(t),
{
    if t.len() == 1 {
        assert(seq!['('][0] == '(');
    }
}

proof fn lemma_tokenize_number(t: Seq<char>, st: TokenizerState)
    requires
        is_plain_number(t),
        ready_for_operand(st),
    ensures
        flushed(tokenize_from(st, written(Expr::Num(t))).tokens, tokenize_from(st, written(Expr::Num(t))).current)
            == st.tokens + texts(render(Expr::Num(t))),
        tokenize_from(st, written(Expr::Num(t))).depth == st.depth,
        tokenize_from(st, written(Expr::Num(t))).warnings == st.warnings,
{
    let e = Expr::Num(t);
    assert(texts(render(e)) =~= seq![t]);
    lemma_concat_all_single(t);
    assert(written(e) == t);
    lemma_tokenize_concat(st, t.take(1), t.skip(1));
    assert(t.take(1) + t.skip(1) =~= t);
    assert(t.take(1) =~= seq![t[0]]);
    lemma_tokenize_single(st, t[0]);
    let s1 = tokenize_step(st, t[0]);
    assert(!is_white_space(t[0]));
    assert(st.current =~= Seq::<char>::empty());
    if t[0] == '-' {
        assert(s1 == TokenizerState {
            tokens: st.tokens,
            current: seq!['-'],
            depth: st.depth,
            warnings: st.warnings,
        });
    } else {
        assert(s1 == TokenizerState {
            tokens: st.tokens,
            current: seq![t[0]],
            depth: st.depth,
            warnings: st.warnings,
        });
    }
    let d = t.skip(1);
    assert forall|i: int| 0 <= i < d.len() implies is_digit_or_dot(#[trigger] d[i]) by {
        assert(d[i] == t[i + 1]);
    }
    lemma_tokenize_digits(s1, d);
    assert(s1.current + d =~= t);
    assert(st.tokens.push(t) =~= st.tokens + seq![t]);
}

proof fn lemma_tokenize_group(e: Expr, st: TokenizerState)
    requires
        e is Group,
        e.wf(),
        e.plain_numbers(),
        ready_for_operand(st),
    ensures
        flushed(tokenize_from(st, written(e)).tokens, tokenize_from(st, written(e)).current)
            == st.tokens + texts(render(e)),
        tokenize_from(st, written(e)).depth == st.depth,
        tokenize_from(st, written(e)).warnings == st.warnings,
    decreases e.size(), 0nat,
{
    let x = e->Group_0;
    let rx = render(*x);
    lemma_texts_append(seq![open_token()] + rx, seq![close_token()]);
    lemma_texts_append(seq![open_token()], rx);
    assert(texts(seq![open_token()]) =~= seq![seq!['(']]);
    assert(texts(seq![close_token()]) =~= seq![seq![')']]);
    let tx = texts(rx);
    assert(texts(render(e)) == seq![seq!['(']] + tx + seq![seq![')']]);
    lemma_concat_all_append(seq![seq!['(']] + tx, seq![seq![')']]);
    lemma_concat_all_append(seq![seq!['(']], tx);
    lemma_concat_all_single(seq!['(']);
    lemma_concat_all_single(seq![')']);
    let wx = written(*x);
    assert(written(e) == seq!['('] + wx + seq![')']);
    lemma_tokenize_concat(st, seq!['('] + wx, seq![')']);
    lemma_tokenize_concat(st, seq!['('], wx);
    lemma_tokenize_single(st, '(');
    let s1 = tokenize_step(st, '(');
    assert(st.current =~= Seq::<char>::empty());
    assert(s1 == TokenizerState {
        tokens: st.tokens.push(seq!['(']),
        current: seq![],
        depth: st.depth + 1,
        warnings: st.warnings,
    });
    lemma_tokenize_rendered(*x, s1);
    let s2 = tokenize_from(s1, wx);
    lemma_tokenize_single(s2, ')');
    let s3 = tokenize_step(s2, ')');
    assert(s3 == TokenizerState {
        tokens: flushed(s2.tokens, s2.current).push(seq![')']),
        current: seq![],
        depth: st.depth,
        warnings: st.warnings,
    });
    assert(tokenize_from(st, written(e)) == s3);
    assert(flushed(s3.tokens, s3.current) == s3.tokens);
    assert(s3.tokens =~= st.tokens + texts(render(e)));
}

proof fn lemma_tokenize_operation(e: Expr, st: TokenizerState)
    requires
        e is Op,
        e.wf(),
        e.plain_numbers(),
        ready_for_operand(st),
    ensures
        flushed(tokenize_from(st, written(e)).tokens, tokenize_from(st, written(e)).current)
            == st.tokens + texts(render(e)),
        tokenize_from(st, written(e)).depth == st.depth,
        tokenize_from(st, written(e)).warnings == st.warnings,
    decreases e.size(), 0nat,
{
    let o = e->Op_0;
    let a = e->Op_1;
    let b = e->Op_2;
    let a2 = if a.needs_parens_left(o) { Expr::Group(a) } else { *a };
    let b2 = if b.needs_parens_right(o) { Expr::Group(b) } else { *b };
    lemma_size_positive(*a);
    lemma_size_positive(*b);
    assert(render(a2) == if a.needs_parens_left(o) { wrapped(render(*a)) } else { render(*a) });
    assert(render(b2) == if b.needs_parens_right(o) { wrapped(render(*b)) } else { render(*b) });
    assert(render(e) == render(a2) + seq![(o, false)] + render(b2));
    assert(a2.wf() && b2.wf() && a2.plain_numbers() && b2.plain_numbers());
    let ta = texts(render(a2));
    let tb = texts(render(b2));
    lemma_texts_append(render(a2) + seq![(o, false)], render(b2));
    lemma_texts_append(render(a2), seq![(o, false)]);
    assert(texts(seq![(o, false)]) =~= seq![o]);
    assert(texts(render(e)) == ta + seq![o] + tb);
    lemma_concat_all_append(ta + seq![o], tb);
    lemma_concat_all_append(ta, seq![o]);
    lemma_concat_all_single(o);
    let wa = written(a2);
    let wb = written(b2);
    assert(written(e) == wa + o + wb);
    assert(o =~= seq![o[0]]);
    lemma_tokenize_concat(st, wa + o, wb);
    lemma_tokenize_concat(st, wa, o);
    lemma_tokenize_rendered(a2, st);
    let s1 = tokenize_from(st, wa);
    lemma_tokenize_single(s1, o[0]);
    let f = flushed(s1.tokens, s1.current);
    assert(f == st.tokens + ta);
    lemma_render_last(a2);
    assert(f.last() == ta.last());
    if ta.last() != seq![')'] {
        lemma_plain_number_not_symbol(ta.last());
    } else {
        assert(!crate::calculator::is_operator_token(seq![')']));
        assert(seq![')'] != seq!['(']) by {
            assert(seq![')'][0] != seq!['('][0]);
        }
    }
    assert(!minus_is_unary(f));
    let oc = o[0];
    assert(!is_white_space(oc));
    let s2 = tokenize_step(s1, oc);
    assert(s2 == TokenizerState {
        tokens: f.push(seq![oc]),
        current: seq![],
        depth: st.depth,
        warnings: st.warnings,
    });
    assert(ready_for_operand(s2));
    lemma_tokenize_rendered(b2, s2);
    let s3 = tokenize_from(s2, wb);
    assert(tokenize_from(st, written(e)) == s3);
    assert(f.push(seq![oc]) + tb =~= st.tokens + texts(render(e)));
}

/// Reading the text of `e` from a state ready for an operand collects
/// exactly the tokens of `e`, keeps the parenthesis count, and gives no
/// warning.
proof fn lemma_tokenize_rendered(e: Expr, st: TokenizerState)
    requires
        e.wf(),
        e.plain_numbers(),
        ready_for_operand(st),
    ensures
        flushed(tokenize_from(st, written(e)).tokens, tokenize_from(st, written(e)).current)
            == st.tokens + texts(render(e)),
        tokenize_from(st, written(e)).depth == st.depth,
        tokenize_from(st, written(e)).warnings == st.warnings,
    decreases e.size(), 1nat,
{
    match e {
        Expr::Num(t) => lemma_tokenize_number(t, st),
        Expr::Group(_) => lemma_tokenize_group(e, st),
        Expr::Op(_, _, _) => lemma_tokenize_operation(e, st),
    }
}

/// A written expression tokenizes back into exactly its tokens, without
/// any warning, when its numbers are written the plain way.
pub proof fn law_tokenize_written_expression(e: Expr)
    requires
        e.wf(),
        e.plain_numbers(),
    ensures
        tokens_of(written(e)) == texts(render(e)),
        warnings_of(written(e)) == Seq::<TokenizeWarning>::empty(),
{
    let init = initial_tokenizer_state();
    lemma_tokenize_state_from(written(e));
    lemma_tokenize_rendered(e, init);
    assert(init.tokens + texts(render(e)) =~= texts(render(e)));
}

/// From text to value: the text of any expression with plainly written
/// numbers is tokenized into its tokens, converted to its postorder when
/// its numbers are marked as numbers, and evaluated to its meaning.
pub proof fn law_written_expression_evaluates_to_meaning(e: Expr)
    requires
        e.wf(),
        e.plain_numbers(),
    ensures
        postfix_marked(tokens_of(written(e)), marks(render(e))) == postorder(e),
        evaluate_postfix_trees(postfix_marked(tokens_of(written(e)), marks(render(e)))) == Some(
            seq![e.meaning()],
        ),
{
    law_tokenize_written_expression(e);
    law_postfix_evaluates_to_meaning(e);
}

} // verus!

verus! {

/// Why an evaluation with caller-supplied arithmetic stops.
pub enum PostfixFailure<E> {
    /// The postfix sequence itself is malformed.
    Malformed(EvaluationError),
    /// The caller's operation refused its operands or result.
    Operation(E),
}

/// `v` is a value of the tree `t` when its numbers are read with `parse`
/// and its operators carried out with `apply`.
pub open spec fn denotes<V, E, P: Fn(&str) -> V, A: Fn(Operator, V, V) -> Result<V, E>>(
    parse: P,
    apply: A,
    t: Expr,
    v: V,
) -> bool
    decreases t,
{
    match t {
        Expr::Num(s) => exists|x: &str| x@ == s && call_ensures(parse, (x,), v),
        Expr::Op(o, a, b) => exists|va: V, vb: V|
            denotes(parse, apply, *a, va) && denotes(parse, apply, *b, vb) && call_ensures(
                apply,
                (operator_of_token(o).unwrap(), va, vb),
                Ok(v),
            ),
        Expr::Group(x) => denotes(parse, apply, *x, v),
    }
}

/// How a postfix sequence that leaves `trees` is malformed, if it is:
/// an operator lacked operands, or not exactly one value is left.
pub open spec fn malformation(trees: Option<Seq<Expr>>) -> Option<EvaluationError> {
    match trees {
        None => Some(EvaluationError::NotEnoughOperands),
        Some(ts) => if ts.len() == 1 {
            None
        } else {
            Some(EvaluationError::InvalidExpression)
        },
    }
}

proof fn lemma_evaluate_from_none(s: Seq<MarkedToken>)
    ensures
        evaluate_from(None, s) == None::<Seq<Expr>>,
    decreases s.len(),
{
    if s.len() > 0 {
        lemma_evaluate_from_none(s.drop_last());
    }
}

/// How a number token can be read: `reads(t, v)` holds when `v` is a
/// value the reader may give for the token `t`.
pub type ReadRelation<V> = spec_fn(Seq<char>, V) -> bool;

/// How an operator can be carried out: `applies(op, a, b, res)` holds when
/// `res` is an outcome the operation may give for `op` on the left operand
/// `a` and the right operand `b`.
pub type ApplyRelation<V, E> = spec_fn(Operator, V, V, Result<V, E>) -> bool;

/// The results that evaluating the postfix tokens `s` can give when the
/// values `vals` are already stacked.  The calculator's postfix step
/// decides what each token does: a number is read and pushed; an operator
/// is applied to the two values on top, the lower one as the left operand,
/// and a refusal ends the evaluation with that refusal; an operator without
/// two values ends it as malformed; anything else is skipped.  At the end,
/// one value left is the result and any other count is malformed.
pub open spec fn evaluation_outcome<V, E>(
    reads: ReadRelation<V>,
    applies: ApplyRelation<V, E>,
    vals: Seq<V>,
    s: Seq<MarkedToken>,
    r: Result<V, PostfixFailure<E>>,
) -> bool
    decreases s.len(),
{
    if s.len() == 0 {
        if vals.len() == 1 {
            r == Ok::<V, PostfixFailure<E>>(vals[0])
        } else {
            r == Err::<V, PostfixFailure<E>>(
                PostfixFailure::Malformed(EvaluationError::InvalidExpression),
            )
        }
    } else {
        let t = s[0].0;
        let rest = s.drop_first();
        match postfix_step_of(vals.len(), t, s[0].1) {
            PostfixStep::PushNumber => exists|v: V|
                #[trigger] reads(t, v) && evaluation_outcome(reads, applies, vals.push(v), rest, r),
            PostfixStep::Apply(op) => exists|res: Result<V, E>|
                #[trigger] applies(op, vals[vals.len() - 2], vals[vals.len() - 1], res) && match res {
                    Ok(v) => evaluation_outcome(
                        reads,
                        applies,
                        vals.drop_last().drop_last().push(v),
                        rest,
                        r,
                    ),
                    Err(e) => r == Err::<V, PostfixFailure<E>>(PostfixFailure::Operation(e)),
                },
            PostfixStep::Fail(e) => r == Err::<V, PostfixFailure<E>>(PostfixFailure::Malformed(e)),
            PostfixStep::Skip => evaluation_outcome(reads, applies, vals, rest, r),
        }
    }
}

/// The tokens that take part in an evaluation: numbers and operators.
pub open spec fn evaluated_tokens(s: Seq<MarkedToken>) -> Seq<MarkedToken>
    decreases s.len(),
{
    if s.len() == 0 {
        seq![]
    } else if !s[0].1 && !is_operator_token(s[0].0) {
        evaluated_tokens(s.drop_first())
    } else {
        seq![s[0]] + evaluated_tokens(s.drop_first())
    }
}

/// Tokens that are neither numbers nor operators are ignored: evaluating
/// with them and without them can give exactly the same results.
pub proof fn law_other_tokens_ignored<V, E>(
    reads: ReadRelation<V>,
    applies: ApplyRelation<V, E>,
    vals: Seq<V>,
    s: Seq<MarkedToken>,
    r: Result<V, PostfixFailure<E>>,
)
    ensures
        evaluation_outcome(reads, applies, vals, s, r) == evaluation_outcome(
            reads,
            applies,
            vals,
            evaluated_tokens(s),
            r,
        ),
    decreases s.len(),
{
    if s.len() > 0 {
        let rest = s.drop_first();
        if !s[0].1 && !is_operator_token(s[0].0) {
            law_other_tokens_ignored(reads, applies, vals, rest, r);
            assert(postfix_step_of(vals.len(), s[0].0, s[0].1) == PostfixStep::Skip);
        } else {
            let f = evaluated_tokens(s);
            assert(f == seq![s[0]] + evaluated_tokens(rest));
            assert(f[0] == s[0]);
            assert(f.drop_first() =~= evaluated_tokens(rest));
            let rest2 = f.drop_first();
            let t = s[0].0;
            match postfix_step_of(vals.len(), t, s[0].1) {
                PostfixStep::PushNumber => {
                    if evaluation_outcome(reads, applies, vals, s, r) {
                        let v = choose|v: V|
                            #[trigger] reads(t, v) && evaluation_outcome(
                                reads,
                                applies,
                                vals.push(v),
                                rest,
                                r,
                            );
                        law_other_tokens_ignored(reads, applies, vals.push(v), rest, r);
                        assert(evaluation_outcome(reads, applies, vals, f, r));
                    }
                    if evaluation_outcome(reads, applies, vals, f, r) {
                        let v = choose|v: V|
                            #[trigger] reads(t, v) && evaluation_outcome(
                                reads,
                                applies,
                                vals.push(v),
                                rest2,
                                r,
                            );
                        law_other_tokens_ignored(reads, applies, vals.push(v), rest, r);
                        assert(evaluation_outcome(reads, applies, vals, s, r));
                    }
                },
                PostfixStep::Apply(op) => {
                    let a = vals[vals.len() - 2];
                    let b = vals[vals.len() - 1];
                    if evaluation_outcome(reads, applies, vals, s, r) {
                        let res = choose|res: Result<V, E>|
                            #[trigger] applies(op, a, b, res) && match res {
                                Ok(v) => evaluation_outcome(
                                    reads,
                                    applies,
                                    vals.drop_last().drop_last().push(v),
                                    rest,
                                    r,
                                ),
                                Err(e) => r == Err::<V, PostfixFailure<E>>(
                                    PostfixFailure::Operation(e),
                                ),
                            };
                        if let Ok(v) = res {
                            law_other_tokens_ignored(
                                reads,
                                applies,
                                vals.drop_last().drop_last().push(v),
                                rest,
                                r,
                            );
                        }
                        assert(evaluation_outcome(reads, applies, vals, f, r));
                    }
                    if evaluation_outcome(reads, applies, vals, f, r) {
                        let res = choose|res: Result<V, E>|
                            #[trigger] applies(op, a, b, res) && match res {
                                Ok(v) => evaluation_outcome(
                                    reads,
                                    applies,
                                    vals.drop_last().drop_last().push(v),
                                    rest2,
                                    r,
                                ),
                                Err(e) => r == Err::<V, PostfixFailure<E>>(
                                    PostfixFailure::Operation(e),
                                ),
                            };
                        if let Ok(v) = res {
                            law_other_tokens_ignored(
                                reads,
                                applies,
                                vals.drop_last().drop_last().push(v),
                                rest,
                                r,
                            );
                        }
                        assert(evaluation_outcome(reads, applies, vals, s, r));
                    }
                },
                PostfixStep::Fail(_) => {},
                PostfixStep::Skip => {},
            }
        }
    }
}

/// When the operation never refuses, no evaluation ends with a refusal.
pub proof fn law_no_refusal_without_refusing_operation<V, E>(
    reads: ReadRelation<V>,
    applies: ApplyRelation<V, E>,
    vals: Seq<V>,
    s: Seq<MarkedToken>,
    r: Result<V, PostfixFailure<E>>,
)
    requires
        forall|op: Operator, a: V, b: V, res: Result<V, E>|
            #[trigger] applies(op, a, b, res) ==> res is Ok,
        evaluation_outcome(reads, applies, vals, s, r),
    ensures
        !(r matches Err(PostfixFailure::Operation(_))),
    decreases s.len(),
{
    if s.len() > 0 {
        let t = s[0].0;
        let rest = s.drop_first();
        match postfix_step_of(vals.len(), t, s[0].1) {
            PostfixStep::PushNumber => {
                let v = choose|v: V|
                    #[trigger] reads(t, v) && evaluation_outcome(
                        reads,
                        applies,
                        vals.push(v),
                        rest,
                        r,
                    );
                law_no_refusal_without_refusing_operation(reads, applies, vals.push(v), rest, r);
            },
            PostfixStep::Apply(op) => {
                let res = choose|res: Result<V, E>|
                    #[trigger] applies(op, vals[vals.len() - 2], vals[vals.len() - 1], res)
                        && match res {
                        Ok(v) => evaluation_outcome(
                            reads,
                            applies,
                            vals.drop_last().drop_last().push(v),
                            rest,
                            r,
                        ),
                        Err(e) => r == Err::<V, PostfixFailure<E>>(PostfixFailure::Operation(e)),
                    };
                if let Ok(v) = res {
                    law_no_refusal_without_refusing_operation(
                        reads,
                        applies,
                        vals.drop_last().drop_last().push(v),
                        rest,
                        r,
                    );
                }
            },
            PostfixStep::Fail(_) => {},
            PostfixStep::Skip => {
                law_no_refusal_without_refusing_operation(reads, applies, vals, rest, r);
            },
        }
    }
}

/// An evaluation with an operation that never refuses ends without a
/// refusal.
proof fn lemma_outcome_refusal<V, E>(
    reads: ReadRelation<V>,
    applies: ApplyRelation<V, E>,
    m: Seq<MarkedToken>,
    r: Result<V, PostfixFailure<E>>,
)
    requires
        evaluation_outcome(reads, applies, seq![], m, r),
    ensures
        (forall|op: Operator, a: V, b: V, res: Result<V, E>|
            #[trigger] applies(op, a, b, res) ==> res is Ok) ==> !(r matches Err(
            PostfixFailure::Operation(_),
        )),
{
    if forall|op: Operator, a: V, b: V, res: Result<V, E>|
        #[trigger] applies(op, a, b, res) ==> res is Ok {
        law_no_refusal_without_refusing_operation(reads, applies, seq![], m, r);
    }
}

impl Calculator {
    /// Evaluates a postfix sequence with the caller's arithmetic: `parse`
    /// reads a number token (it is called on number tokens only), `apply`
    /// carries out an operator on the left and right operands or refuses.
    /// `number_flags[i]` tells whether `postfix[i]` is a number.  The result
    /// is one that `evaluation_outcome` allows for what `parse` and `apply`
    /// gave: their first refusal, else the first malformation, else the one
    /// value left.
    pub fn evaluate_postfix_with<V, E, P: Fn(&str) -> V, A: Fn(Operator, V, V) -> Result<V, E>>(
        postfix: &[String],
        number_flags: &[bool],
        parse: P,
        apply: A,
    ) -> (r: Result<V, PostfixFailure<E>>)
        requires
            number_flags@.len() == postfix@.len(),
            forall|i: int, x: &str|
                #![trigger number_flags@[i], call_requires(parse, (x,))]
                0 <= i < postfix@.len() && number_flags@[i] && x@ == postfix@[i]@ ==> call_requires(
                    parse,
                    (x,),
                ),
            forall|op: Operator, a: V, b: V| call_requires(apply, (op, a, b)),
        ensures
            ({
                let trees = evaluate_postfix_trees(
                    marked_input(string_views(postfix@), number_flags@, postfix@.len()),
                );
                &&& r matches Ok(v) ==> (malformation(trees) is None && denotes(
                    parse,
                    apply,
                    trees.unwrap()[0],
                    v,
                ))
                &&& r matches Err(PostfixFailure::Malformed(e)) ==> malformation(trees) == Some(e)
                &&& malformation(trees) is Some ==> r is Err
                &&& ((forall|op: Operator, a: V, b: V, res: Result<V, E>|
                    #[trigger] call_ensures(apply, (op, a, b), res) ==> res is Ok)
                    && malformation(trees) is None) ==> r is Ok
            }),
            evaluation_outcome(
                |t: Seq<char>, v: V| exists|x: &str| x@ == t && call_ensures(parse, (x,), v),
                |op: Operator, a: V, b: V, res: Result<V, E>| call_ensures(apply, (op, a, b), res),
                seq![],
                marked_input(string_views(postfix@), number_flags@, postfix@.len()),
                r,
            ),
    {
        let ghost m = marked_input(string_views(postfix@), number_flags@, postfix@.len());
        let ghost reads = |t: Seq<char>, v: V| exists|x: &str| x@ == t && call_ensures(parse, (x,), v);
        let ghost applies = |op: Operator, a: V, b: V, res: Result<V, E>|
            call_ensures(apply, (op, a, b), res);
        let ghost mut ts: Seq<Expr> = seq![];
        let mut vals: Vec<V> = Vec::new();
        let n = postfix.len();
        let mut i: usize = 0;
        assert(m.take(0) =~= Seq::<MarkedToken>::empty());
        assert(m.skip(0) =~= m);
        assert(vals@ =~= Seq::<V>::empty());
        while i < n
            invariant
                n == postfix@.len(),
                number_flags@.len() == postfix@.len(),
                m == marked_input(string_views(postfix@), number_flags@, postfix@.len()),
                forall|i: int, x: &str|
                    #![trigger number_flags@[i], call_requires(parse, (x,))]
                    0 <= i < postfix@.len() && number_flags@[i] && x@ == postfix@[i]@
                        ==> call_requires(parse, (x,)),
                forall|op: Operator, a: V, b: V| call_requires(apply, (op, a, b)),
                i <= n,
                evaluate_from(Some(seq![]), m.take(i as int)) == Some(ts),
                ts.len() == vals@.len(),
                forall|k: int| 0 <= k < ts.len() ==> denotes(parse, apply, ts[k], #[trigger] vals@[k]),
                reads == (|t: Seq<char>, v: V| exists|x: &str| x@ == t && call_ensures(parse, (x,), v)),
                applies == (|op: Operator, a: V, b: V, res: Result<V, E>|
                    call_ensures(apply, (op, a, b), res)),
                forall|rr: Result<V, PostfixFailure<E>>|
                    #[trigger] evaluation_outcome(reads, applies, vals@, m.skip(i as int), rr)
                        ==> evaluation_outcome(reads, applies, seq![], m, rr),
            decreases n - i,
        {
            let token = postfix[i].as_str();
            let flag = number_flags[i];
            assert(m.take(i + 1).drop_last() =~= m.take(i as int));
            assert(m.take(i + 1).last() == (token@, flag));
            let ghost rest_now = m.skip(i as int);
            assert(rest_now.len() > 0 && rest_now[0] == (token@, flag));
            assert(rest_now.drop_first() =~= m.skip(i + 1));
            let ghost old_vals = vals@;
            let step = Calculator::postfix_step(vals.len(), token, flag);
            match step {
                PostfixStep::PushNumber => {
                    let v = parse(token);
                    assert(denotes(parse, apply, Expr::Num(token@), v));
                    assert(reads(token@, v));
                    vals.push(v);
                    assert forall|rr: Result<V, PostfixFailure<E>>|
                        #[trigger] evaluation_outcome(reads, applies, vals@, m.skip(i + 1), rr)
                        implies evaluation_outcome(reads, applies, seq![], m, rr) by {
                        assert(evaluation_outcome(reads, applies, old_vals, rest_now, rr));
                    }
                    proof {
                        ts = ts.push(Expr::Num(token@));
                        assert forall|k: int| 0 <= k < ts.len() implies denotes(
                            parse,
                            apply,
                            ts[k],
                            #[trigger] vals@[k],
                        ) by {
                            if k < old_vals.len() {
                                assert(vals@[k] == old_vals[k]);
                            }
                        }
                    }
                },
                PostfixStep::Apply(op) => {
                    let len = vals.len();
                    let b = vals.pop().unwrap();
                    let a = vals.pop().unwrap();
                    assert(a == old_vals[len - 2] && b == old_vals[len - 1]);
                    assert(denotes(parse, apply, ts[len - 2], a));
                    assert(denotes(parse, apply, ts[len - 1], b));
                    let res = apply(op, a, b);
                    let ghost gres = res;
                    assert(applies(op, a, b, gres));
                    assert(vals@ == old_vals.drop_last().drop_last());
                    match res {
                        Ok(v) => {
                            let ghost t = Expr::Op(
                                token@,
                                Box::new(ts[len - 2]),
                                Box::new(ts[len - 1]),
                            );
                            assert(denotes(parse, apply, t, v));
                            let ghost old_ts = ts;
                            vals.push(v);
                            assert forall|rr: Result<V, PostfixFailure<E>>|
                                #[trigger] evaluation_outcome(reads, applies, vals@, m.skip(i + 1), rr)
                                implies evaluation_outcome(reads, applies, seq![], m, rr) by {
                                assert(evaluation_outcome(reads, applies, old_vals, rest_now, rr));
                            }
                            proof {
                                ts = ts.drop_last().drop_last().push(t);
                                assert forall|k: int| 0 <= k < ts.len() implies denotes(
                                    parse,
                                    apply,
                                    ts[k],
                                    #[trigger] vals@[k],
                                ) by {
                                    if k < len - 2 {
                                        assert(vals@[k] == old_vals[k]);
                                        assert(ts[k] == old_ts[k]);
                                    }
                                }
                            }
                        },
                        Err(e) => {
                            let r = Err(PostfixFailure::Operation(e));
                            assert(evaluation_outcome(reads, applies, old_vals, rest_now, r));
                            proof {
                                lemma_outcome_refusal(reads, applies, m, r);
                            }
                            return r;
                        },
                    }
                },
                PostfixStep::Fail(e) => {
                    proof {
                        lemma_evaluate_concat(Some(seq![]), m.take(i + 1), m.skip(i + 1));
                        assert(m.take(i + 1) + m.skip(i + 1) =~= m);
                        lemma_evaluate_from_none(m.skip(i + 1));
                    }
                    let r = Err(PostfixFailure::Malformed(e));
                    assert(evaluation_outcome(reads, applies, old_vals, rest_now, r));
                    proof {
                        lemma_outcome_refusal(reads, applies, m, r);
                    }
                    return r;
                },
                PostfixStep::Skip => {
                    assert forall|rr: Result<V, PostfixFailure<E>>|
                        #[trigger] evaluation_outcome(reads, applies, vals@, m.skip(i + 1), rr)
                        implies evaluation_outcome(reads, applies, seq![], m, rr) by {
                        assert(evaluation_outcome(reads, applies, old_vals, rest_now, rr));
                    }
                },
            }
            i = i + 1;
        }
        assert(m.take(n as int) =~= m);
        assert(m.skip(n as int) =~= Seq::<MarkedToken>::empty());
        let ghost final_vals = vals@;
        let r = match Calculator::postfix_outcome(vals.len()) {
            Err(e) => Err(PostfixFailure::Malformed(e)),
            Ok(()) => {
                let v = vals.pop().unwrap();
                Ok(v)
            },
        };
        assert(evaluation_outcome(reads, applies, final_vals, m.skip(n as int), r));
        proof {
            lemma_outcome_refusal(reads, applies, m, r);
        }
        r
    }
}

/// The possible answers of a number test: `tests(t, b)` holds when `b` is
/// an answer the test may give for the token `t`.
pub type TestRelation = spec_fn(Seq<char>, bool) -> bool;

/// What evaluating the expression text `expr` can give, when `first` are
/// the number test's answers for its tokens and `second` those for the
/// postfix tokens: the tokens are converted to postfix order with the
/// first answers, and the postfix is evaluated with the second.
pub open spec fn expression_outcome<V, E>(
    expr: Seq<char>,
    tests: TestRelation,
    reads: ReadRelation<V>,
    applies: ApplyRelation<V, E>,
    first: Seq<bool>,
    second: Seq<bool>,
    r: Result<V, PostfixFailure<E>>,
) -> bool {
    let tokens = tokens_of(expr);
    let post = crate::postfix::postfix_of(tokens, first);
    &&& first.len() == tokens.len()
    &&& forall|i: int| 0 <= i < tokens.len() ==> #[trigger] tests(tokens[i], first[i])
    &&& second.len() == post.len()
    &&& forall|i: int| 0 <= i < post.len() ==> #[trigger] tests(post[i], second[i])
    &&& evaluation_outcome(reads, applies, seq![], marked_input(post, second, post.len()), r)
}

impl Calculator {
    /// Evaluates an expression text with the caller's number test and
    /// arithmetic: tokenizes it, marks its numbers with `is_number`,
    /// converts it to postfix order, marks the postfix numbers again, and
    /// evaluates the postfix with `parse` and `apply`.
    pub fn evaluate_expression_with<
        V,
        E,
        N: Fn(&str) -> bool,
        P: Fn(&str) -> V,
        A: Fn(Operator, V, V) -> Result<V, E>,
    >(expr: &str, is_number: N, parse: P, apply: A) -> (r: Result<V, PostfixFailure<E>>)
        requires
            forall|x: &str| call_requires(is_number, (x,)),
            forall|x: &str, y: &str|
                #![trigger call_ensures(is_number, (x,), true), call_requires(parse, (y,))]
                x@ == y@ && call_ensures(is_number, (x,), true) ==> call_requires(parse, (y,)),
            forall|op: Operator, a: V, b: V| call_requires(apply, (op, a, b)),
        ensures
            exists|first: Seq<bool>, second: Seq<bool>|
                #![trigger first.len(), second.len()]
                expression_outcome(
                    expr@,
                    |t: Seq<char>, b: bool| exists|x: &str| x@ == t && call_ensures(is_number, (x,), b),
                    |t: Seq<char>, v: V| exists|x: &str| x@ == t && call_ensures(parse, (x,), v),
                    |op: Operator, a: V, b: V, res: Result<V, E>| call_ensures(apply, (op, a, b), res),
                    first,
                    second,
                    r,
                ),
    {
        let ghost tests = |t: Seq<char>, b: bool| exists|x: &str| x@ == t && call_ensures(is_number, (x,), b);
        let tokens = Calculator::tokenize(expr);
        let mut first: Vec<bool> = Vec::new();
        let mut i: usize = 0;
        while i < tokens.len()
            invariant
                i <= tokens@.len(),
                first@.len() == i,
                forall|x: &str| call_requires(is_number, (x,)),
                forall|k: int| 0 <= k < i ==> #[trigger] tests(tokens@[k]@, first@[k]),
                tests == (|t: Seq<char>, b: bool| exists|x: &str| x@ == t && call_ensures(is_number, (x,), b)),
            decreases tokens@.len() - i,
        {
            let x = tokens[i].as_str();
            let b = is_number(x);
            assert(tests(tokens@[i as int]@, b));
            first.push(b);
            i = i + 1;
        }
        let postfix = Calculator::infix_to_postfix(&tokens, &first);
        let mut second: Vec<bool> = Vec::new();
        let mut j: usize = 0;
        while j < postfix.len()
            invariant
                j <= postfix@.len(),
                second@.len() == j,
                forall|x: &str| call_requires(is_number, (x,)),
                forall|k: int| 0 <= k < j ==> #[trigger] tests(postfix@[k]@, second@[k]),
                tests == (|t: Seq<char>, b: bool| exists|x: &str| x@ == t && call_ensures(is_number, (x,), b)),
            decreases postfix@.len() - j,
        {
            let x = postfix[j].as_str();
            let b = is_number(x);
            assert(tests(postfix@[j as int]@, b));
            second.push(b);
            j = j + 1;
        }
        assert forall|k: int, y: &str|
            #![trigger second@[k], call_requires(parse, (y,))]
            0 <= k < postfix@.len() && second@[k] && y@ == postfix@[k]@ implies call_requires(
                parse,
                (y,),
            ) by {
            assert(tests(postfix@[k]@, second@[k]));
        }
        let r = Calculator::evaluate_postfix_with(&postfix, &second, parse, apply);
        proof {
            let toks = tokens_of(expr@);
            let post = crate::postfix::postfix_of(toks, first@);
            assert(string_views(tokens@) == toks);
            assert(string_views(postfix@) == post);
            assert forall|k: int| 0 <= k < toks.len() implies #[trigger] tests(toks[k], first@[k]) by {
                assert(toks[k] == tokens@[k]@);
            }
            assert forall|k: int| 0 <= k < post.len() implies #[trigger] tests(post[k], second@[k]) by {
                assert(post[k] == postfix@[k]@);
            }
            assert(expression_outcome(
                expr@,
                tests,
                |t: Seq<char>, v: V| exists|x: &str| x@ == t && call_ensures(parse, (x,), v),
                |op: Operator, a: V, b: V, res: Result<V, E>| call_ensures(apply, (op, a, b), res),
                first@,
                second@,
                r,
            ));
            assert(first@.len() == first@.len() && second@.len() == second@.len());  // the trigger
        }
        r
    }
}


/// Each token is marked as a number exactly when it is a number written the
/// plain way.
pub open spec fn marked_plainly(s: Seq<MarkedToken>) -> bool {
    forall|i: int| 0 <= i < s.len() ==> (#[trigger] s[i]).1 == is_plain_number(s[i].0)
}

proof fn lemma_marked_plainly_concat(a: Seq<MarkedToken>, b: Seq<MarkedToken>)
    requires
        marked_plainly(a),
        marked_plainly(b),
    ensures
        marked_plainly(a + b),
{
    assert forall|i: int| 0 <= i < (a + b).len() implies (#[trigger] (a + b)[i]).1 == is_plain_number(
        (a + b)[i].0,
    ) by {
        if i < a.len() {
            assert((a + b)[i] == a[i]);
        } else {
            assert((a + b)[i] == b[i - a.len()]);
        }
    }
}

proof fn lemma_single_marked_plainly(m: MarkedToken)
    requires
        m.1 == is_plain_number(m.0),
    ensures
        marked_plainly(seq![m]),
{
    assert(seq![m][0] == m);
}

proof fn lemma_wrapped_marked_plainly(r: Seq<MarkedToken>)
    requires
        marked_plainly(r),
    ensures
        marked_plainly(wrapped(r)),
{
    assert(seq!['('][0] == '(');
    assert(seq![')'][0] == ')');
    lemma_single_marked_plainly(open_token());
    lemma_single_marked_plainly(close_token());
    lemma_marked_plainly_concat(seq![open_token()], r);
    lemma_marked_plainly_concat(seq![open_token()] + r, seq![close_token()]);
}

/// In the written tokens and in the postorder of an expression with plainly
/// written numbers, exactly the numbers are marked as numbers.
proof fn lemma_expression_marked_plainly(e: Expr)
    requires
        e.wf(),
        e.plain_numbers(),
    ensures
        marked_plainly(render(e)),
        marked_plainly(postorder(e)),
    decreases e,
{
    match e {
        Expr::Num(t) => {
            lemma_single_marked_plainly((t, true));
        },
        Expr::Group(x) => {
            lemma_expression_marked_plainly(*x);
            lemma_wrapped_marked_plainly(render(*x));
        },
        Expr::Op(o, a, b) => {
            lemma_expression_marked_plainly(*a);
            lemma_expression_marked_plainly(*b);
            lemma_wrapped_marked_plainly(render(*a));
            lemma_wrapped_marked_plainly(render(*b));
            if is_plain_number(o) {
                lemma_plain_number_not_symbol(o);
            }
            lemma_single_marked_plainly((o, false));
            let ra = if a.needs_parens_left(o) { wrapped(render(*a)) } else { render(*a) };
            let rb = if b.needs_parens_right(o) { wrapped(render(*b)) } else { render(*b) };
            lemma_marked_plainly_concat(ra, seq![(o, false)]);
            lemma_marked_plainly_concat(ra + seq![(o, false)], rb);
            lemma_marked_plainly_concat(postorder(*a), postorder(*b));
            lemma_marked_plainly_concat(postorder(*a) + postorder(*b), seq![(o, false)]);
        },
    }
}

/// Answers of a number test that recognises exactly the plain numbers are
/// the marks of tokens marked that way.
proof fn lemma_answers_are_marks(s: Seq<MarkedToken>, answers: Seq<bool>, tests: TestRelation)
    requires
        marked_plainly(s),
        forall|t: Seq<char>, b: bool| #[trigger] tests(t, b) <==> b == is_plain_number(t),
    ensures
        (answers.len() == s.len() && forall|i: int|
            0 <= i < s.len() ==> #[trigger] tests(texts(s)[i], answers[i])) <==> answers == marks(s),
{
    if answers.len() == s.len() && forall|i: int|
        0 <= i < s.len() ==> #[trigger] tests(texts(s)[i], answers[i]) {
        assert forall|i: int| 0 <= i < s.len() implies answers[i] == marks(s)[i] by {
            assert(tests(texts(s)[i], answers[i]));
            assert(texts(s)[i] == s[i].0);
            assert(s[i].1 == is_plain_number(s[i].0));
        }
        assert(answers =~= marks(s));
    }
    if answers == marks(s) {
        assert forall|i: int| 0 <= i < s.len() implies #[trigger] tests(texts(s)[i], answers[i]) by {
            assert(texts(s)[i] == s[i].0);
            assert(s[i].1 == is_plain_number(s[i].0));
            assert(answers[i] == s[i].1);
        }
    }
}

/// Evaluating the text written for an expression is evaluating its
/// postorder.  With a number test that recognises exactly the plainly
/// written numbers, the text of any expression whose numbers are written
/// that way is tokenized into the expression's tokens and converted to its
/// postorder, in which every operator keeps the symbol written in the text;
/// the outcomes of the whole evaluation are exactly those of evaluating
/// that postorder, where each operator symbol is applied as the operator
/// it names (`%` as the remainder, `/` as the quotient).
pub proof fn law_expression_text_evaluates_postorder<V, E>(
    e: Expr,
    tests: TestRelation,
    reads: ReadRelation<V>,
    applies: ApplyRelation<V, E>,
    first: Seq<bool>,
    second: Seq<bool>,
    r: Result<V, PostfixFailure<E>>,
)
    requires
        e.wf(),
        e.plain_numbers(),
        forall|t: Seq<char>, b: bool| #[trigger] tests(t, b) <==> b == is_plain_number(t),
    ensures
        tokens_of(written(e)) == texts(render(e)),
        crate::postfix::postfix_of(tokens_of(written(e)), marks(render(e))) == texts(postorder(e)),
        expression_outcome(written(e), tests, reads, applies, first, second, r) <==> {
            &&& first == marks(render(e))
            &&& second == marks(postorder(e))
            &&& evaluation_outcome(reads, applies, seq![], postorder(e), r)
        },
{
    law_tokenize_written_expression(e);
    law_postfix_evaluates_to_meaning(e);
    lemma_expression_marked_plainly(e);
    let m = render(e);
    let p = postorder(e);
    let tokens = tokens_of(written(e));
    assert(tokens == texts(m));
    assert(texts(m).len() == m.len());
    assert(texts(p).len() == p.len());
    lemma_answers_are_marks(m, first, tests);
    lemma_answers_are_marks(p, second, tests);
    lemma_marked_roundtrip(p);
    if first == marks(m) {
        assert(crate::postfix::postfix_of(tokens, first) == texts(p));
    }
    if expression_outcome(written(e), tests, reads, applies, first, second, r) {
        assert(first == marks(m));
        assert(second == marks(p));
    }
}

/// `v` is a value of the tree `t` when its numbers are read as `reads`
/// allows and each operator symbol is carried out, as `applies` allows, as
/// the operator it names.
pub open spec fn tree_value<V, E>(
    reads: ReadRelation<V>,
    applies: ApplyRelation<V, E>,
    t: Expr,
    v: V,
) -> bool
    decreases t,
{
    match t {
        Expr::Num(s) => reads(s, v),
        Expr::Op(o, a, b) => exists|va: V, vb: V|
            #![trigger applies(operator_of_token(o).unwrap(), va, vb, Ok(v))]
            tree_value(reads, applies, *a, va) && tree_value(reads, applies, *b, vb) && applies(
                operator_of_token(o).unwrap(),
                va,
                vb,
                Ok(v),
            ),
        Expr::Group(x) => tree_value(reads, applies, *x, v),
    }
}

/// An evaluation that gets through the postorder of `e` and succeeds has
/// pushed a value of `e` in its place.
proof fn lemma_outcome_through_postorder<V, E>(
    reads: ReadRelation<V>,
    applies: ApplyRelation<V, E>,
    e: Expr,
    vals: Seq<V>,
    rest: Seq<MarkedToken>,
    r: Result<V, PostfixFailure<E>>,
)
    requires
        e.wf(),
        r is Ok,
        evaluation_outcome(reads, applies, vals, postorder(e) + rest, r),
    ensures
        exists|v: V|
            #[trigger] tree_value(reads, applies, e, v) && evaluation_outcome(
                reads,
                applies,
                vals.push(v),
                rest,
                r,
            ),
    decreases e,
{
    match e {
        Expr::Num(t) => {
            let s = postorder(e) + rest;
            assert(s[0] == (t, true));
            assert(s.drop_first() =~= rest);
            let v = choose|v: V|
                #[trigger] reads(t, v) && evaluation_outcome(reads, applies, vals.push(v), rest, r);
            assert(tree_value(reads, applies, e, v));
        },
        Expr::Group(x) => {
            lemma_outcome_through_postorder(reads, applies, *x, vals, rest, r);
            let v = choose|v: V|
                #[trigger] tree_value(reads, applies, *x, v) && evaluation_outcome(
                    reads,
                    applies,
                    vals.push(v),
                    rest,
                    r,
                );
            assert(tree_value(reads, applies, e, v));
        },
        Expr::Op(o, a, b) => {
            let pa = postorder(*a);
            let pb = postorder(*b);
            let last = seq![(o, false)] + rest;
            let tail = pb + last;
            assert(postorder(e) + rest =~= pa + tail);
            lemma_outcome_through_postorder(reads, applies, *a, vals, tail, r);
            let va = choose|v: V|
                #[trigger] tree_value(reads, applies, *a, v) && evaluation_outcome(
                    reads,
                    applies,
                    vals.push(v),
                    tail,
                    r,
                );
            lemma_outcome_through_postorder(reads, applies, *b, vals.push(va), last, r);
            let vb = choose|v: V|
                #[trigger] tree_value(reads, applies, *b, v) && evaluation_outcome(
                    reads,
                    applies,
                    vals.push(va).push(v),
                    last,
                    r,
                );
            let vals2 = vals.push(va).push(vb);
            let op = operator_of_token(o).unwrap();
            assert(last[0] == (o, false));
            assert(last.drop_first() =~= rest);
            assert(vals2[vals2.len() - 2] == va);
            assert(vals2[vals2.len() - 1] == vb);
            assert(postfix_step_of(vals2.len(), o, false) == PostfixStep::Apply(op));
            let res = choose|res: Result<V, E>|
                #[trigger] applies(op, vals2[vals2.len() - 2], vals2[vals2.len() - 1], res) && match res {
                    Ok(v) => evaluation_outcome(
                        reads,
                        applies,
                        vals2.drop_last().drop_last().push(v),
                        rest,
                        r,
                    ),
                    Err(x) => r == Err::<V, PostfixFailure<E>>(PostfixFailure::Operation(x)),
                };
            let v = res->Ok_0;
            assert(vals2.drop_last().drop_last() =~= vals);
            assert(tree_value(reads, applies, *a, va) && tree_value(reads, applies, *b, vb) && applies(
                op,
                va,
                vb,
                Ok(v),
            ));
            assert(tree_value(reads, applies, e, v));
            assert(evaluation_outcome(reads, applies, vals.push(v), rest, r));
        },
    }
}

/// What evaluating the text of an expression gives is a value of that
/// expression: when the evaluation succeeds with `v`, each number of the
/// expression was read and each operator symbol written in the text was
/// carried out as the operator it names (`%` as the remainder, never as a
/// quotient) on the values of its two operands, the left one first.
pub proof fn law_expression_text_value<V, E>(
    e: Expr,
    tests: TestRelation,
    reads: ReadRelation<V>,
    applies: ApplyRelation<V, E>,
    first: Seq<bool>,
    second: Seq<bool>,
    v: V,
)
    requires
        e.wf(),
        e.plain_numbers(),
        forall|t: Seq<char>, b: bool| #[trigger] tests(t, b) <==> b == is_plain_number(t),
        expression_outcome(written(e), tests, reads, applies, first, second, Ok(v)),
    ensures
        tree_value(reads, applies, e, v),
{
    let r = Ok::<V, PostfixFailure<E>>(v);
    law_expression_text_evaluates_postorder(e, tests, reads, applies, first, second, r);
    assert(postorder(e) + Seq::<MarkedToken>::empty() =~= postorder(e));
    lemma_outcome_through_postorder(reads, applies, e, seq![], seq![], r);
    let w = choose|w: V|
        #[trigger] tree_value(reads, applies, e, w) && evaluation_outcome(
            reads,
            applies,
            Seq::<V>::empty().push(w),
            Seq::<MarkedToken>::empty(),
            r,
        );
    assert(Seq::<V>::empty().push(w)[0] == w);
}

} // verus!
