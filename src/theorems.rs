//! Facts about the tokenizer and the parser taken together: what a single
//! comparison becomes, and how parentheses around a whole expression behave,
//! matched or not.

use vstd::prelude::*;
use crate::lexer::{
    advance_over, is_name_char, is_name_start, lex_spec, name_end, quote_at, step, Comparator,
    JoinType, Lexeme, Step, TokenView,
};
use crate::parser::{
    binds_at_least, build_from, drain, grouping_message, leaf_at, parse_spec, pop_binding,
    pop_to_open, postfix_from, postfix_order, prec, BuildError, Expr, GroupingError, LitView,
    ParseError, MAX_TOKENS,
};
use crate::types::Loc;

verus! {

// ---------------------------------------------------------------------------
// A single comparison, from text to tree.

/// The text of a comparator.
pub open spec fn comparator_text(c: Comparator) -> Seq<char> {
    match c {
        Comparator::Equal => seq!['='],
        Comparator::NotEqual => seq!['!', '='],
        Comparator::LessThan => seq!['<'],
        Comparator::GreaterThan => seq!['>'],
        Comparator::LessThanOrEqual => seq!['<', '='],
        Comparator::GreaterThanOrEqual => seq!['>', '='],
    }
}

/// A name: a letter or `_`, then letters, digits and `_`.
pub open spec fn is_name(n: Seq<char>) -> bool {
    &&& n.len() > 0
    &&& is_name_start(n[0])
    &&& forall|k: int| 0 <= k < n.len() ==> is_name_char(#[trigger] n[k])
}

/// The text `name CMP "value"`.
pub open spec fn comparison_text(n: Seq<char>, c: Comparator, v: Seq<char>) -> Seq<char> {
    n + seq![' '] + comparator_text(c) + seq![' ', '"'] + v + seq!['"']
}

proof fn lemma_name_end_at(t: Seq<char>, a: int, j: int)
    requires
        1 <= j <= a < t.len(),
        forall|k: int| 1 <= k < a ==> is_name_char(#[trigger] t[k]),
        !is_name_char(t[a]),
    ensures
        name_end(t, j) == a,
    decreases a - j,
{
    if j < a {
        lemma_name_end_at(t, a, j + 1);
    }
}

proof fn lemma_quote_at(t: Seq<char>, q: int, j: int)
    requires
        0 <= j <= q < t.len(),
        forall|k: int| j <= k < q ==> #[trigger] t[k] != '"',
        t[q] == '"',
    ensures
        quote_at(t, j) == q,
    decreases q - j,
{
    if j < q {
        lemma_quote_at(t, q, j + 1);
    }
}

proof fn lemma_name_step(t: Seq<char>, n: Seq<char>, l: Loc)
    requires
        is_name(n),
        n.len() < t.len(),
        forall|k: int| 0 <= k < n.len() ==> t[k] == n[k],
        t[n.len() as int] == ' ',
    ensures
        step(t, 0, l) == Step::Emit(
            TokenView { kind: Lexeme::Name(n), source: n, start: l, end: advance_over(l, n) },
            n.len() as int,
        ),
{
    let a = n.len() as int;
    assert forall|k: int| 1 <= k < a implies is_name_char(#[trigger] t[k]) by {
        assert(is_name_char(n[k]));
    }
    lemma_name_end_at(t, a, 1);
    assert(t.subrange(0, a) =~= n);
}

proof fn lemma_comparator_step(t: Seq<char>, b: int, c: Comparator, l: Loc)
    requires
        0 <= b,
        b + comparator_text(c).len() < t.len(),
        forall|k: int| 0 <= k < comparator_text(c).len() ==> t[b + k] == comparator_text(c)[k],
        t[b + comparator_text(c).len()] == ' ',
    ensures
        step(t, b, l) == Step::Emit(
            TokenView {
                kind: Lexeme::Comparator(c),
                source: comparator_text(c),
                start: l,
                end: advance_over(l, comparator_text(c)),
            },
            b + comparator_text(c).len(),
        ),
{
    let ct = comparator_text(c);
    assert(t[b] == ct[0]);
    if ct.len() == 2 {
        assert(t[b + 1] == ct[1]);
    } else {
        assert(t[b + 1] == ' ');
    }
    assert(t.subrange(b, b + ct.len()) =~= ct);
}

proof fn lemma_string_step(t: Seq<char>, e: int, v: Seq<char>, l: Loc)
    requires
        0 <= e,
        e + v.len() + 1 < t.len(),
        t[e] == '"',
        forall|k: int| 0 <= k < v.len() ==> t[e + 1 + k] == v[k],
        forall|k: int| 0 <= k < v.len() ==> #[trigger] v[k] != '"',
        t[e + 1 + v.len()] == '"',
    ensures
        step(t, e, l) == Step::Emit(
            TokenView {
                kind: Lexeme::Str(v),
                source: t.subrange(e, e + v.len() + 2),
                start: l,
                end: advance_over(l, t.subrange(e, e + v.len() + 2)),
            },
            e + v.len() + 2,
        ),
{
    let q = e + 1 + v.len();
    assert forall|k: int| e + 1 <= k < q implies #[trigger] t[k] != '"' by {
        assert(t[k] == v[k - (e + 1)]);
    }
    lemma_quote_at(t, q, e + 1);
    assert(t.subrange(e + 1, q) =~= v);
}

/// The tokenizing half of `lemma_single_comparison`: exactly three tokens, with these kinds.
proof fn lemma_lex_comparison(n: Seq<char>, c: Comparator, v: Seq<char>, l: Loc)
    requires
        is_name(n),
        forall|k: int| 0 <= k < v.len() ==> #[trigger] v[k] != '"',
    ensures
        ({
            let (toks, err) = lex_spec(comparison_text(n, c, v), 0, l);
            &&& err is None
            &&& toks.len() == 3
            &&& toks[0].kind == Lexeme::Name(n)
            &&& toks[1].kind == Lexeme::Comparator(c)
            &&& toks[2].kind == Lexeme::Str(v)
        }),
{
    let t = comparison_text(n, c, v);
    let ct = comparator_text(c);
    let a = n.len() as int;
    let b = a + 1;
    let d = b + ct.len();
    let e = d + 1;
    let q = e + 1 + v.len();
    assert(t.len() == q + 1);
    assert forall|k: int| 0 <= k < a implies t[k] == n[k] by {}
    assert(t[a] == ' ');
    assert forall|k: int| 0 <= k < ct.len() implies t[b + k] == ct[k] by {}
    assert(t[d] == ' ');
    assert(t[e] == '"');
    assert forall|k: int| 0 <= k < v.len() implies t[e + 1 + k] == v[k] by {}
    assert(t[q] == '"');

    lemma_name_step(t, n, l);
    let l0 = advance_over(l, n);
    assert(step(t, a, l0) == Step::Skip(b));
    let l1 = advance_over(l0, t.subrange(a, b));
    lemma_comparator_step(t, b, c, l1);
    let l2 = advance_over(l1, ct);
    assert(step(t, d, l2) == Step::Skip(e));
    let l3 = advance_over(l2, t.subrange(d, e));
    lemma_string_step(t, e, v, l3);
    let src2 = t.subrange(e, q + 1);
    let tok2 = TokenView { kind: Lexeme::Str(v), source: src2, start: l3, end: advance_over(l3, src2) };
    let tok1 = TokenView { kind: Lexeme::Comparator(c), source: ct, start: l1, end: l2 };

    assert(lex_spec(t, q + 1, tok2.end).0.len() == 0);
    assert(lex_spec(t, e, l3).0 =~= seq![tok2]);
    assert(lex_spec(t, e, l3).1 is None);
    assert(lex_spec(t, d, l2) == lex_spec(t, e, l3));
    assert(lex_spec(t, b, l1).0 =~= seq![tok1, tok2]);
    assert(lex_spec(t, a, l0) == lex_spec(t, b, l1));
}

/// The parsing half of `lemma_single_comparison`.
proof fn lemma_parse_comparison(toks: Seq<TokenView>, n: Seq<char>, c: Comparator, v: Seq<char>)
    requires
        toks.len() == 3,
        toks[0].kind == Lexeme::Name(n),
        toks[1].kind == Lexeme::Comparator(c),
        toks[2].kind == Lexeme::Str(v),
    ensures
        parse_spec(toks) == Ok::<Expr, ParseError>(
            Expr::Group(JoinType::And, seq![Expr::Leaf(n, c, LitView::Str(v))])),
{
    assert(toks.len() <= MAX_TOKENS);
    let k = toks.map_values(|x: TokenView| x.kind);
    assert(postfix_from(k, 3, seq![0, 1, 2], seq![], false) == Ok::<Seq<int>, GroupingError>(seq![0, 1, 2]));
    assert(postfix_from(k, 2, seq![0, 1], seq![], false) == postfix_from(k, 3, seq![0, 1, 2], seq![], false)) by {
        assert(seq![0int, 1].push(2) =~= seq![0int, 1, 2]);
    }
    assert(postfix_from(k, 1, seq![0], seq![], false) == postfix_from(k, 2, seq![0, 1], seq![], false)) by {
        assert(seq![0int].push(1) =~= seq![0int, 1]);
    }
    assert(postfix_from(k, 0, seq![], seq![], true) == postfix_from(k, 1, seq![0], seq![], false)) by {
        assert(Seq::<int>::empty().push(0) =~= seq![0int]);
    }
    let order = seq![0int, 1, 2];
    assert(order.map_values(|x: int| toks[x]) =~= toks);
    let leaf = Expr::Leaf(n, c, LitView::Str(v));
    assert(leaf_at(toks, 0) == Some(leaf));
    assert(build_from(toks, 3, seq![leaf]) == Ok::<Seq<Expr>, BuildError>(seq![leaf]));
    assert(build_from(toks, 0, seq![]) == build_from(toks, 3, seq![leaf])) by {
        assert(Seq::<Expr>::empty().push(leaf) =~= seq![leaf]);
    }
}

/// A comparison `name CMP "value"` on its own tokenizes to exactly its name,
/// its comparator and its value, and parses to a group of that one comparison.
pub proof fn lemma_single_comparison(n: Seq<char>, c: Comparator, v: Seq<char>, l: Loc)
    requires
        is_name(n),
        forall|k: int| 0 <= k < v.len() ==> #[trigger] v[k] != '"',
    ensures
        ({
            let (toks, err) = lex_spec(comparison_text(n, c, v), 0, l);
            &&& err is None
            &&& toks.len() == 3
            &&& toks[0].kind == Lexeme::Name(n)
            &&& toks[1].kind == Lexeme::Comparator(c)
            &&& toks[2].kind == Lexeme::Str(v)
            &&& parse_spec(toks) == Ok::<Expr, ParseError>(
                Expr::Group(JoinType::And, seq![Expr::Leaf(n, c, LitView::Str(v))]))
        }),
{
    lemma_lex_comparison(n, c, v, l);
    let toks = lex_spec(comparison_text(n, c, v), 0, l).0;
    lemma_parse_comparison(toks, n, c, v);
}

// ---------------------------------------------------------------------------
// Parentheses around a whole expression.

pub open spec fn shift(s: Seq<int>) -> Seq<int> {
    s.map_values(|x: int| x + 1)
}

/// The stack of the wrapped run: the outer open parenthesis at the bottom.
pub open spec fn wrapped(s: Seq<int>) -> Seq<int> {
    seq![0int] + shift(s)
}

/// `k2` starts with an open parenthesis followed by `k`.
pub open spec fn prefixed(k: Seq<Lexeme>, k2: Seq<Lexeme>) -> bool {
    &&& k2.len() >= k.len() + 1
    &&& k2[0] is Open
    &&& forall|x: int| 0 <= x < k.len() ==> #[trigger] k2[x + 1] == k[x]
}

/// `k2` is `k` with an open parenthesis before it and a close one after it.
pub open spec fn wraps(k: Seq<Lexeme>, k2: Seq<Lexeme>) -> bool {
    &&& prefixed(k, k2)
    &&& k2.len() == k.len() + 2
    &&& k2[k.len() + 1int] is Close
}

pub open spec fn in_range(s: Seq<int>, n: int) -> bool {
    forall|x: int| 0 <= x < s.len() ==> 0 <= #[trigger] s[x] < n
}

proof fn lemma_shift_push(s: Seq<int>, x: int)
    ensures
        shift(s.push(x)) == shift(s).push(x + 1),
        wrapped(s.push(x)) == wrapped(s).push(x + 1),
{
    assert(shift(s.push(x)) =~= shift(s).push(x + 1));
    assert(wrapped(s.push(x)) =~= wrapped(s).push(x + 1));
}

proof fn lemma_wrapped_top(s: Seq<int>)
    requires
        s.len() > 0,
    ensures
        wrapped(s).len() > 0,
        wrapped(s).last() == s.last() + 1,
        wrapped(s).drop_last() == wrapped(s.drop_last()),
{
    assert(wrapped(s).drop_last() =~= wrapped(s.drop_last()));
}

proof fn lemma_wrap_pop_binding(k: Seq<Lexeme>, k2: Seq<Lexeme>, out: Seq<int>, stack: Seq<int>, p: int, b: int)
    requires
        prefixed(k, k2),
        b <= k.len(),
        in_range(out, b),
        in_range(stack, b),
    ensures
        pop_binding(k2, shift(out), wrapped(stack), p)
            == (shift(pop_binding(k, out, stack, p).0), wrapped(pop_binding(k, out, stack, p).1)),
        in_range(pop_binding(k, out, stack, p).0, b),
        in_range(pop_binding(k, out, stack, p).1, b),
    decreases stack.len(),
{
    if stack.len() > 0 {
        let x = stack.last();
        lemma_wrapped_top(stack);
        assert(k2[x + 1] == k[x]);
        if binds_at_least(k, x, p) {
            lemma_shift_push(out, x);
            lemma_wrap_pop_binding(k, k2, out.push(x), stack.drop_last(), p, b);
        }
    } else {
        assert(wrapped(stack) =~= seq![0int]);
    }
}

proof fn lemma_wrap_pop_to_open(k: Seq<Lexeme>, k2: Seq<Lexeme>, out: Seq<int>, stack: Seq<int>, b: int)
    requires
        prefixed(k, k2),
        b <= k.len(),
        in_range(out, b),
        in_range(stack, b),
        pop_to_open(k, out, stack) is Some,
    ensures
        pop_to_open(k2, shift(out), wrapped(stack))
            == Some((shift((pop_to_open(k, out, stack)->0).0), wrapped((pop_to_open(k, out, stack)->0).1))),
        in_range((pop_to_open(k, out, stack)->0).0, b),
        in_range((pop_to_open(k, out, stack)->0).1, b),
    decreases stack.len(),
{
    let x = stack.last();
    lemma_wrapped_top(stack);
    assert(k2[x + 1] == k[x]);
    if !(k[x] is Open) {
        lemma_shift_push(out, x);
        lemma_wrap_pop_to_open(k, k2, out.push(x), stack.drop_last(), b);
    }
}

proof fn lemma_wrap_drain(k: Seq<Lexeme>, k2: Seq<Lexeme>, out: Seq<int>, stack: Seq<int>)
    requires
        prefixed(k, k2),
        in_range(out, k.len() as int),
        in_range(stack, k.len() as int),
        drain(k, out, stack) is Ok,
    ensures
        pop_to_open(k2, shift(out), wrapped(stack)) == Some((shift(drain(k, out, stack)->Ok_0), Seq::<int>::empty())),
        in_range(drain(k, out, stack)->Ok_0, k.len() as int),
    decreases stack.len(),
{
    if stack.len() > 0 {
        let x = stack.last();
        lemma_wrapped_top(stack);
        assert(k2[x + 1] == k[x]);
        lemma_shift_push(out, x);
        lemma_wrap_drain(k, k2, out.push(x), stack.drop_last());
    } else {
        assert(wrapped(stack) =~= seq![0int]);
        assert(seq![0int].drop_last() =~= Seq::<int>::empty());
    }
}

/// Whether `k` ends with something that can close an operand.
pub open spec fn ends_with_operand(k: Seq<Lexeme>) -> bool {
    k.len() > 0 && !(k.last() is Join) && !(k.last() is Open)
}

proof fn lemma_wrap_postfix(k: Seq<Lexeme>, k2: Seq<Lexeme>, i: int, out: Seq<int>, stack: Seq<int>, operand_next: bool)
    requires
        wraps(k, k2),
        ends_with_operand(k),
        0 <= i <= k.len(),
        in_range(out, i),
        in_range(stack, i),
        i == k.len() ==> !operand_next,
        postfix_from(k, i, out, stack, operand_next) is Ok,
    ensures
        postfix_from(k2, i + 1, shift(out), wrapped(stack), operand_next)
            == Ok::<Seq<int>, GroupingError>(shift(postfix_from(k, i, out, stack, operand_next)->Ok_0)),
        in_range(postfix_from(k, i, out, stack, operand_next)->Ok_0, k.len() as int),
    decreases k.len() - i,
{
    let n = k.len() as int;
    assert(in_range(out, n));
    assert(in_range(stack, n));
    if i == n {
        lemma_wrap_drain(k, k2, out, stack);
        let r = drain(k, out, stack)->Ok_0;
        assert(postfix_from(k2, n + 2, shift(r), Seq::<int>::empty(), false) == drain(k2, shift(r), Seq::<int>::empty()));
    } else {
        assert(k2[i + 1] == k[i]);
        match k[i] {
            Lexeme::Open => {
                lemma_shift_push(stack, i);
                lemma_wrap_postfix(k, k2, i + 1, out, stack.push(i), true);
            },
            Lexeme::Close => {
                lemma_wrap_pop_to_open(k, k2, out, stack, i);
                let (o, s2) = pop_to_open(k, out, stack)->0;
                assert(in_range(o, i + 1));
                assert(in_range(s2, i + 1));
                lemma_wrap_postfix(k, k2, i + 1, o, s2, false);
            },
            Lexeme::Join(j) => {
                lemma_wrap_pop_binding(k, k2, out, stack, prec(j), i);
                let (o, s2) = pop_binding(k, out, stack, prec(j));
                assert(i + 1 < n) by {
                    if i + 1 == n {
                        assert(k.last() == k[i]);
                    }
                }
                assert(in_range(o, i + 1));
                assert(in_range(s2.push(i), i + 1));
                lemma_shift_push(s2, i);
                lemma_wrap_postfix(k, k2, i + 1, o, s2.push(i), true);
            },
            _ => {
                lemma_shift_push(out, i);
                assert(in_range(out.push(i), i + 1));
                lemma_wrap_postfix(k, k2, i + 1, out.push(i), stack, false);
            },
        }
    }
}

/// Wrapping a whole expression in parentheses leaves its tree unchanged: for
/// tokens `t` that parse and end with an operand (not with an operator or an
/// open parenthesis), `( t )` parses to the same tree as `t`, where the two
/// parentheses keep it within `MAX_TOKENS`.
pub proof fn lemma_parenthesized_expression(t: Seq<TokenView>, open: TokenView, close: TokenView)
    requires
        open.kind is Open,
        close.kind is Close,
        parse_spec(t) is Ok,
        t.len() + 2 <= MAX_TOKENS,
        ends_with_operand(t.map_values(|x: TokenView| x.kind)),
    ensures
        parse_spec(seq![open] + t + seq![close]) == parse_spec(t),
{
    let t2 = seq![open] + t + seq![close];
    let k = t.map_values(|x: TokenView| x.kind);
    let k2 = t2.map_values(|x: TokenView| x.kind);
    assert forall|x: int| 0 <= x < t.len() implies #[trigger] t2[x + 1] == t[x] by {}
    assert forall|x: int| 0 <= x < k.len() implies #[trigger] k2[x + 1] == k[x] by {
        assert(t2[x + 1] == t[x]);
    }
    assert(k2[k.len() + 1int] == close.kind);
    assert(wraps(k, k2));
    lemma_wrap_postfix(k, k2, 0, seq![], seq![], true);
    let order = postfix_order(k)->Ok_0;
    assert(shift(Seq::<int>::empty()) =~= Seq::<int>::empty());
    assert(wrapped(Seq::<int>::empty()) =~= Seq::<int>::empty().push(0));
    assert(postfix_order(k2) == Ok::<Seq<int>, GroupingError>(shift(order)));
    assert(shift(order).map_values(|x: int| t2[x]) =~= order.map_values(|x: int| t[x])) by {
        assert forall|m: int| 0 <= m < order.len() implies shift(order)[m] == order[m] + 1 && 0 <= #[trigger] order[m] < t.len() by {}
    }
}

proof fn lemma_open_drain(k: Seq<Lexeme>, k2: Seq<Lexeme>, out: Seq<int>, stack: Seq<int>)
    requires
        prefixed(k, k2),
        in_range(stack, k.len() as int),
        drain(k, out, stack) is Ok,
    ensures
        drain(k2, shift(out), wrapped(stack)) == Err::<Seq<int>, GroupingError>(GroupingError::Unclosed),
    decreases stack.len(),
{
    if stack.len() > 0 {
        let x = stack.last();
        lemma_wrapped_top(stack);
        assert(k2[x + 1] == k[x]);
        lemma_shift_push(out, x);
        lemma_open_drain(k, k2, out.push(x), stack.drop_last());
    } else {
        assert(wrapped(stack) =~= seq![0int]);
    }
}

proof fn lemma_open_postfix(k: Seq<Lexeme>, k2: Seq<Lexeme>, i: int, out: Seq<int>, stack: Seq<int>, operand_next: bool)
    requires
        prefixed(k, k2),
        k2.len() == k.len() + 1,
        0 <= i <= k.len(),
        in_range(out, i),
        in_range(stack, i),
        postfix_from(k, i, out, stack, operand_next) is Ok,
    ensures
        postfix_from(k2, i + 1, shift(out), wrapped(stack), operand_next) == Err::<Seq<int>, GroupingError>(GroupingError::Unclosed),
    decreases k.len() - i,
{
    let n = k.len() as int;
    if i == n {
        lemma_open_drain(k, k2, out, stack);
    } else {
        assert(k2[i + 1] == k[i]);
        match k[i] {
            Lexeme::Open => {
                lemma_shift_push(stack, i);
                lemma_open_postfix(k, k2, i + 1, out, stack.push(i), true);
            },
            Lexeme::Close => {
                lemma_wrap_pop_to_open(k, k2, out, stack, i);
                let (o, s2) = pop_to_open(k, out, stack)->0;
                lemma_open_postfix(k, k2, i + 1, o, s2, false);
            },
            Lexeme::Join(j) => {
                lemma_wrap_pop_binding(k, k2, out, stack, prec(j), i);
                let (o, s2) = pop_binding(k, out, stack, prec(j));
                assert(in_range(s2.push(i), i + 1));
                lemma_shift_push(s2, i);
                lemma_open_postfix(k, k2, i + 1, o, s2.push(i), true);
            },
            _ => {
                lemma_shift_push(out, i);
                assert(in_range(out.push(i), i + 1));
                lemma_open_postfix(k, k2, i + 1, out.push(i), stack, false);
            },
        }
    }
}

/// `k2` is `k` followed by a close parenthesis.
pub open spec fn suffixed(k: Seq<Lexeme>, k2: Seq<Lexeme>) -> bool {
    &&& k2.len() == k.len() + 1
    &&& k2[k.len() as int] is Close
    &&& forall|x: int| 0 <= x < k.len() ==> #[trigger] k2[x] == k[x]
}

proof fn lemma_close_pop_binding(k: Seq<Lexeme>, k2: Seq<Lexeme>, out: Seq<int>, stack: Seq<int>, p: int, b: int)
    requires
        suffixed(k, k2),
        b <= k.len(),
        in_range(out, b),
        in_range(stack, b),
    ensures
        pop_binding(k2, out, stack, p) == pop_binding(k, out, stack, p),
        in_range(pop_binding(k, out, stack, p).0, b),
        in_range(pop_binding(k, out, stack, p).1, b),
    decreases stack.len(),
{
    if stack.len() > 0 {
        let x = stack.last();
        assert(k2[x] == k[x]);
        if binds_at_least(k, x, p) {
            lemma_close_pop_binding(k, k2, out.push(x), stack.drop_last(), p, b);
        }
    }
}

proof fn lemma_close_pop_to_open(k: Seq<Lexeme>, k2: Seq<Lexeme>, out: Seq<int>, stack: Seq<int>, b: int)
    requires
        suffixed(k, k2),
        b <= k.len(),
        in_range(out, b),
        in_range(stack, b),
    ensures
        pop_to_open(k2, out, stack) == pop_to_open(k, out, stack),
        pop_to_open(k, out, stack) is Some ==> in_range((pop_to_open(k, out, stack)->0).0, b)
            && in_range((pop_to_open(k, out, stack)->0).1, b),
    decreases stack.len(),
{
    if stack.len() > 0 {
        let x = stack.last();
        assert(k2[x] == k[x]);
        if !(k[x] is Open) {
            lemma_close_pop_to_open(k, k2, out.push(x), stack.drop_last(), b);
        }
    }
}

proof fn lemma_drain_without_open(k: Seq<Lexeme>, out: Seq<int>, stack: Seq<int>)
    requires
        drain(k, out, stack) is Ok,
    ensures
        pop_to_open(k, out, stack) is None,
    decreases stack.len(),
{
    if stack.len() > 0 {
        lemma_drain_without_open(k, out.push(stack.last()), stack.drop_last());
    }
}

proof fn lemma_close_postfix(k: Seq<Lexeme>, k2: Seq<Lexeme>, i: int, out: Seq<int>, stack: Seq<int>, operand_next: bool)
    requires
        suffixed(k, k2),
        ends_with_operand(k),
        0 <= i <= k.len(),
        in_range(out, i),
        in_range(stack, i),
        i == k.len() ==> !operand_next,
        postfix_from(k, i, out, stack, operand_next) is Ok,
    ensures
        postfix_from(k2, i, out, stack, operand_next) == Err::<Seq<int>, GroupingError>(GroupingError::UnmatchedClose),
    decreases k.len() - i,
{
    let n = k.len() as int;
    if i == n {
        lemma_drain_without_open(k, out, stack);
        lemma_close_pop_to_open(k, k2, out, stack, i);
    } else {
        assert(k2[i] == k[i]);
        match k[i] {
            Lexeme::Open => {
                lemma_close_postfix(k, k2, i + 1, out, stack.push(i), true);
            },
            Lexeme::Close => {
                lemma_close_pop_to_open(k, k2, out, stack, i);
                let (o, s2) = pop_to_open(k, out, stack)->0;
                lemma_close_postfix(k, k2, i + 1, o, s2, false);
            },
            Lexeme::Join(j) => {
                lemma_close_pop_binding(k, k2, out, stack, prec(j), i);
                let (o, s2) = pop_binding(k, out, stack, prec(j));
                assert(i + 1 < n) by {
                    if i + 1 == n {
                        assert(k.last() == k[i]);
                    }
                }
                assert(in_range(s2.push(i), i + 1));
                lemma_close_postfix(k, k2, i + 1, o, s2.push(i), true);
            },
            _ => {
                assert(in_range(out.push(i), i + 1));
                lemma_close_postfix(k, k2, i + 1, out.push(i), stack, false);
            },
        }
    }
}

/// An unmatched parenthesis is a structural error, with a message of its own
/// for each side: after tokens `t` that parse and end with an operand, an
/// extra close parenthesis fails as unmatched; before any tokens `t` that
/// parse, an extra open parenthesis fails as unclosed (where the extra token
/// keeps the tokens within `MAX_TOKENS`).
pub proof fn lemma_unmatched_parenthesis(t: Seq<TokenView>, open: TokenView, close: TokenView)
    requires
        open.kind is Open,
        close.kind is Close,
        parse_spec(t) is Ok,
        t.len() + 1 <= MAX_TOKENS,
    ensures
        ends_with_operand(t.map_values(|x: TokenView| x.kind)) ==> parse_spec(t + seq![close])
            == Err::<Expr, ParseError>(ParseError::Grouping(GroupingError::UnmatchedClose)),
        parse_spec(seq![open] + t) == Err::<Expr, ParseError>(ParseError::Grouping(GroupingError::Unclosed)),
        grouping_message(GroupingError::UnmatchedClose) != grouping_message(GroupingError::Unclosed),
{
    let k = t.map_values(|x: TokenView| x.kind);
    let tc = t + seq![close];
    let kc = tc.map_values(|x: TokenView| x.kind);
    assert forall|x: int| 0 <= x < k.len() implies #[trigger] kc[x] == k[x] by {
        assert(tc[x] == t[x]);
    }
    assert(kc[k.len() as int] == close.kind);
    assert(suffixed(k, kc));
    if ends_with_operand(k) {
        lemma_close_postfix(k, kc, 0, seq![], seq![], true);
    }

    let to = seq![open] + t;
    let ko = to.map_values(|x: TokenView| x.kind);
    assert forall|x: int| 0 <= x < k.len() implies #[trigger] ko[x + 1] == k[x] by {
        assert(to[x + 1] == t[x]);
    }
    assert(prefixed(k, ko));
    lemma_open_postfix(k, ko, 0, seq![], seq![], true);
    assert(shift(Seq::<int>::empty()) =~= Seq::<int>::empty());
    assert(wrapped(Seq::<int>::empty()) =~= Seq::<int>::empty().push(0));

    reveal_strlit("Close parentheses was found without a preceding open parentheses");
    reveal_strlit("Unclosed parentheses!");
    assert(grouping_message(GroupingError::Unclosed).len() != grouping_message(GroupingError::UnmatchedClose).len());
}

} // verus!
