//! The parser: reorders tokens into postfix form by operator precedence and
//! grouping, then rebuilds the expression tree from that form with a stack,
//! flattening runs of the same join operator.

use vstd::prelude::*;
use crate::lexer::{token_views, Comparator, JoinType, Lexeme, Token, TokenData, TokenView, Value};

verus! {

broadcast use {
    vstd::seq::axiom_seq_index_decreases,
    vstd::seq::axiom_seq_subrange_decreases,
    vstd::std_specs::vec::axiom_vec_decreases_to_view,
};

#[derive(Clone, Debug, PartialEq, Eq)]
pub enum Literal {
    Number(String),
    String(String),
}

/// A leaf of the tree: `name comparator value`.
#[derive(Clone, Debug, PartialEq, Eq)]
pub struct Comparison {
    pub name: String,
    pub comparator: Comparator,
    pub value: Literal,
}

/// A group of comparisons and subgroups joined by one operator.
#[derive(Debug, PartialEq, Eq)]
pub struct Search {
    pub comparisons: Vec<ComparisonOrSearch>,
    pub join_type: JoinType,
}

#[derive(Debug, PartialEq, Eq)]
pub enum ComparisonOrSearch {
    Comparison(Comparison),
    Search(Search),
}

// ---------------------------------------------------------------------------
// The model of expressions.

pub enum LitView {
    Number(Seq<char>),
    Str(Seq<char>),
}

pub enum Expr {
    Leaf(Seq<char>, Comparator, LitView),
    Group(JoinType, Seq<Expr>),
}

pub open spec fn lit_of(l: Literal) -> LitView {
    match l {
        Literal::Number(n) => LitView::Number(n@),
        Literal::String(s) => LitView::Str(s@),
    }
}

pub open spec fn expr_of(e: ComparisonOrSearch) -> Expr
    decreases e,
{
    match e {
        ComparisonOrSearch::Comparison(c) => Expr::Leaf(c.name@, c.comparator, lit_of(c.value)),
        ComparisonOrSearch::Search(s) => Expr::Group(s.join_type, exprs_of(s.comparisons@)),
    }
}

pub open spec fn exprs_of(s: Seq<ComparisonOrSearch>) -> Seq<Expr>
    decreases s,
{
    if s.len() == 0 {
        seq![]
    } else {
        exprs_of(s.subrange(0, s.len() - 1)).push(expr_of(s[s.len() - 1]))
    }
}

impl View for ComparisonOrSearch {
    type V = Expr;

    open spec fn view(&self) -> Expr {
        expr_of(*self)
    }
}

impl View for Search {
    type V = Expr;

    open spec fn view(&self) -> Expr {
        Expr::Group(self.join_type, exprs_of(self.comparisons@))
    }
}

// ---------------------------------------------------------------------------
// The precedence resolver.

/// The structural errors of the precedence resolver.
pub enum GroupingError {
    /// An open parenthesis right after a comparison or a close parenthesis.
    ExpectedOperator,
    /// A close parenthesis where an operand should start: right after a join
    /// operator, an open parenthesis, or at the start.
    CloseAfterOperator,
    /// A close parenthesis with no open one before it.
    UnmatchedClose,
    /// An open parenthesis that is never closed.
    Unclosed,
}

pub open spec fn grouping_message(e: GroupingError) -> Seq<char> {
    match e {
        GroupingError::ExpectedOperator => "Expected operator but found open parentheses"@,
        GroupingError::CloseAfterOperator => "Unexpected close parentheses after operator"@,
        GroupingError::UnmatchedClose => "Close parentheses was found without a preceding open parentheses"@,
        GroupingError::Unclosed => "Unclosed parentheses!"@,
    }
}

/// How tightly a join operator binds.
pub open spec fn prec(j: JoinType) -> int {
    match j {
        JoinType::Or => 0,
        JoinType::And => 1,
        JoinType::Xor => 2,
    }
}

/// Whether the token at index `x` is a join operator binding at least as
/// tightly as `p`.
pub open spec fn binds_at_least(k: Seq<Lexeme>, x: int, p: int) -> bool {
    match k[x] {
        Lexeme::Join(j) => prec(j) >= p,
        _ => false,
    }
}

/// Moves operators from the top of the stack (its last element) to the output
/// while they bind at least as tightly as `p`.
pub open spec fn pop_binding(k: Seq<Lexeme>, out: Seq<int>, stack: Seq<int>, p: int) -> (Seq<int>, Seq<int>)
    decreases stack.len(),
{
    if stack.len() > 0 && binds_at_least(k, stack.last(), p) {
        pop_binding(k, out.push(stack.last()), stack.drop_last(), p)
    } else {
        (out, stack)
    }
}

/// Moves operators from the stack to the output down to the nearest open
/// parenthesis, which is dropped; `None` where there is none.
pub open spec fn pop_to_open(k: Seq<Lexeme>, out: Seq<int>, stack: Seq<int>) -> Option<(Seq<int>, Seq<int>)>
    decreases stack.len(),
{
    if stack.len() == 0 {
        None
    } else if k[stack.last()] is Open {
        Some((out, stack.drop_last()))
    } else {
        pop_to_open(k, out.push(stack.last()), stack.drop_last())
    }
}

/// Moves what is left on the stack to the output; an open parenthesis left
/// there was never closed.
pub open spec fn drain(k: Seq<Lexeme>, out: Seq<int>, stack: Seq<int>) -> Result<Seq<int>, GroupingError>
    decreases stack.len(),
{
    if stack.len() == 0 {
        Ok(out)
    } else if k[stack.last()] is Open {
        Err(GroupingError::Unclosed)
    } else {
        drain(k, out.push(stack.last()), stack.drop_last())
    }
}

/// The shunting-yard pass over `k[i..]`, given the output so far, the stack
/// of pending operators and open parentheses, and whether an operand may
/// start here (at the start, after an operator or an open parenthesis).
pub open spec fn postfix_from(k: Seq<Lexeme>, i: int, out: Seq<int>, stack: Seq<int>, operand_next: bool) -> Result<Seq<int>, GroupingError>
    decreases k.len() - i,
{
    if i < 0 || i >= k.len() {
        drain(k, out, stack)
    } else {
        match k[i] {
            Lexeme::Open => if !operand_next {
                Err(GroupingError::ExpectedOperator)
            } else {
                postfix_from(k, i + 1, out, stack.push(i), true)
            },
            Lexeme::Close => if operand_next {
                Err(GroupingError::CloseAfterOperator)
            } else {
                match pop_to_open(k, out, stack) {
                    None => Err(GroupingError::UnmatchedClose),
                    Some((o, s)) => postfix_from(k, i + 1, o, s, false),
                }
            },
            Lexeme::Join(j) => {
                let (o, s) = pop_binding(k, out, stack, prec(j));
                postfix_from(k, i + 1, o, s.push(i), true)
            },
            _ => postfix_from(k, i + 1, out.push(i), stack, false),
        }
    }
}

pub open spec fn kinds(t: Seq<TokenData>) -> Seq<Lexeme> {
    t.map_values(|x: TokenData| x.token@)
}

/// The postfix order of `k`, as indices into `k`.
pub open spec fn postfix_order(k: Seq<Lexeme>) -> Result<Seq<int>, GroupingError> {
    postfix_from(k, 0, seq![], seq![], true)
}

pub open spec fn all_below(s: Seq<int>, n: int) -> bool {
    forall|x: int| 0 <= x < s.len() ==> 0 <= #[trigger] s[x] < n
}

fn precedence(j: JoinType) -> (r: u8)
    ensures
        r == prec(j),
{
    match j {
        JoinType::Or => 0,
        JoinType::And => 1,
        JoinType::Xor => 2,
    }
}

fn copy_token(t: &TokenData) -> (r: TokenData)
    ensures
        r == *t,
{
    let token = match &t.token {
        Token::Name(n) => Token::Name(n.clone()),
        Token::Comparator(c) => Token::Comparator(*c),
        Token::Value(Value::Number(n)) => Token::Value(Value::Number(n.clone())),
        Token::Value(Value::String(s)) => Token::Value(Value::String(s.clone())),
        Token::JoinType(j) => Token::JoinType(*j),
        Token::OpenParen => Token::OpenParen,
        Token::CloseParen => Token::CloseParen,
    };
    TokenData {
        token,
        source: t.source.clone(),
        start: t.start,
        start_line: t.start_line,
        start_col: t.start_col,
        end: t.end,
        end_line: t.end_line,
        end_col: t.end_col,
    }
}

fn grouping_error(e: Ghost<GroupingError>, message: &str) -> (r: String)
    requires
        message@ == grouping_message(e@),
    ensures
        r@ == grouping_message(e@),
{
    String::from_str(message)
}

/// Reorders `tokens` from infix to postfix form: comparisons keep their order,
/// each join operator follows its operands, with `Xor` binding tighter than
/// `And` and `And` tighter than `Or`, operators of one level associating to
/// the left, and parentheses grouping. Parentheses do not appear in the result.
pub fn to_postfix(tokens: Vec<TokenData>) -> (r: Result<Vec<TokenData>, String>)
    ensures
        match (r, postfix_order(kinds(tokens@))) {
            (Ok(v), Ok(order)) => v@ == order.map_values(|x: int| tokens@[x]) && all_below(order, tokens@.len() as int),
            (Err(m), Err(e)) => m@ == grouping_message(e),
            _ => false,
        },
{
    let ghost k = kinds(tokens@);
    let n: usize = tokens.len();
    let mut out: Vec<usize> = Vec::new();
    let mut stack: Vec<usize> = Vec::new();
    let mut operand_next = true;
    let mut i: usize = 0;
    assert(out@.map_values(|x: usize| x as int) =~= Seq::<int>::empty());
    assert(stack@.map_values(|x: usize| x as int) =~= Seq::<int>::empty());
    while i < n
        invariant
            i <= n,
            n == tokens@.len(),
            k == kinds(tokens@),
            postfix_from(k, i as int, out@.map_values(|x: usize| x as int), stack@.map_values(|x: usize| x as int), operand_next)
                == postfix_order(k),
            forall|x: int| 0 <= x < out@.len() ==> out@[x] < i,
            forall|x: int| 0 <= x < stack@.len() ==> stack@[x] < i,
        decreases n - i,
    {
        let ghost o = out@.map_values(|x: usize| x as int);
        let ghost s = stack@.map_values(|x: usize| x as int);
        assert(k[i as int] == tokens@[i as int].token@);
        assert(k.len() == n);
        match &tokens[i].token {
            Token::OpenParen => {
                if !operand_next {
                    return Err(grouping_error(Ghost(GroupingError::ExpectedOperator), "Expected operator but found open parentheses"));
                }
                stack.push(i);
                assert(stack@.map_values(|x: usize| x as int) =~= s.push(i as int));
                assert(postfix_from(k, i as int, o, s, operand_next) == postfix_from(k, i + 1, o, s.push(i as int), true));
            },
            Token::CloseParen => {
                if operand_next {
                    return Err(grouping_error(Ghost(GroupingError::CloseAfterOperator), "Unexpected close parentheses after operator"));
                }
                loop
                    invariant_except_break
                        pop_to_open(k, out@.map_values(|x: usize| x as int), stack@.map_values(|x: usize| x as int))
                            == pop_to_open(k, o, s),
                    invariant
                        k == kinds(tokens@),
                        n == tokens@.len(),
                        i < n,
                        !operand_next,
                        k[i as int] is Close,
                        postfix_from(k, i as int, o, s, operand_next) == postfix_order(k),
                        forall|x: int| 0 <= x < out@.len() ==> out@[x] < i,
                        forall|x: int| 0 <= x < stack@.len() ==> stack@[x] < i,
                    ensures
                        pop_to_open(k, o, s) == Some((out@.map_values(|x: usize| x as int), stack@.map_values(|x: usize| x as int))),
                    decreases stack@.len(),
                {
                    let ghost s1 = stack@.map_values(|x: usize| x as int);
                    let ghost o1 = out@.map_values(|x: usize| x as int);
                    match stack.pop() {
                        None => {
                            return Err(grouping_error(Ghost(GroupingError::UnmatchedClose), "Close parentheses was found without a preceding open parentheses"));
                        },
                        Some(top) => {
                            assert(s1.last() == top as int);
                            assert(stack@.map_values(|x: usize| x as int) =~= s1.drop_last());
                            assert(k[top as int] == tokens@[top as int].token@);
                            if let Token::OpenParen = &tokens[top].token {
                                break;
                            }
                            out.push(top);
                            assert(out@.map_values(|x: usize| x as int) =~= o1.push(top as int));
                        },
                    }
                }
            },
            Token::JoinType(j) => {
                let p = precedence(*j);
                loop
                    invariant
                        k == kinds(tokens@),
                        n == tokens@.len(),
                        i < n,
                        pop_binding(k, out@.map_values(|x: usize| x as int), stack@.map_values(|x: usize| x as int), p as int)
                            == pop_binding(k, o, s, p as int),
                        k[i as int] == Lexeme::Join(*j),
                        p == prec(*j),
                        postfix_from(k, i as int, o, s, operand_next) == postfix_order(k),
                        forall|x: int| 0 <= x < out@.len() ==> out@[x] < i,
                        forall|x: int| 0 <= x < stack@.len() ==> stack@[x] < i,
                    ensures
                        pop_binding(k, o, s, p as int) == (out@.map_values(|x: usize| x as int), stack@.map_values(|x: usize| x as int)),
                    decreases stack@.len(),
                {
                    let ghost s1 = stack@.map_values(|x: usize| x as int);
                    let ghost o1 = out@.map_values(|x: usize| x as int);
                    if stack.len() == 0 {
                        break;
                    }
                    let top = stack[stack.len() - 1];
                    assert(s1.last() == top as int);
                    assert(k[top as int] == tokens@[top as int].token@);
                    let binds = match &tokens[top].token {
                        Token::JoinType(t) => precedence(*t) >= p,
                        _ => false,
                    };
                    if !binds {
                        break;
                    }
                    stack.pop();
                    out.push(top);
                    assert(stack@.map_values(|x: usize| x as int) =~= s1.drop_last());
                    assert(out@.map_values(|x: usize| x as int) =~= o1.push(top as int));
                }
                let ghost s2 = stack@.map_values(|x: usize| x as int);
                let ghost o2 = out@.map_values(|x: usize| x as int);
                stack.push(i);
                assert(stack@.map_values(|x: usize| x as int) =~= s2.push(i as int));
                assert(postfix_from(k, i as int, o, s, operand_next) == postfix_from(k, i + 1, o2, s2.push(i as int), true));
                operand_next = true;
            },
            _ => {
                out.push(i);
                assert(out@.map_values(|x: usize| x as int) =~= o.push(i as int));
                assert(postfix_from(k, i as int, o, s, operand_next) == postfix_from(k, i + 1, o.push(i as int), s, false));
                operand_next = false;
            },
        }
        i = i + 1;
    }
    loop
        invariant
            k == kinds(tokens@),
            n == tokens@.len(),
            drain(k, out@.map_values(|x: usize| x as int), stack@.map_values(|x: usize| x as int)) == postfix_order(k),
            forall|x: int| 0 <= x < out@.len() ==> out@[x] < n,
            forall|x: int| 0 <= x < stack@.len() ==> stack@[x] < n,
        ensures
            postfix_order(k) == Ok::<Seq<int>, GroupingError>(out@.map_values(|x: usize| x as int)),
            forall|x: int| 0 <= x < out@.len() ==> out@[x] < n,
        decreases stack@.len(),
    {
        let ghost s1 = stack@.map_values(|x: usize| x as int);
        let ghost o1 = out@.map_values(|x: usize| x as int);
        match stack.pop() {
            None => {
                break;
            },
            Some(top) => {
                assert(s1.last() == top as int);
                assert(stack@.map_values(|x: usize| x as int) =~= s1.drop_last());
                assert(k[top as int] == tokens@[top as int].token@);
                if let Token::OpenParen = &tokens[top].token {
                    return Err(grouping_error(Ghost(GroupingError::Unclosed), "Unclosed parentheses!"));
                }
                out.push(top);
                assert(out@.map_values(|x: usize| x as int) =~= o1.push(top as int));
            },
        }
    }
    let ghost order = out@.map_values(|x: usize| x as int);
    let mut result: Vec<TokenData> = Vec::new();
    let mut m: usize = 0;
    while m < out.len()
        invariant
            m <= out@.len(),
            n == tokens@.len(),
            order == out@.map_values(|x: usize| x as int),
            k == kinds(tokens@),
            postfix_order(k) == Ok::<Seq<int>, GroupingError>(order),
            forall|x: int| 0 <= x < out@.len() ==> out@[x] < n,
            result@ == order.subrange(0, m as int).map_values(|x: int| tokens@[x]),
        decreases out@.len() - m,
    {
        let t = copy_token(&tokens[out[m]]);
        result.push(t);
        assert(order.subrange(0, m + 1).map_values(|x: int| tokens@[x])
            =~= order.subrange(0, m as int).map_values(|x: int| tokens@[x]).push(tokens@[out@[m as int] as int]));
        m = m + 1;
    }
    assert(order.subrange(0, out@.len() as int) =~= order);
    assert(all_below(order, n as int));
    Ok(result)
}

// ---------------------------------------------------------------------------
// The tree builder.

pub proof fn lemma_exprs_push(s: Seq<ComparisonOrSearch>, x: ComparisonOrSearch)
    ensures
        exprs_of(s.push(x)) == exprs_of(s).push(expr_of(x)),
{
    assert(s.push(x).subrange(0, s.len() as int) =~= s);
}

pub proof fn lemma_exprs_len(s: Seq<ComparisonOrSearch>)
    ensures
        exprs_of(s).len() == s.len(),
    decreases s.len(),
{
    if s.len() > 0 {
        lemma_exprs_len(s.subrange(0, s.len() - 1));
    }
}

pub proof fn lemma_exprs_concat(a: Seq<ComparisonOrSearch>, b: Seq<ComparisonOrSearch>)
    ensures
        exprs_of(a + b) == exprs_of(a) + exprs_of(b),
    decreases b.len(),
{
    if b.len() == 0 {
        assert(a + b =~= a);
        assert(exprs_of(a) + exprs_of(b) =~= exprs_of(a));
    } else {
        let b1 = b.subrange(0, b.len() - 1);
        lemma_exprs_concat(a, b1);
        assert((a + b).subrange(0, (a + b).len() - 1) =~= a + b1);
        assert(b.subrange(0, b.len() - 1) =~= b1);
        assert((a + b)[(a + b).len() - 1] == b[b.len() - 1]);
        assert(exprs_of(a) + exprs_of(b1).push(expr_of(b[b.len() - 1]))
            =~= (exprs_of(a) + exprs_of(b1)).push(expr_of(b[b.len() - 1])));
    }
}

/// The structural errors of the tree builder.
pub enum BuildError {
    /// A token that cannot start an operand, with its source text.
    Unexpected(Seq<char>),
    /// A name not followed by a comparator and a value, with its source text.
    Incomplete(Seq<char>),
    /// Two operands with no operator between them.
    MissingOperator,
}

pub open spec fn build_message(e: BuildError) -> Seq<char> {
    match e {
        BuildError::Unexpected(src) => "Unexpected token `"@ + src + "`"@,
        BuildError::Incomplete(src) => "Incomplete comparison starting at `"@ + src + "`"@,
        BuildError::MissingOperator => "Expected an operator between comparisons"@,
    }
}

pub open spec fn lit_of_kind(k: Lexeme) -> LitView {
    match k {
        Lexeme::Number(n) => LitView::Number(n),
        Lexeme::Str(s) => LitView::Str(s),
        _ => LitView::Str(seq![]),
    }
}

/// The comparison `name comparator value` that starts at `p[i]`, if there is one.
pub open spec fn leaf_at(p: Seq<TokenView>, i: int) -> Option<Expr> {
    if 0 <= i && i + 2 < p.len() && p[i].kind is Name && p[i + 1].kind is Comparator
        && (p[i + 2].kind is Number || p[i + 2].kind is Str) {
        Some(Expr::Leaf(p[i].kind->Name_0, p[i + 1].kind->Comparator_0, lit_of_kind(p[i + 2].kind)))
    } else {
        None
    }
}

/// The children that an operand adds to a group under `j`: none if it is
/// missing, the children of a group under `j` itself, or else the operand.
pub open spec fn merged(j: JoinType, e: Option<Expr>) -> Seq<Expr> {
    match e {
        None => seq![],
        Some(Expr::Group(j2, cs)) => if j2 == j {
            cs
        } else {
            seq![Expr::Group(j2, cs)]
        },
        Some(x) => seq![x],
    }
}

pub open spec fn pop_operand(s: Seq<Expr>) -> (Option<Expr>, Seq<Expr>) {
    if s.len() == 0 {
        (None, s)
    } else {
        (Some(s.last()), s.drop_last())
    }
}

/// Evaluates the postfix tokens `p[i..]` on a stack of operands: a
/// comparison is pushed; an operator takes the two operands below it (as many
/// as there are) and pushes their group. The result is the final stack.
pub open spec fn build_from(p: Seq<TokenView>, i: int, stack: Seq<Expr>) -> Result<Seq<Expr>, BuildError>
    decreases p.len() - i,
{
    if i < 0 || i >= p.len() {
        Ok(stack)
    } else {
        match p[i].kind {
            Lexeme::Name(_) => match leaf_at(p, i) {
                Some(leaf) => build_from(p, i + 3, stack.push(leaf)),
                None => Err(BuildError::Incomplete(p[i].source)),
            },
            Lexeme::Join(j) => {
                let (right, s1) = pop_operand(stack);
                let (left, s2) = pop_operand(s1);
                build_from(p, i + 1, s2.push(Expr::Group(j, merged(j, left) + merged(j, right))))
            },
            _ => Err(BuildError::Unexpected(p[i].source)),
        }
    }
}

/// The tree that a final stack stands for: always a group at the top, `And`
/// where the stack holds no operator to tell.
pub open spec fn tree_of(stack: Seq<Expr>) -> Result<Expr, BuildError> {
    if stack.len() == 0 {
        Ok(Expr::Group(JoinType::And, seq![]))
    } else if stack.len() == 1 {
        match stack[0] {
            Expr::Group(j, cs) => Ok(Expr::Group(j, cs)),
            leaf => Ok(Expr::Group(JoinType::And, seq![leaf])),
        }
    } else {
        Err(BuildError::MissingOperator)
    }
}

/// The most tokens that `parse` takes. It bounds how deep a tree can nest,
/// and so how deep dropping or comparing one recurses.
pub const MAX_TOKENS: usize = 10000;

pub enum ParseError {
    TooLong,
    Grouping(GroupingError),
    Build(BuildError),
}

pub open spec fn parse_message(e: ParseError) -> Seq<char> {
    match e {
        ParseError::TooLong => "Filter has too many tokens"@,
        ParseError::Grouping(g) => grouping_message(g),
        ParseError::Build(b) => build_message(b),
    }
}

/// The tree of the postfix tokens `p`.
pub open spec fn tree_spec(p: Seq<TokenView>) -> Result<Expr, BuildError> {
    match build_from(p, 0, seq![]) {
        Ok(stack) => tree_of(stack),
        Err(e) => Err(e),
    }
}

/// The tree of the infix tokens `t`.
pub open spec fn parse_spec(t: Seq<TokenView>) -> Result<Expr, ParseError> {
    if t.len() > MAX_TOKENS {
        Err(ParseError::TooLong)
    } else {
        match postfix_order(t.map_values(|x: TokenView| x.kind)) {
            Err(e) => Err(ParseError::Grouping(e)),
            Ok(order) => match tree_spec(order.map_values(|x: int| t[x])) {
                Ok(e) => Ok(e),
                Err(e) => Err(ParseError::Build(e)),
            },
        }
    }
}

pub open spec fn opt_expr(o: Option<ComparisonOrSearch>) -> Option<Expr> {
    match o {
        None => None,
        Some(e) => Some(expr_of(e)),
    }
}

/// Adds `subtree` to the children of `search`, splicing in its children
/// where it is a group under the same operator.
fn merge_subtree(search: &mut Search, subtree: Option<ComparisonOrSearch>)
    ensures
        final(search).join_type == old(search).join_type,
        exprs_of(final(search).comparisons@) == exprs_of(old(search).comparisons@) + merged(old(search).join_type, opt_expr(subtree)),
{
    let ghost before = search.comparisons@;
    match subtree {
        None => {
            assert(exprs_of(before) + seq![] =~= exprs_of(before));
        },
        Some(ComparisonOrSearch::Search(mut sub)) => {
            if sub.join_type == search.join_type {
                let ghost other = sub.comparisons@;
                search.comparisons.append(&mut sub.comparisons);
                proof {
                    lemma_exprs_concat(before, other);
                }
            } else {
                search.comparisons.push(ComparisonOrSearch::Search(sub));
                proof {
                    lemma_exprs_push(before, search.comparisons@.last());
                }
            }
        },
        Some(leaf) => {
            search.comparisons.push(leaf);
            proof {
                lemma_exprs_push(before, search.comparisons@.last());
            }
        },
    }
}

fn message_with_source(head: &str, source: &String, tail: &str) -> (r: String)
    ensures
        r@ == head@ + source@ + tail@,
{
    let mut m = String::from_str(head);
    m.append(source.as_str());
    m.append(tail);
    m
}

fn build_error(e: Ghost<BuildError>, m: String) -> (r: String)
    requires
        m@ == build_message(e@),
    ensures
        r@ == build_message(e@),
{
    m
}

/// Builds the tree of the postfix tokens `postfix`, reading them left to right
/// with an explicit stack of operands, so that deep nesting does not deepen
/// the call stack.
fn build_tree(postfix: &Vec<TokenData>) -> (r: Result<Search, String>)
    ensures
        match (r, tree_spec(token_views(postfix@))) {
            (Ok(s), Ok(e)) => s@ == e,
            (Err(m), Err(e)) => m@ == build_message(e),
            _ => false,
        },
{
    let ghost p = token_views(postfix@);
    let n: usize = postfix.len();
    let mut stack: Vec<ComparisonOrSearch> = Vec::new();
    let mut i: usize = 0;
    assert(exprs_of(stack@) =~= Seq::<Expr>::empty());
    while i < n
        invariant
            i <= n,
            n == postfix@.len(),
            p == token_views(postfix@),
            build_from(p, i as int, exprs_of(stack@)) == build_from(p, 0, seq![]),
        decreases n - i,
    {
        let ghost st = exprs_of(stack@);
        let ghost stack0 = stack@;
        proof {
            lemma_exprs_len(stack@);
        }
        assert(p[i as int] == postfix@[i as int]@);
        match &postfix[i].token {
            Token::Name(name) => {
                let mut leaf: Option<Comparison> = None;
                if n - i > 2 {
                    assert(p[i + 1] == postfix@[i + 1]@);
                    assert(p[i + 2] == postfix@[i + 2]@);
                    if let Token::Comparator(c) = &postfix[i + 1].token {
                        match &postfix[i + 2].token {
                            Token::Value(Value::Number(v)) => {
                                leaf = Some(Comparison { name: name.clone(), comparator: *c, value: Literal::Number(v.clone()) });
                            },
                            Token::Value(Value::String(v)) => {
                                leaf = Some(Comparison { name: name.clone(), comparator: *c, value: Literal::String(v.clone()) });
                            },
                            _ => {},
                        }
                    }
                }
                match leaf {
                    Some(c) => {
                        let ghost e = expr_of(ComparisonOrSearch::Comparison(c));
                        assert(leaf_at(p, i as int) == Some(e));
                        stack.push(ComparisonOrSearch::Comparison(c));
                        proof {
                            lemma_exprs_push(stack@.drop_last(), stack@.last());
                            assert(stack@.drop_last() =~= stack0);
                        }
                        i = i + 3;
                    },
                    None => {
                        assert(leaf_at(p, i as int) is None);
                        let m = message_with_source("Incomplete comparison starting at `", &postfix[i].source, "`");
                        return Err(build_error(Ghost(BuildError::Incomplete(p[i as int].source)), m));
                    },
                }
            },
            Token::JoinType(j) => {
                let right = stack.pop();
                let left = stack.pop();
                let ghost rest = stack@;
                let ghost g_all = exprs_of(rest);
                proof {
                    lemma_exprs_len(rest);
                    if right is Some {
                        if left is Some {
                            lemma_exprs_push(rest, left->0);
                            lemma_exprs_push(rest.push(left->0), right->0);
                            assert(rest.push(left->0).push(right->0) =~= stack0);
                            assert(st.drop_last() =~= g_all.push(expr_of(left->0)));
                            assert(st.drop_last().drop_last() =~= g_all);
                        } else {
                            lemma_exprs_push(rest, right->0);
                            assert(rest.push(right->0) =~= stack0);
                            assert(st.drop_last() =~= g_all);
                        }
                    } else {
                        assert(rest =~= stack0);
                    }
                }
                let mut search = Search { comparisons: Vec::new(), join_type: *j };
                assert(exprs_of(search.comparisons@) =~= Seq::<Expr>::empty());
                merge_subtree(&mut search, left);
                merge_subtree(&mut search, right);
                let ghost g = ComparisonOrSearch::Search(search);
                stack.push(ComparisonOrSearch::Search(search));
                proof {
                    assert(stack@ =~= rest.push(g));
                    lemma_exprs_push(rest, g);
                    assert(Seq::<Expr>::empty() + merged(*j, opt_expr(left)) + merged(*j, opt_expr(right))
                        =~= merged(*j, opt_expr(left)) + merged(*j, opt_expr(right)));
                }
                i = i + 1;
            },
            _ => {
                let m = message_with_source("Unexpected token `", &postfix[i].source, "`");
                return Err(build_error(Ghost(BuildError::Unexpected(p[i as int].source)), m));
            },
        }
    }
    proof {
        lemma_exprs_len(stack@);
    }
    if stack.len() > 1 {
        return Err(build_error(Ghost(BuildError::MissingOperator), String::from_str("Expected an operator between comparisons")));
    }
    let ghost fin = stack@;
    proof {
        if fin.len() == 1 {
            lemma_exprs_push(Seq::<ComparisonOrSearch>::empty(), fin[0]);
            assert(fin =~= Seq::<ComparisonOrSearch>::empty().push(fin[0]));
        }
    }
    match stack.pop() {
        None => (Ok(Search { comparisons: Vec::new(), join_type: JoinType::And })),
        Some(ComparisonOrSearch::Search(s)) => (Ok(s)),
        Some(leaf) => {
            let mut comparisons: Vec<ComparisonOrSearch> = Vec::new();
            comparisons.push(leaf);
            proof {
                lemma_exprs_push(Seq::<ComparisonOrSearch>::empty(), leaf);
                assert(comparisons@ =~= Seq::<ComparisonOrSearch>::empty().push(leaf));
            }
            (Ok(Search { comparisons, join_type: JoinType::And }))
        },
    }
}

/// Parses infix tokens into a tree whose top is always a group: the
/// precedence resolver orders them, then the builder makes the tree. Either
/// stage can fail with a structural error, which comes back as its message;
/// more than `MAX_TOKENS` tokens are refused.
pub fn parse(tokens: Vec<TokenData>) -> (r: Result<Search, String>)
    ensures
        match (r, parse_spec(token_views(tokens@))) {
            (Ok(s), Ok(e)) => s@ == e,
            (Err(m), Err(e)) => m@ == parse_message(e),
            _ => false,
        },
        r is Ok ==> flat(r->Ok_0@),
{
    proof {
        lemma_parse_is_flat(token_views(tokens@));
    }
    let ghost t = token_views(tokens@);
    let ghost orig = tokens@;
    if tokens.len() > MAX_TOKENS {
        return Err(String::from_str("Filter has too many tokens"));
    }
    assert(t.map_values(|x: TokenView| x.kind) =~= kinds(tokens@));
    let postfix = match to_postfix(tokens) {
        Ok(v) => v,
        Err(m) => {
            return Err(m);
        },
    };
    let ghost order = postfix_order(kinds(orig))->Ok_0;
    assert(token_views(postfix@) =~= order.map_values(|x: int| t[x])) by {
        assert forall|m: int| 0 <= m < order.len() implies #[trigger] postfix@[m]@ == t[order[m]] by {
            assert(0 <= order[m] < orig.len());
        }
    }
    build_tree(&postfix)
}

// ---------------------------------------------------------------------------
// Flattening.

/// No group holds, as a direct child, a group under its own operator.
pub open spec fn flat(e: Expr) -> bool
    decreases e,
{
    match e {
        Expr::Leaf(_, _, _) => true,
        Expr::Group(j, cs) => forall|k: int|
            0 <= k < cs.len() ==> flat(#[trigger] cs[k]) && !(cs[k] is Group && cs[k]->Group_0 == j),
    }
}

pub open spec fn all_flat(s: Seq<Expr>) -> bool {
    forall|k: int| 0 <= k < s.len() ==> flat(#[trigger] s[k])
}

proof fn lemma_merged_flat(j: JoinType, e: Option<Expr>)
    requires
        e is Some ==> flat(e->0),
    ensures
        forall|k: int| 0 <= k < merged(j, e).len() ==> flat(#[trigger] merged(j, e)[k])
            && !(merged(j, e)[k] is Group && merged(j, e)[k]->Group_0 == j),
{
}

proof fn lemma_build_flat(p: Seq<TokenView>, i: int, stack: Seq<Expr>)
    requires
        all_flat(stack),
    ensures
        build_from(p, i, stack) is Ok ==> all_flat(build_from(p, i, stack)->Ok_0),
    decreases p.len() - i,
{
    if 0 <= i < p.len() {
        match p[i].kind {
            Lexeme::Name(_) => {
                if let Some(leaf) = leaf_at(p, i) {
                    assert(all_flat(stack.push(leaf)));
                    lemma_build_flat(p, i + 3, stack.push(leaf));
                }
            },
            Lexeme::Join(j) => {
                let (right, s1) = pop_operand(stack);
                let (left, s2) = pop_operand(s1);
                lemma_merged_flat(j, left);
                lemma_merged_flat(j, right);
                let cs = merged(j, left) + merged(j, right);
                assert forall|k: int| 0 <= k < cs.len() implies flat(#[trigger] cs[k]) && !(cs[k] is Group && cs[k]->Group_0 == j) by {
                    if k >= merged(j, left).len() {
                        assert(cs[k] == merged(j, right)[k - merged(j, left).len()]);
                    }
                }
                let g = Expr::Group(j, cs);
                assert(flat(g));
                assert(all_flat(s2.push(g)));
                lemma_build_flat(p, i + 1, s2.push(g));
            },
            _ => {},
        }
    }
}

/// Every tree that parsing produces is flat: runs of one join operator are
/// merged into a single group, never nested.
pub proof fn lemma_parse_is_flat(t: Seq<TokenView>)
    ensures
        parse_spec(t) is Ok ==> flat(parse_spec(t)->Ok_0),
{
    if t.len() > MAX_TOKENS {
    } else if let Ok(order) = postfix_order(t.map_values(|x: TokenView| x.kind)) {
        let p = order.map_values(|x: int| t[x]);
        lemma_build_flat(p, 0, seq![]);
        if let Ok(stack) = build_from(p, 0, seq![]) {
            if stack.len() == 1 {
                if !(stack[0] is Group) {
                    let g = Expr::Group(JoinType::And, seq![stack[0]]);
                    assert(flat(g));
                }
            }
        }
    }
}

} // verus!
