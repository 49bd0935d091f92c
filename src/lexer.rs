//! The tokenizer: turns filter text into positioned tokens, stopping at the
//! first lexical error and handing back the tokens collected before it.

use vstd::prelude::*;
use crate::types::{FilterError, Loc};

verus! {

/// Relies on `String::push`: the character is appended to the end of the string.
pub assume_specification[ std::string::String::push ](s: &mut std::string::String, ch: char)
    ensures
        final(s)@ == old(s)@.push(ch),
;

#[derive(Clone, Copy, Debug, PartialEq, Eq, Structural)]
pub enum Comparator {
    Equal,
    NotEqual,
    LessThan,
    GreaterThan,
    LessThanOrEqual,
    GreaterThanOrEqual,
}

/// A literal value. A number keeps its text with the grouping commas removed,
/// so that callers can convert it to the numeric type they need.
#[derive(Clone, Debug, PartialEq, Eq)]
pub enum Value {
    Number(String),
    String(String),
}

/// The join operators, ordered by how tightly they bind: `Or < And < Xor`.
#[derive(Clone, Copy, Debug, PartialEq, Eq, Structural, PartialOrd, Ord)]
pub enum JoinType {
    Or,
    And,
    Xor,
}

#[derive(Clone, Debug, PartialEq, Eq)]
pub enum Token {
    Name(String),
    Comparator(Comparator),
    Value(Value),
    JoinType(JoinType),
    OpenParen,
    CloseParen,
}

/// A token with its exact source text and its half-open span.
#[derive(Clone, Debug, PartialEq, Eq)]
pub struct TokenData {
    pub token: Token,
    pub source: String,
    pub start: usize,
    pub start_line: usize,
    pub start_col: usize,
    pub end: usize,
    pub end_line: usize,
    pub end_col: usize,
}

/// The kind of a token without its value, for highlighting; `Error` marks
/// the span of a lexical error.
#[derive(Clone, Copy, Debug, PartialEq, Eq, Structural)]
pub enum BareToken {
    Name,
    Comparator,
    String,
    Number,
    JoinType,
    Paren,
    Error,
}

#[derive(Clone, Copy, Debug, PartialEq, Eq, Structural)]
pub struct BareTokenData {
    pub token: BareToken,
    pub start: usize,
    pub start_line: usize,
    pub start_col: usize,
    pub end: usize,
    pub end_line: usize,
    pub end_col: usize,
}

/// A point in the text as the tokenizer tracks it while scanning.
#[derive(Clone, Copy, Debug, PartialEq, Eq, Structural)]
pub struct Position {
    pub offset: usize,
    pub line: usize,
    pub col: usize,
}

impl View for Position {
    type V = Loc;

    open spec fn view(&self) -> Loc {
        Loc { offset: self.offset as int, line: self.line as int, col: self.col as int }
    }
}

// ---------------------------------------------------------------------------
// The model of tokens and diagnostics.

/// What a token stands for, with its text as a sequence of characters.
pub enum Lexeme {
    Name(Seq<char>),
    Comparator(Comparator),
    Number(Seq<char>),
    Str(Seq<char>),
    Join(JoinType),
    Open,
    Close,
}

pub struct TokenView {
    pub kind: Lexeme,
    pub source: Seq<char>,
    pub start: Loc,
    pub end: Loc,
}

pub struct Diag {
    pub message: Seq<char>,
    pub start: Loc,
    pub end: Loc,
    pub range_start: int,
    pub range_end: int,
}

impl View for Token {
    type V = Lexeme;

    open spec fn view(&self) -> Lexeme {
        match self {
            Token::Name(n) => Lexeme::Name(n@),
            Token::Comparator(c) => Lexeme::Comparator(*c),
            Token::Value(Value::Number(n)) => Lexeme::Number(n@),
            Token::Value(Value::String(s)) => Lexeme::Str(s@),
            Token::JoinType(j) => Lexeme::Join(*j),
            Token::OpenParen => Lexeme::Open,
            Token::CloseParen => Lexeme::Close,
        }
    }
}

impl View for TokenData {
    type V = TokenView;

    open spec fn view(&self) -> TokenView {
        TokenView {
            kind: self.token@,
            source: self.source@,
            start: Loc { offset: self.start as int, line: self.start_line as int, col: self.start_col as int },
            end: Loc { offset: self.end as int, line: self.end_line as int, col: self.end_col as int },
        }
    }
}

impl View for FilterError {
    type V = Diag;

    open spec fn view(&self) -> Diag {
        Diag {
            message: self.message@,
            start: self.start_loc(),
            end: self.end_loc(),
            range_start: self.range_start as int,
            range_end: self.range_end as int,
        }
    }
}

pub open spec fn token_views(v: Seq<TokenData>) -> Seq<TokenView> {
    v.map_values(|t: TokenData| t@)
}

// ---------------------------------------------------------------------------
// Positions.

/// The location just past character `c`, read at `l`.
pub open spec fn advance(l: Loc, c: char) -> Loc {
    if c == '\n' {
        Loc { offset: l.offset + 1, line: l.line + 1, col: 0 }
    } else {
        Loc { offset: l.offset + 1, line: l.line, col: l.col + 1 }
    }
}

/// The location just past the characters `s`, read from `l` on.
pub open spec fn advance_over(l: Loc, s: Seq<char>) -> Loc
    decreases s.len(),
{
    if s.len() == 0 {
        l
    } else {
        advance(advance_over(l, s.drop_last()), s.last())
    }
}

/// Each coordinate of `l` is a `usize` and stays one for `n` more characters.
pub open spec fn room(l: Loc, n: int) -> bool {
    &&& 0 <= l.offset && l.offset + n <= usize::MAX
    &&& 0 <= l.line && l.line + n <= usize::MAX
    &&& 0 <= l.col && l.col + n <= usize::MAX
}

pub proof fn lemma_room_advance(l: Loc, s: Seq<char>, n: int)
    requires
        room(l, n),
        s.len() <= n,
    ensures
        room(advance_over(l, s), n - s.len()),
        advance_over(l, s).offset == l.offset + s.len(),
    decreases s.len(),
{
    if s.len() > 0 {
        lemma_room_advance(l, s.drop_last(), n);
    }
}

// ---------------------------------------------------------------------------
// Character classes.

pub open spec fn is_digit(c: char) -> bool {
    '0' <= c && c <= '9'
}

pub open spec fn is_name_start(c: char) -> bool {
    ('a' <= c && c <= 'z') || ('A' <= c && c <= 'Z') || c == '_'
}

pub open spec fn is_name_char(c: char) -> bool {
    is_name_start(c) || is_digit(c)
}

pub open spec fn is_number_start(c: char) -> bool {
    is_digit(c) || c == '-' || c == '.'
}

pub open spec fn is_number_char(c: char) -> bool {
    is_digit(c) || c == ',' || c == '.'
}

pub open spec fn is_comparator_start(c: char) -> bool {
    c == '<' || c == '>' || c == '=' || c == '!'
}

/// The characters with the Unicode `White_Space` property.
pub open spec fn is_space(c: char) -> bool {
    ('\u{9}' <= c && c <= '\u{d}') || c == ' ' || c == '\u{85}' || c == '\u{a0}'
        || c == '\u{1680}' || ('\u{2000}' <= c && c <= '\u{200a}') || c == '\u{2028}'
        || c == '\u{2029}' || c == '\u{202f}' || c == '\u{205f}' || c == '\u{3000}'
}


// ---------------------------------------------------------------------------
// One step of the tokenizer.

/// The end of the run of name characters that starts at `j`.
pub open spec fn name_end(t: Seq<char>, j: int) -> int
    decreases t.len() - j,
{
    if 0 <= j < t.len() && is_name_char(t[j]) {
        name_end(t, j + 1)
    } else {
        j
    }
}

/// The index of the first `"` at or after `j`, or the length of `t`.
pub open spec fn quote_at(t: Seq<char>, j: int) -> int
    decreases t.len() - j,
{
    if 0 <= j < t.len() && t[j] != '"' {
        quote_at(t, j + 1)
    } else {
        j
    }
}

/// Scans the number characters from `j` on, `dot` telling whether a `.` was
/// already seen. The result is where the run ends and whether it ended on a
/// second `.`.
pub open spec fn number_scan(t: Seq<char>, j: int, dot: bool) -> (int, bool)
    decreases t.len() - j,
{
    if 0 <= j < t.len() && is_number_char(t[j]) {
        if t[j] == '.' && dot {
            (j, true)
        } else {
            number_scan(t, j + 1, dot || t[j] == '.')
        }
    } else {
        (j, false)
    }
}

/// The text without its grouping commas.
pub open spec fn strip_commas(s: Seq<char>) -> Seq<char>
    decreases s.len(),
{
    if s.len() == 0 {
        s
    } else if s.last() == ',' {
        strip_commas(s.drop_last())
    } else {
        strip_commas(s.drop_last()).push(s.last())
    }
}

pub open spec fn has_digit(s: Seq<char>) -> bool {
    exists|k: int| 0 <= k < s.len() && is_digit(#[trigger] s[k])
}

pub open spec fn unexpected_char_msg(c: char) -> Seq<char> {
    "Unexpected character '"@ + seq![c] + "'"@
}

pub open spec fn incomplete_not_equal_msg(c: char) -> Seq<char> {
    "Unexpected character '"@ + seq![c] + "' (expected `=` to make `!=`)"@
}

/// What one step of the tokenizer does at index `i`, read at `l`.
pub enum Step {
    /// The character is skipped; scanning goes on at the index given.
    Skip(int),
    /// A token is produced; scanning goes on at the index given.
    Emit(TokenView, int),
    /// A lexical error; a restarted scan would go on at the index given.
    Fail(Diag, int),
}

/// The token of kind `kind` made of `t[i..j]`, read from `l`.
pub open spec fn token_of(kind: Lexeme, t: Seq<char>, i: int, j: int, l: Loc) -> TokenView {
    TokenView { kind, source: t.subrange(i, j), start: l, end: advance_over(l, t.subrange(i, j)) }
}

/// The error with message `m` over `t[i..j]`, whose context is `[rs, re)`.
pub open spec fn diag_of(m: Seq<char>, t: Seq<char>, i: int, j: int, l: Loc, rs: int, re: int) -> Diag {
    Diag { message: m, start: l, end: advance_over(l, t.subrange(i, j)), range_start: rs, range_end: re }
}

pub open spec fn name_step(t: Seq<char>, i: int, l: Loc) -> Step {
    let e = name_end(t, i + 1);
    Step::Emit(token_of(Lexeme::Name(t.subrange(i, e)), t, i, e, l), e)
}

pub open spec fn string_step(t: Seq<char>, i: int, l: Loc) -> Step {
    let q = quote_at(t, i + 1);
    let e = if q < t.len() { q + 1 } else { q };
    Step::Emit(token_of(Lexeme::Str(t.subrange(i + 1, q)), t, i, e, l), e)
}

pub open spec fn number_step(t: Seq<char>, i: int, l: Loc) -> Step {
    let (e, second_dot) = number_scan(t, i + 1, t[i] == '.');
    if second_dot {
        let at = l.offset + (e - i);
        Step::Fail(diag_of("Unexpected second decimal place"@, t, i, e + 1, l, at, at + 1), e + 1)
    } else if !has_digit(t.subrange(i, e)) {
        let m = if t[i] == '-' {
            "Expected a number following `-`"@
        } else {
            "Expected a number with `.`"@
        };
        Step::Fail(diag_of(m, t, i, e, l, l.offset, l.offset + (e - i)), e)
    } else {
        Step::Emit(token_of(Lexeme::Number(strip_commas(t.subrange(i, e))), t, i, e, l), e)
    }
}

pub open spec fn comparator_step(t: Seq<char>, i: int, l: Loc) -> Step {
    let c = t[i];
    let eq_next = i + 1 < t.len() && t[i + 1] == '=';
    if c == '=' {
        Step::Emit(token_of(Lexeme::Comparator(Comparator::Equal), t, i, i + 1, l), i + 1)
    } else if c == '<' {
        if eq_next {
            Step::Emit(token_of(Lexeme::Comparator(Comparator::LessThanOrEqual), t, i, i + 2, l), i + 2)
        } else {
            Step::Emit(token_of(Lexeme::Comparator(Comparator::LessThan), t, i, i + 1, l), i + 1)
        }
    } else if c == '>' {
        if eq_next {
            Step::Emit(token_of(Lexeme::Comparator(Comparator::GreaterThanOrEqual), t, i, i + 2, l), i + 2)
        } else {
            Step::Emit(token_of(Lexeme::Comparator(Comparator::GreaterThan), t, i, i + 1, l), i + 1)
        }
    } else if eq_next {
        Step::Emit(token_of(Lexeme::Comparator(Comparator::NotEqual), t, i, i + 2, l), i + 2)
    } else if i + 1 < t.len() {
        let m = incomplete_not_equal_msg(t[i + 1]);
        Step::Fail(diag_of(m, t, i, i + 2, l, l.offset, l.offset + 2), i + 2)
    } else {
        Step::Fail(diag_of("Unexpected end of filter after '!'"@, t, i, i + 1, l, l.offset, l.offset + 1), i + 1)
    }
}

/// The token of a single character of kind `kind`.
pub open spec fn single_step(kind: Lexeme, t: Seq<char>, i: int, l: Loc) -> Step {
    Step::Emit(token_of(kind, t, i, i + 1, l), i + 1)
}

/// The step taken on `t[i]`, dispatched on that character.
pub open spec fn step(t: Seq<char>, i: int, l: Loc) -> Step {
    let c = t[i];
    if c == '"' {
        string_step(t, i, l)
    } else if is_name_start(c) {
        name_step(t, i, l)
    } else if is_number_start(c) {
        number_step(t, i, l)
    } else if is_comparator_start(c) {
        comparator_step(t, i, l)
    } else if c == '(' {
        single_step(Lexeme::Open, t, i, l)
    } else if c == ')' {
        single_step(Lexeme::Close, t, i, l)
    } else if c == '|' {
        single_step(Lexeme::Join(JoinType::Or), t, i, l)
    } else if c == '&' {
        single_step(Lexeme::Join(JoinType::And), t, i, l)
    } else if c == '^' {
        single_step(Lexeme::Join(JoinType::Xor), t, i, l)
    } else if is_space(c) {
        Step::Skip(i + 1)
    } else {
        Step::Fail(diag_of(unexpected_char_msg(c), t, i, i + 1, l, l.offset, l.offset + 1), i + 1)
    }
}

/// The tokens read from `t[i..]` at `l`, and the first lexical error with
/// the index just past it.
pub open spec fn lex_spec(t: Seq<char>, i: int, l: Loc) -> (Seq<TokenView>, Option<(Diag, int)>)
    decreases t.len() - i,
{
    if 0 <= i < t.len() {
        match step(t, i, l) {
            Step::Skip(j) => if i < j <= t.len() {
                lex_spec(t, j, advance_over(l, t.subrange(i, j)))
            } else {
                (seq![], None)
            },
            Step::Emit(tok, j) => if i < j <= t.len() {
                let rest = lex_spec(t, j, tok.end);
                (seq![tok] + rest.0, rest.1)
            } else {
                (seq![], None)
            },
            Step::Fail(d, j) => (seq![], Some((d, j))),
        }
    } else {
        (seq![], None)
    }
}

// ---------------------------------------------------------------------------
// Executable helpers.

proof fn lemma_advance_one(l: Loc, t: Seq<char>, i: int, j: int)
    requires
        0 <= i <= j < t.len(),
    ensures
        advance_over(l, t.subrange(i, j + 1)) == advance(advance_over(l, t.subrange(i, j)), t[j]),
{
    assert(t.subrange(i, j + 1).drop_last() =~= t.subrange(i, j));
}

fn advance_pos(p: Position, c: char) -> (r: Position)
    requires
        room(p@, 1),
    ensures
        r@ == advance(p@, c),
{
    if c == '\n' {
        Position { offset: p.offset + 1, line: p.line + 1, col: 0 }
    } else {
        Position { offset: p.offset + 1, line: p.line, col: p.col + 1 }
    }
}

fn char_is_digit(c: char) -> (r: bool)
    ensures
        r == is_digit(c),
{
    '0' <= c && c <= '9'
}

fn char_is_name_start(c: char) -> (r: bool)
    ensures
        r == is_name_start(c),
{
    ('a' <= c && c <= 'z') || ('A' <= c && c <= 'Z') || c == '_'
}

fn char_is_name_char(c: char) -> (r: bool)
    ensures
        r == is_name_char(c),
{
    char_is_name_start(c) || char_is_digit(c)
}

fn char_is_space(c: char) -> (r: bool)
    ensures
        r == is_space(c),
{
    ('\u{9}' <= c && c <= '\u{d}') || c == ' ' || c == '\u{85}' || c == '\u{a0}'
        || c == '\u{1680}' || ('\u{2000}' <= c && c <= '\u{200a}') || c == '\u{2028}'
        || c == '\u{2029}' || c == '\u{202f}' || c == '\u{205f}' || c == '\u{3000}'
}

fn make_token(token: Token, source: String, from: Position, to: Position) -> (r: TokenData)
    ensures
        r.token == token,
        r.source == source,
        r@.start == from@,
        r@.end == to@,
{
    TokenData {
        token,
        source,
        start: from.offset,
        start_line: from.line,
        start_col: from.col,
        end: to.offset,
        end_line: to.line,
        end_col: to.col,
    }
}

fn make_error(message: String, from: Position, to: Position, range_start: usize, range_end: usize) -> (r: FilterError)
    ensures
        r@ == (Diag { message: message@, start: from@, end: to@, range_start: range_start as int, range_end: range_end as int }),
{
    FilterError::new(message, range_start, range_end, from.offset, from.line, from.col, to.offset, to.line, to.col)
}

/// Scans a name that starts at `text[i]`: letters, digits and `_`.
pub fn lex_name(text: &Vec<char>, i: usize, at: Position) -> (r: (TokenData, usize))
    requires
        i < text@.len(),
        is_name_start(text@[i as int]),
        room(at@, text@.len() - i),
    ensures
        name_step(text@, i as int, at@) == Step::Emit(r.0@, r.1 as int),
        i < r.1 <= text@.len(),
{
    let ghost t = text@;
    let mut name = String::new();
    name.push(text[i]);
    proof { lemma_advance_one(at@, t, i as int, i as int); }
    let mut p = advance_pos(at, text[i]);
    let n: usize = text.len();
    assert(i < n);
    let mut j: usize = i + 1;
    proof { assert(name@ =~= t.subrange(i as int, j as int)); }
    while j < text.len() && char_is_name_char(text[j])
        invariant
            i < j <= t.len(),
            t == text@,
            name@ == t.subrange(i as int, j as int),
            p@ == advance_over(at@, t.subrange(i as int, j as int)),
            room(p@, t.len() - j),
            name_end(t, j as int) == name_end(t, i + 1),
        decreases t.len() - j,
    {
        proof {
            lemma_advance_one(at@, t, i as int, j as int);
            assert(t.subrange(i as int, j + 1) =~= t.subrange(i as int, j as int).push(t[j as int]));
        }
        name.push(text[j]);
        p = advance_pos(p, text[j]);
        j = j + 1;
    }
    let source = name.clone();
    (make_token(Token::Name(name), source, at, p), j)
}

/// Scans a string literal whose opening `"` is `text[i]`, up to the closing
/// `"` or the end of the text. Its value is what stands between the quotes.
pub fn lex_string(text: &Vec<char>, i: usize, at: Position) -> (r: (TokenData, usize))
    requires
        i < text@.len(),
        text@[i as int] == '"',
        room(at@, text@.len() - i),
    ensures
        string_step(text@, i as int, at@) == Step::Emit(r.0@, r.1 as int),
        i < r.1 <= text@.len(),
{
    let ghost t = text@;
    let mut value = String::new();
    let mut source = String::new();
    source.push('"');
    proof { lemma_advance_one(at@, t, i as int, i as int); }
    let mut p = advance_pos(at, '"');
    let n: usize = text.len();
    assert(i < n);
    let mut j: usize = i + 1;
    proof {
        assert(source@ =~= t.subrange(i as int, j as int));
        assert(value@ =~= t.subrange(i + 1, j as int));
    }
    while j < text.len() && text[j] != '"'
        invariant
            i < j <= t.len(),
            t == text@,
            value@ == t.subrange(i + 1, j as int),
            source@ == t.subrange(i as int, j as int),
            p@ == advance_over(at@, t.subrange(i as int, j as int)),
            room(p@, t.len() - j),
            quote_at(t, j as int) == quote_at(t, i + 1),
        decreases t.len() - j,
    {
        proof {
            lemma_advance_one(at@, t, i as int, j as int);
            assert(t.subrange(i as int, j + 1) =~= t.subrange(i as int, j as int).push(t[j as int]));
            assert(t.subrange(i + 1, j + 1) =~= t.subrange(i + 1, j as int).push(t[j as int]));
        }
        value.push(text[j]);
        source.push(text[j]);
        p = advance_pos(p, text[j]);
        j = j + 1;
    }
    let ghost q = j as int;
    if j < text.len() {
        proof {
            lemma_advance_one(at@, t, i as int, j as int);
            assert(t.subrange(i as int, j + 1) =~= t.subrange(i as int, j as int).push(t[j as int]));
        }
        source.push('"');
        p = advance_pos(p, '"');
        j = j + 1;
    }
    assert(value@ == t.subrange(i + 1, q));
    (make_token(Token::Value(Value::String(value)), source, at, p), j)
}

/// Scans a number that starts at `text[i]` (a digit, `-` or `.`): digits, at
/// most one `.`, and `,` as a grouping separator that the value leaves out.
/// On an error the index returned is where a restarted scan would go on.
pub fn lex_number(text: &Vec<char>, i: usize, at: Position) -> (r: Result<(TokenData, usize), (FilterError, usize)>)
    requires
        i < text@.len(),
        is_number_start(text@[i as int]),
        room(at@, text@.len() - i),
    ensures
        match r {
            Ok((tok, j)) => number_step(text@, i as int, at@) == Step::Emit(tok@, j as int),
            Err((e, j)) => number_step(text@, i as int, at@) == Step::Fail(e@, j as int),
        },
        match r {
            Ok((_, j)) => i < j <= text@.len(),
            Err((_, j)) => i < j <= text@.len(),
        },
{
    let ghost t = text@;
    let c = text[i];
    let mut dot = c == '.';
    let mut digit = char_is_digit(c);
    let mut number = String::new();
    let mut raw = String::new();
    number.push(c);
    raw.push(c);
    proof { lemma_advance_one(at@, t, i as int, i as int); }
    let mut p = advance_pos(at, c);
    let n: usize = text.len();
    let mut j: usize = i + 1;
    proof {
        let s1 = t.subrange(i as int, j as int);
        assert(s1 =~= seq![c]);
        assert(s1.drop_last() =~= Seq::<char>::empty());
        assert(raw@ =~= s1);
        assert(strip_commas(s1.drop_last()) =~= Seq::<char>::empty());
        assert(number@ =~= strip_commas(s1));
        if is_digit(c) {
            assert(s1[0] == c);
        }
    }
    while j < n && (char_is_digit(text[j]) || text[j] == ',' || text[j] == '.')
        invariant
            i < j <= t.len(),
            n == t.len(),
            t == text@,
            c == t[i as int],
            raw@ == t.subrange(i as int, j as int),
            number@ == strip_commas(t.subrange(i as int, j as int)),
            digit == has_digit(t.subrange(i as int, j as int)),
            p@ == advance_over(at@, t.subrange(i as int, j as int)),
            p.offset == at.offset + (j - i),
            room(p@, t.len() - j),
            number_scan(t, j as int, dot) == number_scan(t, i + 1, c == '.'),
        decreases t.len() - j,
    {
        let d = text[j];
        proof {
            lemma_advance_one(at@, t, i as int, j as int);
        }
        if d == '.' && dot {
            let range_at = p.offset;
            p = advance_pos(p, d);
            let e = make_error(String::from_str("Unexpected second decimal place"), at, p, range_at, range_at + 1);
            return Err((e, j + 1));
        }
        let ghost old_s = t.subrange(i as int, j as int);
        let ghost new_s = t.subrange(i as int, j + 1);
        proof {
            assert(new_s =~= old_s.push(d));
            assert(new_s.drop_last() =~= old_s);
            assert(new_s.last() == d);
            if has_digit(old_s) {
                let k = choose|k: int| 0 <= k < old_s.len() && is_digit(#[trigger] old_s[k]);
                assert(new_s[k] == old_s[k]);
            }
            if is_digit(d) {
                assert(new_s[new_s.len() - 1] == d);
            }
            if has_digit(new_s) {
                let k = choose|k: int| 0 <= k < new_s.len() && is_digit(#[trigger] new_s[k]);
                if k < old_s.len() {
                    assert(old_s[k] == new_s[k]);
                }
            }
        }
        dot = dot || d == '.';
        digit = digit || char_is_digit(d);
        if d != ',' {
            number.push(d);
        }
        raw.push(d);
        p = advance_pos(p, d);
        j = j + 1;
    }
    if !digit {
        let message = if c == '-' {
            String::from_str("Expected a number following `-`")
        } else {
            String::from_str("Expected a number with `.`")
        };
        let e = make_error(message, at, p, at.offset, p.offset);
        return Err((e, j));
    }
    (Ok((make_token(Token::Value(Value::Number(number)), raw, at, p), j)))
}

fn message_with_char(head: &str, c: char, tail: &str) -> (r: String)
    ensures
        r@ == head@ + seq![c] + tail@,
{
    let mut m = String::from_str(head);
    m.push(c);
    m.append(tail);
    proof { assert(head@.push(c) =~= head@ + seq![c]); }
    m
}

/// Scans a comparator that starts at `text[i]` (one of `<`, `>`, `=`, `!`):
/// `<`, `<=`, `>`, `>=`, `=` or `!=`. A `!` without its `=` is an error.
pub fn lex_comparator(text: &Vec<char>, i: usize, at: Position) -> (r: Result<(TokenData, usize), (FilterError, usize)>)
    requires
        i < text@.len(),
        is_comparator_start(text@[i as int]),
        room(at@, text@.len() - i),
    ensures
        match r {
            Ok((tok, j)) => comparator_step(text@, i as int, at@) == Step::Emit(tok@, j as int),
            Err((e, j)) => comparator_step(text@, i as int, at@) == Step::Fail(e@, j as int),
        },
        match r {
            Ok((_, j)) => i < j <= text@.len(),
            Err((_, j)) => i < j <= text@.len(),
        },
{
    let ghost t = text@;
    let c = text[i];
    let n: usize = text.len();
    proof {
        lemma_advance_one(at@, t, i as int, i as int);
        if i + 1 < n {
            lemma_advance_one(at@, t, i as int, i + 1);
        }
    }
    let p1 = advance_pos(at, c);
    let eq_next = i + 1 < n && text[i + 1] == '=';
    if c == '=' {
        proof {
            reveal_strlit("=");
            assert(t.subrange(i as int, i + 1) =~= seq![c]);
        }
        let tok = make_token(Token::Comparator(Comparator::Equal), String::from_str("="), at, p1);
        assert(tok@.source == t.subrange(i as int, i + 1));
        assert(tok@.end == advance_over(at@, t.subrange(i as int, i + 1)));
        assert(tok@ == token_of(Lexeme::Comparator(Comparator::Equal), t, i as int, i + 1, at@));
        return Ok((tok, i + 1));
    }
    if eq_next {
        let p2 = advance_pos(p1, '=');
        let (cmp, source) = if c == '<' {
            (Comparator::LessThanOrEqual, String::from_str("<="))
        } else if c == '>' {
            (Comparator::GreaterThanOrEqual, String::from_str(">="))
        } else {
            (Comparator::NotEqual, String::from_str("!="))
        };
        proof {
            reveal_strlit("<=");
            reveal_strlit(">=");
            reveal_strlit("!=");
            assert(t.subrange(i as int, i + 2) =~= seq![c, '=']);
        }
        let tok = make_token(Token::Comparator(cmp), source, at, p2);
        assert(tok@.source == t.subrange(i as int, i + 2));
        assert(tok@.end == advance_over(at@, t.subrange(i as int, i + 2)));
        assert(tok@ == token_of(Lexeme::Comparator(cmp), t, i as int, i + 2, at@));
        return Ok((tok, i + 2));
    }
    if c == '<' || c == '>' {
        let (cmp, source) = if c == '<' {
            (Comparator::LessThan, String::from_str("<"))
        } else {
            (Comparator::GreaterThan, String::from_str(">"))
        };
        proof {
            reveal_strlit("<");
            reveal_strlit(">");
            assert(t.subrange(i as int, i + 1) =~= seq![c]);
        }
        let tok = make_token(Token::Comparator(cmp), source, at, p1);
        assert(tok@.source == t.subrange(i as int, i + 1));
        assert(tok@.end == advance_over(at@, t.subrange(i as int, i + 1)));
        assert(tok@ == token_of(Lexeme::Comparator(cmp), t, i as int, i + 1, at@));
        return Ok((tok, i + 1));
    }
    if i + 1 < n {
        let d = text[i + 1];
        let p2 = advance_pos(p1, d);
        let message = message_with_char("Unexpected character '", d, "' (expected `=` to make `!=`)");
        let e = make_error(message, at, p2, at.offset, at.offset + 2);
        Err((e, i + 2))
    } else {
        let e = make_error(String::from_str("Unexpected end of filter after '!'"), at, p1, at.offset, at.offset + 1);
        Err((e, i + 1))
    }
}

/// The single-character token of kind `token` at `text[i]`.
fn lex_single(text: &Vec<char>, i: usize, at: Position, token: Token, source: &str) -> (r: (TokenData, usize))
    requires
        i < text@.len(),
        room(at@, text@.len() - i),
        source@ == seq![text@[i as int]],
    ensures
        single_step(token@, text@, i as int, at@) == Step::Emit(r.0@, r.1 as int),
        r.1 == i + 1,
{
    proof {
        lemma_advance_one(at@, text@, i as int, i as int);
        assert(text@.subrange(i as int, i + 1) =~= seq![text@[i as int]]);
    }
    let n: usize = text.len();
    assert(i < n);
    let p = advance_pos(at, text[i]);
    let tok = make_token(token, String::from_str(source), at, p);
    assert(tok@ == token_of(token@, text@, i as int, i + 1, at@));
    (tok, i + 1)
}

/// Whether `r` is what the tokenizer model gives: the same tokens, and the
/// same error if there is one.
pub open spec fn lex_matches(r: (Vec<TokenData>, Option<FilterError>), s: (Seq<TokenView>, Option<(Diag, int)>)) -> bool {
    &&& token_views(r.0@) == s.0
    &&& match (r.1, s.1) {
        (None, None) => true,
        (Some(e), Some((d, _))) => e@ == d,
        _ => false,
    }
}

/// Tokenizes `text[i..]`, read from `at` on, up to its end or its first
/// lexical error. The error comes with the index just past it.
pub fn lex_from(text: &Vec<char>, i: usize, at: Position) -> (r: (Vec<TokenData>, Option<(FilterError, usize)>))
    requires
        i <= text@.len(),
        room(at@, text@.len() - i),
    ensures
        token_views(r.0@) == lex_spec(text@, i as int, at@).0,
        match r.1 {
            None => lex_spec(text@, i as int, at@).1 is None,
            Some((e, j)) => lex_spec(text@, i as int, at@).1 == Some((e@, j as int)),
        },
        match r.1 {
            None => true,
            Some((e, j)) => i < j <= text@.len() && room(e@.end, text@.len() - j),
        },
{
    let ghost t = text@;
    let mut tokens: Vec<TokenData> = Vec::new();
    let mut p = at;
    let mut j: usize = i;
    let n: usize = text.len();
    proof {
        assert(token_views(tokens@) + lex_spec(t, j as int, p@).0 =~= lex_spec(t, j as int, p@).0);
    }
    while j < n
        invariant
            i <= j <= n,
            n == t.len(),
            t == text@,
            room(p@, t.len() - j),
            lex_spec(t, i as int, at@) == (token_views(tokens@) + lex_spec(t, j as int, p@).0, lex_spec(t, j as int, p@).1),
        decreases n - j,
    {
        let c = text[j];
        let emitted: Result<(TokenData, usize), (FilterError, usize)>;
        if c == '"' {
            emitted = Ok(lex_string(text, j, p));
        } else if char_is_name_start(c) {
            emitted = Ok(lex_name(text, j, p));
        } else if char_is_digit(c) || c == '-' || c == '.' {
            emitted = lex_number(text, j, p);
        } else if c == '<' || c == '>' || c == '=' || c == '!' {
            emitted = lex_comparator(text, j, p);
        } else if c == '(' {
            proof {
                reveal_strlit("(");
                assert("("@ =~= seq![c]);
            }
            emitted = Ok(lex_single(text, j, p, Token::OpenParen, "("));
        } else if c == ')' {
            proof {
                reveal_strlit(")");
                assert(")"@ =~= seq![c]);
            }
            emitted = Ok(lex_single(text, j, p, Token::CloseParen, ")"));
        } else if c == '|' {
            proof {
                reveal_strlit("|");
                assert("|"@ =~= seq![c]);
            }
            emitted = Ok(lex_single(text, j, p, Token::JoinType(JoinType::Or), "|"));
        } else if c == '&' {
            proof {
                reveal_strlit("&");
                assert("&"@ =~= seq![c]);
            }
            emitted = Ok(lex_single(text, j, p, Token::JoinType(JoinType::And), "&"));
        } else if c == '^' {
            proof {
                reveal_strlit("^");
                assert("^"@ =~= seq![c]);
            }
            emitted = Ok(lex_single(text, j, p, Token::JoinType(JoinType::Xor), "^"));
        } else if char_is_space(c) {
            proof {
                lemma_advance_one(p@, t, j as int, j as int);
            }
            p = advance_pos(p, c);
            j = j + 1;
            continue;
        } else {
            proof {
                lemma_advance_one(p@, t, j as int, j as int);
            }
            let p1 = advance_pos(p, c);
            let message = message_with_char("Unexpected character '", c, "'");
            let e = make_error(message, p, p1, p.offset, p.offset + 1);
            proof {
                lemma_room_advance(p@, t.subrange(j as int, j + 1), t.len() - j);
            }
            return (tokens, Some((e, j + 1)));
        }
        match emitted {
            Ok((tok, k)) => {
                proof {
                    lemma_room_advance(p@, t.subrange(j as int, k as int), t.len() - j);
                    assert(token_views(tokens@.push(tok)) =~= token_views(tokens@).push(tok@));
                    assert(seq![tok@] + lex_spec(t, k as int, tok@.end).0 =~= lex_spec(t, j as int, p@).0);
                    assert(token_views(tokens@).push(tok@) + lex_spec(t, k as int, tok@.end).0
                        =~= token_views(tokens@) + lex_spec(t, j as int, p@).0);
                }
                p = Position { offset: tok.end, line: tok.end_line, col: tok.end_col };
                tokens.push(tok);
                j = k;
            },
            Err(failure) => {
                proof {
                    lemma_room_advance(p@, t.subrange(j as int, failure.1 as int), t.len() - j);
                }
                return (tokens, Some(failure));
            },
        }
    }
    proof {
        assert(token_views(tokens@) + lex_spec(t, j as int, p@).0 =~= token_views(tokens@));
    }
    (tokens, None)
}

/// The characters of `s`, in order.
pub fn chars_of(s: &str) -> (r: Vec<char>)
    ensures
        r@ == s@,
{
    broadcast use vstd::string::axiom_spec_iter;
    let mut v: Vec<char> = Vec::new();
    for c in it: s.chars()
        invariant
            v@ == it.seq().subrange(0, it.index() as int),
            it.seq() == s@,
    {
        proof {
            assert(it.seq().subrange(0, it.index() + 1) =~= v@.push(c));
        }
        v.push(c);
    }
    proof {
        assert(v@ =~= s@);
    }
    v
}

/// Tokenizes `text`, read as starting at offset `cursor`, line `line` and
/// column `col`: the tokens up to the end of the text or up to the first
/// lexical error, and that error.
pub fn lex(text: &str, cursor: usize, line: usize, col: usize) -> (r: (Vec<TokenData>, Option<FilterError>))
    requires
        cursor + text@.len() <= usize::MAX,
        line + text@.len() <= usize::MAX,
        col + text@.len() <= usize::MAX,
    ensures
        lex_matches(r, lex_spec(text@, 0, Loc { offset: cursor as int, line: line as int, col: col as int })),
{
    let chars = chars_of(text);
    let (tokens, error) = lex_from(&chars, 0, Position { offset: cursor, line, col });
    match error {
        Some((e, _)) => (tokens, Some(e)),
        None => (tokens, None),
    }
}

impl TokenData {
    /// The kind of the token with its span, its value left out.
    pub fn to_bare(&self) -> (r: BareTokenData)
        ensures
            r.token == bare_kind(self.token@),
            r.start == self.start,
            r.start_line == self.start_line,
            r.start_col == self.start_col,
            r.end == self.end,
            r.end_line == self.end_line,
            r.end_col == self.end_col,
    {
        let token = match &self.token {
            Token::Name(_) => BareToken::Name,
            Token::Comparator(_) => BareToken::Comparator,
            Token::Value(Value::String(_)) => BareToken::String,
            Token::Value(Value::Number(_)) => BareToken::Number,
            Token::JoinType(_) => BareToken::JoinType,
            Token::OpenParen => BareToken::Paren,
            Token::CloseParen => BareToken::Paren,
        };
        BareTokenData {
            token,
            start: self.start,
            start_line: self.start_line,
            start_col: self.start_col,
            end: self.end,
            end_line: self.end_line,
            end_col: self.end_col,
        }
    }
}

pub open spec fn bare_kind(k: Lexeme) -> BareToken {
    match k {
        Lexeme::Name(_) => BareToken::Name,
        Lexeme::Comparator(_) => BareToken::Comparator,
        Lexeme::Str(_) => BareToken::String,
        Lexeme::Number(_) => BareToken::Number,
        Lexeme::Join(_) => BareToken::JoinType,
        Lexeme::Open => BareToken::Paren,
        Lexeme::Close => BareToken::Paren,
    }
}

} // verus!
