//! A small boolean filter query language: a tokenizer that recovers from
//! lexical errors, and an operator-precedence parser that turns the tokens into
//! an expression tree.

pub mod lexer;
pub mod parser;
pub mod theorems;
pub mod types;

use vstd::prelude::*;
use crate::lexer::{
    bare_kind, chars_of, lex_from, lex_spec, room, token_views, BareToken, BareTokenData, Position, TokenView, Diag,
};
use crate::types::{FilterError, Loc};

verus! {

/// Every token of a text and every lexical error in it.
pub struct LexData {
    pub tokens: Vec<BareTokenData>,
    pub errors: Vec<FilterError>,
}

/// The bare form of a token of the model.
pub open spec fn bare_of(t: TokenView) -> BareTokenData {
    BareTokenData {
        token: bare_kind(t.kind),
        start: t.start.offset as usize,
        start_line: t.start.line as usize,
        start_col: t.start.col as usize,
        end: t.end.offset as usize,
        end_line: t.end.line as usize,
        end_col: t.end.col as usize,
    }
}

/// The marker that stands in the token list where a lexical error was found.
pub open spec fn error_marker(d: Diag) -> BareTokenData {
    BareTokenData {
        token: BareToken::Error,
        start: d.start.offset as usize,
        start_line: d.start.line as usize,
        start_col: d.start.col as usize,
        end: d.end.offset as usize,
        end_line: d.end.line as usize,
        end_col: d.end.col as usize,
    }
}

/// Tokenizing `t[i..]` from `l`, restarting just past each lexical error: the
/// bare tokens with a marker for each error, and the errors in order.
pub open spec fn recover(t: Seq<char>, i: int, l: Loc) -> (Seq<BareTokenData>, Seq<Diag>)
    decreases t.len() - i,
{
    let (toks, err) = lex_spec(t, i, l);
    let bare = toks.map_values(|x: TokenView| bare_of(x));
    match err {
        None => (bare, seq![]),
        Some((d, j)) => if i < j <= t.len() {
            let rest = recover(t, j, d.end);
            (bare + seq![error_marker(d)] + rest.0, seq![d] + rest.1)
        } else {
            (bare + seq![error_marker(d)], seq![d])
        },
    }
}

/// Tokenizes the whole of `filter`, going on after each lexical error just
/// past its span, so that every error of the text is reported.
pub fn lex_filter(filter: &str) -> (r: LexData)
    ensures
        r.tokens@ == recover(filter@, 0, Loc { offset: 0, line: 0, col: 0 }).0,
        r.errors@.map_values(|e: FilterError| e@) == recover(filter@, 0, Loc { offset: 0, line: 0, col: 0 }).1,
{
    let text = chars_of(filter);
    let ghost t = text@;
    let n: usize = text.len();
    let ghost l0 = Loc { offset: 0, line: 0, col: 0 };
    let mut tokens: Vec<BareTokenData> = Vec::new();
    let mut errors: Vec<FilterError> = Vec::new();
    let mut i: usize = 0;
    let mut at = Position { offset: 0, line: 0, col: 0 };
    proof {
        assert(tokens@ + recover(t, 0, l0).0 =~= recover(t, 0, l0).0);
        assert(errors@.map_values(|e: FilterError| e@) + recover(t, 0, l0).1 =~= recover(t, 0, l0).1);
    }
    loop
        invariant
            i <= n,
            n == t.len(),
            t == filter@,
            t == text@,
            l0 == (Loc { offset: 0, line: 0, col: 0 }),
            room(at@, n - i),
            recover(t, 0, l0).0 == tokens@ + recover(t, i as int, at@).0,
            recover(t, 0, l0).1 == errors@.map_values(|e: FilterError| e@) + recover(t, i as int, at@).1,
        decreases n - i,
    {
        let (found, error) = lex_from(&text, i, at);
        let ghost bare = lex_spec(t, i as int, at@).0.map_values(|x: TokenView| bare_of(x));
        proof {
            assert(token_views(found@).len() == found@.len());
            assert forall|m: int| 0 <= m < found.len() implies bare[m] == bare_of(#[trigger] found@[m]@) by {
                assert(token_views(found@)[m] == found@[m]@);
            }
        }
        let ghost before = tokens@;
        let mut k: usize = 0;
        while k < found.len()
            invariant
                k <= found.len(),
                tokens@ == before + bare.subrange(0, k as int),
                bare.len() == found.len(),
                forall|m: int| 0 <= m < found.len() ==> bare[m] == bare_of(#[trigger] found@[m]@),
                recover(t, 0, l0).0 == before + recover(t, i as int, at@).0,
                recover(t, 0, l0).1 == errors@.map_values(|e: FilterError| e@) + recover(t, i as int, at@).1,
            decreases found.len() - k,
        {
            proof {
                assert(bare.subrange(0, k + 1) =~= bare.subrange(0, k as int).push(bare[k as int]));
            }
            let b = found[k].to_bare();
            assert(b == bare_of(found@[k as int]@));
            tokens.push(b);
            k = k + 1;
        }
        proof {
            assert(bare.subrange(0, found.len() as int) =~= bare);
        }
        match error {
            None => {
                proof {
                    assert(recover(t, i as int, at@) == (bare, Seq::<Diag>::empty()));
                    assert(errors@.map_values(|e: FilterError| e@) + Seq::<Diag>::empty()
                        =~= errors@.map_values(|e: FilterError| e@));
                }
                return LexData { tokens, errors };
            },
            Some((e, j)) => {
                let ghost rest = recover(t, j as int, e@.end);
                let ghost old_errors = errors@;
                proof {
                    assert(recover(t, i as int, at@) == (bare + seq![error_marker(e@)] + rest.0, seq![e@] + rest.1));
                }
                tokens.push(BareTokenData {
                    token: BareToken::Error,
                    start: e.start,
                    start_line: e.start_line,
                    start_col: e.start_col,
                    end: e.end,
                    end_line: e.end_line,
                    end_col: e.end_col,
                });
                at = Position { offset: e.end, line: e.end_line, col: e.end_col };
                errors.push(e);
                i = j;
                proof {
                    assert(errors@.map_values(|x: FilterError| x@) =~= old_errors.map_values(|x: FilterError| x@).push(e@));
                    assert(tokens@ + rest.0 =~= before + (bare + seq![error_marker(e@)] + rest.0));
                    assert(errors@.map_values(|x: FilterError| x@) + rest.1
                        =~= old_errors.map_values(|x: FilterError| x@) + (seq![e@] + rest.1));
                }
            },
        }
    }
}

} // verus!
