//! Source locations and diagnostics shared by the tokenizer and the parser.

use vstd::prelude::*;

verus! {

/// A point in the source text: an absolute character offset and a
/// zero-indexed line and column.
pub struct Loc {
    pub offset: int,
    pub line: int,
    pub col: int,
}

/// A diagnostic: a message, the offending span `[start, end)` and the broader
/// range `[range_start, range_end)` under consideration when it was raised.
#[derive(Clone, Debug, PartialEq, Eq)]
pub struct FilterError {
    pub message: String,
    /// Offset of the first offending character (inclusive).
    pub start: usize,
    pub start_line: usize,
    pub start_col: usize,
    /// Offset just past the offending span (exclusive).
    pub end: usize,
    pub end_line: usize,
    /// Column just past the offending span (exclusive).
    pub end_col: usize,
    pub range_start: usize,
    pub range_end: usize,
}

impl FilterError {
    pub open spec fn start_loc(&self) -> Loc {
        Loc { offset: self.start as int, line: self.start_line as int, col: self.start_col as int }
    }

    pub open spec fn end_loc(&self) -> Loc {
        Loc { offset: self.end as int, line: self.end_line as int, col: self.end_col as int }
    }

    pub fn new(
        message: String,
        range_start: usize,
        range_end: usize,
        start: usize,
        start_line: usize,
        start_col: usize,
        end: usize,
        end_line: usize,
        end_col: usize,
    ) -> (r: Self)
        ensures
            r.message == message,
            r.range_start == range_start,
            r.range_end == range_end,
            r.start == start,
            r.start_line == start_line,
            r.start_col == start_col,
            r.end == end,
            r.end_line == end_line,
            r.end_col == end_col,
    {
        FilterError {
            message,
            start,
            start_line,
            start_col,
            end,
            end_line,
            end_col,
            range_start,
            range_end,
        }
    }

    /// An error whose span lies on one line, with a separate context range.
    pub fn new_oneline_context(
        message: String,
        line: usize,
        range_start: usize,
        range_end: usize,
        start: usize,
        start_col: usize,
        end: usize,
        end_col: usize,
    ) -> (r: Self)
        ensures
            r == (FilterError {
                message, start, start_line: line, start_col, end, end_line: line, end_col,
                range_start, range_end,
            }),
    {
        Self::new(message, range_start, range_end, start, line, start_col, end, line, end_col)
    }

    /// An error on one line whose context range is the span itself.
    pub fn new_oneline(
        message: String,
        line: usize,
        start: usize,
        start_col: usize,
        end: usize,
        end_col: usize,
    ) -> (r: Self)
        ensures
            r == (FilterError {
                message, start, start_line: line, start_col, end, end_line: line, end_col,
                range_start: start, range_end: end,
            }),
    {
        Self::new(message, start, end, start, line, start_col, end, line, end_col)
    }

    /// An error covering the single character at `start`.
    pub fn new_onechar(message: String, line: usize, start: usize, start_col: usize) -> (r: Self)
        requires
            start < usize::MAX,
            start_col < usize::MAX,
        ensures
            r == (FilterError {
                message, start, start_line: line, start_col, end: (start + 1) as usize,
                end_line: line, end_col: (start_col + 1) as usize,
                range_start: start, range_end: (start + 1) as usize,
            }),
    {
        Self::new_oneline(message, line, start, start_col, start + 1, start_col + 1)
    }
}

} // verus!
