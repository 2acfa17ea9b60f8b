//! Position primitives: a 1-based line / 0-based column position, a source
//! span between two such positions (end inclusive), and a half-open
//! character-index range over a text buffer.

use vstd::prelude::*;

verus! {

/// A position in a source file: `line` is 1-based, `column` is 0-based and
/// counts characters, not bytes.
#[derive(Clone, Copy, Debug, PartialEq, Eq, Hash, Structural)]
pub struct LineColumn {
    pub line: usize,
    pub column: usize,
}

/// A region of a source file between two positions; both ends point at a
/// character, so the end position is inclusive.
#[derive(Clone, Copy, Debug, PartialEq, Eq, Hash, Structural)]
pub struct Span {
    pub start: LineColumn,
    pub end: LineColumn,
}

/// A half-open interval `[start, end)` of character indices over a text
/// buffer.  All indexing is by character: source text may contain multi-byte
/// characters, and byte slicing would corrupt the alignment.
#[derive(Clone, Copy, Debug, PartialEq, Eq, Hash, Structural)]
pub struct Range {
    pub start: usize,
    pub end: usize,
}

impl Range {
    /// Number of characters covered; an inverted interval covers none.
    pub open spec fn spec_len(&self) -> int {
        if self.start <= self.end {
            self.end - self.start
        } else {
            0
        }
    }

    pub fn len(&self) -> (n: usize)
        ensures
            n == self.spec_len(),
    {
        if self.start <= self.end {
            self.end - self.start
        } else {
            0
        }
    }

    /// Whether `i` lies inside the interval.
    pub open spec fn spec_contains(&self, i: int) -> bool {
        self.start <= i < self.end
    }
}

impl LineColumn {
    /// `(line, column)` ordered lexicographically.
    pub open spec fn spec_le(self, other: LineColumn) -> bool {
        self.line < other.line || (self.line == other.line && self.column <= other.column)
    }
}

impl Span {
    /// A well-formed span starts on line 1 or later and does not end before
    /// it starts.
    pub open spec fn wf(&self) -> bool {
        1 <= self.start.line && self.start.spec_le(self.end)
    }

    /// Number of characters a single-line span covers (end is inclusive);
    /// `None` for a span that crosses lines.
    pub open spec fn spec_one_line_len(&self) -> Option<int> {
        if self.start.line == self.end.line {
            Some(self.end.column - self.start.column + 1)
        } else {
            None
        }
    }

    pub fn one_line_len(&self) -> (r: Option<usize>)
        requires
            self.wf(),
            self.end.column < usize::MAX,
        ensures
            match r {
                Some(n) => self.spec_one_line_len() == Some(n as int),
                None => self.spec_one_line_len() is None,
            },
    {
        if self.start.line == self.end.line {
            Some(self.end.column - self.start.column + 1)
        } else {
            None
        }
    }
}

/// The position one character after `lc`, where the character consumed is
/// `c`: a newline moves to the start of the next line, anything else advances
/// the column.
pub open spec fn advance(lc: LineColumn, c: char) -> LineColumn {
    if c == '\n' {
        LineColumn { line: (lc.line + 1) as usize, column: 0 }
    } else {
        LineColumn { line: lc.line, column: (lc.column + 1) as usize }
    }
}

/// The position reached after consuming the first `i` characters of `text`,
/// starting from `start`.
pub open spec fn walk(text: Seq<char>, start: LineColumn, i: int) -> LineColumn
    decreases i,
{
    if i <= 0 {
        start
    } else {
        advance(walk(text, start, i - 1), text[i - 1])
    }
}

/// Walking never moves the line backwards, and advances line and column by at
/// most one per character, so within the given headroom no counter wraps.
pub proof fn lemma_walk_bounds(text: Seq<char>, start: LineColumn, i: int)
    requires
        0 <= i,
        start.line + i <= usize::MAX,
        start.column + i <= usize::MAX,
    ensures
        start.line <= walk(text, start, i).line <= start.line + i,
        walk(text, start, i).column <= start.column + i,
        walk(text, start, i) == if i == 0 {
            start
        } else {
            advance(walk(text, start, i - 1), text[i - 1])
        },
    decreases i,
{
    if i > 0 {
        lemma_walk_bounds(text, start, i - 1);
    }
}

/// On text without newlines the walk stays on its line and the column grows
/// by exactly the number of characters consumed.
pub proof fn lemma_walk_single_line(text: Seq<char>, start: LineColumn, i: int)
    requires
        0 <= i <= text.len(),
        forall|j: int| 0 <= j < text.len() ==> text[j] != '\n',
        start.column + i <= usize::MAX,
    ensures
        walk(text, start, i) == (LineColumn { line: start.line, column: (start.column + i) as usize }),
    decreases i,
{
    if i > 0 {
        lemma_walk_single_line(text, start, i - 1);
    }
}

/// If two walked positions share a line, no newline was consumed between
/// them, and the columns differ exactly by the number of characters between.
pub proof fn lemma_walk_same_line(text: Seq<char>, start: LineColumn, i: int, j: int)
    requires
        0 <= i <= j,
        start.line + j <= usize::MAX,
        start.column + j <= usize::MAX,
        walk(text, start, i).line == walk(text, start, j).line,
    ensures
        walk(text, start, j).column == walk(text, start, i).column + (j - i),
    decreases j - i,
{
    if j > i {
        lemma_walk_bounds(text, start, j - 1);
        lemma_walk_bounds(text, start, i);
        lemma_walk_bounds(text, start, j);
        // the step from j-1 to j cannot be a newline: a newline would move to
        // a strictly larger line than walk(i) has
        if text[j - 1] == '\n' {
            lemma_walk_line_monotone(text, start, i, j - 1);
            assert(false);
        } else {
            lemma_walk_same_line(text, start, i, j - 1);
        }
    }
}

/// The line number stays within its headroom along a walk, whatever the
/// columns do.
pub proof fn lemma_walk_line_bounds(text: Seq<char>, start: LineColumn, i: int)
    requires
        0 <= i,
        start.line + i <= usize::MAX,
    ensures
        start.line <= walk(text, start, i).line <= start.line + i,
    decreases i,
{
    if i > 0 {
        lemma_walk_line_bounds(text, start, i - 1);
    }
}

/// The line number never decreases along a walk.
pub proof fn lemma_walk_line_monotone(text: Seq<char>, start: LineColumn, i: int, j: int)
    requires
        0 <= i <= j,
        start.line + j <= usize::MAX,
    ensures
        walk(text, start, i).line <= walk(text, start, j).line,
    decreases j - i,
{
    if j > i {
        lemma_walk_line_monotone(text, start, i, j - 1);
        lemma_walk_line_bounds(text, start, j - 1);
    }
}

} // verus!
