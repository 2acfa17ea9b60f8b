//! A checkable chunk: a reassembled text buffer together with the ordered
//! map from ranges of that buffer back to the source spans they came from.

use vstd::prelude::*;
use vstd::string::*;

use crate::span::LineColumn;
use crate::span::Range;
use crate::span::Span;
use crate::span::advance;
use crate::span::lemma_walk_bounds;
use crate::span::walk;
use crate::util::str_eq;

verus! {

/// Where a chunk's text came from: a markup file, the documentation comments
/// of a source file, or an executable example embedded in such a comment.
/// Embedded examples carry a span, since one file yields many of them.
#[derive(Debug, Clone, Hash)]
pub enum ContentOrigin {
    CommonMarkFile(String),
    RustDocTest(String, Span),
    RustSourceFile(String),
}

/// Equality of origins over the characters of their paths; embedded examples
/// are further told apart by their span.
pub open spec fn origin_eq(a: ContentOrigin, b: ContentOrigin) -> bool {
    match (a, b) {
        (ContentOrigin::CommonMarkFile(x), ContentOrigin::CommonMarkFile(y)) => x@ == y@,
        (ContentOrigin::RustDocTest(x, sa), ContentOrigin::RustDocTest(y, sb)) => x@ == y@ && sa
            == sb,
        (ContentOrigin::RustSourceFile(x), ContentOrigin::RustSourceFile(y)) => x@ == y@,
        _ => false,
    }
}

impl ContentOrigin {
    /// The path of the file this origin points into.
    pub open spec fn spec_path(&self) -> Seq<char> {
        match self {
            ContentOrigin::CommonMarkFile(p) => p@,
            ContentOrigin::RustDocTest(p, _) => p@,
            ContentOrigin::RustSourceFile(p) => p@,
        }
    }

    pub fn as_path(&self) -> (p: &String)
        ensures
            p@ == self.spec_path(),
    {
        match self {
            ContentOrigin::CommonMarkFile(p) => p,
            ContentOrigin::RustDocTest(p, _) => p,
            ContentOrigin::RustSourceFile(p) => p,
        }
    }

    /// A copy equal to `self` under `origin_eq`.
    pub fn duplicate(&self) -> (r: ContentOrigin)
        ensures
            origin_eq(r, *self),
    {
        match self {
            ContentOrigin::CommonMarkFile(p) => ContentOrigin::CommonMarkFile(p.clone()),
            ContentOrigin::RustDocTest(p, sp) => ContentOrigin::RustDocTest(p.clone(), *sp),
            ContentOrigin::RustSourceFile(p) => ContentOrigin::RustSourceFile(p.clone()),
        }
    }
}

impl PartialEq for ContentOrigin {
    fn eq(&self, other: &Self) -> (r: bool) {
        match (self, other) {
            (ContentOrigin::CommonMarkFile(a), ContentOrigin::CommonMarkFile(b)) => str_eq(
                a.as_str(),
                b.as_str(),
            ),
            (ContentOrigin::RustDocTest(a, sa), ContentOrigin::RustDocTest(b, sb)) => str_eq(
                a.as_str(),
                b.as_str(),
            ) && sa == sb,
            (ContentOrigin::RustSourceFile(a), ContentOrigin::RustSourceFile(b)) => str_eq(
                a.as_str(),
                b.as_str(),
            ),
            _ => false,
        }
    }
}

impl vstd::std_specs::cmp::PartialEqSpecImpl for ContentOrigin {
    open spec fn obeys_eq_spec() -> bool {
        true
    }

    open spec fn eq_spec(&self, other: &Self) -> bool {
        origin_eq(*self, *other)
    }
}

/// A chunk of documentation submitted to the checkers as one item of work:
/// the reassembled text, and for each fragment of it the source span it was
/// folded in from.  Immutable after construction.
#[derive(Debug, Clone)]
pub struct CheckableChunk {
    /// Reassembled contents, e.g. a comment of two lines becomes
    /// ` first line\n second line`, whitespace preserved.
    content: String,
    /// For each range within `content`, the span it occupies in the source
    /// file, in increasing range order.
    source_mapping: Vec<(Range, Span)>,
}

/// The construction invariants of a fragment map over a text of `len`
/// characters: every range lies inside the text, ranges are pairwise
/// disjoint with strictly increasing starts, every span is well formed, and
/// line and column counters have headroom for replaying the fragment.
pub open spec fn wf_mapping(len: int, maps: Seq<(Range, Span)>) -> bool {
    &&& forall|i: int|
        0 <= i < maps.len() ==> {
            &&& (#[trigger] maps[i]).0.start <= maps[i].0.end <= len
            &&& maps[i].1.wf()
            &&& maps[i].1.start.line + maps[i].0.spec_len() < usize::MAX
            &&& maps[i].1.start.column + maps[i].0.spec_len() < usize::MAX
        }
    &&& forall|i: int, j: int|
        0 <= i < j < maps.len() ==> (#[trigger] maps[i]).0.end <= (#[trigger] maps[j]).0.start
            && maps[i].0.start < maps[j].0.start
}

/// Whether the fragment with range `fr` takes part in answering query `q`:
/// empty fragments are discarded, and the intersection must be non-empty.
pub open spec fn fragment_contributes(fr: Range, q: Range) -> bool {
    fr.spec_len() > 0 && inter_lo(fr, q) < inter_hi(fr, q)
}

/// Start of the intersection of fragment range and query.
pub open spec fn inter_lo(fr: Range, q: Range) -> int {
    if q.start >= fr.start {
        q.start as int
    } else {
        fr.start as int
    }
}

/// End of the intersection of fragment range and query.
pub open spec fn inter_hi(fr: Range, q: Range) -> int {
    if q.end <= fr.end {
        q.end as int
    } else {
        fr.end as int
    }
}

/// The pair produced for a contributing fragment: the intersection of the
/// fragment range with the query, and the span obtained by replaying the
/// fragment's characters from the fragment span's start.  The span's end is
/// the position of the intersection's last character (end inclusive).
pub open spec fn entry_for(content: Seq<char>, fr: Range, fs: Span, q: Range) -> (Range, Span) {
    let lo = inter_lo(fr, q);
    let hi = inter_hi(fr, q);
    let text = content.subrange(fr.start as int, fr.end as int);
    let shift = lo - fr.start;
    (
        Range { start: lo as usize, end: hi as usize },
        Span {
            start: walk(text, fs.start, shift),
            end: walk(text, fs.start, hi - fr.start - 1),
        },
    )
}

/// The ordered sequence of `(sub-range, sub-span)` pairs answering query `q`
/// over the fragment map `maps`: one pair per contributing fragment, in
/// stored fragment order.
pub open spec fn find_spans_spec(content: Seq<char>, maps: Seq<(Range, Span)>, q: Range) -> Seq<
    (Range, Span),
>
    decreases maps.len(),
{
    if maps.len() == 0 {
        Seq::empty()
    } else {
        let rest = find_spans_spec(content, maps.drop_first(), q);
        if fragment_contributes(maps[0].0, q) {
            seq![entry_for(content, maps[0].0, maps[0].1, q)] + rest
        } else {
            rest
        }
    }
}

/// The least index `>= j` at which the replay of `text` from `start`
/// reaches the position `target`, if any.
pub open spec fn walk_find(text: Seq<char>, start: LineColumn, target: LineColumn, j: int) -> Option<
    int,
>
    decreases text.len() - j,
    when 0 <= j <= text.len()
{
    if j >= text.len() {
        None
    } else if walk(text, start, j) == target {
        Some(j)
    } else {
        walk_find(text, start, target, j + 1)
    }
}

/// The first content index whose replayed position is `target`, fragments
/// scanned in stored order.
pub open spec fn find_position_spec(
    content: Seq<char>,
    maps: Seq<(Range, Span)>,
    target: LineColumn,
) -> Option<int>
    decreases maps.len(),
{
    if maps.len() == 0 {
        None
    } else {
        let fr = maps[0].0;
        let fs = maps[0].1;
        match walk_find(content.subrange(fr.start as int, fr.end as int), fs.start, target, 0) {
            Some(j) => Some(fr.start + j),
            None => find_position_spec(content, maps.drop_first(), target),
        }
    }
}

/// The content range a span occupies: from the content index of its start
/// position to one past the content index of its end position, provided
/// both positions are found among the chunk's fragments.
pub open spec fn to_content_range_spec(
    content: Seq<char>,
    maps: Seq<(Range, Span)>,
    sp: Span,
) -> Option<Range> {
    match (find_position_spec(content, maps, sp.start), find_position_spec(
        content,
        maps,
        sp.end,
    )) {
        (Some(a), Some(b)) => Some(Range { start: a as usize, end: (b + 1) as usize }),
        _ => None,
    }
}

impl Span {
    /// Convert this span back to a range over the chunk's content, the
    /// reverse direction of [`CheckableChunk::find_spans`]: both endpoints
    /// are located by replaying the chunk's fragments.  `None` when either
    /// endpoint maps into no fragment.
    pub fn to_content_range(&self, chunk: &CheckableChunk) -> (r: Option<Range>)
        requires
            chunk.wf(),
        ensures
            r == to_content_range_spec(chunk.text(), chunk.mapping(), *self),
    {
        match (chunk.find_position(self.start), chunk.find_position(self.end)) {
            (Some(a), Some(b)) => Some(Range { start: a, end: b + 1 }),
            _ => None,
        }
    }
}

impl CheckableChunk {
    /// The chunk's text as a character sequence.
    pub closed spec fn text(&self) -> Seq<char> {
        self.content@
    }

    /// The chunk's fragment map.
    pub closed spec fn mapping(&self) -> Seq<(Range, Span)> {
        self.source_mapping@
    }

    /// Construction invariants, see [`wf_mapping`].
    pub open spec fn wf(&self) -> bool {
        wf_mapping(self.text().len() as int, self.mapping())
    }

    /// Build a chunk from an owned buffer and its fragment map.  The map
    /// must satisfy the construction invariants; violating them indicates a
    /// bug in the upstream extraction, not a recoverable condition.
    pub fn from_string(content: String, source_mapping: Vec<(Range, Span)>) -> (c: Self)
        requires
            wf_mapping(content@.len() as int, source_mapping@),
        ensures
            c.text() == content@,
            c.mapping() == source_mapping@,
            c.wf(),
    {
        Self { content, source_mapping }
    }

    /// Build a chunk from borrowed text, see [`CheckableChunk::from_string`].
    pub fn from_str(content: &str, source_mapping: Vec<(Range, Span)>) -> (c: Self)
        requires
            wf_mapping(content@.len() as int, source_mapping@),
        ensures
            c.text() == content@,
            c.mapping() == source_mapping@,
            c.wf(),
    {
        Self::from_string(content.to_owned(), source_mapping)
    }

    pub fn as_str(&self) -> (s: &str)
        ensures
            s@ == self.text(),
    {
        self.content.as_str()
    }

    /// Length in characters (not bytes).
    pub fn len_in_chars(&self) -> (n: usize)
        ensures
            n == self.text().len(),
    {
        self.content.as_str().unicode_len()
    }

    pub fn fragment_count(&self) -> (n: usize)
        ensures
            n == self.mapping().len(),
    {
        self.source_mapping.len()
    }

    /// The fragment map in stored order.
    pub fn fragments(&self) -> (m: &Vec<(Range, Span)>)
        ensures
            m@ == self.mapping(),
    {
        &self.source_mapping
    }

    /// Find which parts of `range` map to which source spans.  The query
    /// need not align with fragment boundaries: it is intersected with every
    /// fragment, and each non-empty intersection is replayed character by
    /// character from the fragment span's start to re-derive exact line and
    /// column positions, since a fragment may itself span several lines.
    /// A query entirely inside a gap yields an empty result.  Every pair
    /// whose span stays on one line covers exactly as many source columns
    /// as its range has characters.
    pub fn find_spans(&self, range: Range) -> (r: Vec<(Range, Span)>)
        requires
            self.wf(),
        ensures
            r@ == find_spans_spec(self.text(), self.mapping(), range),
            forall|i: int|
                0 <= i < r@.len() ==> {
                    let (sub, sp) = #[trigger] r@[i];
                    sp.start.line == sp.end.line ==> sp.spec_one_line_len() == Some(sub.spec_len())
                },
    {
        proof {
            crate::provenance::lemma_find_spans_single_line_len(
                self.text(),
                self.mapping(),
                range,
            );
        }
        let mut out: Vec<(Range, Span)> = Vec::new();
        let n = self.source_mapping.len();
        let mut k: usize = 0;
        proof {
            assert(self.mapping().skip(0) =~= self.mapping());
            assert(out@ + find_spans_spec(self.text(), self.mapping(), range) =~= find_spans_spec(
                self.text(),
                self.mapping(),
                range,
            ));
        }
        while k < n
            invariant
                self.wf(),
                n == self.mapping().len(),
                k <= n,
                out@ + find_spans_spec(self.text(), self.mapping().skip(k as int), range)
                    == find_spans_spec(self.text(), self.mapping(), range),
            decreases n - k,
        {
            proof {
                assert(self.mapping().skip(k as int).drop_first() =~= self.mapping().skip(
                    k as int + 1,
                ));
                assert(self.mapping().skip(k as int)[0] == self.mapping()[k as int]);
            }
            let (fr, fs) = self.source_mapping[k];
            let lo = if range.start >= fr.start {
                range.start
            } else {
                fr.start
            };
            let hi = if range.end <= fr.end {
                range.end
            } else {
                fr.end
            };
            let ghost out_before = out@;
            if fr.len() > 0 && lo < hi {
                let shift = lo - fr.start;
                let sub_start = self.walk_fragment(fr, fs.start, shift);
                let sub_end = self.walk_fragment(fr, fs.start, hi - fr.start - 1);
                out.push((Range { start: lo, end: hi }, Span { start: sub_start, end: sub_end }));
                proof {
                    let e = entry_for(self.text(), fr, fs, range);
                    assert(out@ =~= out_before + seq![e]);
                    assert(out_before + seq![e] + find_spans_spec(
                        self.text(),
                        self.mapping().skip(k as int + 1),
                        range,
                    ) =~= out_before + (seq![e] + find_spans_spec(
                        self.text(),
                        self.mapping().skip(k as int + 1),
                        range,
                    )));
                }
            }
            k += 1;
        }
        proof {
            assert(self.mapping().skip(n as int) =~= Seq::<(Range, Span)>::empty());
            assert(out@ =~= out@ + find_spans_spec(self.text(), self.mapping().skip(n as int), range));
        }
        out
    }

    /// The first content index whose replayed position equals `target`,
    /// scanning fragments in stored order.
    pub fn find_position(&self, target: LineColumn) -> (r: Option<usize>)
        requires
            self.wf(),
        ensures
            match r {
                Some(v) => find_position_spec(self.text(), self.mapping(), target) == Some(
                    v as int,
                ) && v < self.text().len() && v < usize::MAX,
                None => find_position_spec(self.text(), self.mapping(), target) is None,
            },
    {
        let n = self.source_mapping.len();
        let mut k: usize = 0;
        proof {
            assert(self.mapping().skip(0) =~= self.mapping());
        }
        while k < n
            invariant
                self.wf(),
                n == self.mapping().len(),
                k <= n,
                find_position_spec(self.text(), self.mapping(), target) == find_position_spec(
                    self.text(),
                    self.mapping().skip(k as int),
                    target,
                ),
            decreases n - k,
        {
            proof {
                assert(self.mapping().skip(k as int).drop_first() =~= self.mapping().skip(
                    k as int + 1,
                ));
                assert(self.mapping().skip(k as int)[0] == self.mapping()[k as int]);
            }
            let (fr, fs) = self.source_mapping[k];
            let ghost text = self.text().subrange(fr.start as int, fr.end as int);
            let frlen = fr.len();
            let mut cur = fs.start;
            let mut j: usize = 0;
            while j < frlen
                invariant
                    j <= frlen,
                    frlen == fr.spec_len(),
                    fr.start <= fr.end <= self.text().len(),
                    fs.start.line + fr.spec_len() < usize::MAX,
                    fs.start.column + fr.spec_len() < usize::MAX,
                    text == self.text().subrange(fr.start as int, fr.end as int),
                    cur == walk(text, fs.start, j as int),
                    walk_find(text, fs.start, target, 0) == walk_find(
                        text,
                        fs.start,
                        target,
                        j as int,
                    ),
                    k < n,
                    n == self.mapping().len(),
                    self.mapping()[k as int] == (fr, fs),
                    find_position_spec(self.text(), self.mapping(), target) == find_position_spec(
                        self.text(),
                        self.mapping().skip(k as int),
                        target,
                    ),
                decreases frlen - j,
            {
                if cur.line == target.line && cur.column == target.column {
                    proof {
                        assert(self.mapping().skip(k as int)[0] == self.mapping()[k as int]);
                        assert(walk(text, fs.start, j as int) == target);
                        assert(walk_find(text, fs.start, target, j as int) == Some(j as int));
                        assert(find_position_spec(
                            self.text(),
                            self.mapping().skip(k as int),
                            target,
                        ) == Some(fr.start + j as int));
                    }
                    return Some(fr.start + j);
                }
                proof {
                    lemma_walk_bounds(text, fs.start, j as int);
                    assert(text[j as int] == self.text()[fr.start + j]);
                }
                let c = self.content.as_str().get_char(fr.start + j);
                cur = if c == '\n' {
                    LineColumn { line: cur.line + 1, column: 0 }
                } else {
                    LineColumn { line: cur.line, column: cur.column + 1 }
                };
                j += 1;
            }
            k += 1;
        }
        proof {
            assert(self.mapping().skip(n as int) =~= Seq::<(Range, Span)>::empty());
        }
        None
    }

    /// Replay the first `i` characters of the fragment `fr` starting from
    /// position `start`, returning the position reached.
    fn walk_fragment(&self, fr: Range, start: LineColumn, i: usize) -> (lc: LineColumn)
        requires
            fr.start <= fr.end <= self.text().len(),
            i <= fr.spec_len(),
            start.line + fr.spec_len() < usize::MAX,
            start.column + fr.spec_len() < usize::MAX,
        ensures
            lc == walk(self.text().subrange(fr.start as int, fr.end as int), start, i as int),
    {
        let ghost text = self.text().subrange(fr.start as int, fr.end as int);
        let mut cur = start;
        let mut j: usize = 0;
        while j < i
            invariant
                j <= i,
                i <= fr.spec_len(),
                fr.start <= fr.end <= self.text().len(),
                start.line + fr.spec_len() < usize::MAX,
                start.column + fr.spec_len() < usize::MAX,
                text == self.text().subrange(fr.start as int, fr.end as int),
                cur == walk(text, start, j as int),
            decreases i - j,
        {
            proof {
                lemma_walk_bounds(text, start, j as int);
                assert(text[j as int] == self.text()[fr.start + j]);
            }
            let c = self.content.as_str().get_char(fr.start + j);
            cur = if c == '\n' {
                LineColumn { line: cur.line + 1, column: 0 }
            } else {
                LineColumn { line: cur.line, column: cur.column + 1 }
            };
            proof {
                assert(cur == advance(walk(text, start, j as int), text[j as int]));
            }
            j += 1;
        }
        cur
    }
}

} // verus!
