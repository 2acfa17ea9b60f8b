//! The model of a source file as a character sequence, extraction of a span
//! from it, and the laws tying [`crate::chunk::find_spans_spec`] back to the
//! source: a resolved span re-extracts exactly the queried characters.

use vstd::prelude::*;
use vstd::string::*;

use crate::chunk::entry_for;
use crate::chunk::find_spans_spec;
use crate::chunk::fragment_contributes;
use crate::chunk::inter_hi;
use crate::chunk::inter_lo;
use crate::chunk::wf_mapping;
use crate::span::LineColumn;
use crate::span::Range;
use crate::span::Span;
use crate::span::lemma_walk_bounds;
use crate::span::lemma_walk_single_line;
use crate::span::walk;

verus! {

/// Index one past the end of the line that begins at `from`: the position
/// after the next newline, or the end of the text.
pub open spec fn scan_line_end(s: Seq<char>, from: int) -> int
    decreases s.len() - from,
    when 0 <= from <= s.len()
{
    if from >= s.len() {
        s.len() as int
    } else if s[from] == '\n' {
        from + 1
    } else {
        scan_line_end(s, from + 1)
    }
}

/// Index of the first character of the 1-based line `line` of `s`; the
/// length of `s` once the lines are exhausted.
pub open spec fn line_start(s: Seq<char>, line: int) -> int
    decreases line,
{
    if line <= 1 {
        0
    } else {
        scan_line_end(s, line_start(s, line - 1))
    }
}

/// The character index a position denotes within source text `s`.
pub open spec fn offset_of(s: Seq<char>, lc: LineColumn) -> int {
    line_start(s, lc.line as int) + lc.column
}

/// The characters of `s` covered by `sp` (end inclusive).
pub open spec fn extract_span(s: Seq<char>, sp: Span) -> Seq<char> {
    s.subrange(offset_of(s, sp.start), offset_of(s, sp.end) + 1)
}

/// Whether both offsets of `sp` land inside `s` in order, so that
/// [`extract_span`] is meaningful.
pub open spec fn span_extractable(s: Seq<char>, sp: Span) -> bool {
    0 <= offset_of(s, sp.start) <= offset_of(s, sp.end) < s.len()
}

/// No newline among the characters of `s` at indices `[a, b)`.
pub open spec fn no_newline(s: Seq<char>, a: int, b: int) -> bool {
    forall|i: int| a <= i < b ==> s[i] != '\n'
}

/// The contract the fragment extractor owes: the fragment's characters in
/// the chunk content literally appear in the source text at the offset its
/// span start denotes, and that span start is a genuine position (no newline
/// earlier on its line).
pub open spec fn fragment_faithful(
    source: Seq<char>,
    content: Seq<char>,
    fr: Range,
    fs: Span,
) -> bool {
    &&& fs.wf()
    &&& offset_of(source, fs.start) + fr.spec_len() <= source.len()
    &&& forall|j: int|
        0 <= j < fr.spec_len() ==> source[offset_of(source, fs.start) + j]
            == #[trigger] content[fr.start + j]
    &&& no_newline(source, line_start(source, fs.start.line as int), offset_of(source, fs.start))
}

/// Index of the first character of the 1-based `line` within `source`.
pub fn line_start_of(source: &str, line: usize) -> (r: usize)
    ensures
        r == line_start(source@, line as int),
        r <= source@.len(),
{
    if line <= 1 {
        return 0;
    }
    let n = source.unicode_len();
    let mut l: usize = 1;
    let mut pos: usize = 0;
    while l < line
        invariant
            1 <= l <= line,
            n == source@.len(),
            pos == line_start(source@, l as int),
            pos <= n,
        decreases line - l,
    {
        let mut p = pos;
        while p < n && source.get_char(p) != '\n'
            invariant
                pos <= p <= n,
                n == source@.len(),
                scan_line_end(source@, pos as int) == scan_line_end(source@, p as int),
            decreases n - p,
        {
            p += 1;
        }
        proof {
            assert(scan_line_end(source@, pos as int) == if p < n {
                p + 1
            } else {
                n as int
            });
        }
        pos = if p < n {
            p + 1
        } else {
            n
        };
        l += 1;
    }
    pos
}

/// Extract from `source` the characters covered by `sp` (end inclusive),
/// or `None` when the span's offsets do not land inside the text in order.
pub fn load_span_from(source: &str, sp: Span) -> (r: Option<String>)
    ensures
        match r {
            Some(t) => span_extractable(source@, sp) && t@ == extract_span(source@, sp),
            None => !span_extractable(source@, sp),
        },
{
    let n = source.unicode_len();
    let ls = line_start_of(source, sp.start.line);
    if sp.start.column > n - ls {
        proof {
            lemma_line_start_bounds(source@, sp.end.line as int);
        }
        return None;
    }
    let a = ls + sp.start.column;
    let le = line_start_of(source, sp.end.line);
    if sp.end.column > n - le {
        return None;
    }
    let b = le + sp.end.column;
    if a <= b && b < n {
        Some(crate::util::sub_chars(source, crate::span::Range { start: a, end: b + 1 }))
    } else {
        None
    }
}

pub proof fn lemma_scan_bounds(s: Seq<char>, from: int)
    requires
        0 <= from <= s.len(),
    ensures
        from <= scan_line_end(s, from) <= s.len(),
    decreases s.len() - from,
{
    if from < s.len() && s[from] != '\n' {
        lemma_scan_bounds(s, from + 1);
    }
}

pub proof fn lemma_line_start_bounds(s: Seq<char>, line: int)
    ensures
        0 <= line_start(s, line) <= s.len(),
    decreases line,
{
    if line > 1 {
        lemma_line_start_bounds(s, line - 1);
        lemma_scan_bounds(s, line_start(s, line - 1));
    }
}

/// If the stretch `[a, b)` holds no newline and a newline sits at `b`, the
/// line beginning at `a` ends right after `b`.
proof fn lemma_scan_hits(s: Seq<char>, a: int, b: int)
    requires
        0 <= a <= b < s.len(),
        no_newline(s, a, b),
        s[b] == '\n',
    ensures
        scan_line_end(s, a) == b + 1,
    decreases b - a,
{
    if a < b {
        lemma_scan_hits(s, a + 1, b);
    }
}

/// Replaying a faithful fragment advances the source offset by exactly one
/// per character: the position after `j` characters denotes offset
/// `offset_of(start) + j`, and remains a genuine position on its line.
proof fn lemma_replay_offset(
    source: Seq<char>,
    content: Seq<char>,
    fr: Range,
    fs: Span,
    j: int,
)
    requires
        fr.start <= fr.end <= content.len(),
        fs.start.line + fr.spec_len() < usize::MAX,
        fs.start.column + fr.spec_len() < usize::MAX,
        fragment_faithful(source, content, fr, fs),
        0 <= j <= fr.spec_len(),
    ensures
        ({
            let text = content.subrange(fr.start as int, fr.end as int);
            let lc = walk(text, fs.start, j);
            let o = offset_of(source, fs.start);
            &&& line_start(source, lc.line as int) == o + j - lc.column
            &&& offset_of(source, lc) == o + j
            &&& no_newline(source, line_start(source, lc.line as int), o + j)
        }),
    decreases j,
{
    let text = content.subrange(fr.start as int, fr.end as int);
    let o = offset_of(source, fs.start);
    lemma_line_start_bounds(source, fs.start.line as int);
    if j == 0 {
    } else {
        lemma_replay_offset(source, content, fr, fs, j - 1);
        let prev = walk(text, fs.start, j - 1);
        let lc = walk(text, fs.start, j);
        lemma_walk_bounds(text, fs.start, j - 1);
        lemma_walk_bounds(text, fs.start, j);
        let c = text[j - 1];
        assert(0 <= j - 1 < fr.spec_len());
        assert(text.len() == fr.spec_len());
        assert(c == content[fr.start + (j - 1)]);
        assert(0 <= o + (j - 1) < source.len());
        assert(source[offset_of(source, fs.start) + (j - 1)] == content[fr.start + (j - 1)]);
        assert(source[o + j - 1] == c);
        if c == '\n' {
            lemma_line_start_bounds(source, prev.line as int);
            lemma_scan_hits(source, o + j - 1 - prev.column, o + j - 1);
            assert(line_start(source, prev.line as int + 1) == o + j);
        } else {
        }
    }
}

/// The pair a contributing faithful fragment produces re-extracts, from the
/// source text, exactly the chunk characters of its sub-range.
proof fn lemma_entry_extracts(
    source: Seq<char>,
    content: Seq<char>,
    fr: Range,
    fs: Span,
    q: Range,
)
    requires
        fr.start <= fr.end <= content.len(),
        fs.start.line + fr.spec_len() < usize::MAX,
        fs.start.column + fr.spec_len() < usize::MAX,
        fragment_faithful(source, content, fr, fs),
        fragment_contributes(fr, q),
    ensures
        ({
            let (sub, ssp) = entry_for(content, fr, fs, q);
            &&& span_extractable(source, ssp)
            &&& extract_span(source, ssp) == content.subrange(sub.start as int, sub.end as int)
        }),
{
    let lo = inter_lo(fr, q);
    let hi = inter_hi(fr, q);
    let o = offset_of(source, fs.start);
    let shift = lo - fr.start;
    let len = hi - lo;
    lemma_line_start_bounds(source, fs.start.line as int);
    lemma_replay_offset(source, content, fr, fs, shift);
    lemma_replay_offset(source, content, fr, fs, hi - fr.start - 1);
    let (sub, ssp) = entry_for(content, fr, fs, q);
    assert(offset_of(source, ssp.start) == o + shift);
    assert(offset_of(source, ssp.end) == o + (hi - fr.start - 1));
    assert(extract_span(source, ssp).len() == hi - lo);
    assert forall|t: int| 0 <= t < hi - lo implies extract_span(source, ssp)[t] == content.subrange(
        sub.start as int,
        sub.end as int,
    )[t] by {
        assert(source[offset_of(source, fs.start) + (shift + t)] == content[fr.start + (shift
            + t)]);
        assert(extract_span(source, ssp)[t] == source[o + shift + t]);
        assert(content.subrange(sub.start as int, sub.end as int)[t] == content[lo + t]);
    }
    assert(extract_span(source, ssp) =~= content.subrange(sub.start as int, sub.end as int));
}

/// Fragments other than `k` never contribute: the answer is empty or the
/// single entry of fragment `k`.
proof fn lemma_single_contributor(
    content: Seq<char>,
    maps: Seq<(Range, Span)>,
    q: Range,
    k: int,
)
    requires
        0 <= k < maps.len(),
        fragment_contributes(maps[k].0, q),
        forall|j: int| 0 <= j < maps.len() && j != k ==> !fragment_contributes(
            (#[trigger] maps[j]).0,
            q,
        ),
    ensures
        find_spans_spec(content, maps, q) == seq![
            entry_for(content, maps[k].0, maps[k].1, q),
        ],
    decreases maps.len(),
{
    let rest = maps.drop_first();
    assert(forall|i: int| 0 <= i < rest.len() ==> (#[trigger] rest[i]) == maps[i + 1]);
    if k == 0 {
        lemma_no_contributors(content, rest, q);
        assert(find_spans_spec(content, maps, q) =~= seq![
            entry_for(content, maps[0].0, maps[0].1, q),
        ]);
    } else {
        lemma_single_contributor(content, rest, q, k - 1);
    }
}

/// With no contributing fragment the answer is empty.
proof fn lemma_no_contributors(content: Seq<char>, maps: Seq<(Range, Span)>, q: Range)
    requires
        forall|j: int| 0 <= j < maps.len() ==> !fragment_contributes((#[trigger] maps[j]).0, q),
    ensures
        find_spans_spec(content, maps, q) == Seq::<(Range, Span)>::empty(),
    decreases maps.len(),
{
    if maps.len() > 0 {
        let rest = maps.drop_first();
        assert(forall|i: int| 0 <= i < rest.len() ==> (#[trigger] rest[i]) == maps[i + 1]);
        lemma_no_contributors(content, rest, q);
    }
}

/// Exactly fragments `k` and `k2` contribute: the answer is their two
/// entries in order.
proof fn lemma_pair_contributors(
    content: Seq<char>,
    maps: Seq<(Range, Span)>,
    q: Range,
    k: int,
    k2: int,
)
    requires
        0 <= k < k2 < maps.len(),
        fragment_contributes(maps[k].0, q),
        fragment_contributes(maps[k2].0, q),
        forall|j: int| 0 <= j < maps.len() && j != k && j != k2 ==> !fragment_contributes(
            (#[trigger] maps[j]).0,
            q,
        ),
    ensures
        find_spans_spec(content, maps, q) == seq![
            entry_for(content, maps[k].0, maps[k].1, q),
            entry_for(content, maps[k2].0, maps[k2].1, q),
        ],
    decreases maps.len(),
{
    let rest = maps.drop_first();
    assert(forall|i: int| 0 <= i < rest.len() ==> (#[trigger] rest[i]) == maps[i + 1]);
    if k == 0 {
        lemma_single_contributor(content, rest, q, k2 - 1);
        assert(find_spans_spec(content, maps, q) =~= seq![
            entry_for(content, maps[0].0, maps[0].1, q),
            entry_for(content, maps[k2].0, maps[k2].1, q),
        ]);
    } else {
        lemma_pair_contributors(content, rest, q, k - 1, k2 - 1);
    }
}

/// LAW — single-fragment resolution.  For a query lying entirely inside one
/// fragment of a well-formed map, the answer is exactly one pair; its range
/// is the query itself, and re-extracting its span from the source text
/// yields precisely the queried characters of the chunk.
pub proof fn lemma_find_spans_single_fragment(
    source: Seq<char>,
    content: Seq<char>,
    maps: Seq<(Range, Span)>,
    q: Range,
    k: int,
)
    requires
        wf_mapping(content.len() as int, maps),
        0 <= k < maps.len(),
        maps[k].0.start <= q.start,
        q.start < q.end,
        q.end <= maps[k].0.end,
        fragment_faithful(source, content, maps[k].0, maps[k].1),
    ensures
        find_spans_spec(content, maps, q).len() == 1,
        find_spans_spec(content, maps, q)[0].0 == q,
        span_extractable(source, find_spans_spec(content, maps, q)[0].1),
        extract_span(source, find_spans_spec(content, maps, q)[0].1) == content.subrange(
            q.start as int,
            q.end as int,
        ),
{
    let fr = maps[k].0;
    let fs = maps[k].1;
    assert(fragment_contributes(fr, q));
    assert(forall|j: int|
        0 <= j < maps.len() && j != k ==> !fragment_contributes((#[trigger] maps[j]).0, q)) by {
        assert forall|j: int|
            0 <= j < maps.len() && j != k implies !fragment_contributes(
            (#[trigger] maps[j]).0,
            q,
        ) by {
            if j < k {
                assert(maps[j].0.end <= maps[k].0.start);
            } else {
                assert(maps[k].0.end <= maps[j].0.start);
            }
        }
    }
    lemma_single_contributor(content, maps, q, k);
    lemma_entry_extracts(source, content, fr, fs, q);
    assert(find_spans_spec(content, maps, q)[0].0 == q);
}

/// LAW — join-boundary resolution.  For a query reaching from inside
/// fragment `k` across the gap into fragment `k + 1`, the answer has exactly
/// one pair per overlapped fragment, each covering only its intersecting
/// portion, and the concatenation of the re-extracted texts equals the
/// queried chunk characters split at the boundary.
pub proof fn lemma_find_spans_join_boundary(
    source: Seq<char>,
    content: Seq<char>,
    maps: Seq<(Range, Span)>,
    q: Range,
    k: int,
)
    requires
        wf_mapping(content.len() as int, maps),
        0 <= k,
        k + 1 < maps.len(),
        maps[k].0.start <= q.start < maps[k].0.end,
        maps[k + 1].0.start < q.end <= maps[k + 1].0.end,
        fragment_faithful(source, content, maps[k].0, maps[k].1),
        fragment_faithful(source, content, maps[k + 1].0, maps[k + 1].1),
    ensures
        ({
            let r = find_spans_spec(content, maps, q);
            let first = Range { start: q.start, end: maps[k].0.end };
            let second = Range { start: maps[k + 1].0.start, end: q.end };
            &&& r.len() == 2
            &&& r[0].0 == first
            &&& r[1].0 == second
            &&& extract_span(source, r[0].1) == content.subrange(
                first.start as int,
                first.end as int,
            )
            &&& extract_span(source, r[1].1) == content.subrange(
                second.start as int,
                second.end as int,
            )
            &&& extract_span(source, r[0].1) + extract_span(source, r[1].1) == content.subrange(
                first.start as int,
                first.end as int,
            ) + content.subrange(second.start as int, second.end as int)
        }),
{
    let fr1 = maps[k].0;
    let fr2 = maps[k + 1].0;
    assert(fr1.end <= fr2.start);
    assert(fragment_contributes(fr1, q));
    assert(fragment_contributes(fr2, q));
    assert(forall|j: int|
        0 <= j < maps.len() && j != k && j != k + 1 ==> !fragment_contributes(
            (#[trigger] maps[j]).0,
            q,
        )) by {
        assert forall|j: int|
            0 <= j < maps.len() && j != k && j != k + 1 implies !fragment_contributes(
            (#[trigger] maps[j]).0,
            q,
        ) by {
            if j < k {
                assert(maps[j].0.end <= maps[k].0.start);
            } else {
                assert(maps[k + 1].0.end <= maps[j].0.start);
            }
        }
    }
    lemma_pair_contributors(content, maps, q, k, k + 1);
    lemma_entry_extracts(source, content, fr1, maps[k].1, q);
    lemma_entry_extracts(source, content, fr2, maps[k + 1].1, q);
}

/// How one answer dominates another: every pair of `xs` is matched, in
/// order, by a pair of `ys` whose range contains its range.
pub open spec fn entries_dominated(xs: Seq<(Range, Span)>, ys: Seq<(Range, Span)>) -> bool
    decreases xs.len() + ys.len(),
{
    if xs.len() == 0 {
        true
    } else if ys.len() == 0 {
        false
    } else {
        (range_within(xs[0].0, ys[0].0) && entries_dominated(xs.drop_first(), ys.drop_first()))
            || entries_dominated(xs, ys.drop_first())
    }
}

/// `a` lies inside `b`.
pub open spec fn range_within(a: Range, b: Range) -> bool {
    b.start <= a.start && a.end <= b.end
}

/// LAW — coverage monotonicity.  Enlarging the query can only add pairs or
/// extend existing ones: every pair of the smaller query's answer is matched
/// in order by a containing pair of the larger query's answer.
pub proof fn lemma_find_spans_monotone(
    content: Seq<char>,
    maps: Seq<(Range, Span)>,
    q: Range,
    big: Range,
)
    requires
        big.start <= q.start,
        q.end <= big.end,
    ensures
        entries_dominated(
            find_spans_spec(content, maps, q),
            find_spans_spec(content, maps, big),
        ),
    decreases maps.len(),
{
    if maps.len() > 0 {
        let rest = maps.drop_first();
        lemma_find_spans_monotone(content, rest, q, big);
        let xs = find_spans_spec(content, maps, q);
        let ys = find_spans_spec(content, maps, big);
        let xr = find_spans_spec(content, rest, q);
        let yr = find_spans_spec(content, rest, big);
        if fragment_contributes(maps[0].0, q) {
            assert(fragment_contributes(maps[0].0, big));
            let ex = entry_for(content, maps[0].0, maps[0].1, q);
            let ey = entry_for(content, maps[0].0, maps[0].1, big);
            assert(range_within(ex.0, ey.0));
            assert(xs.drop_first() =~= xr);
            assert(ys.drop_first() =~= yr);
        } else if fragment_contributes(maps[0].0, big) {
            assert(ys.drop_first() =~= yr);
            if xs.len() > 0 {
                assert(entries_dominated(xs, ys.drop_first()));
            }
        }
    }
}

/// LAW — the single-line guard.  Every pair whose resolved span stays on
/// one line has a span length equal to its range length: the debug check of
/// the resolution algorithm holds for every well-formed chunk.
pub proof fn lemma_find_spans_single_line_len(
    content: Seq<char>,
    maps: Seq<(Range, Span)>,
    q: Range,
)
    requires
        wf_mapping(content.len() as int, maps),
    ensures
        forall|i: int|
            0 <= i < find_spans_spec(content, maps, q).len() ==> {
                let (r, sp) = #[trigger] find_spans_spec(content, maps, q)[i];
                sp.start.line == sp.end.line ==> sp.spec_one_line_len() == Some(r.spec_len())
            },
    decreases maps.len(),
{
    if maps.len() > 0 {
        let rest = maps.drop_first();
        assert(forall|i: int| 0 <= i < rest.len() ==> (#[trigger] rest[i]) == maps[i + 1]);
        assert(wf_mapping(content.len() as int, rest));
        lemma_find_spans_single_line_len(content, rest, q);
        if fragment_contributes(maps[0].0, q) {
            let fr = maps[0].0;
            let fs = maps[0].1;
            let text = content.subrange(fr.start as int, fr.end as int);
            let lo = inter_lo(fr, q);
            let hi = inter_hi(fr, q);
            let (r, sp) = entry_for(content, fr, fs, q);
            if sp.start.line == sp.end.line {
                crate::span::lemma_walk_same_line(
                    text,
                    fs.start,
                    lo - fr.start,
                    hi - fr.start - 1,
                );
            }
        }
    }
}

/// LAW — round trip on a single line.  For a fragment whose text holds no
/// newline and whose span starts at `(L, C)`, the sub-range `[a, b)` of the
/// fragment resolves to the span from `(L, C + a)` to `(L, C + b - 1)`
/// inclusive — column arithmetic is exact.
pub proof fn lemma_round_trip_single_line(
    content: Seq<char>,
    maps: Seq<(Range, Span)>,
    k: int,
    a: int,
    b: int,
)
    requires
        wf_mapping(content.len() as int, maps),
        0 <= k < maps.len(),
        0 <= a < b <= maps[k].0.spec_len(),
        ({
            let text = content.subrange(maps[k].0.start as int, maps[k].0.end as int);
            forall|j: int| 0 <= j < text.len() ==> text[j] != '\n'
        }),
    ensures
        ({
            let fr = maps[k].0;
            let fs = maps[k].1;
            let q = Range { start: (fr.start + a) as usize, end: (fr.start + b) as usize };
            let r = find_spans_spec(content, maps, q);
            &&& r.len() == 1
            &&& r[0].0 == q
            &&& r[0].1 == (Span {
                start: LineColumn {
                    line: fs.start.line,
                    column: (fs.start.column + a) as usize,
                },
                end: LineColumn {
                    line: fs.start.line,
                    column: (fs.start.column + b - 1) as usize,
                },
            })
        }),
{
    let fr = maps[k].0;
    let fs = maps[k].1;
    let text = content.subrange(fr.start as int, fr.end as int);
    let q = Range { start: (fr.start + a) as usize, end: (fr.start + b) as usize };
    assert(fragment_contributes(fr, q));
    assert(forall|j: int|
        0 <= j < maps.len() && j != k ==> !fragment_contributes((#[trigger] maps[j]).0, q)) by {
        assert forall|j: int|
            0 <= j < maps.len() && j != k implies !fragment_contributes(
            (#[trigger] maps[j]).0,
            q,
        ) by {
            if j < k {
                assert(maps[j].0.end <= maps[k].0.start);
            } else {
                assert(maps[k].0.end <= maps[j].0.start);
            }
        }
    }
    lemma_single_contributor(content, maps, q, k);
    lemma_walk_single_line(text, fs.start, a);
    lemma_walk_single_line(text, fs.start, b - 1);
}

} // verus!
