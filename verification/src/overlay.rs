//! The overlay layer: a derived, read-only secondary text (markup erased by
//! an outside pass) with a translation table of range pairs back into the
//! owning chunk's coordinate space.  Any range found in the overlay text can
//! be re-expressed as chunk ranges — possibly split across several mapping
//! entries — and resolved on to source spans from there.

use vstd::prelude::*;
use vstd::string::*;

use crate::chunk::CheckableChunk;
use crate::chunk::find_spans_spec;
use crate::span::Range;
use crate::span::Span;

verus! {

/// A markup-erased view of a chunk: the secondary text, and for each range
/// of it the equally long range of the owning chunk's content it came from.
pub struct Overlay {
    content: String,
    mapping: Vec<(Range, Range)>,
}

/// Construction invariants of an overlay translation table over an overlay
/// text of `len` characters and a parent text of `parent_len` characters:
/// entries lie inside both texts, overlay ranges are disjoint with strictly
/// increasing starts, and each pair covers equally many characters.
pub open spec fn wf_overlay(len: int, parent_len: int, maps: Seq<(Range, Range)>) -> bool {
    &&& forall|i: int|
        0 <= i < maps.len() ==> {
            &&& (#[trigger] maps[i]).0.start <= maps[i].0.end <= len
            &&& maps[i].1.start <= maps[i].1.end <= parent_len
            &&& maps[i].0.spec_len() == maps[i].1.spec_len()
        }
    &&& forall|i: int, j: int|
        0 <= i < j < maps.len() ==> (#[trigger] maps[i]).0.end <= (#[trigger] maps[j]).0.start
            && maps[i].0.start < maps[j].0.start
}

/// The per-entry facts [`Overlay::translate`] needs: ordered endpoints and
/// equal lengths on both sides of every pair.
pub open spec fn wf_table(maps: Seq<(Range, Range)>) -> bool {
    forall|i: int|
        0 <= i < maps.len() ==> {
            &&& (#[trigger] maps[i]).0.start <= maps[i].0.end
            &&& maps[i].1.start <= maps[i].1.end
            &&& maps[i].0.spec_len() == maps[i].1.spec_len()
        }
}

/// The chunk ranges that answer an overlay query: the non-empty
/// intersection with each mapping entry, shifted into the parent's
/// coordinates.
pub open spec fn translate_spec(maps: Seq<(Range, Range)>, q: Range) -> Seq<Range>
    decreases maps.len(),
{
    if maps.len() == 0 {
        Seq::empty()
    } else {
        let rest = translate_spec(maps.drop_first(), q);
        if crate::chunk::fragment_contributes(maps[0].0, q) {
            seq![translated_entry(maps[0], q)] + rest
        } else {
            rest
        }
    }
}

/// One translated intersection, shifted by the entry's parent offset.
pub open spec fn translated_entry(e: (Range, Range), q: Range) -> Range {
    let lo = crate::chunk::inter_lo(e.0, q);
    let hi = crate::chunk::inter_hi(e.0, q);
    Range {
        start: (e.1.start + (lo - e.0.start)) as usize,
        end: (e.1.start + (hi - e.0.start)) as usize,
    }
}

/// The resolved pairs of an overlay query: every translated chunk range
/// resolved through the chunk's fragment map, concatenated in order.
pub open spec fn overlay_find_spans_spec(
    maps: Seq<(Range, Range)>,
    content: Seq<char>,
    chunk_maps: Seq<(Range, Span)>,
    q: Range,
) -> Seq<(Range, Span)> {
    flatten_results(translate_spec(maps, q), content, chunk_maps)
}

/// Resolve each range in turn and concatenate the answers.
pub open spec fn flatten_results(
    prs: Seq<Range>,
    content: Seq<char>,
    chunk_maps: Seq<(Range, Span)>,
) -> Seq<(Range, Span)>
    decreases prs.len(),
{
    if prs.len() == 0 {
        Seq::empty()
    } else {
        find_spans_spec(content, chunk_maps, prs[0]) + flatten_results(
            prs.drop_first(),
            content,
            chunk_maps,
        )
    }
}

impl Overlay {
    /// The overlay's text.
    pub closed spec fn text(&self) -> Seq<char> {
        self.content@
    }

    /// The translation table.
    pub closed spec fn table(&self) -> Seq<(Range, Range)> {
        self.mapping@
    }

    /// Whether the table is well formed for this overlay over a parent text
    /// of `parent_len` characters.
    pub open spec fn wf_for(&self, parent_len: int) -> bool {
        wf_overlay(self.text().len() as int, parent_len, self.table())
    }

    /// Build an overlay from the erased text and its translation table, as
    /// delivered by the markup-erasure pass.
    pub fn new(content: String, mapping: Vec<(Range, Range)>, parent_len: usize) -> (r: Self)
        requires
            wf_overlay(content@.len() as int, parent_len as int, mapping@),
        ensures
            r.text() == content@,
            r.table() == mapping@,
            r.wf_for(parent_len as int),
    {
        Overlay { content, mapping }
    }

    /// The trivial overlay of a chunk: its own text, translated by the
    /// identity table.  It stands in wherever no markup has to be erased.
    pub fn identity(chunk: &CheckableChunk) -> (r: Self)
        ensures
            r.text() == chunk.text(),
            r.table() == seq![
                (
                    Range { start: 0, end: chunk.text().len() as usize },
                    Range { start: 0, end: chunk.text().len() as usize },
                ),
            ],
            r.wf_for(chunk.text().len() as int),
    {
        let len = chunk.len_in_chars();
        let full = Range { start: 0, end: len };
        let mut mapping: Vec<(Range, Range)> = Vec::new();
        mapping.push((full, full));
        let r = Overlay { content: chunk.as_str().to_owned(), mapping };
        proof {
            assert(r.table() =~= seq![(full, full)]);
        }
        r
    }

    pub fn as_str(&self) -> (s: &str)
        ensures
            s@ == self.text(),
    {
        self.content.as_str()
    }

    /// Re-express an overlay range in the owning chunk's coordinates,
    /// splitting it at the translation table's entry boundaries.
    pub fn translate(&self, q: Range) -> (r: Vec<Range>)
        requires
            wf_table(self.table()),
        ensures
            r@ == translate_spec(self.table(), q),
    {
        let mut out: Vec<Range> = Vec::new();
        let n = self.mapping.len();
        let mut k: usize = 0;
        proof {
            assert(self.table().skip(0) =~= self.table());
            assert(out@ + translate_spec(self.table(), q) =~= translate_spec(self.table(), q));
        }
        while k < n
            invariant
                k <= n,
                n == self.table().len(),
                wf_table(self.table()),
                out@ + translate_spec(self.table().skip(k as int), q) == translate_spec(
                    self.table(),
                    q,
                ),
            decreases n - k,
        {
            proof {
                assert(self.table().skip(k as int).drop_first() =~= self.table().skip(
                    k as int + 1,
                ));
                assert(self.table().skip(k as int)[0] == self.table()[k as int]);
            }
            let (or, pr) = self.mapping[k];
            let lo = if q.start >= or.start {
                q.start
            } else {
                or.start
            };
            let hi = if q.end <= or.end {
                q.end
            } else {
                or.end
            };
            let ghost before = out@;
            if or.len() > 0 && lo < hi {
                let e = Range { start: pr.start + (lo - or.start), end: pr.start + (hi - or.start) };
                out.push(e);
                proof {
                    assert(out@ =~= before + seq![translated_entry(self.table()[k as int], q)]);
                    assert(before + seq![translated_entry(self.table()[k as int], q)]
                        + translate_spec(self.table().skip(k as int + 1), q) =~= before + (seq![
                        translated_entry(self.table()[k as int], q),
                    ] + translate_spec(self.table().skip(k as int + 1), q)));
                }
            }
            k += 1;
        }
        proof {
            assert(self.table().skip(n as int) =~= Seq::<(Range, Range)>::empty());
            assert(out@ =~= out@ + translate_spec(self.table().skip(n as int), q));
        }
        out
    }

    /// Resolve an overlay range all the way to source spans: translate it
    /// into chunk ranges, then resolve each through the chunk's fragment
    /// map.  The overlay must have been built for this chunk.
    pub fn find_spans(&self, chunk: &CheckableChunk, q: Range) -> (r: Vec<(Range, Span)>)
        requires
            chunk.wf(),
            self.wf_for(chunk.text().len() as int),
        ensures
            r@ == overlay_find_spans_spec(self.table(), chunk.text(), chunk.mapping(), q),
    {
        let prs = self.translate(q);
        let ghost pv = prs@;
        let mut out: Vec<(Range, Span)> = Vec::new();
        let n = prs.len();
        let mut k: usize = 0;
        proof {
            assert(pv.skip(0) =~= pv);
            assert(out@ + flatten_results(pv, chunk.text(), chunk.mapping()) =~= flatten_results(
                pv,
                chunk.text(),
                chunk.mapping(),
            ));
        }
        while k < n
            invariant
                k <= n,
                n == pv.len(),
                pv == prs@,
                chunk.wf(),
                out@ + flatten_results(pv.skip(k as int), chunk.text(), chunk.mapping())
                    == flatten_results(pv, chunk.text(), chunk.mapping()),
            decreases n - k,
        {
            proof {
                assert(pv.skip(k as int).drop_first() =~= pv.skip(k as int + 1));
                assert(pv.skip(k as int)[0] == pv[k as int]);
            }
            let ghost before = out@;
            let mut piece = chunk.find_spans(prs[k]);
            let m = piece.len();
            let mut j: usize = 0;
            while j < m
                invariant
                    j <= m,
                    m == piece@.len(),
                    piece@ == find_spans_spec(chunk.text(), chunk.mapping(), pv[k as int]),
                    out@ == before + piece@.take(j as int),
                decreases m - j,
            {
                let ghost ob = out@;
                out.push(piece[j]);
                proof {
                    assert(out@ =~= before + piece@.take(j as int + 1));
                }
                j += 1;
            }
            proof {
                assert(piece@.take(m as int) =~= piece@);
                assert(before + piece@ + flatten_results(
                    pv.skip(k as int + 1),
                    chunk.text(),
                    chunk.mapping(),
                ) =~= before + (piece@ + flatten_results(
                    pv.skip(k as int + 1),
                    chunk.text(),
                    chunk.mapping(),
                )));
            }
            k += 1;
        }
        proof {
            assert(pv.skip(n as int) =~= Seq::<Range>::empty());
            assert(out@ =~= out@ + flatten_results(pv.skip(n as int), chunk.text(), chunk.mapping()));
        }
        out
    }
}

} // verus!
