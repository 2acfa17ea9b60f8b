//! Suggestions — one reported mistake with its resolved source location and
//! candidate replacements — and the collections around them: the read-only
//! `Documentation` handed to checkers and the `SuggestionSet` they return.

use vstd::prelude::*;

use crate::chunk::CheckableChunk;
use crate::chunk::ContentOrigin;
use crate::chunk::origin_eq;
use crate::chunk::wf_mapping;
use crate::span::Range;
use crate::span::Span;

verus! {

/// Attribution tag: which checker produced a suggestion.
#[derive(Debug, Clone, Copy, PartialEq, Eq, Structural)]
pub enum Detector {
    Hunspell,
}

/// Mathematical shape of a [`ContentOrigin`]: the path characters, plus the
/// disambiguating span for embedded examples.
pub ghost enum OriginView {
    CommonMark(Seq<char>),
    DocTest(Seq<char>, Span),
    Source(Seq<char>),
}

impl View for ContentOrigin {
    type V = OriginView;

    open spec fn view(&self) -> OriginView {
        match self {
            ContentOrigin::CommonMarkFile(p) => OriginView::CommonMark(p@),
            ContentOrigin::RustDocTest(p, sp) => OriginView::DocTest(p@, *sp),
            ContentOrigin::RustSourceFile(p) => OriginView::Source(p@),
        }
    }
}

impl DeepView for ContentOrigin {
    type V = OriginView;

    open spec fn deep_view(&self) -> OriginView {
        self.view()
    }
}

/// Origin equality is exactly equality of the mathematical shapes.
pub proof fn lemma_origin_eq_is_view_eq(a: ContentOrigin, b: ContentOrigin)
    ensures
        origin_eq(a, b) <==> a@ == b@,
{
}

/// Mathematical shape of a [`CheckableChunk`].
pub ghost struct ChunkView {
    pub content: Seq<char>,
    pub mapping: Seq<(Range, Span)>,
}

impl View for CheckableChunk {
    type V = ChunkView;

    open spec fn view(&self) -> ChunkView {
        ChunkView { content: self.text(), mapping: self.mapping() }
    }
}

impl DeepView for CheckableChunk {
    type V = ChunkView;

    open spec fn deep_view(&self) -> ChunkView {
        self.view()
    }
}

/// One reported mistake: where it was found in the detecting chunk, the
/// resolved source span, the candidate replacements in preference order,
/// and which checker found it.
#[derive(Debug, Clone)]
pub struct Suggestion {
    pub detector: Detector,
    pub origin: ContentOrigin,
    pub range: Range,
    pub span: Span,
    pub replacements: Vec<String>,
    pub description: Option<String>,
}

/// Mathematical shape of a [`Suggestion`].
pub ghost struct SuggestionView {
    pub detector: Detector,
    pub origin: OriginView,
    pub range: Range,
    pub span: Span,
    pub replacements: Seq<Seq<char>>,
    pub description: Option<Seq<char>>,
}

impl View for Suggestion {
    type V = SuggestionView;

    open spec fn view(&self) -> SuggestionView {
        SuggestionView {
            detector: self.detector,
            origin: self.origin@,
            range: self.range,
            span: self.span,
            replacements: self.replacements.deep_view(),
            description: match self.description {
                Some(d) => Some(d@),
                None => None,
            },
        }
    }
}

impl DeepView for Suggestion {
    type V = SuggestionView;

    open spec fn deep_view(&self) -> SuggestionView {
        self.view()
    }
}

/// The read-only collection checkers consume: for each origin, in delivery
/// order, the checkable chunks extracted from it.
pub struct Documentation {
    entries: Vec<(ContentOrigin, Vec<CheckableChunk>)>,
}

/// View of one documentation entry.
pub open spec fn doc_entry_view(e: (ContentOrigin, Vec<CheckableChunk>)) -> (
    OriginView,
    Seq<ChunkView>,
) {
    (e.0@, e.1.deep_view())
}

/// View of a documentation entry sequence.
pub open spec fn doc_view(entries: Seq<(ContentOrigin, Vec<CheckableChunk>)>) -> Seq<
    (OriginView, Seq<ChunkView>),
>
    decreases entries.len(),
{
    if entries.len() == 0 {
        Seq::empty()
    } else {
        seq![doc_entry_view(entries[0])] + doc_view(entries.drop_first())
    }
}

impl View for Documentation {
    type V = Seq<(OriginView, Seq<ChunkView>)>;

    closed spec fn view(&self) -> Seq<(OriginView, Seq<ChunkView>)> {
        doc_view(self.entries@)
    }
}

impl Documentation {
    /// Every chunk in the collection satisfies the chunk invariants.
    pub open spec fn wf(&self) -> bool {
        forall|i: int, j: int|
            0 <= i < self@.len() && 0 <= j < (#[trigger] self@[i]).1.len() ==> wf_mapping(
                (#[trigger] self@[i].1[j]).content.len() as int,
                self@[i].1[j].mapping,
            )
    }

    pub fn new() -> (r: Self)
        ensures
            r@ == Seq::<(OriginView, Seq<ChunkView>)>::empty(),
            r.wf(),
    {
        let r = Documentation { entries: Vec::new() };
        proof {
            assert(r@ =~= Seq::<(OriginView, Seq<ChunkView>)>::empty());
        }
        r
    }

    pub fn entry_count(&self) -> (n: usize)
        ensures
            n == self@.len(),
    {
        proof {
            lemma_doc_view_len(self.entries@);
        }
        self.entries.len()
    }

    /// The entries in delivery order, for walking the collection.
    pub fn entries(&self) -> (r: &Vec<(ContentOrigin, Vec<CheckableChunk>)>)
        ensures
            r@.len() == self@.len(),
            forall|i: int|
                0 <= i < r@.len() ==> #[trigger] self@[i] == doc_entry_view(r@[i]),
    {
        proof {
            lemma_doc_view_len(self.entries@);
        }
        &self.entries
    }

    /// Append a chunk: folded into the trailing entry when it belongs to
    /// the same origin, otherwise opening a new entry for its origin.
    pub fn add(&mut self, origin: ContentOrigin, chunk: CheckableChunk)
        ensures
            final(self)@ == ({
                let n = old(self)@.len() as int;
                if n > 0 && old(self)@[n - 1].0 == origin@ {
                    old(self)@.update(
                        n - 1,
                        (origin@, old(self)@[n - 1].1.push(chunk@)),
                    )
                } else {
                    old(self)@.push((origin@, seq![chunk@]))
                }
            }),
    {
        proof {
            lemma_doc_view_len(self.entries@);
        }
        let n = self.entries.len();
        if n > 0 && self.entries[n - 1].0 == origin {
            let (o, mut chunks) = self.entries.remove(n - 1);
            chunks.push(chunk);
            self.entries.push((o, chunks));
            proof {
                let oldv = old(self).entries@;
                assert(self.entries@ =~= oldv.update(
                    oldv.len() - 1,
                    (oldv[oldv.len() - 1].0, self.entries@[oldv.len() - 1].1),
                ));
                lemma_doc_view_len(self.entries@);
                lemma_origin_eq_is_view_eq(oldv[oldv.len() - 1].0, origin);
                assert(self.entries@[oldv.len() - 1].1.deep_view() =~= oldv[oldv.len()
                    - 1].1.deep_view().push(chunk@));
                assert(self@ =~~= old(self)@.update(
                    old(self)@.len() - 1,
                    (origin@, old(self)@[old(self)@.len() - 1].1.push(chunk@)),
                ));
            }
        } else {
            let mut chunks: Vec<CheckableChunk> = Vec::new();
            chunks.push(chunk);
            self.entries.push((origin, chunks));
            proof {
                lemma_doc_view_len(self.entries@);
                assert(self.entries@[old(self).entries@.len() as int].1.deep_view() =~= seq![
                    chunk@,
                ]);
                assert(self@ =~~= old(self)@.push((origin@, seq![chunk@])));
            }
        }
    }
}

/// The result of one checker run: per origin, in insertion order, the
/// suggestions reported for it.
pub struct SuggestionSet {
    entries: Vec<(ContentOrigin, Vec<Suggestion>)>,
}

/// View of one suggestion-set entry.
pub open spec fn set_entry_view(e: (ContentOrigin, Vec<Suggestion>)) -> (
    OriginView,
    Seq<SuggestionView>,
) {
    (e.0@, e.1.deep_view())
}

/// View of a suggestion-set entry sequence.
pub open spec fn set_view(entries: Seq<(ContentOrigin, Vec<Suggestion>)>) -> Seq<
    (OriginView, Seq<SuggestionView>),
>
    decreases entries.len(),
{
    if entries.len() == 0 {
        Seq::empty()
    } else {
        seq![set_entry_view(entries[0])] + set_view(entries.drop_first())
    }
}

impl View for SuggestionSet {
    type V = Seq<(OriginView, Seq<SuggestionView>)>;

    closed spec fn view(&self) -> Seq<(OriginView, Seq<SuggestionView>)> {
        set_view(self.entries@)
    }
}

/// What adding one suggestion does: append it to the first entry of the
/// same origin, or open a new entry at the end.
pub open spec fn add_spec(
    entries: Seq<(OriginView, Seq<SuggestionView>)>,
    o: OriginView,
    s: SuggestionView,
) -> Seq<(OriginView, Seq<SuggestionView>)>
    decreases entries.len(),
{
    if entries.len() == 0 {
        seq![(o, seq![s])]
    } else if entries[0].0 == o {
        seq![(entries[0].0, entries[0].1.push(s))] + entries.drop_first()
    } else {
        seq![entries[0]] + add_spec(entries.drop_first(), o, s)
    }
}

proof fn lemma_add_spec_found(
    entries: Seq<(OriginView, Seq<SuggestionView>)>,
    o: OriginView,
    s: SuggestionView,
    i: int,
)
    requires
        0 <= i < entries.len(),
        entries[i].0 == o,
        forall|j: int| 0 <= j < i ==> (#[trigger] entries[j]).0 != o,
    ensures
        add_spec(entries, o, s) == entries.update(i, (entries[i].0, entries[i].1.push(s))),
    decreases i,
{
    if i == 0 {
        assert(add_spec(entries, o, s) =~= entries.update(0, (entries[0].0, entries[0].1.push(s))));
    } else {
        let rest = entries.drop_first();
        assert(forall|j: int| 0 <= j < rest.len() ==> (#[trigger] rest[j]) == entries[j + 1]);
        lemma_add_spec_found(rest, o, s, i - 1);
        assert(add_spec(entries, o, s) =~= entries.update(i, (entries[i].0, entries[i].1.push(s))));
    }
}

proof fn lemma_add_spec_missing(
    entries: Seq<(OriginView, Seq<SuggestionView>)>,
    o: OriginView,
    s: SuggestionView,
)
    requires
        forall|j: int| 0 <= j < entries.len() ==> (#[trigger] entries[j]).0 != o,
    ensures
        add_spec(entries, o, s) == entries.push((o, seq![s])),
    decreases entries.len(),
{
    if entries.len() == 0 {
        assert(add_spec(entries, o, s) =~= entries.push((o, seq![s])));
    } else {
        let rest = entries.drop_first();
        assert(forall|j: int| 0 <= j < rest.len() ==> (#[trigger] rest[j]) == entries[j + 1]);
        lemma_add_spec_missing(rest, o, s);
        assert(add_spec(entries, o, s) =~= entries.push((o, seq![s])));
    }
}

impl SuggestionSet {
    pub fn new() -> (r: Self)
        ensures
            r@ == Seq::<(OriginView, Seq<SuggestionView>)>::empty(),
    {
        let r = SuggestionSet { entries: Vec::new() };
        proof {
            assert(r@ =~= Seq::<(OriginView, Seq<SuggestionView>)>::empty());
        }
        r
    }

    pub fn entry_count(&self) -> (n: usize)
        ensures
            n == self@.len(),
    {
        proof {
            lemma_set_view_len(self.entries@);
        }
        self.entries.len()
    }

    /// The entries in insertion order, for reading the result out.
    pub fn entries(&self) -> (r: &Vec<(ContentOrigin, Vec<Suggestion>)>)
        ensures
            r@.len() == self@.len(),
            forall|i: int|
                0 <= i < r@.len() ==> #[trigger] self@[i] == set_entry_view(r@[i]),
    {
        proof {
            lemma_set_view_len(self.entries@);
        }
        &self.entries
    }

    /// Record one suggestion under `origin`: appended to the first entry of
    /// that origin, or opening a new entry at the end.
    pub fn add(&mut self, origin: ContentOrigin, sugg: Suggestion)
        ensures
            final(self)@ == add_spec(old(self)@, origin@, sugg@),
    {
        proof {
            lemma_set_view_len(self.entries@);
        }
        let n = self.entries.len();
        let mut i: usize = 0;
        let mut found: Option<usize> = None;
        while i < n && found.is_none()
            invariant
                i <= n,
                n == self.entries@.len(),
                match found {
                    Some(f) => f < n && origin_eq(self.entries@[f as int].0, origin)
                        && forall|j: int|
                        0 <= j < f ==> !origin_eq((#[trigger] self.entries@[j]).0, origin),
                    None => forall|j: int|
                        0 <= j < i ==> !origin_eq((#[trigger] self.entries@[j]).0, origin),
                },
            decreases (if found is None {
                1int
            } else {
                0int
            }), n - i,
        {
            if &self.entries[i].0 == &origin {
                found = Some(i);
            } else {
                i += 1;
            }
        }
        let ghost oldv = self.entries@;
        match found {
            Some(f) => {
                let (o, mut v) = self.entries.remove(f);
                v.push(sugg);
                self.entries.insert(f, (o, v));
                proof {
                    assert(self.entries@ =~= oldv.update(f as int, self.entries@[f as int]));
                    lemma_set_view_len(self.entries@);
                    assert forall|j: int| 0 <= j < f implies (#[trigger] old(self)@[j]).0
                        != origin@ by {
                        lemma_origin_eq_is_view_eq(oldv[j].0, origin);
                    }
                    lemma_origin_eq_is_view_eq(oldv[f as int].0, origin);
                    lemma_add_spec_found(old(self)@, origin@, sugg@, f as int);
                    assert(self.entries@[f as int].1.deep_view() =~= oldv[f as int].1.deep_view().push(
                        sugg@,
                    ));
                    assert(self@ =~~= add_spec(old(self)@, origin@, sugg@));
                }
            },
            None => {
                let mut v: Vec<Suggestion> = Vec::new();
                v.push(sugg);
                self.entries.push((origin, v));
                proof {
                    lemma_set_view_len(self.entries@);
                    assert forall|j: int| 0 <= j < old(self)@.len() implies (#[trigger] old(
                        self,
                    )@[j]).0 != origin@ by {
                        lemma_origin_eq_is_view_eq(oldv[j].0, origin);
                    }
                    lemma_add_spec_missing(old(self)@, origin@, sugg@);
                    assert(self.entries@[oldv.len() as int].1.deep_view() =~= seq![sugg@]);
                    assert(self@ =~~= add_spec(old(self)@, origin@, sugg@));
                }
            },
        }
    }

    /// Append a whole entry; the caller keeps origins unique.
    pub(crate) fn push_entry(&mut self, origin: ContentOrigin, suggs: Vec<Suggestion>)
        ensures
            final(self)@ == old(self)@.push((origin@, suggs.deep_view())),
    {
        proof {
            lemma_set_view_len(self.entries@);
        }
        self.entries.push((origin, suggs));
        proof {
            lemma_set_view_len(self.entries@);
            assert(self@ =~~= old(self)@.push((origin@, suggs.deep_view())));
        }
    }
}

proof fn lemma_set_view_len(entries: Seq<(ContentOrigin, Vec<Suggestion>)>)
    ensures
        set_view(entries).len() == entries.len(),
        forall|i: int|
            0 <= i < entries.len() ==> #[trigger] set_view(entries)[i] == set_entry_view(
                entries[i],
            ),
    decreases entries.len(),
{
    if entries.len() > 0 {
        lemma_set_view_len(entries.drop_first());
        assert forall|i: int| 0 <= i < entries.len() implies #[trigger] set_view(entries)[i]
            == set_entry_view(entries[i]) by {
            if i > 0 {
                assert(entries.drop_first()[i - 1] == entries[i]);
                assert(set_view(entries)[i] == set_view(entries.drop_first())[i - 1]);
            }
        }
    }
}

proof fn lemma_doc_view_len(entries: Seq<(ContentOrigin, Vec<CheckableChunk>)>)
    ensures
        doc_view(entries).len() == entries.len(),
        forall|i: int|
            0 <= i < entries.len() ==> #[trigger] doc_view(entries)[i] == doc_entry_view(
                entries[i],
            ),
    decreases entries.len(),
{
    if entries.len() > 0 {
        lemma_doc_view_len(entries.drop_first());
        assert forall|i: int| 0 <= i < entries.len() implies #[trigger] doc_view(entries)[i]
            == doc_entry_view(entries[i]) by {
            if i > 0 {
                assert(entries.drop_first()[i - 1] == entries[i]);
                assert(doc_view(entries)[i] == doc_view(entries.drop_first())[i - 1]);
            }
        }
    }
}

} // verus!
