//! The dictionary checker: walk every chunk of the documentation, tokenize
//! it, normalize each token through the quirk chain, look the result up,
//! and turn every miss into suggestions whose ranges are resolved back to
//! exact source spans.

use vstd::prelude::*;
use vstd::string::*;

use crate::chunk::find_spans_spec;
use crate::quirks::Quirk;
use crate::quirks::Quirks;
use crate::quirks::reduce;
use crate::span::Range;
use crate::span::Span;
use crate::suggestion::ChunkView;
use crate::suggestion::Detector;
use crate::suggestion::Documentation;
use crate::suggestion::OriginView;
use crate::suggestion::Suggestion;
use crate::suggestion::SuggestionSet;
use crate::suggestion::SuggestionView;
use crate::suggestion::lemma_origin_eq_is_view_eq;
use crate::tokenize::tokenize;
use crate::util::str_eq;
use crate::util::sub_chars;
use crate::util::sub_chars_spec;

verus! {

/// Why a checker invocation is aborted: its backend resource could not be
/// used.  Fatal for the invocation only; other checkers are unaffected.
#[derive(Debug, Clone, Copy, PartialEq, Eq, Structural)]
pub enum CheckerError {
    DictionaryUnavailable,
}

/// The dictionary a checker run consults, as plain data: the known words,
/// and for each misspelled word the backend's replacement candidates.  The
/// embedding program fills both from its backend and owns that backend
/// exclusively for the duration of one run.
pub struct Dictionary {
    words: Vec<String>,
    replacements: Vec<(String, Vec<String>)>,
}

/// View of the replacement table.
pub open spec fn repl_view(entries: Seq<(String, Vec<String>)>) -> Seq<(Seq<char>, Seq<Seq<char>>)>
    decreases entries.len(),
{
    if entries.len() == 0 {
        Seq::empty()
    } else {
        seq![(entries[0].0@, entries[0].1.deep_view())] + repl_view(entries.drop_first())
    }
}

/// The replacement candidates recorded for `w`: those of its first entry,
/// empty when none.
pub open spec fn repl_lookup(m: Seq<(Seq<char>, Seq<Seq<char>>)>, w: Seq<char>) -> Seq<Seq<char>>
    decreases m.len(),
{
    if m.len() == 0 {
        Seq::empty()
    } else if m[0].0 == w {
        m[0].1
    } else {
        repl_lookup(m.drop_first(), w)
    }
}

/// The candidates of more than one character; single-character suggestions
/// are noise and are filtered out.
pub open spec fn filter_short(rs: Seq<Seq<char>>) -> Seq<Seq<char>>
    decreases rs.len(),
{
    if rs.len() == 0 {
        Seq::empty()
    } else if rs[0].len() > 1 {
        seq![rs[0]] + filter_short(rs.drop_first())
    } else {
        filter_short(rs.drop_first())
    }
}

impl Dictionary {
    /// The words the dictionary accepts.
    pub closed spec fn word_list(&self) -> Seq<Seq<char>> {
        self.words.deep_view()
    }

    /// The replacement table, in stored order.
    pub closed spec fn replacement_map(&self) -> Seq<(Seq<char>, Seq<Seq<char>>)> {
        repl_view(self.replacements@)
    }

    pub fn new(words: Vec<String>, replacements: Vec<(String, Vec<String>)>) -> (r: Self)
        ensures
            r.word_list() == words.deep_view(),
            r.replacement_map() == repl_view(replacements@),
    {
        Dictionary { words, replacements }
    }

    /// Whether `w` is in the dictionary.
    pub fn is_known(&self, w: &str) -> (r: bool)
        ensures
            r == self.word_list().contains(w@),
    {
        let n = self.words.len();
        let mut i: usize = 0;
        while i < n
            invariant
                i <= n,
                n == self.words@.len(),
                forall|j: int| 0 <= j < i ==> self.word_list()[j] != w@,
            decreases n - i,
        {
            if str_eq(self.words[i].as_str(), w) {
                proof {
                    assert(self.word_list()[i as int] == w@);
                }
                return true;
            }
            i += 1;
        }
        proof {
            assert(!self.word_list().contains(w@));
        }
        false
    }

    /// The replacement candidates recorded for `w`, unfiltered.
    pub fn replacements_for(&self, w: &str) -> (r: Vec<String>)
        ensures
            r.deep_view() == repl_lookup(self.replacement_map(), w@),
    {
        let n = self.replacements.len();
        let mut i: usize = 0;
        proof {
            assert(self.replacements@.skip(0) =~= self.replacements@);
            lemma_repl_view_skip(self.replacements@, 0);
        }
        while i < n
            invariant
                i <= n,
                n == self.replacements@.len(),
                repl_lookup(self.replacement_map(), w@) == repl_lookup(
                    repl_view(self.replacements@.skip(i as int)),
                    w@,
                ),
            decreases n - i,
        {
            proof {
                assert(self.replacements@.skip(i as int).drop_first() =~= self.replacements@.skip(
                    i as int + 1,
                ));
                assert(self.replacements@.skip(i as int)[0] == self.replacements@[i as int]);
                let hd = (self.replacements@[i as int].0@, self.replacements@[i as int].1.deep_view());
                assert(repl_view(self.replacements@.skip(i as int)) == seq![hd] + repl_view(
                    self.replacements@.skip(i as int + 1),
                ));
                assert((seq![hd] + repl_view(self.replacements@.skip(i as int + 1)))[0] == hd);
                assert((seq![hd] + repl_view(self.replacements@.skip(i as int + 1))).drop_first()
                    =~= repl_view(self.replacements@.skip(i as int + 1)));
            }
            if str_eq(self.replacements[i].0.as_str(), w) {
                return clone_strings(&self.replacements[i].1);
            }
            i += 1;
        }
        proof {
            assert(self.replacements@.skip(n as int) =~= Seq::<(String, Vec<String>)>::empty());
        }
        let r: Vec<String> = Vec::new();
        proof {
            assert(r.deep_view() =~= Seq::<Seq<char>>::empty());
        }
        r
    }
}

proof fn lemma_repl_view_skip(entries: Seq<(String, Vec<String>)>, i: int)
    requires
        0 <= i <= entries.len(),
    ensures
        repl_view(entries.skip(i)).len() == entries.len() - i,
    decreases entries.len() - i,
{
    if i < entries.len() {
        assert(repl_view(entries.skip(i)).len() == 1 + repl_view(
            entries.skip(i).drop_first(),
        ).len()) by {
            assert(entries.skip(i).len() > 0);
        }
        assert(entries.skip(i).drop_first() =~= entries.skip(i + 1));
        lemma_repl_view_skip(entries, i + 1);
    }
}

/// Element-wise copy of a string vector.
fn clone_strings(v: &Vec<String>) -> (r: Vec<String>)
    ensures
        r.deep_view() == v.deep_view(),
{
    let n = v.len();
    let mut out: Vec<String> = Vec::new();
    let mut i: usize = 0;
    proof {
        assert(out.deep_view() =~= v.deep_view().take(0));
    }
    while i < n
        invariant
            i <= n,
            n == v@.len(),
            out.deep_view() == v.deep_view().take(i as int),
        decreases n - i,
    {
        let ghost before = out.deep_view();
        out.push(v[i].clone());
        proof {
            assert(out.deep_view() =~= before.push(v.deep_view()[i as int]));
            assert(v.deep_view().take(i as int + 1) =~= before.push(v.deep_view()[i as int]));
        }
        i += 1;
    }
    proof {
        assert(v.deep_view().take(n as int) =~= v.deep_view());
    }
    out
}

/// Keep only candidates longer than one character.
fn filter_short_exec(v: &Vec<String>) -> (r: Vec<String>)
    ensures
        r.deep_view() == filter_short(v.deep_view()),
{
    let ghost rs = v.deep_view();
    let n = v.len();
    let mut out: Vec<String> = Vec::new();
    let mut i: usize = 0;
    proof {
        assert(rs.skip(0) =~= rs);
        assert(out.deep_view() + filter_short(rs) =~= filter_short(rs));
    }
    while i < n
        invariant
            i <= n,
            n == v@.len(),
            rs == v.deep_view(),
            out.deep_view() + filter_short(rs.skip(i as int)) == filter_short(rs),
        decreases n - i,
    {
        proof {
            assert(rs.skip(i as int).drop_first() =~= rs.skip(i as int + 1));
            assert(rs.skip(i as int)[0] == rs[i as int]);
        }
        let ghost before = out.deep_view();
        if v[i].as_str().unicode_len() > 1 {
            out.push(v[i].clone());
            proof {
                assert(out.deep_view() =~= before.push(rs[i as int]));
                assert(before + seq![rs[i as int]] + filter_short(rs.skip(i as int + 1)) =~= before
                    + (seq![rs[i as int]] + filter_short(rs.skip(i as int + 1))));
                assert(before.push(rs[i as int]) =~= before + seq![rs[i as int]]);
            }
        }
        i += 1;
    }
    proof {
        assert(rs.skip(n as int) =~= Seq::<Seq<char>>::empty());
        assert(out.deep_view() + filter_short(rs.skip(n as int)) =~= out.deep_view());
    }
    out
}

/// The suggestion reported for one resolved pair of a missed token.
pub open spec fn suggestion_view_for(o: OriginView, e: (Range, Span), reps: Seq<Seq<char>>) -> SuggestionView {
    SuggestionView {
        detector: Detector::Hunspell,
        origin: o,
        range: e.0,
        span: e.1,
        replacements: reps,
        description: Some("Possible spelling mistake found."@),
    }
}

/// One suggestion per resolved pair, in resolution order.
pub open spec fn entry_suggs(entries: Seq<(Range, Span)>, o: OriginView, reps: Seq<Seq<char>>) -> Seq<
    SuggestionView,
>
    decreases entries.len(),
{
    if entries.len() == 0 {
        Seq::empty()
    } else {
        seq![suggestion_view_for(o, entries[0], reps)] + entry_suggs(entries.drop_first(), o, reps)
    }
}

/// What one token contributes: nothing when its quirk-reduced form is in
/// the dictionary; otherwise one suggestion per source span the token's
/// range resolves to, carrying the filtered replacement candidates looked
/// up for the original (pre-quirk) word.
pub open spec fn token_suggs(
    cv: ChunkView,
    qs: Seq<Quirk>,
    words: Seq<Seq<char>>,
    repl: Seq<(Seq<char>, Seq<Seq<char>>)>,
    o: OriginView,
    tok: Range,
) -> Seq<SuggestionView> {
    let w = sub_chars_spec(cv.content, tok);
    if words.contains(reduce(qs, w)) {
        Seq::empty()
    } else {
        entry_suggs(find_spans_spec(cv.content, cv.mapping, tok), o, filter_short(repl_lookup(repl, w)))
    }
}

/// The contributions of a token sequence, concatenated in order.
pub open spec fn tokens_suggs(
    cv: ChunkView,
    qs: Seq<Quirk>,
    words: Seq<Seq<char>>,
    repl: Seq<(Seq<char>, Seq<Seq<char>>)>,
    o: OriginView,
    toks: Seq<Range>,
) -> Seq<SuggestionView>
    decreases toks.len(),
{
    if toks.len() == 0 {
        Seq::empty()
    } else {
        token_suggs(cv, qs, words, repl, o, toks[0]) + tokens_suggs(
            cv,
            qs,
            words,
            repl,
            o,
            toks.drop_first(),
        )
    }
}

/// Everything one chunk contributes: its tokens in text order.
pub open spec fn chunk_suggs(
    cv: ChunkView,
    qs: Seq<Quirk>,
    words: Seq<Seq<char>>,
    repl: Seq<(Seq<char>, Seq<Seq<char>>)>,
    o: OriginView,
) -> Seq<SuggestionView> {
    tokens_suggs(cv, qs, words, repl, o, crate::tokenize::tokens_of(cv.content))
}

/// Everything one origin's chunks contribute, in delivery order.
pub open spec fn chunks_suggs(
    chunks: Seq<ChunkView>,
    qs: Seq<Quirk>,
    words: Seq<Seq<char>>,
    repl: Seq<(Seq<char>, Seq<Seq<char>>)>,
    o: OriginView,
) -> Seq<SuggestionView>
    decreases chunks.len(),
{
    if chunks.len() == 0 {
        Seq::empty()
    } else {
        chunk_suggs(chunks[0], qs, words, repl, o) + chunks_suggs(
            chunks.drop_first(),
            qs,
            words,
            repl,
            o,
        )
    }
}

/// The whole run: per origin, in order, the suggestions of its chunks;
/// origins with nothing to report get no entry.
pub open spec fn check_spec(
    doc: Seq<(OriginView, Seq<ChunkView>)>,
    qs: Seq<Quirk>,
    words: Seq<Seq<char>>,
    repl: Seq<(Seq<char>, Seq<Seq<char>>)>,
) -> Seq<(OriginView, Seq<SuggestionView>)>
    decreases doc.len(),
{
    if doc.len() == 0 {
        Seq::empty()
    } else {
        let s = chunks_suggs(doc[0].1, qs, words, repl, doc[0].0);
        let rest = check_spec(doc.drop_first(), qs, words, repl);
        if s.len() > 0 {
            seq![(doc[0].0, s)] + rest
        } else {
            rest
        }
    }
}

/// The dictionary check with affixes handled by the backend that filled the
/// [`Dictionary`].  Tokenizes every chunk, normalizes each token through
/// the quirk chain, and reports every miss with its resolved source spans.
pub struct HunspellChecker;

impl HunspellChecker {
    /// Run the check over the whole documentation collection.  Never
    /// mutates shared state; the result is built independently and returned
    /// whole.  A per-token miss is the expected output, never an error.
    #[verifier::loop_isolation(false)]
    pub fn check(docu: &Documentation, quirks: Option<&Quirks>, dict: &Dictionary) -> (r: Result<
        SuggestionSet,
        CheckerError,
    >)
        requires
            docu.wf(),
            quirks is Some,
        ensures
            r matches Ok(s) && s@ == check_spec(
                docu@,
                quirks.unwrap().list(),
                dict.word_list(),
                dict.replacement_map(),
            ),
    {
        let q: &Quirks = match quirks {
            Some(q) => q,
            None => {
                return Err(CheckerError::DictionaryUnavailable);
            },
        };
        let ghost docv = docu@;
        let ghost qs = q.list();
        let ghost words = dict.word_list();
        let ghost repl = dict.replacement_map();
        let mut acc = SuggestionSet::new();
        let ents = docu.entries();
        let n = ents.len();
        let mut e: usize = 0;
        proof {
            assert(docv.skip(0) =~= docv);
            assert(acc@ + check_spec(docv, qs, words, repl) =~= check_spec(docv, qs, words, repl));
        }
        while e < n
            invariant
                e <= n,
                acc@ + check_spec(docv.skip(e as int), qs, words, repl) == check_spec(
                    docv,
                    qs,
                    words,
                    repl,
                ),
            decreases n - e,
        {
            proof {
                assert(docv.skip(e as int).drop_first() =~= docv.skip(e as int + 1));
                assert(docv.skip(e as int)[0] == docv[e as int]);
            }
            let entry = &ents[e];
            let origin = &entry.0;
            let chunks = &entry.1;
            let ghost ov = docv[e as int].0;
            let ghost chv = docv[e as int].1;
            proof {
                assert(docv[e as int] == crate::suggestion::doc_entry_view(ents@[e as int]));
                assert(chv == chunks.deep_view());
                assert(ov == origin@);
                assert(chv.skip(0) =~= chv);
            }
            let mut cur: Vec<Suggestion> = Vec::new();
            let m = chunks.len();
            let mut c: usize = 0;
            proof {
                assert(cur.deep_view() + chunks_suggs(chv, qs, words, repl, ov) =~= chunks_suggs(
                    chv,
                    qs,
                    words,
                    repl,
                    ov,
                ));
            }
            while c < m
                invariant
                    c <= m,
                    m == chunks@.len(),
                    cur.deep_view() + chunks_suggs(chv.skip(c as int), qs, words, repl, ov)
                        == chunks_suggs(chv, qs, words, repl, ov),
                decreases m - c,
            {
                proof {
                    assert(chv.skip(c as int).drop_first() =~= chv.skip(c as int + 1));
                    assert(chv.skip(c as int)[0] == chv[c as int]);
                }
                let chunk = &chunks[c];
                let ghost cv = chv[c as int];
                proof {
                    assert(cv == chunk@);
                    assert(chunk.wf());
                }
                let toks = tokenize(chunk.as_str());
                let ghost tv = toks@;
                let t_n = toks.len();
                let mut t: usize = 0;
                proof {
                    assert(tv.skip(0) =~= tv);
                    assert(chunk_suggs(cv, qs, words, repl, ov) == tokens_suggs(
                        cv,
                        qs,
                        words,
                        repl,
                        ov,
                        tv,
                    ));
                }
                while t < t_n
                    invariant
                        t <= t_n,
                        t_n == tv.len(),
                        cur.deep_view() + tokens_suggs(cv, qs, words, repl, ov, tv.skip(t as int))
                            + chunks_suggs(chv.skip(c as int + 1), qs, words, repl, ov)
                            == chunks_suggs(chv, qs, words, repl, ov),
                    decreases t_n - t,
                {
                    proof {
                        assert(tv.skip(t as int).drop_first() =~= tv.skip(t as int + 1));
                        assert(tv.skip(t as int)[0] == tv[t as int]);
                    }
                    let tok = toks[t];
                    let word = sub_chars(chunk.as_str(), tok);
                    let ghost w = sub_chars_spec(cv.content, tok);
                    let trimmed = match q.check_quirk(word.as_str()) {
                        Some(tt) => tt,
                        None => word.clone(),
                    };
                    proof {
                        assert(trimmed@ == reduce(qs, w));
                    }
                    let ghost before_tok = cur.deep_view();
                    if !dict.is_known(trimmed.as_str()) {
                        let raw = dict.replacements_for(word.as_str());
                        let reps = filter_short_exec(&raw);
                        let ghost repsv = filter_short(repl_lookup(repl, w));
                        let entries2 = chunk.find_spans(tok);
                        let ghost ev = entries2@;
                        let k_n = entries2.len();
                        let mut k: usize = 0;
                        proof {
                            assert(ev.skip(0) =~= ev);
                        }
                        while k < k_n
                            invariant
                                k <= k_n,
                                k_n == ev.len(),
                                reps.deep_view() == repsv,
                                cur.deep_view() + entry_suggs(ev.skip(k as int), ov, repsv)
                                    == before_tok + entry_suggs(ev, ov, repsv),
                            decreases k_n - k,
                        {
                            proof {
                                assert(ev.skip(k as int).drop_first() =~= ev.skip(k as int + 1));
                                assert(ev.skip(k as int)[0] == ev[k as int]);
                            }
                            let ghost before = cur.deep_view();
                            let dup = origin.duplicate();
                            proof {
                                lemma_origin_eq_is_view_eq(dup, *origin);
                            }
                            cur.push(
                                Suggestion {
                                    detector: Detector::Hunspell,
                                    origin: dup,
                                    range: entries2[k].0,
                                    span: entries2[k].1,
                                    replacements: clone_strings(&reps),
                                    description: Some(
                                        String::from_str("Possible spelling mistake found."),
                                    ),
                                },
                            );
                            proof {
                                assert(cur.deep_view() =~= before.push(
                                    suggestion_view_for(ov, ev[k as int], repsv),
                                ));
                                assert(before + seq![suggestion_view_for(ov, ev[k as int], repsv)]
                                    + entry_suggs(ev.skip(k as int + 1), ov, repsv) =~= before + (
                                seq![suggestion_view_for(ov, ev[k as int], repsv)] + entry_suggs(
                                    ev.skip(k as int + 1),
                                    ov,
                                    repsv,
                                )));
                                assert(before.push(suggestion_view_for(ov, ev[k as int], repsv))
                                    =~= before + seq![suggestion_view_for(ov, ev[k as int], repsv)]);
                            }
                            k += 1;
                        }
                        proof {
                            assert(ev.skip(k_n as int) =~= Seq::<(Range, Span)>::empty());
                            assert(cur.deep_view() + Seq::<SuggestionView>::empty() =~= cur.deep_view());
                            assert(cur.deep_view() =~= before_tok + token_suggs(
                                cv,
                                qs,
                                words,
                                repl,
                                ov,
                                tv[t as int],
                            ));
                        }
                    } else {
                        proof {
                            assert(token_suggs(cv, qs, words, repl, ov, tv[t as int])
                                =~= Seq::<SuggestionView>::empty());
                            assert(cur.deep_view() =~= before_tok + token_suggs(
                                cv,
                                qs,
                                words,
                                repl,
                                ov,
                                tv[t as int],
                            ));
                        }
                    }
                    proof {
                        assert(before_tok + (token_suggs(cv, qs, words, repl, ov, tv[t as int])
                            + tokens_suggs(cv, qs, words, repl, ov, tv.skip(t as int + 1))) =~= (
                        before_tok + token_suggs(cv, qs, words, repl, ov, tv[t as int]))
                            + tokens_suggs(cv, qs, words, repl, ov, tv.skip(t as int + 1)));
                    }
                    t += 1;
                }
                proof {
                    assert(tv.skip(t_n as int) =~= Seq::<Range>::empty());
                    assert(cur.deep_view() + Seq::<SuggestionView>::empty() + chunks_suggs(
                        chv.skip(c as int + 1),
                        qs,
                        words,
                        repl,
                        ov,
                    ) =~= cur.deep_view() + chunks_suggs(chv.skip(c as int + 1), qs, words, repl, ov));
                }
                c += 1;
            }
            proof {
                assert(chv.skip(m as int) =~= Seq::<ChunkView>::empty());
                assert(cur.deep_view() + Seq::<SuggestionView>::empty() =~= cur.deep_view());
                assert(cur.deep_view() == chunks_suggs(chv, qs, words, repl, ov));
                assert(cur.deep_view().len() == cur@.len());
            }
            if cur.len() > 0 {
                let dup = origin.duplicate();
                proof {
                    lemma_origin_eq_is_view_eq(dup, *origin);
                }
                acc.push_entry(dup, cur);
                proof {
                    assert(acc@ + check_spec(docv.skip(e as int + 1), qs, words, repl)
                        =~= check_spec(docv, qs, words, repl));
                }
            } else {
                proof {
                    assert(acc@ + check_spec(docv.skip(e as int + 1), qs, words, repl)
                        =~= check_spec(docv, qs, words, repl));
                }
            }
            e += 1;
        }
        proof {
            assert(docv.skip(n as int) =~= Seq::<(OriginView, Seq<ChunkView>)>::empty());
            assert(acc@ =~= acc@ + check_spec(docv.skip(n as int), qs, words, repl));
        }
        Ok(acc)
    }
}

} // verus!
