//! The quirk chain: named, length-shrinking text normalizations applied to
//! a token before dictionary lookup, repeated until none matches.

use vstd::prelude::*;
use vstd::string::*;

use crate::config::Config;
use crate::util::str_eq;

verus! {

/// One configured normalization: strip a layer of matching double or single
/// quotes, or strip a trailing multiplicity `x` marker.
#[derive(Debug, Clone, Copy, Eq, PartialEq, Structural)]
pub enum Quirk {
    SingleQuoted,
    Quoted,
    MultipicityXsuffix,
}

/// Whether `q` matches the text `s`.
pub open spec fn quirk_applies(q: Quirk, s: Seq<char>) -> bool {
    match q {
        Quirk::Quoted => s.len() > 2 && s[0] == '"' && s[s.len() - 1] == '"',
        Quirk::SingleQuoted => s.len() > 2 && s[0] == '\'' && s[s.len() - 1] == '\'',
        Quirk::MultipicityXsuffix => s.len() > 1 && s[s.len() - 1] == 'x',
    }
}

/// The strictly shorter text `q` rewrites `s` to, assuming it applies.
pub open spec fn quirk_apply(q: Quirk, s: Seq<char>) -> Seq<char> {
    match q {
        Quirk::Quoted => s.subrange(1, s.len() - 1),
        Quirk::SingleQuoted => s.subrange(1, s.len() - 1),
        Quirk::MultipicityXsuffix => s.subrange(0, s.len() - 1),
    }
}

/// The first quirk in configured order that matches `s`.
pub open spec fn first_match(qs: Seq<Quirk>, s: Seq<char>) -> Option<Quirk>
    decreases qs.len(),
{
    if qs.len() == 0 {
        None
    } else if quirk_applies(qs[0], s) {
        Some(qs[0])
    } else {
        first_match(qs.drop_first(), s)
    }
}

pub proof fn lemma_first_match_applies(qs: Seq<Quirk>, s: Seq<char>)
    ensures
        match first_match(qs, s) {
            Some(q) => quirk_applies(q, s),
            None => forall|i: int| 0 <= i < qs.len() ==> !quirk_applies(#[trigger] qs[i], s),
        },
    decreases qs.len(),
{
    if qs.len() > 0 && !quirk_applies(qs[0], s) {
        lemma_first_match_applies(qs.drop_first(), s);
        if first_match(qs, s) is None {
            assert forall|i: int| 0 <= i < qs.len() implies !quirk_applies(#[trigger] qs[i], s) by {
                if i > 0 {
                    assert(qs.drop_first()[i - 1] == qs[i]);
                    assert(!quirk_applies(qs.drop_first()[i - 1], s));
                }
            }
        }
    }
}

/// The fixed point of the chain: apply the first matching quirk, repeat
/// until none matches.  Each step strictly shrinks the text, so this
/// terminates.
pub open spec fn reduce(qs: Seq<Quirk>, s: Seq<char>) -> Seq<char>
    decreases s.len(),
    via reduce_decreases
{
    match first_match(qs, s) {
        None => s,
        Some(q) => reduce(qs, quirk_apply(q, s)),
    }
}

#[via_fn]
proof fn reduce_decreases(qs: Seq<Quirk>, s: Seq<char>) {
    lemma_first_match_applies(qs, s);
}

/// LAW — the quirk chain is idempotent: its result is maximally reduced, so
/// no quirk matches the output of a reduction.  In particular, applying the
/// chain to the text that a successful `check_quirk` returned yields no
/// further change.
pub proof fn lemma_reduce_fixpoint(qs: Seq<Quirk>, s: Seq<char>)
    ensures
        first_match(qs, reduce(qs, s)) is None,
        reduce(qs, reduce(qs, s)) == reduce(qs, s),
    decreases s.len(),
{
    lemma_first_match_applies(qs, s);
    match first_match(qs, s) {
        None => {},
        Some(q) => {
            lemma_reduce_fixpoint(qs, quirk_apply(q, s));
        },
    }
}

/// Parse a quirk name; unknown names yield `None`.
pub open spec fn quirk_from_str_spec(s: Seq<char>) -> Option<Quirk> {
    if s == "single-quoted"@ {
        Some(Quirk::SingleQuoted)
    } else if s == "quoted"@ {
        Some(Quirk::Quoted)
    } else if s == "multipicity-x-suffix"@ {
        Some(Quirk::MultipicityXsuffix)
    } else {
        None
    }
}

/// The quirks parsed out of the configured names, unknown names dropped.
pub open spec fn parsed_quirks(names: Seq<Seq<char>>) -> Seq<Quirk>
    decreases names.len(),
{
    if names.len() == 0 {
        Seq::empty()
    } else {
        let rest = parsed_quirks(names.drop_first());
        match quirk_from_str_spec(names[0]) {
            Some(q) => seq![q] + rest,
            None => rest,
        }
    }
}

/// Consecutive duplicates collapsed to one.
pub open spec fn dedup_adjacent(s: Seq<Quirk>) -> Seq<Quirk>
    decreases s.len(),
{
    if s.len() == 0 {
        Seq::empty()
    } else if s.len() >= 2 && s[s.len() - 2] == s[s.len() - 1] {
        dedup_adjacent(s.drop_last())
    } else {
        dedup_adjacent(s.drop_last()).push(s.last())
    }
}

impl Quirk {
    pub fn from_str(q: &str) -> (r: Option<Quirk>)
        ensures
            r == quirk_from_str_spec(q@),
    {
        if str_eq(q, "single-quoted") {
            Some(Quirk::SingleQuoted)
        } else if str_eq(q, "quoted") {
            Some(Quirk::Quoted)
        } else if str_eq(q, "multipicity-x-suffix") {
            Some(Quirk::MultipicityXsuffix)
        } else {
            None
        }
    }

    /// Apply this quirk once: `Some` with the shortened text when it
    /// matches, `None` otherwise.
    pub fn call(&self, text: &str) -> (r: Option<String>)
        ensures
            match r {
                Some(t) => quirk_applies(*self, text@) && t@ == quirk_apply(*self, text@),
                None => !quirk_applies(*self, text@),
            },
    {
        let n = text.unicode_len();
        match self {
            Quirk::Quoted => {
                if n > 2 && text.get_char(0) == '"' && text.get_char(n - 1) == '"' {
                    Some(String::from_str(text.substring_char(1, n - 1)))
                } else {
                    None
                }
            },
            Quirk::SingleQuoted => {
                if n > 2 && text.get_char(0) == '\'' && text.get_char(n - 1) == '\'' {
                    Some(String::from_str(text.substring_char(1, n - 1)))
                } else {
                    None
                }
            },
            Quirk::MultipicityXsuffix => {
                if n > 1 && text.get_char(n - 1) == 'x' {
                    Some(String::from_str(text.substring_char(0, n - 1)))
                } else {
                    None
                }
            },
        }
    }
}

/// The active quirk chain, in configured order with consecutive duplicates
/// collapsed.
#[derive(Debug, Clone)]
pub struct Quirks {
    quirks: Vec<Quirk>,
}

impl Quirks {
    /// The active quirks in order.
    pub closed spec fn list(&self) -> Seq<Quirk> {
        self.quirks@
    }

    /// Build the chain from the configuration: parse each configured name,
    /// ignore unknown ones, collapse consecutive duplicates; no
    /// configuration at all means an empty chain.
    pub fn from_cfg(cfg: &Config) -> (r: Self)
        ensures
            r.list() == match cfg.quirks {
                Some(qs) => dedup_adjacent(parsed_quirks(qs.deep_view())),
                None => Seq::<Quirk>::empty(),
            },
    {
        let quirks = match &cfg.quirks {
            Some(qs) => Self::quirks(qs),
            None => Vec::new(),
        };
        Self { quirks }
    }

    /// Parse and collapse the configured quirk names.
    pub fn quirks(qs: &Vec<String>) -> (r: Vec<Quirk>)
        ensures
            r@ == dedup_adjacent(parsed_quirks(qs.deep_view())),
    {
        let ghost names = qs.deep_view();
        let mut parsed: Vec<Quirk> = Vec::new();
        let n = qs.len();
        let mut i: usize = 0;
        proof {
            assert(names.skip(0) =~= names);
            assert(parsed@ + parsed_quirks(names) =~= parsed_quirks(names));
        }
        while i < n
            invariant
                i <= n,
                n == names.len(),
                names == qs.deep_view(),
                parsed@ + parsed_quirks(names.skip(i as int)) == parsed_quirks(names),
            decreases n - i,
        {
            proof {
                assert(names.skip(i as int).drop_first() =~= names.skip(i as int + 1));
                assert(names.skip(i as int)[0] == names[i as int]);
                assert(qs[i as int]@ == names[i as int]);
            }
            let ghost before = parsed@;
            match Quirk::from_str(qs[i].as_str()) {
                Some(q) => {
                    parsed.push(q);
                    proof {
                        assert(before + seq![q] + parsed_quirks(names.skip(i as int + 1)) =~= before
                            + (seq![q] + parsed_quirks(names.skip(i as int + 1))));
                    }
                },
                None => {},
            }
            i += 1;
        }
        proof {
            assert(names.skip(n as int) =~= Seq::<Seq<char>>::empty());
            assert(parsed@ + parsed_quirks(names.skip(n as int)) =~= parsed@);
        }
        let mut out: Vec<Quirk> = Vec::new();
        let m = parsed.len();
        let mut j: usize = 0;
        proof {
            assert(parsed@.take(0) =~= Seq::<Quirk>::empty());
        }
        while j < m
            invariant
                j <= m,
                m == parsed@.len(),
                out@ == dedup_adjacent(parsed@.take(j as int)),
            decreases m - j,
        {
            proof {
                assert(parsed@.take(j as int + 1).drop_last() =~= parsed@.take(j as int));
            }
            if j == 0 || !vec_quirk_eq(&parsed, j - 1, j) {
                out.push(parsed[j]);
            }
            j += 1;
        }
        proof {
            assert(parsed@.take(m as int) =~= parsed@);
        }
        out
    }

    /// Run the chain to its fixed point: `Some` with the fully reduced text
    /// when at least one quirk ever matched, `None` when none did (use the
    /// original token unchanged).
    pub fn check_quirk(&self, text: &str) -> (r: Option<String>)
        ensures
            match r {
                Some(t) => first_match(self.list(), text@) is Some && t@ == reduce(
                    self.list(),
                    text@,
                ),
                None => first_match(self.list(), text@) is None,
            },
    {
        let ghost qs = self.list();
        let mut current: String = text.to_owned();
        let mut found: bool = false;
        let mut progress: bool = true;
        while progress
            invariant
                qs == self.list(),
                reduce(qs, current@) == reduce(qs, text@),
                found ==> first_match(qs, text@) is Some,
                !found ==> current@ == text@,
                !progress ==> first_match(qs, current@) is None,
            decreases current@.len(), (if progress {
                1int
            } else {
                0int
            }),
        {
            let n = self.quirks.len();
            let mut i: usize = 0;
            let mut hit: Option<String> = None;
            proof {
                assert(qs.skip(0) =~= qs);
            }
            while i < n && hit.is_none()
                invariant
                    i <= n,
                    n == qs.len(),
                    qs == self.list(),
                    match hit {
                        None => first_match(qs, current@) == first_match(
                            qs.skip(i as int),
                            current@,
                        ),
                        Some(t) => first_match(qs, current@) is Some && t@ == quirk_apply(
                            first_match(qs, current@).unwrap(),
                            current@,
                        ),
                    },
                decreases (if hit is None {
                    1int
                } else {
                    0int
                }), n - i,
            {
                proof {
                    assert(qs.skip(i as int).drop_first() =~= qs.skip(i as int + 1));
                    assert(qs.skip(i as int)[0] == qs[i as int]);
                }
                match self.quirks[i].call(current.as_str()) {
                    Some(t) => {
                        hit = Some(t);
                    },
                    None => {
                        i += 1;
                    },
                }
            }
            match hit {
                Some(t) => {
                    proof {
                        let q = first_match(qs, current@).unwrap();
                        lemma_first_match_applies(qs, current@);
                        assert(quirk_apply(q, current@).len() < current@.len());
                        assert(reduce(qs, current@) == reduce(qs, quirk_apply(q, current@)));
                    }
                    current = t;
                    found = true;
                },
                None => {
                    proof {
                        assert(qs.skip(n as int) =~= Seq::<Quirk>::empty());
                    }
                    progress = false;
                },
            }
        }
        if found {
            proof {
                assert(reduce(qs, current@) == current@);
            }
            Some(current)
        } else {
            None
        }
    }
}

/// Whether the quirks at positions `a` and `b` of `v` are the same variant.
fn vec_quirk_eq(v: &Vec<Quirk>, a: usize, b: usize) -> (r: bool)
    requires
        a < v@.len(),
        b < v@.len(),
    ensures
        r == (v@[a as int] == v@[b as int]),
{
    v[a] == v[b]
}

} // verus!
