//! Tokenization of a text view into candidate lexical words: maximal runs
//! of word characters, where ASCII letters and digits and every character
//! beyond ASCII count as word characters, independent of any particular
//! language's alphabet.  The tokenizer knows nothing of spans or checkers;
//! it is a pure function of the text.

use vstd::prelude::*;
use vstd::string::*;

use crate::span::Range;

verus! {

/// Whether `c` can be part of a word: an ASCII letter or digit, or any
/// character beyond the ASCII range.
pub open spec fn is_word_char(c: char) -> bool {
    let u = c as u32;
    (97 <= u <= 122) || (65 <= u <= 90) || (48 <= u <= 57) || u >= 128
}

/// The word ranges of `s` from index `i` on, given that a run began at
/// `run` (if any) and is still open at `i`.
pub open spec fn tokens_from(s: Seq<char>, i: int, run: Option<int>) -> Seq<Range>
    decreases s.len() - i,
    when 0 <= i <= s.len()
{
    if i >= s.len() {
        match run {
            Some(st) => seq![Range { start: st as usize, end: s.len() as usize }],
            None => Seq::empty(),
        }
    } else if is_word_char(s[i]) {
        match run {
            Some(st) => tokens_from(s, i + 1, run),
            None => tokens_from(s, i + 1, Some(i)),
        }
    } else {
        match run {
            Some(st) => seq![Range { start: st as usize, end: i as usize }] + tokens_from(
                s,
                i + 1,
                None,
            ),
            None => tokens_from(s, i + 1, None),
        }
    }
}

/// The maximal runs of word characters of `s`, in order.
pub open spec fn tokens_of(s: Seq<char>) -> Seq<Range> {
    tokens_from(s, 0, None)
}

fn is_word_char_exec(c: char) -> (r: bool)
    ensures
        r == is_word_char(c),
{
    let u = c as u32;
    (97 <= u && u <= 122) || (65 <= u && u <= 90) || (48 <= u && u <= 57) || u >= 128
}

/// Split `text` into its candidate words: each returned range is a maximal
/// run of word characters, produced lazily in text order and restartable by
/// calling again.
pub fn tokenize(text: &str) -> (r: Vec<Range>)
    ensures
        r@ == tokens_of(text@),
{
    let n = text.unicode_len();
    let mut out: Vec<Range> = Vec::new();
    let mut run_start: usize = 0;
    let mut in_run: bool = false;
    let mut i: usize = 0;
    proof {
        assert(out@ + tokens_from(text@, 0, None) =~= tokens_from(text@, 0, None));
    }
    while i < n
        invariant
            i <= n,
            n == text@.len(),
            in_run ==> run_start <= i,
            out@ + tokens_from(text@, i as int, if in_run {
                Some(run_start as int)
            } else {
                None
            }) == tokens_of(text@),
        decreases n - i,
    {
        let ghost before = out@;
        let c = text.get_char(i);
        if is_word_char_exec(c) {
            if !in_run {
                in_run = true;
                run_start = i;
            }
        } else {
            if in_run {
                out.push(Range { start: run_start, end: i });
                in_run = false;
                proof {
                    assert(before + seq![Range { start: run_start, end: i }] + tokens_from(
                        text@,
                        i as int + 1,
                        None,
                    ) =~= before + (seq![Range { start: run_start, end: i }] + tokens_from(
                        text@,
                        i as int + 1,
                        None,
                    )));
                }
            }
        }
        i += 1;
    }
    if in_run {
        out.push(Range { start: run_start, end: n });
    }
    out
}

} // verus!
