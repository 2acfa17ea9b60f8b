//! Character-exact string helpers.  Everything here indexes by character,
//! never by byte.

use vstd::prelude::*;
use vstd::string::*;

use crate::span::Range;

verus! {

/// The lower clip point of `r` against a text of length `len`.
pub open spec fn clip_lo(len: int, r: Range) -> int {
    if r.start <= len {
        r.start as int
    } else {
        len
    }
}

/// The upper clip point of `r` against a text of length `len`; never below
/// the lower clip point.
pub open spec fn clip_hi(len: int, r: Range) -> int {
    let hi = if r.end <= len {
        r.end as int
    } else {
        len
    };
    if hi >= clip_lo(len, r) {
        hi
    } else {
        clip_lo(len, r)
    }
}

/// The characters of `s` selected by `r`, clipped to the text.
pub open spec fn sub_chars_spec(s: Seq<char>, r: Range) -> Seq<char> {
    s.subrange(clip_lo(s.len() as int, r), clip_hi(s.len() as int, r))
}

/// Owned copy of the characters of `s` at the (clipped) character range `r`.
pub fn sub_chars(s: &str, r: Range) -> (t: String)
    ensures
        t@ == sub_chars_spec(s@, r),
{
    let n = s.unicode_len();
    let lo = if r.start <= n {
        r.start
    } else {
        n
    };
    let hi0 = if r.end <= n {
        r.end
    } else {
        n
    };
    let hi = if hi0 >= lo {
        hi0
    } else {
        lo
    };
    String::from_str(s.substring_char(lo, hi))
}

/// Character-wise string equality.
pub fn str_eq(a: &str, b: &str) -> (r: bool)
    ensures
        r == (a@ == b@),
{
    let na = a.unicode_len();
    let nb = b.unicode_len();
    if na != nb {
        return false;
    }
    let mut i: usize = 0;
    while i < na
        invariant
            i <= na,
            na == a@.len(),
            na == b@.len(),
            forall|j: int| 0 <= j < i ==> a@[j] == b@[j],
        decreases na - i,
    {
        if a.get_char(i) != b.get_char(i) {
            return false;
        }
        i += 1;
    }
    proof {
        assert(a@ =~= b@);
    }
    true
}

/// Whether `p` is a character-wise prefix of `s`.
pub open spec fn starts_with_spec(s: Seq<char>, p: Seq<char>) -> bool {
    p.len() <= s.len() && s.subrange(0, p.len() as int) == p
}

pub fn str_starts_with(s: &str, p: &str) -> (r: bool)
    ensures
        r == starts_with_spec(s@, p@),
{
    let ns = s.unicode_len();
    let np = p.unicode_len();
    if np > ns {
        return false;
    }
    str_eq(s.substring_char(0, np), p)
}

} // verus!
