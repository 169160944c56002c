//! Character-level helpers: string equality and blankness over `Seq<char>`.

use vstd::prelude::*;

verus! {

/// Whether a character has the Unicode White_Space property.
pub uninterp spec fn char_whitespace(c: char) -> bool;

/// Relies on char::is_whitespace: the Unicode White_Space property of `c`,
/// a function of the character alone.
#[verifier::external_body]
pub(crate) fn char_is_whitespace(c: char) -> (r: bool)
    ensures
        r == char_whitespace(c),
{
    c.is_whitespace()
}

/// Whether every character of `s` is whitespace; holds for the empty string.
pub open spec fn is_blank(s: Seq<char>) -> bool {
    forall|i: int| 0 <= i < s.len() ==> char_whitespace(#[trigger] s[i])
}

/// Character-for-character string equality.
pub fn str_eq(a: &str, b: &str) -> (r: bool)
    ensures
        r == (a@ == b@),
{
    let n = a.unicode_len();
    let m = b.unicode_len();
    if n != m {
        proof {
            assert(a@ != b@);
        }
        return false;
    }
    let mut i: usize = 0;
    while i < n
        invariant
            a@.len() == n,
            b@.len() == n,
            i <= n,
            forall|q: int| 0 <= q < i ==> a@[q] == b@[q],
        decreases n - i,
    {
        if a.get_char(i) != b.get_char(i) {
            return false;
        }
        i += 1;
    }
    proof {
        assert(a@ =~= b@);
    }
    true
}

/// Whether `s` trims to the empty string, i.e. holds no non-whitespace
/// character.
pub fn str_is_blank(s: &str) -> (r: bool)
    ensures
        r == is_blank(s@),
{
    let n = s.unicode_len();
    let mut i: usize = 0;
    while i < n
        invariant
            s@.len() == n,
            i <= n,
            forall|q: int| 0 <= q < i ==> char_whitespace(#[trigger] s@[q]),
        decreases n - i,
    {
        if !char_is_whitespace(s.get_char(i)) {
            return false;
        }
        i += 1;
    }
    true
}

} // verus!
