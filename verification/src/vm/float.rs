//! How a Float is written: always with a decimal point, so that `1.0` does not
//! read as the Int `1`.

use crate::text::cat;
use vstd::prelude::*;

verus! {

pub open spec fn is_point(c: char) -> bool {
    c == '.' || c == 'e' || c == 'E'
}

/// The text shows a point or an exponent.
pub open spec fn shows_point(s: Seq<char>) -> bool {
    exists|i: int| 0 <= i < s.len() && is_point(#[trigger] s[i])
}

/// A Float's text, from its shortest decimal.
pub open spec fn text_spec(s: Seq<char>) -> Seq<char> {
    if shows_point(s) {
        s
    } else {
        s + ".0"@
    }
}

/// A Float's text, from its shortest decimal: with `.0` after it where that
/// shows neither a point nor an exponent.
pub fn text(digits: String) -> (r: String)
    ensures
        r@ == text_spec(digits@),
{
    let chars = crate::text::chars_of(digits.as_str());
    let mut i: usize = 0;
    while i < chars.len()
        invariant
            chars@ == digits@,
            i <= chars@.len(),
            forall|k: int| 0 <= k < i ==> !is_point(#[trigger] chars@[k]),
        decreases chars@.len() - i,
    {
        let c = chars[i];
        if c == '.' || c == 'e' || c == 'E' {
            proof {
                assert(is_point(digits@[i as int]));
            }
            return digits;
        }
        i += 1;
    }
    cat(digits.as_str(), ".0")
}

/// A Float never reads as an Int: its text shows a point or an exponent.
pub proof fn law_a_float_shows_a_point(s: Seq<char>)
    ensures
        shows_point(text_spec(s)),
{
    reveal_strlit(".0");
    if !shows_point(s) {
        let t = s + ".0"@;
        assert(t[s.len() as int] == '.');
        assert(is_point(t[s.len() as int]));
    }
}

} // verus!
