//! Range-membership predicates over Unicode code points: which characters
//! count as logographic (Hanja) and which as Hangul syllables.

use vstd::prelude::*;

verus! {

/// A code point in the Hangul syllable block, inclusive.
pub open spec fn is_hangul(c: char) -> bool {
    44032 <= c as u32 <= 55203
}

/// A code point in one of the four logographic blocks, inclusive:
/// CJK Unified Ideographs Extension A, CJK Unified Ideographs,
/// CJK Compatibility Ideographs, and its supplement.
pub open spec fn is_logographic(c: char) -> bool {
    (13312 <= c as u32 <= 19903) || (19968 <= c as u32 <= 40959)
        || (63744 <= c as u32 <= 64045) || (64048 <= c as u32 <= 64109)
}

/// Either a Hangul syllable or a logographic character.
pub open spec fn is_hangul_or_logographic(c: char) -> bool {
    is_hangul(c) || is_logographic(c)
}

/// Whether `c` is a logographic (Hanja) character.
pub fn is_chi(c: &char) -> (b: bool)
    ensures
        b == is_logographic(*c),
{
    let n: u32 = *c as u32;
    (n >= 13312 && n <= 19903) || (n >= 19968 && n <= 40959)
        || (n >= 63744 && n <= 64045) || (n >= 64048 && n <= 64109)
}

/// Whether `c` is a Hangul syllable or a logographic character.
pub fn is_kor_or_chi(c: &char) -> (b: bool)
    ensures
        b == is_hangul_or_logographic(*c),
{
    let n: u32 = *c as u32;
    (n >= 44032 && n <= 55203) || (n >= 13312 && n <= 19903) || (n >= 19968 && n <= 40959)
        || (n >= 63744 && n <= 64045) || (n >= 64048 && n <= 64109)
}

} // verus!
