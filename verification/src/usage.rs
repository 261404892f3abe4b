//! Token accounting: the rough token count that budgets the knowledge
//! outline of the preamble.

use vstd::prelude::*;

use crate::text::chars_of;

verus! {

/// An ASCII character (code point below 128).
pub open spec fn is_ascii_char(c: char) -> bool {
    (c as u32) < 128
}

/// How many characters of `s` are ASCII.
pub open spec fn ascii_count(s: Seq<char>) -> nat
    decreases s.len(),
{
    if s.len() == 0 {
        0
    } else {
        ascii_count(s.drop_last()) + if is_ascii_char(s.last()) {
            1nat
        } else {
            0nat
        }
    }
}

/// The token estimate of a text: one token per non-ASCII character, and one
/// per four ASCII characters, rounded up.
pub open spec fn token_estimate(s: Seq<char>) -> nat {
    ((s.len() - ascii_count(s)) + (ascii_count(s) + 3) / 4) as nat
}

proof fn lemma_ascii_count_le(s: Seq<char>)
    ensures
        ascii_count(s) <= s.len(),
    decreases s.len(),
{
    if s.len() > 0 {
        lemma_ascii_count_le(s.drop_last());
    }
}

/// A rough token count of `s` (see [`token_estimate`]).
pub fn estimate_tokens(s: &str) -> (n: u64)
    ensures
        n == token_estimate(s@),
{
    let v = chars_of(s);
    let mut ascii: usize = 0;
    let mut k: usize = 0;
    while k < v.len()
        invariant
            k <= v.len(),
            ascii <= k,
            ascii == ascii_count(v@.take(k as int)),
        decreases v.len() - k,
    {
        assert(v@.take(k + 1).drop_last() =~= v@.take(k as int));
        if (v[k] as u32) < 128 {
            ascii = ascii + 1;
        }
        k = k + 1;
    }
    proof {
        assert(v@.take(v.len() as int) =~= v@);
        lemma_ascii_count_le(v@);
    }
    let wide = v.len() - ascii;
    let rounded = ascii / 4 + if ascii % 4 != 0 {
        1
    } else {
        0
    };
    assert(rounded == (ascii + 3) / 4);
    (wide + rounded) as u64
}

} // verus!
