//! Generation of public random ids: fixed-length strings drawn uniformly
//! from the 62-symbol alphanumeric alphabet.

use vstd::prelude::*;

verus! {

/// Length of every generated public random id.
pub const RANDOM_ID_LEN: usize = 8;

/// The 62-symbol alphabet of public random ids.
pub open spec fn is_base62_char(c: char) -> bool {
    ('0' <= c && c <= '9') || ('a' <= c && c <= 'z') || ('A' <= c && c <= 'Z')
}

pub open spec fn is_random_id(s: Seq<char>) -> bool {
    s.len() == RANDOM_ID_LEN && forall|i: int| 0 <= i < s.len() ==> is_base62_char(#[trigger] s[i])
}

/// Relies on rand's `random_range` on `0..n`: a draw from the thread-local
/// generator, uniform over the range and below the bound; it panics only on
/// an empty range, which the precondition rules out.
#[verifier::external_body]
fn random_below(n: u32) -> (r: u32)
    requires
        1 <= n,
    ensures
        r < n,
{
    rand::random_range(0..n)
}

/// Relies on std's `String::push`: appends the given character to the end
/// of the string.
pub assume_specification [ String::push ](s: &mut String, ch: char)
    ensures
        final(s)@ == old(s)@.push(ch),
;

/// Maps a value below 62 to its symbol: digits, then lower-case letters,
/// then upper-case letters.
fn base62_char(v: u8) -> (c: char)
    requires
        v < 62,
    ensures
        is_base62_char(c),
{
    if v < 10 {
        (48 + v) as char
    } else if v < 36 {
        (97 + (v - 10)) as char
    } else {
        (65 + (v - 36)) as char
    }
}

/// Generates a fresh public random id: `RANDOM_ID_LEN` symbols drawn
/// uniformly (bias-free) from the 62-symbol alphanumeric alphabet.
pub fn random_id() -> (r: String)
    ensures
        is_random_id(r@),
{
    let mut s = String::new();
    let mut k: usize = 0;
    while k < RANDOM_ID_LEN
        invariant
            k <= RANDOM_ID_LEN,
            s@.len() == k,
            forall|i: int| 0 <= i < s@.len() ==> is_base62_char(#[trigger] s@[i]),
        decreases RANDOM_ID_LEN - k,
    {
        let v = random_below(62) as u8;
        let c = base62_char(v);
        s.push(c);
        k = k + 1;
    }
    s
}

} // verus!
