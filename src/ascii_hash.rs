//! A one-byte hash of ASCII text.

use vstd::prelude::*;

use crate::parse::chars_of;

verus! {

/// Every character is ASCII.
pub open spec fn is_ascii_text(s: Seq<char>) -> bool {
    forall|i: int| 0 <= i < s.len() ==> (#[trigger] s[i] as u32) < 128
}

/// The hash of a text: start at 0; for each character add its code, multiply
/// by 17 and keep the remainder modulo 256.
pub open spec fn hash_spec(s: Seq<char>) -> int
    decreases s.len(),
{
    if s.len() == 0 {
        0
    } else {
        ((hash_spec(s.drop_last()) + s.last() as u32 as int) * 17) % 256
    }
}

/// One step of the hash.
pub fn update_hash_value(h: u32, codepoint: u32) -> (r: u32)
    requires
        h < 256,
        codepoint < 256,
    ensures
        r == ((h + codepoint) * 17) % 256,
        r < 256,
{
    let sum: u32 = h + codepoint;
    let modulus: u32 = 256;
    (sum * 17) % modulus
}

/// The code of an ASCII character.
pub fn convert_ascii_char(ch: char) -> (r: u32)
    requires
        (ch as u32) < 128,
    ensures
        r == ch as u32,
{
    ch as u32
}

/// The hash of the characters `cs[lo..hi]`.
pub fn hash_chars(cs: &Vec<char>, lo: usize, hi: usize) -> (r: u8)
    requires
        lo <= hi <= cs@.len(),
        is_ascii_text(cs@.subrange(lo as int, hi as int)),
    ensures
        r == hash_spec(cs@.subrange(lo as int, hi as int)),
{
    let mut h: u32 = 0;
    let mut i: usize = lo;
    assert(cs@.subrange(lo as int, lo as int) =~= Seq::<char>::empty());
    while i < hi
        invariant
            lo <= i <= hi <= cs@.len(),
            is_ascii_text(cs@.subrange(lo as int, hi as int)),
            h < 256,
            h == hash_spec(cs@.subrange(lo as int, i as int)),
        decreases hi - i,
    {
        assert(cs@.subrange(lo as int, hi as int)[i - lo] == cs@[i as int]);
        let code = convert_ascii_char(cs[i]);
        assert(cs@.subrange(lo as int, i + 1).drop_last() =~= cs@.subrange(lo as int, i as int));
        h = update_hash_value(h, code);
        i = i + 1;
    }
    h as u8
}

/// The hash of an ASCII text, a number below 256.
pub fn hash_generic<W>(s: &str) -> (r: u8)
    requires
        is_ascii_text(s@),
    ensures
        r == hash_spec(s@),
{
    let cs = chars_of(s);
    assert(cs@.subrange(0, cs@.len() as int) =~= s@);
    hash_chars(&cs, 0, cs.len())
}

} // verus!
