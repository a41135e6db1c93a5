//! The data-group checksum: the sum of the byte values, low six bits kept,
//! shifted into the printable range by adding 0x20.
use vstd::prelude::*;
use vstd::utf8::encode_utf8;

verus! {

/// Sum of the byte values of `s`.
pub open spec fn byte_sum(s: Seq<u8>) -> nat
    decreases s.len(),
{
    if s.len() == 0 {
        0
    } else {
        byte_sum(s.drop_last()) + s.last() as nat
    }
}

/// The checksum byte of `s`: the low six bits of the byte sum, plus 0x20.
pub open spec fn checksum_of(s: Seq<u8>) -> u8 {
    ((byte_sum(s) % 64) + 0x20) as u8
}

/// A checksum always lies in the printable range 0x20 ..= 0x5F.
pub proof fn lemma_checksum_range(s: Seq<u8>)
    ensures
        0x20 <= checksum_of(s) <= 0x5F,
{
}

/// Checksum of a byte sequence.
pub fn checksum_byte(s: &[u8]) -> (r: u8)
    ensures
        r == checksum_of(s@),
{
    // Only the low six bits of the sum reach the result, so the accumulator
    // keeps just those and cannot overflow, however long `s` is.
    let mut acc: u32 = 0;
    let mut i: usize = 0;
    while i < s.len()
        invariant
            i <= s@.len(),
            acc == byte_sum(s@.subrange(0, i as int)) % 64,
        decreases s@.len() - i,
    {
        proof {
            let p = s@.subrange(0, i as int + 1);
            assert(p.drop_last() =~= s@.subrange(0, i as int));
            assert(p.last() == s@[i as int]);
        }
        acc = (acc + s[i] as u32) % 64;
        i = i + 1;
    }
    assert(s@.subrange(0, i as int) =~= s@);
    (acc + 0x20) as u8
}

/// Checksum character of a string, computed over its UTF-8 bytes.
pub fn compute_checksum(content: &String) -> (r: char)
    ensures
        r == checksum_of(encode_utf8(content@)) as char,
{
    let bytes = content.as_str().as_bytes();
    let c = checksum_byte(bytes);
    c as char
}

} // verus!
