//! Data groups: `LF <name> SP <zero-padded value> SP <checksum> CR`.
use vstd::prelude::*;
use vstd::utf8::{
    encode_utf8, encode_utf8_valid_utf8, is_ascii_chars, is_ascii_chars_encode_utf8, valid_utf8,
    valid_utf8_concat,
};
use crate::checksum::{checksum_byte, checksum_of};

verus! {

/// Line feed, which opens a data group.
pub const LF: u8 = 0x0A;

/// Carriage return, which closes a data group.
pub const CR: u8 = 0x0D;

/// Separator between the name, the value and the checksum.
pub const SP: u8 = 0x20;

/// ASCII code of the digit `0`.
pub const ZERO: u8 = 0x30;

/// Decimal digits of `v`, most significant first, with leading zeros so
/// that there are at least `w` of them (and no digit at all for `v == 0`,
/// `w == 0`).
pub open spec fn padded_digits(v: nat, w: nat) -> Seq<u8>
    decreases v + w,
{
    if v == 0 && w == 0 {
        Seq::empty()
    } else {
        padded_digits(v / 10, if w > 0 { (w - 1) as nat } else { 0 }).push(
            (ZERO + v % 10) as u8,
        )
    }
}

/// The part of a data group that the checksum covers: name, separator and
/// padded value.
pub open spec fn checksummable(name: Seq<u8>, value: nat, width: nat) -> Seq<u8> {
    name + seq![SP] + padded_digits(value, width)
}

/// A complete data group.
pub open spec fn data_group(name: Seq<u8>, value: nat, width: nat) -> Seq<u8> {
    let body = checksummable(name, value, width);
    seq![LF] + body + seq![SP, checksum_of(body), CR]
}

/// Every byte of the padded value is a decimal digit.
pub proof fn lemma_padded_digits_are_digits(v: nat, w: nat)
    ensures
        forall|i: int|
            0 <= i < padded_digits(v, w).len() ==> ZERO <= #[trigger] padded_digits(v, w)[i]
                <= ZERO + 9,
    decreases v + w,
{
    if !(v == 0 && w == 0) {
        let nw: nat = if w > 0 { (w - 1) as nat } else { 0 };
        lemma_padded_digits_are_digits(v / 10, nw);
        let d = (ZERO + v % 10) as u8;
        assert(padded_digits(v, w) == padded_digits(v / 10, nw).push(d));
        assert forall|i: int| 0 <= i < padded_digits(v, w).len() implies ZERO
            <= #[trigger] padded_digits(v, w)[i] <= ZERO + 9 by {
            if i < padded_digits(v / 10, nw).len() {
                assert(padded_digits(v, w)[i] == padded_digits(v / 10, nw)[i]);
            }
        }
    }
}

/// A value with fewer than `w` digits is padded to exactly `w` of them.
pub proof fn lemma_padded_digits_exact(v: nat, w: nat)
    requires
        v < pow10(w),
    ensures
        padded_digits(v, w).len() == w,
    decreases w,
{
    if w > 0 {
        assert(v / 10 < pow10((w - 1) as nat)) by (nonlinear_arith)
            requires v < pow10(w), pow10(w) == 10 * pow10((w - 1) as nat);
        lemma_padded_digits_exact(v / 10, (w - 1) as nat);
    }
}

/// `10` to the power `n`.
pub open spec fn pow10(n: nat) -> nat
    decreases n,
{
    if n == 0 {
        1
    } else {
        10 * pow10((n - 1) as nat)
    }
}

/// Zero-padded decimal form of `value`, at least `width` digits long.
pub fn format_padded(value: u64, width: usize) -> (r: Vec<u8>)
    ensures
        r@ == padded_digits(value as nat, width as nat),
{
    let mut out: Vec<u8> = Vec::new();
    let mut v: u64 = value;
    let mut w: usize = width;
    while v > 0 || w > 0
        invariant
            padded_digits(value as nat, width as nat) == padded_digits(v as nat, w as nat) + out@,
        decreases v + w,
    {
        let d: u8 = (v % 10) as u8;
        proof {
            let nw: nat = if w > 0 { (w - 1) as nat } else { 0 };
            assert(padded_digits(v as nat, w as nat) == padded_digits((v / 10) as nat, nw).push(
                (ZERO + v % 10) as u8,
            ));
            assert(padded_digits((v / 10) as nat, nw).push((ZERO + v % 10) as u8) + out@
                =~= padded_digits((v / 10) as nat, nw) + seq![(ZERO + d) as u8].add(out@));
        }
        out.insert(0, ZERO + d);
        v = v / 10;
        if w > 0 {
            w = w - 1;
        }
    }
    assert(padded_digits(0, 0) =~= Seq::<u8>::empty());
    assert(padded_digits(value as nat, width as nat) =~= out@);
    out
}

/// A byte sequence of ASCII codes is valid UTF-8.
pub proof fn lemma_ascii_valid_utf8(b: Seq<u8>)
    requires
        forall|i: int| 0 <= i < b.len() ==> #[trigger] b[i] < 0x80,
    ensures
        valid_utf8(b),
{
    let chars = Seq::new(b.len(), |i: int| b[i] as char);
    assert(is_ascii_chars(chars));
    is_ascii_chars_encode_utf8(chars);
    assert(encode_utf8(chars) =~= b);
    encode_utf8_valid_utf8(chars);
}

/// A data group whose name is valid UTF-8 is valid UTF-8.
pub proof fn lemma_data_group_valid_utf8(name: Seq<u8>, value: nat, width: nat)
    requires
        valid_utf8(name),
    ensures
        valid_utf8(data_group(name, value, width)),
{
    let body = checksummable(name, value, width);
    let digits = padded_digits(value, width);
    let head: Seq<u8> = seq![LF];
    let tail = seq![SP] + digits + seq![SP, checksum_of(body), CR];
    lemma_padded_digits_are_digits(value, width);
    crate::checksum::lemma_checksum_range(body);
    assert forall|i: int| 0 <= i < tail.len() implies #[trigger] tail[i] < 0x80 by {
        if 1 <= i < 1 + digits.len() {
            assert(tail[i] == digits[i - 1]);
        }
    }
    lemma_ascii_valid_utf8(head);
    lemma_ascii_valid_utf8(tail);
    valid_utf8_concat(head, name);
    valid_utf8_concat(head + name, tail);
    assert(data_group(name, value, width) =~= (head + name) + tail);
}

/// Data group, as bytes, for the field `name` holding `value`, padded to
/// `width` digits.
pub fn encode_group_bytes(name: &[u8], value: u64, width: usize) -> (r: Vec<u8>)
    requires
        width >= 1,
    ensures
        r@ == data_group(name@, value as nat, width as nat),
{
    let mut body: Vec<u8> = Vec::new();
    let mut i: usize = 0;
    while i < name.len()
        invariant
            i <= name@.len(),
            body@ == name@.subrange(0, i as int),
        decreases name@.len() - i,
    {
        body.push(name[i]);
        i = i + 1;
        assert(body@ =~= name@.subrange(0, i as int));
    }
    body.push(SP);
    let mut digits = format_padded(value, width);
    body.append(&mut digits);
    assert(body@ =~= checksummable(name@, value as nat, width as nat));
    let sum = checksum_byte(body.as_slice());
    let mut out: Vec<u8> = Vec::new();
    out.push(LF);
    out.append(&mut body);
    out.push(SP);
    out.push(sum);
    out.push(CR);
    assert(out@ =~= data_group(name@, value as nat, width as nat));
    out
}

/// Relies on `String::from_utf8`, which takes over the bytes of a vector
/// holding valid UTF-8 as the contents of the string.
#[verifier::external_body]
fn string_from_utf8(b: Vec<u8>) -> (s: String)
    requires
        valid_utf8(b@),
    ensures
        encode_utf8(s@) == b@,
{
    String::from_utf8(b).unwrap()
}

/// Data group for the field `name` holding `value`, padded to `width`
/// digits: `LF name SP digits SP checksum CR`. Its UTF-8 bytes are exactly
/// the data group over the UTF-8 bytes of `name`.
pub fn encode_group(name: &str, value: u64, width: usize) -> (r: String)
    requires
        width >= 1,
    ensures
        encode_utf8(r@) == data_group(encode_utf8(name@), value as nat, width as nat),
{
    let bytes = name.as_bytes();
    let group = encode_group_bytes(bytes, value, width);
    proof {
        encode_utf8_valid_utf8(name@);
        lemma_data_group_valid_utf8(encode_utf8(name@), value as nat, width as nat);
    }
    string_from_utf8(group)
}

/// Encoding depends on the name, the value and the width alone: two
/// encodings of the same inputs are the same bytes. When the value fits in
/// `width` digits, it is written with exactly `width` digits, and the group
/// is the name plus `width` plus five bytes long.
pub proof fn lemma_group_deterministic(
    name: Seq<u8>,
    value: nat,
    width: nat,
    r1: Seq<u8>,
    r2: Seq<u8>,
)
    requires
        value < pow10(width),
        r1 == data_group(name, value, width),
        r2 == data_group(name, value, width),
    ensures
        r1 == r2,
        padded_digits(value, width).len() == width,
        r1.len() == name.len() + width + 5,
{
    lemma_padded_digits_exact(value, width);
    let body = checksummable(name, value, width);
    assert(body.len() == name.len() + 1 + width);
    assert(r1.len() == 1 + body.len() + 3);
}

} // verus!
