//! The simulated meter: five counters, the frame built from them on each
//! tick, and the step from one tick to the next.
//!
//! Overflow policy: a value wider than its field is written with all of its
//! digits (the field grows, nothing is cut off), and a counter that reaches
//! `u64::MAX` wraps to zero on the next advance.
use vstd::prelude::*;
use crate::group::{
    checksummable, data_group, encode_group_bytes, lemma_padded_digits_are_digits, padded_digits,
    CR, LF, SP,
};
use crate::checksum::{checksum_of, lemma_checksum_range};

verus! {

/// Start of text, which opens a frame.
pub const STX: u8 = 0x02;

/// End of text, which closes a frame.
pub const ETX: u8 = 0x03;

/// Number of fields in a frame.
pub const FIELD_COUNT: usize = 5;

/// Name of field `i` in ASCII, in frame order: BASE, HCHC, HCHP, IINST,
/// PAPP.
pub open spec fn field_name(i: int) -> Seq<u8> {
    if i == 0 {
        seq![0x42u8, 0x41u8, 0x53u8, 0x45u8]
    } else if i == 1 {
        seq![0x48u8, 0x43u8, 0x48u8, 0x43u8]
    } else if i == 2 {
        seq![0x48u8, 0x43u8, 0x48u8, 0x50u8]
    } else if i == 3 {
        seq![0x49u8, 0x49u8, 0x4Eu8, 0x53u8, 0x54u8]
    } else {
        seq![0x50u8, 0x41u8, 0x50u8, 0x50u8]
    }
}

/// Number of digits of field `i`.
pub open spec fn field_width(i: int) -> nat {
    if i == 3 {
        3
    } else if i == 4 {
        5
    } else {
        9
    }
}

/// Value of field `i` when the meter starts.
pub open spec fn initial_value(i: int) -> u64 {
    if i == 0 {
        0
    } else if i == 1 {
        1111
    } else if i == 2 {
        2222
    } else if i == 3 {
        120
    } else {
        16254
    }
}

/// The counters of a meter that has just started.
pub open spec fn initial_values() -> Seq<u64> {
    Seq::new(FIELD_COUNT as nat, |i: int| initial_value(i))
}

/// A counter after one advance: one more, wrapping to zero past `u64::MAX`.
pub open spec fn next_value(v: u64) -> u64 {
    if v == u64::MAX {
        0
    } else {
        (v + 1) as u64
    }
}

/// Every counter advanced by one.
pub open spec fn advanced(values: Seq<u64>) -> Seq<u64> {
    Seq::new(values.len(), |i: int| next_value(values[i]))
}

/// The counters after `n` ticks.
pub open spec fn values_after(n: nat) -> Seq<u64>
    decreases n,
{
    if n == 0 {
        initial_values()
    } else {
        advanced(values_after((n - 1) as nat))
    }
}

/// Data group of field `i` for the counters `values`.
pub open spec fn field_group(values: Seq<u64>, i: int) -> Seq<u8> {
    data_group(field_name(i), values[i] as nat, field_width(i))
}

/// The data groups of the first `k` fields, in order.
pub open spec fn groups(values: Seq<u64>, k: nat) -> Seq<u8>
    decreases k,
{
    if k == 0 {
        Seq::empty()
    } else {
        groups(values, (k - 1) as nat) + field_group(values, k - 1)
    }
}

/// The frame for the counters `values`: STX, the five data groups, ETX.
pub open spec fn frame_of(values: Seq<u64>) -> Seq<u8> {
    seq![STX] + groups(values, FIELD_COUNT as nat) + seq![ETX]
}

/// Name of field `i`.
pub fn field_name_bytes(i: usize) -> (r: Vec<u8>)
    requires
        i < FIELD_COUNT,
    ensures
        r@ == field_name(i as int),
{
    let r = if i == 0 {
        vec![0x42u8, 0x41u8, 0x53u8, 0x45u8]
    } else if i == 1 {
        vec![0x48u8, 0x43u8, 0x48u8, 0x43u8]
    } else if i == 2 {
        vec![0x48u8, 0x43u8, 0x48u8, 0x50u8]
    } else if i == 3 {
        vec![0x49u8, 0x49u8, 0x4Eu8, 0x53u8, 0x54u8]
    } else {
        vec![0x50u8, 0x41u8, 0x50u8, 0x50u8]
    };
    assert(r@ =~= field_name(i as int));
    r
}

/// Number of digits of field `i`.
pub fn field_width_of(i: usize) -> (r: usize)
    requires
        i < FIELD_COUNT,
    ensures
        r == field_width(i as int),
{
    if i == 3 {
        3
    } else if i == 4 {
        5
    } else {
        9
    }
}

/// The counters of the simulated meter, one per field, in frame order.
pub struct Meter {
    values: Vec<u64>,
}

impl View for Meter {
    type V = Seq<u64>;

    closed spec fn view(&self) -> Seq<u64> {
        self.values@
    }
}

impl Meter {
    /// One counter per field.
    pub open spec fn wf(&self) -> bool {
        self@.len() == FIELD_COUNT
    }

    /// A meter with the fixed starting values.
    pub fn new() -> (r: Meter)
        ensures
            r.wf(),
            r@ == initial_values(),
    {
        let r = Meter { values: vec![0, 1111, 2222, 120, 16254] };
        assert(r@ =~= initial_values());
        r
    }

    /// Current value of field `i`.
    pub fn value(&self, i: usize) -> (r: u64)
        requires
            self.wf(),
            i < FIELD_COUNT,
        ensures
            r == self@[i as int],
    {
        self.values[i]
    }

    /// The frame for the current counters.
    pub fn frame(&self) -> (r: Vec<u8>)
        requires
            self.wf(),
        ensures
            r@ == frame_of(self@),
    {
        let mut out: Vec<u8> = Vec::new();
        out.push(STX);
        let mut k: usize = 0;
        while k < FIELD_COUNT
            invariant
                self.wf(),
                k <= FIELD_COUNT,
                out@ == seq![STX] + groups(self@, k as nat),
            decreases FIELD_COUNT - k,
        {
            let name = field_name_bytes(k);
            let mut group = encode_group_bytes(name.as_slice(), self.values[k], field_width_of(k));
            proof {
                assert(groups(self@, (k + 1) as nat) == groups(self@, k as nat) + field_group(
                    self@,
                    k as int,
                ));
            }
            out.append(&mut group);
            k = k + 1;
            assert(out@ =~= seq![STX] + groups(self@, k as nat));
        }
        out.push(ETX);
        assert(out@ =~= frame_of(self@));
        out
    }

    /// Advances every counter by one.
    pub fn advance(&mut self)
        requires
            old(self).wf(),
        ensures
            final(self).wf(),
            final(self)@ == advanced(old(self)@),
    {
        let mut k: usize = 0;
        while k < FIELD_COUNT
            invariant
                k <= FIELD_COUNT,
                self@.len() == FIELD_COUNT,
                forall|i: int| 0 <= i < k ==> self@[i] == next_value(old(self)@[i]),
                forall|i: int| k <= i < FIELD_COUNT ==> self@[i] == old(self)@[i],
            decreases FIELD_COUNT - k,
        {
            let v = self.values[k];
            let n = if v == u64::MAX {
                0
            } else {
                v + 1
            };
            self.values.set(k, n);
            k = k + 1;
        }
        assert(self@ =~= advanced(old(self)@));
    }

    /// One tick of the emission loop: the frame to write for the current
    /// counters, after which every counter has advanced by one.
    pub fn tick(&mut self) -> (r: Vec<u8>)
        requires
            old(self).wf(),
        ensures
            final(self).wf(),
            r@ == frame_of(old(self)@),
            final(self)@ == advanced(old(self)@),
    {
        let r = self.frame();
        self.advance();
        r
    }
}

/// Number of occurrences of the byte `b` in `s`.
pub open spec fn count_byte(s: Seq<u8>, b: u8) -> nat
    decreases s.len(),
{
    if s.len() == 0 {
        0
    } else {
        count_byte(s.drop_last(), b) + if s.last() == b {
            1nat
        } else {
            0nat
        }
    }
}

proof fn lemma_count_byte_concat(s: Seq<u8>, t: Seq<u8>, b: u8)
    ensures
        count_byte(s + t, b) == count_byte(s, b) + count_byte(t, b),
    decreases t.len(),
{
    if t.len() > 0 {
        lemma_count_byte_concat(s, t.drop_last(), b);
        assert((s + t).drop_last() =~= s + t.drop_last());
    } else {
        assert(s + t =~= s);
    }
}

proof fn lemma_count_byte_absent(s: Seq<u8>, b: u8)
    requires
        forall|i: int| 0 <= i < s.len() ==> #[trigger] s[i] != b,
    ensures
        count_byte(s, b) == 0,
    decreases s.len(),
{
    if s.len() > 0 {
        lemma_count_byte_absent(s.drop_last(), b);
    }
}

proof fn lemma_count_byte_single(x: u8, b: u8)
    ensures
        count_byte(seq![x], b) == if x == b {
            1nat
        } else {
            0nat
        },
{
    let s: Seq<u8> = seq![x];
    assert(s.drop_last() =~= Seq::<u8>::empty());
    assert(count_byte(s.drop_last(), b) == 0);
}

/// The data group of each field is LF, then bytes none of which is LF or
/// CR and which begin with the field's name, then CR.
pub proof fn lemma_field_group_shape(values: Seq<u64>, k: int)
    requires
        values.len() == FIELD_COUNT,
        0 <= k < FIELD_COUNT,
    ensures
        ({
            let g = field_group(values, k);
            let inner = g.subrange(1, g.len() - 1);
            &&& g.len() >= 2
            &&& g == seq![LF] + inner + seq![CR]
            &&& inner.subrange(0, field_name(k).len() as int) == field_name(k)
            &&& forall|i: int| 0 <= i < inner.len() ==> #[trigger] inner[i] >= SP
            &&& count_byte(g, LF) == 1
            &&& count_byte(g, CR) == 1
        }),
{
    let g = field_group(values, k);
    let name = field_name(k);
    let digits = padded_digits(values[k] as nat, field_width(k));
    let body = checksummable(name, values[k] as nat, field_width(k));
    let inner = body + seq![SP, checksum_of(body)];
    lemma_padded_digits_are_digits(values[k] as nat, field_width(k));
    lemma_checksum_range(body);
    assert(g =~= seq![LF] + inner + seq![CR]);
    assert(g.subrange(1, g.len() - 1) =~= inner);
    assert(inner.subrange(0, name.len() as int) =~= name);
    assert forall|i: int| 0 <= i < inner.len() implies #[trigger] inner[i] >= SP by {
        if i < name.len() {
            assert(inner[i] == name[i]);
        } else if name.len() < i < name.len() + 1 + digits.len() {
            assert(inner[i] == digits[i - name.len() - 1]);
        }
    }
    lemma_count_byte_absent(inner, LF);
    lemma_count_byte_absent(inner, CR);
    lemma_count_byte_concat(seq![LF], inner, LF);
    lemma_count_byte_concat(seq![LF] + inner, seq![CR], LF);
    lemma_count_byte_concat(seq![LF], inner, CR);
    lemma_count_byte_concat(seq![LF] + inner, seq![CR], CR);
    lemma_count_byte_single(LF, LF);
    lemma_count_byte_single(LF, CR);
    lemma_count_byte_single(CR, LF);
    lemma_count_byte_single(CR, CR);
}

proof fn lemma_groups_count(values: Seq<u64>, k: nat)
    requires
        values.len() == FIELD_COUNT,
        k <= FIELD_COUNT,
    ensures
        count_byte(groups(values, k), LF) == k,
        count_byte(groups(values, k), CR) == k,
    decreases k,
{
    if k > 0 {
        let j = (k - 1) as nat;
        lemma_groups_count(values, j);
        lemma_field_group_shape(values, j as int);
        lemma_count_byte_concat(groups(values, j), field_group(values, j as int), LF);
        lemma_count_byte_concat(groups(values, j), field_group(values, j as int), CR);
    } else {
        assert(groups(values, 0) =~= Seq::<u8>::empty());
    }
}

/// Every frame starts with STX and ends with ETX; between them stand the
/// data groups of BASE, HCHC, HCHP, IINST and PAPP, in that order, each
/// opened by LF and closed by CR, so that the frame holds exactly five LF
/// and five CR bytes.
pub proof fn lemma_frame_structure(values: Seq<u64>)
    requires
        values.len() == FIELD_COUNT,
    ensures
        frame_of(values)[0] == STX,
        frame_of(values).last() == ETX,
        frame_of(values) == seq![STX] + field_group(values, 0) + field_group(values, 1)
            + field_group(values, 2) + field_group(values, 3) + field_group(values, 4) + seq![ETX],
        count_byte(frame_of(values), LF) == FIELD_COUNT,
        count_byte(frame_of(values), CR) == FIELD_COUNT,
        forall|k: int|
            0 <= k < FIELD_COUNT ==> {
                let g = #[trigger] field_group(values, k);
                &&& g[0] == LF
                &&& g.last() == CR
                &&& g.subrange(1, 1 + field_name(k).len() as int) == field_name(k)
                &&& forall|i: int| 0 < i < g.len() - 1 ==> g[i] != LF && g[i] != CR
            },
{
    let f = frame_of(values);
    let g0 = field_group(values, 0);
    let g1 = field_group(values, 1);
    let g2 = field_group(values, 2);
    let g3 = field_group(values, 3);
    let g4 = field_group(values, 4);
    assert(groups(values, 1) =~= g0) by {
        assert(groups(values, 0) =~= Seq::<u8>::empty());
    }
    assert(groups(values, 2) == g0 + g1);
    assert(groups(values, 3) == g0 + g1 + g2);
    assert(groups(values, 4) == g0 + g1 + g2 + g3);
    assert(groups(values, 5) == g0 + g1 + g2 + g3 + g4);
    assert(f =~= seq![STX] + g0 + g1 + g2 + g3 + g4 + seq![ETX]);
    assert forall|k: int| 0 <= k < FIELD_COUNT implies {
        let g = #[trigger] field_group(values, k);
        &&& g[0] == LF
        &&& g.last() == CR
        &&& g.subrange(1, 1 + field_name(k).len() as int) == field_name(k)
        &&& forall|i: int| 0 < i < g.len() - 1 ==> g[i] != LF && g[i] != CR
    } by {
        lemma_field_group_shape(values, k);
        let g = field_group(values, k);
        let inner = g.subrange(1, g.len() - 1);
        assert(g.subrange(1, 1 + field_name(k).len() as int) =~= inner.subrange(
            0,
            field_name(k).len() as int,
        ));
        assert forall|i: int| 0 < i < g.len() - 1 implies g[i] != LF && g[i] != CR by {
            assert(g[i] == inner[i - 1]);
        }
    }
    lemma_groups_count(values, 5);
    let gs = groups(values, 5);
    let stx: Seq<u8> = seq![STX];
    let etx: Seq<u8> = seq![ETX];
    lemma_count_byte_single(STX, LF);
    lemma_count_byte_single(STX, CR);
    lemma_count_byte_single(ETX, LF);
    lemma_count_byte_single(ETX, CR);
    lemma_count_byte_concat(stx, gs, LF);
    lemma_count_byte_concat(stx + gs, etx, LF);
    lemma_count_byte_concat(stx, gs, CR);
    lemma_count_byte_concat(stx + gs, etx, CR);
}

/// After `n` ticks, as long as no counter has wrapped, every field holds
/// its starting value plus `n`, and that is the value written in the
/// field's data group of the frame of tick `n`.
pub proof fn lemma_counter_advance(n: nat)
    requires
        n + 16254 <= u64::MAX,
    ensures
        values_after(n).len() == FIELD_COUNT,
        forall|i: int|
            0 <= i < FIELD_COUNT ==> #[trigger] values_after(n)[i] == initial_value(i) + n,
        forall|i: int|
            0 <= i < FIELD_COUNT ==> #[trigger] field_group(values_after(n), i) == data_group(
                field_name(i),
                initial_value(i) as nat + n,
                field_width(i),
            ),
    decreases n,
{
    if n > 0 {
        lemma_counter_advance((n - 1) as nat);
    }
}

/// Building the frame twice for the same counters, without advancing them,
/// gives identical bytes.
pub proof fn lemma_frame_idempotent(values: Seq<u64>, f1: Seq<u8>, f2: Seq<u8>)
    requires
        values.len() == FIELD_COUNT,
        f1 == frame_of(values),
        f2 == frame_of(values),
    ensures
        f1 == f2,
{
}

} // verus!
