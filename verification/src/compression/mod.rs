//! Integer compression used by LiteArrow codecs: four version-zero algorithms
//! for `i64` columns and the size-based selector between them, plus the
//! boolean (`rle`, `bca`) and floating-point (`xor`) helpers.
use crate::math::{
    le_bytes, le_value, lemma_div_add_multiple, lemma_div_mod_window, lemma_div_pow2_bound,
    lemma_le_bytes_of_value, lemma_le_value_of_bytes, lemma_le_value_push, lemma_le_value_take,
    lemma_pow2_facts, lemma_pow2_le, lemma_pow2_mul,
};
use vstd::arithmetic::div_mod::*;
use vstd::arithmetic::power2::*;
use vstd::bits::*;
use vstd::prelude::*;

pub mod delta_bitpacked;
pub mod bca;
pub mod delta_of_delta;
pub mod frame_of_reference;
pub mod raw;
pub mod rle;
pub mod xor;

verus! {

/// How an `i64` column was compressed, with the parameters its decoder needs.
#[derive(Debug, Clone, Copy, PartialEq, Eq, Structural)]
pub enum Encoding {
    Raw,
    FrameOfReferenceBitPacked { minimum: i64, bit_width: u8 },
    DeltaBitPacked { first_value: i64, bit_width: u8 },
    DeltaOfDelta { first_value: i64, first_delta: i64, bit_width: u8 },
}

/// A compression error with a fixed description.
#[derive(Debug, Clone, Copy, PartialEq, Eq)]
pub struct Error(pub &'static str);

/// One algorithm's result: its encoding parameters and its bytes.
pub(crate) struct Candidate {
    pub encoding: Encoding,
    pub bytes: Vec<u8>,
}

// ---------------------------------------------------------------------------
// Selection
// ---------------------------------------------------------------------------

/// The candidate with fewer bytes; `first` wins a tie.
pub open spec fn smaller(first: (Encoding, Seq<u8>), second: Option<(Encoding, Seq<u8>)>) -> (
    Encoding,
    Seq<u8>,
) {
    match second {
        Some(c) => if c.1.len() < first.1.len() {
            c
        } else {
            first
        },
        None => first,
    }
}

/// The smallest of the raw, frame-of-reference, delta and delta-of-delta
/// candidates, earlier ones winning ties.
pub open spec fn spec_encode(values: Seq<i64>) -> (Encoding, Seq<u8>) {
    smaller(
        smaller(
            smaller((Encoding::Raw, raw::spec_raw_bytes(values)), Some(frame_of_reference::spec_for_candidate(values))),
            delta_bitpacked::spec_delta_candidate(values),
        ),
        delta_of_delta::spec_dod_candidate(values),
    )
}

/// The bit width an encoding carries is one the decoder can unpack.
pub open spec fn supported(encoding: Encoding) -> bool {
    match encoding {
        Encoding::Raw => true,
        Encoding::FrameOfReferenceBitPacked { bit_width, .. } => bit_width <= 64,
        Encoding::DeltaBitPacked { bit_width, .. } => bit_width <= 64,
        Encoding::DeltaOfDelta { bit_width, .. } => bit_width <= 64,
    }
}

/// What decoding `count` values stored with `encoding` gives.
pub open spec fn spec_decode(encoding: Encoding, bytes: Seq<u8>, count: nat) -> Result<Seq<i64>, Error> {
    match encoding {
        Encoding::Raw => raw::spec_raw_decode(bytes, count),
        Encoding::FrameOfReferenceBitPacked { minimum, bit_width } => frame_of_reference::spec_for_decode(
            bytes,
            count,
            minimum,
            bit_width as nat,
        ),
        Encoding::DeltaBitPacked { first_value, bit_width } => delta_bitpacked::spec_delta_decode(
            bytes,
            count,
            first_value,
            bit_width as nat,
        ),
        Encoding::DeltaOfDelta { first_value, first_delta, bit_width } => delta_of_delta::spec_dod_decode(
            bytes,
            count,
            first_value,
            first_delta,
            bit_width as nat,
        ),
    }
}

/// Decoding what `encode` produced gives the values back, whichever
/// algorithm won.
pub proof fn lemma_decode_encode(values: Seq<i64>)
    ensures
        supported(spec_encode(values).0),
        spec_decode(spec_encode(values).0, spec_encode(values).1, values.len()) == Ok::<
            Seq<i64>,
            Error,
        >(values),
{
    raw::lemma_raw_round_trip(values);
    frame_of_reference::lemma_for_round_trip(values);
    if delta_bitpacked::spec_delta_candidate(values) is Some {
        delta_bitpacked::lemma_delta_round_trip(values);
    }
    if delta_of_delta::spec_dod_candidate(values) is Some {
        delta_of_delta::lemma_dod_round_trip(values);
    }
}

/// The chosen encoding is never longer than the raw one, nor than any other
/// candidate.
pub proof fn lemma_encode_is_smallest(values: Seq<i64>)
    ensures
        spec_encode(values).1.len() <= 8 * values.len(),
        spec_encode(values).1.len() <= frame_of_reference::spec_for_candidate(values).1.len(),
        delta_bitpacked::spec_delta_candidate(values) matches Some(c) ==> spec_encode(values).1.len()
            <= c.1.len(),
        delta_of_delta::spec_dod_candidate(values) matches Some(c) ==> spec_encode(values).1.len()
            <= c.1.len(),
{
    raw::lemma_raw_bytes_len(values);
}

/// Tries every version-zero algorithm and keeps the smallest result. Candidate
/// order breaks equal-size ties in favor of the simpler decoder.
pub fn encode(values: &[i64]) -> (result: Result<(Encoding, Vec<u8>), Error>)
    ensures
        result matches Ok((encoding, bytes)) && (encoding, bytes@) == spec_encode(values@),
{
    let mut best = raw::encode(values);
    let frame = frame_of_reference::encode(values);
    if frame.bytes.len() < best.bytes.len() {
        best = frame;
    }
    match delta_bitpacked::encode(values) {
        Some(delta) => {
            if delta.bytes.len() < best.bytes.len() {
                best = delta;
            }
        },
        None => {},
    }
    match delta_of_delta::encode(values) {
        Some(delta_of_delta) => {
            if delta_of_delta.bytes.len() < best.bytes.len() {
                best = delta_of_delta;
            }
        },
        None => {},
    }
    Ok((best.encoding, best.bytes))
}

/// Decodes `value_count` values stored with `encoding`.
pub fn decode(encoding: Encoding, bytes: &[u8], value_count: usize) -> (result: Result<
    Vec<i64>,
    Error,
>)
    requires
        supported(encoding),
    ensures
        match result {
            Ok(values) => spec_decode(encoding, bytes@, value_count as nat) == Ok::<Seq<i64>, Error>(
                values@,
            ),
            Err(e) => spec_decode(encoding, bytes@, value_count as nat) == Err::<Seq<i64>, Error>(e),
        },
{
    match encoding {
        Encoding::Raw => raw::decode(bytes, value_count),
        Encoding::FrameOfReferenceBitPacked { minimum, bit_width } => {
            frame_of_reference::decode(bytes, value_count, minimum, bit_width)
        },
        Encoding::DeltaBitPacked { first_value, bit_width } => {
            delta_bitpacked::decode(bytes, value_count, first_value, bit_width)
        },
        Encoding::DeltaOfDelta { first_value, first_delta, bit_width } => {
            delta_of_delta::decode(bytes, value_count, first_value, first_delta, bit_width)
        },
    }
}

// ---------------------------------------------------------------------------
// Sequence extremes
// ---------------------------------------------------------------------------

/// Smallest value, or zero for an empty sequence.
pub open spec fn seq_min(values: Seq<i64>) -> i64
    decreases values.len(),
{
    if values.len() == 0 {
        0
    } else if values.len() == 1 {
        values[0]
    } else {
        let rest = seq_min(values.drop_last());
        if values.last() < rest {
            values.last()
        } else {
            rest
        }
    }
}

/// Largest value, or zero for an empty sequence.
pub open spec fn seq_max(values: Seq<u64>) -> u64
    decreases values.len(),
{
    if values.len() == 0 {
        0
    } else {
        let rest = seq_max(values.drop_last());
        if values.last() > rest {
            values.last()
        } else {
            rest
        }
    }
}

pub proof fn lemma_seq_min(values: Seq<i64>)
    ensures
        forall|i: int| 0 <= i < values.len() ==> seq_min(values) <= values[i],
        values.len() > 0 ==> exists|i: int| 0 <= i < values.len() && seq_min(values) == values[i],
    decreases values.len(),
{
    if values.len() > 1 {
        lemma_seq_min(values.drop_last());
        let rest = values.drop_last();
        assert forall|i: int| 0 <= i < values.len() implies seq_min(values) <= values[i] by {
            if i < rest.len() {
                assert(rest[i] == values[i]);
            }
        }
        if values.last() >= seq_min(rest) {
            let j = choose|j: int| 0 <= j < rest.len() && seq_min(rest) == rest[j];
            assert(values[j] == rest[j]);
        } else {
            assert(seq_min(values) == values[values.len() - 1]);
        }
    } else if values.len() == 1 {
        assert(seq_min(values) == values[0]);
    }
}

pub proof fn lemma_seq_max(values: Seq<u64>)
    ensures
        forall|i: int| 0 <= i < values.len() ==> values[i] <= seq_max(values),
    decreases values.len(),
{
    if values.len() > 0 {
        lemma_seq_max(values.drop_last());
        let rest = values.drop_last();
        assert forall|i: int| 0 <= i < values.len() implies values[i] <= seq_max(values) by {
            if i < rest.len() {
                assert(rest[i] == values[i]);
            }
        }
    }
}

fn minimum(values: &[i64]) -> (m: i64)
    ensures
        m == seq_min(values@),
{
    if values.len() == 0 {
        return 0;
    }
    let mut m = values[0];
    let mut i: usize = 1;
    proof {
        assert(values@.take(1) =~= seq![values[0]]);
    }
    while i < values.len()
        invariant
            1 <= i <= values.len(),
            m == seq_min(values@.take(i as int)),
        decreases values.len() - i,
    {
        proof {
            assert(values@.take(i + 1).drop_last() =~= values@.take(i as int));
        }
        if values[i] < m {
            m = values[i];
        }
        i = i + 1;
    }
    proof {
        assert(values@.take(i as int) =~= values@);
    }
    m
}

fn maximum(values: &[u64]) -> (m: u64)
    ensures
        m == seq_max(values@),
{
    let mut m: u64 = 0;
    let mut i: usize = 0;
    proof {
        assert(values@.take(0) =~= Seq::<u64>::empty());
    }
    while i < values.len()
        invariant
            i <= values.len(),
            m == seq_max(values@.take(i as int)),
        decreases values.len() - i,
    {
        proof {
            assert(values@.take(i + 1).drop_last() =~= values@.take(i as int));
        }
        if values[i] > m {
            m = values[i];
        }
        i = i + 1;
    }
    proof {
        assert(values@.take(i as int) =~= values@);
    }
    m
}

/// Bit width that holds every value, with the values packed at that width.
fn pack_minimal(values: &[u64]) -> (result: (u8, Vec<u8>))
    ensures
        result.0 as nat == bit_length(seq_max(values@) as nat),
        result.0 <= 64,
        fits_width(values@, result.0 as nat),
        result.1@ == spec_pack(values@, result.0 as nat),
{
    let bit_width = required_bits(maximum(values));
    proof {
        lemma_seq_max(values@);
        assert forall|i: int| 0 <= i < values@.len() implies (values@[i] as nat) < pow2(
            bit_width as nat,
        ) by {
            lemma_bit_length_monotonic(values@[i] as nat, seq_max(values@) as nat);
            lemma_bit_length_fits(values@[i] as nat, bit_width as nat);
        }
    }
    let bytes = pack(values, bit_width);
    (bit_width, bytes)
}

// ---------------------------------------------------------------------------
// Bit packing
// ---------------------------------------------------------------------------

/// Value of `values` laid out consecutively, `width` bits each, least
/// significant value first.
pub open spec fn packed_value(values: Seq<u64>, width: nat) -> nat
    decreases values.len(),
{
    if values.len() == 0 {
        0
    } else {
        packed_value(values.drop_last(), width) + values.last() as nat * pow2(
            width * (values.len() - 1) as nat,
        )
    }
}

/// Every value fits in `width` bits.
pub open spec fn fits_width(values: Seq<u64>, width: nat) -> bool {
    forall|i: int| 0 <= i < values.len() ==> (values[i] as nat) < pow2(width)
}

/// Number of bytes holding `count` fields of `width` bits.
pub open spec fn packed_byte_count(count: nat, width: nat) -> nat {
    (count * width + 7) / 8
}

/// The bytes that hold `values` packed `width` bits each.
pub open spec fn spec_pack(values: Seq<u64>, width: nat) -> Seq<u8> {
    le_bytes(packed_value(values, width), packed_byte_count(values.len(), width))
}

/// Field `i` of a packed byte string; bytes past its end read as zero.
pub open spec fn packed_field(bytes: Seq<u8>, width: nat, i: nat) -> nat {
    (le_value(bytes) / pow2(width * i)) % pow2(width)
}

/// The first `count` fields of a packed byte string.
pub open spec fn spec_unpack(bytes: Seq<u8>, count: nat, width: nat) -> Seq<u64> {
    Seq::new(count, |i: int| packed_field(bytes, width, i as nat) as u64)
}

pub proof fn lemma_packed_field_bound(bytes: Seq<u8>, width: nat, i: nat)
    requires
        width <= 64,
    ensures
        packed_field(bytes, width, i) < pow2(width),
        packed_field(bytes, width, i) < 0x1_0000_0000_0000_0000,
        (packed_field(bytes, width, i) as u64) as nat == packed_field(bytes, width, i),
{
    lemma_pow2_pos(width);
    lemma_pow2_le(width, 64);
    lemma_pow2_facts();
    lemma_mod_bound(le_value(bytes) as int / pow2(width * i) as int, pow2(width) as int);
}

proof fn lemma_packed_value_bound(values: Seq<u64>, width: nat)
    requires
        fits_width(values, width),
    ensures
        packed_value(values, width) < pow2(width * values.len()),
    decreases values.len(),
{
    lemma_pow2_pos(0);
    if values.len() > 0 {
        let n = (values.len() - 1) as nat;
        let rest = values.drop_last();
        lemma_packed_value_bound(rest, width);
        lemma_pow2_mul(width * n, width);
        let p = pow2(width * n);
        let v = values.last() as nat;
        assert(packed_value(rest, width) + v * p < p * pow2(width)) by (nonlinear_arith)
            requires
                packed_value(rest, width) < p,
                v < pow2(width),
                v + 1 <= pow2(width),
        ;
        assert(width * n + width == width * values.len()) by (nonlinear_arith)
            requires
                n + 1 == values.len(),
        ;
    }
}

/// Field `i` of the packed value is value `i`.
proof fn lemma_packed_value_field(values: Seq<u64>, width: nat, i: nat)
    requires
        fits_width(values, width),
        i < values.len(),
    ensures
        (packed_value(values, width) / pow2(width * i)) % pow2(width) == values[i as int],
    decreases values.len(),
{
    let n = (values.len() - 1) as nat;
    let rest = values.drop_last();
    let v = values.last() as nat;
    lemma_packed_value_bound(rest, width);
    lemma_pow2_pos(width);
    assert(rest.len() == n);
    if i == n {
        let p = pow2(width * n);
        lemma_pow2_pos(width * n);
        lemma_div_add_multiple(packed_value(rest, width), v, p);
        lemma_basic_div(packed_value(rest, width) as int, p as int);
        lemma_small_mod(v, pow2(width));
    } else {
        lemma_packed_value_field(rest, width, i);
        let k = (n - i - 1) as nat;
        assert(width * n == width * i + width * (n - i) as nat) by (nonlinear_arith)
            requires
                i < n,
        ;
        assert(width * (n - i) as nat == width + width * k) by (nonlinear_arith)
            requires
                k + 1 == n - i,
        ;
        lemma_pow2_mul(width * i, width * (n - i) as nat);
        lemma_pow2_mul(width, width * k);
        let d = pow2(width * i);
        let e = pow2(width * (n - i) as nat);
        assert(v * pow2(width * n) == (v * e) * d) by (nonlinear_arith)
            requires
                pow2(width * n) == d * e,
        ;
        lemma_div_add_multiple(packed_value(rest, width), v * e, d);
        assert(v * e == (v * pow2(width * k)) * pow2(width)) by (nonlinear_arith)
            requires
                e == pow2(width) * pow2(width * k),
        ;
        lemma_div_add_multiple(packed_value(rest, width) / d, v * pow2(width * k), pow2(width));
    }
}

/// Packing then unpacking gives the values back.
pub proof fn lemma_unpack_pack(values: Seq<u64>, width: nat)
    requires
        fits_width(values, width),
    ensures
        spec_unpack(spec_pack(values, width), values.len(), width) == values,
{
    let p = packed_value(values, width);
    let len = packed_byte_count(values.len(), width);
    lemma_le_value_of_bytes(p, len);
    lemma_packed_value_bound(values, width);
    assert(width * values.len() <= 8 * len) by (nonlinear_arith)
        requires
            len == (values.len() * width + 7) / 8,
    ;
    lemma_pow2_le(width * values.len(), 8 * len);
    lemma_pow2_pos(8 * len);
    lemma_small_mod(p, pow2(8 * len));
    assert forall|i: int| 0 <= i < values.len() implies spec_unpack(
        spec_pack(values, width),
        values.len(),
        width,
    )[i] == values[i] by {
        lemma_packed_value_field(values, width, i as nat);
    }
    assert(spec_unpack(spec_pack(values, width), values.len(), width) =~= values);
}

proof fn lemma_shl_one(shift: u8)
    requires
        shift < 64,
    ensures
        (1u128 << shift) == pow2(shift as nat),
{
    lemma_u64_pow2_no_overflow(shift as nat);
    lemma_u64_shl_is_mul(1u64, shift as u64);
    assert(((1u64 << (shift as u64)) as u128) == (1u128 << shift)) by (bit_vector)
        requires
            shift < 64,
    ;
}

/// OR-ing a value above the occupied bits of `pending` adds it.
proof fn lemma_or_above(pending: u128, value: u128, shift: u8)
    requires
        shift < 64,
        value <= 0xffff_ffff_ffff_ffff,
        pending < pow2(shift as nat),
    ensures
        pending | (value << shift) == pending + value * pow2(shift as nat),
{
    lemma_shl_one(shift);
    assert(pending | (value << shift) == pending + value * (1u128 << shift)) by (bit_vector)
        requires
            shift < 64,
            value <= 0xffff_ffff_ffff_ffff,
            pending < (1u128 << shift),
    ;
}

proof fn lemma_low_byte(pending: u128)
    ensures
        (pending as u8) as nat == pending % 256,
        pending >> 8u128 == pending / 256,
{
    assert((pending as u8) as u128 == pending % 256) by (bit_vector);
    assert(pending >> 8u128 == pending / 256) by (bit_vector);
}

/// Packs unsigned integers consecutively, least-significant bit first.
pub fn pack(values: &[u64], bit_width: u8) -> (output: Vec<u8>)
    requires
        bit_width <= 64,
    ensures
        output@.len() == packed_byte_count(values@.len(), bit_width as nat),
        fits_width(values@, bit_width as nat) ==> output@ == spec_pack(values@, bit_width as nat),
{
    let ghost width = bit_width as nat;
    let ghost fits = fits_width(values@, width);
    let mut output: Vec<u8> = Vec::with_capacity(packed_length(values.len(), bit_width));
    let mut pending: u128 = 0;
    let mut pending_bits: u8 = 0;
    let mut index: usize = 0;
    proof {
        lemma_pow2_facts();
        assert(values@.take(0) =~= Seq::<u64>::empty());
    }
    while index < values.len()
        invariant
            bit_width <= 64,
            width == bit_width as nat,
            fits == fits_width(values@, width),
            index <= values.len(),
            pending_bits < 8,
            8 * output.len() + pending_bits == width * index,
            fits ==> pending < pow2(pending_bits as nat),
            fits ==> packed_value(values@.take(index as int), width) == le_value(output@) + pending
                * pow2(8 * output.len() as nat),
        decreases values.len() - index,
    {
        let value = values[index];
        proof { if fits {
            lemma_or_above(pending, value as u128, pending_bits);
            let ghost out_len = output.len() as nat;
            assert(values@.take(index + 1).drop_last() =~= values@.take(index as int));
            lemma_pow2_mul(pending_bits as nat, 8 * out_len);
            assert(pending_bits as nat + 8 * out_len == width * index);
            let pv = packed_value(values@.take(index as int), width);
            assert(packed_value(values@.take(index + 1), width) == pv + value as nat * pow2(
                width * index as nat,
            ));
            assert(pv + value as nat * pow2(width * index as nat) == le_value(output@) + (pending
                + value as nat * pow2(pending_bits as nat)) * pow2(8 * out_len))
                by (nonlinear_arith)
                requires
                    pv == le_value(output@) + pending * pow2(8 * out_len),
                    pow2(pending_bits as nat) * pow2(8 * out_len) == pow2(width * index as nat),
            ;
            lemma_pow2_mul(pending_bits as nat, width);
            assert(pending + value as nat * pow2(pending_bits as nat) < pow2(
                (pending_bits + bit_width) as nat,
            )) by (nonlinear_arith)
                requires
                    pending < pow2(pending_bits as nat),
                    value < pow2(width),
                    value + 1 <= pow2(width),
                    pow2(pending_bits as nat) * pow2(width) == pow2((pending_bits + bit_width) as nat),
            ;
        } }
        pending = pending | ((value as u128) << pending_bits);
        pending_bits = pending_bits + bit_width;
        assert(width * index + width == width * (index + 1)) by (nonlinear_arith);
        while pending_bits >= 8
            invariant
                bit_width <= 64,
                pending_bits < 72,
                8 * output.len() + pending_bits == width * (index + 1),
                fits ==> pending < pow2(pending_bits as nat),
                fits ==> packed_value(values@.take(index + 1), width) == le_value(output@) + pending
                    * pow2(8 * output.len() as nat),
            decreases pending_bits,
        {
            proof { if fits {
                lemma_pow2_facts();
                lemma_low_byte(pending);
                lemma_le_value_push(output@, pending as u8);
                assert(8 + (pending_bits - 8) as nat == pending_bits as nat);
                let out_len = output.len() as nat;
                lemma_pow2_mul(8 * out_len, 8);
                lemma_pow2_mul(8, (pending_bits - 8) as nat);
                let low = pending % 256;
                let high = pending / 256;
                lemma_fundamental_div_mod(pending as int, 256);
                assert(le_value(output@) + pending * pow2(8 * out_len) == le_value(output@) + low
                    * pow2(8 * out_len) + high * pow2(8 * out_len + 8)) by (nonlinear_arith)
                    requires
                        pending == 256 * high + low,
                        pow2(8 * out_len) * 256 == pow2(8 * out_len + 8),
                ;
                lemma_div_pow2_bound(pending as nat, 8, (pending_bits - 8) as nat);
            } }
            output.push(pending as u8);
            pending = pending >> 8u128;
            pending_bits = pending_bits - 8;
        }
        index = index + 1;
    }
    proof {
        assert(values@.take(index as int) =~= values@);
        assert(width * index == values.len() * width) by (nonlinear_arith)
            requires
                index == values.len(),
        ;
    }
    if pending_bits != 0 {
        proof {
            if fits {
                lemma_pow2_le(pending_bits as nat, 8);
                lemma_low_byte(pending);
                lemma_small_mod(pending as nat, 256);
                lemma_le_value_push(output@, pending as u8);
            }
        }
        output.push(pending as u8);
    }
    proof {
        let total = width * values.len();
        assert(output.len() == (values.len() * width + 7) / 8);
        if fits {
            lemma_le_bytes_of_value(output@);
        }
    }
    output
}

/// Reads `value_count` fields of `bit_width` bits; missing bytes read as zero.
pub fn unpack(bytes: &[u8], value_count: usize, bit_width: u8) -> (values: Vec<u64>)
    requires
        bit_width <= 64,
    ensures
        values@ == spec_unpack(bytes@, value_count as nat, bit_width as nat),
{
    let ghost width = bit_width as nat;
    let mut values: Vec<u64> = Vec::new();
    let mut next: usize = 0;
    let ghost mut reads: nat = 0;
    let mut pending: u128 = 0;
    let mut pending_bits: u8 = 0;
    let mask: u64 = if bit_width == 0 {
        0
    } else if bit_width == 64 {
        u64::MAX
    } else {
        proof {
            lemma_u64_pow2_no_overflow(width);
            lemma_u64_shl_is_mul(1u64, bit_width as u64);
        }
        (1u64 << (bit_width as u64)) - 1
    };
    proof {
        lemma_pow2_facts();
        assert(bytes@.take(0) =~= Seq::<u8>::empty());
    }
    let mut produced: usize = 0;
    while produced < value_count
        invariant
            bit_width <= 64,
            width == bit_width as nat,
            0 < bit_width < 64 ==> mask == low_bits_mask(width),
            bit_width == 0 ==> mask == 0,
            bit_width == 64 ==> mask == u64::MAX,
            produced <= value_count,
            values@ == spec_unpack(bytes@, produced as nat, width),
            pending_bits < 8,
            next <= bytes.len(),
            next == bytes.len() || next == reads,
            next < bytes.len() ==> next == reads,
            reads >= next,
            8 * reads == width * produced + pending_bits,
            pending == le_value(bytes@.take(next as int)) / pow2(width * produced as nat),
            pending < pow2(pending_bits as nat),
        decreases value_count - produced,
    {
        while pending_bits < bit_width
            invariant
                bit_width <= 64,
                width == bit_width as nat,
                pending_bits < bit_width + 8,
                next <= bytes.len(),
                next < bytes.len() ==> next == reads,
                reads >= next,
                8 * reads == width * produced + pending_bits,
                pending == le_value(bytes@.take(next as int)) / pow2(width * produced as nat),
                pending < pow2(pending_bits as nat),
            decreases bit_width + 8 - pending_bits,
        {
            let byte: u8 = if next < bytes.len() {
                bytes[next]
            } else {
                0
            };
            proof {
                let before = le_value(bytes@.take(next as int));
                let after_next: int = if next < bytes.len() {
                    next + 1
                } else {
                    next as int
                };
                let after = le_value(bytes@.take(after_next));
                let shift = (8 * reads - width * produced as nat) as nat;
                assert(shift == pending_bits);
                lemma_pow2_mul(width * produced as nat, shift);
                if next < bytes.len() {
                    assert(bytes@.take(next + 1) =~= bytes@.take(next as int).push(byte));
                    lemma_le_value_push(bytes@.take(next as int), byte);
                    assert(after == before + byte as nat * pow2(8 * reads));
                } else {
                    assert(after == before + byte as nat * pow2(8 * reads));
                }
                let m = byte as nat * pow2(shift);
                assert(byte as nat * pow2(8 * reads) == m * pow2(width * produced as nat))
                    by (nonlinear_arith)
                    requires
                        m == byte as nat * pow2(shift),
                        pow2(width * produced as nat) * pow2(shift) == pow2(8 * reads),
                ;
                lemma_div_add_multiple(before, m, pow2(width * produced as nat));
                lemma_or_above(pending, byte as u128, pending_bits);
                lemma_pow2_mul(shift, 8);
                lemma_pow2_facts();
                assert(pending + m < pow2(shift + 8)) by (nonlinear_arith)
                    requires
                        pending < pow2(shift),
                        byte < 256,
                        m == byte as nat * pow2(shift),
                        pow2(shift) * 256 == pow2(shift + 8),
                ;
            }
            pending = pending | ((byte as u128) << pending_bits);
            pending_bits = pending_bits + 8;
            if next < bytes.len() {
                next = next + 1;
            }
            proof {
                reads = reads + 1;
            }
        }
        proof {
            let x = le_value(bytes@.take(next as int));
            let b = le_value(bytes@);
            let d = pow2(width * produced as nat);
            let e = pow2(width);
            let f = pow2((pending_bits - bit_width) as nat);
            lemma_pow2_mul(width * produced as nat, width);
            lemma_pow2_mul(width * produced as nat + width, (pending_bits - bit_width) as nat);
            assert(width * produced + width + (pending_bits - bit_width) == 8 * reads);
            if next == bytes.len() {
                assert(bytes@.take(next as int) =~= bytes@);
            } else {
                lemma_le_value_take(bytes@, next as nat);
                lemma_div_mod_window(b, d, e, f);
            }
            assert((b / d) % e == (x / d) % e);
        }
        let word: u64 = pending as u64;
        let value: u64 = word & mask;
        proof {
            lemma_pow2_facts();
            let ghost p = pending as nat;
            assert(word as nat == p % 0x1_0000_0000_0000_0000) by {
                assert((pending as u64) as u128 == pending % 0x1_0000_0000_0000_0000u128)
                    by (bit_vector);
            }
            if bit_width == 0 {
                assert(word & 0 == 0) by (bit_vector);
                assert(p % 1 == 0) by (nonlinear_arith);
            } else if bit_width == 64 {
                assert(word & 0xffff_ffff_ffff_ffffu64 == word) by (bit_vector);
            } else {
                lemma_u64_low_bits_mask_is_mod(word, width);
                lemma_u64_pow2_no_overflow(width);
                lemma_pow2_mul(width, (64 - width) as nat);
                lemma_mod_mod(p as int, pow2(width) as int, pow2((64 - width) as nat) as int);
            }
            assert(value as nat == p % pow2(width));
            lemma_u128_shr_is_div(pending, bit_width as u128);
            lemma_div_denominator(
                le_value(bytes@.take(next as int)) as int,
                pow2(width * produced as nat) as int,
                pow2(width) as int,
            );
            lemma_pow2_mul(width * produced as nat, width);
            assert(width * produced + width == width * (produced + 1)) by (nonlinear_arith);
            lemma_pow2_mul(width, (pending_bits - bit_width) as nat);
            lemma_div_pow2_bound(pending as nat, width, (pending_bits - bit_width) as nat);
        }
        values.push(value);
        pending = pending >> (bit_width as u128);
        pending_bits = pending_bits - bit_width;
        produced = produced + 1;
        proof {
            assert(values@ =~= spec_unpack(bytes@, produced as nat, width));
        }
    }
    values
}

/// Bytes needed for `value_count` fields of `bit_width` bits (the product
/// saturates at `usize::MAX`).
pub fn packed_length(value_count: usize, bit_width: u8) -> (length: usize)
    ensures
        length == (if value_count * bit_width <= usize::MAX {
            value_count * bit_width
        } else {
            usize::MAX as int
        } + 7) / 8,
{
    let bits: usize = match value_count.checked_mul(bit_width as usize) {
        Some(bits) => bits,
        None => usize::MAX,
    };
    bits / 8 + if bits % 8 != 0 {
        1
    } else {
        0
    }
}

/// Number of significant bits of `m`.
pub open spec fn bit_length(m: nat) -> nat
    decreases m,
{
    if m == 0 {
        0
    } else {
        1 + bit_length(m / 2)
    }
}

pub proof fn lemma_bit_length_bound(m: nat)
    ensures
        m < pow2(bit_length(m)),
        m > 0 ==> pow2((bit_length(m) - 1) as nat) <= m,
    decreases m,
{
    lemma_pow2_facts();
    if m > 0 {
        lemma_bit_length_bound(m / 2);
        lemma_pow2_unfold(bit_length(m));
        if m / 2 > 0 {
            lemma_pow2_unfold((bit_length(m) - 1) as nat);
        }
    }
}

/// A value fits in `w` bits exactly when `w` is at least its bit length.
pub proof fn lemma_bit_length_fits(m: nat, w: nat)
    ensures
        m < pow2(w) <==> bit_length(m) <= w,
{
    lemma_bit_length_bound(m);
    if bit_length(m) <= w {
        lemma_pow2_le(bit_length(m), w);
    } else {
        lemma_pow2_le(w, (bit_length(m) - 1) as nat);
    }
}

pub proof fn lemma_bit_length_monotonic(a: nat, b: nat)
    requires
        a <= b,
    ensures
        bit_length(a) <= bit_length(b),
{
    lemma_bit_length_fits(b, bit_length(b));
    lemma_bit_length_fits(a, bit_length(b));
}

proof fn lemma_leading_zeros(m: u64)
    ensures
        vstd::std_specs::bits::u64_leading_zeros(m) == 64 - bit_length(m as nat),
        bit_length(m as nat) <= 64,
    decreases m,
{
    reveal(vstd::std_specs::bits::u64_leading_zeros);
    if m > 0 {
        lemma_leading_zeros(m / 2);
        if bit_length(m as nat) > 64 {
            lemma_bit_length_fits(m as nat, 64);
            lemma_pow2_facts();
        }
    }
}

/// Bits needed to store `maximum`.
fn required_bits(maximum: u64) -> (bits: u8)
    ensures
        bits as nat == bit_length(maximum as nat),
        bits <= 64,
{
    proof {
        lemma_leading_zeros(maximum);
    }
    (64 - maximum.leading_zeros()) as u8
}

// ---------------------------------------------------------------------------
// Zigzag
// ---------------------------------------------------------------------------

/// Zigzag code: non-negative `v` maps to `2v`, negative `v` to `-2v - 1`.
pub open spec fn spec_zigzag(value: i64) -> nat {
    if value >= 0 {
        (2 * value) as nat
    } else {
        (-2 * value - 1) as nat
    }
}

/// Inverse of the zigzag code.
pub open spec fn spec_unzigzag(code: u64) -> int {
    if code % 2 == 0 {
        (code / 2) as int
    } else {
        -((code / 2) as int) - 1
    }
}

fn zigzag(value: i64) -> (code: u64)
    ensures
        code as nat == spec_zigzag(value),
{
    let code = ((value as u64) << 1u64) ^ ((value >> 63u64) as u64);
    assert(value >= 0 ==> code == 2 * value) by (bit_vector)
        requires
            code == ((value as u64) << 1u64) ^ ((value >> 63u64) as u64),
    ;
    assert(value < 0 ==> code == -2 * value - 1) by (bit_vector)
        requires
            code == ((value as u64) << 1u64) ^ ((value >> 63u64) as u64),
    ;
    code
}

fn unzigzag(code: u64) -> (value: i64)
    ensures
        value as int == spec_unzigzag(code),
{
    let low: i64 = (code & 1) as i64;
    assert(low == 0 || low == 1) by (bit_vector)
        requires
            low == (code & 1) as i64,
    ;
    let sign: i64 = -low;
    let value = ((code >> 1u64) as i64) ^ sign;
    assert(code % 2 == 0 ==> value == code / 2) by (bit_vector)
        requires
            low == (code & 1) as i64,
            sign == -low,
            value == ((code >> 1u64) as i64) ^ sign,
    ;
    assert(code % 2 == 1 ==> value == -(code / 2) - 1) by (bit_vector)
        requires
            low == (code & 1) as i64,
            sign == -low,
            value == ((code >> 1u64) as i64) ^ sign,
    ;
    value
}

/// `x` fits in an `i64`.
pub open spec fn in_i64(x: int) -> bool {
    i64::MIN <= x <= i64::MAX
}

/// Every element fits in an `i64`.
pub open spec fn all_in_i64(xs: Seq<int>) -> bool {
    forall|i: int| 0 <= i < xs.len() ==> in_i64(#[trigger] xs[i])
}

/// First value, or zero for an empty column.
pub open spec fn first_or_zero(values: Seq<i64>) -> i64 {
    if values.len() == 0 {
        0
    } else {
        values[0]
    }
}

/// Differences between neighbours: `values[i + 1] - values[i]`.
pub open spec fn differences(values: Seq<int>) -> Seq<int> {
    Seq::new(
        if values.len() == 0 {
            0
        } else {
            (values.len() - 1) as nat
        },
        |i: int| values[i + 1] - values[i],
    )
}

/// A column read as mathematical integers.
pub open spec fn as_ints(values: Seq<i64>) -> Seq<int> {
    Seq::new(values.len(), |i: int| values[i] as int)
}

/// Zigzag codes of values that fit in an `i64`.
pub open spec fn zigzag_codes(xs: Seq<int>) -> Seq<u64> {
    Seq::new(xs.len(), |i: int| spec_zigzag(xs[i] as i64) as u64)
}

/// The first `count` packed fields read as zigzag codes.
pub open spec fn unzigzag_fields(bytes: Seq<u8>, count: nat, width: nat) -> Seq<int> {
    Seq::new(count, |i: int| spec_unzigzag(packed_field(bytes, width, i as nat) as u64))
}

/// Zigzag codes packed at their minimal width read back as the values they came from.
pub proof fn lemma_zigzag_pack_round_trip(xs: Seq<int>)
    requires
        all_in_i64(xs),
    ensures
        bit_length(seq_max(zigzag_codes(xs)) as nat) <= 64,
        unzigzag_fields(
            spec_pack(zigzag_codes(xs), bit_length(seq_max(zigzag_codes(xs)) as nat)),
            xs.len(),
            bit_length(seq_max(zigzag_codes(xs)) as nat),
        ) == xs,
{
    let codes = zigzag_codes(xs);
    let width = bit_length(seq_max(codes) as nat);
    lemma_seq_max(codes);
    lemma_bit_length_fits(seq_max(codes) as nat, 64);
    lemma_pow2_facts();
    assert forall|i: int| 0 <= i < codes.len() implies (codes[i] as nat) < pow2(width) by {
        lemma_bit_length_monotonic(codes[i] as nat, seq_max(codes) as nat);
        lemma_bit_length_fits(codes[i] as nat, width);
    }
    lemma_unpack_pack(codes, width);
    let bytes = spec_pack(codes, width);
    assert forall|i: int| 0 <= i < xs.len() implies unzigzag_fields(bytes, xs.len(), width)[i]
        == xs[i] by {
        assert(spec_unpack(bytes, xs.len(), width)[i] == codes[i]);
        lemma_packed_field_bound(bytes, width, i as nat);
        assert(in_i64(xs[i]));
        lemma_unzigzag_zigzag(xs[i] as i64);
    }
    assert(unzigzag_fields(bytes, xs.len(), width) =~= xs);
}

/// The zigzag code is undone by its inverse.
pub proof fn lemma_unzigzag_zigzag(value: i64)
    ensures
        spec_zigzag(value) <= u64::MAX,
        spec_unzigzag(spec_zigzag(value) as u64) == value,
{
}

/// The zigzag code undoes its inverse: together they pair every `i64` with
/// one `u64`.
pub proof fn lemma_zigzag_unzigzag(code: u64)
    ensures
        in_i64(spec_unzigzag(code)),
        spec_zigzag(spec_unzigzag(code) as i64) == code,
{
}

/// Every difference between neighbours fits in an `i64`.
pub open spec fn neighbour_differences_fit(values: Seq<i64>) -> bool {
    forall|i: int|
        0 <= i < values.len() - 1 ==> i64::MIN <= #[trigger] values[i + 1] - values[i] <= i64::MAX
}

/// Every change between consecutive differences fits in an `i64`.
pub open spec fn difference_changes_fit(values: Seq<i64>) -> bool {
    forall|i: int|
        0 <= i < values.len() - 2 ==> i64::MIN <= (values[i + 2] - values[i + 1]) - (#[trigger] values[
            i + 1] - values[i]) <= i64::MAX
}

/// The delta candidate is offered for every column whose neighbour
/// differences fit in an `i64`, and the selector's result is never longer.
pub proof fn lemma_delta_offered(values: Seq<i64>)
    requires
        neighbour_differences_fit(values),
    ensures
        delta_bitpacked::spec_delta_candidate(values) is Some,
        spec_encode(values).1.len() <= delta_bitpacked::spec_delta_candidate(values)->Some_0.1.len(),
{
    let deltas = differences(as_ints(values));
    assert forall|i: int| 0 <= i < deltas.len() implies in_i64(#[trigger] deltas[i]) by {
        assert(deltas[i] == values[i + 1] - values[i]);
    }
    lemma_encode_is_smallest(values);
}

/// The delta-of-delta candidate is offered for every column whose neighbour
/// differences and changes between them fit in an `i64`, whatever its
/// length, and the selector's result is never longer.
pub proof fn lemma_delta_of_delta_offered(values: Seq<i64>)
    requires
        neighbour_differences_fit(values),
        difference_changes_fit(values),
    ensures
        delta_of_delta::spec_dod_candidate(values) is Some,
        spec_encode(values).1.len() <= delta_of_delta::spec_dod_candidate(values)->Some_0.1.len(),
{
    let deltas = differences(as_ints(values));
    let changes = differences(deltas);
    assert forall|i: int| 0 <= i < deltas.len() implies in_i64(#[trigger] deltas[i]) by {
        assert(deltas[i] == values[i + 1] - values[i]);
    }
    assert forall|i: int| 0 <= i < changes.len() implies in_i64(#[trigger] changes[i]) by {
        assert(changes[i] == deltas[i + 1] - deltas[i]);
        assert(deltas[i + 1] == values[i + 2] - values[i + 1]);
        assert(deltas[i] == values[i + 1] - values[i]);
    }
    if values.len() >= 2 {
        assert(values[1] - values[0] == values[0int + 1] - values[0int]);
    }
    lemma_encode_is_smallest(values);
}

/// Codes packed at the bit length of their largest: every code fits, the
/// width is the fewest that holds them all, and the bytes are just enough.
proof fn lemma_codes_packed_tightly(codes: Seq<u64>)
    ensures
        ({
            let width = bit_length(seq_max(codes) as nat);
            &&& width <= 64
            &&& forall|i: int| 0 <= i < codes.len() ==> (#[trigger] codes[i] as nat) < pow2(width)
            &&& width > 0 ==> exists|i: int|
                0 <= i < codes.len() && codes[i] as nat >= pow2((width - 1) as nat)
            &&& spec_pack(codes, width).len() == (codes.len() * width + 7) / 8
        }),
{
    let top = seq_max(codes);
    let width = bit_length(top as nat);
    lemma_seq_max(codes);
    lemma_seq_max_attained(codes);
    lemma_bit_length_bound(top as nat);
    lemma_bit_length_fits(top as nat, 64);
    lemma_pow2_facts();
    assert forall|i: int| 0 <= i < codes.len() implies (#[trigger] codes[i] as nat) < pow2(width) by {
        lemma_bit_length_monotonic(codes[i] as nat, top as nat);
        lemma_bit_length_fits(codes[i] as nat, width);
    }
    crate::math::lemma_le_bytes_len(packed_value(codes, width), packed_byte_count(codes.len(), width));
}

/// The delta candidate keeps the first value and packs the zigzag code of
/// each neighbour difference at the fewest bits that hold every one of them.
pub proof fn lemma_delta_is_tight(values: Seq<i64>)
    requires
        neighbour_differences_fit(values),
    ensures
        delta_bitpacked::spec_delta_candidate(values) matches Some((encoding, bytes)) && {
            &&& encoding matches Encoding::DeltaBitPacked { first_value, bit_width } && {
                &&& values.len() > 0 ==> first_value == values[0]
                &&& forall|i: int|
                    0 <= i < values.len() - 1 ==> spec_zigzag(
                        (#[trigger] values[i + 1] - values[i]) as i64,
                    ) < pow2(bit_width as nat)
                &&& bit_width > 0 ==> exists|i: int|
                    0 <= i < values.len() - 1 && spec_zigzag(
                        (values[i + 1] - #[trigger] values[i]) as i64,
                    ) >= pow2((bit_width - 1) as nat)
                &&& values.len() > 0 ==> bytes.len() == ((values.len() - 1) * bit_width + 7) / 8
                &&& values.len() == 0 ==> bytes.len() == 0
            }
        },
{
    let deltas = differences(as_ints(values));
    assert forall|i: int| 0 <= i < deltas.len() implies in_i64(#[trigger] deltas[i]) by {
        assert(deltas[i] == values[i + 1] - values[i]);
    }
    let codes = zigzag_codes(deltas);
    let width = bit_length(seq_max(codes) as nat);
    lemma_codes_packed_tightly(codes);
    assert forall|i: int| 0 <= i < values.len() - 1 implies spec_zigzag(
        (#[trigger] values[i + 1] - values[i]) as i64,
    ) < pow2(width) by {
        assert(codes[i] as nat == spec_zigzag(deltas[i] as i64));
        assert(deltas[i] == values[i + 1] - values[i]);
    }
    if width > 0 {
        let j = choose|j: int| 0 <= j < codes.len() && codes[j] as nat >= pow2((width - 1) as nat);
        assert(codes[j] as nat == spec_zigzag(deltas[j] as i64));
        assert(deltas[j] == values[j + 1] - values[j]);
    }
}

/// The delta-of-delta candidate keeps the first value and the first
/// difference, and packs the zigzag code of each change between consecutive
/// differences at the fewest bits that hold every one of them.
pub proof fn lemma_delta_of_delta_is_tight(values: Seq<i64>)
    requires
        neighbour_differences_fit(values),
        difference_changes_fit(values),
    ensures
        delta_of_delta::spec_dod_candidate(values) matches Some((encoding, bytes)) && {
            &&& encoding matches Encoding::DeltaOfDelta { first_value, first_delta, bit_width } && {
                &&& values.len() > 0 ==> first_value == values[0]
                &&& values.len() > 1 ==> first_delta == values[1] - values[0]
                &&& values.len() <= 1 ==> first_delta == 0
                &&& forall|i: int|
                    0 <= i < values.len() - 2 ==> spec_zigzag(
                        ((values[i + 2] - values[i + 1]) - (#[trigger] values[i + 1] - values[i])) as i64,
                    ) < pow2(bit_width as nat)
                &&& bit_width > 0 ==> exists|i: int|
                    0 <= i < values.len() - 2 && spec_zigzag(
                        ((values[i + 2] - values[i + 1]) - (values[i + 1] - #[trigger] values[i])) as i64,
                    ) >= pow2((bit_width - 1) as nat)
                &&& values.len() > 1 ==> bytes.len() == ((values.len() - 2) * bit_width + 7) / 8
                &&& values.len() <= 1 ==> bytes.len() == 0
            }
        },
{
    lemma_delta_of_delta_offered(values);
    let deltas = differences(as_ints(values));
    let changes = differences(deltas);
    let codes = zigzag_codes(changes);
    let width = bit_length(seq_max(codes) as nat);
    lemma_codes_packed_tightly(codes);
    assert forall|i: int| 0 <= i < values.len() - 2 implies spec_zigzag(
        ((values[i + 2] - values[i + 1]) - (#[trigger] values[i + 1] - values[i])) as i64,
    ) < pow2(width) by {
        assert(codes[i] as nat == spec_zigzag(changes[i] as i64));
        assert(changes[i] == deltas[i + 1] - deltas[i]);
        assert(deltas[i + 1] == values[i + 2] - values[i + 1]);
        assert(deltas[i] == values[i + 1] - values[i]);
    }
    if width > 0 {
        let j = choose|j: int| 0 <= j < codes.len() && codes[j] as nat >= pow2((width - 1) as nat);
        assert(codes[j] as nat == spec_zigzag(changes[j] as i64));
        assert(changes[j] == deltas[j + 1] - deltas[j]);
        assert(deltas[j + 1] == values[j + 2] - values[j + 1]);
        assert(deltas[j] == values[j + 1] - values[j]);
    }
}

/// The largest value is one of the values, or zero when there are none.
pub proof fn lemma_seq_max_attained(values: Seq<u64>)
    ensures
        values.len() == 0 ==> seq_max(values) == 0,
        values.len() > 0 ==> exists|i: int| 0 <= i < values.len() && seq_max(values) == values[i],
    decreases values.len(),
{
    if values.len() > 0 {
        let rest = values.drop_last();
        lemma_seq_max_attained(rest);
        if values.last() <= seq_max(rest) && rest.len() > 0 {
            let j = choose|j: int| 0 <= j < rest.len() && seq_max(rest) == rest[j];
            assert(values[j] == rest[j]);
        } else {
            assert(seq_max(values) == values[values.len() - 1]);
        }
    }
}

/// The frame-of-reference candidate subtracts the smallest value and packs
/// the offsets at the fewest bits that hold the largest of them.
pub proof fn lemma_frame_of_reference_is_tight(values: Seq<i64>)
    ensures
        ({
            let (encoding, bytes) = frame_of_reference::spec_for_candidate(values);
            &&& encoding matches Encoding::FrameOfReferenceBitPacked { minimum, bit_width } && {
                &&& forall|i: int| 0 <= i < values.len() ==> minimum <= #[trigger] values[i]
                &&& values.len() > 0 ==> exists|i: int| 0 <= i < values.len() && values[i] == minimum
                &&& forall|i: int|
                    0 <= i < values.len() ==> #[trigger] values[i] - minimum < pow2(bit_width as nat)
                &&& bit_width > 0 ==> exists|i: int|
                    0 <= i < values.len() && values[i] - minimum >= pow2((bit_width - 1) as nat)
                &&& bytes.len() == (values.len() * bit_width + 7) / 8
            }
        }),
{
    let base = seq_min(values);
    let offs = frame_of_reference::offsets(values, base);
    let top = seq_max(offs);
    let width = bit_length(top as nat);
    lemma_seq_min(values);
    lemma_seq_max(offs);
    lemma_seq_max_attained(offs);
    lemma_bit_length_bound(top as nat);
    lemma_bit_length_fits(top as nat, 64);
    lemma_pow2_facts();
    assert forall|i: int| 0 <= i < values.len() implies #[trigger] values[i] - base < pow2(width) by {
        assert(offs[i] == values[i] - base);
    }
    if width > 0 {
        let j = choose|j: int| 0 <= j < offs.len() && top == offs[j];
        assert(offs[j] == values[j] - base);
    }
    crate::math::lemma_le_bytes_len(packed_value(offs, width), packed_byte_count(offs.len(), width));
}

} // verus!
