//! Frame of reference: every value minus the column minimum, bit-packed.
use super::{
    bit_length, fits_width, lemma_seq_max, lemma_seq_min, lemma_unpack_pack, minimum, pack_minimal,
    packed_field, seq_max, seq_min, spec_pack, spec_unpack, unpack, Candidate, Encoding, Error,
};
use vstd::prelude::*;

verus! {

/// Offsets of `values` above `base`.
pub open spec fn offsets(values: Seq<i64>, base: i64) -> Seq<u64> {
    Seq::new(values.len(), |i: int| (values[i] - base) as u64)
}

/// The frame-of-reference candidate for `values`.
pub open spec fn spec_for_candidate(values: Seq<i64>) -> (Encoding, Seq<u8>) {
    let base = seq_min(values);
    let offs = offsets(values, base);
    let width = bit_length(seq_max(offs) as nat);
    (Encoding::FrameOfReferenceBitPacked { minimum: base, bit_width: width as u8 }, spec_pack(offs, width))
}

/// Value `i` of a frame-of-reference column: the base plus field `i`.
pub open spec fn for_value(bytes: Seq<u8>, base: i64, width: nat, i: int) -> int {
    base + packed_field(bytes, width, i as nat)
}

/// What decoding `count` frame-of-reference values gives.
pub open spec fn spec_for_decode(bytes: Seq<u8>, count: nat, base: i64, width: nat) -> Result<
    Seq<i64>,
    Error,
> {
    if exists|i: int| 0 <= i < count && #[trigger] for_value(bytes, base, width, i) > i64::MAX {
        Err(Error("frame-of-reference value overflow"))
    } else {
        Ok(Seq::new(count, |i: int| for_value(bytes, base, width, i) as i64))
    }
}

/// Decoding the frame-of-reference candidate gives the values back.
pub proof fn lemma_for_round_trip(values: Seq<i64>)
    ensures
        ({
            let (encoding, bytes) = spec_for_candidate(values);
            let base = seq_min(values);
            let width = bit_length(seq_max(offsets(values, base)) as nat);
            &&& width <= 64
            &&& encoding == Encoding::FrameOfReferenceBitPacked { minimum: base, bit_width: width as u8 }
            &&& spec_for_decode(bytes, values.len(), base, width) == Ok::<Seq<i64>, Error>(values)
        }),
{
    let base = seq_min(values);
    let offs = offsets(values, base);
    let width = bit_length(seq_max(offs) as nat);
    lemma_seq_min(values);
    lemma_seq_max(offs);
    super::lemma_bit_length_fits(seq_max(offs) as nat, 64);
    vstd::arithmetic::power2::lemma2_to64();
    assert(width <= 64);
    assert forall|i: int| 0 <= i < offs.len() implies (offs[i] as nat) < vstd::arithmetic::power2::pow2(width) by {
        super::lemma_bit_length_monotonic(offs[i] as nat, seq_max(offs) as nat);
        super::lemma_bit_length_fits(offs[i] as nat, width);
    }
    lemma_unpack_pack(offs, width);
    let bytes = spec_pack(offs, width);
    let fields = spec_unpack(bytes, values.len(), width);
    assert(fields == offs);
    assert forall|i: int| 0 <= i < values.len() implies #[trigger] for_value(bytes, base, width, i)
        == values[i] by {
        assert(fields[i] == offs[i]);
        assert(fields[i] == packed_field(bytes, width, i as nat) as u64);
        super::lemma_packed_field_bound(bytes, width, i as nat);
    }
    assert(Seq::new(values.len(), |i: int| for_value(bytes, base, width, i) as i64) =~= values);
    assert(!exists|i: int| 0 <= i < values.len() && #[trigger] for_value(bytes, base, width, i) > i64::MAX);
    assert(spec_for_decode(bytes, values.len(), base, width) == Ok::<Seq<i64>, Error>(values));
    assert(spec_for_candidate(values).1 == bytes);
}

pub(super) fn encode(values: &[i64]) -> (candidate: Candidate)
    ensures
        (candidate.encoding, candidate.bytes@) == spec_for_candidate(values@),
{
    let base = minimum(values);
    proof {
        lemma_seq_min(values@);
    }
    let mut offs: Vec<u64> = Vec::new();
    let mut i: usize = 0;
    while i < values.len()
        invariant
            i <= values.len(),
            base == seq_min(values@),
            forall|j: int| 0 <= j < values.len() ==> base <= values@[j],
            offs@ == offsets(values@.take(i as int), base),
        decreases values.len() - i,
    {
        let offset = (values[i] as i128 - base as i128) as u64;
        offs.push(offset);
        i = i + 1;
        proof {
            assert(offs@ =~= offsets(values@.take(i as int), base));
        }
    }
    proof {
        assert(values@.take(i as int) =~= values@);
    }
    let (bit_width, bytes) = pack_minimal(&offs);
    Candidate { encoding: Encoding::FrameOfReferenceBitPacked { minimum: base, bit_width }, bytes }
}

pub(super) fn decode(bytes: &[u8], value_count: usize, base: i64, bit_width: u8) -> (result: Result<
    Vec<i64>,
    Error,
>)
    requires
        bit_width <= 64,
    ensures
        match result {
            Ok(values) => spec_for_decode(bytes@, value_count as nat, base, bit_width as nat) == Ok::<
                Seq<i64>,
                Error,
            >(values@),
            Err(e) => spec_for_decode(bytes@, value_count as nat, base, bit_width as nat) == Err::<
                Seq<i64>,
                Error,
            >(e),
        },
{
    let fields = unpack(bytes, value_count, bit_width);
    let ghost spec_fields = spec_unpack(bytes@, value_count as nat, bit_width as nat);
    let mut values: Vec<i64> = Vec::new();
    let mut i: usize = 0;
    while i < value_count
        invariant
            fields@ == spec_fields,
            spec_fields == spec_unpack(bytes@, value_count as nat, bit_width as nat),
            i <= value_count,
            bit_width <= 64,
            forall|j: int| 0 <= j < i ==> for_value(bytes@, base, bit_width as nat, j) <= i64::MAX,
            values@ == Seq::new(i as nat, |j: int| for_value(bytes@, base, bit_width as nat, j) as i64),
        decreases value_count - i,
    {
        proof {
            super::lemma_packed_field_bound(bytes@, bit_width as nat, i as nat);
            assert(fields@[i as int] == packed_field(bytes@, bit_width as nat, i as nat) as u64);
        }
        let value: i128 = base as i128 + fields[i] as i128;
        if value > i64::MAX as i128 || value < i64::MIN as i128 {
            proof {
                assert(for_value(bytes@, base, bit_width as nat, i as int) > i64::MAX);
            }
            return Err(Error("frame-of-reference value overflow"));
        }
        values.push(value as i64);
        i = i + 1;
        proof {
            assert(values@ =~= Seq::new(
                i as nat,
                |j: int| for_value(bytes@, base, bit_width as nat, j) as i64,
            ));
        }
    }
    Ok(values)
}

} // verus!
