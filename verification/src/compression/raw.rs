//! Raw encoding: eight little-endian two's complement bytes per value.
use super::{Candidate, Encoding, Error};
use crate::le::{lemma_u64_bits, read_i64, write_i64};
use crate::math::{
    i64_of_bits, le_bytes, le_value, lemma_le_bytes_len, lemma_le_value_of_bytes, lemma_pow2_facts,
    u64_bits,
};
use vstd::prelude::*;

verus! {

/// Raw bytes of `values`.
pub open spec fn spec_raw_bytes(values: Seq<i64>) -> Seq<u8>
    decreases values.len(),
{
    if values.len() == 0 {
        seq![]
    } else {
        spec_raw_bytes(values.drop_last()) + le_bytes(u64_bits(values.last()), 8)
    }
}

/// The value stored in bytes `8 * i .. 8 * i + 8`.
pub open spec fn raw_value(bytes: Seq<u8>, i: int) -> i64 {
    i64_of_bits(le_value(bytes.subrange(8 * i, 8 * i + 8))) as i64
}

/// What decoding `count` raw values from `bytes` gives.
pub open spec fn spec_raw_decode(bytes: Seq<u8>, count: nat) -> Result<Seq<i64>, Error> {
    if bytes.len() != count * 8 {
        Err(Error("invalid raw value length"))
    } else {
        Ok(Seq::new(count, |i: int| raw_value(bytes, i)))
    }
}

pub proof fn lemma_raw_bytes_layout(values: Seq<i64>, i: int)
    requires
        0 <= i < values.len(),
    ensures
        spec_raw_bytes(values).len() == 8 * values.len(),
        spec_raw_bytes(values).subrange(8 * i, 8 * i + 8) == le_bytes(u64_bits(values[i]), 8),
    decreases values.len(),
{
    let n = values.len() - 1;
    let rest = values.drop_last();
    lemma_le_bytes_len(u64_bits(values.last()), 8);
    lemma_raw_bytes_len(rest);
    if i < n {
        lemma_raw_bytes_layout(rest, i);
        assert(spec_raw_bytes(values).subrange(8 * i, 8 * i + 8) =~= spec_raw_bytes(rest).subrange(
            8 * i,
            8 * i + 8,
        ));
    } else {
        assert(spec_raw_bytes(values).subrange(8 * i, 8 * i + 8) =~= le_bytes(
            u64_bits(values.last()),
            8,
        ));
    }
}

pub proof fn lemma_raw_bytes_len(values: Seq<i64>)
    ensures
        spec_raw_bytes(values).len() == 8 * values.len(),
    decreases values.len(),
{
    if values.len() > 0 {
        lemma_raw_bytes_len(values.drop_last());
        lemma_le_bytes_len(u64_bits(values.last()), 8);
    }
}

/// Raw decoding gives back the raw-encoded values.
pub proof fn lemma_raw_round_trip(values: Seq<i64>)
    ensures
        spec_raw_decode(spec_raw_bytes(values), values.len()) == Ok::<Seq<i64>, Error>(values),
{
    lemma_raw_bytes_len(values);
    lemma_pow2_facts();
    let bytes = spec_raw_bytes(values);
    assert forall|i: int| 0 <= i < values.len() implies raw_value(bytes, i) == values[i] by {
        lemma_raw_bytes_layout(values, i);
        lemma_le_value_of_bytes(u64_bits(values[i]), 8);
        lemma_u64_bits(values[i]);
        vstd::arithmetic::div_mod::lemma_small_mod(u64_bits(values[i]), 0x1_0000_0000_0000_0000);
    }
    assert(Seq::new(values.len(), |i: int| raw_value(bytes, i)) =~= values);
}

pub(super) fn encode(values: &[i64]) -> (candidate: Candidate)
    ensures
        candidate.encoding == Encoding::Raw,
        candidate.bytes@ == spec_raw_bytes(values@),
{
    let mut bytes: Vec<u8> = Vec::new();
    let mut i: usize = 0;
    while i < values.len()
        invariant
            i <= values.len(),
            bytes@ == spec_raw_bytes(values@.take(i as int)),
        decreases values.len() - i,
    {
        proof {
            assert(values@.take(i + 1).drop_last() =~= values@.take(i as int));
        }
        write_i64(&mut bytes, values[i]);
        i = i + 1;
    }
    proof {
        assert(values@.take(i as int) =~= values@);
    }
    Candidate { encoding: Encoding::Raw, bytes }
}

pub(super) fn decode(bytes: &[u8], value_count: usize) -> (result: Result<Vec<i64>, Error>)
    ensures
        match result {
            Ok(values) => spec_raw_decode(bytes@, value_count as nat) == Ok::<Seq<i64>, Error>(
                values@,
            ),
            Err(e) => spec_raw_decode(bytes@, value_count as nat) == Err::<Seq<i64>, Error>(e),
        },
{
    // A slice never holds `usize::MAX` bytes, so a saturated product never
    // matches its length.
    let length = bytes.len();
    let expected: usize = match value_count.checked_mul(8) {
        Some(length) => length,
        None => {
            return Err(Error("invalid raw value length"));
        },
    };
    if length != expected {
        return Err(Error("invalid raw value length"));
    }
    let mut values: Vec<i64> = Vec::new();
    let mut i: usize = 0;
    while i < value_count
        invariant
            bytes.len() == value_count * 8,
            i <= value_count,
            values@ == Seq::new(i as nat, |j: int| raw_value(bytes@, j)),
        decreases value_count - i,
    {
        let value = read_i64(bytes, 8 * i);
        values.push(value);
        i = i + 1;
        proof {
            assert(values@ =~= Seq::new(i as nat, |j: int| raw_value(bytes@, j)));
        }
    }
    Ok(values)
}

} // verus!
