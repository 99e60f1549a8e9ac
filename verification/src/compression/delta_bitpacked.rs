//! Delta encoding: the first value, then zigzag-coded differences between
//! neighbours, bit-packed.
use super::{
    all_in_i64, as_ints, bit_length, differences, first_or_zero, in_i64,
    lemma_zigzag_pack_round_trip, pack_minimal, seq_max, spec_pack, unpack, unzigzag, unzigzag_fields,
    zigzag, zigzag_codes, Candidate, Encoding, Error, packed_field, lemma_packed_field_bound,
    spec_unzigzag, spec_unpack,
};
use vstd::prelude::*;

verus! {

/// The delta candidate for `values`: absent when a difference does not fit
/// in an `i64`.
pub open spec fn spec_delta_candidate(values: Seq<i64>) -> Option<(Encoding, Seq<u8>)> {
    let deltas = differences(as_ints(values));
    if !all_in_i64(deltas) {
        None
    } else {
        let codes = zigzag_codes(deltas);
        let width = bit_length(seq_max(codes) as nat);
        Some(
            (
                Encoding::DeltaBitPacked { first_value: first_or_zero(values), bit_width: width as u8 },
                spec_pack(codes, width),
            ),
        )
    }
}

/// Running sums of `steps` from `first`, or `None` once a sum leaves `i64`.
pub open spec fn delta_run(first: i64, steps: Seq<int>) -> Option<Seq<i64>>
    decreases steps.len(),
{
    if steps.len() == 0 {
        Some(seq![first])
    } else {
        match delta_run(first, steps.drop_last()) {
            None => None,
            Some(values) => if in_i64(values.last() + steps.last()) {
                Some(values.push((values.last() + steps.last()) as i64))
            } else {
                None
            },
        }
    }
}

/// What decoding `count` delta-encoded values gives.
pub open spec fn spec_delta_decode(bytes: Seq<u8>, count: nat, first: i64, width: nat) -> Result<
    Seq<i64>,
    Error,
> {
    if count == 0 {
        Ok(seq![])
    } else {
        match delta_run(first, unzigzag_fields(bytes, (count - 1) as nat, width)) {
            Some(values) => Ok(values),
            None => Err(Error("delta value overflow")),
        }
    }
}

proof fn lemma_delta_run_prefix(first: i64, steps: Seq<int>, j: int)
    requires
        0 <= j <= steps.len(),
        delta_run(first, steps.take(j)) is None,
    ensures
        delta_run(first, steps) is None,
    decreases steps.len(),
{
    if j < steps.len() {
        assert(steps.drop_last().take(j) =~= steps.take(j));
        lemma_delta_run_prefix(first, steps.drop_last(), j);
    } else {
        assert(steps.take(j) =~= steps);
    }
}

proof fn lemma_delta_run_len(first: i64, steps: Seq<int>)
    ensures
        delta_run(first, steps) matches Some(values) ==> values.len() == steps.len() + 1,
    decreases steps.len(),
{
    if steps.len() > 0 {
        lemma_delta_run_len(first, steps.drop_last());
    }
}

proof fn lemma_delta_run_values(values: Seq<i64>, k: int)
    requires
        1 <= k <= values.len(),
    ensures
        delta_run(values[0], differences(as_ints(values.take(k)))) == Some(values.take(k)),
    decreases k,
{
    let prefix = values.take(k);
    if k == 1 {
        assert(differences(as_ints(prefix)) =~= Seq::<int>::empty());
        assert(prefix =~= seq![values[0]]);
    } else {
        lemma_delta_run_values(values, k - 1);
        assert(differences(as_ints(prefix)).drop_last() =~= differences(as_ints(values.take(k - 1))));
        assert(prefix.drop_last() =~= values.take(k - 1));
        assert(values.take(k - 1).push(values[k - 1]) =~= prefix);
    }
}

/// Decoding the delta candidate gives the values back.
pub proof fn lemma_delta_round_trip(values: Seq<i64>)
    requires
        spec_delta_candidate(values) is Some,
    ensures
        ({
            let (encoding, bytes) = spec_delta_candidate(values).unwrap();
            let width = bit_length(seq_max(zigzag_codes(differences(as_ints(values)))) as nat);
            &&& width <= 64
            &&& encoding == Encoding::DeltaBitPacked {
                first_value: first_or_zero(values),
                bit_width: width as u8,
            }
            &&& spec_delta_decode(bytes, values.len(), first_or_zero(values), width) == Ok::<
                Seq<i64>,
                Error,
            >(values)
        }),
{
    let deltas = differences(as_ints(values));
    lemma_zigzag_pack_round_trip(deltas);
    if values.len() > 0 {
        lemma_delta_run_values(values, values.len() as int);
        assert(values.take(values.len() as int) =~= values);
        assert(deltas.len() == values.len() - 1);
        assert((values.len() - 1) as nat == deltas.len());
    } else {
        assert(values =~= Seq::<i64>::empty());
    }
}

pub(super) fn encode(values: &[i64]) -> (candidate: Option<Candidate>)
    ensures
        match candidate {
            Some(c) => spec_delta_candidate(values@) == Some((c.encoding, c.bytes@)),
            None => spec_delta_candidate(values@) is None,
        },
{
    let first_value: i64 = if values.len() == 0 {
        0
    } else {
        values[0]
    };
    let ghost deltas = differences(as_ints(values@));
    let mut codes: Vec<u64> = Vec::new();
    let mut i: usize = 1;
    while i < values.len()
        invariant
            1 <= i,
            deltas == differences(as_ints(values@)),
            i <= values.len() || (values.len() == 0 && i == 1),
            codes@.len() == i - 1,
            forall|j: int| 0 <= j < i - 1 ==> in_i64(#[trigger] deltas[j]),
            forall|j: int| 0 <= j < i - 1 ==> codes@[j] == zigzag_codes(deltas)[j],
        decreases values.len() - i,
    {
        let delta: i128 = values[i] as i128 - values[i - 1] as i128;
        if delta < i64::MIN as i128 || delta > i64::MAX as i128 {
            proof {
                assert(deltas[i - 1] == delta);
            }
            return None;
        }
        let code = zigzag(delta as i64);
        proof {
            assert(deltas[i - 1] == delta);
        }
        codes.push(code);
        i = i + 1;
    }
    proof {
        assert(as_ints(values@).len() == values@.len());
        if values.len() > 0 {
            assert(i == values.len());
        }
        if values.len() == 0 {
            assert(deltas.len() == 0);
            assert(codes@ =~= zigzag_codes(deltas));
        } else {
            assert(deltas.len() == values.len() - 1);
            assert(codes@.len() == deltas.len());
            assert forall|j: int| 0 <= j < codes@.len() implies codes@[j] == zigzag_codes(deltas)[j] by {
                assert(j < i - 1);
            }
            assert(codes@ =~= zigzag_codes(deltas));
        }
    }
    let (bit_width, bytes) = pack_minimal(&codes);
    Some(Candidate { encoding: Encoding::DeltaBitPacked { first_value, bit_width }, bytes })
}

pub(super) fn decode(bytes: &[u8], value_count: usize, first_value: i64, bit_width: u8) -> (result:
    Result<Vec<i64>, Error>)
    requires
        bit_width <= 64,
    ensures
        match result {
            Ok(values) => spec_delta_decode(bytes@, value_count as nat, first_value, bit_width as nat)
                == Ok::<Seq<i64>, Error>(values@),
            Err(e) => spec_delta_decode(bytes@, value_count as nat, first_value, bit_width as nat)
                == Err::<Seq<i64>, Error>(e),
        },
{
    if value_count == 0 {
        return Ok(Vec::new());
    }
    let codes = unpack(bytes, value_count - 1, bit_width);
    let ghost steps = unzigzag_fields(bytes@, (value_count - 1) as nat, bit_width as nat);
    let mut values: Vec<i64> = Vec::new();
    values.push(first_value);
    let mut previous = first_value;
    let mut k: usize = 0;
    proof {
        assert(steps.take(0) =~= Seq::<int>::empty());
        assert(values@ =~= seq![first_value]);
    }
    while k < codes.len()
        invariant
            bit_width <= 64,
            value_count > 0,
            codes@ == spec_unpack(bytes@, (value_count - 1) as nat, bit_width as nat),
            steps == unzigzag_fields(bytes@, (value_count - 1) as nat, bit_width as nat),
            k <= codes.len(),
            delta_run(first_value, steps.take(k as int)) == Some(values@),
            previous == values@.last(),
            values@.len() == k + 1,
        decreases codes.len() - k,
    {
        let step = unzigzag(codes[k]);
        proof {
            lemma_packed_field_bound(bytes@, bit_width as nat, k as nat);
            assert(step == steps[k as int]);
            assert(steps.take(k + 1).drop_last() =~= steps.take(k as int));
        }
        match previous.checked_add(step) {
            Some(next) => {
                previous = next;
                values.push(next);
            },
            None => {
                proof {
                    let prefix = steps.take(k + 1);
                    assert(prefix.last() == step);
                    assert(prefix.drop_last() =~= steps.take(k as int));
                    assert(!in_i64(values@.last() + step));
                    assert(delta_run(first_value, prefix) is None);
                    lemma_delta_run_prefix(first_value, steps, k + 1);
                    assert(delta_run(first_value, steps) is None);
                    assert(spec_delta_decode(bytes@, value_count as nat, first_value, bit_width as nat)
                        == Err::<Seq<i64>, Error>(Error("delta value overflow")));
                }
                return Err(Error("delta value overflow"));
            },
        }
        k = k + 1;
    }
    proof {
        assert(steps.take(k as int) =~= steps);
    }
    Ok(values)
}

} // verus!
