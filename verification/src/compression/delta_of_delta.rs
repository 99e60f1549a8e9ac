//! Delta-of-delta encoding: the first value and first difference, then the
//! zigzag-coded changes between consecutive differences, bit-packed.
use super::{
    all_in_i64, as_ints, bit_length, differences, first_or_zero, in_i64, lemma_packed_field_bound,
    lemma_zigzag_pack_round_trip, pack_minimal, seq_max, spec_pack, spec_unpack, unpack, unzigzag,
    unzigzag_fields, zigzag, zigzag_codes, Candidate, Encoding, Error,
};
use vstd::prelude::*;

verus! {

/// The second value, or the first when there is no second.
pub open spec fn second_or_first(values: Seq<i64>) -> i64 {
    if values.len() >= 2 {
        values[1]
    } else {
        first_or_zero(values)
    }
}

/// The delta-of-delta candidate for `values`: absent when a difference, or a
/// difference between differences, does not fit in an `i64`.
pub open spec fn spec_dod_candidate(values: Seq<i64>) -> Option<(Encoding, Seq<u8>)> {
    let first_delta = second_or_first(values) - first_or_zero(values);
    let deltas = differences(as_ints(values));
    let changes = differences(deltas);
    if !in_i64(first_delta) || !all_in_i64(deltas) || !all_in_i64(changes) {
        None
    } else {
        let codes = zigzag_codes(changes);
        let width = bit_length(seq_max(codes) as nat);
        Some(
            (
                Encoding::DeltaOfDelta {
                    first_value: first_or_zero(values),
                    first_delta: first_delta as i64,
                    bit_width: width as u8,
                },
                spec_pack(codes, width),
            ),
        )
    }
}

/// Decoding state after `steps`: the values so far and the current difference,
/// or the error met on the way.
pub open spec fn dod_run(first: i64, first_delta: i64, steps: Seq<int>) -> Result<
    (Seq<i64>, i64),
    Error,
>
    decreases steps.len(),
{
    if steps.len() == 0 {
        if in_i64(first + first_delta) {
            Ok((seq![first, (first + first_delta) as i64], first_delta))
        } else {
            Err(Error("delta-of-delta value overflow"))
        }
    } else {
        match dod_run(first, first_delta, steps.drop_last()) {
            Err(e) => Err(e),
            Ok((values, delta)) => {
                let next_delta = delta + steps.last();
                if !in_i64(next_delta) {
                    Err(Error("delta-of-delta overflow"))
                } else if !in_i64(values.last() + next_delta) {
                    Err(Error("delta-of-delta value overflow"))
                } else {
                    Ok((values.push((values.last() + next_delta) as i64), next_delta as i64))
                }
            },
        }
    }
}

/// What decoding `count` delta-of-delta values gives.
pub open spec fn spec_dod_decode(
    bytes: Seq<u8>,
    count: nat,
    first: i64,
    first_delta: i64,
    width: nat,
) -> Result<Seq<i64>, Error> {
    if count == 0 {
        Ok(seq![])
    } else if count == 1 {
        Ok(seq![first])
    } else {
        match dod_run(first, first_delta, unzigzag_fields(bytes, (count - 2) as nat, width)) {
            Ok((values, _)) => Ok(values),
            Err(e) => Err(e),
        }
    }
}

proof fn lemma_dod_run_prefix(first: i64, first_delta: i64, steps: Seq<int>, j: int)
    requires
        0 <= j <= steps.len(),
        dod_run(first, first_delta, steps.take(j)) is Err,
    ensures
        dod_run(first, first_delta, steps) == dod_run(first, first_delta, steps.take(j)),
    decreases steps.len(),
{
    if j < steps.len() {
        assert(steps.drop_last().take(j) =~= steps.take(j));
        lemma_dod_run_prefix(first, first_delta, steps.drop_last(), j);
    } else {
        assert(steps.take(j) =~= steps);
    }
}

proof fn lemma_dod_run_values(values: Seq<i64>, k: int)
    requires
        2 <= k <= values.len(),
        all_in_i64(differences(as_ints(values))),
        all_in_i64(differences(differences(as_ints(values)))),
    ensures
        dod_run(
            values[0],
            (values[1] - values[0]) as i64,
            differences(differences(as_ints(values))).take(k - 2),
        ) == Ok::<(Seq<i64>, i64), Error>((values.take(k), (values[k - 1] - values[k - 2]) as i64)),
    decreases k,
{
    let deltas = differences(as_ints(values));
    let changes = differences(deltas);
    assert(in_i64(deltas[0]));
    if k == 2 {
        assert(changes.take(0) =~= Seq::<int>::empty());
        assert(values.take(2) =~= seq![values[0], (values[0] + (values[1] - values[0])) as i64]);
    } else {
        lemma_dod_run_values(values, k - 1);
        assert(changes.take(k - 2).drop_last() =~= changes.take(k - 3));
        assert(in_i64(deltas[k - 2]));
        assert(in_i64(changes[k - 3]));
        assert(changes.take(k - 2).last() == changes[k - 3]);
        assert(values.take(k - 1).push(values[k - 1]) =~= values.take(k));
    }
}

/// Decoding the delta-of-delta candidate gives the values back.
pub proof fn lemma_dod_round_trip(values: Seq<i64>)
    requires
        spec_dod_candidate(values) is Some,
    ensures
        ({
            let (encoding, bytes) = spec_dod_candidate(values).unwrap();
            let changes = differences(differences(as_ints(values)));
            let width = bit_length(seq_max(zigzag_codes(changes)) as nat);
            let first_delta = (second_or_first(values) - first_or_zero(values)) as i64;
            &&& width <= 64
            &&& encoding == Encoding::DeltaOfDelta {
                first_value: first_or_zero(values),
                first_delta,
                bit_width: width as u8,
            }
            &&& spec_dod_decode(bytes, values.len(), first_or_zero(values), first_delta, width)
                == Ok::<Seq<i64>, Error>(values)
        }),
{
    let deltas = differences(as_ints(values));
    let changes = differences(deltas);
    lemma_zigzag_pack_round_trip(changes);
    if values.len() >= 2 {
        lemma_dod_run_values(values, values.len() as int);
        assert(changes.take(values.len() - 2) =~= changes);
        assert(values.take(values.len() as int) =~= values);
        assert(changes.len() == values.len() - 2);
    } else if values.len() == 1 {
        assert(values =~= seq![values[0]]);
    } else {
        assert(values =~= Seq::<i64>::empty());
    }
}

fn difference(left: i64, right: i64) -> (result: Option<i64>)
    ensures
        result matches Some(d) ==> d == left - right,
        result is None <==> !in_i64(left - right),
{
    let d: i128 = left as i128 - right as i128;
    if d < i64::MIN as i128 || d > i64::MAX as i128 {
        None
    } else {
        Some(d as i64)
    }
}

pub(super) fn encode(values: &[i64]) -> (candidate: Option<Candidate>)
    ensures
        match candidate {
            Some(c) => spec_dod_candidate(values@) == Some((c.encoding, c.bytes@)),
            None => spec_dod_candidate(values@) is None,
        },
{
    let ghost deltas = differences(as_ints(values@));
    let ghost changes = differences(deltas);
    let first_value: i64 = if values.len() == 0 {
        0
    } else {
        values[0]
    };
    let second: i64 = if values.len() >= 2 {
        values[1]
    } else {
        first_value
    };
    let first_delta = match difference(second, first_value) {
        Some(d) => d,
        None => {
            return None;
        },
    };
    let mut previous_value = second;
    let mut previous_delta = first_delta;
    let mut codes: Vec<u64> = Vec::new();
    let mut i: usize = 2;
    while i < values.len()
        invariant
            2 <= i,
            i <= values.len() || (values.len() < 2 && i == 2),
            deltas == differences(as_ints(values@)),
            changes == differences(deltas),
            values.len() >= 2 ==> previous_value == values@[i - 1],
            values.len() >= 2 ==> previous_delta == deltas[i - 2],
            forall|j: int| 0 <= j < i - 1 && j < deltas.len() ==> in_i64(#[trigger] deltas[j]),
            forall|j: int| 0 <= j < i - 2 && j < changes.len() ==> in_i64(#[trigger] changes[j]),
            values.len() >= 2 ==> codes@.len() == i - 2,
            values.len() < 2 ==> codes@.len() == 0,
            forall|j: int| 0 <= j < codes@.len() ==> codes@[j] == zigzag_codes(changes)[j],
        decreases values.len() - i,
    {
        let value = values[i];
        let delta = match difference(value, previous_value) {
            Some(d) => d,
            None => {
                proof {
                    assert(deltas[i - 1] == value - previous_value);
                }
                return None;
            },
        };
        let change = match difference(delta, previous_delta) {
            Some(c) => c,
            None => {
                proof {
                    assert(deltas[i - 1] == delta);
                    assert(changes[i - 2] == delta - previous_delta);
                }
                return None;
            },
        };
        proof {
            assert(deltas[i - 1] == delta);
            assert(changes[i - 2] == change);
        }
        codes.push(zigzag(change));
        previous_value = value;
        previous_delta = delta;
        i = i + 1;
    }
    proof {
        if values.len() >= 2 {
            assert(deltas[0] == first_delta);
            assert(codes@.len() == changes.len());
        } else {
            assert(deltas.len() == 0);
            assert(changes.len() == 0);
        }
        assert(codes@ =~= zigzag_codes(changes));
    }
    let (bit_width, bytes) = pack_minimal(&codes);
    Some(
        Candidate {
            encoding: Encoding::DeltaOfDelta { first_value, first_delta, bit_width },
            bytes,
        },
    )
}

pub(super) fn decode(
    bytes: &[u8],
    count: usize,
    first_value: i64,
    first_delta: i64,
    bit_width: u8,
) -> (result: Result<Vec<i64>, Error>)
    requires
        bit_width <= 64,
    ensures
        match result {
            Ok(values) => spec_dod_decode(
                bytes@,
                count as nat,
                first_value,
                first_delta,
                bit_width as nat,
            ) == Ok::<Seq<i64>, Error>(values@),
            Err(e) => spec_dod_decode(bytes@, count as nat, first_value, first_delta, bit_width as nat)
                == Err::<Seq<i64>, Error>(e),
        },
{
    let mut values: Vec<i64> = Vec::new();
    if count == 0 {
        return Ok(values);
    }
    values.push(first_value);
    if count == 1 {
        proof {
            assert(values@ =~= seq![first_value]);
        }
        return Ok(values);
    }
    let ghost steps = unzigzag_fields(bytes@, (count - 2) as nat, bit_width as nat);
    proof {
        assert(steps.take(0) =~= Seq::<int>::empty());
    }
    let mut value = match first_value.checked_add(first_delta) {
        Some(v) => v,
        None => {
            proof {
                lemma_dod_run_prefix(first_value, first_delta, steps, 0);
            }
            return Err(Error("delta-of-delta value overflow"));
        },
    };
    values.push(value);
    let mut delta = first_delta;
    let codes = unpack(bytes, count - 2, bit_width);
    let mut k: usize = 0;
    proof {
        assert(values@ =~= seq![first_value, value]);
    }
    while k < codes.len()
        invariant
            bit_width <= 64,
            count >= 2,
            codes@ == spec_unpack(bytes@, (count - 2) as nat, bit_width as nat),
            steps == unzigzag_fields(bytes@, (count - 2) as nat, bit_width as nat),
            k <= codes.len(),
            dod_run(first_value, first_delta, steps.take(k as int)) == Ok::<(Seq<i64>, i64), Error>(
                (values@, delta),
            ),
            value == values@.last(),
        decreases codes.len() - k,
    {
        let step = unzigzag(codes[k]);
        proof {
            lemma_packed_field_bound(bytes@, bit_width as nat, k as nat);
            assert(step == steps[k as int]);
            assert(steps.take(k + 1).drop_last() =~= steps.take(k as int));
            assert(steps.take(k + 1).last() == step);
        }
        delta = match delta.checked_add(step) {
            Some(d) => d,
            None => {
                proof {
                    lemma_dod_run_prefix(first_value, first_delta, steps, k + 1);
                }
                return Err(Error("delta-of-delta overflow"));
            },
        };
        value = match value.checked_add(delta) {
            Some(v) => v,
            None => {
                proof {
                    lemma_dod_run_prefix(first_value, first_delta, steps, k + 1);
                }
                return Err(Error("delta-of-delta value overflow"));
            },
        };
        values.push(value);
        k = k + 1;
    }
    proof {
        assert(steps.take(k as int) =~= steps);
    }
    Ok(values)
}

} // verus!
