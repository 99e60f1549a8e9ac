//! Boolean run-length encoding: the first bit, then the lengths of the
//! alternating runs as little-endian `u32`s.
use super::Error;
use crate::bitmap::{bit_at, get_bit, holds_bits, set_bit, spec_bits, zeroed};
use crate::le::{read_le, write_le};
use crate::math::{le_bytes, le_value, lemma_le_bytes_len, lemma_le_value_of_bytes, lemma_pow2_facts};
use vstd::prelude::*;

verus! {

/// Lengths of the maximal runs of equal flags, in order.
pub open spec fn runs(flags: Seq<bool>) -> Seq<nat>
    decreases flags.len(),
{
    if flags.len() == 0 {
        seq![]
    } else if flags.len() == 1 {
        seq![1]
    } else {
        let rest = runs(flags.drop_last());
        if flags.last() == flags[flags.len() - 2] {
            rest.update(rest.len() - 1, rest.last() + 1)
        } else {
            rest.push(1)
        }
    }
}

/// Every run is short enough for its length to be stored as a `u32`.
pub open spec fn runs_fit(flags: Seq<bool>) -> bool {
    forall|k: int| 0 <= k < runs(flags).len() ==> #[trigger] runs(flags)[k] <= u32::MAX
}

/// Run lengths as consecutive little-endian `u32`s.
pub open spec fn run_bytes(lengths: Seq<nat>) -> Seq<u8>
    decreases lengths.len(),
{
    if lengths.len() == 0 {
        seq![]
    } else {
        run_bytes(lengths.drop_last()) + le_bytes(lengths.last(), 4)
    }
}

/// The encoding of `flags`.
pub open spec fn spec_rle_encode(flags: Seq<bool>) -> Seq<u8> {
    if flags.len() == 0 {
        seq![]
    } else {
        seq![if flags[0] { 1u8 } else { 0u8 }] + run_bytes(runs(flags))
    }
}

/// Length of run `k` in an encoding.
pub open spec fn run_length(bytes: Seq<u8>, k: int) -> nat {
    le_value(bytes.subrange(1 + 4 * k, 5 + 4 * k))
}

/// Value of the flags in run `k`: runs alternate, starting with the first byte.
pub open spec fn run_value(first: u8, k: int) -> bool {
    (first != 0) != (k % 2 == 1)
}

/// The flags of the first `k` runs of an encoding.
pub open spec fn run_flags(bytes: Seq<u8>, k: nat) -> Seq<bool>
    decreases k,
{
    if k == 0 {
        seq![]
    } else {
        run_flags(bytes, (k - 1) as nat) + Seq::new(
            run_length(bytes, k - 1),
            |i: int| run_value(bytes[0], k - 1),
        )
    }
}

/// Where run `k` ends.
pub open spec fn run_end(bytes: Seq<u8>, k: int) -> nat {
    run_flags(bytes, (k + 1) as nat).len()
}

/// What decoding an encoding of `count` flags gives.
pub open spec fn spec_rle_decode(bytes: Seq<u8>, count: nat) -> Result<Seq<bool>, Error> {
    let run_count = (bytes.len() - 1) / 4;
    if bytes.len() == 0 {
        Err(Error("missing RLE value"))
    } else if bytes[0] > 1 || (bytes.len() - 1) % 4 != 0 {
        Err(Error("invalid boolean RLE"))
    } else if exists|k: int| 0 <= k < run_count && #[trigger] run_end(bytes, k) > count {
        Err(Error("invalid boolean run"))
    } else if run_flags(bytes, run_count as nat).len() != count {
        Err(Error("boolean runs do not fill column"))
    } else {
        Ok(run_flags(bytes, run_count as nat))
    }
}

// --- lemmas about runs -------------------------------------------------------

/// The flags described by run lengths, alternating from `first`.
pub open spec fn expand(first: bool, lengths: Seq<nat>) -> Seq<bool>
    decreases lengths.len(),
{
    if lengths.len() == 0 {
        seq![]
    } else {
        expand(first, lengths.drop_last()) + Seq::new(
            lengths.last(),
            |i: int| first != ((lengths.len() - 1) % 2 == 1),
        )
    }
}

proof fn lemma_runs_shape(flags: Seq<bool>)
    requires
        flags.len() > 0,
    ensures
        runs(flags).len() > 0,
        runs(flags).len() <= flags.len(),
        forall|k: int| 0 <= k < runs(flags).len() ==> 1 <= #[trigger] runs(flags)[k] <= flags.len(),
        (flags[0] != ((runs(flags).len() - 1) % 2 == 1)) == flags.last(),
        expand(flags[0], runs(flags)) == flags,
    decreases flags.len(),
{
    if flags.len() == 1 {
        let r = runs(flags);
        assert(r =~= seq![1nat]);
        assert(r.drop_last() =~= Seq::<nat>::empty());
        let e = expand(flags[0], r);
        assert(expand(flags[0], r.drop_last()) =~= Seq::<bool>::empty());
        assert(e =~= Seq::<bool>::empty() + Seq::new(1, |i: int| flags[0] != (0int % 2 == 1)));
        assert(e =~= flags);
    } else {
        let rest = flags.drop_last();
        lemma_runs_shape(rest);
        let r = runs(rest);
        assert(rest[0] == flags[0]);
        if flags.last() == flags[flags.len() - 2] {
            let r2 = r.update(r.len() - 1, r.last() + 1);
            assert(r2.drop_last() =~= r.drop_last());
            let tail = Seq::new(r.last() + 1, |i: int| flags[0] != ((r2.len() - 1) % 2 == 1));
            let tail0 = Seq::new(r.last(), |i: int| flags[0] != ((r.len() - 1) % 2 == 1));
            assert(tail =~= tail0.push(flags.last()));
            assert(expand(flags[0], r2) =~= expand(flags[0], r).push(flags.last()));
            assert(flags =~= rest.push(flags.last()));
        } else {
            let r2 = r.push(1);
            assert(r2.drop_last() =~= r);
            assert(expand(flags[0], r2) =~= expand(flags[0], r).push(flags.last()));
            assert(flags =~= rest.push(flags.last()));
        }
    }
}

proof fn lemma_run_bytes_layout(lengths: Seq<nat>, k: int)
    requires
        0 <= k < lengths.len(),
    ensures
        run_bytes(lengths).len() == 4 * lengths.len(),
        run_bytes(lengths).subrange(4 * k, 4 * k + 4) == le_bytes(lengths[k], 4),
    decreases lengths.len(),
{
    lemma_run_bytes_len(lengths);
    let rest = lengths.drop_last();
    lemma_run_bytes_len(rest);
    lemma_le_bytes_len(lengths.last(), 4);
    if k < rest.len() {
        lemma_run_bytes_layout(rest, k);
        assert(run_bytes(lengths).subrange(4 * k, 4 * k + 4) =~= run_bytes(rest).subrange(
            4 * k,
            4 * k + 4,
        ));
    } else {
        assert(run_bytes(lengths).subrange(4 * k, 4 * k + 4) =~= le_bytes(lengths.last(), 4));
    }
}

proof fn lemma_run_bytes_len(lengths: Seq<nat>)
    ensures
        run_bytes(lengths).len() == 4 * lengths.len(),
    decreases lengths.len(),
{
    if lengths.len() > 0 {
        lemma_run_bytes_len(lengths.drop_last());
        lemma_le_bytes_len(lengths.last(), 4);
    }
}

proof fn lemma_run_flags_monotonic(bytes: Seq<u8>, j: nat, k: nat)
    requires
        j <= k,
    ensures
        run_flags(bytes, j).len() <= run_flags(bytes, k).len(),
    decreases k,
{
    if j < k {
        lemma_run_flags_monotonic(bytes, j, (k - 1) as nat);
    }
}

/// The runs of a prefix are the runs of the whole up to its last one, which
/// is no longer than the run of the whole at its place.
proof fn lemma_runs_prefix(flags: Seq<bool>, i: int)
    requires
        1 <= i <= flags.len(),
    ensures
        runs(flags.take(i)).len() <= runs(flags).len(),
        runs(flags.take(i)).len() > 0,
        runs(flags.take(i)).last() <= runs(flags)[runs(flags.take(i)).len() - 1],
    decreases flags.len(),
{
    lemma_runs_shape(flags.take(i));
    if i == flags.len() {
        assert(flags.take(i) =~= flags);
    } else {
        let rest = flags.drop_last();
        assert(rest.take(i) =~= flags.take(i));
        lemma_runs_prefix(rest, i);
        lemma_runs_shape(rest);
    }
}

/// Flags with no more than `u32::MAX` elements have runs that fit.
pub proof fn lemma_short_runs_fit(flags: Seq<bool>)
    requires
        flags.len() <= u32::MAX,
    ensures
        runs_fit(flags),
{
    if flags.len() > 0 {
        lemma_runs_shape(flags);
    }
}

/// Decoding an encoding gives the flags back.
pub proof fn lemma_rle_round_trip(flags: Seq<bool>)
    requires
        flags.len() > 0,
        runs_fit(flags),
    ensures
        spec_rle_decode(spec_rle_encode(flags), flags.len()) == Ok::<Seq<bool>, Error>(flags),
{
    let bytes = spec_rle_encode(flags);
    lemma_pow2_facts();
    lemma_runs_shape(flags);
    let r = runs(flags);
    let first = if flags[0] {
        1u8
    } else {
        0u8
    };
    lemma_run_bytes_len(r);
    assert(bytes.len() == 1 + 4 * r.len());
    assert((bytes.len() - 1) / 4 == r.len());
    assert forall|k: int| 0 <= k < r.len() implies run_length(bytes, k) == r[k] by {
        lemma_run_bytes_layout(r, k);
        assert(bytes.subrange(1 + 4 * k, 5 + 4 * k) =~= run_bytes(r).subrange(4 * k, 4 * k + 4));
        lemma_le_value_of_bytes(r[k], 4);
        vstd::arithmetic::div_mod::lemma_small_mod(r[k], 0x1_0000_0000);
    }
    assert forall|k: nat| k <= r.len() implies run_flags(bytes, k) == expand(flags[0], r.take(k as int))
        by {
        lemma_run_flags_expand(bytes, flags[0], r, k);
    }
    assert(r.take(r.len() as int) =~= r);
    assert forall|k: int| 0 <= k < r.len() implies #[trigger] run_end(bytes, k) <= flags.len() by {
        lemma_run_flags_monotonic(bytes, (k + 1) as nat, r.len());
    }
}

proof fn lemma_run_flags_expand(bytes: Seq<u8>, first: bool, lengths: Seq<nat>, k: nat)
    requires
        k <= lengths.len(),
        bytes.len() > 0,
        (bytes[0] != 0) == first,
        forall|j: int| 0 <= j < lengths.len() ==> run_length(bytes, j) == lengths[j],
    ensures
        run_flags(bytes, k) == expand(first, lengths.take(k as int)),
    decreases k,
{
    if k > 0 {
        lemma_run_flags_expand(bytes, first, lengths, (k - 1) as nat);
        assert(lengths.take(k as int).drop_last() =~= lengths.take(k - 1));
        let tail = Seq::new(run_length(bytes, k - 1), |i: int| run_value(bytes[0], k - 1));
        let tail2 = Seq::new(lengths[k - 1], |i: int| first != ((k - 1) % 2 == 1));
        assert(tail =~= tail2);
    } else {
        assert(lengths.take(0) =~= Seq::<nat>::empty());
    }
}

// --- executable code -----------------------------------------------------------

/// Encodes the first `count` bits of `bits` as run lengths.
pub fn encode(bits: &[u8], count: usize) -> (out: Vec<u8>)
    requires
        count <= 8 * bits.len(),
        runs_fit(spec_bits(bits@, count as nat)),
    ensures
        out@ == spec_rle_encode(spec_bits(bits@, count as nat)),
{
    let ghost flags = spec_bits(bits@, count as nat);
    let mut out: Vec<u8> = Vec::new();
    if count == 0 {
        return out;
    }
    let first = get_bit(bits, 0);
    out.push(if first {
        1u8
    } else {
        0u8
    });
    let mut last = first;
    let mut run: u32 = 1;
    let mut i: usize = 1;
    proof {
        assert(flags.take(1) =~= seq![flags[0]]);
        assert(runs(flags.take(1)).drop_last() =~= Seq::<nat>::empty());
    }
    while i < count
        invariant
            1 <= i <= count,
            count <= 8 * bits.len(),
            flags == spec_bits(bits@, count as nat),
            runs_fit(flags),
            last == flags[i - 1],
            run as nat == runs(flags.take(i as int)).last(),
            run <= i,
            runs(flags.take(i as int)).len() > 0,
            out@ == seq![if flags[0] { 1u8 } else { 0u8 }] + run_bytes(
                runs(flags.take(i as int)).drop_last(),
            ),
        decreases count - i,
    {
        let bit = get_bit(bits, i);
        let ghost prefix = flags.take(i as int);
        let ghost r = runs(prefix);
        proof {
            assert(flags.take(i + 1).drop_last() =~= prefix);
            assert(flags.take(i + 1)[i - 1] == flags[i - 1]);
        }
        if bit == last {
            proof {
                lemma_runs_prefix(flags, i + 1);
                let r2 = runs(flags.take(i + 1));
                assert(r2 == r.update(r.len() - 1, r.last() + 1));
            }
            run = run + 1;
            proof {
                let r2 = runs(flags.take(i + 1));
                assert(r2.drop_last() =~= r.drop_last());
            }
        } else {
            proof {
                let r2 = runs(flags.take(i + 1));
                assert(r2.drop_last() =~= r);
                assert(run_bytes(r) == run_bytes(r.drop_last()) + le_bytes(r.last(), 4));
            }
            write_le(&mut out, run as u64, 4);
            proof {
                assert(out@ =~= seq![if flags[0] { 1u8 } else { 0u8 }] + run_bytes(
                    runs(flags.take(i + 1)).drop_last(),
                ));
            }
            last = !last;
            run = 1;
        }
        i = i + 1;
    }
    let ghost r = runs(flags.take(i as int));
    write_le(&mut out, run as u64, 4);
    proof {
        assert(flags.take(i as int) =~= flags);
        assert(run_bytes(r) == run_bytes(r.drop_last()) + le_bytes(r.last(), 4));
        assert(out@ =~= spec_rle_encode(flags));
    }
    out
}

/// Decodes run lengths into a bitmap of `count` bits.
pub fn decode(bytes: &[u8], count: usize) -> (result: Result<Vec<u8>, Error>)
    ensures
        match result {
            Ok(bitmap) => spec_rle_decode(bytes@, count as nat) matches Ok(flags) && holds_bits(
                bitmap@,
                flags,
            ),
            Err(e) => spec_rle_decode(bytes@, count as nat) == Err::<Seq<bool>, Error>(e),
        },
{
    if bytes.len() == 0 {
        return Err(Error("missing RLE value"));
    }
    let first = bytes[0];
    if first > 1 || (bytes.len() - 1) % 4 != 0 {
        return Err(Error("invalid boolean RLE"));
    }
    let run_count = (bytes.len() - 1) / 4;
    let mut at: usize = 0;
    let mut value = first != 0;
    let mut bits = zeroed(count);
    let mut k: usize = 0;
    while k < run_count
        invariant
            bytes.len() == 1 + 4 * run_count,
            first == bytes@[0],
            first <= 1,
            k <= run_count,
            at == run_flags(bytes@, k as nat).len(),
            at <= count,
            value == run_value(first, k as int),
            forall|j: int| 0 <= j < k ==> #[trigger] run_end(bytes@, j) <= count,
            bits@.len() == (count as nat + 7) / 8,
            forall|i: int|
                0 <= i < 8 * bits@.len() ==> #[trigger] bit_at(bits@, i) == (i < at && run_flags(
                    bytes@,
                    k as nat,
                )[i]),
        decreases run_count - k,
    {
        let run = read_le(bytes, 1 + 4 * k, 4);
        proof {
            lemma_pow2_facts();
            crate::math::lemma_le_value_bound(bytes@.subrange(1 + 4 * k, 5 + 4 * k));
            assert(run_end(bytes@, k as int) == at + run);
            assert(run <= u32::MAX);
        }
        let run = run as usize;
        proof {
            assert(run_end(bytes@, k as int) == at + run);
        }
        let end: usize = match at.checked_add(run) {
            Some(end) => {
                if end > count {
                    proof {
                        assert(run_end(bytes@, k as int) > count);
                    }
                    return Err(Error("invalid boolean run"));
                }
                end
            },
            None => {
                proof {
                    assert(run_end(bytes@, k as int) > count);
                }
                return Err(Error("invalid boolean run"));
            },
        };
        let ghost before = bits@;
        let ghost flags_before = run_flags(bytes@, k as nat);
        let ghost flags_after = run_flags(bytes@, (k + 1) as nat);
        proof {
            assert(flags_after =~= flags_before + Seq::new(
                run as nat,
                |i: int| run_value(first, k as int),
            ));
        }
        if value {
            let mut i: usize = at;
            while i < end
                invariant
                    at <= i <= end,
                    end <= count,
                    value,
                    value == run_value(first, k as int),
                    bits@.len() == (count as nat + 7) / 8,
                    flags_after.len() == end,
                    forall|j: int| at <= j < end ==> flags_after[j] == value,
                    forall|j: int| 0 <= j < at ==> flags_after[j] == flags_before[j],
                    flags_before.len() == at,
                    forall|j: int|
                        0 <= j < 8 * bits@.len() ==> #[trigger] bit_at(bits@, j) == ((j < at
                            && flags_before[j]) || (at <= j < i)),
                decreases end - i,
            {
                set_bit(&mut bits, i);
                i = i + 1;
            }
        }
        proof {
            assert forall|j: int| 0 <= j < 8 * bits@.len() implies #[trigger] bit_at(bits@, j) == (j
                < end && flags_after[j]) by {
                if !value {
                    assert(bits@ == before);
                }
            }
        }
        at = end;
        value = !value;
        k = k + 1;
    }
    if at != count {
        return Err(Error("boolean runs do not fill column"));
    }
    Ok(bits)
}

} // verus!
