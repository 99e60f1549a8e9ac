//! Floating-point words: either their low `byte_width` bytes each, or the
//! first word and the bit-packed XORs of neighbouring words.
use super::{
    bit_length, lemma_bit_length_fits, lemma_bit_length_monotonic, lemma_seq_max, lemma_unpack_pack,
    pack_minimal, packed_length, seq_max, spec_pack, spec_unpack, unpack, Error,
};
use crate::le::{read_le, write_le};
use crate::math::{le_bytes, le_value, lemma_le_bytes_len, lemma_le_value_of_bytes, lemma_pow2_facts};
use vstd::arithmetic::power2::pow2;
use vstd::prelude::*;

verus! {

/// How a column of words was stored.
#[derive(Debug, Clone, Copy, PartialEq, Eq)]
pub enum Encoding {
    Raw,
    Xor { first: u64, bit_width: u8 },
}

/// Bytes kept per word in the raw layout.
pub open spec fn kept_bytes(byte_width: nat) -> nat {
    if byte_width < 8 {
        byte_width
    } else {
        8
    }
}

/// Raw layout: the low bytes of every word.
pub open spec fn raw_words(values: Seq<u64>, byte_width: nat) -> Seq<u8>
    decreases values.len(),
{
    if values.len() == 0 {
        seq![]
    } else {
        raw_words(values.drop_last(), byte_width) + le_bytes(
            values.last() as nat,
            kept_bytes(byte_width),
        )
    }
}

/// XORs of neighbouring words.
pub open spec fn neighbour_xors(values: Seq<u64>) -> Seq<u64> {
    Seq::new(
        if values.len() < 2 {
            0
        } else {
            (values.len() - 1) as nat
        },
        |i: int| values[i] ^ values[i + 1],
    )
}

/// Bit width of the packed XORs.
pub open spec fn xor_width(values: Seq<u64>) -> nat {
    bit_length(seq_max(neighbour_xors(values)) as nat)
}

/// The chosen layout: the XOR one when it is smaller than the raw one by more
/// than the header it needs.
pub open spec fn spec_xor_encode(values: Seq<u64>, byte_width: nat) -> (Encoding, Seq<u8>) {
    let raw = raw_words(values, byte_width);
    let packed = spec_pack(neighbour_xors(values), xor_width(values));
    if packed.len() + byte_width + 1 < raw.len() {
        (
            Encoding::Xor {
                first: if values.len() == 0 {
                    0
                } else {
                    values[0]
                },
                bit_width: xor_width(values) as u8,
            },
            packed,
        )
    } else {
        (Encoding::Raw, raw)
    }
}

/// Running XOR of `xors` from `first`.
pub open spec fn xor_run(first: u64, xors: Seq<u64>) -> Seq<u64>
    decreases xors.len(),
{
    if xors.len() == 0 {
        seq![first]
    } else {
        let before = xor_run(first, xors.drop_last());
        before.push(before.last() ^ xors.last())
    }
}

/// Packed length of `count` fields, with the product saturating as
/// `packed_length` does.
pub open spec fn saturated_packed_length(count: nat, width: nat) -> nat {
    (if count * width <= usize::MAX {
        count * width
    } else {
        usize::MAX as nat
    } + 7) / 8
}

/// What decoding `count` words gives.
pub open spec fn spec_xor_decode(encoding: Encoding, bytes: Seq<u8>, count: nat, byte_width: nat) -> Result<
    Seq<u64>,
    Error,
> {
    match encoding {
        Encoding::Raw => if bytes.len() != count * byte_width {
            Err(Error("invalid raw float length"))
        } else {
            Ok(
                Seq::new(
                    count,
                    |i: int| le_value(bytes.subrange(byte_width * i, byte_width * i + byte_width)) as u64,
                ),
            )
        },
        Encoding::Xor { first, bit_width } => {
            let fields = if count == 0 {
                0
            } else {
                (count - 1) as nat
            };
            if bytes.len() != saturated_packed_length(fields, bit_width as nat) {
                Err(Error("invalid XOR float length"))
            } else if count == 0 {
                Ok(seq![])
            } else {
                Ok(xor_run(first, spec_unpack(bytes, fields, bit_width as nat)))
            }
        },
    }
}

/// The encoding's parameters are ones the decoder handles.
pub open spec fn decodable(encoding: Encoding, byte_width: nat) -> bool {
    match encoding {
        Encoding::Raw => 1 <= byte_width <= 8,
        Encoding::Xor { bit_width, .. } => bit_width <= 64,
    }
}

pub proof fn lemma_raw_words_layout(values: Seq<u64>, byte_width: nat, i: int)
    requires
        1 <= byte_width <= 8,
        0 <= i < values.len(),
    ensures
        raw_words(values, byte_width).len() == byte_width * values.len(),
        raw_words(values, byte_width).subrange(byte_width * i, byte_width * i + byte_width)
            == le_bytes(values[i] as nat, byte_width),
    decreases values.len(),
{
    lemma_raw_words_len(values, byte_width);
    let rest = values.drop_last();
    lemma_raw_words_len(rest, byte_width);
    lemma_le_bytes_len(values.last() as nat, byte_width);
    assert(byte_width * values.len() == byte_width * rest.len() + byte_width) by (nonlinear_arith)
        requires
            values.len() == rest.len() + 1,
    ;
    if i < rest.len() {
        lemma_raw_words_layout(rest, byte_width, i);
        assert(byte_width * i + byte_width <= byte_width * rest.len()) by (nonlinear_arith)
            requires
                i < rest.len(),
                i >= 0,
        ;
        assert(raw_words(values, byte_width).subrange(byte_width * i, byte_width * i + byte_width)
            =~= raw_words(rest, byte_width).subrange(byte_width * i, byte_width * i + byte_width));
    } else {
        assert(raw_words(values, byte_width).subrange(byte_width * i, byte_width * i + byte_width)
            =~= le_bytes(values.last() as nat, byte_width));
    }
}

pub proof fn lemma_raw_words_len(values: Seq<u64>, byte_width: nat)
    requires
        1 <= byte_width <= 8,
    ensures
        raw_words(values, byte_width).len() == byte_width * values.len(),
    decreases values.len(),
{
    if values.len() > 0 {
        lemma_raw_words_len(values.drop_last(), byte_width);
        lemma_le_bytes_len(values.last() as nat, byte_width);
        assert(byte_width * values.len() == byte_width * (values.len() - 1) + byte_width)
            by (nonlinear_arith)
            requires
                values.len() >= 1,
        ;
    }
}

proof fn lemma_xor_run_values(values: Seq<u64>, k: int)
    requires
        1 <= k <= values.len(),
    ensures
        xor_run(values[0], neighbour_xors(values).take(k - 1)) == values.take(k),
    decreases k,
{
    if k == 1 {
        assert(neighbour_xors(values).take(0) =~= Seq::<u64>::empty());
        assert(values.take(1) =~= seq![values[0]]);
    } else {
        lemma_xor_run_values(values, k - 1);
        let xors = neighbour_xors(values).take(k - 1);
        assert(xors.drop_last() =~= neighbour_xors(values).take(k - 2));
        let a = values[k - 2];
        let b = values[k - 1];
        assert(a ^ (a ^ b) == b) by (bit_vector);
        assert(values.take(k - 1).push(b) =~= values.take(k));
    }
}

/// Decoding an encoding of words that fit in `byte_width` bytes gives them
/// back.
pub proof fn lemma_xor_round_trip(values: Seq<u64>, byte_width: nat)
    requires
        1 <= byte_width <= 8,
        spec_xor_encode(values, byte_width).0 is Xor ==> neighbour_xors(values).len() * xor_width(
            values,
        ) <= usize::MAX,
        forall|i: int| 0 <= i < values.len() ==> (values[i] as nat) < pow2(8 * byte_width),
    ensures
        decodable(spec_xor_encode(values, byte_width).0, byte_width),
        spec_xor_decode(
            spec_xor_encode(values, byte_width).0,
            spec_xor_encode(values, byte_width).1,
            values.len(),
            byte_width,
        ) == Ok::<Seq<u64>, Error>(values),
{
    let xors = neighbour_xors(values);
    let width = xor_width(values);
    lemma_seq_max(xors);
    lemma_bit_length_fits(seq_max(xors) as nat, 64);
    lemma_pow2_facts();
    let chosen = spec_xor_encode(values, byte_width);
    let encoding = chosen.0;
    let bytes = chosen.1;
    match encoding {
        Encoding::Raw => {
            lemma_raw_words_len(values, byte_width);
            assert(byte_width * values.len() == values.len() * byte_width) by (nonlinear_arith);
            assert forall|i: int| 0 <= i < values.len() implies le_value(
                bytes.subrange(byte_width * i, byte_width * i + byte_width),
            ) as u64 == values[i] by {
                lemma_raw_words_layout(values, byte_width, i);
                lemma_le_value_of_bytes(values[i] as nat, byte_width);
                vstd::arithmetic::div_mod::lemma_small_mod(values[i] as nat, pow2(8 * byte_width));
            }
            assert(Seq::new(
                values.len(),
                |i: int| le_value(bytes.subrange(byte_width * i, byte_width * i + byte_width)) as u64,
            ) =~= values);
        },
        Encoding::Xor { first, bit_width } => {
            assert forall|i: int| 0 <= i < xors.len() implies (xors[i] as nat) < pow2(width) by {
                lemma_bit_length_monotonic(xors[i] as nat, seq_max(xors) as nat);
                lemma_bit_length_fits(xors[i] as nat, width);
            }
            lemma_unpack_pack(xors, width);
            if values.len() == 0 {
                lemma_raw_words_len(values, byte_width);
                assert(false);
            } else {
                assert(xors.len() == values.len() - 1);
                lemma_xor_run_values(values, values.len() as int);
                assert(xors.take(values.len() - 1) =~= xors);
                assert(values.take(values.len() as int) =~= values);
                lemma_le_bytes_len(
                    super::packed_value(xors, width),
                    super::packed_byte_count(xors.len(), width),
                );
                assert(bytes.len() == saturated_packed_length((values.len() - 1) as nat, width));
            }
        },
    }
}

/// Encodes words, keeping `byte_width` low bytes of each in the raw layout.
pub fn encode(values: &[u64], byte_width: usize) -> (result: (Encoding, Vec<u8>))
    requires
        spec_pack(neighbour_xors(values@), xor_width(values@)).len() + byte_width + 1 <= usize::MAX,
    ensures
        (result.0, result.1@) == spec_xor_encode(values@, byte_width as nat),
{
    let kept: usize = if byte_width < 8 {
        byte_width
    } else {
        8
    };
    let mut raw: Vec<u8> = Vec::new();
    let mut i: usize = 0;
    while i < values.len()
        invariant
            i <= values.len(),
            kept == kept_bytes(byte_width as nat),
            raw@ == raw_words(values@.take(i as int), byte_width as nat),
        decreases values.len() - i,
    {
        proof {
            assert(values@.take(i + 1).drop_last() =~= values@.take(i as int));
        }
        write_le(&mut raw, values[i], kept);
        i = i + 1;
    }
    proof {
        assert(values@.take(i as int) =~= values@);
    }
    let first: u64 = if values.len() == 0 {
        0
    } else {
        values[0]
    };
    let mut xors: Vec<u64> = Vec::new();
    let mut j: usize = 1;
    while j < values.len()
        invariant
            1 <= j,
            j <= values.len() || (values.len() == 0 && j == 1),
            xors@.len() == j - 1,
            forall|k: int| 0 <= k < j - 1 ==> xors@[k] == values@[k] ^ values@[k + 1],
        decreases values.len() - j,
    {
        xors.push(values[j - 1] ^ values[j]);
        j = j + 1;
    }
    proof {
        assert(xors@ =~= neighbour_xors(values@));
    }
    let (bit_width, packed) = pack_minimal(&xors);
    if packed.len() + byte_width + 1 < raw.len() {
        (Encoding::Xor { first, bit_width }, packed)
    } else {
        (Encoding::Raw, raw)
    }
}

/// Decodes `count` words.
pub fn decode(encoding: Encoding, bytes: &[u8], count: usize, byte_width: usize) -> (result: Result<
    Vec<u64>,
    Error,
>)
    requires
        decodable(encoding, byte_width as nat),
    ensures
        match result {
            Ok(values) => spec_xor_decode(encoding, bytes@, count as nat, byte_width as nat) == Ok::<
                Seq<u64>,
                Error,
            >(values@),
            Err(e) => spec_xor_decode(encoding, bytes@, count as nat, byte_width as nat) == Err::<
                Seq<u64>,
                Error,
            >(e),
        },
{
    match encoding {
        Encoding::Raw => {
            let length = bytes.len();
            let expected = match count.checked_mul(byte_width) {
                Some(expected) => expected,
                None => {
                    return Err(Error("invalid raw float length"));
                },
            };
            if length != expected {
                return Err(Error("invalid raw float length"));
            }
            let mut values: Vec<u64> = Vec::new();
            let mut i: usize = 0;
            while i < count
                invariant
                    1 <= byte_width <= 8,
                    bytes@.len() == count * byte_width,
                    count * byte_width <= usize::MAX,
                    i <= count,
                    values@ == Seq::new(
                        i as nat,
                        |k: int|
                            le_value(
                                bytes@.subrange(byte_width * k, byte_width * k + byte_width),
                            ) as u64,
                    ),
                decreases count - i,
            {
                proof {
                    assert(byte_width * i + byte_width <= count * byte_width) by (nonlinear_arith)
                        requires
                            i < count,
                    ;
                    assert(byte_width * i == i * byte_width) by (nonlinear_arith);
                    assert(i * byte_width <= count * byte_width) by (nonlinear_arith)
                        requires
                            i < count,
                    ;
                }
                let word = read_le(bytes, i * byte_width, byte_width);
                values.push(word);
                i = i + 1;
                proof {
                    assert(values@ =~= Seq::new(
                        i as nat,
                        |k: int|
                            le_value(
                                bytes@.subrange(byte_width * k, byte_width * k + byte_width),
                            ) as u64,
                    ));
                }
            }
            Ok(values)
        },
        Encoding::Xor { first, bit_width } => {
            let fields: usize = if count == 0 {
                0
            } else {
                count - 1
            };
            if bytes.len() != packed_length(fields, bit_width) {
                return Err(Error("invalid XOR float length"));
            }
            let xors = unpack(bytes, fields, bit_width);
            let mut values: Vec<u64> = Vec::new();
            if count == 0 {
                return Ok(values);
            }
            values.push(first);
            let mut k: usize = 0;
            proof {
                assert(xors@.take(0) =~= Seq::<u64>::empty());
            }
            while k < xors.len()
                invariant
                    k <= xors.len(),
                    values@.len() == k + 1,
                    values@ == xor_run(first, xors@.take(k as int)),
                decreases xors.len() - k,
            {
                proof {
                    assert(xors@.take(k + 1).drop_last() =~= xors@.take(k as int));
                }
                let last = values[values.len() - 1];
                values.push(last ^ xors[k]);
                k = k + 1;
            }
            proof {
                assert(xors@.take(k as int) =~= xors@);
            }
            Ok(values)
        },
    }
}

/// XOR packing is chosen exactly when it saves more than the first word and
/// width byte it needs, and the chosen bytes are never longer than the raw
/// ones.
pub proof fn lemma_xor_chosen_when_smaller(values: Seq<u64>, byte_width: nat)
    ensures
        ({
            let raw = raw_words(values, byte_width);
            let packed = spec_pack(neighbour_xors(values), xor_width(values));
            let (encoding, bytes) = spec_xor_encode(values, byte_width);
            &&& (encoding is Xor) == (packed.len() + byte_width + 1 < raw.len())
            &&& encoding is Xor ==> bytes == packed
            &&& encoding is Raw ==> bytes == raw
            &&& bytes.len() <= raw.len()
        }),
{
}

} // verus!
