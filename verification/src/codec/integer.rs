//! Integer columns: a header naming the compression and its parameters, the
//! validity, then the compressed values. Every integer type travels as `i64`.
use super::validity::{self, spec_read_validity, spec_validity, validity_flags, Validity, ValidityView};
use super::{slice_from, ColumnType};
use crate::compression::{self, spec_decode, spec_encode, supported, Encoding};
use crate::error::{from_compression, Error};
use crate::le::{lemma_u64_bits, read_i64, write_i64};
use crate::math::{i64_of_bits, le_bytes, le_value, lemma_le_round, lemma_pow2_facts, u64_bits};
use vstd::prelude::*;

verus! {

/// The header that names `encoding`: a tag byte, the `i64` parameters
/// little-endian, and the bit width.
pub open spec fn spec_put_encoding(encoding: Encoding) -> Seq<u8> {
    match encoding {
        Encoding::Raw => seq![0u8],
        Encoding::FrameOfReferenceBitPacked { minimum, bit_width } => seq![1u8] + le_bytes(
            u64_bits(minimum),
            8,
        ) + seq![bit_width],
        Encoding::DeltaBitPacked { first_value, bit_width } => seq![2u8] + le_bytes(
            u64_bits(first_value),
            8,
        ) + seq![bit_width],
        Encoding::DeltaOfDelta { first_value, first_delta, bit_width } => seq![3u8] + le_bytes(
            u64_bits(first_value),
            8,
        ) + le_bytes(u64_bits(first_delta), 8) + seq![bit_width],
    }
}

/// The little-endian two's complement `i64` at `at`.
pub open spec fn i64_at(bytes: Seq<u8>, at: int) -> i64 {
    i64_of_bits(le_value(bytes.subrange(at, at + 8))) as i64
}

/// Reading a header: the encoding and where the bytes after it start.
pub open spec fn spec_read_encoding(bytes: Seq<u8>) -> Result<(Encoding, int), Error> {
    if bytes.len() == 0 {
        Err(Error::UnexpectedEndOfInput)
    } else if bytes[0] == 0 {
        Ok((Encoding::Raw, 1))
    } else if bytes[0] == 1 {
        if bytes.len() < 10 {
            Err(Error::UnexpectedEndOfInput)
        } else {
            Ok((Encoding::FrameOfReferenceBitPacked { minimum: i64_at(bytes, 1), bit_width: bytes[9] }, 10))
        }
    } else if bytes[0] == 2 {
        if bytes.len() < 10 {
            Err(Error::UnexpectedEndOfInput)
        } else {
            Ok((Encoding::DeltaBitPacked { first_value: i64_at(bytes, 1), bit_width: bytes[9] }, 10))
        }
    } else if bytes[0] == 3 {
        if bytes.len() < 18 {
            Err(Error::UnexpectedEndOfInput)
        } else {
            Ok(
                (
                    Encoding::DeltaOfDelta {
                        first_value: i64_at(bytes, 1),
                        first_delta: i64_at(bytes, 9),
                        bit_width: bytes[17],
                    },
                    18,
                ),
            )
        }
    } else {
        Err(Error::InvalidMetadata("invalid Int64 encoding"))
    }
}

proof fn lemma_i64_round(bytes: Seq<u8>, at: int, value: i64)
    requires
        0 <= at,
        at + 8 <= bytes.len(),
        bytes.subrange(at, at + 8) == le_bytes(u64_bits(value), 8),
    ensures
        i64_at(bytes, at) == value,
{
    lemma_pow2_facts();
    lemma_u64_bits(value);
    lemma_le_round(u64_bits(value), 8);
}

/// Reading a written header gives its encoding back and ends where it ends.
pub proof fn lemma_encoding_round_trip(encoding: Encoding, rest: Seq<u8>)
    ensures
        spec_read_encoding(spec_put_encoding(encoding) + rest) == Ok::<(Encoding, int), Error>(
            (encoding, spec_put_encoding(encoding).len() as int),
        ),
{
    let bytes = spec_put_encoding(encoding) + rest;
    lemma_pow2_facts();
    match encoding {
        Encoding::Raw => {},
        Encoding::FrameOfReferenceBitPacked { minimum, bit_width } => {
            lemma_le_round(u64_bits(minimum), 8);
            lemma_u64_bits(minimum);
            assert(bytes.subrange(1, 9) =~= le_bytes(u64_bits(minimum), 8));
            lemma_i64_round(bytes, 1, minimum);
        },
        Encoding::DeltaBitPacked { first_value, bit_width } => {
            lemma_le_round(u64_bits(first_value), 8);
            lemma_u64_bits(first_value);
            assert(bytes.subrange(1, 9) =~= le_bytes(u64_bits(first_value), 8));
            lemma_i64_round(bytes, 1, first_value);
        },
        Encoding::DeltaOfDelta { first_value, first_delta, bit_width } => {
            lemma_le_round(u64_bits(first_value), 8);
            lemma_le_round(u64_bits(first_delta), 8);
            lemma_u64_bits(first_value);
            lemma_u64_bits(first_delta);
            assert(bytes.subrange(1, 9) =~= le_bytes(u64_bits(first_value), 8));
            assert(bytes.subrange(9, 17) =~= le_bytes(u64_bits(first_delta), 8));
            lemma_i64_round(bytes, 1, first_value);
            lemma_i64_round(bytes, 9, first_delta);
        },
    }
}

/// Appends the header that names `encoding`.
pub fn put_encoding(out: &mut Vec<u8>, encoding: Encoding)
    ensures
        final(out)@ == old(out)@ + spec_put_encoding(encoding),
{
    match encoding {
        Encoding::Raw => {
            out.push(0);
            proof {
                assert(out@ =~= old(out)@ + spec_put_encoding(encoding));
            }
        },
        Encoding::FrameOfReferenceBitPacked { minimum, bit_width } => {
            out.push(1);
            write_i64(out, minimum);
            out.push(bit_width);
            proof {
                assert(out@ =~= old(out)@ + spec_put_encoding(encoding));
            }
        },
        Encoding::DeltaBitPacked { first_value, bit_width } => {
            out.push(2);
            write_i64(out, first_value);
            out.push(bit_width);
            proof {
                assert(out@ =~= old(out)@ + spec_put_encoding(encoding));
            }
        },
        Encoding::DeltaOfDelta { first_value, first_delta, bit_width } => {
            out.push(3);
            write_i64(out, first_value);
            write_i64(out, first_delta);
            out.push(bit_width);
            proof {
                assert(out@ =~= old(out)@ + spec_put_encoding(encoding));
            }
        },
    }
}

/// Reads the header at the start of `bytes`: the encoding and where the bytes
/// after it start.
pub fn read_encoding(bytes: &[u8]) -> (result: Result<(Encoding, usize), Error>)
    ensures
        match result {
            Ok((encoding, at)) => spec_read_encoding(bytes@) == Ok::<(Encoding, int), Error>(
                (encoding, at as int),
            ),
            Err(e) => spec_read_encoding(bytes@) == Err::<(Encoding, int), Error>(e),
        },
{
    if bytes.len() == 0 {
        return Err(Error::UnexpectedEndOfInput);
    }
    let tag = bytes[0];
    if tag == 0 {
        Ok((Encoding::Raw, 1))
    } else if tag == 1 || tag == 2 {
        if bytes.len() < 10 {
            return Err(Error::UnexpectedEndOfInput);
        }
        let value = read_i64(bytes, 1);
        let bit_width = bytes[9];
        if tag == 1 {
            Ok((Encoding::FrameOfReferenceBitPacked { minimum: value, bit_width }, 10))
        } else {
            Ok((Encoding::DeltaBitPacked { first_value: value, bit_width }, 10))
        }
    } else if tag == 3 {
        if bytes.len() < 18 {
            return Err(Error::UnexpectedEndOfInput);
        }
        let first_value = read_i64(bytes, 1);
        let first_delta = read_i64(bytes, 9);
        Ok((Encoding::DeltaOfDelta { first_value, first_delta, bit_width: bytes[17] }, 18))
    } else {
        Err(Error::InvalidMetadata("invalid Int64 encoding"))
    }
}

/// The value a row carries into compression: its own when valid, else that
/// of the nearest valid row before it, else zero.
pub open spec fn carried_value(values: Seq<i64>, valid: Seq<bool>, i: int) -> i64
    decreases i + 1,
{
    if i < 0 {
        0
    } else if valid[i] {
        values[i]
    } else {
        carried_value(values, valid, i - 1)
    }
}

/// The values a column hands to compression.
pub open spec fn carried(values: Seq<i64>, valid: Seq<bool>) -> Seq<i64> {
    Seq::new(values.len(), |i: int| carried_value(values, valid, i))
}

/// Replaces every null row's value by the value carried into it.
pub fn carry_forward(values: &[i64], valid: &[bool]) -> (result: Vec<i64>)
    requires
        values.len() == valid.len(),
    ensures
        result@ == carried(values@, valid@),
{
    let mut result: Vec<i64> = Vec::new();
    let mut previous: i64 = 0;
    let mut i: usize = 0;
    while i < values.len()
        invariant
            values.len() == valid.len(),
            i <= values.len(),
            result@.len() == i,
            previous == carried_value(values@, valid@, i - 1),
            forall|j: int| 0 <= j < i ==> #[trigger] result@[j] == carried_value(values@, valid@, j),
        decreases values.len() - i,
    {
        if valid[i] {
            previous = values[i];
        }
        result.push(previous);
        i = i + 1;
    }
    proof {
        assert(result@ =~= carried(values@, valid@));
    }
    result
}

/// The chunk of an integer column with these values and valid rows.
pub open spec fn spec_encode_integers(values: Seq<i64>, valid: Seq<bool>) -> Seq<u8> {
    let (encoding, data) = spec_encode(carried(values, valid));
    spec_put_encoding(encoding) + spec_validity(valid) + data
}

/// Encodes an integer column: `values[i]` is row `i`'s value, read as `i64`,
/// and `valid[i]` says whether the row holds one.
pub fn encode(values: &[i64], valid: &[bool]) -> (chunk: Vec<u8>)
    requires
        values.len() == valid.len(),
    ensures
        chunk@ == spec_encode_integers(values@, valid@),
{
    let carried_values = carry_forward(values, valid);
    let (encoding, encoded) = match compression::encode(carried_values.as_slice()) {
        Ok(pair) => pair,
        Err(_) => {
            proof {
                assert(false);
            }
            (Encoding::Raw, Vec::new())
        },
    };
    let mut out: Vec<u8> = Vec::new();
    put_encoding(&mut out, encoding);
    validity::encode(valid, &mut out);
    let ghost before = out@;
    let mut k: usize = 0;
    while k < encoded.len()
        invariant
            k <= encoded.len(),
            out@ == before + encoded@.take(k as int),
        decreases encoded.len() - k,
    {
        out.push(encoded[k]);
        k = k + 1;
        proof {
            assert(out@ =~= before + encoded@.take(k as int));
        }
    }
    proof {
        assert(encoded@.take(k as int) =~= encoded@);
        assert(out@ =~= spec_encode_integers(values@, valid@));
    }
    out
}

/// Every bit width a chunk's header carries is one the decoder can unpack.
pub open spec fn decodable(bytes: Seq<u8>) -> bool {
    spec_read_encoding(bytes) matches Ok((encoding, _)) ==> supported(encoding)
}

/// What decoding an integer chunk of `length` rows gives: the validity and
/// every row's value as `i64`.
pub open spec fn spec_decode_integers(column: ColumnType, length: nat, bytes: Seq<u8>) -> Result<
    (ValidityView, Seq<i64>),
    Error,
> {
    if !column.spec_is_integer() {
        Err(Error::InvalidMetadata("integer codec used for another type"))
    } else {
        match spec_read_encoding(bytes) {
            Err(e) => Err(e),
            Ok((encoding, at)) => match spec_read_validity(bytes, at, length) {
                Err(e) => Err(e),
                Ok((validity, start)) => match spec_decode(
                    encoding,
                    bytes.subrange(start, bytes.len() as int),
                    length,
                ) {
                    Ok(values) => Ok((validity, values)),
                    Err(e) => Err(Error::InvalidMetadata(e.0)),
                },
            },
        }
    }
}

/// Whether the chunk's header carries a bit width the decoder can unpack.
pub fn header_decodable(bytes: &[u8]) -> (result: bool)
    ensures
        result == decodable(bytes@),
{
    match read_encoding(bytes) {
        Ok((Encoding::Raw, _)) => true,
        Ok((Encoding::FrameOfReferenceBitPacked { bit_width, .. }, _)) => bit_width <= 64,
        Ok((Encoding::DeltaBitPacked { bit_width, .. }, _)) => bit_width <= 64,
        Ok((Encoding::DeltaOfDelta { bit_width, .. }, _)) => bit_width <= 64,
        Err(_) => true,
    }
}

/// Decodes an integer chunk of `length` rows of type `column`.
pub fn decode(column: ColumnType, length: usize, bytes: &[u8]) -> (result: Result<
    (Validity, Vec<i64>),
    Error,
>)
    requires
        column.spec_is_integer() ==> decodable(bytes@),
    ensures
        match result {
            Ok((validity, values)) => spec_decode_integers(column, length as nat, bytes@) == Ok::<
                (ValidityView, Seq<i64>),
                Error,
            >((validity@, values@)),
            Err(e) => spec_decode_integers(column, length as nat, bytes@) == Err::<
                (ValidityView, Seq<i64>),
                Error,
            >(e),
        },
{
    if !column.is_integer() {
        return Err(Error::InvalidMetadata("integer codec used for another type"));
    }
    let (encoding, mut at) = read_encoding(bytes)?;
    let nulls = validity::decode(bytes, &mut at, length)?;
    let rest = slice_from(bytes, at);
    match compression::decode(encoding, rest.as_slice(), length) {
        Ok(values) => Ok((nulls, values)),
        Err(e) => Err(from_compression(e)),
    }
}

/// Decoding an encoded integer column gives every row's validity back and,
/// for every valid row, its value.
pub proof fn lemma_integers_round_trip(column: ColumnType, values: Seq<i64>, valid: Seq<bool>)
    requires
        column.spec_is_integer(),
        values.len() == valid.len(),
    ensures
        decodable(spec_encode_integers(values, valid)),
        spec_decode_integers(column, values.len(), spec_encode_integers(values, valid)) matches Ok(
            (validity, decoded),
        ) && validity_flags(validity, values.len()) == valid && decoded.len() == values.len()
            && forall|i: int| 0 <= i < values.len() && valid[i] ==> #[trigger] decoded[i]
            == values[i],
{
    let c = carried(values, valid);
    let (encoding, data) = spec_encode(c);
    let header = spec_put_encoding(encoding);
    let bytes = spec_encode_integers(values, valid);
    compression::lemma_decode_encode(c);
    lemma_encoding_round_trip(encoding, spec_validity(valid) + data);
    assert(bytes =~= header + (spec_validity(valid) + data));
    validity::lemma_validity_round_trip(header, valid, data);
    assert(bytes =~= header + spec_validity(valid) + data);
    let start = header.len() + spec_validity(valid).len();
    assert(bytes.subrange(start as int, bytes.len() as int) =~= data);
    assert forall|i: int| 0 <= i < values.len() && valid[i] implies #[trigger] c[i] == values[i] by {
    }
}

proof fn lemma_carried_value_is_last_valid(values: Seq<i64>, valid: Seq<bool>, i: int, j: int)
    requires
        0 <= i < valid.len(),
        -1 <= j <= i,
        j >= 0 ==> valid[j],
        forall|k: int| j < k <= i ==> !#[trigger] valid[k],
    ensures
        carried_value(values, valid, i) == if j >= 0 {
            values[j]
        } else {
            0
        },
    decreases i - j,
{
    if i == j {
        assert(valid[i]);
    } else {
        assert(!valid[i]);
        assert(carried_value(values, valid, i) == carried_value(values, valid, i - 1));
        if i > 0 {
            lemma_carried_value_is_last_valid(values, valid, i - 1, j);
        } else {
            assert(carried_value(values, valid, -1) == 0);
        }
    }
}

/// A null row hands compression the value of the last valid row before it,
/// or zero when there is none; a valid row hands its own value.
pub proof fn lemma_null_rows_carry_last_valid(values: Seq<i64>, valid: Seq<bool>, i: int, j: int)
    requires
        values.len() == valid.len(),
        0 <= i < valid.len(),
        -1 <= j <= i,
        j >= 0 ==> valid[j],
        forall|k: int| j < k <= i ==> !#[trigger] valid[k],
    ensures
        carried(values, valid)[i] == if j >= 0 {
            values[j]
        } else {
            0
        },
{
    lemma_carried_value_is_last_valid(values, valid, i, j);
}

} // verus!
