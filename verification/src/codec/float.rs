//! Floating-point columns: a mode byte (0 raw, 1 XOR), for XOR the first
//! word's low bytes and the bit width, then the validity and the words.
//! Values travel as the little-endian words of their bits.
use super::slice_from;
use super::validity::{self, spec_read_validity, spec_validity, validity_flags, Validity, ValidityView};
use super::ColumnType;
use crate::compression::xor::{self, decodable, raw_words, spec_xor_decode, spec_xor_encode, Encoding};
use crate::compression::{
    bit_length, lemma_bit_length_fits, packed_byte_count, seq_max, spec_pack,
};
use crate::error::{from_compression, Error};
use crate::le::{read_le, write_le};
use crate::math::{
    le_bytes, le_value, lemma_le_bytes_len, lemma_le_bytes_of_value, lemma_le_round,
    lemma_le_value_bound, lemma_pow2_facts,
};
use vstd::arithmetic::power2::pow2;
use vstd::prelude::*;

verus! {

/// The word of row `i`: its `width` bytes read little-endian.
pub open spec fn word_at(data: Seq<u8>, width: nat, i: int) -> u64 {
    le_value(data.subrange(width * i, width * i + width)) as u64
}

/// The word a row carries into compression: its own when valid, else that of
/// the nearest valid row before it, else zero.
pub open spec fn carried_word(data: Seq<u8>, width: nat, valid: Seq<bool>, i: int) -> u64
    decreases i + 1,
{
    if i < 0 {
        0
    } else if valid[i] {
        word_at(data, width, i)
    } else {
        carried_word(data, width, valid, i - 1)
    }
}

/// The words a column hands to compression.
pub open spec fn carried_words(data: Seq<u8>, width: nat, valid: Seq<bool>) -> Seq<u64> {
    Seq::new(valid.len(), |i: int| carried_word(data, width, valid, i))
}

/// The header of a float chunk stored with `encoding`.
pub open spec fn spec_float_header(encoding: Encoding, width: nat) -> Seq<u8> {
    match encoding {
        Encoding::Raw => seq![0u8],
        Encoding::Xor { first, bit_width } => seq![1u8] + le_bytes(first as nat, width) + seq![
            bit_width,
        ],
    }
}

/// The chunk of a float column of `width`-byte values.
pub open spec fn spec_encode_floats(width: nat, data: Seq<u8>, valid: Seq<bool>) -> Seq<u8> {
    let (encoding, encoded) = spec_xor_encode(carried_words(data, width, valid), width);
    spec_float_header(encoding, width) + spec_validity(valid) + encoded
}

proof fn lemma_xor_below(a: u64, b: u64, width: nat)
    requires
        width == 2 || width == 4 || width == 8,
        (a as nat) < pow2(8 * width),
        (b as nat) < pow2(8 * width),
    ensures
        ((a ^ b) as nat) < pow2(8 * width),
{
    lemma_pow2_facts();
    if width == 2 {
        assert(a < 0x10000u64 && b < 0x10000u64 ==> a ^ b < 0x10000u64) by (bit_vector);
    } else if width == 4 {
        assert(a < 0x1_0000_0000u64 && b < 0x1_0000_0000u64 ==> a ^ b < 0x1_0000_0000u64)
            by (bit_vector);
    }
}

proof fn lemma_max_below(values: Seq<u64>, bound: nat)
    requires
        bound > 0,
        forall|i: int| 0 <= i < values.len() ==> (values[i] as nat) < bound,
    ensures
        (seq_max(values) as nat) < bound,
    decreases values.len(),
{
    if values.len() > 0 {
        lemma_max_below(values.drop_last(), bound);
    }
}

proof fn lemma_carried_below(data: Seq<u8>, width: nat, valid: Seq<bool>, i: int)
    requires
        width == 2 || width == 4 || width == 8,
        data.len() == width * valid.len(),
        i < valid.len(),
    ensures
        (carried_word(data, width, valid, i) as nat) < pow2(8 * width),
    decreases i + 1,
{
    lemma_pow2_facts();
    vstd::arithmetic::power2::lemma_pow2_pos(8 * width);
    if i >= 0 {
        if valid[i] {
            let chunk = data.subrange(width * i, width * i + width);
            lemma_le_value_bound(chunk);
            assert(width * i + width <= width * valid.len()) by (nonlinear_arith)
                requires
                    i < valid.len(),
                    0 <= i,
            ;
            assert(chunk.len() == width);
            crate::math::lemma_pow2_le(8 * width, 64);
        } else {
            lemma_carried_below(data, width, valid, i - 1);
        }
    }
}

/// The packed XORs of words of `width` bytes take no more room than the words.
proof fn lemma_packed_room(words: Seq<u64>, width: nat)
    requires
        width == 2 || width == 4 || width == 8,
        forall|i: int| 0 <= i < words.len() ==> (words[i] as nat) < pow2(8 * width),
    ensures
        xor::xor_width(words) <= 8 * width,
        words.len() == 0 ==> spec_pack(xor::neighbour_xors(words), xor::xor_width(words)).len()
            == 0,
        words.len() > 0 ==> spec_pack(xor::neighbour_xors(words), xor::xor_width(words)).len()
            + width <= width * words.len(),
{
    let xors = xor::neighbour_xors(words);
    lemma_pow2_facts();
    vstd::arithmetic::power2::lemma_pow2_pos(8 * width);
    assert forall|i: int| 0 <= i < xors.len() implies (xors[i] as nat) < pow2(8 * width) by {
        lemma_xor_below(words[i], words[i + 1], width);
    }
    lemma_max_below(xors, pow2(8 * width));
    lemma_bit_length_fits(seq_max(xors) as nat, 8 * width);
    let w = xor::xor_width(words);
    lemma_le_bytes_len(crate::compression::packed_value(xors, w), packed_byte_count(xors.len(), w));
    let n = xors.len();
    assert((n * w + 7) / 8 <= n * width) by (nonlinear_arith)
        requires
            w <= 8 * width,
    ;
    if words.len() > 0 {
        assert(n + 1 == words.len());
        assert(n * width + width == width * words.len()) by (nonlinear_arith)
            requires
                n + 1 == words.len(),
        ;
    } else {
        assert(n == 0);
        assert(n * w == 0);
    }
}

/// Encodes a column whose values take `width` bytes each: `data` holds row
/// `i`'s bytes at `width * i`, and `valid[i]` says whether the row holds a
/// value. Columns of other types give `None`.
pub fn encode(column: ColumnType, data: &[u8], valid: &[bool]) -> (chunk: Option<Vec<u8>>)
    requires
        column.spec_float_width() matches Some(width) ==> data.len() == width * valid.len(),
        data.len() < usize::MAX,
    ensures
        match column.spec_float_width() {
            Some(width) => chunk matches Some(bytes) && bytes@ == spec_encode_floats(
                width as nat,
                data@,
                valid@,
            ),
            None => chunk is None,
        },
{
    let width = match column.float_width() {
        Some(width) => width,
        None => {
            return None;
        },
    };
    let ghost words_spec = carried_words(data@, width as nat, valid@);
    let mut words: Vec<u64> = Vec::new();
    let mut previous: u64 = 0;
    let mut i: usize = 0;
    while i < valid.len()
        invariant
            width == 2 || width == 4 || width == 8,
            data.len() == width * valid.len(),
            i <= valid.len(),
            words@.len() == i,
            previous == carried_word(data@, width as nat, valid@, i - 1),
            forall|j: int| 0 <= j < i ==> #[trigger] words@[j] == carried_word(
                data@,
                width as nat,
                valid@,
                j,
            ),
        decreases valid.len() - i,
    {
        if valid[i] {
            proof {
                assert(width * i + width <= width * valid.len()) by (nonlinear_arith)
                    requires
                        i < valid.len(),
                ;
            }
            previous = read_le(data, width * i, width);
        }
        words.push(previous);
        i = i + 1;
    }
    proof {
        assert(words@ =~= words_spec);
        assert forall|j: int| 0 <= j < words@.len() implies (words@[j] as nat) < pow2(
            8 * width as nat,
        ) by {
            lemma_carried_below(data@, width as nat, valid@, j);
        }
        lemma_packed_room(words@, width as nat);
    }
    let (encoding, encoded) = xor::encode(words.as_slice(), width);
    let mut out: Vec<u8> = Vec::new();
    match encoding {
        Encoding::Raw => {
            out.push(0);
        },
        Encoding::Xor { first, bit_width } => {
            out.push(1);
            write_le(&mut out, first, width);
            out.push(bit_width);
        },
    }
    proof {
        assert(out@ =~= spec_float_header(encoding, width as nat));
    }
    validity::encode(valid, &mut out);
    let ghost before = out@;
    let mut k: usize = 0;
    while k < encoded.len()
        invariant
            k <= encoded.len(),
            out@ == before + encoded@.take(k as int),
        decreases encoded.len() - k,
    {
        out.push(encoded[k]);
        k = k + 1;
        proof {
            assert(out@ =~= before + encoded@.take(k as int));
        }
    }
    proof {
        assert(encoded@.take(k as int) =~= encoded@);
    }
    Some(out)
}

/// Reading a float chunk's header: the encoding and where the validity starts.
pub open spec fn spec_read_float_header(bytes: Seq<u8>, width: nat) -> Result<(Encoding, int), Error> {
    if bytes.len() == 0 {
        Err(Error::InvalidMetadata("invalid float encoding"))
    } else if bytes[0] == 0 {
        Ok((Encoding::Raw, 1))
    } else if bytes[0] == 1 {
        if bytes.len() < 2 + width {
            Err(Error::UnexpectedEndOfInput)
        } else {
            Ok(
                (
                    Encoding::Xor {
                        first: le_value(bytes.subrange(1, 1 + width as int)) as u64,
                        bit_width: bytes[1 + width as int],
                    },
                    2 + width as int,
                ),
            )
        }
    } else {
        Err(Error::InvalidMetadata("invalid float encoding"))
    }
}

/// What decoding a float chunk of `length` rows gives: the validity and the
/// rows' bytes, `width` per row.
pub open spec fn spec_decode_floats(column: ColumnType, length: nat, bytes: Seq<u8>) -> Result<
    (ValidityView, Seq<u8>),
    Error,
> {
    match column.spec_float_width() {
        None => Err(Error::InvalidMetadata("float codec used for another type")),
        Some(width) => match spec_read_float_header(bytes, width as nat) {
            Err(e) => Err(e),
            Ok((encoding, at)) => match spec_read_validity(bytes, at, length) {
                Err(e) => Err(e),
                Ok((validity, start)) => match spec_xor_decode(
                    encoding,
                    bytes.subrange(start, bytes.len() as int),
                    length,
                    width as nat,
                ) {
                    Ok(words) => Ok((validity, raw_words(words, width as nat))),
                    Err(e) => Err(Error::InvalidMetadata(e.0)),
                },
            },
        },
    }
}

/// The chunk's header carries a bit width the decoder can unpack.
pub open spec fn header_decodable(column: ColumnType, bytes: Seq<u8>) -> bool {
    column.spec_float_width() matches Some(width) ==> (spec_read_float_header(
        bytes,
        width as nat,
    ) matches Ok((encoding, _)) ==> decodable(encoding, width as nat))
}

/// Whether the chunk's header carries a bit width the decoder can unpack.
pub fn check_header(column: ColumnType, bytes: &[u8]) -> (result: bool)
    ensures
        result == header_decodable(column, bytes@),
{
    match column.float_width() {
        None => true,
        Some(width) => {
            if bytes.len() >= 2 + width && bytes[0] == 1 {
                bytes[1 + width] <= 64
            } else {
                true
            }
        },
    }
}

/// Decodes a float chunk of `length` rows of type `column`.
pub fn decode(column: ColumnType, length: usize, bytes: &[u8]) -> (result: Result<
    (Validity, Vec<u8>),
    Error,
>)
    requires
        header_decodable(column, bytes@),
    ensures
        match result {
            Ok((validity, values)) => spec_decode_floats(column, length as nat, bytes@) == Ok::<
                (ValidityView, Seq<u8>),
                Error,
            >((validity@, values@)),
            Err(e) => spec_decode_floats(column, length as nat, bytes@) == Err::<
                (ValidityView, Seq<u8>),
                Error,
            >(e),
        },
{
    let width = match column.float_width() {
        Some(width) => width,
        None => {
            return Err(Error::InvalidMetadata("float codec used for another type"));
        },
    };
    if bytes.len() == 0 {
        return Err(Error::InvalidMetadata("invalid float encoding"));
    }
    let (encoding, mut at) = if bytes[0] == 0 {
        (Encoding::Raw, 1)
    } else if bytes[0] == 1 {
        if bytes.len() < 2 + width {
            return Err(Error::UnexpectedEndOfInput);
        }
        let first = read_le(bytes, 1, width);
        (Encoding::Xor { first, bit_width: bytes[1 + width] }, 2 + width)
    } else {
        return Err(Error::InvalidMetadata("invalid float encoding"));
    };
    let nulls = validity::decode(bytes, &mut at, length)?;
    let rest = slice_from(bytes, at);
    let words = match xor::decode(encoding, rest.as_slice(), length, width) {
        Ok(words) => words,
        Err(e) => {
            return Err(from_compression(e));
        },
    };
    let mut values: Vec<u8> = Vec::new();
    let mut k: usize = 0;
    while k < words.len()
        invariant
            width == 2 || width == 4 || width == 8,
            k <= words.len(),
            values@ == raw_words(words@.take(k as int), width as nat),
        decreases words.len() - k,
    {
        proof {
            assert(words@.take(k + 1).drop_last() =~= words@.take(k as int));
        }
        write_le(&mut values, words[k], width);
        k = k + 1;
    }
    proof {
        assert(words@.take(k as int) =~= words@);
    }
    Ok((nulls, values))
}

/// Decoding an encoded float column gives every row's validity back, bytes
/// for every row, and for every valid row its own bytes.
pub proof fn lemma_floats_round_trip(column: ColumnType, data: Seq<u8>, valid: Seq<bool>)
    requires
        column.spec_float_width() is Some,
        data.len() == column.spec_float_width()->Some_0 * valid.len(),
        valid.len() * 64 <= usize::MAX,
    ensures
        header_decodable(
            column,
            spec_encode_floats(column.spec_float_width()->Some_0 as nat, data, valid),
        ),
        spec_decode_floats(
            column,
            valid.len(),
            spec_encode_floats(column.spec_float_width()->Some_0 as nat, data, valid),
        ) matches Ok((validity, values)) && validity_flags(validity, valid.len()) == valid
            && values.len() == data.len() && forall|i: int|
            0 <= i < valid.len() && valid[i] ==> #[trigger] values.subrange(
                column.spec_float_width()->Some_0 * i,
                column.spec_float_width()->Some_0 * i + column.spec_float_width()->Some_0,
            ) == data.subrange(
                column.spec_float_width()->Some_0 * i,
                column.spec_float_width()->Some_0 * i + column.spec_float_width()->Some_0,
            ),
{
    let width = column.spec_float_width()->Some_0 as nat;
    let words = carried_words(data, width, valid);
    let (encoding, encoded) = spec_xor_encode(words, width);
    let header = spec_float_header(encoding, width);
    let bytes = spec_encode_floats(width, data, valid);
    lemma_pow2_facts();
    assert forall|j: int| 0 <= j < words.len() implies (words[j] as nat) < pow2(8 * width) by {
        lemma_carried_below(data, width, valid, j);
    }
    assert(xor::neighbour_xors(words).len() * xor::xor_width(words) <= usize::MAX) by {
        crate::compression::lemma_seq_max(xor::neighbour_xors(words));
        lemma_bit_length_fits(seq_max(xor::neighbour_xors(words)) as nat, 64);
        assert(xor::neighbour_xors(words).len() * xor::xor_width(words) <= valid.len() * 64)
            by (nonlinear_arith)
            requires
                xor::neighbour_xors(words).len() <= valid.len(),
                xor::xor_width(words) <= 64,
        ;
    }
    xor::lemma_xor_round_trip(words, width);
    assert(bytes =~= header + spec_validity(valid) + encoded);
    match encoding {
        Encoding::Raw => {},
        Encoding::Xor { first, bit_width } => {
            lemma_le_round(first as nat, width);
            assert(bytes.subrange(1, 1 + width as int) =~= le_bytes(first as nat, width));
            assert(bytes[1 + width as int] == bit_width);
        },
    }
    assert(spec_read_float_header(bytes, width) == Ok::<(Encoding, int), Error>(
        (encoding, header.len() as int),
    ));
    validity::lemma_validity_round_trip(header, valid, encoded);
    let start = header.len() + spec_validity(valid).len();
    assert(bytes.subrange(start as int, bytes.len() as int) =~= encoded);
    let values = raw_words(words, width);
    xor::lemma_raw_words_len(words, width);
    assert forall|i: int| 0 <= i < valid.len() && valid[i] implies #[trigger] values.subrange(
        width * i,
        width * i + width,
    ) == data.subrange(width * i, width * i + width) by {
        xor::lemma_raw_words_layout(words, width, i);
        let chunk = data.subrange(width * i, width * i + width);
        assert(width * i + width <= width * valid.len()) by (nonlinear_arith)
            requires
                i < valid.len(),
                0 <= i,
        ;
        lemma_le_value_bound(chunk);
        lemma_le_bytes_of_value(chunk);
        crate::math::lemma_pow2_le(8 * width, 64);
        assert(words[i] == word_at(data, width, i));
    }
}

proof fn lemma_carried_word_is_last_valid(
    data: Seq<u8>,
    width: nat,
    valid: Seq<bool>,
    i: int,
    j: int,
)
    requires
        0 <= i < valid.len(),
        -1 <= j <= i,
        j >= 0 ==> valid[j],
        forall|k: int| j < k <= i ==> !#[trigger] valid[k],
    ensures
        carried_word(data, width, valid, i) == if j >= 0 {
            le_value(data.subrange(width * j, width * j + width)) as u64
        } else {
            0
        },
    decreases i - j,
{
    if i == j {
        assert(valid[i]);
    } else {
        assert(!valid[i]);
        assert(carried_word(data, width, valid, i) == carried_word(data, width, valid, i - 1));
        if i > 0 {
            lemma_carried_word_is_last_valid(data, width, valid, i - 1, j);
        } else {
            assert(carried_word(data, width, valid, -1) == 0);
        }
    }
}

/// A null row hands compression the word of the last valid row before it, or
/// zero when there is none; a valid row hands its own bytes as a word.
pub proof fn lemma_null_rows_carry_last_word(
    data: Seq<u8>,
    width: nat,
    valid: Seq<bool>,
    i: int,
    j: int,
)
    requires
        0 <= i < valid.len(),
        -1 <= j <= i,
        j >= 0 ==> valid[j],
        forall|k: int| j < k <= i ==> !#[trigger] valid[k],
    ensures
        carried_words(data, width, valid)[i] == if j >= 0 {
            le_value(data.subrange(width * j, width * j + width)) as u64
        } else {
            0
        },
{
    lemma_carried_word_is_last_valid(data, width, valid, i, j);
}

} // verus!
