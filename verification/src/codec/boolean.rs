//! Boolean columns: a mode byte, the validity, then the set rows as a plain
//! bitmap (mode 0), as run lengths (mode 1) or as BCA blocks (mode 2),
//! whichever is shortest.
use super::slice_from;
use super::validity::{self, spec_read_validity, spec_validity, validity_flags, Validity, ValidityView};
use super::ColumnType;
use crate::bitmap::{
    bitmap_len, lemma_holds_unique, lemma_pack_bits_read, pack_bits, spec_bits, spec_pack_bits,
};
use crate::compression::bca::{self, spec_bca_decode, spec_bca_encode};
use crate::compression::rle::{self, runs_fit, spec_rle_decode, spec_rle_encode};
use crate::error::{from_compression, Error};
use vstd::prelude::*;

verus! {

/// The rows a boolean column stores as set: valid rows holding `true`.
pub open spec fn set_rows(values: Seq<bool>, valid: Seq<bool>) -> Seq<bool> {
    Seq::new(values.len(), |i: int| valid[i] && values[i])
}

/// The mode and bytes of the shortest layout of `flags`; the bitmap wins a
/// tie with run lengths, and both win a tie with BCA.
pub open spec fn shortest_layout(flags: Seq<bool>) -> (u8, Seq<u8>) {
    let packed = spec_pack_bits(flags);
    let runs = spec_rle_encode(flags);
    let blocks = spec_bca_encode(flags);
    let best = if runs.len() < packed.len() {
        (1u8, runs)
    } else {
        (0u8, packed)
    };
    if blocks.len() < best.1.len() {
        (2u8, blocks)
    } else {
        best
    }
}

/// The chunk of a boolean column with these values and valid rows.
pub open spec fn spec_encode_booleans(values: Seq<bool>, valid: Seq<bool>) -> Seq<u8> {
    let (mode, data) = shortest_layout(set_rows(values, valid));
    seq![mode] + spec_validity(valid) + data
}

fn append(out: &mut Vec<u8>, data: &Vec<u8>)
    ensures
        final(out)@ == old(out)@ + data@,
{
    let mut k: usize = 0;
    while k < data.len()
        invariant
            k <= data.len(),
            out@ == old(out)@ + data@.take(k as int),
        decreases data.len() - k,
    {
        out.push(data[k]);
        k = k + 1;
        proof {
            assert(out@ =~= old(out)@ + data@.take(k as int));
        }
    }
    proof {
        assert(data@.take(k as int) =~= data@);
    }
}

/// Encodes a boolean column: `values[i]` is row `i`'s value and `valid[i]`
/// says whether the row holds one.
pub fn encode(values: &[bool], valid: &[bool]) -> (chunk: Vec<u8>)
    requires
        values.len() == valid.len(),
        runs_fit(set_rows(values@, valid@)),
    ensures
        chunk@ == spec_encode_booleans(values@, valid@),
{
    let count = values.len();
    let mut flags: Vec<bool> = Vec::new();
    let mut i: usize = 0;
    while i < count
        invariant
            count == values.len(),
            values.len() == valid.len(),
            i <= count,
            flags@ == set_rows(values@, valid@).take(i as int),
        decreases count - i,
    {
        flags.push(valid[i] && values[i]);
        i = i + 1;
        proof {
            assert(flags@ =~= set_rows(values@, valid@).take(i as int));
        }
    }
    proof {
        assert(flags@ =~= set_rows(values@, valid@));
    }
    let packed = pack_bits(flags.as_slice());
    proof {
        lemma_pack_bits_read(flags@);
    }
    let runs = rle::encode(packed.as_slice(), count);
    let blocks = bca::encode(packed.as_slice(), count);
    let mut mode: u8 = 0;
    let mut best = packed;
    if runs.len() < best.len() {
        mode = 1;
        best = runs;
    }
    if blocks.len() < best.len() {
        mode = 2;
        best = blocks;
    }
    let mut out: Vec<u8> = Vec::new();
    out.push(mode);
    validity::encode(valid, &mut out);
    append(&mut out, &best);
    out
}

/// What decoding a boolean chunk of `length` rows gives: the validity and the
/// bitmap of set rows.
pub open spec fn spec_decode_booleans(column: ColumnType, length: nat, bytes: Seq<u8>) -> Result<
    (ValidityView, Seq<u8>),
    Error,
> {
    if column != ColumnType::Boolean {
        Err(Error::InvalidMetadata("boolean codec used for another type"))
    } else if bytes.len() == 0 {
        Err(Error::UnexpectedEndOfInput)
    } else {
        match spec_read_validity(bytes, 1, length) {
            Err(e) => Err(e),
            Ok((validity, at)) => {
                let rest = bytes.subrange(at, bytes.len() as int);
                if bytes[0] == 0 {
                    if rest.len() == bitmap_len(length) {
                        Ok((validity, rest))
                    } else {
                        Err(Error::InvalidMetadata("invalid boolean bitmap length"))
                    }
                } else if bytes[0] == 1 {
                    match spec_rle_decode(rest, length) {
                        Ok(flags) => Ok((validity, spec_pack_bits(flags))),
                        Err(e) => Err(Error::InvalidMetadata(e.0)),
                    }
                } else if bytes[0] == 2 {
                    match spec_bca_decode(rest, length) {
                        Ok(flags) => Ok((validity, spec_pack_bits(flags))),
                        Err(e) => Err(Error::InvalidMetadata(e.0)),
                    }
                } else {
                    Err(Error::InvalidMetadata("invalid boolean encoding"))
                }
            },
        }
    }
}

/// Decodes a boolean chunk of `length` rows of type `column`.
pub fn decode(column: ColumnType, length: usize, bytes: &[u8]) -> (result: Result<
    (Validity, Vec<u8>),
    Error,
>)
    ensures
        match result {
            Ok((validity, bitmap)) => spec_decode_booleans(column, length as nat, bytes@) == Ok::<
                (ValidityView, Seq<u8>),
                Error,
            >((validity@, bitmap@)),
            Err(e) => spec_decode_booleans(column, length as nat, bytes@) == Err::<
                (ValidityView, Seq<u8>),
                Error,
            >(e),
        },
{
    if column != ColumnType::Boolean {
        return Err(Error::InvalidMetadata("boolean codec used for another type"));
    }
    if bytes.len() == 0 {
        return Err(Error::UnexpectedEndOfInput);
    }
    let mode = bytes[0];
    let mut at: usize = 1;
    let nulls = validity::decode(bytes, &mut at, length)?;
    let rest = slice_from(bytes, at);
    if mode == 0 {
        let size = length / 8 + if length % 8 != 0 {
            1
        } else {
            0
        };
        if rest.len() == size {
            Ok((nulls, rest))
        } else {
            Err(Error::InvalidMetadata("invalid boolean bitmap length"))
        }
    } else if mode == 1 {
        match rle::decode(rest.as_slice(), length) {
            Ok(bitmap) => {
                proof {
                    let flags = spec_rle_decode(rest@, length as nat)->Ok_0;
                    lemma_holds_unique(bitmap@, flags);
                }
                Ok((nulls, bitmap))
            },
            Err(e) => Err(from_compression(e)),
        }
    } else if mode == 2 {
        match bca::decode(rest.as_slice(), length) {
            Ok(bitmap) => {
                proof {
                    let flags = spec_bca_decode(rest@, length as nat)->Ok_0;
                    lemma_holds_unique(bitmap@, flags);
                }
                Ok((nulls, bitmap))
            },
            Err(e) => Err(from_compression(e)),
        }
    } else {
        Err(Error::InvalidMetadata("invalid boolean encoding"))
    }
}

/// Decoding an encoded boolean column gives every row's validity back, and a
/// bitmap whose first bits are the set rows: valid rows holding `true`.
pub proof fn lemma_booleans_round_trip(values: Seq<bool>, valid: Seq<bool>)
    requires
        values.len() == valid.len(),
        runs_fit(set_rows(values, valid)),
    ensures
        spec_decode_booleans(ColumnType::Boolean, values.len(), spec_encode_booleans(values, valid))
            matches Ok((validity, bitmap)) && validity_flags(validity, values.len()) == valid
            && spec_bits(bitmap, values.len()) == set_rows(values, valid) && forall|i: int|
            0 <= i < values.len() ==> #[trigger] spec_bits(bitmap, values.len())[i] == (valid[i]
                && values[i]),
{
    let flags = set_rows(values, valid);
    let (mode, data) = shortest_layout(flags);
    let bytes = spec_encode_booleans(values, valid);
    let prefix = seq![mode];
    assert(bytes =~= prefix + spec_validity(valid) + data);
    validity::lemma_validity_round_trip(prefix, valid, data);
    let start = 1 + spec_validity(valid).len();
    assert(bytes.subrange(start as int, bytes.len() as int) =~= data);
    lemma_pack_bits_read(flags);
    if mode == 1 {
        rle::lemma_rle_round_trip(flags);
    } else if mode == 2 {
        bca::lemma_bca_round_trip(flags);
    }
}

/// The chosen boolean layout is one of the three, named by its mode byte, and
/// no longer than any of them; on a tie the bitmap beats run lengths and both
/// beat BCA blocks.
pub proof fn lemma_layout_is_shortest(flags: Seq<bool>)
    ensures
        ({
            let (mode, data) = shortest_layout(flags);
            let packed = spec_pack_bits(flags);
            let runs = spec_rle_encode(flags);
            let blocks = spec_bca_encode(flags);
            &&& data.len() <= packed.len()
            &&& data.len() <= runs.len()
            &&& data.len() <= blocks.len()
            &&& mode == 0 ==> data == packed
            &&& mode == 1 ==> data == runs && runs.len() < packed.len()
            &&& mode == 2 ==> data == blocks && blocks.len() < packed.len() && blocks.len()
                < runs.len()
            &&& mode <= 2
        }),
{
}

/// A boolean chunk is its mode byte, the validity, then the shortest layout of
/// the set rows.
pub proof fn lemma_boolean_chunk_length(values: Seq<bool>, valid: Seq<bool>)
    requires
        values.len() == valid.len(),
    ensures
        spec_encode_booleans(values, valid).len() == 1 + spec_validity(valid).len() + shortest_layout(
            set_rows(values, valid),
        ).1.len(),
        spec_encode_booleans(values, valid).len() <= 1 + spec_validity(valid).len() + spec_bca_encode(
            set_rows(values, valid),
        ).len(),
        spec_encode_booleans(values, valid).len() <= 1 + spec_validity(valid).len() + spec_rle_encode(
            set_rows(values, valid),
        ).len(),
        spec_encode_booleans(values, valid).len() <= 1 + spec_validity(valid).len() + spec_pack_bits(
            set_rows(values, valid),
        ).len(),
{
    lemma_layout_is_shortest(set_rows(values, valid));
}

} // verus!
