//! Validity of a column: one byte saying whether every row is valid, every
//! row is null, or a bitmap of valid rows follows.
use crate::bitmap::{bitmap_len, lemma_pack_bits_read, pack_bits, spec_bits, spec_pack_bits};
use crate::error::Error;
use vstd::prelude::*;

verus! {

/// Which rows of a decoded column hold a value.
#[derive(Debug, PartialEq, Eq)]
pub enum Validity {
    AllValid,
    AllNull,
    /// Bit `i` is set when row `i` holds a value.
    Bitmap(Vec<u8>),
}

/// A validity as a mathematical value.
pub enum ValidityView {
    AllValid,
    AllNull,
    Bitmap(Seq<u8>),
}

impl View for Validity {
    type V = ValidityView;

    open spec fn view(&self) -> ValidityView {
        match self {
            Validity::AllValid => ValidityView::AllValid,
            Validity::AllNull => ValidityView::AllNull,
            Validity::Bitmap(bitmap) => ValidityView::Bitmap(bitmap@),
        }
    }
}

/// Every row holds a value.
pub open spec fn all_valid(valid: Seq<bool>) -> bool {
    forall|i: int| 0 <= i < valid.len() ==> #[trigger] valid[i]
}

/// No row holds a value.
pub open spec fn all_null(valid: Seq<bool>) -> bool {
    forall|i: int| 0 <= i < valid.len() ==> !#[trigger] valid[i]
}

/// The validity bytes of a column whose rows are valid where `valid` is set.
pub open spec fn spec_validity(valid: Seq<bool>) -> Seq<u8> {
    if all_valid(valid) {
        seq![0u8]
    } else if all_null(valid) {
        seq![1u8]
    } else {
        seq![2u8] + spec_pack_bits(valid)
    }
}

/// Reading the validity at `at` of a column of `length` rows: the validity
/// and where the bytes after it start.
pub open spec fn spec_read_validity(bytes: Seq<u8>, at: int, length: nat) -> Result<
    (ValidityView, int),
    Error,
> {
    if at < 0 || at >= bytes.len() {
        Err(Error::UnexpectedEndOfInput)
    } else if bytes[at] == 0 {
        Ok((ValidityView::AllValid, at + 1))
    } else if bytes[at] == 1 {
        Ok((ValidityView::AllNull, at + 1))
    } else if bytes[at] == 2 {
        let end = at + 1 + bitmap_len(length);
        if end <= bytes.len() {
            Ok((ValidityView::Bitmap(bytes.subrange(at + 1, end)), end))
        } else {
            Err(Error::UnexpectedEndOfInput)
        }
    } else {
        Err(Error::InvalidMetadata("invalid validity encoding"))
    }
}

/// Which of `length` rows a validity marks valid.
pub open spec fn validity_flags(validity: ValidityView, length: nat) -> Seq<bool> {
    match validity {
        ValidityView::AllValid => Seq::new(length, |i: int| true),
        ValidityView::AllNull => Seq::new(length, |i: int| false),
        ValidityView::Bitmap(bitmap) => spec_bits(bitmap, length),
    }
}

proof fn lemma_read_mode(bytes: Seq<u8>, at: int, length: nat, mode: u8)
    requires
        0 <= at < bytes.len(),
        bytes[at] == mode,
        mode == 0 || mode == 1,
    ensures
        spec_read_validity(bytes, at, length) == Ok::<(ValidityView, int), Error>(
            (if mode == 0 {
                ValidityView::AllValid
            } else {
                ValidityView::AllNull
            }, at + 1),
        ),
{
}

proof fn lemma_read_bitmap(prefix: Seq<u8>, bitmap: Seq<u8>, rest: Seq<u8>, length: nat)
    requires
        bitmap.len() == bitmap_len(length),
    ensures
        spec_read_validity(prefix + (seq![2u8] + bitmap) + rest, prefix.len() as int, length)
            == Ok::<(ValidityView, int), Error>(
            (ValidityView::Bitmap(bitmap), prefix.len() + 1 + bitmap.len() as int),
        ),
{
    let bytes = prefix + (seq![2u8] + bitmap) + rest;
    let at = prefix.len() as int;
    assert(bytes[at] == 2u8);
    assert(bytes.subrange(at + 1, at + 1 + bitmap_len(length)) =~= bitmap);
}

/// Reading written validity bytes gives the same valid rows back, and the
/// bytes after them start right past them.
pub proof fn lemma_validity_round_trip(prefix: Seq<u8>, valid: Seq<bool>, rest: Seq<u8>)
    ensures
        spec_read_validity(prefix + spec_validity(valid) + rest, prefix.len() as int, valid.len())
            matches Ok((validity, end)) && end == prefix.len() + spec_validity(valid).len()
            && validity_flags(validity, valid.len()) == valid,
{
    let written = spec_validity(valid);
    let bytes = prefix + written + rest;
    let at = prefix.len() as int;
    if all_valid(valid) {
        assert(bytes[at] == 0u8);
        lemma_read_mode(bytes, at, valid.len(), 0);
        assert(validity_flags(ValidityView::AllValid, valid.len()) =~= valid);
    } else if all_null(valid) {
        assert(bytes[at] == 1u8);
        lemma_read_mode(bytes, at, valid.len(), 1);
        assert(validity_flags(ValidityView::AllNull, valid.len()) =~= valid);
    } else {
        let bitmap = spec_pack_bits(valid);
        lemma_read_bitmap(prefix, bitmap, rest, valid.len());
        lemma_pack_bits_read(valid);
    }
}

/// Appends the validity bytes of a column whose rows are valid where `valid`
/// is set.
pub fn encode(valid: &[bool], out: &mut Vec<u8>)
    ensures
        final(out)@ == old(out)@ + spec_validity(valid@),
{
    let mut valid_rows: usize = 0;
    let mut i: usize = 0;
    while i < valid.len()
        invariant
            i <= valid.len(),
            valid_rows <= i,
            valid_rows == i ==> forall|j: int| 0 <= j < i ==> #[trigger] valid@[j],
            valid_rows == 0 ==> forall|j: int| 0 <= j < i ==> !#[trigger] valid@[j],
            valid_rows > 0 ==> exists|j: int| 0 <= j < i && #[trigger] valid@[j],
            valid_rows < i ==> exists|j: int| 0 <= j < i && !#[trigger] valid@[j],
        decreases valid.len() - i,
    {
        if valid[i] {
            valid_rows = valid_rows + 1;
        }
        i = i + 1;
    }
    if valid_rows == valid.len() {
        out.push(0);
    } else if valid_rows == 0 {
        out.push(1);
    } else {
        out.push(2);
        let bitmap = pack_bits(valid);
        let mut k: usize = 0;
        let ghost start = out@;
        while k < bitmap.len()
            invariant
                k <= bitmap.len(),
                out@ == start + bitmap@.take(k as int),
            decreases bitmap.len() - k,
        {
            out.push(bitmap[k]);
            k = k + 1;
            proof {
                assert(out@ =~= start + bitmap@.take(k as int));
            }
        }
        proof {
            assert(bitmap@.take(k as int) =~= bitmap@);
        }
    }
    proof {
        assert(final(out)@ =~= old(out)@ + spec_validity(valid@)) by {
            if valid_rows == valid.len() {
            } else if valid_rows == 0 {
            } else {
            }
        }
    }
}

/// Reads the validity at `*at` of a column of `length` rows and moves past it.
pub fn decode(bytes: &[u8], at: &mut usize, length: usize) -> (result: Result<Validity, Error>)
    ensures
        match result {
            Ok(validity) => spec_read_validity(bytes@, *old(at) as int, length as nat) == Ok::<
                (ValidityView, int),
                Error,
            >((validity@, *final(at) as int)),
            Err(e) => spec_read_validity(bytes@, *old(at) as int, length as nat) == Err::<
                (ValidityView, int),
                Error,
            >(e),
        },
{
    if *at >= bytes.len() {
        return Err(Error::UnexpectedEndOfInput);
    }
    let mode = bytes[*at];
    if mode == 0 {
        *at = *at + 1;
        Ok(Validity::AllValid)
    } else if mode == 1 {
        *at = *at + 1;
        Ok(Validity::AllNull)
    } else if mode == 2 {
        let size = length / 8 + if length % 8 != 0 {
            1
        } else {
            0
        };
        let start = *at + 1;
        if bytes.len() - start < size {
            return Err(Error::UnexpectedEndOfInput);
        }
        let mut bitmap: Vec<u8> = Vec::new();
        let mut k: usize = 0;
        while k < size
            invariant
                start + size <= bytes.len(),
                k <= size,
                bitmap@ == bytes@.subrange(start as int, start + k),
            decreases size - k,
        {
            bitmap.push(bytes[start + k]);
            k = k + 1;
            proof {
                assert(bitmap@ =~= bytes@.subrange(start as int, start + k));
            }
        }
        *at = start + size;
        Ok(Validity::Bitmap(bitmap))
    } else {
        Err(Error::InvalidMetadata("invalid validity encoding"))
    }
}

/// Validity costs one byte when every row is valid or every row is null, and
/// one byte plus a bit per row otherwise; the first byte tells which.
pub proof fn lemma_validity_is_compact(valid: Seq<bool>)
    ensures
        spec_validity(valid)[0] == 0 <==> (forall|i: int| 0 <= i < valid.len() ==> valid[i]),
        spec_validity(valid)[0] == 1 <==> (valid.len() > 0 && forall|i: int|
            0 <= i < valid.len() ==> !valid[i]),
        spec_validity(valid).len() == (if spec_validity(valid)[0] == 2 {
            1 + (valid.len() + 7) / 8
        } else {
            1
        }),
{
    if !all_valid(valid) && !all_null(valid) {
        let i = choose|i: int| 0 <= i < valid.len() && !valid[i];
        assert(valid.len() > 0);
    }
    if all_null(valid) && valid.len() > 0 {
        assert(!valid[0]);
    }
}

} // verus!
