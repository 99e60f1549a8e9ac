//! Bitmaps: bit `i` of a column lives in byte `i / 8`, at bit `i % 8`.
use vstd::prelude::*;

verus! {

/// Bit `i` of a bitmap.
pub open spec fn bit_at(bitmap: Seq<u8>, i: int) -> bool {
    bitmap[i / 8] & (1u8 << ((i % 8) as u8)) != 0
}

/// The first `count` bits of a bitmap.
pub open spec fn spec_bits(bitmap: Seq<u8>, count: nat) -> Seq<bool> {
    Seq::new(count, |i: int| bit_at(bitmap, i))
}

/// Bytes needed for `count` bits.
pub open spec fn bitmap_len(count: nat) -> nat {
    (count + 7) / 8
}

/// `bitmap` is the smallest bitmap holding `flags`, with every bit past them
/// clear.
pub open spec fn holds_bits(bitmap: Seq<u8>, flags: Seq<bool>) -> bool {
    &&& bitmap.len() == bitmap_len(flags.len())
    &&& forall|i: int|
        0 <= i < 8 * bitmap.len() ==> #[trigger] bit_at(bitmap, i) == (i < flags.len() && flags[i])
}

/// `1` when flag `i` exists and is set, else `0`.
pub open spec fn bit_value(flags: Seq<bool>, i: int) -> u8 {
    if 0 <= i < flags.len() && flags[i] {
        1
    } else {
        0
    }
}

/// Byte `k` of the bitmap of `flags`.
pub open spec fn packed_byte(flags: Seq<bool>, k: int) -> u8 {
    (bit_value(flags, 8 * k) + 2 * bit_value(flags, 8 * k + 1) + 4 * bit_value(flags, 8 * k + 2)
        + 8 * bit_value(flags, 8 * k + 3) + 16 * bit_value(flags, 8 * k + 4) + 32 * bit_value(
        flags,
        8 * k + 5,
    ) + 64 * bit_value(flags, 8 * k + 6) + 128 * bit_value(flags, 8 * k + 7)) as u8
}

/// The smallest bitmap of `flags`, with every bit past them clear.
pub open spec fn spec_pack_bits(flags: Seq<bool>) -> Seq<u8> {
    Seq::new(bitmap_len(flags.len()), |k: int| packed_byte(flags, k))
}

proof fn lemma_byte_bits(b0: u8, b1: u8, b2: u8, b3: u8, b4: u8, b5: u8, b6: u8, b7: u8, x: u8)
    requires
        b0 <= 1 && b1 <= 1 && b2 <= 1 && b3 <= 1 && b4 <= 1 && b5 <= 1 && b6 <= 1 && b7 <= 1,
        x == b0 + 2 * b1 + 4 * b2 + 8 * b3 + 16 * b4 + 32 * b5 + 64 * b6 + 128 * b7,
    ensures
        (x & (1u8 << 0u8) != 0) == (b0 == 1),
        (x & (1u8 << 1u8) != 0) == (b1 == 1),
        (x & (1u8 << 2u8) != 0) == (b2 == 1),
        (x & (1u8 << 3u8) != 0) == (b3 == 1),
        (x & (1u8 << 4u8) != 0) == (b4 == 1),
        (x & (1u8 << 5u8) != 0) == (b5 == 1),
        (x & (1u8 << 6u8) != 0) == (b6 == 1),
        (x & (1u8 << 7u8) != 0) == (b7 == 1),
{
    assert(((x & (1u8 << 0u8) != 0) == (b0 == 1)) && ((x & (1u8 << 1u8) != 0) == (b1 == 1)) && ((x
        & (1u8 << 2u8) != 0) == (b2 == 1)) && ((x & (1u8 << 3u8) != 0) == (b3 == 1)) && ((x & (1u8
        << 4u8) != 0) == (b4 == 1)) && ((x & (1u8 << 5u8) != 0) == (b5 == 1)) && ((x & (1u8 << 6u8)
        != 0) == (b6 == 1)) && ((x & (1u8 << 7u8) != 0) == (b7 == 1))) by (bit_vector)
        requires
            b0 <= 1 && b1 <= 1 && b2 <= 1 && b3 <= 1 && b4 <= 1 && b5 <= 1 && b6 <= 1 && b7 <= 1,
            x == b0 + 2 * b1 + 4 * b2 + 8 * b3 + 16 * b4 + 32 * b5 + 64 * b6 + 128 * b7,
    ;
}

proof fn lemma_same_bits(x: u8, y: u8)
    requires
        (x & (1u8 << 0u8) != 0) == (y & (1u8 << 0u8) != 0),
        (x & (1u8 << 1u8) != 0) == (y & (1u8 << 1u8) != 0),
        (x & (1u8 << 2u8) != 0) == (y & (1u8 << 2u8) != 0),
        (x & (1u8 << 3u8) != 0) == (y & (1u8 << 3u8) != 0),
        (x & (1u8 << 4u8) != 0) == (y & (1u8 << 4u8) != 0),
        (x & (1u8 << 5u8) != 0) == (y & (1u8 << 5u8) != 0),
        (x & (1u8 << 6u8) != 0) == (y & (1u8 << 6u8) != 0),
        (x & (1u8 << 7u8) != 0) == (y & (1u8 << 7u8) != 0),
    ensures
        x == y,
{
    assert(x == y) by (bit_vector)
        requires
            (x & (1u8 << 0u8) != 0) == (y & (1u8 << 0u8) != 0),
            (x & (1u8 << 1u8) != 0) == (y & (1u8 << 1u8) != 0),
            (x & (1u8 << 2u8) != 0) == (y & (1u8 << 2u8) != 0),
            (x & (1u8 << 3u8) != 0) == (y & (1u8 << 3u8) != 0),
            (x & (1u8 << 4u8) != 0) == (y & (1u8 << 4u8) != 0),
            (x & (1u8 << 5u8) != 0) == (y & (1u8 << 5u8) != 0),
            (x & (1u8 << 6u8) != 0) == (y & (1u8 << 6u8) != 0),
            (x & (1u8 << 7u8) != 0) == (y & (1u8 << 7u8) != 0),
    ;
}

/// The packed bitmap holds its flags.
pub proof fn lemma_pack_holds(flags: Seq<bool>)
    ensures
        holds_bits(spec_pack_bits(flags), flags),
{
    let b = spec_pack_bits(flags);
    assert forall|i: int| 0 <= i < 8 * b.len() implies #[trigger] bit_at(b, i) == (i < flags.len()
        && flags[i]) by {
        let k = i / 8;
        lemma_byte_bits(
            bit_value(flags, 8 * k),
            bit_value(flags, 8 * k + 1),
            bit_value(flags, 8 * k + 2),
            bit_value(flags, 8 * k + 3),
            bit_value(flags, 8 * k + 4),
            bit_value(flags, 8 * k + 5),
            bit_value(flags, 8 * k + 6),
            bit_value(flags, 8 * k + 7),
            packed_byte(flags, k),
        );
        assert(i == 8 * k + i % 8);
    }
}

/// A bitmap that holds `flags` is their packed bitmap.
pub proof fn lemma_holds_unique(bitmap: Seq<u8>, flags: Seq<bool>)
    requires
        holds_bits(bitmap, flags),
    ensures
        bitmap == spec_pack_bits(flags),
{
    let packed = spec_pack_bits(flags);
    lemma_pack_holds(flags);
    assert forall|k: int| 0 <= k < bitmap.len() implies bitmap[k] == packed[k] by {
        assert(bit_at(bitmap, 8 * k) == bit_at(packed, 8 * k));
        assert(bit_at(bitmap, 8 * k + 1) == bit_at(packed, 8 * k + 1));
        assert(bit_at(bitmap, 8 * k + 2) == bit_at(packed, 8 * k + 2));
        assert(bit_at(bitmap, 8 * k + 3) == bit_at(packed, 8 * k + 3));
        assert(bit_at(bitmap, 8 * k + 4) == bit_at(packed, 8 * k + 4));
        assert(bit_at(bitmap, 8 * k + 5) == bit_at(packed, 8 * k + 5));
        assert(bit_at(bitmap, 8 * k + 6) == bit_at(packed, 8 * k + 6));
        assert(bit_at(bitmap, 8 * k + 7) == bit_at(packed, 8 * k + 7));
        lemma_same_bits(bitmap[k], packed[k]);
    }
    assert(bitmap =~= packed);
}

/// The first `flags.len()` bits of their packed bitmap are the flags.
pub proof fn lemma_pack_bits_read(flags: Seq<bool>)
    ensures
        spec_bits(spec_pack_bits(flags), flags.len()) == flags,
{
    lemma_pack_holds(flags);
    let b = spec_pack_bits(flags);
    assert forall|i: int| 0 <= i < flags.len() implies #[trigger] spec_bits(b, flags.len())[i]
        == flags[i] by {
        assert(bit_at(b, i) == (i < flags.len() && flags[i]));
    }
    assert(spec_bits(b, flags.len()) =~= flags);
}

pub proof fn lemma_set_bit_byte(b: u8, j: u8, k: u8)
    requires
        j < 8,
        k < 8,
    ensures
        ((b | (1u8 << j)) & (1u8 << k) != 0) == (k == j || b & (1u8 << k) != 0),
{
    assert(((b | (1u8 << j)) & (1u8 << k) != 0) == (k == j || b & (1u8 << k) != 0))
        by (bit_vector)
        requires
            j < 8,
            k < 8,
    ;
}

pub proof fn lemma_zero_byte(k: u8)
    requires
        k < 8,
    ensures
        (0u8 & (1u8 << k)) == 0,
{
    assert((0u8 & (1u8 << k)) == 0) by (bit_vector);
}

/// Reads bit `i`.
pub fn get_bit(bitmap: &[u8], i: usize) -> (bit: bool)
    requires
        i / 8 < bitmap.len(),
    ensures
        bit == bit_at(bitmap@, i as int),
{
    bitmap[i / 8] & (1u8 << ((i % 8) as u8)) != 0
}

/// A bitmap of `count` clear bits.
pub fn zeroed(count: usize) -> (bitmap: Vec<u8>)
    ensures
        holds_bits(bitmap@, Seq::new(count as nat, |i: int| false)),
{
    let length = count / 8 + if count % 8 != 0 {
        1
    } else {
        0
    };
    let mut bitmap: Vec<u8> = Vec::new();
    let mut k: usize = 0;
    while k < length
        invariant
            k <= length,
            bitmap@.len() == k,
            forall|j: int| 0 <= j < k ==> bitmap@[j] == 0,
        decreases length - k,
    {
        bitmap.push(0);
        k = k + 1;
    }
    proof {
        assert forall|i: int| 0 <= i < 8 * bitmap@.len() implies #[trigger] bit_at(bitmap@, i)
            == (i < count && Seq::new(count as nat, |i: int| false)[i]) by {
            lemma_zero_byte((i % 8) as u8);
        }
    }
    bitmap
}

/// Sets bit `i`.
pub fn set_bit(bitmap: &mut Vec<u8>, i: usize)
    requires
        i / 8 < old(bitmap).len(),
    ensures
        final(bitmap).len() == old(bitmap).len(),
        forall|k: int|
            0 <= k < 8 * old(bitmap).len() ==> #[trigger] bit_at(final(bitmap)@, k) == (k == i
                || bit_at(old(bitmap)@, k)),
{
    let byte = bitmap[i / 8];
    let ghost before = bitmap@;
    bitmap.set(i / 8, byte | (1u8 << ((i % 8) as u8)));
    proof {
        assert forall|k: int| 0 <= k < 8 * before.len() implies #[trigger] bit_at(bitmap@, k) == (k
            == i || bit_at(before, k)) by {
            if k / 8 == i / 8 {
                lemma_set_bit_byte(byte, (i % 8) as u8, (k % 8) as u8);
            }
        }
    }
}

/// Packs flags into a bitmap, bit `i` in byte `i / 8` at bit `i % 8`.
pub fn pack_bits(flags: &[bool]) -> (bitmap: Vec<u8>)
    ensures
        bitmap@ == spec_pack_bits(flags@),
{
    let count = flags.len();
    let mut bitmap = zeroed(count);
    let mut i: usize = 0;
    while i < count
        invariant
            count == flags.len(),
            i <= count,
            bitmap@.len() == bitmap_len(count as nat),
            forall|j: int|
                0 <= j < 8 * bitmap@.len() ==> #[trigger] bit_at(bitmap@, j) == (j < i && flags@[j]),
        decreases count - i,
    {
        if flags[i] {
            set_bit(&mut bitmap, i);
        }
        i = i + 1;
    }
    proof {
        lemma_holds_unique(bitmap@, flags@);
    }
    bitmap
}

} // verus!
