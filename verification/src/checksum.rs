//! CRC-32C (Castagnoli), the checksum of LiteArrow metadata.
use vstd::prelude::*;

verus! {

/// The reflected Castagnoli polynomial.
pub const REVERSED_CASTAGNOLI_POLYNOMIAL: u32 = 0x82f6_3b78;

/// One bit step of the reflected CRC shift register.
pub open spec fn crc_shift(crc: u32) -> u32 {
    if crc & 1 == 1 {
        (crc >> 1) ^ REVERSED_CASTAGNOLI_POLYNOMIAL
    } else {
        crc >> 1
    }
}

/// `n` bit steps of the shift register.
pub open spec fn crc_shifts(crc: u32, n: nat) -> u32
    decreases n,
{
    if n == 0 {
        crc
    } else {
        crc_shift(crc_shifts(crc, (n - 1) as nat))
    }
}

/// The register after absorbing one byte.
pub open spec fn crc_byte(crc: u32, byte: u8) -> u32 {
    crc_shifts(crc ^ (byte as u32), 8)
}

/// The register after absorbing `bytes`, starting from `crc`.
pub open spec fn crc_register(crc: u32, bytes: Seq<u8>) -> u32
    decreases bytes.len(),
{
    if bytes.len() == 0 {
        crc
    } else {
        crc_byte(crc_register(crc, bytes.drop_last()), bytes.last())
    }
}

/// CRC-32C of `bytes`: the register starts with all bits set and is
/// complemented at the end.
pub open spec fn spec_crc32c(bytes: Seq<u8>) -> u32 {
    !crc_register(!0u32, bytes)
}

proof fn lemma_shift_step(crc: u32, mask: u32)
    requires
        mask == (if crc & 1 == 1 { 0xffff_ffffu32 } else { 0u32 }),
    ensures
        (crc >> 1) ^ (REVERSED_CASTAGNOLI_POLYNOMIAL & mask) == crc_shift(crc),
{
    assert((crc >> 1) ^ (0x82f6_3b78u32 & 0xffff_ffffu32) == (crc >> 1) ^ 0x82f6_3b78u32)
        by (bit_vector);
    assert((crc >> 1) ^ (0x82f6_3b78u32 & 0u32) == crc >> 1) by (bit_vector);
}

/// Computes CRC-32C (Castagnoli), the checksum of a LiteArrow file's footer.
pub fn crc32c(bytes: &[u8]) -> (crc: u32)
    ensures
        crc == spec_crc32c(bytes@),
{
    let mut crc: u32 = !0u32;
    let mut index: usize = 0;
    while index < bytes.len()
        invariant
            index <= bytes.len(),
            crc == crc_register(!0u32, bytes@.take(index as int)),
        decreases bytes.len() - index,
    {
        let byte = bytes[index];
        let start: u32 = crc ^ (byte as u32);
        crc = start;
        let mut step: usize = 0;
        while step < 8
            invariant
                step <= 8,
                crc == crc_shifts(start, step as nat),
            decreases 8 - step,
        {
            let low_bit: u32 = crc & 1;
            assert(low_bit == 0 || low_bit == 1) by (bit_vector)
                requires
                    low_bit == crc & 1,
            ;
            let low_bit_mask: u32 = 0u32.wrapping_sub(low_bit);
            proof {
                lemma_shift_step(crc, low_bit_mask);
            }
            crc = (crc >> 1) ^ (REVERSED_CASTAGNOLI_POLYNOMIAL & low_bit_mask);
            step = step + 1;
        }
        assert(bytes@.take(index + 1).drop_last() =~= bytes@.take(index as int));
        index = index + 1;
    }
    assert(bytes@.take(index as int) =~= bytes@);
    !crc
}

proof fn lemma_shift_injective(x: u32, y: u32)
    requires
        crc_shift(x) == crc_shift(y),
    ensures
        x == y,
{
    assert(((if x & 1 == 1 { (x >> 1) ^ 0x82f6_3b78u32 } else { x >> 1 }) == (if y & 1 == 1 {
        (y >> 1) ^ 0x82f6_3b78u32
    } else {
        y >> 1
    })) ==> x == y) by (bit_vector);
}

proof fn lemma_shifts_injective(x: u32, y: u32, n: nat)
    requires
        crc_shifts(x, n) == crc_shifts(y, n),
    ensures
        x == y,
    decreases n,
{
    if n > 0 {
        lemma_shift_injective(crc_shifts(x, (n - 1) as nat), crc_shifts(y, (n - 1) as nat));
        lemma_shifts_injective(x, y, (n - 1) as nat);
    }
}

proof fn lemma_byte_injective(x: u32, y: u32, a: u8, b: u8)
    requires
        crc_byte(x, a) == crc_byte(y, b),
        x == y || a == b,
    ensures
        x == y && a == b,
{
    lemma_shifts_injective(x ^ (a as u32), y ^ (b as u32), 8);
    assert((x ^ (a as u32)) == (y ^ (b as u32)) && (x == y || a == b) ==> x == y && a == b)
        by (bit_vector);
}

proof fn lemma_register_concat(crc: u32, first: Seq<u8>, second: Seq<u8>)
    ensures
        crc_register(crc, first + second) == crc_register(crc_register(crc, first), second),
    decreases second.len(),
{
    if second.len() == 0 {
        assert(first + second =~= first);
    } else {
        assert((first + second).drop_last() =~= first + second.drop_last());
        lemma_register_concat(crc, first, second.drop_last());
    }
}

proof fn lemma_register_injective(x: u32, y: u32, bytes: Seq<u8>)
    requires
        crc_register(x, bytes) == crc_register(y, bytes),
    ensures
        x == y,
    decreases bytes.len(),
{
    if bytes.len() > 0 {
        lemma_byte_injective(
            crc_register(x, bytes.drop_last()),
            crc_register(y, bytes.drop_last()),
            bytes.last(),
            bytes.last(),
        );
        lemma_register_injective(x, y, bytes.drop_last());
    }
}

/// CRC-32C tells apart two byte strings that differ in exactly one byte, so
/// it detects every change of a single bit.
pub proof fn lemma_crc32c_detects_one_change(bytes: Seq<u8>, at: int, byte: u8)
    requires
        0 <= at < bytes.len(),
        byte != bytes[at],
    ensures
        spec_crc32c(bytes.update(at, byte)) != spec_crc32c(bytes),
{
    let changed = bytes.update(at, byte);
    let prefix = bytes.take(at);
    let suffix = bytes.skip(at + 1);
    assert(bytes =~= prefix.push(bytes[at]) + suffix);
    assert(changed =~= prefix.push(byte) + suffix);
    lemma_register_concat(!0u32, prefix.push(bytes[at]), suffix);
    lemma_register_concat(!0u32, prefix.push(byte), suffix);
    assert(prefix.push(bytes[at]).drop_last() =~= prefix);
    assert(prefix.push(byte).drop_last() =~= prefix);
    let start = crc_register(!0u32, prefix);
    if spec_crc32c(changed) == spec_crc32c(bytes) {
        let r1 = crc_register(!0u32, changed);
        let r2 = crc_register(!0u32, bytes);
        assert(!r1 == !r2 ==> r1 == r2) by (bit_vector);
        lemma_register_injective(
            crc_register(!0u32, prefix.push(byte)),
            crc_register(!0u32, prefix.push(bytes[at])),
            suffix,
        );
        lemma_byte_injective(start, start, byte, bytes[at]);
    }
}

/// The bit-serial CRC-32C step: the register's low bit, combined with the
/// incoming message bit, decides whether the polynomial is applied after
/// the shift.
pub open spec fn reference_bit(crc: u32, bit: bool) -> u32 {
    if ((crc & 1 == 1) != bit) {
        (crc >> 1) ^ 0x82f6_3b78u32
    } else {
        crc >> 1
    }
}

/// The register after the first `k` bits of `byte`, least significant first,
/// one at a time.
pub open spec fn reference_bits(crc: u32, byte: u8, k: nat) -> u32
    decreases k,
{
    if k == 0 {
        crc
    } else {
        reference_bit(reference_bits(crc, byte, (k - 1) as nat), (byte >> ((k - 1) as u8)) & 1 == 1)
    }
}

/// The register after `bytes`, fed bit by bit.
pub open spec fn reference_register(crc: u32, bytes: Seq<u8>) -> u32
    decreases bytes.len(),
{
    if bytes.len() == 0 {
        crc
    } else {
        reference_bits(reference_register(crc, bytes.drop_last()), bytes.last(), 8)
    }
}

/// CRC-32C as the bit-serial division by the reflected Castagnoli
/// polynomial: the register starts with all bits set, takes the message one
/// bit at a time, least significant bit of each byte first, and is
/// complemented at the end.
pub open spec fn reference_crc32c(bytes: Seq<u8>) -> u32 {
    !reference_register(0xffff_ffffu32, bytes)
}

proof fn lemma_shift_with_pending(r: u32, m: u32)
    ensures
        crc_shift(r ^ m) == reference_bit(r, m & 1 == 1) ^ (m >> 1),
{
    assert((if (r ^ m) & 1 == 1 { ((r ^ m) >> 1) ^ 0x82f6_3b78u32 } else { (r ^ m) >> 1 }) == (if (
    (r & 1 == 1) != (m & 1 == 1)) {
        (r >> 1) ^ 0x82f6_3b78u32
    } else {
        r >> 1
    }) ^ (m >> 1)) by (bit_vector);
}

proof fn lemma_byte_steps(crc: u32, byte: u8, k: nat)
    requires
        k <= 8,
    ensures
        crc_shifts(crc ^ (byte as u32), k) == reference_bits(crc, byte, k) ^ ((byte as u32) >> (
        k as u32)),
    decreases k,
{
    if k == 0 {
        assert((byte as u32) >> 0u32 == byte as u32) by (bit_vector);
    } else {
        lemma_byte_steps(crc, byte, (k - 1) as nat);
        let r = reference_bits(crc, byte, (k - 1) as nat);
        let m = (byte as u32) >> ((k - 1) as u32);
        lemma_shift_with_pending(r, m);
        let j = (k - 1) as u32;
        assert(j < 8);
        assert((((byte as u32) >> j) & 1 == 1) == ((byte >> (j as u8)) & 1 == 1)) by (bit_vector)
            requires
                j < 8,
        ;
        assert(((byte as u32) >> j) >> 1u32 == (byte as u32) >> ((j + 1) as u32)) by (bit_vector)
            requires
                j < 8,
        ;
    }
}

/// One byte step of the register equals feeding the byte's eight bits one at
/// a time: the byte enters zero-extended, touching only the low eight bits.
pub proof fn lemma_byte_is_bit_serial(crc: u32, byte: u8)
    ensures
        crc_byte(crc, byte) == reference_bits(crc, byte, 8),
{
    lemma_byte_steps(crc, byte, 8);
    let r = reference_bits(crc, byte, 8);
    assert((byte as u32) >> 8u32 == 0) by (bit_vector);
    assert(r ^ 0u32 == r) by (bit_vector);
    assert(crc_shifts(crc ^ (byte as u32), 8) == r ^ ((byte as u32) >> ((8nat) as u32)));
}

/// The table-free CRC computed here is the standard bit-serial CRC-32C on
/// every input.
pub proof fn lemma_crc32c_is_reference(bytes: Seq<u8>)
    ensures
        spec_crc32c(bytes) == reference_crc32c(bytes),
    decreases bytes.len(),
{
    lemma_register_is_reference(!0u32, bytes);
    assert(!0u32 == 0xffff_ffffu32) by (bit_vector);
}

proof fn lemma_register_is_reference(crc: u32, bytes: Seq<u8>)
    ensures
        crc_register(crc, bytes) == reference_register(crc, bytes),
    decreases bytes.len(),
{
    if bytes.len() > 0 {
        lemma_register_is_reference(crc, bytes.drop_last());
        lemma_byte_is_bit_serial(crc_register(crc, bytes.drop_last()), bytes.last());
    }
}

} // verus!
