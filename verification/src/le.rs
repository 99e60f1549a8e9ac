//! Reading and writing little-endian integers in byte buffers.
use crate::math::{
    i64_of_bits, le_bytes, le_value, lemma_le_bytes_len, lemma_le_value_bound, lemma_le_value_push,
    lemma_pow2_facts, lemma_pow2_le, lemma_pow2_mul, u64_bits,
};
use vstd::arithmetic::div_mod::*;
use vstd::arithmetic::power2::pow2;
use vstd::bits::*;
use vstd::prelude::*;

verus! {

/// Appends the `len` low bytes of `value`, least significant first.
pub fn write_le(out: &mut Vec<u8>, value: u64, len: usize)
    requires
        len <= 8,
    ensures
        final(out)@ == old(out)@ + le_bytes(value as nat, len as nat),
{
    let ghost start = out@;
    let mut rest: u64 = value;
    let mut i: usize = 0;
    proof {
        lemma_pow2_facts();
        assert(start + le_bytes(value as nat, 0) =~= start);
        assert(value as nat / 1 == value as nat) by (nonlinear_arith);
    }
    while i < len
        invariant
            len <= 8,
            i <= len,
            rest == value as nat / pow2(8 * i as nat),
            out@ == start + le_bytes(value as nat, i as nat),
        decreases len - i,
    {
        proof {
            lemma_pow2_facts();
            lemma_le_bytes_len(value as nat, i as nat);
            assert(le_bytes(value as nat, (i + 1) as nat) == le_bytes(value as nat, i as nat).push(
                ((value as nat / pow2(8 * i as nat)) % 256) as u8,
            ));
            lemma_pow2_mul(8 * i as nat, 8);
            lemma_div_denominator(value as int, pow2(8 * i as nat) as int, 256);
            assert(8 * i as nat + 8 == 8 * (i + 1) as nat);
        }
        out.push((rest % 256) as u8);
        rest = rest / 256;
        i = i + 1;
        proof {
            assert(out@ =~= start + le_bytes(value as nat, i as nat));
        }
    }
}

/// Appends the eight bytes of `value` in two's complement, least significant first.
pub fn write_i64(out: &mut Vec<u8>, value: i64)
    ensures
        final(out)@ == old(out)@ + le_bytes(u64_bits(value), 8),
{
    let bits = value as u64;
    proof {
        lemma_u64_bits(value);
    }
    write_le(out, bits, 8);
}

pub proof fn lemma_u64_bits(value: i64)
    ensures
        (value as u64) as nat == u64_bits(value),
        u64_bits(value) < 0x1_0000_0000_0000_0000,
        i64_of_bits(u64_bits(value)) == value,
{
    assert(value >= 0 ==> (value as u64) as int == value) by (bit_vector);
    assert(value < 0 ==> (value as u64) as int == value + 0x1_0000_0000_0000_0000int)
        by (bit_vector);
}

pub proof fn lemma_i64_of_bits(bits: u64)
    ensures
        (bits as i64) as int == i64_of_bits(bits as nat),
{
    assert(bits < 0x8000_0000_0000_0000u64 ==> (bits as i64) as int == bits as int)
        by (bit_vector);
    assert(bits >= 0x8000_0000_0000_0000u64 ==> (bits as i64) as int == bits as int
        - 0x1_0000_0000_0000_0000int) by (bit_vector);
}

proof fn lemma_or_above_u64(word: u64, byte: u64, shift: u64)
    requires
        shift <= 56,
        byte < 256,
        word < pow2(shift as nat),
    ensures
        word | (byte << shift) == word + byte * pow2(shift as nat),
        word + byte * pow2(shift as nat) < pow2((shift + 8) as nat),
{
    lemma_u64_pow2_no_overflow(shift as nat);
    lemma_u64_shl_is_mul(1u64, shift);
    lemma_pow2_mul(shift as nat, 8);
    lemma_pow2_facts();
    assert(word + byte * pow2(shift as nat) < pow2((shift + 8) as nat)) by (nonlinear_arith)
        requires
            word < pow2(shift as nat),
            byte < 256,
            pow2(shift as nat) * 256 == pow2((shift + 8) as nat),
    ;
    assert(word | (byte << shift) == word + byte * (1u64 << shift)) by (bit_vector)
        requires
            shift <= 56,
            byte < 256,
            word < (1u64 << shift),
    ;
}

/// Reads `len` bytes at `start` as a little-endian unsigned integer.
pub fn read_le(bytes: &[u8], start: usize, len: usize) -> (word: u64)
    requires
        len <= 8,
        start + len <= bytes.len(),
    ensures
        word as nat == le_value(bytes@.subrange(start as int, start + len)),
{
    let mut word: u64 = 0;
    let mut i: usize = 0;
    proof {
        lemma_pow2_facts();
        assert(bytes@.subrange(start as int, start as int) =~= Seq::<u8>::empty());
    }
    while i < len
        invariant
            len <= 8,
            start + len <= bytes.len(),
            i <= len,
            word as nat == le_value(bytes@.subrange(start as int, start + i)),
            word < pow2(8 * i as nat),
        decreases len - i,
    {
        let byte = bytes[start + i];
        proof {
            lemma_or_above_u64(word, byte as u64, (8 * i) as u64);
            let prefix = bytes@.subrange(start as int, start + i);
            assert(bytes@.subrange(start as int, start + i + 1) =~= prefix.push(byte));
            lemma_le_value_push(prefix, byte);
        }
        word = word | ((byte as u64) << ((8 * i) as u64));
        i = i + 1;
    }
    word
}

/// Reads eight bytes at `start` as a little-endian two's complement value.
pub fn read_i64(bytes: &[u8], start: usize) -> (value: i64)
    requires
        start + 8 <= bytes.len(),
    ensures
        value as int == i64_of_bits(le_value(bytes@.subrange(start as int, start + 8))),
{
    let word = read_le(bytes, start, 8);
    proof {
        lemma_i64_of_bits(word);
    }
    word as i64
}

} // verus!
