//! Bit-chunk encoding of booleans. Each byte holds either up to seven literal
//! flags, or 1–16 repetitions of a three-flag pattern: the high bit selects
//! repetition, bits 4–6 hold the pattern and bits 0–3 the count minus one.
use super::Error;
use crate::bitmap::{bit_at, get_bit, holds_bits, set_bit, spec_bits, zeroed};
use vstd::prelude::*;

verus! {

// --- decoding --------------------------------------------------------------------

/// Bit `i` of a byte is set.
pub open spec fn has_bit(byte: u8, i: int) -> bool {
    byte & (1u8 << (i as u8)) != 0
}

/// Flag `i` of a block byte.
pub open spec fn block_flag(byte: u8, i: int) -> bool {
    if byte & 0x80 == 0 {
        has_bit(byte, i)
    } else {
        has_bit(byte, 4 + i % 3)
    }
}

/// Number of flags a block byte stands for when `remaining` flags are left.
pub open spec fn block_length(byte: u8, remaining: nat) -> nat {
    if byte & 0x80 == 0 {
        if remaining < 7 {
            remaining
        } else {
            7
        }
    } else {
        3 * ((byte & 15) as nat + 1)
    }
}

/// Decoding one block byte after `flags`.
pub open spec fn bca_step(flags: Seq<bool>, byte: u8, count: nat) -> Result<Seq<bool>, Error> {
    if flags.len() >= count {
        Err(Error("extra BCA block"))
    } else {
        let length = block_length(byte, (count - flags.len()) as nat);
        if length > count - flags.len() {
            Err(Error("BCA block exceeds column"))
        } else {
            Ok(flags + Seq::new(length, |i: int| block_flag(byte, i)))
        }
    }
}

/// Decoding `bytes` in order, starting after `start`.
pub open spec fn bca_run(start: Seq<bool>, bytes: Seq<u8>, count: nat) -> Result<Seq<bool>, Error>
    decreases bytes.len(),
{
    if bytes.len() == 0 {
        Ok(start)
    } else {
        match bca_run(start, bytes.drop_last(), count) {
            Err(e) => Err(e),
            Ok(flags) => bca_step(flags, bytes.last(), count),
        }
    }
}

/// What decoding `count` flags gives.
pub open spec fn spec_bca_decode(bytes: Seq<u8>, count: nat) -> Result<Seq<bool>, Error> {
    match bca_run(seq![], bytes, count) {
        Err(e) => Err(e),
        Ok(flags) => if flags.len() == count {
            Ok(flags)
        } else {
            Err(Error("BCA blocks do not fill column"))
        },
    }
}

proof fn lemma_run_error_extends(start: Seq<bool>, bytes: Seq<u8>, j: int, count: nat)
    requires
        0 <= j <= bytes.len(),
        bca_run(start, bytes.take(j), count) is Err,
    ensures
        bca_run(start, bytes, count) == bca_run(start, bytes.take(j), count),
    decreases bytes.len(),
{
    if j < bytes.len() {
        assert(bytes.drop_last().take(j) =~= bytes.take(j));
        lemma_run_error_extends(start, bytes.drop_last(), j, count);
    } else {
        assert(bytes.take(j) =~= bytes);
    }
}

#[verifier::spinoff_prover]
proof fn lemma_run_front(start: Seq<bool>, byte: u8, rest: Seq<u8>, count: nat)
    ensures
        bca_run(start, seq![byte] + rest, count) == match bca_step(start, byte, count) {
            Ok(next) => bca_run(next, rest, count),
            Err(e) => Err(e),
        },
    decreases rest.len(),
{
    if rest.len() == 0 {
        assert(seq![byte] + rest =~= seq![byte]);
        assert(seq![byte].drop_last() =~= Seq::<u8>::empty());
        assert(bca_run(start, seq![byte].drop_last(), count) == Ok::<Seq<bool>, Error>(start));
        assert(bca_run(start, seq![byte], count) == bca_step(start, byte, count));
    } else {
        let whole = seq![byte] + rest;
        assert(whole.drop_last() =~= seq![byte] + rest.drop_last());
        assert(whole.last() == rest.last());
        lemma_run_front(start, byte, rest.drop_last(), count);
        assert(bca_run(start, whole, count) == match bca_run(start, whole.drop_last(), count) {
            Err(e) => Err(e),
            Ok(flags) => bca_step(flags, whole.last(), count),
        });
        match bca_step(start, byte, count) {
            Ok(next) => {
                assert(bca_run(next, rest, count) == match bca_run(next, rest.drop_last(), count) {
                    Err(e) => Err(e),
                    Ok(flags) => bca_step(flags, rest.last(), count),
                });
            },
            Err(e) => {},
        }
    }
}

// --- encoding ----------------------------------------------------------------------

/// The three flags at `at + 3 * (n - 1)` exist and repeat those at `at`.
pub open spec fn same_pattern(flags: Seq<bool>, at: int, n: int) -> bool {
    &&& at + 3 * n <= flags.len()
    &&& flags[at + 3 * (n - 1)] == flags[at]
    &&& flags[at + 3 * (n - 1) + 1] == flags[at + 1]
    &&& flags[at + 3 * (n - 1) + 2] == flags[at + 2]
}

/// Counts the repetitions from `n` on, stopping at the first miss or at 16.
pub open spec fn repeats_from(flags: Seq<bool>, at: int, n: int) -> int
    decreases 17 - n,
{
    if 1 <= n <= 16 && same_pattern(flags, at, n) {
        repeats_from(flags, at, n + 1)
    } else {
        n - 1
    }
}

/// Leading repetitions of the three-flag pattern at `at`, at most 16.
pub open spec fn leading_repeats(flags: Seq<bool>, at: int) -> int {
    repeats_from(flags, at, 1)
}

/// `1` for a set flag, `0` for a clear one.
pub open spec fn flag_bit(flag: bool) -> u8 {
    if flag {
        1u8
    } else {
        0u8
    }
}

/// Literal block: flag `at + i` in bit `i`, for `i < length`.
pub open spec fn literal_byte(flags: Seq<bool>, at: int, length: nat) -> u8
    decreases length,
{
    if length == 0 {
        0u8
    } else {
        literal_byte(flags, at, (length - 1) as nat) | (flag_bit(flags[at + length - 1]) << ((
        length - 1) as u8))
    }
}

/// Repeat block: the pattern at `at`, repeated `count` times.
pub open spec fn pattern_byte(flags: Seq<bool>, at: int, count: int) -> u8 {
    0x80u8 | (flag_bit(flags[at]) << 4u8) | (flag_bit(flags[at + 1]) << 5u8) | (flag_bit(
        flags[at + 2],
    ) << 6u8) | ((count - 1) as u8)
}

/// The blocks encoding the flags from `at` on.
pub open spec fn bca_encode_from(flags: Seq<bool>, at: int) -> Seq<u8>
    decreases flags.len() - at,
{
    if at < 0 || at >= flags.len() {
        seq![]
    } else {
        let r = leading_repeats(flags, at);
        if r >= 3 {
            proof {
                lemma_repeats_from(flags, at, 1);
                assert(same_pattern(flags, at, r));
            }
            seq![pattern_byte(flags, at, r)] + bca_encode_from(flags, at + 3 * r)
        } else {
            let length: nat = if flags.len() - at < 7 {
                (flags.len() - at) as nat
            } else {
                7
            };
            seq![literal_byte(flags, at, length)] + bca_encode_from(flags, at + length)
        }
    }
}

/// The encoding of `flags`.
pub open spec fn spec_bca_encode(flags: Seq<bool>) -> Seq<u8> {
    bca_encode_from(flags, 0)
}

pub proof fn lemma_repeats_from(flags: Seq<bool>, at: int, n: int)
    requires
        1 <= n <= 17,
    ensures
        n - 1 <= repeats_from(flags, at, n) <= 16,
        forall|m: int| n <= m <= repeats_from(flags, at, n) ==> #[trigger] same_pattern(flags, at, m),
    decreases 17 - n,
{
    if 1 <= n <= 16 && same_pattern(flags, at, n) {
        lemma_repeats_from(flags, at, n + 1);
    }
}

proof fn lemma_literal_step(b: u8, c: u8, k: u8)
    requires
        k < 7,
        c <= 1,
        b < (1u8 << k),
    ensures
        (b | (c << k)) < (1u8 << (k + 1) as u8),
        forall|i: u8|
            i <= k ==> (((b | (c << k)) & (1u8 << i)) != 0) == (if i == k {
                c == 1
            } else {
                b & (1u8 << i) != 0
            }),
{
    assert((b | (c << k)) < (1u8 << (k + 1) as u8)) by (bit_vector)
        requires
            k < 7,
            c <= 1,
            b < (1u8 << k),
    ;
    assert forall|i: u8| i <= k implies (((b | (c << k)) & (1u8 << i)) != 0) == (if i == k {
        c == 1
    } else {
        b & (1u8 << i) != 0
    }) by {
        assert(i <= k ==> (((b | (c << k)) & (1u8 << i)) != 0) == (if i == k {
            c == 1
        } else {
            b & (1u8 << i) != 0
        })) by (bit_vector)
            requires
                k < 7,
                c <= 1,
                b < (1u8 << k),
        ;
    }
}

proof fn lemma_literal_byte(flags: Seq<bool>, at: int, length: nat)
    requires
        length <= 7,
    ensures
        literal_byte(flags, at, length) < (1u8 << (length as u8)),
        forall|i: int| 0 <= i < length ==> #[trigger] has_bit(literal_byte(flags, at, length), i) == flags[at + i],
    decreases length,
{
    if length == 0 {
        assert(0u8 < (1u8 << 0u8)) by (bit_vector);
    } else {
        let k = (length - 1) as nat;
        lemma_literal_byte(flags, at, k);
        let b = literal_byte(flags, at, k);
        let c = flag_bit(flags[at + k]);
        lemma_literal_step(b, c, k as u8);
        assert(literal_byte(flags, at, length) == b | (c << (k as u8)));
        assert forall|i: int| 0 <= i < length implies #[trigger] has_bit(literal_byte(flags, at, length), i)
            == flags[at + i] by {
            assert((i as u8) <= (k as u8));
            if i < k {
                assert(has_bit(b, i) == flags[at + i]);
            }
        }
    }
}

proof fn lemma_literal_block(flags: Seq<bool>, at: int, length: nat)
    requires
        length <= 7,
    ensures
        literal_byte(flags, at, length) & 0x80 == 0,
        forall|i: int| 0 <= i < length ==> block_flag(literal_byte(flags, at, length), i) == flags[at + i],
{
    lemma_literal_byte(flags, at, length);
    let b = literal_byte(flags, at, length);
    let l = length as u8;
    assert(l <= 7 && b < (1u8 << l) ==> b & 0x80 == 0) by (bit_vector);
}

proof fn lemma_pattern_block(flags: Seq<bool>, at: int, count: int)
    requires
        3 <= count <= 16,
        0 <= at,
        at + 3 <= flags.len(),
    ensures
        pattern_byte(flags, at, count) & 0x80 != 0,
        (pattern_byte(flags, at, count) & 15) as int == count - 1,
        forall|j: int| 0 <= j < 3 ==> #[trigger] has_bit(pattern_byte(flags, at, count), 4 + j) == flags[at + j],
{
    let p0 = flag_bit(flags[at]);
    let p1 = flag_bit(flags[at + 1]);
    let p2 = flag_bit(flags[at + 2]);
    let r = (count - 1) as u8;
    let b = pattern_byte(flags, at, count);
    assert(b == 0x80u8 | (p0 << 4u8) | (p1 << 5u8) | (p2 << 6u8) | r);
    assert(p0 <= 1 && p1 <= 1 && p2 <= 1 && r <= 15 && b == 0x80u8 | (p0 << 4u8) | (p1 << 5u8) | (
    p2 << 6u8) | r ==> {
        &&& b & 0x80 != 0
        &&& b & 15 == r
        &&& (b & (1u8 << 4u8) != 0) == (p0 == 1)
        &&& (b & (1u8 << 5u8) != 0) == (p1 == 1)
        &&& (b & (1u8 << 6u8) != 0) == (p2 == 1)
    }) by (bit_vector);
    assert forall|j: int| 0 <= j < 3 implies #[trigger] has_bit(b, 4 + j) == flags[at + j] by {
        if j == 0 {
            assert((4 + j) as u8 == 4u8);
        } else if j == 1 {
            assert((4 + j) as u8 == 5u8);
        } else {
            assert((4 + j) as u8 == 6u8);
        }
    }
}

/// Decoding the blocks from `at` on, after the flags before `at`, gives all flags.
proof fn lemma_encode_from_decodes(flags: Seq<bool>, at: int)
    requires
        0 <= at <= flags.len(),
    ensures
        bca_run(flags.take(at), bca_encode_from(flags, at), flags.len()) == Ok::<Seq<bool>, Error>(
            flags,
        ),
    decreases flags.len() - at,
{
    let count = flags.len();
    if at == flags.len() {
        assert(flags.take(at) =~= flags);
        return;
    }
    let r = leading_repeats(flags, at);
    lemma_repeats_from(flags, at, 1);
    if r >= 3 {
        let b = pattern_byte(flags, at, r);
        assert(same_pattern(flags, at, r));
        assert(same_pattern(flags, at, 1));
        lemma_pattern_block(flags, at, r);
        let next = at + 3 * r;
        assert(block_length(b, (count - at) as nat) == 3 * r);
        assert forall|i: int| 0 <= i < 3 * r implies block_flag(b, i) == flags[at + i] by {
            let n = i / 3 + 1;
            assert(same_pattern(flags, at, n));
            assert(at + 3 * (n - 1) + i % 3 == at + i);
            if i % 3 == 0 {
                assert(flags[at + 3 * (n - 1)] == flags[at]);
            } else if i % 3 == 1 {
                assert(flags[at + 3 * (n - 1) + 1] == flags[at + 1]);
            } else {
                assert(flags[at + 3 * (n - 1) + 2] == flags[at + 2]);
            }
        }
        assert(flags.take(at) + Seq::new(3 * r as nat, |i: int| block_flag(b, i)) =~= flags.take(
            next,
        ));
        lemma_run_front(flags.take(at), b, bca_encode_from(flags, next), count);
        lemma_encode_from_decodes(flags, next);
    } else {
        let length: nat = if flags.len() - at < 7 {
            (flags.len() - at) as nat
        } else {
            7
        };
        let b = literal_byte(flags, at, length);
        lemma_literal_block(flags, at, length);
        let next = at + length;
        assert(block_length(b, (count - at) as nat) == length);
        assert(flags.take(at) + Seq::new(length, |i: int| block_flag(b, i)) =~= flags.take(next));
        lemma_run_front(flags.take(at), b, bca_encode_from(flags, next), count);
        lemma_encode_from_decodes(flags, next);
    }
}

/// Decoding an encoding gives the flags back.
pub proof fn lemma_bca_round_trip(flags: Seq<bool>)
    ensures
        spec_bca_decode(spec_bca_encode(flags), flags.len()) == Ok::<Seq<bool>, Error>(flags),
{
    assert(flags.take(0) =~= Seq::<bool>::empty());
    lemma_encode_from_decodes(flags, 0);
}

// --- executable code -----------------------------------------------------------------

fn same_pattern_at(bits: &[u8], count: usize, at: usize, n: usize) -> (same: bool)
    requires
        count <= 8 * bits.len(),
        at < count,
        1 <= n <= 16,
    ensures
        same == same_pattern(spec_bits(bits@, count as nat), at as int, n as int),
{
    let ghost flags = spec_bits(bits@, count as nat);
    if n * 3 > count - at {
        return false;
    }
    let start = at + (n - 1) * 3;
    get_bit(bits, start) == get_bit(bits, at) && get_bit(bits, start + 1) == get_bit(bits, at + 1)
        && get_bit(bits, start + 2) == get_bit(bits, at + 2)
}

/// Encodes the first `count` bits of `bits` as literal and repeat blocks.
pub fn encode(bits: &[u8], count: usize) -> (out: Vec<u8>)
    requires
        count <= 8 * bits.len(),
    ensures
        out@ == spec_bca_encode(spec_bits(bits@, count as nat)),
{
    let ghost flags = spec_bits(bits@, count as nat);
    let mut out: Vec<u8> = Vec::new();
    let mut at: usize = 0;
    while at < count
        invariant
            at <= count,
            count <= 8 * bits.len(),
            flags == spec_bits(bits@, count as nat),
            out@ + bca_encode_from(flags, at as int) == bca_encode_from(flags, 0),
        decreases count - at,
    {
        let mut n: usize = 1;
        while n <= 16 && same_pattern_at(bits, count, at, n)
            invariant
                1 <= n <= 17,
                at < count,
                count <= 8 * bits.len(),
                flags == spec_bits(bits@, count as nat),
                repeats_from(flags, at as int, n as int) == leading_repeats(flags, at as int),
            decreases 17 - n,
        {
            n = n + 1;
        }
        let repeats = n - 1;
        let ghost at_before = at as int;
        proof {
            lemma_repeats_from(flags, at as int, 1);
            assert(repeats == leading_repeats(flags, at as int));
        }
        let byte: u8;
        if repeats >= 3 {
            proof {
                assert(same_pattern(flags, at as int, repeats as int));
            }
            let b0: u8 = if get_bit(bits, at) {
                1
            } else {
                0
            };
            let b1: u8 = if get_bit(bits, at + 1) {
                1
            } else {
                0
            };
            let b2: u8 = if get_bit(bits, at + 2) {
                1
            } else {
                0
            };
            let pattern: u8 = (b0 << 4u8) | (b1 << 5u8) | (b2 << 6u8);
            let low: u8 = repeats as u8 - 1;
            byte = 0x80u8 | pattern | low;
            proof {
                assert(b0 == flag_bit(flags[at as int]));
                assert(b1 == flag_bit(flags[at + 1]));
                assert(b2 == flag_bit(flags[at + 2]));
                assert(low == (repeats - 1) as u8);
                assert(byte == 0x80u8 | (b0 << 4u8) | (b1 << 5u8) | (b2 << 6u8) | low) by (bit_vector)
                    requires
                        byte == 0x80u8 | pattern | low,
                        pattern == (b0 << 4u8) | (b1 << 5u8) | (b2 << 6u8),
                ;
                assert(byte == pattern_byte(flags, at as int, repeats as int));
                assert(leading_repeats(flags, at as int) >= 3);
            }
            at = at + repeats * 3;
        } else {
            let length: usize = if count - at < 7 {
                count - at
            } else {
                7
            };
            let mut literal: u8 = 0;
            let mut i: usize = 0;
            while i < length
                invariant
                    i <= length <= 7,
                    at + length <= count,
                    count <= 8 * bits.len(),
                    flags == spec_bits(bits@, count as nat),
                    literal == literal_byte(flags, at as int, i as nat),
                decreases length - i,
            {
                let bit: u8 = if get_bit(bits, at + i) {
                    1u8
                } else {
                    0u8
                };
                literal = literal | (bit << (i as u8));
                i = i + 1;
            }
            byte = literal;
            proof {
                assert(byte == literal_byte(flags, at as int, length as nat));
                assert(flags.len() == count);
                assert(leading_repeats(flags, at as int) < 3);
            }
            at = at + length;
        }
        proof {
            assert(bca_encode_from(flags, at_before) == seq![byte] + bca_encode_from(flags, at as int));
        }
        out.push(byte);
        proof {
            assert(out@ + bca_encode_from(flags, at as int) =~= bca_encode_from(flags, 0));
        }
    }
    proof {
        assert(out@ + bca_encode_from(flags, at as int) =~= out@);
    }
    out
}

/// Decodes literal and repeat blocks into a bitmap of `count` bits.
pub fn decode(bytes: &[u8], count: usize) -> (result: Result<Vec<u8>, Error>)
    ensures
        match result {
            Ok(bitmap) => spec_bca_decode(bytes@, count as nat) matches Ok(flags) && holds_bits(
                bitmap@,
                flags,
            ),
            Err(e) => spec_bca_decode(bytes@, count as nat) == Err::<Seq<bool>, Error>(e),
        },
{
    let mut at: usize = 0;
    let mut bits = zeroed(count);
    let mut j: usize = 0;
    let ghost mut flags: Seq<bool> = seq![];
    proof {
        assert(bytes@.take(0) =~= Seq::<u8>::empty());
    }
    while j < bytes.len()
        invariant
            j <= bytes.len(),
            bca_run(seq![], bytes@.take(j as int), count as nat) == Ok::<Seq<bool>, Error>(flags),
            at == flags.len(),
            at <= count,
            bits@.len() == (count as nat + 7) / 8,
            forall|i: int|
                0 <= i < 8 * bits@.len() ==> #[trigger] bit_at(bits@, i) == (i < at && flags[i]),
        decreases bytes.len() - j,
    {
        let byte = bytes[j];
        proof {
            assert(bytes@.take(j + 1).drop_last() =~= bytes@.take(j as int));
            assert(bytes@.take(j + 1).last() == byte);
        }
        if at >= count {
            proof {
                lemma_run_error_extends(seq![], bytes@, j + 1, count as nat);
            }
            return Err(Error("extra BCA block"));
        }
        let literal = byte & 0x80 == 0;
        let length: usize = if literal {
            if count - at < 7 {
                count - at
            } else {
                7
            }
        } else {
            3 * ((byte & 15) as usize + 1)
        };
        if length > count - at {
            proof {
                lemma_run_error_extends(seq![], bytes@, j + 1, count as nat);
            }
            return Err(Error("BCA block exceeds column"));
        }
        let ghost next = flags + Seq::new(length as nat, |i: int| block_flag(byte, i));
        let mut i: usize = 0;
        while i < length
            invariant
                i <= length,
                at + length <= count,
                literal == (byte & 0x80 == 0),
                literal ==> length <= 7,
                next == flags + Seq::new(length as nat, |i: int| block_flag(byte, i)),
                flags.len() == at,
                bits@.len() == (count as nat + 7) / 8,
                forall|k: int|
                    0 <= k < 8 * bits@.len() ==> #[trigger] bit_at(bits@, k) == ((k < at && flags[k])
                        || (at <= k < at + i && next[k])),
            decreases length - i,
        {
            let shift: u8 = if literal {
                i as u8
            } else {
                (4 + i % 3) as u8
            };
            if byte & (1u8 << shift) != 0 {
                set_bit(&mut bits, at + i);
            }
            proof {
                assert(next[at + i] == block_flag(byte, i as int));
            }
            i = i + 1;
        }
        proof {
            flags = next;
        }
        at = at + length;
        j = j + 1;
    }
    proof {
        assert(bytes@.take(j as int) =~= bytes@);
    }
    if at != count {
        return Err(Error("BCA blocks do not fill column"));
    }
    Ok(bits)
}

} // verus!
