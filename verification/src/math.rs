//! Little-endian numbers and the arithmetic facts the byte layouts rest on.
use vstd::arithmetic::div_mod::*;
use vstd::arithmetic::mul::*;
use vstd::arithmetic::power2::*;
use vstd::prelude::*;

verus! {

/// Little-endian value of a byte string.
pub open spec fn le_value(bytes: Seq<u8>) -> nat
    decreases bytes.len(),
{
    if bytes.len() == 0 {
        0
    } else {
        le_value(bytes.drop_last()) + bytes.last() as nat * pow2(8 * (bytes.len() - 1) as nat)
    }
}

/// The low `len` bytes of `x`, least significant first.
pub open spec fn le_bytes(x: nat, len: nat) -> Seq<u8>
    decreases len,
{
    if len == 0 {
        seq![]
    } else {
        le_bytes(x, (len - 1) as nat).push(((x / pow2(8 * (len - 1) as nat)) % 256) as u8)
    }
}

/// Two's complement reading of a signed 64-bit value as an unsigned one.
pub open spec fn u64_bits(value: i64) -> nat {
    if value >= 0 {
        value as nat
    } else {
        (value + 0x1_0000_0000_0000_0000) as nat
    }
}

/// Signed 64-bit value whose two's complement bits are `bits`.
pub open spec fn i64_of_bits(bits: nat) -> int {
    if bits < 0x8000_0000_0000_0000 {
        bits as int
    } else {
        bits - 0x1_0000_0000_0000_0000
    }
}

pub proof fn lemma_pow2_facts()
    ensures
        pow2(0) == 1,
        pow2(8) == 256,
        pow2(16) == 0x1_0000,
        pow2(32) == 0x1_0000_0000,
        pow2(64) == 0x1_0000_0000_0000_0000,
{
    lemma2_to64();
}

pub proof fn lemma_pow2_mul(a: nat, b: nat)
    ensures
        pow2(a) * pow2(b) == pow2(a + b),
        pow2(a) > 0,
        pow2(b) > 0,
{
    lemma_pow2_adds(a, b);
    lemma_pow2_pos(a);
    lemma_pow2_pos(b);
}

pub proof fn lemma_pow2_le(a: nat, b: nat)
    requires
        a <= b,
    ensures
        pow2(a) <= pow2(b),
{
    if a < b {
        lemma_pow2_strictly_increases(a, b);
    }
}

/// `x < 2^(a+b)` gives `x / 2^a < 2^b`.
pub proof fn lemma_div_pow2_bound(x: nat, a: nat, b: nat)
    requires
        x < pow2(a + b),
    ensures
        x / pow2(a) < pow2(b),
{
    lemma_pow2_mul(a, b);
    let d = pow2(a) as int;
    let q = x as int / d;
    lemma_fundamental_div_mod(x as int, d);
    lemma_mod_bound(x as int, d);
    if q >= pow2(b) {
        lemma_mul_inequality(pow2(b) as int, q, d);
        assert(d * q >= pow2(b) * d);
        lemma_mul_is_commutative(pow2(b) as int, d);
        assert(false);
    }
}

/// Division of a sum whose second part is a multiple of the divisor.
pub proof fn lemma_div_add_multiple(x: nat, m: nat, d: nat)
    requires
        d > 0,
    ensures
        (x + m * d) / d == x / d + m,
        (x + m * d) % d == x % d,
{
    lemma_hoist_over_denominator(x as int, m as int, d);
    lemma_mod_multiples_vanish(m as int, x as int, d as int);
    lemma_mul_is_commutative(m as int, d as int);
}

/// `(x / d) % e` only looks at `x` modulo `d * e * f`.
pub proof fn lemma_div_mod_window(x: nat, d: nat, e: nat, f: nat)
    requires
        d > 0,
        e > 0,
        f > 0,
    ensures
        (x / d) % e == ((x % (d * e * f)) / d) % e,
{
    let m = d * e * f;
    assert(m > 0) by (nonlinear_arith)
        requires
            d > 0,
            e > 0,
            f > 0,
            m == d * e * f,
    ;
    let q = x / m;
    let r = x % m;
    lemma_fundamental_div_mod(x as int, m as int);
    lemma_mod_bound(x as int, m as int);
    assert(x == r + (q * (e * f)) * d) by (nonlinear_arith)
        requires
            x == m * q + r,
            m == d * e * f,
    ;
    lemma_div_add_multiple(r, q * (e * f), d);
    assert(x / d == r / d + q * (e * f));
    assert(r / d + q * (e * f) == (q * f) * e + r / d) by (nonlinear_arith);
    lemma_div_add_multiple(r / d, q * f, e);
}

pub proof fn lemma_le_bytes_len(x: nat, len: nat)
    ensures
        le_bytes(x, len).len() == len,
    decreases len,
{
    if len > 0 {
        lemma_le_bytes_len(x, (len - 1) as nat);
    }
}

pub proof fn lemma_le_bytes_index(x: nat, len: nat, i: nat)
    requires
        i < len,
    ensures
        le_bytes(x, len)[i as int] == ((x / pow2(8 * i)) % 256) as u8,
    decreases len,
{
    lemma_le_bytes_len(x, (len - 1) as nat);
    if i < len - 1 {
        lemma_le_bytes_index(x, (len - 1) as nat, i);
    }
}

pub proof fn lemma_le_value_bound(bytes: Seq<u8>)
    ensures
        le_value(bytes) < pow2(8 * bytes.len()),
    decreases bytes.len(),
{
    lemma_pow2_facts();
    if bytes.len() > 0 {
        let n = (bytes.len() - 1) as nat;
        lemma_le_value_bound(bytes.drop_last());
        lemma_pow2_mul(8 * n, 8);
        let p = pow2(8 * n);
        let b = bytes.last() as nat;
        assert(le_value(bytes.drop_last()) + b * p < p * 256) by (nonlinear_arith)
            requires
                le_value(bytes.drop_last()) < p,
                b < 256,
        ;
        assert(8 * n + 8 == 8 * bytes.len());
    }
}

/// Digit `i` of a little-endian byte string is byte `i`.
pub proof fn lemma_le_value_digit(bytes: Seq<u8>, i: nat)
    requires
        i < bytes.len(),
    ensures
        (le_value(bytes) / pow2(8 * i)) % 256 == bytes[i as int],
    decreases bytes.len(),
{
    lemma_pow2_facts();
    let n = (bytes.len() - 1) as nat;
    let rest = bytes.drop_last();
    let b = bytes.last() as nat;
    lemma_le_value_bound(rest);
    if i == n {
        let p = pow2(8 * n);
        lemma_pow2_pos(8 * n);
        lemma_div_add_multiple(le_value(rest), b, p);
        lemma_small_div_converse_nat(le_value(rest), p);
        lemma_small_mod(b, 256);
    } else {
        lemma_le_value_digit(rest, i);
        let k = (n - i - 1) as nat;
        lemma_pow2_mul(8 * i, 8 * (n - i) as nat);
        lemma_pow2_mul(8, 8 * k);
        let d = pow2(8 * i);
        let e = pow2(8 * (n - i) as nat);
        assert(b * pow2(8 * n) == (b * e) * d) by (nonlinear_arith)
            requires
                pow2(8 * n) == d * e,
        ;
        lemma_div_add_multiple(le_value(rest), b * e, d);
        assert(b * e == (b * pow2(8 * k)) * 256) by (nonlinear_arith)
            requires
                e == 256 * pow2(8 * k),
        ;
        lemma_div_add_multiple(le_value(rest) / d, b * pow2(8 * k), 256);
    }
}

proof fn lemma_small_div_converse_nat(x: nat, d: nat)
    requires
        x < d,
    ensures
        x / d == 0,
{
    lemma_basic_div(x as int, d as int);
}

/// A byte string is the little-endian encoding of its own value.
pub proof fn lemma_le_bytes_of_value(bytes: Seq<u8>)
    ensures
        le_bytes(le_value(bytes), bytes.len()) == bytes,
{
    let x = le_value(bytes);
    lemma_le_bytes_len(x, bytes.len());
    assert forall|i: int| 0 <= i < bytes.len() implies le_bytes(x, bytes.len())[i] == bytes[i] by {
        lemma_le_bytes_index(x, bytes.len(), i as nat);
        lemma_le_value_digit(bytes, i as nat);
    }
    assert(le_bytes(x, bytes.len()) =~= bytes);
}

/// Value of the little-endian encoding of `x`.
pub proof fn lemma_le_value_of_bytes(x: nat, len: nat)
    ensures
        le_value(le_bytes(x, len)) == x % pow2(8 * len),
    decreases len,
{
    lemma_pow2_facts();
    lemma_le_bytes_len(x, len);
    if len == 0 {
        lemma_small_mod(0, 1);
        assert(x % 1 == 0) by (nonlinear_arith);
    } else {
        let n = (len - 1) as nat;
        lemma_le_value_of_bytes(x, n);
        lemma_le_bytes_len(x, n);
        let s = le_bytes(x, len);
        assert(s.drop_last() =~= le_bytes(x, n));
        let p = pow2(8 * n);
        lemma_pow2_mul(8 * n, 8);
        lemma_breakdown(x as int, p as int, 256);
        assert(8 * n + 8 == 8 * len);
        lemma_mod_bound(x as int / p as int, 256);
        let digit = (x / p) % 256;
        assert(s.last() as nat == digit);
        assert(le_value(s) == x % p + digit * p);
        assert(x % (p * 256) == p * digit + x % p);
        assert(digit * p == p * digit) by (nonlinear_arith);
    }
}

/// Appending one byte to a little-endian string.
pub proof fn lemma_le_value_push(bytes: Seq<u8>, b: u8)
    ensures
        le_value(bytes.push(b)) == le_value(bytes) + b as nat * pow2(8 * bytes.len()),
{
    assert(bytes.push(b).drop_last() =~= bytes);
}

/// A prefix of a little-endian string holds the value modulo its width.
pub proof fn lemma_le_value_take(bytes: Seq<u8>, k: nat)
    requires
        k <= bytes.len(),
    ensures
        le_value(bytes.take(k as int)) == le_value(bytes) % pow2(8 * k),
    decreases bytes.len(),
{
    lemma_pow2_pos(8 * k);
    if bytes.len() == k {
        assert(bytes.take(k as int) =~= bytes);
        lemma_le_value_bound(bytes);
        lemma_small_mod(le_value(bytes), pow2(8 * k));
    } else {
        let n = (bytes.len() - 1) as nat;
        let rest = bytes.drop_last();
        lemma_le_value_take(rest, k);
        assert(rest.take(k as int) =~= bytes.take(k as int));
        let b = bytes.last() as nat;
        lemma_pow2_mul(8 * k, 8 * (n - k) as nat);
        let m = b * pow2(8 * (n - k) as nat);
        assert(b * pow2(8 * n) == m * pow2(8 * k)) by (nonlinear_arith)
            requires
                pow2(8 * n) == pow2(8 * k) * pow2(8 * (n - k) as nat),
                m == b * pow2(8 * (n - k) as nat),
        ;
        lemma_div_add_multiple(le_value(rest), m, pow2(8 * k));
    }
}

/// Writing `len` bytes of a value below `2^(8 len)` and reading them back
/// gives the value.
pub proof fn lemma_le_round(x: nat, len: nat)
    requires
        x < pow2(8 * len),
    ensures
        le_value(le_bytes(x, len)) == x,
        le_bytes(x, len).len() == len,
{
    lemma_le_value_of_bytes(x, len);
    lemma_le_bytes_len(x, len);
    lemma_small_mod(x, pow2(8 * len));
}

} // verus!
