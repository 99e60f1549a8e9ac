//! The benchmark's workloads and timing summary: the rows it generates, how
//! it cuts them into blocks, and which samples it reports.
use std::time::Duration;
use vstd::prelude::*;

verus! {

/// Median and 95th percentile of a run of timings.
#[derive(Debug, Clone, Copy, PartialEq, Eq)]
pub struct Timing {
    pub median: Duration,
    pub p95: Duration,
}

/// Product modulo 2^64.
pub open spec fn mul_mod64(x: u64, y: u64) -> u64 {
    ((x as nat * y as nat) % 0x1_0000_0000_0000_0000) as u64
}

/// The benchmark's 64-bit mixing function.
#[verifier::opaque]
pub open spec fn spec_hash(value: u64) -> u64 {
    let first = mul_mod64(value ^ (value >> 30u64), 0xbf58_476d_1ce4_e5b9);
    let second = mul_mod64(first ^ (first >> 27u64), 0x94d0_49bb_1331_11eb);
    second ^ (second >> 31u64)
}

/// Undoes `spec_hash`: each step inverts one of its steps, in reverse order.
pub open spec fn spec_unhash(mixed: u64) -> u64 {
    let second = mul_mod64(mixed ^ (mixed >> 31u64) ^ (mixed >> 62u64), 0x3196_42b2_d24d_8ec3);
    let first = mul_mod64(second ^ (second >> 27u64) ^ (second >> 54u64), 0x96de_1b17_3f11_9089);
    first ^ (first >> 30u64) ^ (first >> 60u64)
}

proof fn lemma_mul_mod64_inverse(x: u64, factor: u64, inverse: u64, k: nat)
    requires
        factor as nat * inverse as nat == 1 + k * 0x1_0000_0000_0000_0000,
    ensures
        mul_mod64(mul_mod64(x, factor), inverse) == x,
{
    let m: int = 0x1_0000_0000_0000_0000;
    let p = (x as nat * factor as nat) % (m as nat);
    assert(mul_mod64(x, factor) as int == p);
    vstd::arithmetic::div_mod::lemma_mul_mod_noop_left(
        (x as nat * factor as nat) as int,
        inverse as int,
        m,
    );
    assert((x as nat * factor as nat) * inverse as nat == x as nat + (x * k) * m)
        by (nonlinear_arith)
        requires
            factor as nat * inverse as nat == 1 + k * m,
    ;
    vstd::arithmetic::div_mod::lemma_mod_multiples_vanish((x * k) as int, x as int, m);
    vstd::arithmetic::div_mod::lemma_small_mod(x as nat, m as nat);
}

/// The mixing function loses nothing: every value is recovered from its
/// hash, so distinct rows hash to distinct values.
pub proof fn lemma_hash_invertible(value: u64)
    ensures
        spec_unhash(spec_hash(value)) == value,
{
    reveal(spec_hash);
    let a = value ^ (value >> 30u64);
    let b = mul_mod64(a, 0xbf58_476d_1ce4_e5b9);
    let c = b ^ (b >> 27u64);
    let d = mul_mod64(c, 0x94d0_49bb_1331_11eb);
    let e = d ^ (d >> 31u64);
    assert(e ^ (e >> 31u64) ^ (e >> 62u64) == d) by (bit_vector)
        requires
            e == d ^ (d >> 31u64),
    ;
    lemma_mul_mod64_inverse(c, 0x94d0_49bb_1331_11eb, 0x3196_42b2_d24d_8ec3, 2077064247507883091);
    assert(c ^ (c >> 27u64) ^ (c >> 54u64) == b) by (bit_vector)
        requires
            c == b ^ (b >> 27u64),
    ;
    lemma_mul_mod64_inverse(a, 0xbf58_476d_1ce4_e5b9, 0x96de_1b17_3f11_9089, 8125545580553827436);
    assert(a ^ (a >> 30u64) ^ (a >> 60u64) == value) by (bit_vector)
        requires
            a == value ^ (value >> 30u64),
    ;
}

/// Mixes the bits of `value`.
pub fn hash(value: u64) -> (mixed: u64)
    ensures
        mixed == spec_hash(value),
{
    proof {
        reveal(spec_hash);
    }
    let first = (value ^ (value >> 30)).wrapping_mul(0xbf58_476d_1ce4_e5b9);
    let second = (first ^ (first >> 27)).wrapping_mul(0x94d0_49bb_1331_11eb);
    second ^ (second >> 31)
}

/// Millisecond timestamp of a generated row: one second apart from the
/// first of 2025.
pub open spec fn row_time(row: int) -> int {
    1_735_689_600_000 + row * 1_000
}

/// Rows whose timestamp fits in an `i64`.
pub open spec fn row_in_range(row: int) -> bool {
    0 <= row && row_time(row) <= i64::MAX
}

/// The telemetry workload's row: time, customer, product, country,
/// quantity and price.
pub open spec fn spec_telemetry_row(row: int) -> Seq<i64> {
    let customer = (spec_hash(row as u64) % 20_000) as i64;
    let product = (spec_hash((row + 1) as u64) % 800) as i64;
    seq![
        row_time(row) as i64,
        customer,
        product,
        (customer % 32) as i64,
        (1 + spec_hash((row + 2) as u64) % 5) as i64,
        (199 + product * 17) as i64,
    ]
}

/// The telemetry columns: the row's timestamp; a customer drawn by hashing
/// the row; a product drawn by hashing the next row; the customer's country
/// bucket; a quantity of 1 to 5 drawn by hashing the row after; and a price
/// set by the product.
pub proof fn lemma_telemetry_columns(row: int)
    requires
        row_in_range(row),
    ensures
        ({
            let values = spec_telemetry_row(row);
            &&& values.len() == 6
            &&& values[0] == 1_735_689_600_000 + 1_000 * row
            &&& values[1] == spec_hash(row as u64) % 20_000
            &&& values[2] == spec_hash((row + 1) as u64) % 800
            &&& values[3] == values[1] % 32
            &&& 1 <= values[4] <= 5 && values[4] == 1 + spec_hash((row + 2) as u64) % 5
            &&& values[5] == 199 + 17 * values[2]
        }),
{
}

/// One row of the telemetry workload.
pub fn telemetry_row(row: usize) -> (values: [i64; 6])
    requires
        row_in_range(row as int),
    ensures
        values@ == spec_telemetry_row(row as int),
{
    let time = 1_735_689_600_000 + row as i64 * 1_000;
    let customer = (hash(row as u64) % 20_000) as i64;
    let product = (hash(row as u64 + 1) % 800) as i64;
    let values = [
        time,
        customer,
        product,
        customer % 32,
        1 + (hash(row as u64 + 2) % 5) as i64,
        199 + product * 17,
    ];
    proof {
        assert(values@ =~= spec_telemetry_row(row as int));
    }
    values
}

/// One row of the random workload: six mixed values with salts 1 to 6.
pub fn random_row(row: usize) -> (values: [i64; 6])
    ensures
        forall|k: int| 0 <= k < 6 ==> #[trigger] values@[k] == spec_hash(
            (row as u64) ^ ((k + 1) as u64),
        ) as i64,
{
    let r = row as u64;
    let values = [
        hash(r ^ 1) as i64,
        hash(r ^ 2) as i64,
        hash(r ^ 3) as i64,
        hash(r ^ 4) as i64,
        hash(r ^ 5) as i64,
        hash(r ^ 6) as i64,
    ];
    proof {
        assert(values@[0] == spec_hash(r ^ 1u64) as i64);
        assert(values@[1] == spec_hash(r ^ 2u64) as i64);
        assert(values@[2] == spec_hash(r ^ 3u64) as i64);
        assert(values@[3] == spec_hash(r ^ 4u64) as i64);
        assert(values@[4] == spec_hash(r ^ 5u64) as i64);
        assert(values@[5] == spec_hash(r ^ 6u64) as i64);
    }
    values
}

/// One row of the mixed workload, before its amount becomes a float.
#[derive(Debug, Clone, Copy, PartialEq, Eq)]
pub struct MixedRow {
    pub time: i64,
    pub customer: i64,
    /// The amount in hundredths.
    pub cents: u64,
    /// Index into the workload's five country codes.
    pub country: usize,
    pub success: bool,
}

/// One row of the mixed workload.
pub fn mixed_row(row: usize) -> (values: MixedRow)
    requires
        row_in_range(row as int),
    ensures
        values.time == row_time(row as int),
        values.customer == row % 20_000,
        values.cents == spec_hash(row as u64) % 100_000,
        values.country == row % 5,
        values.success == (row % 11 != 0),
{
    MixedRow {
        time: 1_735_689_600_000 + row as i64 * 1_000,
        customer: (row % 20_000) as i64,
        cents: hash(row as u64) % 100_000,
        country: row % 5,
        success: row % 11 != 0,
    }
}

/// Number of blocks of at most `block_rows` rows that `rows` rows make.
pub open spec fn block_count(rows: nat, block_rows: nat) -> nat {
    ((rows + block_rows - 1) / (block_rows as int)) as nat
}

/// Cuts `rows` rows into blocks of `block_rows`, the last one shorter: each
/// block as its first row and its row count.
pub fn block_spans(rows: usize, block_rows: usize) -> (spans: Vec<(usize, usize)>)
    requires
        block_rows >= 1,
    ensures
        spans@.len() == block_count(rows as nat, block_rows as nat),
        forall|i: int|
            0 <= i < spans@.len() ==> (#[trigger] spans@[i]).0 == i * block_rows && spans@[i].1 == (
            if block_rows <= rows - i * block_rows {
                block_rows as int
            } else {
                rows - i * block_rows
            }),
{
    let mut spans: Vec<(usize, usize)> = Vec::new();
    let mut start: usize = 0;
    proof {
        assert(0 * block_rows == 0) by (nonlinear_arith);
        if rows > 0 {
            lemma_block_count_step(rows as nat, block_rows as nat, 0);
        } else {
            assert((block_rows - 1) / (block_rows as int) == 0) by (nonlinear_arith)
                requires
                    block_rows >= 1,
            ;
        }
    }
    while start < rows
        invariant
            block_rows >= 1,
            start == spans@.len() * block_rows,
            start <= rows || spans@.len() == block_count(rows as nat, block_rows as nat),
            spans@.len() <= block_count(rows as nat, block_rows as nat),
            start < rows ==> spans@.len() < block_count(rows as nat, block_rows as nat),
            start >= rows ==> spans@.len() == block_count(rows as nat, block_rows as nat),
            forall|i: int|
                0 <= i < spans@.len() ==> (#[trigger] spans@[i]).0 == i * block_rows && spans@[i].1
                    == (if block_rows <= rows - i * block_rows {
                    block_rows as int
                } else {
                    rows - i * block_rows
                }),
        decreases rows - start,
    {
        let left = rows - start;
        let length = if block_rows <= left {
            block_rows
        } else {
            left
        };
        let ghost i = spans@.len();
        spans.push((start, length));
        proof {
            lemma_block_count_step(rows as nat, block_rows as nat, i);
        }
        if left <= block_rows {
            proof {
                assert(spans@.len() == block_count(rows as nat, block_rows as nat));
            }
            return spans;
        }
        start = start + block_rows;
    }
    spans
}

proof fn lemma_block_count_step(rows: nat, block_rows: nat, i: nat)
    requires
        block_rows >= 1,
        i * block_rows < rows,
    ensures
        i < block_count(rows, block_rows),
        rows - i * block_rows <= block_rows ==> i + 1 == block_count(rows, block_rows),
        rows - i * block_rows > block_rows ==> i + 1 < block_count(rows, block_rows),
        (i + 1) * block_rows == i * block_rows + block_rows,
{
    assert((i + 1) * block_rows == i * block_rows + block_rows) by (nonlinear_arith);
    let n = rows + block_rows - 1;
    vstd::arithmetic::div_mod::lemma_fundamental_div_mod(n as int, block_rows as int);
    let q = n / block_rows as int;
    let r = n % block_rows as int;
    assert(n == block_rows * q + r);
    assert(0 <= r < block_rows);
    assert(i < q) by (nonlinear_arith)
        requires
            i * block_rows < rows,
            n == block_rows * q + r,
            n == rows + block_rows - 1,
            0 <= r < block_rows,
            block_rows >= 1,
            q >= 0,
    ;
    if rows - i * block_rows <= block_rows {
        assert(q <= i + 1) by (nonlinear_arith)
            requires
                rows <= i * block_rows + block_rows,
                n == block_rows * q + r,
                n == rows + block_rows - 1,
                0 <= r,
                block_rows >= 1,
        ;
    } else {
        assert(i + 1 < q) by (nonlinear_arith)
            requires
                rows > i * block_rows + block_rows,
                n == block_rows * q + r,
                n == rows + block_rows - 1,
                0 <= r < block_rows,
                block_rows >= 1,
        ;
    }
}

/// Positions of the median and of the 95th percentile among `count` sorted
/// samples: `count / 2`, and the ceiling of 95% of `count` (the product
/// saturating at `usize::MAX`) less one.
pub fn summary_positions(count: usize) -> (positions: (usize, usize))
    requires
        count >= 1,
    ensures
        positions.0 == count / 2,
        positions.1 + 1 == ((if count * 95 <= usize::MAX {
            count * 95
        } else {
            usize::MAX as int
        }) + 99) / 100,
        positions.0 < count,
        positions.1 < count,
{
    let scaled = match count.checked_mul(95) {
        Some(product) => product,
        None => usize::MAX,
    };
    let ceiling = scaled / 100 + if scaled % 100 != 0 {
        1
    } else {
        0
    };
    proof {
        assert(ceiling >= 1);
        assert(ceiling <= count) by (nonlinear_arith)
            requires
                scaled <= count * 95,
                ceiling == scaled / 100 + if scaled % 100 != 0 {
                    1int
                } else {
                    0int
                },
                count >= 1,
        ;
    }
    (count / 2, ceiling - 1)
}

/// The next state of the benchmark's linear congruential generator.
pub open spec fn spec_next_random(state: u64) -> u64 {
    ((state as nat * 6_364_136_223_846_793_005 + 1) % 0x1_0000_0000_0000_0000) as u64
}

/// Advances the generator and returns its new state.
pub fn random(state: &mut u64) -> (next: u64)
    ensures
        next == spec_next_random(*old(state)),
        *final(state) == next,
{
    let next = state.wrapping_mul(6_364_136_223_846_793_005).wrapping_add(1);
    proof {
        let x = *old(state) as nat;
        let m = 0x1_0000_0000_0000_0000nat;
        let product = (x * 6_364_136_223_846_793_005) % m;
        assert((product + 1) % m == (x * 6_364_136_223_846_793_005 + 1) % m) by {
            vstd::arithmetic::div_mod::lemma_add_mod_noop(
                (x * 6_364_136_223_846_793_005) as int,
                1,
                m as int,
            );
            vstd::arithmetic::div_mod::lemma_small_mod(1, m);
            vstd::arithmetic::div_mod::lemma_mod_twice(
                (x * 6_364_136_223_846_793_005) as int,
                m as int,
            );
        }
    }
    *state = next;
    next
}

/// One row of the synthetic events: time, customer, product, country,
/// quantity and price in cents, drawing four numbers from the generator.
pub open spec fn spec_synthetic_event(row: int, state: u64) -> Seq<i64> {
    let first = spec_next_random(state);
    let second = spec_next_random(first);
    let third = spec_next_random(second);
    let fourth = spec_next_random(third);
    let customer = (first % 20_000) as i64;
    let product = (second % 800) as i64;
    seq![
        row_time(row) as i64,
        customer,
        product,
        (customer % 32) as i64,
        (1 + third % 5) as i64,
        (199 + product * 17 + fourth % 20) as i64,
    ]
}

/// One synthetic event row; the generator moves four steps.
pub fn synthetic_event(row: usize, state: &mut u64) -> (values: [i64; 6])
    requires
        row_in_range(row as int),
    ensures
        values@ == spec_synthetic_event(row as int, *old(state)),
        *final(state) == spec_next_random(
            spec_next_random(spec_next_random(spec_next_random(*old(state)))),
        ),
{
    let customer = (random(state) % 20_000) as i64;
    let product = (random(state) % 800) as i64;
    let quantity = 1 + (random(state) % 5) as i64;
    let price = 199 + product * 17 + (random(state) % 20) as i64;
    let values = [
        1_735_689_600_000 + row as i64 * 1_000,
        customer,
        product,
        customer % 32,
        quantity,
        price,
    ];
    proof {
        assert(values@ =~= spec_synthetic_event(row as int, *old(state)));
    }
    values
}

/// The generator's step loses nothing: the previous state is recovered from
/// the next one, so the generator never falls into a shorter cycle by
/// merging two states.
pub proof fn lemma_random_invertible(state: u64)
    ensures
        mul_mod64(
            ((spec_next_random(state) as nat + 0xffff_ffff_ffff_ffff) % 0x1_0000_0000_0000_0000) as u64,
            0xc097_ef87_329e_28a5,
        ) == state,
{
    let m: int = 0x1_0000_0000_0000_0000;
    let product = (state as nat * 6_364_136_223_846_793_005) % (m as nat);
    assert(spec_next_random(state) == ((product + 1) % (m as nat)) as u64) by {
        vstd::arithmetic::div_mod::lemma_add_mod_noop(
            (state as nat * 6_364_136_223_846_793_005) as int,
            1,
            m,
        );
        vstd::arithmetic::div_mod::lemma_small_mod(1, m as nat);
        vstd::arithmetic::div_mod::lemma_mod_twice(
            (state as nat * 6_364_136_223_846_793_005) as int,
            m,
        );
    }
    assert(((spec_next_random(state) as nat + 0xffff_ffff_ffff_ffff) % (m as nat)) == product) by {
        vstd::arithmetic::div_mod::lemma_mod_bound(
            (state as nat * 6_364_136_223_846_793_005) as int,
            m,
        );
        if product + 1 < m {
            vstd::arithmetic::div_mod::lemma_small_mod((product + 1) as nat, m as nat);
            vstd::arithmetic::div_mod::lemma_mod_multiples_vanish(1, product as int, m);
            vstd::arithmetic::div_mod::lemma_small_mod(product as nat, m as nat);
        } else {
            vstd::arithmetic::div_mod::lemma_mod_self_0(m);
        }
    }
    assert(mul_mod64(state, 6_364_136_223_846_793_005) as nat == product);
    lemma_mul_mod64_inverse(state, 6_364_136_223_846_793_005, 0xc097_ef87_329e_28a5, 4787856489426250814);
}

} // verus!
