use crate::word::{BIN_COUNT, MIN_CHUNK_SIZE, WORD_SIZE};
use vstd::arithmetic::power2::pow2;
use vstd::prelude::*;

verus! {

/// Below this size there is one bucket per word.
pub const WORD_BIN_LIMIT: u64 = 256;

/// From `WORD_BIN_LIMIT` up to this size there is one bucket per two words.
pub const DOUBLE_BIN_LIMIT: u64 = 512;

/// The first bucket of two words' width.
pub const DBL_BUCKET_G: u64 = 29;

/// The first bucket that is a quarter of a power of two wide.
pub const EXP_BUCKET_G: u64 = 45;

/// The base two logarithm of the number of buckets per power of two.
pub const G_P2DV: u64 = 2;

/// The base two logarithm of `n`, rounded down.
pub open spec fn log2(n: int) -> nat {
    vstd::arithmetic::logarithm::log(2, n) as nat
}

/// The bucket for chunks of `size` bytes: a bucket per word from the smallest
/// chunk up, then a bucket per two words, then four buckets, equally wide, from
/// each power of two to the next; the last one takes all that is larger.
pub open spec fn bucket(size: int) -> int {
    if size < WORD_BIN_LIMIT {
        (size - MIN_CHUNK_SIZE) / 8
    } else if size < DOUBLE_BIN_LIMIT {
        DBL_BUCKET_G + (size - WORD_BIN_LIMIT) / 16
    } else {
        let g: int = EXP_BUCKET_G + 4 * (log2(size) - 9) + (size / pow2((log2(size) - 2) as nat) as int
            - 4);
        if g < 127 {
            g
        } else {
            127
        }
    }
}

/// The base two logarithm of a positive number is the exponent of the power of two
/// that it lies at or above and whose double it lies below.
proof fn lemma_log2(n: int, l: nat)
    requires
        pow2(l) <= n < pow2(l + 1),
    ensures
        log2(n) == l,
{
    vstd::arithmetic::power2::lemma_pow2(l);
    vstd::arithmetic::power2::lemma_pow2_pos(l);
    vstd::arithmetic::logarithm::lemma_log_pow(2, l);
    vstd::arithmetic::logarithm::lemma_log_is_ordered(2, pow2(l) as int, n);
    vstd::arithmetic::logarithm::lemma_log_is_ordered(2, n, pow2(l + 1) - 1);
    lemma_log_below(l);
}

proof fn lemma_log_below(l: nat)
    ensures
        vstd::arithmetic::logarithm::log(2, pow2(l + 1) - 1) == l,
    decreases l,
{
    vstd::arithmetic::power2::lemma_pow2_unfold(l + 1);
    vstd::arithmetic::power2::lemma_pow2_pos(l);
    if l == 0 {
        vstd::arithmetic::power2::lemma2_to64();
        vstd::arithmetic::logarithm::lemma_log0(2, 1);
    } else {
        vstd::arithmetic::power2::lemma_pow2_unfold(l);
        vstd::arithmetic::power2::lemma_pow2_pos((l - 1) as nat);
        vstd::arithmetic::logarithm::lemma_log_s(2, pow2(l + 1) - 1);
        lemma_log_below((l - 1) as nat);
    }
}

/// Where the base two logarithm of `n` lies.
proof fn lemma_log2_bounds(n: int)
    requires
        n > 0,
    ensures
        pow2(log2(n)) <= n < pow2(log2(n) + 1),
    decreases n,
{
    if n == 1 {
        vstd::arithmetic::logarithm::lemma_log0(2, 1);
        vstd::arithmetic::power2::lemma2_to64();
    } else {
        vstd::arithmetic::logarithm::lemma_log_s(2, n);
        lemma_log2_bounds(n / 2);
        vstd::arithmetic::logarithm::lemma_log_nonnegative(2, n / 2);
        vstd::arithmetic::power2::lemma_pow2_unfold(log2(n));
        vstd::arithmetic::power2::lemma_pow2_unfold(log2(n) + 1);
    }
}

/// A number at or above 4 has between 4 and 7 quarters of the power of two below it.
proof fn lemma_quarters(n: int, l: nat)
    requires
        l >= 2,
        pow2(l) <= n < pow2(l + 1),
    ensures
        4 <= n / pow2((l - 2) as nat) as int <= 7,
{
    let p: int = pow2((l - 2) as nat) as int;
    vstd::arithmetic::power2::lemma_pow2_pos((l - 2) as nat);
    vstd::arithmetic::power2::lemma_pow2_unfold((l - 1) as nat);
    vstd::arithmetic::power2::lemma_pow2_unfold(l);
    vstd::arithmetic::power2::lemma_pow2_unfold(l + 1);
    assert(4 <= n / p <= 7) by (nonlinear_arith)
        requires
            p > 0,
            4 * p <= n < 8 * p,
    ;
}

/// The smallest size whose bucket is counted by powers of two.
proof fn lemma_log2_from_512(n: int)
    requires
        n >= DOUBLE_BIN_LIMIT,
    ensures
        log2(n) >= 9,
{
    vstd::arithmetic::power2::lemma2_to64();
    lemma_log2(512, 9);
    vstd::arithmetic::logarithm::lemma_log_nonnegative(2, 512);
    vstd::arithmetic::logarithm::lemma_log_is_ordered(2, 512, n);
}

/// Every chunk has a bucket.
pub proof fn lemma_bucket_range(size: int)
    requires
        size >= MIN_CHUNK_SIZE,
    ensures
        0 <= bucket(size) < BIN_COUNT,
{
    if size >= DOUBLE_BIN_LIMIT {
        lemma_log2_bounds(size);
        lemma_log2_from_512(size);
        lemma_quarters(size, log2(size));
    }
}

/// How much the sizes in a bucket differ at most: by less than a word below the first
/// limit, by less than two words below the second, and from there on, but for the
/// last bucket, by less than a quarter of the power of two below them.
pub proof fn law_bucket_width(small: int, large: int)
    requires
        MIN_CHUNK_SIZE <= small <= large,
        bucket(small) == bucket(large),
    ensures
        large < WORD_BIN_LIMIT ==> large - small < 8,
        large < DOUBLE_BIN_LIMIT ==> large - small < 16,
        DOUBLE_BIN_LIMIT <= large && bucket(large) < 127 ==> 4 * (large - small) < pow2(log2(large)),
{
    lemma_bucket_range(small);
    lemma_bucket_range(large);
    if DOUBLE_BIN_LIMIT <= large && bucket(large) < 127 {
        let l = log2(large);
        lemma_log2_bounds(large);
        lemma_log2_from_512(large);
        lemma_quarters(large, l);
        assert(small >= DOUBLE_BIN_LIMIT);
        lemma_log2_bounds(small);
        lemma_log2_from_512(small);
        lemma_quarters(small, log2(small));
        assert(log2(small) == l);
        let p: int = pow2((l - 2) as nat) as int;
        vstd::arithmetic::power2::lemma_pow2_pos((l - 2) as nat);
        vstd::arithmetic::power2::lemma_pow2_unfold((l - 1) as nat);
        vstd::arithmetic::power2::lemma_pow2_unfold(l);
        vstd::arithmetic::div_mod::lemma_fundamental_div_mod(large, p);
        vstd::arithmetic::div_mod::lemma_fundamental_div_mod(small, p);
        vstd::arithmetic::div_mod::lemma_mod_bound(large, p);
        vstd::arithmetic::div_mod::lemma_mod_bound(small, p);
    }
}

/// No bucket is left out: each has a size that a chunk can have.
pub proof fn law_no_bucket_skipped(g: int)
    requires
        0 <= g < BIN_COUNT,
    ensures
        exists|size: int|
            MIN_CHUNK_SIZE <= size <= u64::MAX && size % 8 == 0 && #[trigger] bucket(size) == g,
{
    if g < DBL_BUCKET_G {
        assert(bucket(MIN_CHUNK_SIZE + 8 * g) == g);
    } else if g < EXP_BUCKET_G {
        assert(bucket(WORD_BIN_LIMIT + 16 * (g - DBL_BUCKET_G)) == g);
    } else {
        let n: int = g - EXP_BUCKET_G;
        let l = (9 + n / 4) as nat;
        let q: int = n % 4;
        let p: int = pow2((l - 2) as nat) as int;
        let r: int = pow2((l - 5) as nat) as int;
        vstd::arithmetic::power2::lemma_pow2_pos((l - 5) as nat);
        vstd::arithmetic::power2::lemma_pow2_unfold((l - 4) as nat);
        vstd::arithmetic::power2::lemma_pow2_unfold((l - 3) as nat);
        vstd::arithmetic::power2::lemma_pow2_unfold((l - 2) as nat);
        vstd::arithmetic::power2::lemma_pow2_unfold((l - 1) as nat);
        vstd::arithmetic::power2::lemma_pow2_unfold(l);
        vstd::arithmetic::power2::lemma_pow2_unfold(l + 1);
        assert(p == 8 * r);
        if l + 1 < 32 {
            vstd::arithmetic::power2::lemma_pow2_strictly_increases(l + 1, 32);
        }
        vstd::arithmetic::power2::lemma2_to64();
        let size: int = (4 + q) * p;
        assert(size == 4 * p || size == 5 * p || size == 6 * p || size == 7 * p);
        lemma_log2(size, l);
        lemma_log2_above(l);
        vstd::arithmetic::div_mod::lemma_fundamental_div_mod_converse(size, p, 4 + q, 0);
        assert(bucket(size) == g);
    }
}

/// From the ninth power of two on it is at least this large.
proof fn lemma_log2_above(l: nat)
    requires
        l >= 9,
    ensures
        pow2(l) >= DOUBLE_BIN_LIMIT,
{
    vstd::arithmetic::power2::lemma2_to64();
    if l > 9 {
        vstd::arithmetic::power2::lemma_pow2_strictly_increases(9, l);
    }
}

/// Twice the size is four buckets further up, or in the last.
pub proof fn law_doubled_size(size: int)
    requires
        DOUBLE_BIN_LIMIT <= size,
    ensures
        bucket(2 * size) == if bucket(size) + 4 < 127 {
            bucket(size) + 4
        } else {
            127
        },
{
    let l = log2(size);
    lemma_log2_bounds(size);
    lemma_log2_from_512(size);
    vstd::arithmetic::power2::lemma_pow2_unfold((l - 1) as nat);
    vstd::arithmetic::power2::lemma_pow2_unfold(l + 1);
    vstd::arithmetic::power2::lemma_pow2_unfold(l + 2);
    lemma_log2(2 * size, l + 1);
    let p: int = pow2((l - 2) as nat) as int;
    vstd::arithmetic::power2::lemma_pow2_pos((l - 2) as nat);
    vstd::arithmetic::div_mod::lemma_fundamental_div_mod(size, p);
    vstd::arithmetic::div_mod::lemma_mod_bound(size, p);
    let q: int = size / p;
    let r: int = size % p;
    assert(2 * size == q * (2 * p) + 2 * r) by (nonlinear_arith)
        requires
            size == p * q + r,
    ;
    vstd::arithmetic::div_mod::lemma_fundamental_div_mod_converse(2 * size, 2 * p, q, 2 * r);
}

/// Which sizes a bucket is for: below 256 bytes one word each from the smallest chunk
/// on, and then below 512 bytes two words each.
pub proof fn law_small_bucket(size: int, g: int)
    requires
        24 <= size < 512,
    ensures
        size < 256 ==> (bucket(size) == g <==> 24 + 8 * g <= size < 24 + 8 * (g + 1)),
        size >= 256 ==> (bucket(size) == g <==> 256 + 16 * (g - 29) <= size < 256 + 16 * (g - 28)),
{
}

/// Which sizes a bucket is for from 512 bytes on: a quarter of a power of two each. The
/// last bucket takes all that would be beyond it.
pub proof fn law_large_bucket(size: int, l: nat, q: int)
    requires
        9 <= l,
        0 <= q < 4,
        (4 + q) * pow2((l - 2) as nat) <= size < (5 + q) * pow2((l - 2) as nat),
    ensures
        bucket(size) == if 45 + 4 * (l - 9) + q < 127 {
            45 + 4 * (l - 9) + q
        } else {
            127
        },
{
    let p: int = pow2((l - 2) as nat) as int;
    vstd::arithmetic::power2::lemma_pow2_pos((l - 2) as nat);
    vstd::arithmetic::power2::lemma_pow2_unfold((l - 1) as nat);
    vstd::arithmetic::power2::lemma_pow2_unfold(l);
    vstd::arithmetic::power2::lemma_pow2_unfold(l + 1);
    assert(4 * p <= size < 8 * p) by (nonlinear_arith)
        requires
            (4 + q) * p <= size < (5 + q) * p,
            0 <= q < 4,
            p > 0,
    ;
    lemma_log2(size, l);
    lemma_log2_above(l);
    let r: int = size - (4 + q) * p;
    assert(0 <= r < p) by (nonlinear_arith)
        requires
            r == size - (4 + q) * p,
            (4 + q) * p <= size < (5 + q) * p,
    ;
    vstd::arithmetic::div_mod::lemma_fundamental_div_mod_converse(size, p, 4 + q, r);
}

/// A larger chunk is never in a lower bucket.
pub proof fn lemma_bucket_monotonic(small: int, large: int)
    requires
        MIN_CHUNK_SIZE <= small <= large,
    ensures
        bucket(small) <= bucket(large),
{
    lemma_bucket_range(small);
    lemma_bucket_range(large);
    if large >= DOUBLE_BIN_LIMIT {
        lemma_log2_bounds(large);
        lemma_log2_from_512(large);
        lemma_quarters(large, log2(large));
        if small >= DOUBLE_BIN_LIMIT {
            lemma_log2_bounds(small);
            lemma_log2_from_512(small);
            lemma_quarters(small, log2(small));
            vstd::arithmetic::logarithm::lemma_log_nonnegative(2, small);
            vstd::arithmetic::logarithm::lemma_log_is_ordered(2, small, large);
            if log2(small) == log2(large) {
                vstd::arithmetic::power2::lemma_pow2_pos((log2(small) - 2) as nat);
                vstd::arithmetic::div_mod::lemma_div_is_ordered(
                    small,
                    large,
                    pow2((log2(small) - 2) as nat) as int,
                );
            }
        }
    }
}

/// The base two logarithm of `size`, rounded down.
fn ilog2(size: u64) -> (l: u64)
    requires
        size > 0,
    ensures
        l < 64,
        l == log2(size as int),
        pow2(l as nat) <= size < pow2(l as nat + 1),
{
    let l: u64 = 63 - size.leading_zeros() as u64;
    proof {
        vstd::arithmetic::power2::lemma2_to64();
        vstd::arithmetic::power2::lemma2_to64_rest();
        vstd::arithmetic::power2::lemma_pow2_pos(l as nat);
        vstd::arithmetic::power2::lemma_pow2_pos((l + 1) as nat);
        vstd::bits::lemma_u64_shr_is_div(size, l);
        let s: u64 = size >> l;
        assert(0u64 & 1u64 == 0) by (bit_vector);
        assert(s >= 1);
        assert(pow2(l as nat) <= size) by {
            vstd::arithmetic::div_mod::lemma_fundamental_div_mod(size as int, pow2(l as nat) as int);
            vstd::arithmetic::mul::lemma_mul_inequality(1, s as int, pow2(l as nat) as int);
            vstd::arithmetic::mul::lemma_mul_is_commutative(s as int, pow2(l as nat) as int);
        }
        if l < 63 {
            let above: u64 = (l + 1) as u64;
            vstd::bits::lemma_u64_shr_is_div(size, above);
            assert(size >> above == 0);
            vstd::arithmetic::div_mod::lemma_fundamental_div_mod(
                size as int,
                pow2(above as nat) as int,
            );
        }
        lemma_log2(size as int, l as nat);
    }
    l
}

/// The bucket for chunks of `size` bytes.
pub fn g_of_size(size: u64) -> (g: u8)
    requires
        size >= MIN_CHUNK_SIZE,
    ensures
        g == bucket(size as int),
        g < BIN_COUNT,
{
    if size < WORD_BIN_LIMIT {
        ((size - MIN_CHUNK_SIZE) / WORD_SIZE) as u8
    } else if size < DOUBLE_BIN_LIMIT {
        (size / (2 * WORD_SIZE)) as u8 - (WORD_BIN_LIMIT / (2 * WORD_SIZE)) as u8
            + DBL_BUCKET_G as u8
    } else {
        let size_log2: u64 = ilog2(size);
        proof {
            lemma_log2_from_512(size as int);
            lemma_quarters(size as int, size_log2 as nat);
            vstd::bits::lemma_u64_shr_is_div(size, (size_log2 - 2) as u64);
        }
        let quarters: u64 = size >> (size_log2 - 2);
        let rise: u64 = size_log2 - 9;
        assert(quarters ^ 4 == quarters - 4) by (bit_vector)
            requires
                4 <= quarters <= 7,
        ;
        assert(1u64 << 2u64 == 4) by (bit_vector);
        assert(rise << 2 == 4 * rise) by (bit_vector)
            requires
                rise < 64,
        ;
        let g: u64 = (quarters ^ (1 << G_P2DV)) + (rise << G_P2DV) + EXP_BUCKET_G;
        if g < BIN_COUNT - 1 {
            g as u8
        } else {
            (BIN_COUNT - 1) as u8
        }
    }
}

} // verus!
