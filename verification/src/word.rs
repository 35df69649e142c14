use vstd::arithmetic::power2::{is_pow2, is_pow2_equiv, is_pow2_exists, pow2};
use vstd::bits::low_bits_mask;
use vstd::prelude::*;

verus! {

/// The size of a machine word, and the alignment of every chunk, in bytes.
pub const WORD_SIZE: u64 = 8;

/// The size of the link that a free chunk starts with: two words.
pub const NODE_SIZE: u64 = 16;

/// The size of the tag that a reserved chunk starts with.
pub const TAG_SIZE: u64 = 8;

/// The smallest chunk: a node and the word that holds the chunk's size.
pub const MIN_CHUNK_SIZE: u64 = 24;

/// The number of buckets.
pub const BIN_COUNT: u64 = 128;

/// The greatest multiple of `n` that is not above `a`.
pub open spec fn round_down(a: int, n: int) -> int {
    a - a % n
}

/// The least multiple of `n` that is not below `a`.
pub open spec fn round_up(a: int, n: int) -> int {
    round_down(a + n - 1, n)
}

pub proof fn lemma_round_up(a: int, n: int)
    requires
        n > 0,
    ensures
        a <= round_up(a, n) < a + n,
        round_up(a, n) % n == 0,
        forall|x: int| a <= x && #[trigger] (x % n) == 0 ==> round_up(a, n) <= x,
{
    let t: int = a + n - 1;
    let r: int = t - t % n;
    vstd::arithmetic::div_mod::lemma_fundamental_div_mod(t, n);
    vstd::arithmetic::div_mod::lemma_mod_bound(t, n);
    let q: int = t / n;
    assert(r == n * q);
    vstd::arithmetic::div_mod::lemma_mod_multiples_basic(q, n);
    vstd::arithmetic::mul::lemma_mul_is_commutative(n, q);
    assert forall|x: int| a <= x && #[trigger] (x % n) == 0 implies r <= x by {
        vstd::arithmetic::div_mod::lemma_fundamental_div_mod(x, n);
        let k: int = x / n;
        assert(x == n * k);
        if x < r {
            assert(k < q) by (nonlinear_arith)
                requires
                    n * k < n * q,
                    n > 0,
            ;
            assert(n * k <= n * (q - 1)) by (nonlinear_arith)
                requires
                    k <= q - 1,
                    n > 0,
            ;
            assert(n * (q - 1) == n * q - n) by (nonlinear_arith);
        }
    }
}

/// Rounding up goes to the number itself or to the next multiple.
proof fn lemma_round_up_down(a: int, n: int)
    requires
        n > 0,
    ensures
        round_up(a, n) == if round_down(a, n) == a {
            a
        } else {
            round_down(a, n) + n
        },
{
    lemma_round_up(a, n);
    let d: int = round_down(a, n);
    vstd::arithmetic::div_mod::lemma_fundamental_div_mod(a, n);
    vstd::arithmetic::div_mod::lemma_mod_bound(a, n);
    let q: int = a / n;
    assert(d == n * q);
    vstd::arithmetic::mul::lemma_mul_is_commutative(n, q);
    vstd::arithmetic::div_mod::lemma_mod_multiples_basic(q, n);
    vstd::arithmetic::div_mod::lemma_mod_multiples_basic(q + 1, n);
    assert(n * q + n == (q + 1) * n) by (nonlinear_arith);
    assert((d + n) % n == 0);
    if d != a {
        let r: int = round_up(a, n);
        assert(r <= d + n);
        if r < d + n {
            vstd::arithmetic::div_mod::lemma_fundamental_div_mod(r, n);
            let k: int = r / n;
            assert(q < k < q + 1) by (nonlinear_arith)
                requires
                    n > 0,
                    n * q < n * k < n * q + n,
            ;
        }
    }
}

/// A power of two divides the word size or is a multiple of it.
pub proof fn lemma_pow2_words(n: int)
    requires
        is_pow2(n),
    ensures
        n == 1 || n == 2 || n == 4 || n % 8 == 0,
{
    reveal_with_fuel(is_pow2, 4);
}

/// A multiple of a multiple of the word size is one too.
pub proof fn lemma_multiple_of_words(a: int, n: int)
    requires
        n > 0,
        n % 8 == 0,
        a % n == 0,
    ensures
        a % 8 == 0,
{
    vstd::arithmetic::div_mod::lemma_fundamental_div_mod(a, n);
    let q: int = a / n;
    let k: int = n / 8;
    assert(a == 8 * (k * q)) by (nonlinear_arith)
        requires
            a == n * q,
            n == 8 * k,
    ;
}

/// Clearing the bits below a power of two rounds down to its multiples.
pub proof fn lemma_clear_mask(a: u64, mask: u64)
    requires
        is_pow2(mask + 1),
    ensures
        a & !mask == round_down(a as int, mask + 1),
{
    is_pow2_equiv(mask + 1);
    assert(is_pow2_exists(mask + 1));
    let k: nat = choose|k: nat| vstd::arithmetic::power::pow(2, k) == mask + 1;
    assert(pow2(k) == mask + 1);
    vstd::arithmetic::power2::lemma2_to64();
    vstd::arithmetic::power2::lemma2_to64_rest();
    assert(k <= 64) by {
        if k > 64 {
            vstd::arithmetic::power2::lemma_pow2_strictly_increases(64, k);
        }
    }
    if k == 64 {
        assert(mask == 0xffff_ffff_ffff_ffffu64);
        assert(a & !0xffff_ffff_ffff_ffffu64 == 0) by (bit_vector);
        assert(a as int % (mask + 1) == a) by {
            vstd::arithmetic::div_mod::lemma_small_mod(a as nat, (mask + 1) as nat);
        }
    } else {
        vstd::bits::lemma_u64_low_bits_mask_is_mod(a, k);
        assert(low_bits_mask(k) == mask);
        assert(a & !mask == a - (a & mask)) by (bit_vector);
    }
}

/// The lowest multiple of `align_mask + 1` from `ptr` on, if it is an address.
pub fn low_aligned_fit(ptr: u64, align_mask: u64) -> (fit: Option<u64>)
    requires
        is_pow2(align_mask + 1),
        align_mask < u64::MAX,
    ensures
        fit is Some <==> round_up(ptr as int, align_mask + 1) <= u64::MAX,
        fit is Some ==> fit->0 == round_up(ptr as int, align_mask + 1),
{
    proof {
        lemma_clear_mask(ptr, align_mask);
        lemma_round_up(ptr as int, align_mask + 1);
        lemma_round_up_down(ptr as int, align_mask + 1);
    }
    let below: u64 = ptr & !align_mask;
    if below == ptr {
        Some(ptr)
    } else {
        below.checked_add(align_mask + 1)
    }
}

/// The word boundary at or below `ptr`.
pub fn align_down(ptr: u64) -> (boundary: u64)
    ensures
        boundary == round_down(ptr as int, 8),
{
    assert(ptr & !7u64 == ptr - ptr % 8) by (bit_vector);
    ptr & !(WORD_SIZE - 1)
}

/// The word boundary at or above `ptr`.
pub fn align_up(ptr: u64) -> (boundary: u64)
    requires
        ptr + 7 <= u64::MAX,
    ensures
        boundary == round_up(ptr as int, 8),
{
    align_down(ptr + (WORD_SIZE - 1))
}

/// Whether a chunk fits between the two addresses.
pub fn ge_min_size_apart(ptr: u64, acme: u64) -> (fits: bool)
    requires
        ptr <= acme,
    ensures
        fits == (acme - ptr >= MIN_CHUNK_SIZE),
{
    acme - ptr >= MIN_CHUNK_SIZE
}

} // verus!
