//! Small arithmetic helpers shared by the codec and the compressor.

use vstd::prelude::*;
use vstd::arithmetic::power2::{pow2, lemma_pow2_pos, lemma_pow2_unfold, lemma_pow2_strictly_increases, lemma2_to64};

verus! {

/// Largest bit width of an encoded coefficient.
pub const MAX_WIDTH: usize = 12;

/// Largest modulus whose residues fit in `MAX_WIDTH` bits.
pub const MAX_MODULUS: i64 = 4096;

/// `pow2(e)` is at most 4096 for widths up to twelve bits.
pub proof fn lemma_pow2_le_4096(e: nat)
    requires
        e <= 12,
    ensures
        1 <= pow2(e) <= 4096,
{
    lemma2_to64();
    lemma_pow2_pos(e);
    if e < 12 {
        lemma_pow2_strictly_increases(e, 12);
    }
}

/// Two to the power `e`, for the bit widths the scheme uses.
pub fn pow2_i64(e: usize) -> (r: i64)
    requires
        e <= MAX_WIDTH + 1,
    ensures
        r == pow2(e as nat),
        1 <= r <= 8192,
{
    let mut r: i64 = 1;
    let mut i: usize = 0;
    proof {
        lemma2_to64();
    }
    while i < e
        invariant
            i <= e <= 13,
            r == pow2(i as nat),
            1 <= r,
            pow2(13) == 8192,
        decreases e - i,
    {
        proof {
            lemma_pow2_unfold((i + 1) as nat);
            if i + 1 < 13 {
                lemma_pow2_strictly_increases((i + 1) as nat, 13);
            }
        }
        r = 2 * r;
        i = i + 1;
    }
    r
}

/// The residue of `x` modulo `q` in `[0, q)`.
pub fn reduce(x: i64, q: i64) -> (r: i64)
    requires
        q >= 1,
    ensures
        r == (x as int) % (q as int),
        0 <= r < q,
{
    let t: i64 = x % q;
    proof {
        // The machine remainder has the sign of `x`; the mathematical one is never negative.
        if x >= 0 {
            assert(t == (x as int) % (q as int));
        } else {
            assert(t == -((-(x as int)) % (q as int)));
            lemma_neg_mod(x as int, q as int);
        }
    }
    if t < 0 {
        t + q
    } else {
        t
    }
}

/// For negative `x`, `x % q` is `q - ((-x) % q)` unless `q` divides `x`.
pub proof fn lemma_neg_mod(x: int, q: int)
    requires
        x < 0,
        q >= 1,
    ensures
        (-x) % q == 0 ==> x % q == 0,
        (-x) % q != 0 ==> x % q == q - (-x) % q,
{
    let a = (-x) / q;
    let b = (-x) % q;
    vstd::arithmetic::div_mod::lemma_fundamental_div_mod(-x, q);
    assert(-x == q * a + b);
    if b == 0 {
        assert(x == q * (-a) + 0) by (nonlinear_arith)
            requires
                -x == q * a + b,
                b == 0,
        ;
        vstd::arithmetic::div_mod::lemma_fundamental_div_mod_converse(x, q, -a, 0);
    } else {
        assert(x == q * (-a - 1) + (q - b)) by (nonlinear_arith)
            requires
                -x == q * a + b,
        ;
        vstd::arithmetic::div_mod::lemma_fundamental_div_mod_converse(x, q, -a - 1, q - b);
    }
}

} // verus!
