//! Little-endian bit strings: the bits of a number and the number of a
//! bit string, with the facts that make the two inverse to each other.

use vstd::prelude::*;
use vstd::arithmetic::power2::{pow2, lemma_pow2_pos, lemma_pow2_unfold, lemma_pow2_adds, lemma2_to64};
use vstd::arithmetic::div_mod::{
    lemma_fundamental_div_mod_converse, lemma_hoist_over_denominator, lemma_mod_multiples_vanish,
    lemma_mod_breakdown, lemma_div_denominator, lemma_small_mod, lemma_div_pos_is_pos,
};
use crate::arith::{MAX_WIDTH, lemma_pow2_le_4096};

verus! {

/// Bit `j` of `x`, counted from the least significant.
pub open spec fn bit_of(x: int, j: nat) -> bool {
    (x / (pow2(j) as int)) % 2 == 1
}

/// The `w` low bits of `x`, least significant first.
pub open spec fn value_bits(x: int, w: nat) -> Seq<bool> {
    Seq::new(w, |j: int| bit_of(x, j as nat))
}

/// The number whose binary digits, least significant first, are `bits`.
pub open spec fn bits_value(bits: Seq<bool>) -> nat
    decreases bits.len(),
{
    if bits.len() == 0 {
        0
    } else {
        bits_value(bits.drop_last()) + if bits.last() {
            pow2((bits.len() - 1) as nat)
        } else {
            0
        }
    }
}

/// A string of `n` bits stands for a number below `2^n`.
pub proof fn lemma_bits_value_bound(bits: Seq<bool>)
    ensures
        bits_value(bits) < pow2(bits.len()),
    decreases bits.len(),
{
    if bits.len() == 0 {
        lemma_pow2_pos(0);
    } else {
        lemma_bits_value_bound(bits.drop_last());
        lemma_pow2_unfold(bits.len());
    }
}

/// Bit `j` of the number of a bit string is the string's element `j`.
pub proof fn lemma_bit_of_bits_value(bits: Seq<bool>, j: nat)
    requires
        j < bits.len(),
    ensures
        bit_of(bits_value(bits) as int, j) == bits[j as int],
    decreases bits.len(),
{
    let n = bits.len();
    let low = bits_value(bits.drop_last()) as int;
    let v = bits_value(bits) as int;
    let top = pow2((n - 1) as nat) as int;
    lemma_bits_value_bound(bits.drop_last());
    lemma_pow2_pos((n - 1) as nat);
    if j == n - 1 {
        if bits.last() {
            lemma_fundamental_div_mod_converse(v, top, 1, low);
        } else {
            lemma_fundamental_div_mod_converse(v, top, 0, low);
        }
    } else {
        lemma_bit_of_bits_value(bits.drop_last(), j);
        if bits.last() {
            let pj = pow2(j) as int;
            let rest = pow2((n - 2 - j) as nat) as int;
            lemma_pow2_pos(j);
            lemma_pow2_adds(j, (n - 1 - j) as nat);
            lemma_pow2_unfold((n - 1 - j) as nat);
            assert(top == (2 * rest) * pj) by (nonlinear_arith)
                requires
                    top == pj * (2 * rest),
            ;
            lemma_hoist_over_denominator(low, 2 * rest, pj as nat);
            assert(v / pj == low / pj + 2 * rest);
            lemma_mod_multiples_vanish(rest, low / pj, 2);
        }
    }
}

/// The `w` low bits of a nonnegative number stand for its residue modulo `2^w`.
pub proof fn lemma_bits_value_of_value_bits(x: int, w: nat)
    requires
        0 <= x,
    ensures
        bits_value(value_bits(x, w)) == x % (pow2(w) as int),
    decreases w,
{
    if w == 0 {
        lemma2_to64();
    } else {
        let prev = (w - 1) as nat;
        lemma_bits_value_of_value_bits(x, prev);
        assert(value_bits(x, w).drop_last() =~= value_bits(x, prev));
        lemma_pow2_pos(prev);
        lemma_pow2_unfold(w);
        let p = pow2(prev) as int;
        lemma_mod_breakdown(x, p, 2);
        assert(p * 2 == pow2(w));
        lemma_div_pos_is_pos(x, p);
        let b = (x / p) % 2;
        assert(b == 0 || b == 1);
        assert(p * b == if b == 1 { p } else { 0 }) by (nonlinear_arith)
            requires
                b == 0 || b == 1,
        ;
    }
}

/// A number below `2^w` is the number of its `w` low bits.
pub proof fn lemma_bits_value_of_small(x: int, w: nat)
    requires
        0 <= x < pow2(w),
    ensures
        bits_value(value_bits(x, w)) == x,
{
    lemma_bits_value_of_value_bits(x, w);
    lemma_small_mod(x as nat, pow2(w));
}

/// Appends the `w` low bits of `x`, least significant first.
pub fn push_bits(bits: &mut Vec<bool>, x: i64, w: usize)
    requires
        0 <= x,
        w <= MAX_WIDTH,
    ensures
        final(bits)@ == old(bits)@ + value_bits(x as int, w as nat),
{
    let mut t: i64 = x;
    let mut j: usize = 0;
    let ghost start = bits@;
    proof {
        lemma2_to64();
    }
    while j < w
        invariant
            j <= w <= MAX_WIDTH,
            0 <= x,
            t == (x as int) / (pow2(j as nat) as int),
            0 <= t,
            bits@ == start + value_bits(x as int, j as nat),
        decreases w - j,
    {
        let b: bool = t % 2 == 1;
        bits.push(b);
        proof {
            lemma_pow2_pos(j as nat);
            lemma_pow2_unfold((j + 1) as nat);
            lemma_div_denominator(x as int, pow2(j as nat) as int, 2);
            assert(pow2(j as nat) * 2 == pow2((j + 1) as nat));
            assert(bits@ =~= start + value_bits(x as int, (j + 1) as nat));
        }
        t = t / 2;
        j = j + 1;
    }
}

/// The number that the `w` bits from `start` on stand for.
pub fn pack_bits(bits: &Vec<bool>, start: usize, w: usize) -> (v: i64)
    requires
        w <= MAX_WIDTH,
        start + w <= bits.len(),
    ensures
        v == bits_value(bits@.subrange(start as int, start + w)),
        0 <= v < pow2(w as nat),
{
    let mut v: i64 = 0;
    let mut p: i64 = 1;
    let mut j: usize = 0;
    proof {
        lemma2_to64();
        assert(bits@.subrange(start as int, start as int).len() == 0);
    }
    while j < w
        invariant
            j <= w <= MAX_WIDTH,
            start + w <= bits.len(),
            p == pow2(j as nat),
            v == bits_value(bits@.subrange(start as int, start + j)),
            0 <= v < p,
        decreases w - j,
    {
        proof {
            lemma_pow2_le_4096(j as nat);
            lemma_pow2_unfold((j + 1) as nat);
            let next = bits@.subrange(start as int, start + j + 1);
            assert(next.drop_last() =~= bits@.subrange(start as int, start + j));
            assert(next.last() == bits@[start + j]);
        }
        if bits[start + j] {
            v = v + p;
        }
        p = 2 * p;
        j = j + 1;
    }
    v
}

} // verus!
