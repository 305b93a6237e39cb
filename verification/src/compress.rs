//! Lossy quantisation of coefficients.
//!
//! `compress` maps a residue modulo `q` to `d` bits by rounding
//! `x * 2^d / q` to the nearest integer (halves round up) and reducing
//! modulo `2^d`; `decompress` maps back by rounding `y * q / 2^d`.

use vstd::prelude::*;
use vstd::arithmetic::power2::{pow2, lemma_pow2_pos, lemma_pow2_unfold};
use vstd::arithmetic::div_mod::{lemma_fundamental_div_mod, lemma_fundamental_div_mod_converse, lemma_mod_bound, lemma_small_mod};
use crate::arith::{pow2_i64, lemma_pow2_le_4096, MAX_WIDTH, MAX_MODULUS};

verus! {

/// `a / b` rounded to the nearest integer, halves rounded up.
pub open spec fn round_div(a: int, b: int) -> int {
    (2 * a + b) / (2 * b)
}

/// The `d`-bit quantisation of the residue `x` modulo `q`.
pub open spec fn compress_spec(x: int, d: nat, q: int) -> int {
    round_div(x * pow2(d), q) % (pow2(d) as int)
}

/// The residue modulo `q` that the `d`-bit value `y` stands for.
pub open spec fn decompress_spec(y: int, d: nat, q: int) -> int {
    round_div(y * q, pow2(d) as int) % q
}

/// The distance between `a` and `b` on the circle of residues modulo `q`:
/// the absolute value of the representative of `a - b` of least magnitude.
pub open spec fn centered_distance(a: int, b: int, q: int) -> int {
    let r = (a - b) % q;
    let s = (b - a) % q;
    if r <= s {
        r
    } else {
        s
    }
}

/// Coefficient-wise compression of a sequence of residues.
pub open spec fn compress_seq(p: Seq<i64>, d: nat, q: int) -> Seq<i64> {
    Seq::new(p.len(), |i: int| compress_spec(p[i] as int, d, q) as i64)
}

/// Coefficient-wise decompression of a sequence of `d`-bit values.
pub open spec fn decompress_seq(p: Seq<i64>, d: nat, q: int) -> Seq<i64> {
    Seq::new(p.len(), |i: int| decompress_spec(p[i] as int, d, q) as i64)
}

/// Every element of `p` lies in `[0, bound)`.
pub open spec fn all_below(p: Seq<i64>, bound: int) -> bool {
    forall|i: int| 0 <= i < p.len() ==> 0 <= #[trigger] p[i] < bound
}

/// Quantises one coefficient to `d` bits.
pub fn compress_coefficient(x: i64, d: usize, q: i64) -> (y: i64)
    requires
        1 <= q <= MAX_MODULUS,
        d <= MAX_WIDTH,
        0 <= x < q,
    ensures
        y == compress_spec(x as int, d as nat, q as int),
        0 <= y < pow2(d as nat),
{
    let dd: i64 = pow2_i64(d);
    proof {
        lemma_pow2_le_4096(d as nat);
        assert(0 <= x * dd <= 4096 * 4096) by (nonlinear_arith)
            requires
                0 <= x < 4096,
                1 <= dd <= 4096,
        ;
        lemma_mod_bound(round_div(x * dd, q as int), dd as int);
    }
    let num: i64 = 2 * (x * dd) + q;
    (num / (2 * q)) % dd
}

/// Expands one `d`-bit value to a residue modulo `q`.
pub fn decompress_coefficient(y: i64, d: usize, q: i64) -> (x: i64)
    requires
        1 <= q <= MAX_MODULUS,
        d <= MAX_WIDTH,
        0 <= y < pow2(d as nat),
    ensures
        x == decompress_spec(y as int, d as nat, q as int),
        0 <= x < q,
{
    let dd: i64 = pow2_i64(d);
    proof {
        lemma_pow2_le_4096(d as nat);
        assert(0 <= y * q <= 4096 * 4096) by (nonlinear_arith)
            requires
                0 <= y < 4096,
                1 <= q <= 4096,
        ;
        lemma_mod_bound(round_div(y * q, dd as int), q as int);
    }
    let num: i64 = 2 * (y * q) + dd;
    (num / (2 * dd)) % q
}


/// Quantises every coefficient of a polynomial to `d` bits.
pub fn compress_poly(p: &Vec<i64>, d: usize, q: i64) -> (r: Vec<i64>)
    requires
        1 <= q <= MAX_MODULUS,
        d <= MAX_WIDTH,
        all_below(p@, q as int),
    ensures
        r@ == compress_seq(p@, d as nat, q as int),
        all_below(r@, pow2(d as nat) as int),
{
    let mut r: Vec<i64> = Vec::new();
    let mut i: usize = 0;
    while i < p.len()
        invariant
            1 <= q <= MAX_MODULUS,
            d <= MAX_WIDTH,
            all_below(p@, q as int),
            i <= p.len(),
            r.len() == i,
            forall|j: int| 0 <= j < i ==> r[j] == compress_spec(p[j] as int, d as nat, q as int),
            forall|j: int| 0 <= j < i ==> 0 <= #[trigger] r[j] < pow2(d as nat),
        decreases p.len() - i,
    {
        let y: i64 = compress_coefficient(p[i], d, q);
        r.push(y);
        i = i + 1;
    }
    r
}

/// Expands every `d`-bit value of a polynomial to a residue modulo `q`.
pub fn decompress_poly(p: &Vec<i64>, d: usize, q: i64) -> (r: Vec<i64>)
    requires
        1 <= q <= MAX_MODULUS,
        d <= MAX_WIDTH,
        all_below(p@, pow2(d as nat) as int),
    ensures
        r@ == decompress_seq(p@, d as nat, q as int),
        all_below(r@, q as int),
{
    let mut r: Vec<i64> = Vec::new();
    let mut i: usize = 0;
    while i < p.len()
        invariant
            1 <= q <= MAX_MODULUS,
            d <= MAX_WIDTH,
            all_below(p@, pow2(d as nat) as int),
            i <= p.len(),
            r.len() == i,
            forall|j: int| 0 <= j < i ==> r[j] == decompress_spec(p[j] as int, d as nat, q as int),
            forall|j: int| 0 <= j < i ==> 0 <= #[trigger] r[j] < q,
        decreases p.len() - i,
    {
        let x: i64 = decompress_coefficient(p[i], d, q);
        r.push(x);
        i = i + 1;
    }
    r
}

/// The polynomials of a vector, each as the sequence of its coefficients.
pub open spec fn polys_view(v: Seq<Vec<i64>>) -> Seq<Seq<i64>> {
    Seq::new(v.len(), |i: int| v[i]@)
}

/// Every coefficient of every polynomial of `v` lies in `[0, bound)`.
pub open spec fn all_polys_below(v: Seq<Seq<i64>>, bound: int) -> bool {
    forall|i: int| 0 <= i < v.len() ==> all_below(#[trigger] v[i], bound)
}

/// Polynomial-wise compression of a vector.
pub open spec fn compress_vec_spec(v: Seq<Seq<i64>>, d: nat, q: int) -> Seq<Seq<i64>> {
    Seq::new(v.len(), |i: int| compress_seq(v[i], d, q))
}

/// Polynomial-wise decompression of a vector.
pub open spec fn decompress_vec_spec(v: Seq<Seq<i64>>, d: nat, q: int) -> Seq<Seq<i64>> {
    Seq::new(v.len(), |i: int| decompress_seq(v[i], d, q))
}

/// Quantises every polynomial of a vector to `d` bits.
pub fn compress_vec(v: &Vec<Vec<i64>>, d: usize, q: i64) -> (r: Vec<Vec<i64>>)
    requires
        1 <= q <= MAX_MODULUS,
        d <= MAX_WIDTH,
        all_polys_below(polys_view(v@), q as int),
    ensures
        polys_view(r@) == compress_vec_spec(polys_view(v@), d as nat, q as int),
        all_polys_below(polys_view(r@), pow2(d as nat) as int),
{
    let mut r: Vec<Vec<i64>> = Vec::new();
    let mut i: usize = 0;
    while i < v.len()
        invariant
            1 <= q <= MAX_MODULUS,
            d <= MAX_WIDTH,
            all_polys_below(polys_view(v@), q as int),
            i <= v.len(),
            r.len() == i,
            forall|j: int| 0 <= j < i ==> (#[trigger] r[j])@ == compress_seq(v[j]@, d as nat, q as int),
            forall|j: int| 0 <= j < i ==> all_below((#[trigger] r[j])@, pow2(d as nat) as int),
        decreases v.len() - i,
    {
        assert(all_below(polys_view(v@)[i as int], q as int));
        let c: Vec<i64> = compress_poly(&v[i], d, q);
        r.push(c);
        i = i + 1;
    }
    assert(polys_view(r@) =~= compress_vec_spec(polys_view(v@), d as nat, q as int));
    r
}

/// Expands every polynomial of a vector of `d`-bit values.
pub fn decompress_vec(v: &Vec<Vec<i64>>, d: usize, q: i64) -> (r: Vec<Vec<i64>>)
    requires
        1 <= q <= MAX_MODULUS,
        d <= MAX_WIDTH,
        all_polys_below(polys_view(v@), pow2(d as nat) as int),
    ensures
        polys_view(r@) == decompress_vec_spec(polys_view(v@), d as nat, q as int),
        all_polys_below(polys_view(r@), q as int),
{
    let mut r: Vec<Vec<i64>> = Vec::new();
    let mut i: usize = 0;
    while i < v.len()
        invariant
            1 <= q <= MAX_MODULUS,
            d <= MAX_WIDTH,
            all_polys_below(polys_view(v@), pow2(d as nat) as int),
            i <= v.len(),
            r.len() == i,
            forall|j: int| 0 <= j < i ==> (#[trigger] r[j])@ == decompress_seq(v[j]@, d as nat, q as int),
            forall|j: int| 0 <= j < i ==> all_below((#[trigger] r[j])@, q as int),
        decreases v.len() - i,
    {
        assert(all_below(polys_view(v@)[i as int], pow2(d as nat) as int));
        let c: Vec<i64> = decompress_poly(&v[i], d, q);
        r.push(c);
        i = i + 1;
    }
    assert(polys_view(r@) =~= decompress_vec_spec(polys_view(v@), d as nat, q as int));
    r
}

/// `b * (a / b) <= a < b * (a / b) + b` for a positive divisor.
proof fn lemma_div_bounds(a: int, b: int)
    requires
        b > 0,
    ensures
        b * (a / b) <= a < b * (a / b) + b,
{
    lemma_fundamental_div_mod(a, b);
    lemma_mod_bound(a, b);
}

/// From `m * u < m * (v + 1)` with `m > 0` follows `u <= v`.
proof fn lemma_cancel_lt(m: int, u: int, v: int)
    by (nonlinear_arith)
    requires
        m > 0,
        m * u < m * (v + 1),
    ensures
        u <= v,
{
}

/// The residue of least magnitude of `z` is no larger than `|z|`.
proof fn lemma_distance_le_abs(a: int, b: int, q: int, bound: int)
    requires
        q >= 1,
        -bound <= a - b <= bound,
    ensures
        centered_distance(a, b, q) <= bound,
{
    if a - b >= 0 {
        vstd::arithmetic::div_mod::lemma_mod_decreases((a - b) as nat, q as nat);
    } else {
        vstd::arithmetic::div_mod::lemma_mod_decreases((b - a) as nat, q as nat);
    }
}

/// Compression followed by decompression moves a residue by at most
/// `q / 2^(d+1)` rounded to the nearest integer, measured around the circle
/// of residues modulo `q`. Where `q / 2^(d+1)` rounds down, the distance times
/// `2^(d+1)` is at most `q`.
pub proof fn lemma_compress_error_bound(x: int, d: nat, q: int)
    requires
        q >= 1,
        0 <= x < q,
    ensures
        centered_distance(decompress_spec(compress_spec(x, d, q), d, q), x, q) <= round_div(
            q,
            pow2(d + 1) as int,
        ),
        q % (pow2(d + 1) as int) < pow2(d) ==> centered_distance(
            decompress_spec(compress_spec(x, d, q), d, q),
            x,
            q,
        ) * pow2(d + 1) <= q,
{
    let dd: int = pow2(d) as int;
    lemma_pow2_pos(d);
    lemma_pow2_unfold(d + 1);
    assert(pow2(d + 1) == 2 * dd);
    let y0 = round_div(x * dd, q);
    let y = compress_spec(x, d, q);
    let x1 = decompress_spec(y, d, q);
    let b = round_div(q, 2 * dd);
    let xd = x * dd;
    assert(0 <= xd) by (nonlinear_arith)
        requires
            0 <= x,
            xd == x * dd,
            dd >= 1,
    ;
    // 2q * y0 <= 2xD + q < 2q * y0 + 2q
    lemma_div_bounds(2 * xd + q, 2 * q);
    let qy0 = q * y0;
    assert((2 * q) * y0 == 2 * qy0) by (nonlinear_arith)
        requires
            qy0 == q * y0,
    ;
    // 4D * b <= 2q + 2D < 4D * b + 4D
    lemma_div_bounds(2 * q + 2 * dd, 2 * (2 * dd));
    let db = dd * b;
    assert((2 * (2 * dd)) * b == 4 * db) by (nonlinear_arith)
        requires
            db == dd * b,
    ;
    assert(0 <= y0 <= dd) by (nonlinear_arith)
        requires
            2 * qy0 <= 2 * xd + q,
            2 * xd + q < 2 * qy0 + 2 * q,
            qy0 == q * y0,
            xd == x * dd,
            0 <= x < q,
            dd >= 1,
    ;
    let dist = centered_distance(x1, x, q);
    if y0 < dd {
        lemma_small_mod(y0 as nat, dd as nat);
        assert(y == y0);
        let x0 = round_div(y * q, dd);
        assert(y * q == qy0) by (nonlinear_arith)
            requires
                y == y0,
                qy0 == q * y0,
        ;
        // 2D * x0 <= 2yq + D < 2D * x0 + 2D
        lemma_div_bounds(2 * qy0 + dd, 2 * dd);
        let dx0 = dd * x0;
        assert((2 * dd) * x0 == 2 * dx0) by (nonlinear_arith)
            requires
                dx0 == dd * x0,
        ;
        assert(dd * (x0 - x) == dx0 - xd && dd * (x - x0) == xd - dx0 && dd * (b + 1) == db + dd)
            by (nonlinear_arith)
            requires
                dx0 == dd * x0,
                xd == x * dd,
                db == dd * b,
        ;
        lemma_cancel_lt(dd, x0 - x, b);
        lemma_cancel_lt(dd, x - x0, b);
        assert(x1 == x0 % q);
        vstd::arithmetic::div_mod::lemma_sub_mod_noop(x0, x, q);
        vstd::arithmetic::div_mod::lemma_sub_mod_noop(x, x0, q);
        lemma_small_mod(x as nat, q as nat);
        assert((x1 - x) % q == (x0 - x) % q);
        assert((x - x1) % q == (x - x0) % q);
        lemma_distance_le_abs(x0, x, q, b);
        assert(dist == centered_distance(x0, x, q));
    } else {
        assert(y0 == dd);
        vstd::arithmetic::div_mod::lemma_mod_self_0(dd);
        assert(y == 0);
        assert(y * q == 0) by (nonlinear_arith)
            requires
                y == 0,
        ;
        assert(round_div(0, dd) == 0) by {
            vstd::arithmetic::div_mod::lemma_basic_div(dd, 2 * dd);
        }
        lemma_small_mod(0, q as nat);
        assert(x1 == 0);
        // 2qD <= 2xD + q, hence 2D * (q - x) <= q
        let qd = q * dd;
        assert(qy0 == qd);
        assert(dd * (q - x) == qd - xd && dd * (b + 1) == db + dd && qd >= q) by (nonlinear_arith)
            requires
                qd == q * dd,
                xd == x * dd,
                db == dd * b,
                dd >= 1,
                q >= 1,
        ;
        lemma_cancel_lt(dd, q - x, b);
        assert(x > 0);
        vstd::arithmetic::div_mod::lemma_mod_add_multiples_vanish(-x, q);
        lemma_small_mod((q - x) as nat, q as nat);
        assert((0 - x) % q == q - x);
        assert(dist <= q - x);
    }
    assert(dist <= b);
    assert(0 <= dist) by {
        lemma_mod_bound(x1 - x, q);
        lemma_mod_bound(x - x1, q);
    }
    if q % (2 * dd) < dd {
        // Here q / 2^(d+1) rounds down, so b is its floor.
        let f = q / (2 * dd);
        lemma_div_bounds(q, 2 * dd);
        lemma_fundamental_div_mod(q, 2 * dd);
        let df = dd * f;
        assert((2 * dd) * f == 2 * df && dd * (f + 1) == df + dd) by (nonlinear_arith)
            requires
                df == dd * f,
        ;
        assert(2 * db <= q + dd);
        assert(q + dd < 2 * df + 2 * dd);
        assert(dd * b < dd * (f + 1));
        lemma_cancel_lt(dd, b, f);
        assert(dist * (2 * dd) <= q) by (nonlinear_arith)
            requires
                0 <= dist <= f,
                2 * df <= q,
                df == dd * f,
                dd >= 1,
        ;
    }
}

/// The residue of a number between `-q` and `q`.
proof fn lemma_mod_small_diff(z: int, q: int)
    requires
        q >= 1,
        -q < z < q,
    ensures
        z % q == if z >= 0 {
            z
        } else {
            z + q
        },
{
    if z >= 0 {
        lemma_small_mod(z as nat, q as nat);
    } else {
        lemma_fundamental_div_mod_converse(z, q, -1, z + q);
    }
}

/// One-bit compression tolerates noise: a residue whose distance from
/// what the bit `b` decompresses to is below a quarter of `q` compresses
/// back to `b`.
pub proof fn lemma_bit_survives_noise(b: int, x: int, q: int)
    requires
        q >= 2,
        b == 0 || b == 1,
        0 <= x < q,
        4 * centered_distance(x, decompress_spec(b, 1, q), q) + 1 < q,
    ensures
        compress_spec(x, 1, q) == b,
{
    vstd::arithmetic::power2::lemma2_to64();
    let c = decompress_spec(b, 1, q);
    let bq = b * q;
    assert(bq == if b == 0 { 0 } else { q }) by (nonlinear_arith)
        requires
            bq == b * q,
            b == 0 || b == 1,
    ;
    let half = round_div(bq, 2);
    assert(half == (2 * bq + 2) / 4);
    assert(half == if b == 0 { 0 } else { (q + 1) / 2 });
    assert(0 <= half < q);
    lemma_small_mod(half as nat, q as nat);
    assert(c == half);
    lemma_mod_small_diff(x - c, q);
    lemma_mod_small_diff(c - x, q);
    let x2 = x * pow2(1);
    assert(x2 == 2 * x) by (nonlinear_arith)
        requires
            x2 == x * pow2(1),
            pow2(1) == 2,
    ;
    let num = 4 * x + q;
    assert(compress_spec(x, 1, q) == (num / (2 * q)) % 2);
    if 4 * x < q {
        lemma_fundamental_div_mod_converse(num, 2 * q, 0, num);
    } else if 4 * x < 3 * q {
        lemma_fundamental_div_mod_converse(num, 2 * q, 1, num - 2 * q);
    } else {
        lemma_fundamental_div_mod_converse(num, 2 * q, 2, num - 4 * q);
    }
}

/// A polynomial whose every coefficient is within a quarter of `q` of
/// what the matching bit of `bits` decompresses to compresses, at one bit
/// per coefficient, to `bits`.
pub proof fn lemma_bits_survive_noise(bits: Seq<i64>, noisy: Seq<i64>, q: int)
    requires
        q >= 2,
        all_below(bits, 2),
        all_below(noisy, q),
        noisy.len() == bits.len(),
        forall|i: int|
            0 <= i < bits.len() ==> 4 * centered_distance(
                #[trigger] noisy[i] as int,
                decompress_spec(bits[i] as int, 1, q),
                q,
            ) + 1 < q,
    ensures
        compress_seq(noisy, 1, q) == bits,
{
    assert forall|i: int| 0 <= i < bits.len() implies compress_seq(noisy, 1, q)[i] == bits[i] by {
        assert(0 <= bits[i] < 2);
        assert(0 <= noisy[i] < q);
        lemma_bit_survives_noise(bits[i] as int, noisy[i] as int, q);
    }
    assert(compress_seq(noisy, 1, q) =~= bits);
}

/// `back` has the length of `x`, and each of its coefficients is within
/// `q / 2^(d+1)`, rounded to the nearest integer, of the matching
/// coefficient of `x`, measured around the circle of residues modulo `q`.
pub open spec fn within_compression_error(back: Seq<i64>, x: Seq<i64>, d: nat, q: int) -> bool {
    &&& back.len() == x.len()
    &&& forall|i: int|
        0 <= i < x.len() ==> centered_distance(#[trigger] back[i] as int, x[i] as int, q)
            <= round_div(q, pow2(d + 1) as int)
}

/// Compressing and decompressing a polynomial moves no coefficient by
/// more than the rounded bound.
pub proof fn lemma_compress_seq_error_bound(x: Seq<i64>, d: nat, q: int)
    requires
        1 <= q <= 4096,
        d <= 12,
        all_below(x, q),
    ensures
        within_compression_error(decompress_seq(compress_seq(x, d, q), d, q), x, d, q),
{
    lemma_pow2_le_4096(d);
    let back = decompress_seq(compress_seq(x, d, q), d, q);
    assert forall|i: int| 0 <= i < x.len() implies centered_distance(
        #[trigger] back[i] as int,
        x[i] as int,
        q,
    ) <= round_div(q, pow2(d + 1) as int) by {
        assert(0 <= x[i] < q);
        lemma_compress_error_bound(x[i] as int, d, q);
        lemma_pow2_pos(d);
        lemma_mod_bound(round_div(x[i] * pow2(d), q), pow2(d) as int);
        let y = compress_spec(x[i] as int, d, q);
        assert(0 <= y < pow2(d));
        lemma_mod_bound(round_div(y * q, pow2(d) as int), q);
        let z = decompress_spec(y, d, q);
        assert(0 <= z < q);
        assert(compress_seq(x, d, q)[i] == y as i64);
        assert(back[i] == decompress_spec(compress_seq(x, d, q)[i] as int, d, q) as i64);
    }
}

} // verus!
