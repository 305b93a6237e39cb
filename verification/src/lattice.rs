//! Arithmetic on polynomials and vectors of polynomials modulo `q`:
//! addition and subtraction, the number-theoretic transform, and products
//! of transformed polynomials, taken coefficient by coefficient.

use vstd::prelude::*;
use vstd::arithmetic::power2::is_pow2;
use vstd::arithmetic::div_mod::{
    lemma_add_mod_noop_right, lemma_mod_bound, lemma_mod_sub_multiples_vanish, lemma_mod_twice,
};
use polynomial_ring::Polynomial;
use crate::codec::{reduce_seq, reduce_poly};
use crate::compress::{all_below, polys_view, all_polys_below};
use crate::params::{gcd_spec, reduction_poly};

verus! {

/// The representative of `c` modulo `q` in `(q / 2 - q, q / 2]`.
pub open spec fn centered(c: int, q: int) -> int {
    let r = c % q;
    if r > q / 2 {
        r - q
    } else {
        r
    }
}

/// `s` without its trailing zeros.
pub open spec fn trimmed(s: Seq<i64>) -> Seq<i64>
    decreases s.len(),
{
    if s.len() == 0 || s.last() != 0 {
        s
    } else {
        trimmed(s.drop_last())
    }
}

/// `s` cut or filled with zeros to `n` elements.
pub open spec fn padded(s: Seq<i64>, n: nat) -> Seq<i64> {
    Seq::new(n, |i: int| if i < s.len() { s[i] } else { 0i64 })
}

/// The centred residues of the coefficient-wise sums of `a` and `b`.
pub open spec fn centered_sum(a: Seq<i64>, b: Seq<i64>, q: int) -> Seq<i64> {
    Seq::new(a.len(), |i: int| centered(a[i] + b[i], q) as i64)
}

/// The centred residues of the coefficient-wise differences of `a` and `b`.
pub open spec fn centered_diff(a: Seq<i64>, b: Seq<i64>, q: int) -> Seq<i64> {
    Seq::new(a.len(), |i: int| centered(a[i] - b[i], q) as i64)
}

/// The sum of two polynomials modulo `q`, coefficients in `[0, q)`.
pub open spec fn add_poly_spec(a: Seq<i64>, b: Seq<i64>, q: int) -> Seq<i64> {
    Seq::new(a.len(), |i: int| ((a[i] + b[i]) % q) as i64)
}

/// The difference of two polynomials modulo `q`, coefficients in `[0, q)`.
pub open spec fn sub_poly_spec(a: Seq<i64>, b: Seq<i64>, q: int) -> Seq<i64> {
    Seq::new(a.len(), |i: int| ((a[i] - b[i]) % q) as i64)
}

/// The sum of two vectors of polynomials modulo `q`.
pub open spec fn add_vec_spec(u: Seq<Seq<i64>>, v: Seq<Seq<i64>>, q: int) -> Seq<Seq<i64>> {
    Seq::new(u.len(), |i: int| add_poly_spec(u[i], v[i], q))
}

/// What the forward transform of length `n` with root `omega` modulo `q` makes of `a`.
pub uninterp spec fn ntt_result(a: Seq<i64>, omega: i64, n: nat, q: i64) -> Seq<i64>;

/// What the inverse transform of length `n` with root `omega` modulo `q` makes of `a`.
pub uninterp spec fn intt_result(a: Seq<i64>, omega: i64, n: nat, q: i64) -> Seq<i64>;

/// The transform of a polynomial: `n` coefficients in `[0, q)`.
pub open spec fn ntt_poly_spec(a: Seq<i64>, omega: i64, n: nat, q: i64) -> Seq<i64> {
    reduce_seq(padded(ntt_result(a, omega, n, q), n), q as int)
}

/// The inverse transform of a polynomial: `n` coefficients in `[0, q)`.
pub open spec fn intt_poly_spec(a: Seq<i64>, omega: i64, n: nat, q: i64) -> Seq<i64> {
    reduce_seq(padded(intt_result(a, omega, n, q), n), q as int)
}

/// The transforms of the polynomials of a vector.
pub open spec fn ntt_vec_spec(v: Seq<Seq<i64>>, omega: i64, n: nat, q: i64) -> Seq<Seq<i64>> {
    Seq::new(v.len(), |i: int| ntt_poly_spec(v[i], omega, n, q))
}

/// The inverse transforms of the polynomials of a vector.
pub open spec fn intt_vec_spec(v: Seq<Seq<i64>>, omega: i64, n: nat, q: i64) -> Seq<Seq<i64>> {
    Seq::new(v.len(), |i: int| intt_poly_spec(v[i], omega, n, q))
}

/// The sum over the first `m` polynomials of the products of coefficient `i`.
pub open spec fn dot_coeff(u: Seq<Seq<i64>>, v: Seq<Seq<i64>>, i: int, m: nat) -> int
    decreases m,
{
    if m == 0 {
        0
    } else {
        dot_coeff(u, v, i, (m - 1) as nat) + u[m - 1][i] * v[m - 1][i]
    }
}

/// The product of two vectors of transformed polynomials: a polynomial of
/// `n` coefficients, each the sum of the products of the matching
/// coefficients, modulo `q`.
pub open spec fn dot_spec(u: Seq<Seq<i64>>, v: Seq<Seq<i64>>, n: nat, q: int) -> Seq<i64> {
    Seq::new(n, |i: int| (dot_coeff(u, v, i, u.len()) % q) as i64)
}

/// The product of a matrix and a vector of transformed polynomials.
pub open spec fn mat_vec_spec(m: Seq<Seq<Seq<i64>>>, v: Seq<Seq<i64>>, n: nat, q: int) -> Seq<
    Seq<i64>,
> {
    Seq::new(m.len(), |i: int| dot_spec(m[i], v, n, q))
}

/// Every polynomial of `v` has `n` coefficients.
pub open spec fn all_len(v: Seq<Seq<i64>>, n: nat) -> bool {
    forall|i: int| 0 <= i < v.len() ==> (#[trigger] v[i]).len() == n
}

/// Every row of `m` holds `cols` polynomials of `n` coefficients in `[0, q)`.
pub open spec fn rows_shape(m: Seq<Seq<Seq<i64>>>, cols: nat, n: nat, q: int) -> bool {
    forall|i: int|
        0 <= i < m.len() ==> (#[trigger] m[i]).len() == cols && all_len(m[i], n) && all_polys_below(
            m[i],
            q,
        )
}

/// Calls `ring_lwe::utils::polyadd` on the polynomials with the
/// coefficients `a` and `b`, modulus `q` and reduction polynomial `f`.
/// That function adds coefficient by coefficient, leaves a sum of fewer
/// coefficients than `f` as it is, and brings each coefficient to its
/// residue modulo `q`, less `q` where the residue exceeds `q / 2`; the
/// polynomial type drops trailing zeros. Trusted: the result is that.
#[verifier::external_body]
pub(crate) fn poly_add_raw(a: &Vec<i64>, b: &Vec<i64>, q: i64, f: &Vec<i64>) -> (r: Vec<i64>)
    requires
        a.len() == b.len(),
        f@ == reduction_poly(a.len() as nat),
        2 <= q <= 4096,
        all_below(a@, q as int),
        all_below(b@, q as int),
    ensures
        r@ == trimmed(centered_sum(a@, b@, q as int)),
{
    let x = Polynomial::new(a.clone());
    let y = Polynomial::new(b.clone());
    let modulus = Polynomial::new(f.clone());
    ring_lwe::utils::polyadd(&x, &y, q, &modulus).coeffs().to_vec()
}

/// Calls `ring_lwe::utils::polysub` on the polynomials with the
/// coefficients `a` and `b`, modulus `q` and reduction polynomial `f`.
/// That function negates `b`, centres it modulo `q` and adds it to `a`
/// as `polyadd` does. Trusted: the result is the coefficient-wise
/// difference, each coefficient brought to its residue modulo `q`, less
/// `q` where the residue exceeds `q / 2`, without trailing zeros.
#[verifier::external_body]
pub(crate) fn poly_sub_raw(a: &Vec<i64>, b: &Vec<i64>, q: i64, f: &Vec<i64>) -> (r: Vec<i64>)
    requires
        a.len() == b.len(),
        f@ == reduction_poly(a.len() as nat),
        2 <= q <= 4096,
        all_below(a@, q as int),
        all_below(b@, q as int),
    ensures
        r@ == trimmed(centered_diff(a@, b@, q as int)),
{
    let x = Polynomial::new(a.clone());
    let y = Polynomial::new(b.clone());
    let modulus = Polynomial::new(f.clone());
    ring_lwe::utils::polysub(&x, &y, q, &modulus).coeffs().to_vec()
}

/// Calls `module_lwe::utils::add_vec` on two vectors of polynomials given
/// by their coefficients. That function refuses vectors of different
/// lengths and adds the polynomials pair by pair with `polyadd`. Trusted:
/// the result holds, for each pair, the coefficient-wise sum with each
/// coefficient brought to its residue modulo `q`, less `q` where the
/// residue exceeds `q / 2`, without trailing zeros.
#[verifier::external_body]
pub(crate) fn vec_add_raw(u: &Vec<Vec<i64>>, v: &Vec<Vec<i64>>, q: i64, f: &Vec<i64>) -> (r: Vec<
    Vec<i64>,
>)
    requires
        u.len() == v.len(),
        f.len() >= 1,
        f@ == reduction_poly((f.len() - 1) as nat),
        all_len(polys_view(u@), (f.len() - 1) as nat),
        all_len(polys_view(v@), (f.len() - 1) as nat),
        2 <= q <= 4096,
        all_polys_below(polys_view(u@), q as int),
        all_polys_below(polys_view(v@), q as int),
    ensures
        r.len() == u.len(),
        forall|i: int|
            0 <= i < r.len() ==> (#[trigger] r[i])@ == trimmed(centered_sum(u[i]@, v[i]@, q as int)),
{
    let x: Vec<Polynomial<i64>> = u.iter().map(|p| Polynomial::new(p.clone())).collect();
    let y: Vec<Polynomial<i64>> = v.iter().map(|p| Polynomial::new(p.clone())).collect();
    let modulus = Polynomial::new(f.clone());
    let sum = module_lwe::utils::add_vec(&x, &y, q, &modulus);
    sum.iter().map(|p| p.coeffs().to_vec()).collect()
}

/// Calls `ntt::ntt`, the forward transform of length `n` with root
/// `omega` modulo `q`. That function indexes its input as if `n` were a
/// power of two and multiplies residues as 64-bit integers. Trusted: the
/// result has `n` elements and is a function of the arguments alone.
#[verifier::external_body]
pub(crate) fn ntt_raw(a: &Vec<i64>, omega: i64, n: usize, q: i64) -> (r: Vec<i64>)
    requires
        is_pow2(n as int),
        a.len() == n,
        2 <= q <= 4096,
        0 <= omega < q,
        all_below(a@, q as int),
    ensures
        r@ == ntt_result(a@, omega, n as nat, q),
        r.len() == n,
{
    ntt::ntt(a.as_slice(), omega, n, q)
}

/// Calls `ntt::intt`, the inverse transform of length `n` with root
/// `omega` modulo `q`. It inverts `omega` and `n` modulo `q`, so both must
/// be units. Trusted: the result has `n` elements and is a function of the
/// arguments alone.
#[verifier::external_body]
pub(crate) fn intt_raw(a: &Vec<i64>, omega: i64, n: usize, q: i64) -> (r: Vec<i64>)
    requires
        is_pow2(n as int),
        a.len() == n,
        2 <= q <= 4096,
        0 <= omega < q,
        gcd_spec(omega as nat, q as nat) == 1,
        gcd_spec(n as nat, q as nat) == 1,
        all_below(a@, q as int),
    ensures
        r@ == intt_result(a@, omega, n as nat, q),
        r.len() == n,
{
    ntt::intt(a.as_slice(), omega, n, q)
}

/// Trimming never lengthens, and what it drops is zero.
proof fn lemma_trimmed_prefix(s: Seq<i64>)
    ensures
        trimmed(s).len() <= s.len(),
        forall|i: int| 0 <= i < trimmed(s).len() ==> trimmed(s)[i] == #[trigger] s[i],
        forall|i: int| trimmed(s).len() <= i < s.len() ==> #[trigger] s[i] == 0,
    decreases s.len(),
{
    if s.len() == 0 || s.last() != 0 {
    } else {
        let rest = s.drop_last();
        lemma_trimmed_prefix(rest);
        assert(trimmed(s) == trimmed(rest));
        assert forall|i: int| 0 <= i < trimmed(s).len() implies trimmed(s)[i] == #[trigger] s[i] by {
            assert(rest[i] == s[i]);
        }
        assert forall|i: int| trimmed(s).len() <= i < s.len() implies #[trigger] s[i] == 0 by {
            if i < rest.len() {
                assert(rest[i] == s[i]);
            }
        }
    }
}

/// Filling a trimmed sequence back to its length restores it.
pub proof fn lemma_padded_trimmed(s: Seq<i64>)
    ensures
        padded(trimmed(s), s.len()) == s,
{
    lemma_trimmed_prefix(s);
    assert(padded(trimmed(s), s.len()) =~= s);
}

/// The centred residue of `c` is congruent to `c`.
pub proof fn lemma_centered_mod(c: int, q: int)
    requires
        q >= 1,
    ensures
        centered(c, q) % q == c % q,
        -q < centered(c, q) < q,
{
    let r = c % q;
    lemma_mod_bound(c, q);
    lemma_mod_twice(c, q);
    if r > q / 2 {
        lemma_mod_sub_multiples_vanish(r, q);
    }
}

/// `p` cut or filled with zeros to `n` coefficients.
pub fn pad_to(p: &Vec<i64>, n: usize) -> (r: Vec<i64>)
    ensures
        r@ == padded(p@, n as nat),
{
    let mut r: Vec<i64> = Vec::new();
    let mut i: usize = 0;
    while i < n
        invariant
            i <= n,
            r.len() == i,
            forall|t: int| 0 <= t < i ==> r[t] == if t < p.len() { p[t] } else { 0i64 },
        decreases n - i,
    {
        if i < p.len() {
            r.push(p[i]);
        } else {
            r.push(0);
        }
        i = i + 1;
    }
    assert(r@ =~= padded(p@, n as nat));
    r
}

/// The sum of two polynomials modulo `q`.
pub fn add_poly(a: &Vec<i64>, b: &Vec<i64>, q: i64, f: &Vec<i64>) -> (r: Vec<i64>)
    requires
        a.len() == b.len(),
        f@ == reduction_poly(a.len() as nat),
        2 <= q <= 4096,
        all_below(a@, q as int),
        all_below(b@, q as int),
    ensures
        r@ == add_poly_spec(a@, b@, q as int),
        r.len() == a.len(),
        all_below(r@, q as int),
{
    let raw: Vec<i64> = poly_add_raw(a, b, q, f);
    let full: Vec<i64> = pad_to(&raw, a.len());
    let r: Vec<i64> = reduce_poly(&full, q);
    proof {
        let sums = centered_sum(a@, b@, q as int);
        lemma_padded_trimmed(sums);
        assert(full@ == sums);
        assert forall|i: int| 0 <= i < a.len() implies r@[i] == add_poly_spec(a@, b@, q as int)[i] by {
            lemma_centered_mod(a[i] + b[i], q as int);
        }
        assert(r@ =~= add_poly_spec(a@, b@, q as int));
    }
    r
}

/// The difference of two polynomials modulo `q`.
pub fn sub_poly(a: &Vec<i64>, b: &Vec<i64>, q: i64, f: &Vec<i64>) -> (r: Vec<i64>)
    requires
        a.len() == b.len(),
        f@ == reduction_poly(a.len() as nat),
        2 <= q <= 4096,
        all_below(a@, q as int),
        all_below(b@, q as int),
    ensures
        r@ == sub_poly_spec(a@, b@, q as int),
        r.len() == a.len(),
        all_below(r@, q as int),
{
    let raw: Vec<i64> = poly_sub_raw(a, b, q, f);
    let full: Vec<i64> = pad_to(&raw, a.len());
    let r: Vec<i64> = reduce_poly(&full, q);
    proof {
        let diffs = centered_diff(a@, b@, q as int);
        lemma_padded_trimmed(diffs);
        assert(full@ == diffs);
        assert forall|i: int| 0 <= i < a.len() implies r@[i] == sub_poly_spec(a@, b@, q as int)[i] by {
            lemma_centered_mod(a[i] - b[i], q as int);
        }
        assert(r@ =~= sub_poly_spec(a@, b@, q as int));
    }
    r
}

/// The sum of two vectors of polynomials modulo `q`.
pub fn add_vec(u: &Vec<Vec<i64>>, v: &Vec<Vec<i64>>, n: usize, q: i64, f: &Vec<i64>) -> (r: Vec<
    Vec<i64>,
>)
    requires
        u.len() == v.len(),
        f@ == reduction_poly(n as nat),
        all_len(polys_view(u@), n as nat),
        all_len(polys_view(v@), n as nat),
        2 <= q <= 4096,
        all_polys_below(polys_view(u@), q as int),
        all_polys_below(polys_view(v@), q as int),
    ensures
        polys_view(r@) == add_vec_spec(polys_view(u@), polys_view(v@), q as int),
        r.len() == u.len(),
        all_len(polys_view(r@), n as nat),
        all_polys_below(polys_view(r@), q as int),
{
    let raw: Vec<Vec<i64>> = vec_add_raw(u, v, q, f);
    let mut r: Vec<Vec<i64>> = Vec::new();
    let mut i: usize = 0;
    while i < raw.len()
        invariant
            raw.len() == u.len() == v.len(),
            q >= 1,
            all_len(polys_view(u@), n as nat),
            all_len(polys_view(v@), n as nat),
            forall|t: int|
                0 <= t < raw.len() ==> (#[trigger] raw[t])@ == trimmed(
                    centered_sum(u[t]@, v[t]@, q as int),
                ),
            i <= raw.len(),
            r.len() == i,
            forall|t: int|
                0 <= t < i ==> (#[trigger] r[t])@ == add_poly_spec(u[t]@, v[t]@, q as int),
            forall|t: int| 0 <= t < i ==> all_below((#[trigger] r[t])@, q as int),
        decreases raw.len() - i,
    {
        let full: Vec<i64> = pad_to(&raw[i], n);
        let p: Vec<i64> = reduce_poly(&full, q);
        proof {
            let a = u[i as int]@;
            let b = v[i as int]@;
            assert(polys_view(u@)[i as int].len() == n);
            assert(polys_view(v@)[i as int].len() == n);
            let sums = centered_sum(a, b, q as int);
            lemma_padded_trimmed(sums);
            assert(full@ == sums);
            assert forall|t: int| 0 <= t < n implies p@[t] == add_poly_spec(a, b, q as int)[t] by {
                lemma_centered_mod(a[t] + b[t], q as int);
            }
            assert(p@ =~= add_poly_spec(a, b, q as int));
        }
        r.push(p);
        i = i + 1;
    }
    proof {
        assert forall|t: int| 0 <= t < r.len() implies (#[trigger] polys_view(r@)[t]).len() == n by {
            assert(polys_view(u@)[t].len() == n);
        }
        assert(polys_view(r@) =~= add_vec_spec(polys_view(u@), polys_view(v@), q as int));
    }
    r
}

/// The transform of a polynomial.
pub fn ntt_poly(a: &Vec<i64>, omega: i64, n: usize, q: i64) -> (r: Vec<i64>)
    requires
        is_pow2(n as int),
        a.len() == n,
        2 <= q <= 4096,
        0 <= omega < q,
        all_below(a@, q as int),
    ensures
        r@ == ntt_poly_spec(a@, omega, n as nat, q),
        r.len() == n,
        all_below(r@, q as int),
{
    let raw: Vec<i64> = ntt_raw(a, omega, n, q);
    assert(padded(raw@, n as nat) =~= raw@);
    reduce_poly(&raw, q)
}

/// The inverse transform of a polynomial.
pub fn intt_poly(a: &Vec<i64>, omega: i64, n: usize, q: i64) -> (r: Vec<i64>)
    requires
        is_pow2(n as int),
        a.len() == n,
        2 <= q <= 4096,
        0 <= omega < q,
        gcd_spec(omega as nat, q as nat) == 1,
        gcd_spec(n as nat, q as nat) == 1,
        all_below(a@, q as int),
    ensures
        r@ == intt_poly_spec(a@, omega, n as nat, q),
        r.len() == n,
        all_below(r@, q as int),
{
    let raw: Vec<i64> = intt_raw(a, omega, n, q);
    assert(padded(raw@, n as nat) =~= raw@);
    reduce_poly(&raw, q)
}

/// The transforms of the polynomials of a vector.
pub fn vec_ntt(v: &Vec<Vec<i64>>, omega: i64, n: usize, q: i64) -> (r: Vec<Vec<i64>>)
    requires
        is_pow2(n as int),
        all_len(polys_view(v@), n as nat),
        2 <= q <= 4096,
        0 <= omega < q,
        all_polys_below(polys_view(v@), q as int),
    ensures
        polys_view(r@) == ntt_vec_spec(polys_view(v@), omega, n as nat, q),
        r.len() == v.len(),
        all_len(polys_view(r@), n as nat),
        all_polys_below(polys_view(r@), q as int),
{
    let mut r: Vec<Vec<i64>> = Vec::new();
    let mut i: usize = 0;
    while i < v.len()
        invariant
            is_pow2(n as int),
            all_len(polys_view(v@), n as nat),
            2 <= q <= 4096,
            0 <= omega < q,
            all_polys_below(polys_view(v@), q as int),
            i <= v.len(),
            r.len() == i,
            forall|t: int|
                0 <= t < i ==> (#[trigger] r[t])@ == ntt_poly_spec(v[t]@, omega, n as nat, q),
            forall|t: int| 0 <= t < i ==> all_below((#[trigger] r[t])@, q as int),
            forall|t: int| 0 <= t < i ==> (#[trigger] r[t]).len() == n,
        decreases v.len() - i,
    {
        assert(polys_view(v@)[i as int].len() == n);
        assert(all_below(polys_view(v@)[i as int], q as int));
        let p: Vec<i64> = ntt_poly(&v[i], omega, n, q);
        r.push(p);
        i = i + 1;
    }
    assert(polys_view(r@) =~= ntt_vec_spec(polys_view(v@), omega, n as nat, q));
    r
}

/// The inverse transforms of the polynomials of a vector.
pub fn vec_intt(v: &Vec<Vec<i64>>, omega: i64, n: usize, q: i64) -> (r: Vec<Vec<i64>>)
    requires
        is_pow2(n as int),
        all_len(polys_view(v@), n as nat),
        2 <= q <= 4096,
        0 <= omega < q,
        gcd_spec(omega as nat, q as nat) == 1,
        gcd_spec(n as nat, q as nat) == 1,
        all_polys_below(polys_view(v@), q as int),
    ensures
        polys_view(r@) == intt_vec_spec(polys_view(v@), omega, n as nat, q),
        r.len() == v.len(),
        all_len(polys_view(r@), n as nat),
        all_polys_below(polys_view(r@), q as int),
{
    let mut r: Vec<Vec<i64>> = Vec::new();
    let mut i: usize = 0;
    while i < v.len()
        invariant
            is_pow2(n as int),
            all_len(polys_view(v@), n as nat),
            2 <= q <= 4096,
            0 <= omega < q,
            gcd_spec(omega as nat, q as nat) == 1,
            gcd_spec(n as nat, q as nat) == 1,
            all_polys_below(polys_view(v@), q as int),
            i <= v.len(),
            r.len() == i,
            forall|t: int|
                0 <= t < i ==> (#[trigger] r[t])@ == intt_poly_spec(v[t]@, omega, n as nat, q),
            forall|t: int| 0 <= t < i ==> all_below((#[trigger] r[t])@, q as int),
            forall|t: int| 0 <= t < i ==> (#[trigger] r[t]).len() == n,
        decreases v.len() - i,
    {
        assert(polys_view(v@)[i as int].len() == n);
        assert(all_below(polys_view(v@)[i as int], q as int));
        let p: Vec<i64> = intt_poly(&v[i], omega, n, q);
        r.push(p);
        i = i + 1;
    }
    assert(polys_view(r@) =~= intt_vec_spec(polys_view(v@), omega, n as nat, q));
    r
}

/// The product of two vectors of transformed polynomials: for each
/// coefficient, the sum of the products of the matching coefficients.
///
/// Under the transform of length `n` this is multiplication of
/// polynomials modulo `x^n - 1`. It does not use the reduction polynomial
/// `x^n + 1`, and it stands in place of `module_lwe::utils::mul_vec_simple`:
/// that product pads its factors to `2n` coefficients and transforms
/// them at that length, which needs a root of unity of order `2n`.
/// Modulo 3329 with `n = 256` there is none, since 512 does not divide
/// 3328, and what it returns there is not the product.
pub fn dot_product(u: &Vec<Vec<i64>>, v: &Vec<Vec<i64>>, n: usize, q: i64) -> (r: Vec<i64>)
    requires
        u.len() == v.len(),
        all_len(polys_view(u@), n as nat),
        all_len(polys_view(v@), n as nat),
        1 <= q <= 4096,
        all_polys_below(polys_view(u@), q as int),
        all_polys_below(polys_view(v@), q as int),
    ensures
        r@ == dot_spec(polys_view(u@), polys_view(v@), n as nat, q as int),
        r.len() == n,
        all_below(r@, q as int),
{
    let mut r: Vec<i64> = Vec::new();
    let mut i: usize = 0;
    while i < n
        invariant
            u.len() == v.len(),
            all_len(polys_view(u@), n as nat),
            all_len(polys_view(v@), n as nat),
            1 <= q <= 4096,
            all_polys_below(polys_view(u@), q as int),
            all_polys_below(polys_view(v@), q as int),
            i <= n,
            r.len() == i,
            forall|t: int|
                0 <= t < i ==> r[t] == dot_coeff(polys_view(u@), polys_view(v@), t, u.len() as nat) % (
                q as int),
            forall|t: int| 0 <= t < i ==> 0 <= #[trigger] r[t] < q,
        decreases n - i,
    {
        let mut acc: i64 = 0;
        let mut j: usize = 0;
        proof {
            vstd::arithmetic::div_mod::lemma_small_mod(0, q as nat);
        }
        while j < u.len()
            invariant
                u.len() == v.len(),
                all_len(polys_view(u@), n as nat),
                all_len(polys_view(v@), n as nat),
                1 <= q <= 4096,
                all_polys_below(polys_view(u@), q as int),
                all_polys_below(polys_view(v@), q as int),
                i < n,
                j <= u.len(),
                0 <= acc < q,
                acc == dot_coeff(polys_view(u@), polys_view(v@), i as int, j as nat) % (q as int),
            decreases u.len() - j,
        {
            proof {
                assert(polys_view(u@)[j as int].len() == n);
                assert(polys_view(v@)[j as int].len() == n);
                assert(all_below(polys_view(u@)[j as int], q as int));
                assert(all_below(polys_view(v@)[j as int], q as int));
            }
            let x: i64 = u[j][i];
            let y: i64 = v[j][i];
            proof {
                assert(0 <= x * y <= 4096 * 4096) by (nonlinear_arith)
                    requires
                        0 <= x < 4096,
                        0 <= y < 4096,
                ;
                let before = dot_coeff(polys_view(u@), polys_view(v@), i as int, j as nat);
                lemma_add_mod_noop_right(x * y, before, q as int);
                assert(dot_coeff(polys_view(u@), polys_view(v@), i as int, (j + 1) as nat) == before
                    + x * y);
            }
            acc = (acc + x * y) % q;
            j = j + 1;
        }
        r.push(acc);
        i = i + 1;
    }
    assert(r@ =~= dot_spec(polys_view(u@), polys_view(v@), n as nat, q as int));
    r
}

/// The product of a matrix and a vector of transformed polynomials: for
/// each row, its product with the vector, taken as `dot_product` takes
/// it. It stands in place of `module_lwe::utils::mul_mat_vec_simple` for
/// the reason given there.
pub fn mat_vec_product(m: &Vec<Vec<Vec<i64>>>, v: &Vec<Vec<i64>>, n: usize, q: i64) -> (r: Vec<
    Vec<i64>,
>)
    requires
        rows_shape(matrix_view(m@), v.len() as nat, n as nat, q as int),
        all_len(polys_view(v@), n as nat),
        1 <= q <= 4096,
        all_polys_below(polys_view(v@), q as int),
    ensures
        polys_view(r@) == mat_vec_spec(matrix_view(m@), polys_view(v@), n as nat, q as int),
        r.len() == m.len(),
        all_len(polys_view(r@), n as nat),
        all_polys_below(polys_view(r@), q as int),
{
    let mut r: Vec<Vec<i64>> = Vec::new();
    let mut i: usize = 0;
    while i < m.len()
        invariant
            rows_shape(matrix_view(m@), v.len() as nat, n as nat, q as int),
            all_len(polys_view(v@), n as nat),
            1 <= q <= 4096,
            all_polys_below(polys_view(v@), q as int),
            i <= m.len(),
            r.len() == i,
            forall|t: int|
                0 <= t < i ==> (#[trigger] r[t])@ == dot_spec(
                    polys_view(m[t]@),
                    polys_view(v@),
                    n as nat,
                    q as int,
                ),
            forall|t: int| 0 <= t < i ==> all_below((#[trigger] r[t])@, q as int),
            forall|t: int| 0 <= t < i ==> (#[trigger] r[t]).len() == n,
        decreases m.len() - i,
    {
        assert(matrix_view(m@)[i as int] == polys_view(m[i as int]@));
        let p: Vec<i64> = dot_product(&m[i], v, n, q);
        r.push(p);
        i = i + 1;
    }
    assert(polys_view(r@) =~= mat_vec_spec(matrix_view(m@), polys_view(v@), n as nat, q as int));
    r
}

/// The rows of a matrix, each as the sequence of its polynomials.
pub open spec fn matrix_view(m: Seq<Vec<Vec<i64>>>) -> Seq<Seq<Seq<i64>>> {
    Seq::new(m.len(), |i: int| polys_view(m[i]@))
}

} // verus!
