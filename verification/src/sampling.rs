//! Sampling from pseudorandom streams: noise polynomials from the centred
//! binomial distribution, and uniform polynomials by rejection.

use vstd::prelude::*;
use crate::arith::reduce;
use crate::codec::{byte_bits, bytes_to_bits, decode_spec, decode_poly};
use crate::compress::{all_below, polys_view, all_polys_below};
use crate::lattice::{all_len, rows_shape, matrix_view};
use crate::hashing::{prf, prf_spec, xof, xof_spec};
use crate::params::Error;

verus! {

/// How many of `bits` are set.
pub open spec fn count_true(bits: Seq<bool>) -> nat
    decreases bits.len(),
{
    if bits.len() == 0 {
        0
    } else {
        count_true(bits.drop_last()) + if bits.last() {
            1nat
        } else {
            0nat
        }
    }
}

/// Coefficient `i` of a noise polynomial: of the `2 * eta` bits from bit
/// `2 * i * eta` on, the number set among the first `eta` less the number
/// set among the rest, as a residue modulo `q`.
pub open spec fn cbd_coefficient(bits: Seq<bool>, i: int, eta: nat, q: int) -> int {
    let start = 2 * i * eta;
    (count_true(bits.subrange(start, start + eta)) - count_true(
        bits.subrange(start + eta, start + 2 * eta),
    )) % q
}

/// The noise polynomial of `n` coefficients that the bits of `stream` give.
pub open spec fn cbd_spec(stream: Seq<u8>, eta: nat, n: nat, q: int) -> Seq<i64> {
    Seq::new(n, |i: int| cbd_coefficient(byte_bits(stream), i, eta, q) as i64)
}

/// Bytes of pseudorandom stream that one noise polynomial consumes.
pub open spec fn noise_stream_len(eta: nat, n: nat) -> nat {
    (eta * n) / 4
}

/// The noise polynomial keyed by `seed` and `nonce`.
pub open spec fn error_poly_spec(seed: Seq<u8>, eta: nat, nonce: u8, n: nat, q: int) -> Seq<i64> {
    cbd_spec(prf_spec(seed, nonce, noise_stream_len(eta, n)), eta, n, q)
}

/// The vector of `k` noise polynomials keyed by `seed` and the nonces from `nonce` on.
pub open spec fn error_vector_spec(seed: Seq<u8>, eta: nat, nonce: u8, k: nat, n: nat, q: int) -> Seq<
    Seq<i64>,
> {
    Seq::new(k, |i: int| error_poly_spec(seed, eta, (nonce + i) as u8, n, q))
}

/// `c` is the residue modulo `q` of a number from `-eta` to `eta`.
pub open spec fn small_residue(c: int, eta: int, q: int) -> bool {
    0 <= c < q && (c <= eta || c >= q - eta)
}

/// Every coefficient of `p` is the residue of a number from `-eta` to `eta`.
pub open spec fn all_small(p: Seq<i64>, eta: int, q: int) -> bool {
    forall|i: int| 0 <= i < p.len() ==> small_residue(#[trigger] p[i] as int, eta, q)
}

/// Every polynomial of `v` has coefficients from `-eta` to `eta` modulo `q`.
pub open spec fn all_polys_small(v: Seq<Seq<i64>>, eta: int, q: int) -> bool {
    forall|i: int| 0 <= i < v.len() ==> all_small(#[trigger] v[i], eta, q)
}

/// The difference of two counts of at most `eta` bits is, modulo `q`, the
/// residue of a number from `-eta` to `eta`.
pub proof fn lemma_small_difference(a: int, b: int, eta: int, q: int)
    requires
        0 <= a <= eta,
        0 <= b <= eta,
        q >= 1,
    ensures
        small_residue((a - b) % q, eta, q),
{
    vstd::arithmetic::div_mod::lemma_mod_bound(a - b, q);
    if a >= b {
        vstd::arithmetic::div_mod::lemma_mod_decreases((a - b) as nat, q as nat);
    } else if eta < q {
        vstd::arithmetic::div_mod::lemma_fundamental_div_mod_converse(a - b, q, -1, a - b + q);
    }
}

/// The candidates below `q`, in order.
pub open spec fn accepted(candidates: Seq<i64>, q: int) -> Seq<i64>
    decreases candidates.len(),
{
    if candidates.len() == 0 {
        Seq::empty()
    } else if candidates.last() < q {
        accepted(candidates.drop_last(), q).push(candidates.last())
    } else {
        accepted(candidates.drop_last(), q)
    }
}

/// The first `n` of the 12-bit groups of `stream` that are below `q`, if
/// there are that many.
pub open spec fn uniform_poly_spec(stream: Seq<u8>, n: nat, q: int) -> Option<Seq<i64>> {
    let kept = accepted(decode_spec(stream, 12), q);
    if kept.len() >= n {
        Some(kept.take(n as int))
    } else {
        None
    }
}

/// Bytes of pseudorandom stream read for one uniform polynomial: three
/// for every two 12-bit groups, with so many groups that `2 * n + 128` of
/// them are expected below `q`.
pub open spec fn uniform_stream_len(n: nat, q: int) -> nat {
    (3 * ((((n + 64) * 4096) as int) / q + 1)) as nat
}

/// Entry `(i, j)` of the matrix expanded from streams of `len` bytes, if
/// its stream holds enough values below `q`. The stream is keyed by the
/// seed and the bytes `j`, `i`; for the transposed matrix by `i`, `j`.
pub open spec fn matrix_entry_spec(
    rho: Seq<u8>,
    i: int,
    j: int,
    n: nat,
    q: int,
    transpose: bool,
    len: nat,
) -> Option<Seq<i64>> {
    let a = if transpose {
        i as u8
    } else {
        j as u8
    };
    let b = if transpose {
        j as u8
    } else {
        i as u8
    };
    uniform_poly_spec(xof_spec(rho, a, b, len), n, q)
}

/// Every entry of the `k` by `k` matrix can be sampled from a stream of `len` bytes.
pub open spec fn matrix_ok(rho: Seq<u8>, k: nat, n: nat, q: int, transpose: bool, len: nat) -> bool {
    forall|i: int, j: int|
        0 <= i < k && 0 <= j < k ==> (#[trigger] matrix_entry_spec(rho, i, j, n, q, transpose, len))
            is Some
}

/// The `k` by `k` matrix expanded from streams of `len` bytes, row by row.
pub open spec fn matrix_spec(rho: Seq<u8>, k: nat, n: nat, q: int, transpose: bool, len: nat) -> Seq<
    Seq<Seq<i64>>,
> {
    Seq::new(
        k,
        |i: int| Seq::new(k, |j: int| matrix_entry_spec(rho, i, j, n, q, transpose, len)->0),
    )
}

/// How many of the `len` bits from `start` on are set.
fn count_bits(bits: &Vec<bool>, start: usize, len: usize) -> (c: i64)
    requires
        start + len <= bits.len(),
        len <= 16,
    ensures
        c == count_true(bits@.subrange(start as int, start + len)),
        0 <= c <= len,
{
    let mut c: i64 = 0;
    let mut j: usize = 0;
    assert(bits@.subrange(start as int, start as int).len() == 0);
    while j < len
        invariant
            j <= len <= 16,
            start + len <= bits.len(),
            c == count_true(bits@.subrange(start as int, start + j)),
            0 <= c <= j,
        decreases len - j,
    {
        proof {
            let next = bits@.subrange(start as int, start + j + 1);
            assert(next.drop_last() =~= bits@.subrange(start as int, start + j));
            assert(next.last() == bits@[start + j]);
        }
        if bits[start + j] {
            c = c + 1;
        }
        j = j + 1;
    }
    c
}

/// The noise polynomial of `n` coefficients that the bits of `stream` give.
pub fn sample_cbd(stream: &Vec<u8>, eta: usize, n: usize, q: i64) -> (p: Vec<i64>)
    requires
        1 <= eta <= 16,
        n <= 4096,
        q >= 1,
        2 * eta * n <= stream.len() * 8,
    ensures
        p@ == cbd_spec(stream@, eta as nat, n as nat, q as int),
        p.len() == n,
        all_below(p@, q as int),
        all_small(p@, eta as int, q as int),
{
    let bits: Vec<bool> = bytes_to_bits(stream);
    let mut p: Vec<i64> = Vec::new();
    let mut i: usize = 0;
    while i < n
        invariant
            1 <= eta <= 16,
            n <= 4096,
            q >= 1,
            2 * eta * n <= bits.len(),
            bits@ == byte_bits(stream@),
            i <= n,
            p.len() == i,
            forall|t: int|
                0 <= t < i ==> p[t] == cbd_coefficient(bits@, t, eta as nat, q as int),
            forall|t: int| 0 <= t < i ==> 0 <= #[trigger] p[t] < q,
            forall|t: int| 0 <= t < i ==> small_residue(#[trigger] p[t] as int, eta as int, q as int),
        decreases n - i,
    {
        proof {
            assert(0 <= 2 * i * eta && 2 * i * eta + 2 * eta <= 2 * eta * n) by (nonlinear_arith)
                requires
                    0 <= i < n,
                    1 <= eta,
            ;
        }
        let start: usize = 2 * i * eta;
        let a: i64 = count_bits(&bits, start, eta);
        let b: i64 = count_bits(&bits, start + eta, eta);
        let c: i64 = reduce(a - b, q);
        proof {
            lemma_small_difference(a as int, b as int, eta as int, q as int);
        }
        p.push(c);
        i = i + 1;
    }
    assert(p@ =~= cbd_spec(stream@, eta as nat, n as nat, q as int));
    p
}

/// The noise polynomial keyed by `seed` and `nonce`.
pub fn generate_polynomial(seed: &Vec<u8>, eta: usize, nonce: u8, n: usize, q: i64) -> (p: Vec<i64>)
    requires
        1 <= eta <= 16,
        n <= 4096,
        n % 4 == 0,
        q >= 1,
    ensures
        p@ == error_poly_spec(seed@, eta as nat, nonce, n as nat, q as int),
        p.len() == n,
        all_below(p@, q as int),
        all_small(p@, eta as int, q as int),
{
    proof {
        assert(0 <= eta * n <= 16 * 4096) by (nonlinear_arith)
            requires
                0 <= eta <= 16,
                0 <= n <= 4096,
        ;
        let quarter = (n / 4) as int;
        assert(eta * n == (eta * quarter) * 4) by (nonlinear_arith)
            requires
                n == 4 * quarter,
        ;
        vstd::arithmetic::div_mod::lemma_mod_multiples_basic(eta * quarter, 4);
        assert(2 * eta * n == 2 * (eta * n)) by (nonlinear_arith);
    }
    let len: usize = (eta * n) / 4;
    let stream: Vec<u8> = prf(seed, nonce, len);
    sample_cbd(&stream, eta, n, q)
}

/// The vector of `k` noise polynomials keyed by `seed` and the nonces
/// from `nonce` on, and the first nonce not used.
pub fn generate_error_vector(seed: &Vec<u8>, eta: usize, nonce: u8, k: usize, n: usize, q: i64) -> (r:
    (Vec<Vec<i64>>, u8))
    requires
        1 <= eta <= 16,
        n <= 4096,
        n % 4 == 0,
        q >= 1,
        nonce + k <= 255,
    ensures
        polys_view(r.0@) == error_vector_spec(seed@, eta as nat, nonce, k as nat, n as nat, q as int),
        r.0.len() == k,
        r.1 == nonce + k,
        all_polys_below(polys_view(r.0@), q as int),
        all_polys_small(polys_view(r.0@), eta as int, q as int),
        all_len(polys_view(r.0@), n as nat),
{
    let mut v: Vec<Vec<i64>> = Vec::new();
    let mut next: u8 = nonce;
    let mut i: usize = 0;
    while i < k
        invariant
            1 <= eta <= 16,
            n <= 4096,
            n % 4 == 0,
            q >= 1,
            nonce + k <= 255,
            i <= k,
            next == nonce + i,
            v.len() == i,
            forall|t: int|
                0 <= t < i ==> (#[trigger] v[t])@ == error_poly_spec(
                    seed@,
                    eta as nat,
                    (nonce + t) as u8,
                    n as nat,
                    q as int,
                ),
            forall|t: int| 0 <= t < i ==> all_below((#[trigger] v[t])@, q as int),
            forall|t: int| 0 <= t < i ==> all_small((#[trigger] v[t])@, eta as int, q as int),
            forall|t: int| 0 <= t < i ==> (#[trigger] v[t]).len() == n,
        decreases k - i,
    {
        let p: Vec<i64> = generate_polynomial(seed, eta, next, n, q);
        v.push(p);
        next = next + 1;
        i = i + 1;
    }
    assert(polys_view(v@) =~= error_vector_spec(
        seed@,
        eta as nat,
        nonce,
        k as nat,
        n as nat,
        q as int,
    ));
    (v, next)
}

/// The first `n` of the 12-bit groups of `stream` that are below `q`.
pub fn rejection_sample(stream: &Vec<u8>, n: usize, q: i64) -> (r: Option<Vec<i64>>)
    requires
        q >= 1,
    ensures
        r is Some <==> uniform_poly_spec(stream@, n as nat, q as int) is Some,
        r matches Some(p) ==> Some(p@) == uniform_poly_spec(stream@, n as nat, q as int) && p.len()
            == n && all_below(p@, q as int),
{
    let candidates: Vec<i64> = decode_poly(stream, 12);
    let mut kept: Vec<i64> = Vec::new();
    let mut i: usize = 0;
    assert(candidates@.take(0) =~= Seq::<i64>::empty());
    while i < candidates.len()
        invariant
            i <= candidates.len(),
            kept@ == accepted(candidates@.take(i as int), q as int),
            forall|t: int| 0 <= t < candidates.len() ==> 0 <= #[trigger] candidates[t],
            all_below(kept@, q as int),
        decreases candidates.len() - i,
    {
        let c: i64 = candidates[i];
        proof {
            let next = candidates@.take(i + 1);
            assert(next.drop_last() =~= candidates@.take(i as int));
            assert(next.last() == c);
        }
        if c < q {
            kept.push(c);
        }
        i = i + 1;
    }
    assert(candidates@.take(candidates.len() as int) =~= candidates@);
    if kept.len() >= n {
        kept.truncate(n);
        Some(kept)
    } else {
        None
    }
}

/// Row `i` of the expanded matrix, if every entry of it can be sampled.
fn expand_row(
    rho: &Vec<u8>,
    i: usize,
    k: usize,
    n: usize,
    q: i64,
    transpose: bool,
    stream_len: usize,
) -> (r: Option<Vec<Vec<i64>>>)
    requires
        i < k <= 127,
        q >= 1,
        stream_len <= isize::MAX,
    ensures
        r is Some <==> forall|j: int|
            0 <= j < k ==> (#[trigger] matrix_entry_spec(
                rho@,
                i as int,
                j,
                n as nat,
                q as int,
                transpose,
                stream_len as nat,
            )) is Some,
        r matches Some(row) ==> row.len() == k && (forall|j: int|
            0 <= j < k ==> Some((#[trigger] row[j])@) == matrix_entry_spec(
                rho@,
                i as int,
                j,
                n as nat,
                q as int,
                transpose,
                stream_len as nat,
            )) && all_polys_below(polys_view(row@), q as int) && all_len(polys_view(row@), n as nat),
{
    let mut row: Vec<Vec<i64>> = Vec::new();
    let mut j: usize = 0;
    while j < k
        invariant
            i < k <= 127,
            q >= 1,
            stream_len <= isize::MAX,
            j <= k,
            row.len() == j,
            forall|t: int|
                0 <= t < j ==> Some((#[trigger] row[t])@) == matrix_entry_spec(
                    rho@,
                    i as int,
                    t,
                    n as nat,
                    q as int,
                    transpose,
                    stream_len as nat,
                ),
            forall|t: int| 0 <= t < j ==> all_below((#[trigger] row[t])@, q as int),
            forall|t: int| 0 <= t < j ==> (#[trigger] row[t]).len() == n,
        decreases k - j,
    {
        let a: u8 = if transpose {
            i as u8
        } else {
            j as u8
        };
        let b: u8 = if transpose {
            j as u8
        } else {
            i as u8
        };
        let stream: Vec<u8> = xof(rho, a, b, stream_len);
        match rejection_sample(&stream, n, q) {
            Some(p) => {
                row.push(p);
            },
            None => {
                assert(matrix_entry_spec(
                    rho@,
                    i as int,
                    j as int,
                    n as nat,
                    q as int,
                    transpose,
                    stream_len as nat,
                ) is None);
                return None;
            },
        }
        j = j + 1;
    }
    proof {
        assert forall|t: int| 0 <= t < k implies (#[trigger] matrix_entry_spec(
            rho@,
            i as int,
            t,
            n as nat,
            q as int,
            transpose,
            stream_len as nat,
        )) is Some by {
            assert(Some(row[t]@) == matrix_entry_spec(
                rho@,
                i as int,
                t,
                n as nat,
                q as int,
                transpose,
                stream_len as nat,
            ));
        }
    }
    Some(row)
}

/// Expands the seed `rho` into the `k` by `k` matrix of uniform
/// polynomials, or its transpose, reading `stream_len` bytes of stream
/// for each entry. Fails with `SamplingFailure` when the stream of some
/// entry holds fewer than `n` values below `q`.
pub fn generate_matrix_from_stream(
    rho: &Vec<u8>,
    k: usize,
    n: usize,
    q: i64,
    transpose: bool,
    stream_len: usize,
) -> (r: Result<Vec<Vec<Vec<i64>>>, Error>)
    requires
        k <= 127,
        q >= 1,
        stream_len <= isize::MAX,
    ensures
        r is Ok <==> matrix_ok(rho@, k as nat, n as nat, q as int, transpose, stream_len as nat),
        r matches Ok(m) ==> matrix_view(m@) == matrix_spec(
            rho@,
            k as nat,
            n as nat,
            q as int,
            transpose,
            stream_len as nat,
        ) && m.len() == k && rows_shape(matrix_view(m@), k as nat, n as nat, q as int),
        r matches Err(e) ==> e == Error::SamplingFailure,
{
    let mut m: Vec<Vec<Vec<i64>>> = Vec::new();
    let mut i: usize = 0;
    while i < k
        invariant
            k <= 127,
            q >= 1,
            stream_len <= isize::MAX,
            i <= k,
            m.len() == i,
            forall|s: int, t: int|
                0 <= s < i && 0 <= t < k ==> (#[trigger] matrix_entry_spec(
                    rho@,
                    s,
                    t,
                    n as nat,
                    q as int,
                    transpose,
                    stream_len as nat,
                )) is Some,
            forall|s: int| 0 <= s < i ==> (#[trigger] m[s]).len() == k,
            forall|s: int, t: int|
                0 <= s < i && 0 <= t < k ==> Some(m[s][t]@) == #[trigger] matrix_entry_spec(
                    rho@,
                    s,
                    t,
                    n as nat,
                    q as int,
                    transpose,
                    stream_len as nat,
                ),
            forall|s: int| 0 <= s < i ==> all_polys_below(polys_view((#[trigger] m[s])@), q as int),
            forall|s: int| 0 <= s < i ==> all_len(polys_view((#[trigger] m[s])@), n as nat),
        decreases k - i,
    {
        match expand_row(rho, i, k, n, q, transpose, stream_len) {
            Some(row) => {
                m.push(row);
            },
            None => {
                return Err(Error::SamplingFailure);
            },
        }
        i = i + 1;
    }
    proof {
        let spec_m = matrix_spec(rho@, k as nat, n as nat, q as int, transpose, stream_len as nat);
        assert forall|s: int| 0 <= s < k implies matrix_view(m@)[s] == spec_m[s] by {
            assert forall|t: int| 0 <= t < k implies matrix_view(m@)[s][t] == spec_m[s][t] by {
                assert(Some(m[s][t]@) == matrix_entry_spec(
                    rho@,
                    s,
                    t,
                    n as nat,
                    q as int,
                    transpose,
                    stream_len as nat,
                ));
            }
            assert(matrix_view(m@)[s] =~= spec_m[s]);
        }
        assert(matrix_view(m@) =~= spec_m);
        assert forall|s: int| 0 <= s < k implies (#[trigger] matrix_view(m@)[s]).len() == k
            && all_len(matrix_view(m@)[s], n as nat) && all_polys_below(
            matrix_view(m@)[s],
            q as int,
        ) by {
            assert(matrix_view(m@)[s] == polys_view(m[s]@));
        }
    }
    Ok(m)
}

/// Bytes of pseudorandom stream read for one uniform polynomial.
pub fn stream_len_for(n: usize, q: i64) -> (len: usize)
    requires
        n <= 4096,
        1 <= q <= 4096,
    ensures
        len == uniform_stream_len(n as nat, q as int),
        len <= isize::MAX,
{
    let pairs: usize = ((n + 64) * 4096) / (q as usize) + 1;
    proof {
        vstd::arithmetic::div_mod::lemma_div_nonincreasing(((n + 64) * 4096) as int, q as int);
        vstd::arithmetic::div_mod::lemma_div_pos_is_pos(((n + 64) * 4096) as int, q as int);
    }
    3 * pairs
}

/// Expands the seed `rho` into the `k` by `k` matrix of uniform
/// polynomials, or its transpose. The stream read for each entry grows as
/// `q` shrinks; should it still hold fewer than `n` values below `q`, the
/// expansion fails with `SamplingFailure`.
pub fn generate_matrix_from_seed(rho: &Vec<u8>, k: usize, n: usize, q: i64, transpose: bool) -> (r:
    Result<Vec<Vec<Vec<i64>>>, Error>)
    requires
        k <= 127,
        n <= 4096,
        1 <= q <= 4096,
    ensures
        r is Ok <==> matrix_ok(
            rho@,
            k as nat,
            n as nat,
            q as int,
            transpose,
            uniform_stream_len(n as nat, q as int),
        ),
        r matches Ok(m) ==> matrix_view(m@) == matrix_spec(
            rho@,
            k as nat,
            n as nat,
            q as int,
            transpose,
            uniform_stream_len(n as nat, q as int),
        ) && m.len() == k && rows_shape(matrix_view(m@), k as nat, n as nat, q as int),
        r matches Err(e) ==> e == Error::SamplingFailure,
{
    let stream_len: usize = stream_len_for(n, q);
    generate_matrix_from_stream(rho, k, n, q, transpose, stream_len)
}

} // verus!
