//! The K-PKE public-key encryption scheme and the key-encapsulation
//! mechanism built on it.

use vstd::prelude::*;
use vstd::arithmetic::power2::{pow2, is_pow2, lemma2_to64};
use vstd::arithmetic::div_mod::lemma_fundamental_div_mod_converse;
use crate::codec::{
    encode_spec, decode_spec, encode_vector_spec, decode_vector_spec, reduce_vec_spec,
    encode_poly, decode_poly, encode_vector, decode_vector, copy_range, append_bytes,
    lemma_encode_vector_len, lemma_decode_encode_vector, lemma_decode_encode, lemma_reduce_vec_below,
};
use crate::compress::{
    all_below, polys_view, all_polys_below, compress_seq, decompress_seq, compress_vec_spec,
    decompress_vec_spec, compress_poly, decompress_poly, compress_vec, decompress_vec,
    within_compression_error, lemma_compress_seq_error_bound,
};
use crate::drbg::{drbg_new, drbg_init, drbg_random_bytes, seeded_generator, drbg_draw, SEED_LEN};
use crate::hashing::{hash_g, hash_g_spec, hash_h, hash_h_spec};
use crate::lattice::{
    add_poly_spec, sub_poly_spec, add_vec_spec, ntt_vec_spec, intt_vec_spec, intt_poly_spec,
    dot_spec, mat_vec_spec, all_len, add_poly, sub_poly, add_vec, vec_ntt, vec_intt, intt_poly,
    dot_product, mat_vec_product,
};
use crate::params::{Parameters, Error};
use crate::sampling::{
    matrix_ok, matrix_spec, uniform_stream_len, error_vector_spec, error_poly_spec,
    generate_matrix_from_seed, generate_error_vector, generate_polynomial,
};

verus! {

/// Bytes of the seed that an encryption key carries.
pub const SEED_BYTES: usize = 32;

/// The two halves of an encryption key: the encoded vector and the matrix seed.
pub open spec fn split_ek(ek: Seq<u8>) -> (Seq<u8>, Seq<u8>) {
    (ek.subrange(0, ek.len() - 32), ek.subrange(ek.len() - 32, ek.len() as int))
}

/// The vector that an encryption or decryption key encodes, reduced modulo `q`.
pub open spec fn decoded_key(p: Parameters, bytes: Seq<u8>) -> Seq<Seq<i64>> {
    reduce_vec_spec(decode_vector_spec(bytes, p.k as nat, 12), p.q as int)
}

/// The vector part of an encryption key is the encoding of what it decodes to.
pub open spec fn ek_canonical(p: Parameters, ek: Seq<u8>) -> bool {
    encode_vector_spec(decoded_key(p, split_ek(ek).0), 12) == split_ek(ek).0
}

/// The matrix seed and the noise seed derived from the seed `d` and the rank.
pub open spec fn kpke_seeds(p: Parameters, d: Seq<u8>) -> (Seq<u8>, Seq<u8>) {
    hash_g_spec(d.push(p.k as u8))
}

/// Every entry of the matrix, or of its transpose, can be sampled from the seed `rho`.
pub open spec fn kpke_matrix_ok(p: Parameters, rho: Seq<u8>, transpose: bool) -> bool {
    matrix_ok(
        rho,
        p.k as nat,
        p.n as nat,
        p.q as int,
        transpose,
        uniform_stream_len(p.n as nat, p.q as int),
    )
}

/// The matrix, or its transpose, expanded from the seed `rho`.
pub open spec fn kpke_matrix(p: Parameters, rho: Seq<u8>, transpose: bool) -> Seq<Seq<Seq<i64>>> {
    matrix_spec(
        rho,
        p.k as nat,
        p.n as nat,
        p.q as int,
        transpose,
        uniform_stream_len(p.n as nat, p.q as int),
    )
}

/// Key generation succeeds on the seed `d`: the matrix can be sampled.
pub open spec fn kpke_keygen_ok(p: Parameters, d: Seq<u8>) -> bool {
    kpke_matrix_ok(p, kpke_seeds(p, d).0, false)
}

/// The transformed secret vector that the seed `d` gives.
pub open spec fn kpke_secret_hat(p: Parameters, d: Seq<u8>) -> Seq<Seq<i64>> {
    let s = error_vector_spec(
        kpke_seeds(p, d).1,
        p.eta_1 as nat,
        0,
        p.k as nat,
        p.n as nat,
        p.q as int,
    );
    ntt_vec_spec(s, p.omega, p.n as nat, p.q)
}

/// The transformed public vector that the seed `d` gives: the product of
/// the matrix and the secret, plus the transformed noise.
pub open spec fn kpke_public_hat(p: Parameters, d: Seq<u8>) -> Seq<Seq<i64>> {
    let n = p.n as nat;
    let q = p.q as int;
    let e = error_vector_spec(kpke_seeds(p, d).1, p.eta_1 as nat, p.k as u8, p.k as nat, n, q);
    add_vec_spec(
        mat_vec_spec(kpke_matrix(p, kpke_seeds(p, d).0, false), kpke_secret_hat(p, d), n, q),
        ntt_vec_spec(e, p.omega, n, p.q),
        q,
    )
}

/// The encryption key and the decryption key that the seed `d` gives.
pub open spec fn kpke_keygen_spec(p: Parameters, d: Seq<u8>) -> (Seq<u8>, Seq<u8>) {
    (
        encode_vector_spec(kpke_public_hat(p, d), 12) + kpke_seeds(p, d).0,
        encode_vector_spec(kpke_secret_hat(p, d), 12),
    )
}

/// What key generation returns on the seed `d`.
pub open spec fn kpke_keygen_result(p: Parameters, d: Seq<u8>) -> Result<(Seq<u8>, Seq<u8>), Error> {
    if kpke_keygen_ok(p, d) {
        Ok(kpke_keygen_spec(p, d))
    } else {
        Err(Error::SamplingFailure)
    }
}

/// The keys `ek` and `dk` carry what the seed `d` gives and nothing
/// else: `ek` ends in the matrix seed, its vector part decodes to the
/// public vector and `dk` to the secret vector, and both are the
/// encodings of what they decode to.
pub open spec fn keys_decode(p: Parameters, d: Seq<u8>, ek: Seq<u8>, dk: Seq<u8>) -> bool {
    &&& split_ek(ek).1 == kpke_seeds(p, d).0
    &&& decoded_key(p, split_ek(ek).0) == kpke_public_hat(p, d)
    &&& decoded_key(p, dk) == kpke_secret_hat(p, d)
    &&& all_polys_below(decode_vector_spec(split_ek(ek).0, p.k as nat, 12), p.q as int)
    &&& all_polys_below(decode_vector_spec(dk, p.k as nat, 12), p.q as int)
    &&& ek_canonical(p, ek)
    &&& encode_vector_spec(decoded_key(p, dk), 12) == dk
}

/// The first part of what encryption compresses: the inverse transform
/// of the product of the transposed matrix and the transformed
/// randomness, plus noise.
pub open spec fn encrypt_u_spec(p: Parameters, ek: Seq<u8>, r: Seq<u8>) -> Seq<Seq<i64>> {
    let n = p.n as nat;
    let k = p.k as nat;
    let q = p.q as int;
    let y = error_vector_spec(r, p.eta_1 as nat, 0, k, n, q);
    let e1 = error_vector_spec(r, p.eta_2 as nat, p.k as u8, k, n, q);
    let y_hat = ntt_vec_spec(y, p.omega, n, p.q);
    add_vec_spec(
        intt_vec_spec(
            mat_vec_spec(kpke_matrix(p, split_ek(ek).1, true), y_hat, n, q),
            p.omega,
            n,
            p.q,
        ),
        e1,
        q,
    )
}

/// The second part of what encryption compresses: the inverse transform
/// of the product of the public vector and the transformed randomness,
/// plus noise, plus the message with each bit at half of `q`.
pub open spec fn encrypt_v_spec(p: Parameters, ek: Seq<u8>, m: Seq<u8>, r: Seq<u8>) -> Seq<i64> {
    let n = p.n as nat;
    let k = p.k as nat;
    let q = p.q as int;
    let t_hat = decoded_key(p, split_ek(ek).0);
    let y = error_vector_spec(r, p.eta_1 as nat, 0, k, n, q);
    let e2 = error_poly_spec(r, p.eta_2 as nat, (2 * p.k) as u8, n, q);
    let y_hat = ntt_vec_spec(y, p.omega, n, p.q);
    let mu = decompress_seq(decode_spec(m, 1), 1, q);
    add_poly_spec(
        add_poly_spec(intt_poly_spec(dot_spec(t_hat, y_hat, n, q), p.omega, n, p.q), e2, q),
        mu,
        q,
    )
}

/// The ciphertext of the message `m` under the key `ek` with the randomness `r`.
pub open spec fn kpke_encrypt_spec(p: Parameters, ek: Seq<u8>, m: Seq<u8>, r: Seq<u8>) -> Seq<u8> {
    let q = p.q as int;
    encode_vector_spec(compress_vec_spec(encrypt_u_spec(p, ek, r), p.du as nat, q), p.du as nat)
        + encode_spec(compress_seq(encrypt_v_spec(p, ek, m, r), p.dv as nat, q), p.dv as nat)
}

/// What encryption returns. The key is judged first, whatever the
/// message: `LengthMismatch` for a key of the wrong length, else
/// `NonCanonicalEncoding` for a key whose vector part is not the encoding
/// of what it decodes to. Then `LengthMismatch` for a message of the
/// wrong length, else `SamplingFailure` where the matrix cannot be
/// sampled, else the ciphertext.
pub open spec fn kpke_encrypt_result(p: Parameters, ek: Seq<u8>, m: Seq<u8>, r: Seq<u8>) -> Result<
    Seq<u8>,
    Error,
> {
    if ek.len() != p.ek_len() {
        Err(Error::LengthMismatch)
    } else if !ek_canonical(p, ek) {
        Err(Error::NonCanonicalEncoding)
    } else if m.len() != p.message_len() {
        Err(Error::LengthMismatch)
    } else if !kpke_matrix_ok(p, split_ek(ek).1, true) {
        Err(Error::SamplingFailure)
    } else {
        Ok(kpke_encrypt_spec(p, ek, m, r))
    }
}

/// The two parts that a ciphertext holds, decoded but not yet expanded:
/// a vector at `du` bits per coefficient, then a polynomial at `dv` bits.
pub open spec fn ciphertext_parts(p: Parameters, c: Seq<u8>) -> (Seq<Seq<i64>>, Seq<i64>) {
    let cut = (p.k as nat * p.poly_bytes(p.du as nat)) as int;
    (
        decode_vector_spec(c.subrange(0, cut), p.k as nat, p.du as nat),
        decode_spec(c.subrange(cut, c.len() as int), p.dv as nat),
    )
}

/// The ciphertext `c` holds the compressed `u` and `v`, and what it
/// expands to is within the compression error of them.
pub open spec fn ciphertext_holds(p: Parameters, c: Seq<u8>, u: Seq<Seq<i64>>, v: Seq<i64>) -> bool {
    let q = p.q as int;
    let parts = ciphertext_parts(p, c);
    &&& parts.0 == compress_vec_spec(u, p.du as nat, q)
    &&& parts.1 == compress_seq(v, p.dv as nat, q)
    &&& parts.0.len() == u.len()
    &&& forall|j: int|
        0 <= j < u.len() ==> within_compression_error(
            decompress_seq(#[trigger] parts.0[j], p.du as nat, q),
            u[j],
            p.du as nat,
            q,
        )
    &&& within_compression_error(decompress_seq(parts.1, p.dv as nat, q), v, p.dv as nat, q)
}

/// The polynomial that decryption rounds to the message: the second part
/// of the ciphertext less the product of the key and the first part.
pub open spec fn decrypt_noisy_spec(p: Parameters, dk: Seq<u8>, c: Seq<u8>) -> Seq<i64> {
    let n = p.n as nat;
    let q = p.q as int;
    let parts = ciphertext_parts(p, c);
    let u = decompress_vec_spec(parts.0, p.du as nat, q);
    let v = decompress_seq(parts.1, p.dv as nat, q);
    let s_hat = decoded_key(p, dk);
    let w = intt_poly_spec(dot_spec(s_hat, ntt_vec_spec(u, p.omega, n, p.q), n, q), p.omega, n, p.q);
    sub_poly_spec(v, w, q)
}

/// The message that the ciphertext `c` holds for the key `dk`.
pub open spec fn kpke_decrypt_spec(p: Parameters, dk: Seq<u8>, c: Seq<u8>) -> Seq<u8> {
    encode_spec(compress_seq(decrypt_noisy_spec(p, dk, c), 1, p.q as int), 1)
}

/// What decryption returns: `LengthMismatch` for a key or ciphertext of
/// the wrong length, else the message.
pub open spec fn kpke_decrypt_result(p: Parameters, dk: Seq<u8>, c: Seq<u8>) -> Result<
    Seq<u8>,
    Error,
> {
    if dk.len() != p.dk_len() || c.len() != p.ciphertext_len() {
        Err(Error::LengthMismatch)
    } else {
        Ok(kpke_decrypt_spec(p, dk, c))
    }
}

/// What encapsulation returns for the message `m` and the randomness `r`:
/// the secret derived from `m`, and the ciphertext of `m`.
pub open spec fn encapsulate_result(p: Parameters, ek: Seq<u8>, m: Seq<u8>, r: Seq<u8>) -> Result<
    (Seq<u8>, Seq<u8>),
    Error,
> {
    match kpke_encrypt_result(p, ek, m, r) {
        Ok(c) => Ok((hash_h_spec(m), c)),
        Err(e) => Err(e),
    }
}

/// What decapsulation returns: the secret derived from the decrypted message.
pub open spec fn decapsulate_result(p: Parameters, dk: Seq<u8>, c: Seq<u8>) -> Result<Seq<u8>, Error> {
    match kpke_decrypt_result(p, dk, c) {
        Ok(m) => Ok(hash_h_spec(m)),
        Err(e) => Err(e),
    }
}

/// A result that holds bytes, with the bytes as a sequence.
pub open spec fn bytes_result(r: Result<Vec<u8>, Error>) -> Result<Seq<u8>, Error> {
    match r {
        Ok(b) => Ok(b@),
        Err(e) => Err(e),
    }
}

/// A result that holds two byte strings, with each as a sequence.
pub open spec fn pair_result(r: Result<(Vec<u8>, Vec<u8>), Error>) -> Result<(Seq<u8>, Seq<u8>), Error> {
    match r {
        Ok(b) => Ok((b.0@, b.1@)),
        Err(e) => Err(e),
    }
}

/// A power of two from 8 on is a multiple of 8.
pub proof fn lemma_pow2_multiple_of_8(n: int)
    requires
        is_pow2(n),
        n >= 8,
    ensures
        n % 8 == 0,
{
    reveal_with_fuel(is_pow2, 4);
    assert(n % 2 == 0 && is_pow2(n / 2));
    assert((n / 2) % 2 == 0 && is_pow2(n / 2 / 2));
    assert((n / 2 / 2) % 2 == 0);
}

/// The sizes of a polynomial of `n` coefficients encoded at `w` bits each.
pub proof fn lemma_poly_sizes(n: nat, w: nat)
    requires
        n % 8 == 0,
        w >= 1,
    ensures
        (n * w) % 8 == 0,
        (n * w) / 8 == (n / 8) * w,
        (((n * w) / 8) * 8) % w == 0,
        (((n * w) / 8) * 8) / w == n,
{
    let e = (n / 8) as int;
    let wi = w as int;
    let ni = n as int;
    assert(ni * wi == (e * wi) * 8 + 0) by (nonlinear_arith)
        requires
            ni == 8 * e,
    ;
    lemma_fundamental_div_mod_converse(ni * wi, 8, e * wi, 0);
    assert(((e * wi) * 8) == ni * wi + 0) by (nonlinear_arith)
        requires
            ni == 8 * e,
    ;
    lemma_fundamental_div_mod_converse((e * wi) * 8, wi, ni, 0);
    assert(0 <= e * wi) by (nonlinear_arith)
        requires
            0 <= e,
            0 <= wi,
    ;
}

/// Coefficients below `a` are below any `b` from `a` on.
pub proof fn lemma_below_widen(v: Seq<Seq<i64>>, a: int, b: int)
    requires
        all_polys_below(v, a),
        a <= b,
    ensures
        all_polys_below(v, b),
{
    assert forall|i: int| 0 <= i < v.len() implies all_below(#[trigger] v[i], b) by {
        assert(all_below(v[i], a));
    }
}

/// A byte string of `k` encoded polynomials of `n` coefficients decodes
/// to `k` polynomials of `n` coefficients, reduced or not.
pub proof fn lemma_decoded_shape(bytes: Seq<u8>, k: nat, w: nat, n: nat, q: int)
    requires
        k >= 1,
        w >= 1,
        n % 8 == 0,
        bytes.len() == k * ((n * w) / 8),
    ensures
        bytes.len() / k == (n * w) / 8,
        all_len(decode_vector_spec(bytes, k, w), n),
        all_len(reduce_vec_spec(decode_vector_spec(bytes, k, w), q), n),
{
    let share = ((n * w) / 8) as int;
    let ki = k as int;
    assert(bytes.len() == share * ki + 0) by (nonlinear_arith)
        requires
            bytes.len() == ki * share,
    ;
    lemma_fundamental_div_mod_converse(bytes.len() as int, ki, share, 0);
    lemma_poly_sizes(n, w);
    let dec = decode_vector_spec(bytes, k, w);
    assert forall|i: int| 0 <= i < dec.len() implies (#[trigger] dec[i]).len() == n by {
        assert(0 <= i * share && i * share + share <= ki * share) by (nonlinear_arith)
            requires
                0 <= i < ki,
                0 <= share,
        ;
        let chunk = bytes.subrange(i * share, i * share + share);
        assert(chunk.len() == share);
        assert(dec[i] == decode_spec(chunk, w));
    }
    let red = reduce_vec_spec(dec, q);
    assert forall|i: int| 0 <= i < red.len() implies (#[trigger] red[i]).len() == n by {
        assert(dec[i].len() == n);
    }
}

/// Determinism of key generation: two results that key generation may
/// return on one seed hold the same bytes.
pub proof fn lemma_keygen_deterministic(
    p: Parameters,
    d: Seq<u8>,
    first: Result<(Vec<u8>, Vec<u8>), Error>,
    second: Result<(Vec<u8>, Vec<u8>), Error>,
)
    requires
        pair_result(first) == kpke_keygen_result(p, d),
        pair_result(second) == kpke_keygen_result(p, d),
    ensures
        pair_result(first) == pair_result(second),
        first matches Ok(a) ==> second matches Ok(b) && a.0@ == b.0@ && a.1@ == b.1@,
{
}

/// Tamper rejection, for every message and randomness: an encryption
/// key of the wrong length is refused with `LengthMismatch`, and one of
/// the right length is refused with `NonCanonicalEncoding` exactly when
/// some twelve-bit integer of its vector part is not below `q`.
/// `LengthMismatch` comes for no other input but a message of the wrong
/// length under a key that passed both tests.
pub proof fn lemma_tampered_key_rejected(p: Parameters, ek: Seq<u8>, m: Seq<u8>, r: Seq<u8>)
    requires
        p.wf(),
    ensures
        ek.len() != p.ek_len() ==> kpke_encrypt_result(p, ek, m, r) == Err::<Seq<u8>, Error>(
            Error::LengthMismatch,
        ),
        ek.len() == p.ek_len() ==> (kpke_encrypt_result(p, ek, m, r) == Err::<Seq<u8>, Error>(
            Error::NonCanonicalEncoding,
        ) <==> !all_polys_below(decode_vector_spec(split_ek(ek).0, p.k as nat, 12), p.q as int)),
        kpke_encrypt_result(p, ek, m, r) == Err::<Seq<u8>, Error>(Error::LengthMismatch) <==> (
        ek.len() != p.ek_len() || (all_polys_below(
            decode_vector_spec(split_ek(ek).0, p.k as nat, 12),
            p.q as int,
        ) && m.len() != p.message_len())),
{
    if ek.len() == p.ek_len() {
        let bytes = split_ek(ek).0;
        lemma_pow2_multiple_of_8(p.n as int);
        lemma_poly_sizes(p.n as nat, 12);
        lemma_decoded_shape(bytes, p.k as nat, 12, p.n as nat, p.q as int);
        let share = ((p.n as nat * 12) / 8) as int;
        let ki = p.k as int;
        assert(bytes.len() == share * ki + 0) by (nonlinear_arith)
            requires
                bytes.len() == ki * share,
        ;
        lemma_fundamental_div_mod_converse(bytes.len() as int, ki, share, 0);
        crate::codec::lemma_canonical_iff_below(bytes, p.k as nat, p.q as int);
    }
}

/// A key of the right length whose twelve-bit integers are all below `q`
/// is refused neither for its length nor for its encoding: encryption
/// returns a ciphertext exactly when the matrix can be sampled from the
/// key's seed, and fails with `SamplingFailure` otherwise.
pub proof fn lemma_canonical_key_accepted(p: Parameters, ek: Seq<u8>, m: Seq<u8>, r: Seq<u8>)
    requires
        p.wf(),
        ek.len() == p.ek_len(),
        m.len() == p.message_len(),
        all_polys_below(decode_vector_spec(split_ek(ek).0, p.k as nat, 12), p.q as int),
    ensures
        ek_canonical(p, ek),
        kpke_matrix_ok(p, split_ek(ek).1, true) ==> kpke_encrypt_result(p, ek, m, r) == Ok::<
            Seq<u8>,
            Error,
        >(kpke_encrypt_spec(p, ek, m, r)),
        !kpke_matrix_ok(p, split_ek(ek).1, true) ==> kpke_encrypt_result(p, ek, m, r) == Err::<
            Seq<u8>,
            Error,
        >(Error::SamplingFailure),
{
    lemma_tampered_key_rejected(p, ek, m, r);
}

/// Decryption tolerates noise: where every coefficient of the polynomial
/// that decryption rounds is within a quarter of `q` of what the matching
/// bit of the message `m` decompresses to, decryption returns `m`.
pub proof fn lemma_decrypt_tolerates_noise(p: Parameters, dk: Seq<u8>, c: Seq<u8>, m: Seq<u8>)
    requires
        p.wf(),
        dk.len() == p.dk_len(),
        c.len() == p.ciphertext_len(),
        m.len() == p.message_len(),
        forall|i: int|
            0 <= i < p.n ==> 4 * crate::compress::centered_distance(
                #[trigger] decrypt_noisy_spec(p, dk, c)[i] as int,
                crate::compress::decompress_spec(decode_spec(m, 1)[i] as int, 1, p.q as int),
                p.q as int,
            ) + 1 < p.q,
    ensures
        kpke_decrypt_result(p, dk, c) == Ok::<Seq<u8>, Error>(m),
{
    let n = p.n as nat;
    let q = p.q as int;
    lemma_pow2_multiple_of_8(p.n as int);
    lemma_poly_sizes(n, 1);
    lemma_poly_sizes(n, p.dv as nat);
    lemma2_to64();
    let bits = decode_spec(m, 1);
    crate::codec::lemma_encode_decode(m, 1);
    let noisy = decrypt_noisy_spec(p, dk, c);
    let cut = (p.k as nat * p.poly_bytes(p.du as nat)) as int;
    let tail = c.subrange(cut, c.len() as int);
    assert(tail.len() == p.poly_bytes(p.dv as nat));
    let parts = ciphertext_parts(p, c);
    let v = decompress_seq(parts.1, p.dv as nat, q);
    let u = decompress_vec_spec(parts.0, p.du as nat, q);
    let w = intt_poly_spec(
        dot_spec(decoded_key(p, dk), ntt_vec_spec(u, p.omega, n, p.q), n, q),
        p.omega,
        n,
        p.q,
    );
    assert(noisy == sub_poly_spec(v, w, q));
    assert(noisy.len() == n);
    assert(bits.len() == n);
    assert forall|i: int| 0 <= i < noisy.len() implies 0 <= #[trigger] noisy[i] < q by {
        vstd::arithmetic::div_mod::lemma_mod_bound(v[i] - w[i], q);
    }
    crate::compress::lemma_bits_survive_noise(bits, noisy, q);
}

/// Where K-PKE decryption returns the message that was encrypted, the
/// secret that decapsulation derives is the one that encapsulation derived.
pub proof fn lemma_kem_agrees_where_pke_round_trips(
    p: Parameters,
    ek: Seq<u8>,
    dk: Seq<u8>,
    m: Seq<u8>,
    r: Seq<u8>,
)
    requires
        kpke_encrypt_result(p, ek, m, r) matches Ok(c) && kpke_decrypt_result(p, dk, c) == Ok::<
            Seq<u8>,
            Error,
        >(m),
    ensures
        encapsulate_result(p, ek, m, r) matches Ok(out) && decapsulate_result(p, dk, out.1) == Ok::<
            Seq<u8>,
            Error,
        >(out.0),
{
}

/// Whether two byte strings are equal.
pub fn bytes_equal(a: &Vec<u8>, b: &Vec<u8>) -> (eq: bool)
    ensures
        eq == (a@ == b@),
{
    if a.len() != b.len() {
        return false;
    }
    let mut i: usize = 0;
    while i < a.len()
        invariant
            a.len() == b.len(),
            i <= a.len(),
            forall|t: int| 0 <= t < i ==> a[t] == b[t],
        decreases a.len() - i,
    {
        if a[i] != b[i] {
            return false;
        }
        i = i + 1;
    }
    assert(a@ =~= b@);
    true
}

/// Bytes of a polynomial of `n` coefficients encoded at `w` bits each.
pub fn poly_byte_len(n: usize, w: usize) -> (len: usize)
    requires
        n % 8 == 0,
        n <= 4096,
        1 <= w <= 16,
    ensures
        len == (n as nat * w as nat) / 8,
        len <= 8192,
{
    proof {
        lemma_poly_sizes(n as nat, w as nat);
        assert((n / 8) * w <= 512 * 16) by (nonlinear_arith)
            requires
                n / 8 <= 512,
                w <= 16,
        ;
    }
    (n / 8) * w
}

/// An instance of the scheme: a parameter set and, once seeded, a random-bit generator.
pub struct MLKEM {
    /// The parameter set.
    pub params: Parameters,
    /// The random-bit generator, absent until it is seeded.
    pub drbg: Option<aes_ctr_drbg::DrbgCtx>,
}

impl MLKEM {
    /// An instance with the given parameter set and no random-bit generator.
    pub fn new(params: Parameters) -> (s: MLKEM)
        ensures
            s.params == params,
            s.drbg is None,
    {
        MLKEM { params, drbg: None }
    }

    /// Seeds the random-bit generator with the first 48 bytes of `seed`
    /// and a personalization string of 48 zero bytes, replacing any
    /// generator held before. A shorter seed is refused with
    /// `SeedLengthError` and changes nothing.
    pub fn set_drbg_seed(&mut self, seed: Vec<u8>) -> (r: Result<(), Error>)
        ensures
            final(self).params == old(self).params,
            seed.len() >= 48 ==> r is Ok && final(self).drbg == Some(
                seeded_generator(seed@.subrange(0, 48), Seq::new(48, |i: int| 0u8)),
            ),
            seed.len() < 48 ==> r == Err::<(), Error>(Error::SeedLengthError) && final(self).drbg
                == old(self).drbg,
    {
        if seed.len() < SEED_LEN {
            return Err(Error::SeedLengthError);
        }
        let mut personalization: Vec<u8> = Vec::new();
        let mut i: usize = 0;
        while i < SEED_LEN
            invariant
                i <= SEED_LEN,
                personalization.len() == i,
                forall|t: int| 0 <= t < i ==> personalization[t] == 0,
            decreases SEED_LEN - i,
        {
            personalization.push(0);
            i = i + 1;
        }
        assert(personalization@ =~= Seq::new(48, |i: int| 0u8));
        let mut ctx = drbg_new();
        drbg_init(&mut ctx, &seed, personalization);
        self.drbg = Some(ctx);
        Ok(())
    }

    /// Generates an encryption key and a decryption key from the seed `d`.
    /// Fails with `SamplingFailure` where the matrix cannot be sampled.
    ///
    /// The product of the matrix and the transformed secret is taken
    /// coefficient by coefficient, which is multiplication modulo
    /// `x^n - 1`, not under the reduction polynomial `x^n + 1`. The
    /// products of `module_lwe` under `x^n + 1` go through a transform of
    /// length `2n`, and modulo 3329 with `n = 256` no root of unity of
    /// that order exists.
    pub fn _k_pke_keygen(&self, d: Vec<u8>) -> (r: Result<(Vec<u8>, Vec<u8>), Error>)
        requires
            self.params.wf(),
        ensures
            pair_result(r) == kpke_keygen_result(self.params, d@),
            r matches Ok(keys) ==> keys.0.len() == self.params.ek_len() && keys.1.len()
                == self.params.dk_len() && keys_decode(self.params, d@, keys.0@, keys.1@),
    {
        let n: usize = self.params.n;
        let k: usize = self.params.k;
        let q: i64 = self.params.q;
        let omega: i64 = self.params.omega;
        let mut input: Vec<u8> = Vec::new();
        append_bytes(&mut input, &d);
        input.push(k as u8);
        assert(input@ =~= d@.push(k as u8));
        let (rho, sigma) = hash_g(&input);
        proof {
            lemma_pow2_multiple_of_8(n as int);
            lemma2_to64();
        }
        let a_hat = match generate_matrix_from_seed(&rho, k, n, q, false) {
            Ok(m) => m,
            Err(e) => {
                return Err(Error::SamplingFailure);
            },
        };
        let (s, next) = generate_error_vector(&sigma, self.params.eta_1, 0, k, n, q);
        let (e, _) = generate_error_vector(&sigma, self.params.eta_1, next, k, n, q);
        let s_hat = vec_ntt(&s, omega, n, q);
        let e_hat = vec_ntt(&e, omega, n, q);
        let product = mat_vec_product(&a_hat, &s_hat, n, q);
        let t_hat = add_vec(&product, &e_hat, n, q, &self.params.f);
        proof {
            lemma_below_widen(polys_view(t_hat@), q as int, pow2(12) as int);
            lemma_below_widen(polys_view(s_hat@), q as int, pow2(12) as int);
            lemma_encode_vector_len(polys_view(t_hat@), 12, n as nat);
            lemma_encode_vector_len(polys_view(s_hat@), 12, n as nat);
        }
        let mut ek_pke: Vec<u8> = encode_vector(&t_hat, 12);
        append_bytes(&mut ek_pke, &rho);
        let dk_pke: Vec<u8> = encode_vector(&s_hat, 12);
        proof {
            let public = polys_view(t_hat@);
            let secret = polys_view(s_hat@);
            lemma_poly_sizes(n as nat, 12);
            lemma_decode_encode_vector(public, 12, n as nat);
            lemma_decode_encode_vector(secret, 12, n as nat);
            lemma_reduce_vec_below(public, q as int);
            lemma_reduce_vec_below(secret, q as int);
            assert(split_ek(ek_pke@).0 =~= encode_vector_spec(public, 12));
            assert(split_ek(ek_pke@).1 =~= rho@);
        }
        Ok((ek_pke, dk_pke))
    }

    /// Encrypts the message `m` under the encryption key `ek_pke` with the
    /// randomness `r`. The key is judged before the message is looked at:
    /// its length first, then its encoding.
    ///
    /// Both products, of the transposed matrix and of the public vector
    /// with the transformed randomness, are taken coefficient by
    /// coefficient, which is multiplication modulo `x^n - 1`, not under
    /// the reduction polynomial `x^n + 1`: see `dot_product`.
    pub fn _k_pke_encrypt(&self, ek_pke: Vec<u8>, m: Vec<u8>, r: Vec<u8>) -> (res: Result<
        Vec<u8>,
        Error,
    >)
        requires
            self.params.wf(),
        ensures
            bytes_result(res) == kpke_encrypt_result(self.params, ek_pke@, m@, r@),
            res matches Ok(c) ==> c.len() == self.params.ciphertext_len() && ciphertext_holds(
                self.params,
                c@,
                encrypt_u_spec(self.params, ek_pke@, r@),
                encrypt_v_spec(self.params, ek_pke@, m@, r@),
            ),
    {
        let n: usize = self.params.n;
        let k: usize = self.params.k;
        let q: i64 = self.params.q;
        let omega: i64 = self.params.omega;
        let du: usize = self.params.du;
        let dv: usize = self.params.dv;
        proof {
            lemma_pow2_multiple_of_8(n as int);
            lemma2_to64();
        }
        let share: usize = poly_byte_len(n, 12);
        proof {
            assert(k * share <= 127 * 8192) by (nonlinear_arith)
                requires
                    k <= 127,
                    share <= 8192,
            ;
        }
        if ek_pke.len() != k * share + SEED_BYTES {
            return Err(Error::LengthMismatch);
        }
        let t_hat_bytes: Vec<u8> = copy_range(&ek_pke, 0, ek_pke.len() - SEED_BYTES);
        let rho: Vec<u8> = copy_range(&ek_pke, ek_pke.len() - SEED_BYTES, ek_pke.len());
        let t_hat = decode_vector(&t_hat_bytes, k, 12, true, q);
        proof {
            lemma_below_widen(polys_view(t_hat@), q as int, pow2(12) as int);
            lemma_decoded_shape(t_hat_bytes@, k as nat, 12, n as nat, q as int);
        }
        let again: Vec<u8> = encode_vector(&t_hat, 12);
        if !bytes_equal(&again, &t_hat_bytes) {
            return Err(Error::NonCanonicalEncoding);
        }
        if m.len() != poly_byte_len(n, 1) {
            return Err(Error::LengthMismatch);
        }
        let a_hat_t = match generate_matrix_from_seed(&rho, k, n, q, true) {
            Ok(m) => m,
            Err(e) => {
                return Err(Error::SamplingFailure);
            },
        };
        let (y, next) = generate_error_vector(&r, self.params.eta_1, 0, k, n, q);
        let (e1, last) = generate_error_vector(&r, self.params.eta_2, next, k, n, q);
        let e2 = generate_polynomial(&r, self.params.eta_2, last, n, q);
        let y_hat = vec_ntt(&y, omega, n, q);
        let product = mat_vec_product(&a_hat_t, &y_hat, n, q);
        let back = vec_intt(&product, omega, n, q);
        let u = add_vec(&back, &e1, n, q, &self.params.f);
        let bits: Vec<i64> = decode_poly(&m, 1);
        let mu: Vec<i64> = decompress_poly(&bits, 1, q);
        proof {
            lemma_poly_sizes(n as nat, 1);
        }
        let dot: Vec<i64> = dot_product(&t_hat, &y_hat, n, q);
        let dot_back: Vec<i64> = intt_poly(&dot, omega, n, q);
        let with_noise: Vec<i64> = add_poly(&dot_back, &e2, q, &self.params.f);
        let v: Vec<i64> = add_poly(&with_noise, &mu, q, &self.params.f);
        let cu = compress_vec(&u, du, q);
        let cv = compress_poly(&v, dv, q);
        proof {
            assert forall|i: int| 0 <= i < cu.len() implies (#[trigger] polys_view(cu@)[i]).len()
                == n by {
                assert(polys_view(u@)[i].len() == n);
            }
            lemma_encode_vector_len(polys_view(cu@), du as nat, n as nat);
        }
        let mut c: Vec<u8> = encode_vector(&cu, du);
        let ghost c1 = c@;
        let c2: Vec<u8> = encode_poly(&cv, dv);
        append_bytes(&mut c, &c2);
        proof {
            let qi = q as int;
            let uv = polys_view(u@);
            lemma_poly_sizes(n as nat, du as nat);
            lemma_poly_sizes(n as nat, dv as nat);
            lemma_decode_encode_vector(polys_view(cu@), du as nat, n as nat);
            lemma_decode_encode(cv@, dv as nat);
            let cut = (k as nat * self.params.poly_bytes(du as nat)) as int;
            assert(c1.len() == cut);
            assert(c@.subrange(0, cut) =~= c1);
            assert(c@.subrange(cut, c@.len() as int) =~= c2@);
            assert forall|j: int| 0 <= j < uv.len() implies within_compression_error(
                decompress_seq(#[trigger] polys_view(cu@)[j], du as nat, qi),
                uv[j],
                du as nat,
                qi,
            ) by {
                assert(all_below(uv[j], qi));
                lemma_compress_seq_error_bound(uv[j], du as nat, qi);
            }
            lemma_compress_seq_error_bound(v@, dv as nat, qi);
        }
        Ok(c)
    }

    /// Decrypts the ciphertext `c` with the decryption key `dk_pke`.
    ///
    /// The product of the key and the transformed first part of the
    /// ciphertext is taken coefficient by coefficient, which is
    /// multiplication modulo `x^n - 1`, not under the reduction
    /// polynomial `x^n + 1`: see `dot_product`.
    pub fn _k_pke_decrypt(&self, dk_pke: Vec<u8>, c: Vec<u8>) -> (res: Result<Vec<u8>, Error>)
        requires
            self.params.wf(),
        ensures
            bytes_result(res) == kpke_decrypt_result(self.params, dk_pke@, c@),
            res matches Ok(m) ==> m.len() == self.params.message_len(),
    {
        let n: usize = self.params.n;
        let k: usize = self.params.k;
        let q: i64 = self.params.q;
        let omega: i64 = self.params.omega;
        let du: usize = self.params.du;
        let dv: usize = self.params.dv;
        proof {
            lemma_pow2_multiple_of_8(n as int);
            lemma2_to64();
        }
        let share: usize = poly_byte_len(n, 12);
        let share_u: usize = poly_byte_len(n, du);
        let share_v: usize = poly_byte_len(n, dv);
        proof {
            assert(k * share <= 127 * 8192 && k * share_u <= 127 * 8192) by (nonlinear_arith)
                requires
                    k <= 127,
                    share <= 8192,
                    share_u <= 8192,
            ;
        }
        if dk_pke.len() != k * share || c.len() != k * share_u + share_v {
            return Err(Error::LengthMismatch);
        }
        let c1: Vec<u8> = copy_range(&c, 0, k * share_u);
        let c2: Vec<u8> = copy_range(&c, k * share_u, c.len());
        let u_bits = decode_vector(&c1, k, du, false, q);
        let u = decompress_vec(&u_bits, du, q);
        let v_bits: Vec<i64> = decode_poly(&c2, dv);
        let v: Vec<i64> = decompress_poly(&v_bits, dv, q);
        let s_hat = decode_vector(&dk_pke, k, 12, true, q);
        proof {
            lemma_decoded_shape(c1@, k as nat, du as nat, n as nat, q as int);
            lemma_decoded_shape(dk_pke@, k as nat, 12, n as nat, q as int);
            lemma_poly_sizes(n as nat, dv as nat);
            assert forall|i: int| 0 <= i < u.len() implies (#[trigger] polys_view(u@)[i]).len()
                == n by {
                assert(polys_view(u_bits@)[i].len() == n);
            }
        }
        let u_hat = vec_ntt(&u, omega, n, q);
        let dot: Vec<i64> = dot_product(&s_hat, &u_hat, n, q);
        let w: Vec<i64> = intt_poly(&dot, omega, n, q);
        let mu: Vec<i64> = sub_poly(&v, &w, q, &self.params.f);
        let bits: Vec<i64> = compress_poly(&mu, 1, q);
        proof {
            lemma_poly_sizes(n as nat, 1);
        }
        let m: Vec<u8> = encode_poly(&bits, 1);
        Ok(m)
    }

    /// Generates a key pair from the next 32 bytes of the random-bit
    /// generator. Without a seeded generator it fails with `SamplingFailure`.
    pub fn keygen(&mut self) -> (r: Result<(Vec<u8>, Vec<u8>), Error>)
        requires
            old(self).params.wf(),
        ensures
            final(self).params == old(self).params,
            old(self).drbg is None ==> final(self).drbg is None && r == Err::<
                (Vec<u8>, Vec<u8>),
                Error,
            >(Error::SamplingFailure),
            old(self).drbg matches Some(g) ==> final(self).drbg == Some(drbg_draw(g, 32).1)
                && drbg_draw(g, 32).0.len() == 32 && pair_result(r) == kpke_keygen_result(
                old(self).params,
                drbg_draw(g, 32).0,
            ) && (r matches Ok(keys) ==> keys_decode(
                old(self).params,
                drbg_draw(g, 32).0,
                keys.0@,
                keys.1@,
            )),
            r matches Ok(keys) ==> keys.0.len() == old(self).params.ek_len() && keys.1.len() == old(
                self,
            ).params.dk_len(),
    {
        let d: Vec<u8> = match &mut self.drbg {
            Some(ctx) => drbg_random_bytes(ctx, SEED_BYTES),
            None => {
                return Err(Error::SamplingFailure);
            },
        };
        self._k_pke_keygen(d)
    }

    /// Encapsulates with the message `m` and the randomness `r`: the shared
    /// secret derived from `m`, and the ciphertext of `m` under `ek`.
    pub fn encapsulate_with(&self, ek: Vec<u8>, m: Vec<u8>, r: Vec<u8>) -> (res: Result<
        (Vec<u8>, Vec<u8>),
        Error,
    >)
        requires
            self.params.wf(),
        ensures
            pair_result(res) == encapsulate_result(self.params, ek@, m@, r@),
            res matches Ok(out) ==> out.0.len() == 32 && out.1.len() == self.params.ciphertext_len()
                && ciphertext_holds(
                self.params,
                out.1@,
                encrypt_u_spec(self.params, ek@, r@),
                encrypt_v_spec(self.params, ek@, m@, r@),
            ),
    {
        let secret: Vec<u8> = hash_h(&m);
        match self._k_pke_encrypt(ek, m, r) {
            Ok(c) => Ok((secret, c)),
            Err(e) => Err(e),
        }
    }

    /// Encapsulates with a message and randomness drawn from the random-bit
    /// generator: first the message, one bit per coefficient, then 32
    /// bytes of randomness. Without a seeded generator it fails with
    /// `SamplingFailure`.
    pub fn encapsulate(&mut self, ek: Vec<u8>) -> (res: Result<(Vec<u8>, Vec<u8>), Error>)
        requires
            old(self).params.wf(),
        ensures
            final(self).params == old(self).params,
            old(self).drbg is None ==> final(self).drbg is None && res == Err::<
                (Vec<u8>, Vec<u8>),
                Error,
            >(Error::SamplingFailure),
            old(self).drbg matches Some(g) ==> ({
                let first = drbg_draw(g, old(self).params.message_len());
                let second = drbg_draw(first.1, 32);
                &&& final(self).drbg == Some(second.1)
                &&& first.0.len() == old(self).params.message_len()
                &&& second.0.len() == 32
                &&& pair_result(res) == encapsulate_result(old(self).params, ek@, first.0, second.0)
                &&& res matches Ok(out) ==> ciphertext_holds(
                    old(self).params,
                    out.1@,
                    encrypt_u_spec(old(self).params, ek@, second.0),
                    encrypt_v_spec(old(self).params, ek@, first.0, second.0),
                )
            }),
            res matches Ok(out) ==> out.0.len() == 32 && out.1.len() == old(
                self,
            ).params.ciphertext_len(),
    {
        proof {
            lemma_pow2_multiple_of_8(self.params.n as int);
        }
        let message_len: usize = poly_byte_len(self.params.n, 1);
        let (m, r) = match &mut self.drbg {
            Some(ctx) => {
                let m: Vec<u8> = drbg_random_bytes(ctx, message_len);
                let r: Vec<u8> = drbg_random_bytes(ctx, SEED_BYTES);
                (m, r)
            },
            None => {
                return Err(Error::SamplingFailure);
            },
        };
        self.encapsulate_with(ek, m, r)
    }

    /// Recovers the shared secret from the ciphertext `ct` with the decryption key `dk`.
    pub fn decapsulate(&self, dk: Vec<u8>, ct: Vec<u8>) -> (res: Result<Vec<u8>, Error>)
        requires
            self.params.wf(),
        ensures
            bytes_result(res) == decapsulate_result(self.params, dk@, ct@),
            res matches Ok(secret) ==> secret.len() == 32,
    {
        match self._k_pke_decrypt(dk, ct) {
            Ok(m) => Ok(hash_h(&m)),
            Err(e) => Err(e),
        }
    }
}

} // verus!
