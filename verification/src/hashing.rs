//! The hash functions of the scheme: SHA3-256, SHA3-512 and the two SHAKE
//! extendable-output functions, and the seed derivations built on them.

use vstd::prelude::*;
use sha3::Digest;
use sha3::digest::{ExtendableOutput, Update, XofReader};
use crate::codec::{copy_range, append_bytes};

verus! {

/// The SHA3-512 digest of `data`.
pub uninterp spec fn sha3_512_digest(data: Seq<u8>) -> Seq<u8>;

/// The SHA3-256 digest of `data`.
pub uninterp spec fn sha3_256_digest(data: Seq<u8>) -> Seq<u8>;

/// The first `len` bytes that SHAKE128 gives out after absorbing `data`.
pub uninterp spec fn shake128_output(data: Seq<u8>, len: nat) -> Seq<u8>;

/// The first `len` bytes that SHAKE256 gives out after absorbing `data`.
pub uninterp spec fn shake256_output(data: Seq<u8>, len: nat) -> Seq<u8>;

/// Calls `sha3::Sha3_512::digest`. Trusted: the result is the 64-byte
/// SHA3-512 digest of `data`, a function of `data` alone.
#[verifier::external_body]
pub(crate) fn sha3_512(data: &Vec<u8>) -> (out: Vec<u8>)
    ensures
        out@ == sha3_512_digest(data@),
        out.len() == 64,
{
    sha3::Sha3_512::digest(data.as_slice()).to_vec()
}

/// Calls `sha3::Sha3_256::digest`. Trusted: the result is the 32-byte
/// SHA3-256 digest of `data`, a function of `data` alone.
#[verifier::external_body]
pub(crate) fn sha3_256(data: &Vec<u8>) -> (out: Vec<u8>)
    ensures
        out@ == sha3_256_digest(data@),
        out.len() == 32,
{
    sha3::Sha3_256::digest(data.as_slice()).to_vec()
}

/// Feeds `data` to `sha3::Shake128` and reads `len` bytes from it.
/// A buffer of more than `isize::MAX` bytes cannot be had. Trusted: the
/// result has `len` bytes and is a function of `data` and `len` alone.
#[verifier::external_body]
pub(crate) fn shake128(data: &Vec<u8>, len: usize) -> (out: Vec<u8>)
    requires
        len <= isize::MAX,
    ensures
        out@ == shake128_output(data@, len as nat),
        out.len() == len,
{
    let mut hasher = sha3::Shake128::default();
    hasher.update(data.as_slice());
    let mut reader = hasher.finalize_xof();
    let mut out = vec![0u8; len];
    reader.read(&mut out);
    out
}

/// Feeds `data` to `sha3::Shake256` and reads `len` bytes from it.
/// A buffer of more than `isize::MAX` bytes cannot be had. Trusted: the
/// result has `len` bytes and is a function of `data` and `len` alone.
#[verifier::external_body]
pub(crate) fn shake256(data: &Vec<u8>, len: usize) -> (out: Vec<u8>)
    requires
        len <= isize::MAX,
    ensures
        out@ == shake256_output(data@, len as nat),
        out.len() == len,
{
    let mut hasher = sha3::Shake256::default();
    hasher.update(data.as_slice());
    let mut reader = hasher.finalize_xof();
    let mut out = vec![0u8; len];
    reader.read(&mut out);
    out
}

/// The two 32-byte seeds derived from `input`: the halves of its SHA3-512 digest.
pub open spec fn hash_g_spec(input: Seq<u8>) -> (Seq<u8>, Seq<u8>) {
    let digest = sha3_512_digest(input);
    (digest.subrange(0, 32), digest.subrange(32, 64))
}

/// The 32-byte secret derived from a message: its SHA3-256 digest.
pub open spec fn hash_h_spec(message: Seq<u8>) -> Seq<u8> {
    sha3_256_digest(message)
}

/// The stream that keys noise sampling: SHAKE256 over the seed and the nonce.
pub open spec fn prf_spec(seed: Seq<u8>, nonce: u8, len: nat) -> Seq<u8> {
    shake256_output(seed.push(nonce), len)
}

/// The stream that keys matrix expansion: SHAKE128 over the seed and two index bytes.
pub open spec fn xof_spec(seed: Seq<u8>, a: u8, b: u8, len: nat) -> Seq<u8> {
    shake128_output(seed.push(a).push(b), len)
}

/// Derives two 32-byte seeds from `input`.
pub fn hash_g(input: &Vec<u8>) -> (seeds: (Vec<u8>, Vec<u8>))
    ensures
        (seeds.0@, seeds.1@) == hash_g_spec(input@),
        seeds.0.len() == 32,
        seeds.1.len() == 32,
{
    let digest: Vec<u8> = sha3_512(input);
    let rho: Vec<u8> = copy_range(&digest, 0, 32);
    let sigma: Vec<u8> = copy_range(&digest, 32, 64);
    (rho, sigma)
}

/// Derives the 32-byte shared secret from a message.
pub fn hash_h(message: &Vec<u8>) -> (secret: Vec<u8>)
    ensures
        secret@ == hash_h_spec(message@),
        secret.len() == 32,
{
    sha3_256(message)
}

/// `len` pseudorandom bytes keyed by `seed` and `nonce`.
pub fn prf(seed: &Vec<u8>, nonce: u8, len: usize) -> (out: Vec<u8>)
    requires
        len <= isize::MAX,
    ensures
        out@ == prf_spec(seed@, nonce, len as nat),
        out.len() == len,
{
    let mut input: Vec<u8> = Vec::new();
    append_bytes(&mut input, seed);
    input.push(nonce);
    assert(input@ =~= seed@.push(nonce));
    shake256(&input, len)
}

/// `len` pseudorandom bytes keyed by `seed` and the index bytes `a`, `b`.
pub fn xof(seed: &Vec<u8>, a: u8, b: u8, len: usize) -> (out: Vec<u8>)
    requires
        len <= isize::MAX,
    ensures
        out@ == xof_spec(seed@, a, b, len as nat),
        out.len() == len,
{
    let mut input: Vec<u8> = Vec::new();
    append_bytes(&mut input, seed);
    input.push(a);
    input.push(b);
    assert(input@ =~= seed@.push(a).push(b));
    shake128(&input, len)
}

} // verus!
