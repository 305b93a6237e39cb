//! The random-bit generator: AES-256 in counter mode, from `aes_ctr_drbg`.

use vstd::prelude::*;

verus! {

/// The generator's state, opaque to the verifier.
#[verifier::external_type_specification]
#[verifier::external_body]
pub struct ExDrbgCtx(aes_ctr_drbg::DrbgCtx);

/// Bytes of entropy that seeding the generator consumes.
pub const SEED_LEN: usize = 48;

/// The state that seeding leaves, whatever the state before: a function
/// of the 48 bytes of entropy and of the personalization string.
pub uninterp spec fn seeded_generator(entropy: Seq<u8>, personalization: Seq<u8>) -> aes_ctr_drbg::DrbgCtx;

/// The `len` bytes that a generator in the given state gives out, and the
/// state it is left in.
pub uninterp spec fn drbg_draw(state: aes_ctr_drbg::DrbgCtx, len: nat) -> (
    Seq<u8>,
    aes_ctr_drbg::DrbgCtx,
);

/// Calls `aes_ctr_drbg::DrbgCtx::new`: a generator that is not yet seeded.
#[verifier::external_body]
pub(crate) fn drbg_new() -> (ctx: aes_ctr_drbg::DrbgCtx) {
    aes_ctr_drbg::DrbgCtx::new()
}

/// Calls `aes_ctr_drbg::DrbgCtx::init`, which reads the first 48 bytes of
/// `entropy` and, where `personalization` has at least 48 bytes, the
/// first 48 of those, and overwrites the whole state from them. Trusted:
/// the state it leaves is a function of those two arguments alone.
#[verifier::external_body]
pub(crate) fn drbg_init(ctx: &mut aes_ctr_drbg::DrbgCtx, entropy: &Vec<u8>, personalization: Vec<u8>)
    requires
        entropy.len() >= SEED_LEN,
    ensures
        *final(ctx) == seeded_generator(entropy@.subrange(0, 48), personalization@),
{
    ctx.init(entropy.as_slice(), personalization)
}

/// Calls `aes_ctr_drbg::DrbgCtx::get_random` on a buffer of `len` bytes.
/// Trusted: the buffer comes back with its length, and its contents and
/// the state the generator is left in are functions of the state before
/// and of `len` alone.
#[verifier::external_body]
pub(crate) fn drbg_random_bytes(ctx: &mut aes_ctr_drbg::DrbgCtx, len: usize) -> (out: Vec<u8>)
    requires
        len <= isize::MAX,
    ensures
        out.len() == len,
        (out@, *final(ctx)) == drbg_draw(*old(ctx), len as nat),
{
    let mut out = vec![0u8; len];
    ctx.get_random(&mut out);
    out
}

} // verus!
