//! The byte codec: coefficients packed as fixed-width bit fields,
//! least significant bit first, contiguous across coefficients and bytes.

use vstd::prelude::*;
use vstd::arithmetic::power2::{pow2, lemma2_to64};
use vstd::arithmetic::div_mod::{
    lemma_fundamental_div_mod, lemma_fundamental_div_mod_converse, lemma_mod_bound, lemma_div_pos_is_pos,
    lemma_small_mod,
};
use crate::arith::{MAX_WIDTH, lemma_pow2_le_4096, reduce};
use crate::bits::{
    bit_of, value_bits, bits_value, lemma_bits_value_bound, lemma_bit_of_bits_value,
    lemma_bits_value_of_small, push_bits, pack_bits,
};
use crate::compress::{all_below, polys_view, all_polys_below};

verus! {

/// The bits of a sequence of numbers, `w` bits each, in order.
pub open spec fn chunks_bits(vals: Seq<int>, w: nat) -> Seq<bool> {
    Seq::new(vals.len() * w, |i: int| bit_of(vals[i / (w as int)], (i % (w as int)) as nat))
}

/// The numbers that consecutive groups of `w` bits stand for.
pub open spec fn bits_chunks(bits: Seq<bool>, w: nat) -> Seq<int> {
    Seq::new(bits.len() / w, |i: int| bits_value(bits.subrange(i * w, i * w + w)) as int)
}

/// A sequence of coefficients as mathematical integers.
pub open spec fn coeff_ints(coeffs: Seq<i64>) -> Seq<int> {
    Seq::new(coeffs.len(), |i: int| coeffs[i] as int)
}

/// A sequence of bytes as mathematical integers.
pub open spec fn byte_ints(bytes: Seq<u8>) -> Seq<int> {
    Seq::new(bytes.len(), |i: int| bytes[i] as int)
}

/// The bits of a byte string, least significant bit of each byte first.
pub open spec fn byte_bits(bytes: Seq<u8>) -> Seq<bool> {
    chunks_bits(byte_ints(bytes), 8)
}

/// The bytes that encode `coeffs` at `w` bits per coefficient.
pub open spec fn encode_spec(coeffs: Seq<i64>, w: nat) -> Seq<u8> {
    let groups = bits_chunks(chunks_bits(coeff_ints(coeffs), w), 8);
    Seq::new(groups.len(), |i: int| groups[i] as u8)
}

/// The coefficients that `bytes` encode at `w` bits per coefficient.
pub open spec fn decode_spec(bytes: Seq<u8>, w: nat) -> Seq<i64> {
    let groups = bits_chunks(byte_bits(bytes), w);
    Seq::new(groups.len(), |i: int| groups[i] as i64)
}

/// Every coefficient of `p` reduced modulo `q`.
pub open spec fn reduce_seq(p: Seq<i64>, q: int) -> Seq<i64> {
    Seq::new(p.len(), |i: int| ((p[i] as int) % q) as i64)
}

/// Every element of `vals` lies in `[0, bound)`.
pub open spec fn ints_below(vals: Seq<int>, bound: int) -> bool {
    forall|i: int| 0 <= i < vals.len() ==> 0 <= #[trigger] vals[i] < bound
}

/// Index `m * w + j` with `0 <= j < w` lies in group `m` at offset `j`.
proof fn lemma_group_index(m: int, j: int, w: int)
    requires
        0 <= j < w,
    ensures
        (m * w + j) / w == m,
        (m * w + j) % w == j,
{
    lemma_fundamental_div_mod_converse(m * w + j, w, m, j);
}

/// `m * w` divided by `w` is `m`, and an index below `m * w` lies in a group below `m`.
proof fn lemma_group_count(m: int, w: int, i: int)
    requires
        0 < w,
        0 <= m,
        0 <= i < m * w,
    ensures
        (m * w) / w == m,
        0 <= i / w < m,
        i == (i / w) * w + i % w,
        0 <= i % w < w,
{
    lemma_fundamental_div_mod_converse(m * w, w, m, 0);
    lemma_fundamental_div_mod(i, w);
    lemma_mod_bound(i, w);
    lemma_div_pos_is_pos(i, w);
    let g = i / w;
    assert(w * g == g * w) by (nonlinear_arith);
    assert(g < m) by (nonlinear_arith)
        requires
            g * w + i % w < m * w,
            0 <= i % w,
            0 < w,
    ;
}

/// Splitting a bit string into `w`-bit numbers and listing their bits gives the string back.
pub proof fn lemma_chunks_of_bits(bits: Seq<bool>, w: nat)
    requires
        w > 0,
        bits.len() % w == 0,
    ensures
        chunks_bits(bits_chunks(bits, w), w) == bits,
        ints_below(bits_chunks(bits, w), pow2(w) as int),
{
    let m = (bits.len() / w) as int;
    let wi = w as int;
    lemma_fundamental_div_mod(bits.len() as int, wi);
    assert(wi * m == m * wi) by (nonlinear_arith);
    assert(bits.len() == m * wi);
    let vals = bits_chunks(bits, w);
    assert(vals.len() == m);
    assert forall|t: int| 0 <= t < vals.len() implies 0 <= #[trigger] vals[t] < pow2(w) by {
        assert(t * wi + wi <= m * wi) by (nonlinear_arith)
            requires
                0 <= t < m,
                0 < wi,
        ;
        lemma_bits_value_bound(bits.subrange(t * wi, t * wi + wi));
    }
    let back = chunks_bits(vals, w);
    assert(back.len() == bits.len());
    assert forall|i: int| 0 <= i < bits.len() implies back[i] == bits[i] by {
        lemma_group_count(m, wi, i);
        let g = i / wi;
        let j = i % wi;
        assert(g * wi + wi <= m * wi) by (nonlinear_arith)
            requires
                0 <= g < m,
                0 < wi,
        ;
        let group = bits.subrange(g * wi, g * wi + wi);
        lemma_bit_of_bits_value(group, j as nat);
    }
    assert(back =~= bits);
}

/// Listing the bits of `w`-bit numbers and regrouping them gives the numbers back.
pub proof fn lemma_bits_of_chunks(vals: Seq<int>, w: nat)
    requires
        w > 0,
        ints_below(vals, pow2(w) as int),
    ensures
        bits_chunks(chunks_bits(vals, w), w) == vals,
{
    let wi = w as int;
    let m = vals.len() as int;
    let bits = chunks_bits(vals, w);
    assert(bits.len() == m * wi);
    lemma_fundamental_div_mod_converse(m * wi, wi, m, 0);
    let back = bits_chunks(bits, w);
    assert(back.len() == m);
    assert forall|t: int| 0 <= t < m implies back[t] == vals[t] by {
        assert(0 <= t * wi && t * wi + wi <= m * wi) by (nonlinear_arith)
            requires
                0 <= t < m,
                0 < wi,
        ;
        let group = bits.subrange(t * wi, t * wi + wi);
        assert forall|j: int| 0 <= j < wi implies group[j] == value_bits(vals[t], w)[j] by {
            lemma_group_index(t, j, wi);
        }
        assert(group =~= value_bits(vals[t], w));
        lemma_bits_value_of_small(vals[t], w);
    }
    assert(back =~= vals);
}

/// Decoding bytes and encoding the result at the same width gives the
/// bytes back, when the bytes hold a whole number of coefficients.
pub proof fn lemma_encode_decode(bytes: Seq<u8>, w: nat)
    requires
        1 <= w <= 12,
        (bytes.len() * 8) % w == 0,
    ensures
        encode_spec(decode_spec(bytes, w), w) == bytes,
        all_below(decode_spec(bytes, w), pow2(w) as int),
{
    let bits = byte_bits(bytes);
    let groups = bits_chunks(bits, w);
    lemma_chunks_of_bits(bits, w);
    lemma_pow2_le_4096(w);
    let coeffs = decode_spec(bytes, w);
    assert(coeff_ints(coeffs) =~= groups);
    lemma2_to64();
    assert(ints_below(byte_ints(bytes), pow2(8) as int));
    lemma_bits_of_chunks(byte_ints(bytes), 8);
    assert(encode_spec(coeffs, w) =~= bytes);
}

/// Encoding coefficients below `2^w` and decoding the result at the same
/// width gives the coefficients back, when they fill a whole number of bytes.
pub proof fn lemma_decode_encode(coeffs: Seq<i64>, w: nat)
    requires
        1 <= w <= 12,
        (coeffs.len() * w) % 8 == 0,
        all_below(coeffs, pow2(w) as int),
    ensures
        decode_spec(encode_spec(coeffs, w), w) == coeffs,
{
    let bits = chunks_bits(coeff_ints(coeffs), w);
    let groups = bits_chunks(bits, 8);
    lemma_chunks_of_bits(bits, 8);
    lemma2_to64();
    let bytes = encode_spec(coeffs, w);
    assert(byte_ints(bytes) =~= groups);
    assert(ints_below(coeff_ints(coeffs), pow2(w) as int));
    lemma_bits_of_chunks(coeff_ints(coeffs), w);
    assert(decode_spec(bytes, w) =~= coeffs);
}

/// The bits of `vals`, `w` bits each.
fn values_to_bits(vals: &Vec<i64>, w: usize) -> (bits: Vec<bool>)
    requires
        1 <= w <= MAX_WIDTH,
        forall|i: int| 0 <= i < vals.len() ==> 0 <= #[trigger] vals[i],
    ensures
        bits@ == chunks_bits(coeff_ints(vals@), w as nat),
{
    let mut bits: Vec<bool> = Vec::new();
    let mut i: usize = 0;
    while i < vals.len()
        invariant
            1 <= w <= MAX_WIDTH,
            forall|t: int| 0 <= t < vals.len() ==> 0 <= #[trigger] vals[t],
            i <= vals.len(),
            bits.len() == i * w,
            forall|t: int|
                0 <= t < i * w ==> bits[t] == bit_of(
                    vals[t / (w as int)] as int,
                    (t % (w as int)) as nat,
                ),
        decreases vals.len() - i,
    {
        let ghost before = bits@;
        push_bits(&mut bits, vals[i], w);
        proof {
            assert((i + 1) * w == i * w + w) by (nonlinear_arith);
            assert forall|t: int| 0 <= t < (i + 1) * w implies bits[t] == bit_of(
                vals[t / (w as int)] as int,
                (t % (w as int)) as nat,
            ) by {
                if t >= i * w {
                    lemma_group_index(i as int, t - i * w, w as int);
                }
            }
        }
        i = i + 1;
    }
    proof {
        let spec_bits = chunks_bits(coeff_ints(vals@), w as nat);
        assert forall|t: int| 0 <= t < bits.len() implies bits@[t] == spec_bits[t] by {
            lemma_group_count(vals.len() as int, w as int, t);
        }
        assert(bits@ =~= spec_bits);
    }
    bits
}

/// The numbers that consecutive groups of `w` bits stand for.
fn bits_to_values(bits: &Vec<bool>, w: usize) -> (vals: Vec<i64>)
    requires
        1 <= w <= MAX_WIDTH,
    ensures
        coeff_ints(vals@) == bits_chunks(bits@, w as nat),
        all_below(vals@, pow2(w as nat) as int),
{
    let count: usize = bits.len() / w;
    let mut vals: Vec<i64> = Vec::new();
    let mut i: usize = 0;
    proof {
        lemma_fundamental_div_mod(bits.len() as int, w as int);
        lemma_mod_bound(bits.len() as int, w as int);
        assert((w as int) * (count as int) == count * w) by (nonlinear_arith);
    }
    while i < count
        invariant
            1 <= w <= MAX_WIDTH,
            count == bits.len() / w,
            count * w <= bits.len(),
            i <= count,
            vals.len() == i,
            forall|t: int|
                0 <= t < i ==> #[trigger] vals[t] == bits_value(bits@.subrange(t * w, t * w + w)),
            forall|t: int| 0 <= t < i ==> 0 <= #[trigger] vals[t] < pow2(w as nat),
        decreases count - i,
    {
        proof {
            assert(i * w + w <= count * w) by (nonlinear_arith)
                requires
                    i < count,
                    0 < w,
            ;
        }
        let v: i64 = pack_bits(bits, i * w, w);
        vals.push(v);
        i = i + 1;
    }
    assert(coeff_ints(vals@) =~= bits_chunks(bits@, w as nat));
    vals
}

/// Encodes a polynomial at `w` bits per coefficient.
pub fn encode_poly(coeffs: &Vec<i64>, w: usize) -> (bytes: Vec<u8>)
    requires
        1 <= w <= MAX_WIDTH,
        all_below(coeffs@, pow2(w as nat) as int),
    ensures
        bytes@ == encode_spec(coeffs@, w as nat),
        bytes.len() == (coeffs.len() * w) / 8,
{
    let bits: Vec<bool> = values_to_bits(coeffs, w);
    let groups: Vec<i64> = bits_to_values(&bits, 8);
    let mut bytes: Vec<u8> = Vec::new();
    let mut i: usize = 0;
    proof {
        lemma2_to64();
    }
    while i < groups.len()
        invariant
            i <= groups.len(),
            bytes.len() == i,
            all_below(groups@, 256),
            forall|t: int| 0 <= t < i ==> bytes[t] == (groups[t] as int) as u8,
        decreases groups.len() - i,
    {
        let g: i64 = groups[i];
        bytes.push(g as u8);
        i = i + 1;
    }
    proof {
        let spec_groups = bits_chunks(chunks_bits(coeff_ints(coeffs@), w as nat), 8);
        assert(coeff_ints(groups@) == spec_groups);
        assert forall|t: int| 0 <= t < bytes.len() implies bytes@[t] == spec_groups[t] as u8 by {
            assert(coeff_ints(groups@)[t] == groups[t] as int);
        }
        assert(bytes@ =~= encode_spec(coeffs@, w as nat));
    }
    bytes
}

/// The bits of a byte string, least significant bit of each byte first.
pub fn bytes_to_bits(bytes: &Vec<u8>) -> (bits: Vec<bool>)
    ensures
        bits@ == byte_bits(bytes@),
        bits.len() == bytes.len() * 8,
{
    let mut vals: Vec<i64> = Vec::new();
    let mut i: usize = 0;
    while i < bytes.len()
        invariant
            i <= bytes.len(),
            vals.len() == i,
            forall|t: int| 0 <= t < i ==> vals[t] == bytes[t] as int,
        decreases bytes.len() - i,
    {
        vals.push(bytes[i] as i64);
        i = i + 1;
    }
    assert(coeff_ints(vals@) =~= byte_ints(bytes@));
    values_to_bits(&vals, 8)
}

/// Decodes a polynomial at `w` bits per coefficient.
pub fn decode_poly(bytes: &Vec<u8>, w: usize) -> (coeffs: Vec<i64>)
    requires
        1 <= w <= MAX_WIDTH,
    ensures
        coeffs@ == decode_spec(bytes@, w as nat),
        coeffs.len() == (bytes.len() * 8) / (w as int),
        all_below(coeffs@, pow2(w as nat) as int),
{
    let bits: Vec<bool> = bytes_to_bits(bytes);
    let coeffs: Vec<i64> = bits_to_values(&bits, w);
    proof {
        let spec_groups = bits_chunks(byte_bits(bytes@), w as nat);
        assert(coeff_ints(coeffs@) == spec_groups);
        lemma_pow2_le_4096(w as nat);
        assert forall|t: int| 0 <= t < coeffs.len() implies coeffs@[t] == spec_groups[t] as i64 by {
            assert(coeff_ints(coeffs@)[t] == coeffs[t] as int);
        }
        assert(coeffs@ =~= decode_spec(bytes@, w as nat));
    }
    coeffs
}

/// Reduces every coefficient of a polynomial into `[0, q)`.
pub fn reduce_poly(p: &Vec<i64>, q: i64) -> (r: Vec<i64>)
    requires
        q >= 1,
    ensures
        r@ == reduce_seq(p@, q as int),
        all_below(r@, q as int),
{
    let mut r: Vec<i64> = Vec::new();
    let mut i: usize = 0;
    while i < p.len()
        invariant
            q >= 1,
            i <= p.len(),
            r.len() == i,
            forall|t: int| 0 <= t < i ==> r[t] == (p[t] as int) % (q as int),
            forall|t: int| 0 <= t < i ==> 0 <= #[trigger] r[t] < q,
        decreases p.len() - i,
    {
        let c: i64 = reduce(p[i], q);
        r.push(c);
        i = i + 1;
    }
    assert(r@ =~= reduce_seq(p@, q as int));
    r
}

/// The concatenated encodings of the polynomials of a vector.
pub open spec fn encode_vector_spec(v: Seq<Seq<i64>>, w: nat) -> Seq<u8>
    decreases v.len(),
{
    if v.len() == 0 {
        Seq::empty()
    } else {
        encode_vector_spec(v.drop_last(), w) + encode_spec(v.last(), w)
    }
}

/// The `k` polynomials that `bytes` encode, each in an equal share of the bytes.
pub open spec fn decode_vector_spec(bytes: Seq<u8>, k: nat, w: nat) -> Seq<Seq<i64>> {
    let share = (bytes.len() / k) as int;
    Seq::new(k, |i: int| decode_spec(bytes.subrange(i * share, i * share + share), w))
}

/// Every coefficient of every polynomial of `v` reduced modulo `q`.
pub open spec fn reduce_vec_spec(v: Seq<Seq<i64>>, q: int) -> Seq<Seq<i64>> {
    Seq::new(v.len(), |i: int| reduce_seq(v[i], q))
}

/// A vector of polynomials of `n` coefficients each encodes to
/// `n * w / 8` bytes per polynomial.
pub proof fn lemma_encode_vector_len(v: Seq<Seq<i64>>, w: nat, n: nat)
    requires
        forall|i: int| 0 <= i < v.len() ==> (#[trigger] v[i]).len() == n,
    ensures
        encode_vector_spec(v, w).len() == v.len() * ((n * w) / 8),
    decreases v.len(),
{
    if v.len() > 0 {
        lemma_encode_vector_len(v.drop_last(), w, n);
        assert(v.last().len() == n);
        let per = ((n * w) / 8) as int;
        assert((v.len() - 1) * per + per == v.len() * per) by (nonlinear_arith);
    }
}

/// A copy of the bytes from `start` up to `end`.
pub fn copy_range(bytes: &Vec<u8>, start: usize, end: usize) -> (r: Vec<u8>)
    requires
        start <= end <= bytes.len(),
    ensures
        r@ == bytes@.subrange(start as int, end as int),
{
    let mut r: Vec<u8> = Vec::new();
    let mut i: usize = start;
    while i < end
        invariant
            start <= i <= end <= bytes.len(),
            r@ == bytes@.subrange(start as int, i as int),
        decreases end - i,
    {
        r.push(bytes[i]);
        assert(r@ =~= bytes@.subrange(start as int, i + 1));
        i = i + 1;
    }
    r
}

/// Appends `more` to `out`.
pub fn append_bytes(out: &mut Vec<u8>, more: &Vec<u8>)
    ensures
        final(out)@ == old(out)@ + more@,
{
    let mut i: usize = 0;
    while i < more.len()
        invariant
            i <= more.len(),
            out@ == old(out)@ + more@.take(i as int),
        decreases more.len() - i,
    {
        out.push(more[i]);
        assert(out@ =~= old(out)@ + more@.take(i + 1));
        i = i + 1;
    }
    assert(more@.take(more.len() as int) =~= more@);
}

/// Encodes a vector of polynomials at `w` bits per coefficient.
pub fn encode_vector(v: &Vec<Vec<i64>>, w: usize) -> (bytes: Vec<u8>)
    requires
        1 <= w <= MAX_WIDTH,
        all_polys_below(polys_view(v@), pow2(w as nat) as int),
    ensures
        bytes@ == encode_vector_spec(polys_view(v@), w as nat),
{
    let mut bytes: Vec<u8> = Vec::new();
    let mut i: usize = 0;
    while i < v.len()
        invariant
            1 <= w <= MAX_WIDTH,
            all_polys_below(polys_view(v@), pow2(w as nat) as int),
            i <= v.len(),
            bytes@ == encode_vector_spec(polys_view(v@).take(i as int), w as nat),
        decreases v.len() - i,
    {
        assert(all_below(polys_view(v@)[i as int], pow2(w as nat) as int));
        let part: Vec<u8> = encode_poly(&v[i], w);
        append_bytes(&mut bytes, &part);
        proof {
            let next = polys_view(v@).take(i + 1);
            assert(next.drop_last() =~= polys_view(v@).take(i as int));
            assert(next.last() == v[i as int]@);
        }
        i = i + 1;
    }
    assert(polys_view(v@).take(v.len() as int) =~= polys_view(v@));
    bytes
}

/// Decodes `k` polynomials at `w` bits per coefficient, each from an equal
/// share of the bytes, and where `reduce_mod_q` is set reduces every
/// coefficient into `[0, q)`.
pub fn decode_vector(bytes: &Vec<u8>, k: usize, w: usize, reduce_mod_q: bool, q: i64) -> (v: Vec<
    Vec<i64>,
>)
    requires
        k >= 1,
        1 <= w <= MAX_WIDTH,
        q >= 1,
    ensures
        v.len() == k,
        reduce_mod_q ==> polys_view(v@) == reduce_vec_spec(
            decode_vector_spec(bytes@, k as nat, w as nat),
            q as int,
        ),
        !reduce_mod_q ==> polys_view(v@) == decode_vector_spec(bytes@, k as nat, w as nat),
        reduce_mod_q ==> all_polys_below(polys_view(v@), q as int),
        !reduce_mod_q ==> all_polys_below(polys_view(v@), pow2(w as nat) as int),
{
    let share: usize = bytes.len() / k;
    let mut v: Vec<Vec<i64>> = Vec::new();
    let mut i: usize = 0;
    proof {
        lemma_fundamental_div_mod(bytes.len() as int, k as int);
        lemma_mod_bound(bytes.len() as int, k as int);
        assert((k as int) * (share as int) == k * share) by (nonlinear_arith);
    }
    while i < k
        invariant
            k >= 1,
            1 <= w <= MAX_WIDTH,
            q >= 1,
            share == bytes.len() / k,
            k * share <= bytes.len(),
            i <= k,
            v.len() == i,
            forall|t: int|
                0 <= t < i ==> (#[trigger] v[t])@ == if reduce_mod_q {
                    reduce_seq(
                        decode_spec(bytes@.subrange(t * share, t * share + share), w as nat),
                        q as int,
                    )
                } else {
                    decode_spec(bytes@.subrange(t * share, t * share + share), w as nat)
                },
            forall|t: int|
                0 <= t < i ==> all_below(
                    (#[trigger] v[t])@,
                    if reduce_mod_q {
                        q as int
                    } else {
                        pow2(w as nat) as int
                    },
                ),
        decreases k - i,
    {
        proof {
            assert(i * share + share <= k * share) by (nonlinear_arith)
                requires
                    i < k,
            ;
        }
        let chunk: Vec<u8> = copy_range(bytes, i * share, i * share + share);
        let p: Vec<i64> = decode_poly(&chunk, w);
        if reduce_mod_q {
            let r: Vec<i64> = reduce_poly(&p, q);
            v.push(r);
        } else {
            v.push(p);
        }
        i = i + 1;
    }
    proof {
        let dec = decode_vector_spec(bytes@, k as nat, w as nat);
        if reduce_mod_q {
            assert(polys_view(v@) =~= reduce_vec_spec(dec, q as int));
        } else {
            assert(polys_view(v@) =~= dec);
        }
    }
    v
}

/// Reducing coefficients that already lie in `[0, q)` changes nothing.
pub proof fn lemma_reduce_seq_below(p: Seq<i64>, q: int)
    requires
        q >= 1,
        all_below(p, q),
    ensures
        reduce_seq(p, q) == p,
{
    assert forall|i: int| 0 <= i < p.len() implies reduce_seq(p, q)[i] == p[i] by {
        lemma_small_mod(p[i] as nat, q as nat);
    }
    assert(reduce_seq(p, q) =~= p);
}

/// The encodings of the first `m` decoded polynomials are the first `m` shares of the bytes.
proof fn lemma_encode_decoded_prefix(bytes: Seq<u8>, k: nat, w: nat, m: nat)
    requires
        k >= 1,
        1 <= w <= 12,
        m <= k,
        bytes.len() % k == 0,
        ((bytes.len() / k) * 8) % w == 0,
    ensures
        (m as int) * ((bytes.len() / k) as int) <= bytes.len(),
        encode_vector_spec(decode_vector_spec(bytes, k, w).take(m as int), w) == bytes.subrange(
            0,
            (m as int) * ((bytes.len() / k) as int),
        ),
    decreases m,
{
    let share = (bytes.len() / k) as int;
    let mi = m as int;
    let ki = k as int;
    let dec = decode_vector_spec(bytes, k, w);
    lemma_fundamental_div_mod(bytes.len() as int, ki);
    assert(mi * share <= ki * share) by (nonlinear_arith)
        requires
            mi <= ki,
            0 <= share,
    ;
    if m == 0 {
        assert(dec.take(0).len() == 0);
        assert(mi * share == 0) by (nonlinear_arith)
            requires
                mi == 0,
        ;
        assert(bytes.subrange(0, 0) =~= Seq::<u8>::empty());
    } else {
        let prev = mi - 1;
        lemma_encode_decoded_prefix(bytes, k, w, prev as nat);
        assert(prev * share + share == mi * share) by (nonlinear_arith)
            requires
                prev == mi - 1,
        ;
        assert(0 <= prev * share) by (nonlinear_arith)
            requires
                0 <= share,
                0 <= prev,
        ;
        let chunk = bytes.subrange(prev * share, prev * share + share);
        assert(chunk.len() == share);
        assert(dec.take(mi).drop_last() =~= dec.take(prev));
        assert(dec.take(mi).last() == dec[prev]);
        assert(dec[prev] == decode_spec(chunk, w));
        assert((chunk.len() * 8) % w == 0);
        lemma_encode_decode(chunk, w);
        let before = encode_vector_spec(dec.take(prev), w);
        assert(before == bytes.subrange(0, prev * share));
        assert(encode_vector_spec(dec.take(mi), w) == before + encode_spec(decode_spec(chunk, w), w));
        assert(bytes.subrange(0, prev * share) + chunk =~= bytes.subrange(0, mi * share));
    }
}

/// Canonical codec: a byte string that holds `k` polynomials at `w` bits
/// per coefficient, all of whose encoded integers are below `q`, is
/// reproduced by decoding it, with or without reduction modulo `q`, and
/// encoding the result.
pub proof fn lemma_canonical_roundtrip(bytes: Seq<u8>, k: nat, w: nat, q: int)
    requires
        k >= 1,
        1 <= w <= 12,
        q >= 1,
        bytes.len() % k == 0,
        ((bytes.len() / k) * 8) % w == 0,
        all_polys_below(decode_vector_spec(bytes, k, w), q),
    ensures
        reduce_vec_spec(decode_vector_spec(bytes, k, w), q) == decode_vector_spec(bytes, k, w),
        encode_vector_spec(decode_vector_spec(bytes, k, w), w) == bytes,
        encode_vector_spec(reduce_vec_spec(decode_vector_spec(bytes, k, w), q), w) == bytes,
{
    let dec = decode_vector_spec(bytes, k, w);
    assert forall|i: int| 0 <= i < dec.len() implies reduce_vec_spec(dec, q)[i] == dec[i] by {
        lemma_reduce_seq_below(dec[i], q);
    }
    assert(reduce_vec_spec(dec, q) =~= dec);
    lemma_encode_decoded_prefix(bytes, k, w, k);
    lemma_fundamental_div_mod(bytes.len() as int, k as int);
    let share = (bytes.len() / k) as int;
    let ki = k as int;
    assert(dec.take(ki) =~= dec);
    assert(bytes.subrange(0, ki * share) =~= bytes);
}

/// Where every polynomial of `v` encodes to `share` bytes, the encoding
/// of `v` is made of those encodings, one after the other.
pub proof fn lemma_encode_vector_chunk(v: Seq<Seq<i64>>, w: nat, share: int, i: int)
    requires
        0 <= i < v.len(),
        forall|j: int| 0 <= j < v.len() ==> (#[trigger] encode_spec(v[j], w)).len() == share,
    ensures
        encode_vector_spec(v, w).len() == v.len() * share,
        0 <= i * share,
        i * share + share <= v.len() * share,
        encode_vector_spec(v, w).subrange(i * share, i * share + share) == encode_spec(v[i], w),
    decreases v.len(),
{
    let last = v.len() - 1;
    let rest = v.drop_last();
    let head = encode_vector_spec(rest, w);
    let tail = encode_spec(v.last(), w);
    assert(tail.len() == share);
    assert forall|j: int| 0 <= j < rest.len() implies (#[trigger] encode_spec(rest[j], w)).len()
        == share by {
        assert(rest[j] == v[j]);
    }
    assert(last * share + share == v.len() * share) by (nonlinear_arith)
        requires
            last == v.len() - 1,
    ;
    assert(0 <= i * share && i * share + share <= v.len() * share) by (nonlinear_arith)
        requires
            0 <= i < v.len(),
            0 <= share,
    ;
    if last == 0 {
        assert(head.len() == 0);
        assert(i * share == 0) by (nonlinear_arith)
            requires
                i == 0,
        ;
        assert((head + tail).subrange(0, share) =~= tail);
    } else if i == last {
        lemma_encode_vector_chunk(rest, w, share, 0);
        assert((head + tail).subrange(i * share, i * share + share) =~= tail);
    } else {
        lemma_encode_vector_chunk(rest, w, share, i);
        assert(i * share + share <= last * share) by (nonlinear_arith)
            requires
                0 <= i < last,
                0 <= share,
        ;
        assert((head + tail).subrange(i * share, i * share + share) =~= head.subrange(
            i * share,
            i * share + share,
        ));
    }
}

/// A byte string that holds `k` polynomials at twelve bits per
/// coefficient is reproduced by decoding it with reduction modulo `q` and
/// encoding the result exactly when all of its encoded integers are below `q`.
pub proof fn lemma_canonical_iff_below(bytes: Seq<u8>, k: nat, q: int)
    requires
        k >= 1,
        1 <= q <= 4096,
        bytes.len() % k == 0,
        ((bytes.len() / k) * 8) % 12 == 0,
    ensures
        encode_vector_spec(reduce_vec_spec(decode_vector_spec(bytes, k, 12), q), 12) == bytes
            <==> all_polys_below(decode_vector_spec(bytes, k, 12), q),
{
    let dec = decode_vector_spec(bytes, k, 12);
    let red = reduce_vec_spec(dec, q);
    let share = (bytes.len() / k) as int;
    let ki = k as int;
    lemma2_to64();
    if all_polys_below(dec, q) {
        lemma_canonical_roundtrip(bytes, k, 12, q);
    }
    if encode_vector_spec(red, 12) == bytes {
        lemma_fundamental_div_mod(bytes.len() as int, ki);
        assert forall|i: int| 0 <= i < dec.len() implies all_below(#[trigger] dec[i], q) by {
            assert(0 <= i * share && i * share + share <= ki * share) by (nonlinear_arith)
                requires
                    0 <= i < ki,
                    0 <= share,
            ;
            let chunk = bytes.subrange(i * share, i * share + share);
            assert(chunk.len() == share);
            assert(dec[i] == decode_spec(chunk, 12));
            assert forall|j: int| 0 <= j < red.len() implies (#[trigger] encode_spec(red[j], 12)).len()
                == share by {
                assert(0 <= j * share && j * share + share <= ki * share) by (nonlinear_arith)
                    requires
                        0 <= j < ki,
                        0 <= share,
                ;
                let other = bytes.subrange(j * share, j * share + share);
                assert(dec[j] == decode_spec(other, 12));
                lemma_encode_decode(other, 12);
                assert(encode_spec(dec[j], 12).len() == share);
                assert(red[j].len() == dec[j].len());
            }
            lemma_encode_vector_chunk(red, 12, share, i);
            assert(encode_spec(red[i], 12) == chunk);
            lemma_encode_decode(chunk, 12);
            assert(red[i].len() == dec[i].len());
            assert((dec[i].len() * 12) % 8 == 0) by {
                assert(encode_spec(dec[i], 12) == chunk);
                lemma_whole_bytes(dec[i].len() as int, share);
            }
            assert(all_below(red[i], 4096)) by {
                assert forall|t: int| 0 <= t < red[i].len() implies 0 <= #[trigger] red[i][t]
                    < 4096 by {
                    lemma_mod_bound(dec[i][t] as int, q);
                }
            }
            lemma_decode_encode(red[i], 12);
            assert(red[i] == dec[i]);
            assert forall|t: int| 0 <= t < dec[i].len() implies 0 <= #[trigger] dec[i][t] < q by {
                assert(dec[i][t] == red[i][t]);
                lemma_mod_bound(dec[i][t] as int, q);
            }
        }
    }
}

/// Coefficients decoded from `share` bytes at twelve bits each fill whole bytes.
proof fn lemma_whole_bytes(count: int, share: int)
    requires
        0 <= share,
        (share * 8) % 12 == 0,
        count == (share * 8) / 12,
    ensures
        (count * 12) % 8 == 0,
{
}

/// Reducing a vector whose coefficients already lie in `[0, q)` changes nothing.
pub proof fn lemma_reduce_vec_below(v: Seq<Seq<i64>>, q: int)
    requires
        q >= 1,
        all_polys_below(v, q),
    ensures
        reduce_vec_spec(v, q) == v,
{
    assert forall|i: int| 0 <= i < v.len() implies reduce_vec_spec(v, q)[i] == v[i] by {
        lemma_reduce_seq_below(v[i], q);
    }
    assert(reduce_vec_spec(v, q) =~= v);
}

/// Encoding a vector of polynomials of `n` coefficients below `2^w` and
/// decoding the result as that many polynomials gives the vector back,
/// when each polynomial fills a whole number of bytes.
pub proof fn lemma_decode_encode_vector(v: Seq<Seq<i64>>, w: nat, n: nat)
    requires
        v.len() >= 1,
        1 <= w <= 12,
        (n * w) % 8 == 0,
        forall|i: int| 0 <= i < v.len() ==> (#[trigger] v[i]).len() == n,
        all_polys_below(v, pow2(w) as int),
    ensures
        encode_vector_spec(v, w).len() == v.len() * ((n * w) / 8),
        decode_vector_spec(encode_vector_spec(v, w), v.len(), w) == v,
{
    let share = ((n * w) / 8) as int;
    let k = v.len() as int;
    let bytes = encode_vector_spec(v, w);
    assert forall|j: int| 0 <= j < v.len() implies (#[trigger] encode_spec(v[j], w)).len()
        == share by {
        assert(v[j].len() == n);
    }
    lemma_encode_vector_chunk(v, w, share, 0);
    assert(bytes.len() == share * k + 0) by (nonlinear_arith)
        requires
            bytes.len() == k * share,
    ;
    lemma_fundamental_div_mod_converse(bytes.len() as int, k, share, 0);
    let dec = decode_vector_spec(bytes, v.len(), w);
    assert forall|i: int| 0 <= i < v.len() implies dec[i] == v[i] by {
        lemma_encode_vector_chunk(v, w, share, i);
        assert(v[i].len() == n);
        assert(all_below(v[i], pow2(w) as int));
        lemma_decode_encode(v[i], w);
    }
    assert(dec =~= v);
}

} // verus!
