//! Parameter sets and the error kinds of the scheme.

use vstd::prelude::*;
use vstd::arithmetic::power::pow;
use vstd::arithmetic::power2::is_pow2;

verus! {

/// Why an operation of the scheme refused its input.
#[derive(Debug, Clone, Copy, PartialEq, Eq, Structural)]
pub enum Error {
    /// A key, ciphertext or message has the wrong number of bytes.
    LengthMismatch,
    /// An encryption key holds a coefficient that is not below the modulus.
    NonCanonicalEncoding,
    /// The randomness at hand did not suffice: no generator was seeded, or
    /// a pseudorandom stream held too few values below the modulus.
    SamplingFailure,
    /// The seed for the random-bit generator is too short.
    SeedLengthError,
}

/// The greatest common divisor, by Euclid's algorithm.
pub open spec fn gcd_spec(a: nat, b: nat) -> nat
    decreases b,
{
    if b == 0 {
        a
    } else {
        gcd_spec(b, a % b)
    }
}

/// `q` has no divisor between 1 and itself.
pub open spec fn is_prime(q: int) -> bool {
    q >= 2 && forall|d: int| 2 <= d < q ==> #[trigger] (q % d) != 0
}

/// `omega` is a root of unity of order `n` modulo `q`, for `n` a power
/// of two: its power `n / 2` is `-1`.
pub open spec fn is_root_of_unity(omega: int, n: int, q: int) -> bool {
    pow(omega, (n / 2) as nat) % q == q - 1
}

/// The coefficients of `x^n + 1`, constant term first.
pub open spec fn reduction_poly(n: nat) -> Seq<i64> {
    Seq::new(n + 1, |i: int| if i == 0 || i == n { 1i64 } else { 0i64 })
}

/// The conditions on the numbers of a parameter set that the operations rely on.
pub open spec fn valid_numbers(
    n: int,
    q: int,
    k: int,
    eta_1: int,
    eta_2: int,
    du: int,
    dv: int,
    omega: int,
) -> bool {
    &&& is_pow2(n)
    &&& 8 <= n <= 4096
    &&& 2 <= q <= 4096
    &&& 1 <= k <= 127
    &&& 1 <= eta_1 <= 16
    &&& 1 <= eta_2 <= 16
    &&& 1 <= du <= 12
    &&& 1 <= dv <= 12
    &&& 1 <= omega < q
    &&& gcd_spec(omega as nat, q as nat) == 1
    &&& gcd_spec(n as nat, q as nat) == 1
}

/// A parameter set of the scheme.
#[derive(Clone, Debug)]
pub struct Parameters {
    /// Number of coefficients of a polynomial.
    pub n: usize,
    /// Modulus of the coefficients.
    pub q: i64,
    /// Rank of the module: polynomials per vector.
    pub k: usize,
    /// Noise parameter of the secret and of the first encryption noise.
    pub eta_1: usize,
    /// Noise parameter of the remaining encryption noise.
    pub eta_2: usize,
    /// Bits per coefficient of the compressed ciphertext vector.
    pub du: usize,
    /// Bits per coefficient of the compressed ciphertext polynomial.
    pub dv: usize,
    /// Root of unity of order `n` modulo `q`. The transform and its
    /// inverse use it; products of transformed polynomials do not.
    pub omega: i64,
    /// Reduction polynomial `x^n + 1`, constant term first. Addition and
    /// subtraction of polynomials are taken under it. Products are not:
    /// transformed polynomials are multiplied coefficient by coefficient,
    /// which is multiplication modulo `x^n - 1`.
    pub f: Vec<i64>,
}

impl Parameters {
    /// The parameter set is one that the operations accept.
    pub open spec fn wf(&self) -> bool {
        &&& valid_numbers(
            self.n as int,
            self.q as int,
            self.k as int,
            self.eta_1 as int,
            self.eta_2 as int,
            self.du as int,
            self.dv as int,
            self.omega as int,
        )
        &&& self.f@ == reduction_poly(self.n as nat)
    }

    /// Bytes of an encoded polynomial at `w` bits per coefficient.
    pub open spec fn poly_bytes(&self, w: nat) -> nat {
        (self.n as nat * w) / 8
    }

    /// Bytes of an encryption key: the encoded vector and a 32-byte seed.
    pub open spec fn ek_len(&self) -> nat {
        self.k as nat * self.poly_bytes(12) + 32
    }

    /// Bytes of a decryption key.
    pub open spec fn dk_len(&self) -> nat {
        self.k as nat * self.poly_bytes(12)
    }

    /// Bytes of a ciphertext: the compressed vector, then the compressed polynomial.
    pub open spec fn ciphertext_len(&self) -> nat {
        self.k as nat * self.poly_bytes(self.du as nat) + self.poly_bytes(self.dv as nat)
    }

    /// Bytes of a message: one bit per coefficient.
    pub open spec fn message_len(&self) -> nat {
        self.poly_bytes(1)
    }
}

/// The greatest common divisor of two nonnegative numbers.
pub fn gcd(a: i64, b: i64) -> (g: i64)
    requires
        a >= 0,
        b >= 0,
    ensures
        g == gcd_spec(a as nat, b as nat),
{
    let mut x: i64 = a;
    let mut y: i64 = b;
    while y != 0
        invariant
            x >= 0,
            y >= 0,
            gcd_spec(x as nat, y as nat) == gcd_spec(a as nat, b as nat),
        decreases y,
    {
        let r: i64 = x % y;
        x = y;
        y = r;
    }
    x
}

/// Whether `n` is a power of two.
pub fn is_power_of_two(n: usize) -> (b: bool)
    ensures
        b == is_pow2(n as int),
{
    if n == 0 {
        assert(!is_pow2(0)) by {
            reveal_with_fuel(is_pow2, 2);
        }
        return false;
    }
    let mut m: usize = n;
    while m % 2 == 0
        invariant
            m >= 1,
            is_pow2(m as int) == is_pow2(n as int),
        decreases m,
    {
        assert(is_pow2(m as int) == is_pow2((m / 2) as int)) by {
            reveal_with_fuel(is_pow2, 2);
        }
        m = m / 2;
    }
    assert(is_pow2(m as int) == (m == 1)) by {
        reveal_with_fuel(is_pow2, 2);
    }
    m == 1
}

/// Whether `q` is prime, by trial division.
pub fn check_prime(q: i64) -> (b: bool)
    ensures
        b == is_prime(q as int),
{
    if q < 2 {
        return false;
    }
    let mut d: i64 = 2;
    while d < q
        invariant
            2 <= d <= q,
            forall|e: int| 2 <= e < d ==> #[trigger] ((q as int) % e) != 0,
        decreases q - d,
    {
        if q % d == 0 {
            return false;
        }
        d = d + 1;
    }
    true
}

/// Whether the power `n / 2` of `omega` is `-1` modulo `q`.
pub fn check_root_of_unity(omega: i64, n: usize, q: i64) -> (b: bool)
    requires
        2 <= q <= 4096,
        0 <= omega < q,
    ensures
        b == is_root_of_unity(omega as int, n as int, q as int),
{
    let half: usize = n / 2;
    let mut acc: i64 = 1;
    let mut i: usize = 0;
    proof {
        reveal(pow);
        vstd::arithmetic::div_mod::lemma_small_mod(1, q as nat);
    }
    while i < half
        invariant
            2 <= q <= 4096,
            0 <= omega < q,
            i <= half,
            0 <= acc < q,
            acc == pow(omega as int, i as nat) % (q as int),
        decreases half - i,
    {
        proof {
            reveal(pow);
            assert(pow(omega as int, (i + 1) as nat) == omega * pow(omega as int, i as nat));
            vstd::arithmetic::div_mod::lemma_mul_mod_noop_right(
                omega as int,
                pow(omega as int, i as nat),
                q as int,
            );
            assert(0 <= omega * acc <= 4096 * 4096) by (nonlinear_arith)
                requires
                    0 <= omega < 4096,
                    0 <= acc < 4096,
            ;
        }
        acc = (omega * acc) % q;
        i = i + 1;
    }
    acc == q - 1
}

/// The coefficients of `x^n + 1`.
pub fn build_reduction_poly(n: usize) -> (f: Vec<i64>)
    requires
        1 <= n < usize::MAX,
    ensures
        f@ == reduction_poly(n as nat),
{
    let mut f: Vec<i64> = Vec::new();
    f.push(1);
    let mut i: usize = 1;
    while i < n
        invariant
            1 <= i <= n,
            f.len() == i,
            f[0] == 1,
            forall|t: int| 1 <= t < i ==> f[t] == 0,
        decreases n - i,
    {
        f.push(0);
        i = i + 1;
    }
    f.push(1);
    assert(f@ =~= reduction_poly(n as nat));
    f
}

/// Whether `f` holds the coefficients of `x^n + 1`.
pub fn is_reduction_poly(f: &Vec<i64>, n: usize) -> (b: bool)
    requires
        n < usize::MAX,
    ensures
        b == (f@ == reduction_poly(n as nat)),
{
    if f.len() != n + 1 {
        return false;
    }
    let mut i: usize = 0;
    while i <= n
        invariant
            f.len() == n + 1,
            i <= n + 1,
            forall|t: int| 0 <= t < i ==> f[t] == reduction_poly(n as nat)[t],
        decreases n + 1 - i,
    {
        let expected: i64 = if i == 0 || i == n {
            1
        } else {
            0
        };
        if f[i] != expected {
            assert(f@[i as int] != reduction_poly(n as nat)[i as int]);
            return false;
        }
        i = i + 1;
    }
    assert(f@ =~= reduction_poly(n as nat));
    true
}

impl Parameters {
    /// Whether the operations accept this parameter set.
    pub fn is_wf(&self) -> (b: bool)
        ensures
            b == self.wf(),
    {
        let ranges: bool = 8 <= self.n && self.n <= 4096 && 2 <= self.q && self.q <= 4096 && 1
            <= self.k && self.k <= 127 && 1 <= self.eta_1 && self.eta_1 <= 16 && 1 <= self.eta_2
            && self.eta_2 <= 16 && 1 <= self.du && self.du <= 12 && 1 <= self.dv && self.dv <= 12
            && 1 <= self.omega && self.omega < self.q;
        if !ranges {
            return false;
        }
        is_power_of_two(self.n) && gcd(self.omega, self.q) == 1 && gcd(self.n as i64, self.q) == 1
            && is_reduction_poly(&self.f, self.n)
    }

    /// A parameter set from its numbers, with `x^n + 1` for the reduction
    /// polynomial. The numbers are accepted when `n` is a power of two from
    /// 8 to 4096, `q` is a prime of at most twelve bits, `k` is from 1 to
    /// 127, the noise parameters are from 1 to 16, the compression widths
    /// from 1 to 12, and `omega` is a root of unity of order `n` modulo `q`.
    pub fn new(
        n: usize,
        q: i64,
        k: usize,
        eta_1: usize,
        eta_2: usize,
        du: usize,
        dv: usize,
        omega: i64,
    ) -> (r: Option<Parameters>)
        ensures
            r is Some <==> (valid_numbers(
                n as int,
                q as int,
                k as int,
                eta_1 as int,
                eta_2 as int,
                du as int,
                dv as int,
                omega as int,
            ) && is_prime(q as int) && is_root_of_unity(omega as int, n as int, q as int)),
            r matches Some(p) ==> p.wf() && p.n == n && p.q == q && p.k == k && p.eta_1 == eta_1
                && p.eta_2 == eta_2 && p.du == du && p.dv == dv && p.omega == omega,
    {
        let ranges: bool = 8 <= n && n <= 4096 && 2 <= q && q <= 4096 && 1 <= k && k <= 127 && 1
            <= eta_1 && eta_1 <= 16 && 1 <= eta_2 && eta_2 <= 16 && 1 <= du && du <= 12 && 1 <= dv
            && dv <= 12 && 1 <= omega && omega < q;
        if !ranges {
            return None;
        }
        if !is_power_of_two(n) || !check_prime(q) {
            return None;
        }
        if gcd(omega, q) != 1 || gcd(n as i64, q) != 1 {
            return None;
        }
        if !check_root_of_unity(omega, n, q) {
            return None;
        }
        let f: Vec<i64> = build_reduction_poly(n);
        Some(Parameters { n, q, k, eta_1, eta_2, du, dv, omega, f })
    }

    /// The parameter set with 256 coefficients modulo 3329, transform root
    /// 17 and the given rank, noise parameters and compression widths.
    fn standard(k: usize, eta_1: usize, eta_2: usize, du: usize, dv: usize) -> (p: Parameters)
        requires
            1 <= k <= 127,
            1 <= eta_1 <= 16,
            1 <= eta_2 <= 16,
            1 <= du <= 12,
            1 <= dv <= 12,
        ensures
            p.wf(),
            p.n == 256,
            p.q == 3329,
            p.omega == 17,
            p.k == k,
            p.eta_1 == eta_1,
            p.eta_2 == eta_2,
            p.du == du,
            p.dv == dv,
    {
        proof {
            reveal_with_fuel(is_pow2, 10);
            assert(is_pow2(256));
            assert(gcd_spec(1, 0) == 1);
            assert(gcd_spec(2, 1) == gcd_spec(1, 2nat % 1));
            assert(gcd_spec(3, 2) == gcd_spec(2, 3nat % 2));
            assert(gcd_spec(14, 3) == gcd_spec(3, 14nat % 3));
            assert(gcd_spec(17, 14) == gcd_spec(14, 17nat % 14));
            assert(gcd_spec(3329, 17) == gcd_spec(17, 3329nat % 17));
            assert(gcd_spec(17, 3329) == gcd_spec(3329, 17nat % 3329));
            assert(gcd_spec(17, 3329) == 1);
            assert(gcd_spec(256, 1) == gcd_spec(1, 256nat % 1));
            assert(gcd_spec(3329, 256) == gcd_spec(256, 3329nat % 256));
            assert(gcd_spec(256, 3329) == gcd_spec(3329, 256nat % 3329));
            assert(gcd_spec(256, 3329) == 1);
        }
        let f: Vec<i64> = build_reduction_poly(256);
        Parameters { n: 256, q: 3329, k, eta_1, eta_2, du, dv, omega: 17, f }
    }

    /// The parameter set of security category 1: rank 2.
    pub fn ml_kem_512() -> (p: Parameters)
        ensures
            p.wf(),
            p.n == 256 && p.q == 3329 && p.omega == 17,
            p.k == 2 && p.eta_1 == 3 && p.eta_2 == 2 && p.du == 10 && p.dv == 4,
    {
        Parameters::standard(2, 3, 2, 10, 4)
    }

    /// The parameter set of security category 3: rank 3.
    pub fn ml_kem_768() -> (p: Parameters)
        ensures
            p.wf(),
            p.n == 256 && p.q == 3329 && p.omega == 17,
            p.k == 3 && p.eta_1 == 2 && p.eta_2 == 2 && p.du == 10 && p.dv == 4,
    {
        Parameters::standard(3, 2, 2, 10, 4)
    }

    /// The parameter set of security category 5: rank 4.
    pub fn ml_kem_1024() -> (p: Parameters)
        ensures
            p.wf(),
            p.n == 256 && p.q == 3329 && p.omega == 17,
            p.k == 4 && p.eta_1 == 2 && p.eta_2 == 2 && p.du == 11 && p.dv == 5,
    {
        Parameters::standard(4, 2, 2, 11, 5)
    }
}

impl Default for Parameters {
    /// The rank-2 parameter set.
    fn default() -> (p: Parameters)
        ensures
            p.wf(),
            p.n == 256 && p.q == 3329 && p.omega == 17,
            p.k == 2 && p.eta_1 == 3 && p.eta_2 == 2 && p.du == 10 && p.dv == 4,
    {
        Parameters::ml_kem_512()
    }
}

} // verus!
