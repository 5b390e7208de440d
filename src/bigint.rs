//! Arbitrary-precision signed integers.
use crate::magnitude::{
    be_val, canonical, lemma_reversed_val, lemma_val_push, lemma_val_suffix, reverse, reversed, lemma_val_zero, mag_add, mag_divmod, mag_mul, mag_sub, normalize,
    pow256, val,
};
use vstd::arithmetic::div_mod::{lemma_mul_mod_noop, lemma_mul_mod_noop_general};
use vstd::arithmetic::power::{lemma_pow1, lemma_pow_adds, lemma_pow_mod_noop, pow};
use vstd::arithmetic::power2::{lemma2_to64, lemma_pow2_unfold, pow2};
use vstd::prelude::*;

verus! {

/// Floored quotient: rounds toward negative infinity.
pub open spec fn fdiv(x: int, m: int) -> int {
    if m > 0 {
        x / m
    } else {
        (-x) / (-m)
    }
}

/// Remainder of the floored quotient; it takes the sign of `m`.
pub open spec fn fmod(x: int, m: int) -> int {
    x - m * fdiv(x, m)
}

/// Absolute value.
pub open spec fn abs(x: int) -> nat {
    if x < 0 {
        (-x) as nat
    } else {
        x as nat
    }
}

/// The floored remainder is the ordinary remainder for a positive modulus.
pub proof fn lemma_fmod_pos(x: int, m: int)
    requires
        m > 0,
    ensures
        fmod(x, m) == x % m,
        0 <= fmod(x, m) < m,
{
    vstd::arithmetic::div_mod::lemma_fundamental_div_mod(x, m);
}

/// Three-way comparison of two integers: -1, 0 or 1.
pub open spec fn cmp_spec(a: int, b: int) -> i32 {
    if a < b {
        -1i32
    } else if a == b {
        0i32
    } else {
        1i32
    }
}

/// Greatest common divisor, by Euclid's recursion.
pub open spec fn gcd(a: nat, b: nat) -> nat
    decreases b,
{
    if b == 0 {
        a
    } else {
        gcd(b, a % b)
    }
}

proof fn lemma_pow_split(b: int, e: nat)
    ensures
        pow(b, e) == pow(b, e % 2) * pow(b * b, e / 2),
{
    vstd::arithmetic::power::lemma_pow_multiplies(b, 2, e / 2);
    vstd::arithmetic::power::lemma_square_is_pow2(b);
    lemma_pow_adds(b, 2 * (e / 2), e % 2);
    assert(e == 2 * (e / 2) + e % 2);
    assert(pow(b, 2) == b * b);
}

pub proof fn lemma_square_step(b: int, ex: nat, m: int)
    requires
        m > 0,
    ensures
        ((pow(b, ex) % m) * (pow(b, ex) % m)) % m == pow(b, 2 * ex) % m,
{
    lemma_pow_adds(b, ex, ex);
    lemma_mul_mod_noop(pow(b, ex), pow(b, ex), m);
}

proof fn lemma_mul_step(b: int, ex: nat, m: int)
    requires
        m > 0,
    ensures
        ((pow(b, ex) % m) * b) % m == pow(b, ex + 1) % m,
{
    lemma_pow_adds(b, ex, 1);
    lemma_pow1(b);
    lemma_mul_mod_noop_general(pow(b, ex), b, m);
}

/// An arbitrary-precision signed integer: a sign and a canonical magnitude.
pub struct BigInt {
    neg: bool,
    mag: Vec<u8>,
}

impl View for BigInt {
    type V = int;

    closed spec fn view(&self) -> int {
        if self.neg {
            -(val(self.mag@) as int)
        } else {
            val(self.mag@) as int
        }
    }
}

/// The magnitude of `u`, limb by limb.
fn mag_of_u64(u: u64) -> (r: Vec<u8>)
    ensures
        val(r@) == u as nat,
        canonical(r@),
{
    let mut r: Vec<u8> = Vec::new();
    let mut m: u64 = u;
    assert(r@ =~= Seq::<u8>::empty());
    assert(val(r@) == 0);
    assert(pow256(0) == 1);
    while m > 0
        invariant
            val(r@) + pow256(r@.len()) * m as nat == u as nat,
        decreases m,
    {
        let d: u8 = (m % 256) as u8;
        proof {
            lemma_val_push(r@, d);
            let p = pow256(r@.len());
            assert(pow256(r@.len() + 1) == 256 * p);
            assert(p * m as nat == d as nat * p + (256 * p) * (m / 256) as nat) by (nonlinear_arith)
                requires d as nat == m % 256, m >= 0;
        }
        r.push(d);
        m = m / 256;
    }
    normalize(&mut r);
    r
}

impl BigInt {
    #[verifier::type_invariant]
    closed spec fn wf(&self) -> bool {
        canonical(self.mag@) && (self.mag@.len() == 0 ==> !self.neg)
    }

    /// Builds a value from a sign and a canonical magnitude; a zero magnitude is never negative.
    fn from_parts(neg: bool, mag: Vec<u8>) -> (r: BigInt)
        requires
            canonical(mag@),
        ensures
            r@ == (if neg {
                -(val(mag@) as int)
            } else {
                val(mag@) as int
            }),
    {
        if mag.len() == 0 {
            BigInt { neg: false, mag }
        } else {
            BigInt { neg, mag }
        }
    }

    /// The value zero.
    pub fn new() -> (r: BigInt)
        ensures
            r@ == 0,
    {
        BigInt { neg: false, mag: Vec::new() }
    }

    /// The value of a native signed integer.
    pub fn new_int(i: isize) -> (r: BigInt)
        ensures
            r@ == i as int,
    {
        if i < 0 {
            let u: u64 = (-(i as i128)) as u64;
            BigInt::from_parts(true, mag_of_u64(u))
        } else {
            BigInt::from_parts(false, mag_of_u64(i as u64))
        }
    }

    /// The value of a native unsigned integer.
    pub fn from_u64(u: u64) -> (r: BigInt)
        ensures
            r@ == u as int,
    {
        BigInt::from_parts(false, mag_of_u64(u))
    }

    /// An independent copy of `x`.
    pub fn new_copy(x: &BigInt) -> (r: BigInt)
        ensures
            r@ == x@,
    {
        proof {
            use_type_invariant(x);
        }
        let mut m: Vec<u8> = Vec::new();
        let mut i: usize = 0;
        while i < x.mag.len()
            invariant
                i <= x.mag@.len(),
                m@ == x.mag@.take(i as int),
            decreases x.mag@.len() - i,
        {
            m.push(x.mag[i]);
            i = i + 1;
            assert(m@ =~= x.mag@.take(i as int));
        }
        assert(m@ =~= x.mag@);
        BigInt { neg: x.neg, mag: m }
    }

    /// Three-way comparison: -1, 0 or 1 as `self` is less than, equal to or greater than `y`.
    pub fn cmp(&self, y: &BigInt) -> (r: i32)
        ensures
            r == cmp_spec(self@, y@),
    {
        proof {
            use_type_invariant(self);
            use_type_invariant(y);
            lemma_val_zero(self.mag@);
            lemma_val_zero(y.mag@);
        }
        if self.neg != y.neg {
            if self.neg {
                -1
            } else {
                1
            }
        } else {
            let lt = mag_sub(&self.mag, &y.mag).1;
            let gt = mag_sub(&y.mag, &self.mag).1;
            let c: i32 = if lt {
                -1
            } else if gt {
                1
            } else {
                0
            };
            if self.neg {
                -c
            } else {
                c
            }
        }
    }

    /// Value equality.
    pub fn equals(&self, y: &BigInt) -> (r: bool)
        ensures
            r == (self@ == y@),
    {
        self.cmp(y) == 0
    }

    /// Assigns the value of `y` to `self`.
    pub fn set(&mut self, y: &BigInt)
        ensures
            final(self)@ == y@,
    {
        *self = BigInt::new_copy(y);
    }

    /// The value with the sign flipped.
    pub fn negate(&self) -> (r: BigInt)
        ensures
            r@ == -self@,
    {
        proof {
            use_type_invariant(self);
        }
        let c = BigInt::new_copy(self);
        proof {
            use_type_invariant(&c);
        }
        BigInt::from_parts(!c.neg, c.mag)
    }

    /// The sum `self + y`.
    pub fn add(&self, y: &BigInt) -> (r: BigInt)
        ensures
            r@ == self@ + y@,
    {
        proof {
            use_type_invariant(self);
            use_type_invariant(y);
        }
        if self.neg == y.neg {
            BigInt::from_parts(self.neg, mag_add(&self.mag, &y.mag))
        } else {
            let (d, lt) = mag_sub(&self.mag, &y.mag);
            if !lt {
                BigInt::from_parts(self.neg, d)
            } else {
                let (e, _) = mag_sub(&y.mag, &self.mag);
                BigInt::from_parts(y.neg, e)
            }
        }
    }

    /// The difference `self - y`.
    pub fn sub(&self, y: &BigInt) -> (r: BigInt)
        ensures
            r@ == self@ - y@,
    {
        self.add(&y.negate())
    }

    /// The sum `self + k`.
    pub fn inc(&self, k: u64) -> (r: BigInt)
        ensures
            r@ == self@ + k as int,
    {
        self.add(&BigInt::from_u64(k))
    }

    /// The difference `self - k`.
    pub fn dec(&self, k: u64) -> (r: BigInt)
        ensures
            r@ == self@ - k as int,
    {
        self.sub(&BigInt::from_u64(k))
    }

    /// The product `self * y`.
    pub fn mul(&self, y: &BigInt) -> (r: BigInt)
        ensures
            r@ == self@ * y@,
    {
        proof {
            use_type_invariant(self);
            use_type_invariant(y);
        }
        let m = mag_mul(&self.mag, &y.mag);
        let r = BigInt::from_parts(self.neg != y.neg, m);
        proof {
            let a = val(self.mag@) as int;
            let b = val(y.mag@) as int;
            assert((-a) * (-b) == a * b) by (nonlinear_arith);
            assert((-a) * b == -(a * b)) by (nonlinear_arith);
            assert(a * (-b) == -(a * b)) by (nonlinear_arith);
        }
        r
    }

    /// The product `self * i`.
    pub fn imul(&self, i: isize) -> (r: BigInt)
        ensures
            r@ == self@ * i as int,
    {
        self.mul(&BigInt::new_int(i))
    }

    /// Floored quotient `self / y`.
    pub fn div(&self, y: &BigInt) -> (r: BigInt)
        requires
            y@ != 0,
        ensures
            r@ == fdiv(self@, y@),
    {
        proof {
            use_type_invariant(self);
            use_type_invariant(y);
            lemma_val_zero(y.mag@);
        }
        let (q, rem) = mag_divmod(&self.mag, &y.mag);
        let ghost a = val(self.mag@) as int;
        let ghost b = val(y.mag@) as int;
        let ghost qv = val(q@) as int;
        let ghost rv = val(rem@) as int;
        proof {
            lemma_val_zero(rem@);
        }
        let qb = BigInt::from_parts(false, q);
        if self.neg == y.neg {
            proof {
                vstd::arithmetic::div_mod::lemma_fundamental_div_mod_converse(a, b, qv, rv);
            }
            qb
        } else if rem.len() == 0 {
            proof {
                assert(-a == (-qv) * b + 0) by (nonlinear_arith)
                    requires a == qv * b + rv, rv == 0;
                vstd::arithmetic::div_mod::lemma_fundamental_div_mod_converse(-a, b, -qv, 0);
            }
            qb.negate()
        } else {
            proof {
                assert(-a == (-qv - 1) * b + (b - rv)) by (nonlinear_arith)
                    requires a == qv * b + rv;
                vstd::arithmetic::div_mod::lemma_fundamental_div_mod_converse(
                    -a,
                    b,
                    -qv - 1,
                    b - rv,
                );
            }
            qb.inc(1).negate()
        }
    }

    /// Floored remainder `self mod m`: zero or of the sign of `m`; for positive
    /// `m` it lies in `[0, m)`.
    pub fn rmod(&self, m: &BigInt) -> (r: BigInt)
        requires
            m@ != 0,
        ensures
            r@ == fmod(self@, m@),
            m@ > 0 ==> r@ == self@ % m@,
            m@ > 0 ==> 0 <= r@ < m@,
    {
        let q = self.div(m);
        let r = self.sub(&m.mul(&q));
        proof {
            if m@ > 0 {
                lemma_fmod_pos(self@, m@);
            }
        }
        r
    }

    /// The fused modular product `(self * y) mod m`.
    pub fn mul_mod(&self, y: &BigInt, m: &BigInt) -> (r: BigInt)
        requires
            m@ != 0,
        ensures
            r@ == fmod(self@ * y@, m@),
            m@ > 0 ==> r@ == (self@ * y@) % m@,
    {
        self.mul(y).rmod(m)
    }

    /// Whether the value is even.
    pub fn is_even(&self) -> (r: bool)
        ensures
            r == (self@ % 2 == 0),
    {
        proof {
            use_type_invariant(self);
        }
        if self.mag.len() == 0 {
            true
        } else {
            let low = self.mag[0];
            proof {
                let rest = val(self.mag@.drop_first()) as int;
                let v = val(self.mag@) as int;
                assert(v == low as int + 256 * rest);
                assert((v % 2 == 0) == (low % 2 == 0));
                assert(((-v) % 2 == 0) == (v % 2 == 0));
            }
            low % 2 == 0
        }
    }

    /// The magnitude as big-endian bytes, without leading zero bytes; zero gives no bytes.
    pub fn to_bytes(&self) -> (r: Vec<u8>)
        ensures
            be_val(r@) == abs(self@),
            r@.len() == 0 || r@[0] != 0,
            (r@.len() == 0) == (self@ == 0),
    {
        proof {
            use_type_invariant(self);
            lemma_val_zero(self.mag@);
        }
        let r = reverse(self.mag.as_slice());
        proof {
            lemma_reversed_val(r@, self.mag@);
        }
        r
    }

    /// The non-negative value of big-endian `bytes`.
    pub fn from_bytes(bytes: &mut [u8]) -> (r: BigInt)
        ensures
            r@ == be_val(old(bytes)@) as int,
            final(bytes)@ == old(bytes)@,
    {
        let mut le = reverse(bytes);
        proof {
            assert(reversed(bytes@, le@));
            lemma_reversed_val(bytes@, le@);
        }
        normalize(&mut le);
        BigInt::from_parts(false, le)
    }

    /// Whether the value is zero.
    pub fn is_zero(&self) -> (r: bool)
        ensures
            r == (self@ == 0),
    {
        proof {
            use_type_invariant(self);
            lemma_val_zero(self.mag@);
        }
        self.mag.len() == 0
    }

    /// The absolute value.
    pub fn abs_value(&self) -> (r: BigInt)
        ensures
            r@ == abs(self@),
    {
        if self.cmp(&BigInt::new()) < 0 {
            self.negate()
        } else {
            BigInt::new_copy(self)
        }
    }

    /// `self` raised to the native exponent `y`.
    pub fn pow(&self, y: u64) -> (r: BigInt)
        ensures
            r@ == pow(self@, y as nat),
    {
        let mut acc = BigInt::new_int(1);
        let mut base = BigInt::new_copy(self);
        let mut e: u64 = y;
        proof {
            vstd::arithmetic::power::lemma_pow0(self@);
        }
        while e > 0
            invariant
                acc@ * pow(base@, e as nat) == pow(self@, y as nat),
            decreases e,
        {
            proof {
                lemma_pow_split(base@, e as nat);
                vstd::arithmetic::power::lemma_pow0(base@);
                lemma_pow1(base@);
                let rest = pow(base@ * base@, (e / 2) as nat);
                assert(acc@ * (pow(base@, (e % 2) as nat) * rest) == (acc@ * pow(
                    base@,
                    (e % 2) as nat,
                )) * rest) by (nonlinear_arith);
            }
            if e % 2 == 1 {
                acc = acc.mul(&base);
            }
            base = base.mul(&base);
            e = e / 2;
        }
        proof {
            vstd::arithmetic::power::lemma_pow0(base@);
        }
        acc
    }

    /// Modular exponentiation `self^e mod m`, in `[0, m)`.
    pub fn pow_mod(&self, e: &BigInt, m: &BigInt) -> (r: BigInt)
        requires
            e@ >= 0,
            m@ > 0,
        ensures
            r@ == pow(self@, e@ as nat) % m@,
            0 <= r@ < m@,
    {
        proof {
            use_type_invariant(e);
        }
        let base = self.rmod(m);
        let ghost b = base@;
        let ghost mv = m@;
        let mut acc = BigInt::new_int(1).rmod(m);
        let ghost mut ex: nat = 0;
        let n = e.mag.len();
        let mut i: usize = n;
        proof {
            vstd::arithmetic::power::lemma_pow0(b);
            assert(e.mag@.subrange(n as int, n as int) =~= Seq::<u8>::empty());
            assert(val(Seq::<u8>::empty()) == 0);
            lemma2_to64();
        }
        while i > 0
            invariant
                i <= n,
                n == e.mag@.len(),
                mv == m@,
                mv > 0,
                b == base@,
                ex == val(e.mag@.subrange(i as int, n as int)),
                acc@ == pow(b, ex) % mv,
                pow2(8) == 256,
            decreases i,
        {
            i = i - 1;
            let limb: u32 = e.mag[i] as u32;
            let ghost ex0 = ex;
            let mut s: u32 = 8;
            proof {
                assert(limb >> 8u32 == 0) by (bit_vector)
                    requires limb < 256;
                lemma2_to64();
                assert((limb >> s) as nat == 0);
                assert(pow2((8 - s) as nat) == 1);
                assert(ex0 * pow2((8 - s) as nat) == ex0);
            }
            while s > 0
                invariant
                    s <= 8,
                    limb < 256,
                    mv == m@,
                    mv > 0,
                    b == base@,
                    ex == ex0 * pow2((8 - s) as nat) + (limb >> s) as nat,
                    acc@ == pow(b, ex) % mv,
                    pow2(8) == 256,
                decreases s,
            {
                s = s - 1;
                let bit: u32 = (limb >> s) & 1;
                proof {
                    assert(ex == ex0 * pow2((7 - s) as nat) + (limb >> (s + 1) as u32) as nat);
                    assert(((limb >> s) & 1) <= 1) by (bit_vector);
                    assert(limb >> s == 2 * (limb >> (s + 1) as u32) + ((limb >> s) & 1))
                        by (bit_vector)
                        requires s < 8;
                    lemma_pow2_unfold((8 - s) as nat);
                    lemma_square_step(b, ex, mv);
                    assert(ex0 * pow2((8 - s) as nat) == 2 * (ex0 * pow2((7 - s) as nat)))
                        by (nonlinear_arith)
                        requires pow2((8 - s) as nat) == 2 * pow2((7 - s) as nat);
                }
                acc = acc.mul_mod(&acc, m);
                proof {
                    ex = 2 * ex;
                }
                if bit == 1 {
                    proof {
                        lemma_mul_step(b, ex, mv);
                    }
                    acc = acc.mul_mod(&base, m);
                    proof {
                        ex = ex + 1;
                    }
                }
            }
            proof {
                lemma_val_suffix(e.mag@, i as int);
                assert(limb >> 0u32 == limb) by (bit_vector);
                assert(ex0 * pow2(8) == ex0 * 256);
                assert(ex == ex0 * 256 + limb);
            }
        }
        proof {
            assert(e.mag@.subrange(0, n as int) =~= e.mag@);
            lemma_pow_mod_noop(self@, ex, mv);
        }
        acc
    }

    /// Whether `gcd(|self|, |i|) == 1`.
    pub fn coprime(&self, i: isize) -> (r: bool)
        ensures
            r == (gcd(abs(self@), abs(i as int)) == 1),
    {
        let mut x = self.abs_value();
        let mut y = BigInt::new_int(i).abs_value();
        while !y.is_zero()
            invariant
                x@ >= 0,
                y@ >= 0,
                gcd(x@ as nat, y@ as nat) == gcd(abs(self@), abs(i as int)),
            decreases y@,
        {
            let t = x.rmod(&y);
            x = y;
            y = t;
        }
        x.equals(&BigInt::new_int(1))
    }

    /// The modular inverse of `self` modulo `m`, in `[0, m)`; `None` when
    /// `self mod m` and `m` share a factor greater than one.
    pub fn inv_mod(&self, m: &BigInt) -> (r: Option<BigInt>)
        requires
            m@ > 0,
        ensures
            r.is_some() == (gcd((self@ % m@) as nat, m@ as nat) == 1),
            r matches Some(x) ==> 0 <= x@ < m@ && (self@ * x@) % m@ == 1int % m@,
    {
        let ghost mv = m@;
        let ghost a = self@ % mv;
        let mut r0 = BigInt::new_copy(m);
        let mut r1 = self.rmod(m);
        let mut s0 = BigInt::new();
        let mut s1 = BigInt::new_int(1);
        let ghost mut t0: int = 1;
        let ghost mut t1: int = 0;
        proof {
            assert(a % mv == a) by {
                vstd::arithmetic::div_mod::lemma_mod_twice(self@, mv);
            }
        }
        while !r1.is_zero()
            invariant
                mv == m@,
                mv > 0,
                r0@ >= 0,
                r1@ >= 0,
                r0@ == s0@ * a + t0 * mv,
                r1@ == s1@ * a + t1 * mv,
                gcd(r0@ as nat, r1@ as nat) == gcd(a as nat, mv as nat),
            decreases r1@,
        {
            let q = r0.div(&r1);
            let nr = r0.sub(&q.mul(&r1));
            let ns = s0.sub(&q.mul(&s1));
            proof {
                lemma_fmod_pos(r0@, r1@);
                assert(q@ * r1@ == r1@ * q@) by (nonlinear_arith);
                assert(nr@ == r0@ % r1@);
                assert(q@ * r1@ == q@ * (s1@ * a) + q@ * (t1 * mv)) by (nonlinear_arith)
                    requires r1@ == s1@ * a + t1 * mv;
                assert(q@ * (s1@ * a) == (q@ * s1@) * a) by (nonlinear_arith);
                assert(q@ * (t1 * mv) == (q@ * t1) * mv) by (nonlinear_arith);
                assert((s0@ - q@ * s1@) * a == s0@ * a - (q@ * s1@) * a) by (nonlinear_arith);
                assert((t0 - q@ * t1) * mv == t0 * mv - (q@ * t1) * mv) by (nonlinear_arith);
                let nt = t0 - q@ * t1;
                t0 = t1;
                t1 = nt;
            }
            r0 = r1;
            r1 = nr;
            s0 = s1;
            s1 = ns;
        }
        if r0.equals(&BigInt::new_int(1)) {
            let x = s0.rmod(m);
            proof {
                assert((a * s0@) % mv == 1int % mv) by {
                    assert(a * s0@ == 1 + (-t0) * mv) by (nonlinear_arith)
                        requires 1 == s0@ * a + t0 * mv;
                    vstd::arithmetic::div_mod::lemma_mod_multiples_vanish(-t0, 1, mv);
                }
                lemma_mul_mod_noop_general(s0@, a, mv);
                lemma_mul_mod_noop_general(self@, x@, mv);
                lemma_mul_mod_noop_general(x@, self@, mv);
                lemma_mul_mod_noop_general(s0@, self@, mv);
                assert(x@ * self@ == self@ * x@) by (nonlinear_arith);
                assert(s0@ * self@ == self@ * s0@) by (nonlinear_arith);
            }
            Some(x)
        } else {
            None
        }
    }

    /// The value of a small non-negative integer as a byte.
    pub fn to_u8(&self) -> (r: u8)
        requires
            0 <= self@ < 256,
        ensures
            r as int == self@,
    {
        proof {
            use_type_invariant(self);
        }
        if self.mag.len() == 0 {
            0
        } else {
            proof {
                if self.mag@.len() >= 2 {
                    crate::magnitude::lemma_canonical_low(self.mag@);
                    crate::magnitude::lemma_pow256_pos((self.mag@.len() - 2) as nat);
                    assert(pow256((self.mag@.len() - 1) as nat) >= 256);
                }
                assert(self.mag@.drop_first() =~= Seq::<u8>::empty());
                assert(val(Seq::<u8>::empty()) == 0);
            }
            self.mag[0]
        }
    }
}

impl PartialEq for BigInt {
    fn eq(&self, other: &BigInt) -> (r: bool) {
        self.equals(other)
    }
}

impl vstd::std_specs::cmp::PartialEqSpecImpl for BigInt {
    open spec fn obeys_eq_spec() -> bool {
        true
    }

    open spec fn eq_spec(&self, other: &BigInt) -> bool {
        self@ == other@
    }
}

impl Clone for BigInt {
    fn clone(&self) -> (r: BigInt)
        ensures
            r@ == self@,
    {
        BigInt::new_copy(self)
    }
}

} // verus!
