//! Laws that relate the operations of `BigInt`, stated over the values
//! their contracts speak of.
use crate::bigint::{abs, cmp_spec, fmod, gcd};
use crate::magnitude::{be_val, lemma_be_val_bound, lemma_be_val_front, lemma_pow256_pos, pow256};
use crate::random::{byte_count, lead_byte, lemma_pow256_pow2, lemma_shl_pow2, random_value};
use vstd::arithmetic::power::pow;
use vstd::arithmetic::power2::{lemma2_to64, lemma_pow2_adds, pow2};
use vstd::prelude::*;

verus! {

/// Decoding the bytes that `to_bytes` gives for a non-negative value yields
/// that value again: `to_bytes` promises `be_val(b) == |v|` and `from_bytes`
/// returns `be_val(b)`.
pub proof fn lemma_bytes_round_trip(v: int, b: Seq<u8>)
    requires
        v >= 0,
        be_val(b) == abs(v),
    ensures
        be_val(b) as int == v,
{
}

/// The bytes of a value are unique: two big-endian sequences without a
/// leading zero byte that denote the same number are equal, so `to_bytes`
/// gives back exactly the canonical bytes that `from_bytes` read.
pub proof fn lemma_canonical_bytes_unique(b1: Seq<u8>, b2: Seq<u8>)
    requires
        b1.len() == 0 || b1[0] != 0,
        b2.len() == 0 || b2[0] != 0,
        be_val(b1) == be_val(b2),
    ensures
        b1 == b2,
    decreases b1.len() + b2.len(),
{
    if b1.len() != b2.len() {
        if b1.len() < b2.len() {
            lemma_shorter_is_smaller(b1, b2);
        } else {
            lemma_shorter_is_smaller(b2, b1);
        }
    } else if b1.len() > 0 {
        let v1 = be_val(b1.drop_last());
        let v2 = be_val(b2.drop_last());
        vstd::arithmetic::div_mod::lemma_fundamental_div_mod_converse(
            be_val(b1) as int,
            256,
            v1 as int,
            b1.last() as int,
        );
        vstd::arithmetic::div_mod::lemma_fundamental_div_mod_converse(
            be_val(b2) as int,
            256,
            v2 as int,
            b2.last() as int,
        );
        if b1.len() > 1 {
            assert(b1.drop_last()[0] == b1[0]);
            assert(b2.drop_last()[0] == b2[0]);
        }
        lemma_canonical_bytes_unique(b1.drop_last(), b2.drop_last());
        assert(b1 =~= b1.drop_last().push(b1.last()));
        assert(b2 =~= b2.drop_last().push(b2.last()));
    } else {
        assert(b1 =~= b2);
    }
}

proof fn lemma_pow256_mono(i: nat, j: nat)
    requires
        i <= j,
    ensures
        pow256(i) <= pow256(j),
    decreases j,
{
    if i < j {
        lemma_pow256_mono(i, (j - 1) as nat);
        lemma_pow256_pos((j - 1) as nat);
    }
}

proof fn lemma_shorter_is_smaller(s: Seq<u8>, t: Seq<u8>)
    requires
        s.len() < t.len(),
        t[0] != 0,
    ensures
        be_val(s) < be_val(t),
{
    lemma_be_val_bound(s);
    lemma_be_val_front(t);
    lemma_pow256_mono(s.len(), (t.len() - 1) as nat);
    let p = pow256((t.len() - 1) as nat);
    assert(t[0] as nat * p >= p) by (nonlinear_arith)
        requires t[0] as nat >= 1;
}

/// Reducing a non-negative `a` modulo `m` keeps its greatest common divisor
/// with `m`, so `inv_mod` succeeds exactly when `gcd(a, m) == 1`.
pub proof fn lemma_gcd_reduce(a: nat, m: nat)
    requires
        m > 0,
    ensures
        gcd(a % m, m) == gcd(a, m),
{
    vstd::arithmetic::div_mod::lemma_mod_twice(a as int, m as int);
    assert(gcd(a, m) == gcd(m, a % m));
    assert(gcd(a % m, m) == gcd(m, (a % m) % m));
}

/// Exactly one of `a < b`, `a == b`, `a > b` holds, `cmp` tells which, and
/// it is zero exactly when `equals` holds.
pub proof fn lemma_cmp_consistent(a: int, b: int)
    ensures
        (a < b) as int + (a == b) as int + (a > b) as int == 1,
        (cmp_spec(a, b) == 0) == (a == b),
        (cmp_spec(a, b) < 0) == (a < b),
        (cmp_spec(a, b) > 0) == (a > b),
        cmp_spec(a, b) == -cmp_spec(b, a),
{
}

/// Reduction distributes over a sum, and `mul_mod`'s floored remainder is
/// the ordinary remainder of the product for a positive modulus.
pub proof fn lemma_mod_laws(a: int, b: int, m: int)
    requires
        m > 0,
    ensures
        (a + b) % m == ((a % m) + (b % m)) % m,
        fmod(a * b, m) == (a * b) % m,
{
    vstd::arithmetic::div_mod::lemma_add_mod_noop(a, b, m);
    crate::bigint::lemma_fmod_pos(a * b, m);
}

/// An inverse that `inv_mod` returns for a modulus above one multiplies
/// `a` to one.
pub proof fn lemma_inverse(a: int, m: int, x: int)
    requires
        m > 1,
        gcd((a % m) as nat, m as nat) == 1,
        0 <= x < m,
        (a * x) % m == 1int % m,
    ensures
        (a * x) % m == 1,
{
    vstd::arithmetic::div_mod::lemma_small_mod(1, m as nat);
}

/// Modular exponentiation agrees with one more modular multiplication per
/// step of the exponent: `pow_mod(a, e + 1, m) == mul_mod(pow_mod(a, e, m), a, m)`.
pub proof fn lemma_pow_mod_step(a: int, e: nat, m: int)
    requires
        m > 0,
    ensures
        pow(a, e + 1) % m == fmod((pow(a, e) % m) * a, m),
        pow(a, 0) % m == 1int % m,
{
    vstd::arithmetic::power::lemma_pow_adds(a, e, 1);
    vstd::arithmetic::power::lemma_pow1(a);
    vstd::arithmetic::power::lemma_pow0(a);
    vstd::arithmetic::div_mod::lemma_mul_mod_noop_general(pow(a, e), a, m);
    crate::bigint::lemma_fmod_pos((pow(a, e) % m) * a, m);
}

proof fn lemma_be_val_constant(k: nat, b: u8)
    ensures
        be_val(Seq::new(k, |i: int| b)) * 255 == b as nat * (pow256(k) - 1),
    decreases k,
{
    let s = Seq::new(k, |i: int| b);
    if k > 0 {
        lemma_be_val_constant((k - 1) as nat, b);
        assert(s.drop_last() =~= Seq::new((k - 1) as nat, |i: int| b));
        let v = be_val(s.drop_last());
        let p = pow256((k - 1) as nat);
        lemma_pow256_pos((k - 1) as nat);
        assert(s.last() == b);
        assert(be_val(s) == v * 256 + b as nat);
        assert(pow256(k) == 256 * p);
        assert((v * 256 + b as nat) * 255 == b as nat * (256 * p - 1)) by (nonlinear_arith)
            requires v * 255 == b as nat * (p - 1), p >= 1;
    } else {
        assert(s =~= Seq::<u8>::empty());
        assert(be_val(s) == 0);
        assert(pow256(0) == 1);
        assert(b as nat * (1 - 1) == 0) by (nonlinear_arith);
    }
}

proof fn lemma_constant_value(bits: nat, b: u8, lead: u8)
    requires
        bits > 0,
        lead == lead_byte(b, bits),
        b == 0 || b == 0xff,
    ensures
        random_value(Seq::new(byte_count(bits), |i: int| b), bits) == lead as nat * pow2(
            (8 * (byte_count(bits) - 1)) as nat,
        ) + b as nat * (pow2((8 * (byte_count(bits) - 1)) as nat) - 1) / 255,
{
    let n = byte_count(bits);
    let s = Seq::new(n, |i: int| b);
    let t = s.update(0, lead);
    lemma_be_val_front(t);
    assert(t.drop_first() =~= Seq::new((n - 1) as nat, |i: int| b));
    lemma_be_val_constant((n - 1) as nat, b);
    lemma_pow256_pow2((n - 1) as nat);
    let p = pow256((n - 1) as nat);
    lemma_pow256_pos((n - 1) as nat);
    let r = be_val(t.drop_first());
    assert(r * 255 == b as nat * (p - 1));
    vstd::arithmetic::div_mod::lemma_div_multiples_vanish(r as int, 255);
    assert(r == b as nat * (p - 1) / 255) by (nonlinear_arith)
        requires r * 255 == b as nat * (p - 1), (255 * r) / 255 == r;
}

/// A source that only ever gives zero bytes yields `2^(bits - 1)`, the least
/// value of `bits` bits; one that only gives `0xff` yields `2^bits - 1`, the
/// largest.
pub proof fn lemma_constant_sources(bits: nat)
    requires
        bits > 0,
    ensures
        random_value(Seq::new(byte_count(bits), |i: int| 0u8), bits) == pow2((bits - 1) as nat),
        random_value(Seq::new(byte_count(bits), |i: int| 0xffu8), bits) == pow2(bits) - 1,
{
    let n = byte_count(bits);
    let k = (8 * (n - 1)) as nat;
    let lo = lead_byte(0, bits);
    let hi = lead_byte(0xff, bits);
    lemma_constant_value(bits, 0, lo);
    lemma_constant_value(bits, 0xff, hi);
    lemma2_to64();
    let t: nat = if bits % 8 != 0 {
        (bits % 8) as nat
    } else {
        8
    };
    assert(bits == k + t);
    if bits % 8 != 0 {
        let r = (bits % 8) as u32;
        let low = (r - 1) as u32;
        assert((((0u8 as u32) | (1u32 << low)) & (((1u32 << r) - 1) as u32)) == 1u32 << low)
            by (bit_vector)
            requires 1 <= r <= 7, low == r - 1;
        assert((((0xffu8 as u32) | (1u32 << low)) & (((1u32 << r) - 1) as u32)) == ((1u32
            << r) - 1) as u32) by (bit_vector)
            requires 1 <= r <= 7, low == r - 1;
        lemma_shl_pow2(r);
        lemma_shl_pow2(low);
        assert(lo as nat == pow2((t - 1) as nat));
        assert(hi as nat == pow2(t) - 1);
    } else {
        assert((0u8 | 0x80u8) == 0x80u8) by (bit_vector);
        assert((0xffu8 | 0x80u8) == 0xffu8) by (bit_vector);
        assert(lo as nat == pow2((t - 1) as nat));
        assert(hi as nat == pow2(t) - 1);
    }
    lemma_pow2_adds((t - 1) as nat, k);
    lemma_pow2_adds(t, k);
    assert((t - 1) as nat + k == (bits - 1) as nat);
    let pk = pow2(k);
    assert(0 * (pk - 1) / 255 == 0);
    assert(255 * (pk - 1) / 255 == pk - 1) by {
        vstd::arithmetic::div_mod::lemma_div_multiples_vanish((pk - 1) as int, 255);
    }
    assert((pow2(t) - 1) * pk + (pk - 1) == pow2(t) * pk - 1) by (nonlinear_arith)
        requires pk >= 1, pow2(t) >= 1;
    vstd::arithmetic::power2::lemma_pow2_pos(k);
    vstd::arithmetic::power2::lemma_pow2_pos(t);
}

} // verus!
