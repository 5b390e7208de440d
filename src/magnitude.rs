//! Unsigned magnitudes: little-endian vectors of base-256 limbs.
use vstd::prelude::*;

verus! {

/// 256 raised to `n`.
pub open spec fn pow256(n: nat) -> nat
    decreases n,
{
    if n == 0 {
        1
    } else {
        256 * pow256((n - 1) as nat)
    }
}

/// The number denoted by a little-endian sequence of base-256 limbs.
pub open spec fn val(s: Seq<u8>) -> nat
    decreases s.len(),
{
    if s.len() == 0 {
        0
    } else {
        s[0] as nat + 256 * val(s.drop_first())
    }
}

/// A magnitude is canonical when its most significant limb is not zero.
pub open spec fn canonical(s: Seq<u8>) -> bool {
    s.len() == 0 || s.last() != 0
}

pub proof fn lemma_pow256_pos(n: nat)
    ensures
        pow256(n) >= 1,
    decreases n,
{
    if n > 0 {
        lemma_pow256_pos((n - 1) as nat);
    }
}

pub proof fn lemma_val_push(s: Seq<u8>, x: u8)
    ensures
        val(s.push(x)) == val(s) + x as nat * pow256(s.len()),
    decreases s.len(),
{
    if s.len() == 0 {
        assert(s.push(x).drop_first() =~= Seq::<u8>::empty());
        assert(val(Seq::<u8>::empty()) == 0);
    } else {
        assert(s.push(x).drop_first() =~= s.drop_first().push(x));
        lemma_val_push(s.drop_first(), x);
        let a = val(s.drop_first());
        let p = pow256((s.len() - 1) as nat);
        assert(pow256(s.len()) == 256 * p);
        assert(s.push(x)[0] == s[0]);
        assert(val(s.push(x)) == s[0] as nat + 256 * val(s.drop_first().push(x)));
        assert(256 * (a + x as nat * p) == 256 * a + x as nat * (256 * p)) by (nonlinear_arith);
    }
}

pub proof fn lemma_val_take(s: Seq<u8>, i: int)
    requires
        0 <= i < s.len(),
    ensures
        val(s.take(i + 1)) == val(s.take(i)) + s[i] as nat * pow256(i as nat),
{
    assert(s.take(i + 1) =~= s.take(i).push(s[i]));
    lemma_val_push(s.take(i), s[i]);
}

pub proof fn lemma_val_bound(s: Seq<u8>)
    ensures
        val(s) < pow256(s.len()),
    decreases s.len(),
{
    if s.len() > 0 {
        lemma_val_bound(s.drop_first());
    }
}

pub proof fn lemma_val_drop_zero(s: Seq<u8>)
    requires
        s.len() > 0,
        s.last() == 0,
    ensures
        val(s) == val(s.drop_last()),
{
    assert(s =~= s.drop_last().push(0));
    lemma_val_push(s.drop_last(), 0);
}

/// A canonical non-empty magnitude reaches its top limb.
pub proof fn lemma_canonical_low(s: Seq<u8>)
    requires
        canonical(s),
        s.len() > 0,
    ensures
        val(s) >= pow256((s.len() - 1) as nat),
{
    assert(s =~= s.drop_last().push(s.last()));
    lemma_val_push(s.drop_last(), s.last());
    let p = pow256((s.len() - 1) as nat);
    assert(s.last() as nat * p >= p) by (nonlinear_arith)
        requires s.last() as nat >= 1, p >= 0;
}

pub proof fn lemma_val_zero(s: Seq<u8>)
    requires
        canonical(s),
    ensures
        (val(s) == 0) == (s.len() == 0),
{
    if s.len() > 0 {
        lemma_canonical_low(s);
        lemma_pow256_pos((s.len() - 1) as nat);
    }
}

/// Removes the zero limbs at the top.
pub fn normalize(v: &mut Vec<u8>)
    ensures
        val(final(v)@) == val(old(v)@),
        canonical(final(v)@),
        final(v)@.len() <= old(v)@.len(),
{
    while v.len() > 0 && v[v.len() - 1] == 0
        invariant
            val(v@) == val(old(v)@),
            v@.len() <= old(v)@.len(),
        decreases v.len(),
    {
        proof {
            lemma_val_drop_zero(v@);
        }
        v.pop();
    }
}

/// A copy of `a` extended with zero limbs to length `n`.
fn padded(a: &Vec<u8>, n: usize) -> (r: Vec<u8>)
    requires
        a@.len() <= n,
    ensures
        r@.len() == n,
        val(r@) == val(a@),
{
    let mut r = a.clone();
    while r.len() < n
        invariant
            r@.len() <= n,
            val(r@) == val(a@),
        decreases n - r.len(),
    {
        proof {
            lemma_val_push(r@, 0);
        }
        r.push(0);
    }
    r
}

fn max_len(a: &Vec<u8>, b: &Vec<u8>) -> (r: usize)
    ensures
        r >= a@.len(),
        r >= b@.len(),
        r == a@.len() || r == b@.len(),
{
    if a.len() >= b.len() {
        a.len()
    } else {
        b.len()
    }
}

/// Sum of two magnitudes.
pub fn mag_add(a: &Vec<u8>, b: &Vec<u8>) -> (r: Vec<u8>)
    ensures
        val(r@) == val(a@) + val(b@),
        canonical(r@),
{
    let n = max_len(a, b);
    let x = padded(a, n);
    let y = padded(b, n);
    let mut r: Vec<u8> = Vec::new();
    let mut carry: u16 = 0;
    let mut i: usize = 0;
    while i < n
        invariant
            x@.len() == n,
            y@.len() == n,
            i <= n,
            r@.len() == i,
            carry <= 1,
            val(r@) + carry as nat * pow256(i as nat) == val(x@.take(i as int)) + val(
                y@.take(i as int),
            ),
        decreases n - i,
    {
        let t: u16 = x[i] as u16 + y[i] as u16 + carry;
        let d: u8 = (t % 256) as u8;
        proof {
            lemma_val_take(x@, i as int);
            lemma_val_take(y@, i as int);
            lemma_val_push(r@, d);
            let p = pow256(i as nat);
            assert(pow256((i + 1) as nat) == 256 * p);
            assert((t % 256) as nat * p + (t / 256) as nat * (256 * p) == t as nat * p)
                by (nonlinear_arith)
                requires t >= 0;
            assert(t as nat * p == x[i as int] as nat * p + y[i as int] as nat * p + carry as nat
                * p) by (nonlinear_arith)
                requires t == x[i as int] as nat + y[i as int] as nat + carry as nat;
        }
        r.push(d);
        carry = t / 256;
        i = i + 1;
    }
    assert(x@.take(n as int) =~= x@);
    assert(y@.take(n as int) =~= y@);
    proof {
        lemma_val_push(r@, carry as u8);
    }
    r.push(carry as u8);
    normalize(&mut r);
    r
}

/// Difference of two magnitudes, with a flag that tells whether `a < b`;
/// the difference is meaningful when the flag is clear.
pub fn mag_sub(a: &Vec<u8>, b: &Vec<u8>) -> (r: (Vec<u8>, bool))
    ensures
        r.1 == (val(a@) < val(b@)),
        !r.1 ==> val(r.0@) == val(a@) - val(b@),
        canonical(r.0@),
{
    let n = max_len(a, b);
    let x = padded(a, n);
    let y = padded(b, n);
    let mut r: Vec<u8> = Vec::new();
    let mut borrow: i16 = 0;
    let mut i: usize = 0;
    while i < n
        invariant
            x@.len() == n,
            y@.len() == n,
            i <= n,
            r@.len() == i,
            0 <= borrow <= 1,
            val(r@) + val(y@.take(i as int)) == val(x@.take(i as int)) + borrow as int * pow256(
                i as nat,
            ),
        decreases n - i,
    {
        let t: i16 = x[i] as i16 - y[i] as i16 - borrow;
        let d: u8;
        let nb: i16;
        if t < 0 {
            d = (t + 256) as u8;
            nb = 1;
        } else {
            d = t as u8;
            nb = 0;
        }
        proof {
            lemma_val_take(x@, i as int);
            lemma_val_take(y@, i as int);
            lemma_val_push(r@, d);
            let p = pow256(i as nat);
            assert(pow256((i + 1) as nat) == 256 * p);
            assert(d as int == t + 256 * nb);
            assert((d as int + y[i as int] as int) * p == (x[i as int] as int - borrow) * p + nb
                * (256 * p)) by (nonlinear_arith)
                requires d as int + y[i as int] as int == x[i as int] as int - borrow + 256 * nb;
            assert((d as int + y[i as int] as int) * p == d as int * p + y[i as int] as int * p)
                by (nonlinear_arith);
            assert((x[i as int] as int - borrow) * p == x[i as int] as int * p - borrow * p)
                by (nonlinear_arith);
        }
        r.push(d);
        borrow = nb;
        i = i + 1;
    }
    assert(x@.take(n as int) =~= x@);
    assert(y@.take(n as int) =~= y@);
    proof {
        lemma_val_bound(r@);
        lemma_val_bound(x@);
        lemma_val_bound(y@);
    }
    normalize(&mut r);
    (r, borrow == 1)
}

/// `v` with one limb `x` put below its lowest: the value `x + 256 * val(v)`.
pub fn prepend(x: u8, v: &Vec<u8>) -> (r: Vec<u8>)
    ensures
        r@ == seq![x] + v@,
        val(r@) == x as nat + 256 * val(v@),
{
    let mut r: Vec<u8> = Vec::new();
    r.push(x);
    let mut i: usize = 0;
    while i < v.len()
        invariant
            i <= v@.len(),
            r@ == seq![x] + v@.take(i as int),
        decreases v@.len() - i,
    {
        r.push(v[i]);
        i = i + 1;
        assert(r@ =~= seq![x] + v@.take(i as int));
    }
    assert(v@.take(v@.len() as int) =~= v@);
    assert(r@.drop_first() =~= v@);
    r
}

/// Product of a magnitude and one limb.
pub fn mag_mul_small(a: &Vec<u8>, k: u8) -> (r: Vec<u8>)
    ensures
        val(r@) == val(a@) * k as nat,
        canonical(r@),
{
    let mut r: Vec<u8> = Vec::new();
    let mut carry: u32 = 0;
    let mut i: usize = 0;
    assert(a@.take(0) =~= Seq::<u8>::empty());
    assert(val(Seq::<u8>::empty()) == 0);
    while i < a.len()
        invariant
            i <= a@.len(),
            r@.len() == i,
            carry <= 255,
            val(r@) + carry as nat * pow256(i as nat) == val(a@.take(i as int)) * k as nat,
        decreases a@.len() - i,
    {
        let ai = a[i];
        assert(ai as u32 * k as u32 <= 255 * 255) by (nonlinear_arith)
            requires ai <= 255, k <= 255;
        let t: u32 = ai as u32 * k as u32 + carry;
        let d: u8 = (t % 256) as u8;
        proof {
            lemma_val_take(a@, i as int);
            lemma_val_push(r@, d);
            let p = pow256(i as nat);
            assert(pow256((i + 1) as nat) == 256 * p);
            assert((t % 256) as nat * p + (t / 256) as nat * (256 * p) == t as nat * p)
                by (nonlinear_arith)
                requires t >= 0;
            let pa = val(a@.take(i as int));
            assert((pa + ai as nat * p) * k as nat == pa * k as nat + (ai as nat * k as nat) * p)
                by (nonlinear_arith);
            assert(t as nat * p == (ai as nat * k as nat) * p + carry as nat * p)
                by (nonlinear_arith)
                requires t == ai as nat * k as nat + carry as nat;
        }
        r.push(d);
        carry = t / 256;
        i = i + 1;
    }
    assert(a@.take(a@.len() as int) =~= a@);
    proof {
        lemma_val_push(r@, carry as u8);
    }
    r.push(carry as u8);
    normalize(&mut r);
    r
}

pub proof fn lemma_val_suffix(s: Seq<u8>, j: int)
    requires
        0 <= j < s.len(),
    ensures
        val(s.subrange(j, s.len() as int)) == s[j] as nat + 256 * val(
            s.subrange(j + 1, s.len() as int),
        ),
{
    assert(s.subrange(j, s.len() as int).drop_first() =~= s.subrange(j + 1, s.len() as int));
}

/// Product of two magnitudes.
pub fn mag_mul(a: &Vec<u8>, b: &Vec<u8>) -> (r: Vec<u8>)
    ensures
        val(r@) == val(a@) * val(b@),
        canonical(r@),
{
    let mut acc: Vec<u8> = Vec::new();
    let mut j: usize = b.len();
    assert(b@.subrange(j as int, b@.len() as int) =~= Seq::<u8>::empty());
    assert(acc@ =~= Seq::<u8>::empty());
    assert(val(Seq::<u8>::empty()) == 0);
    while j > 0
        invariant
            j <= b@.len(),
            val(acc@) == val(a@) * val(b@.subrange(j as int, b@.len() as int)),
        decreases j,
    {
        j = j - 1;
        let shifted = prepend(0, &acc);
        let part = mag_mul_small(a, b[j]);
        proof {
            lemma_val_suffix(b@, j as int);
            let va = val(a@);
            let rest = val(b@.subrange(j as int + 1, b@.len() as int));
            assert(va * (b[j as int] as nat + 256 * rest) == 256 * (va * rest) + va
                * b[j as int] as nat) by (nonlinear_arith);
        }
        acc = mag_add(&shifted, &part);
    }
    assert(b@.subrange(0, b@.len() as int) =~= b@);
    normalize(&mut acc);
    acc
}

/// Quotient and remainder of two magnitudes.
pub fn mag_divmod(a: &Vec<u8>, d: &Vec<u8>) -> (r: (Vec<u8>, Vec<u8>))
    requires
        val(d@) > 0,
    ensures
        val(a@) == val(r.0@) * val(d@) + val(r.1@),
        val(r.1@) < val(d@),
        canonical(r.0@),
        canonical(r.1@),
{
    let ghost dv = val(d@);
    let mut q: Vec<u8> = Vec::new();
    let mut rem: Vec<u8> = Vec::new();
    let mut i: usize = a.len();
    assert(a@.subrange(i as int, a@.len() as int) =~= Seq::<u8>::empty());
    assert(q@ =~= Seq::<u8>::empty());
    assert(rem@ =~= Seq::<u8>::empty());
    assert(val(Seq::<u8>::empty()) == 0);
    while i > 0
        invariant
            i <= a@.len(),
            canonical(rem@),
            dv == val(d@),
            dv > 0,
            val(a@.subrange(i as int, a@.len() as int)) == val(q@) * dv + val(rem@),
            val(rem@) < dv,
        decreases i,
    {
        i = i - 1;
        let mut cur = prepend(a[i], &rem);
        normalize(&mut cur);
        let ghost start = val(cur@);
        let mut lo: u16 = 0;
        let mut hi: u16 = 256;
        assert(0 * dv == 0);
        while hi - lo > 1
            invariant
                dv == val(d@),
                dv > 0,
                start == val(cur@),
                lo < hi <= 256,
                lo as nat * dv <= start,
                start < hi as nat * dv,
            decreases hi - lo,
        {
            let mid: u16 = lo + (hi - lo) / 2;
            let prod = mag_mul_small(d, mid as u8);
            assert(val(prod@) == mid as nat * dv) by (nonlinear_arith)
                requires val(prod@) == dv * (mid as u8) as nat, mid < 256;
            let (_, lt) = mag_sub(&cur, &prod);
            if lt {
                hi = mid;
            } else {
                lo = mid;
            }
        }
        let digit: u8 = lo as u8;
        let prod = mag_mul_small(d, digit);
        assert(val(prod@) == digit as nat * dv) by (nonlinear_arith)
            requires val(prod@) == dv * digit as nat;
        let (diff, _) = mag_sub(&cur, &prod);
        cur = diff;
        assert(val(cur@) < dv) by (nonlinear_arith)
            requires
                val(cur@) == start - digit as nat * dv,
                start < hi as nat * dv,
                hi == digit + 1;
        proof {
            lemma_val_suffix(a@, i as int);
            let qv = val(q@);
            assert(256 * (qv * dv) == (256 * qv) * dv) by (nonlinear_arith);
            assert(digit as nat * dv + (256 * qv) * dv == (digit as nat + 256 * qv) * dv)
                by (nonlinear_arith);
        }
        q = prepend(digit, &q);
        rem = cur;
    }
    assert(a@.subrange(0, a@.len() as int) =~= a@);
    normalize(&mut q);
    (q, rem)
}

/// The number denoted by a big-endian sequence of bytes.
pub open spec fn be_val(s: Seq<u8>) -> nat
    decreases s.len(),
{
    if s.len() == 0 {
        0
    } else {
        be_val(s.drop_last()) * 256 + s.last() as nat
    }
}

/// `r` holds the elements of `s` in the opposite order.
pub open spec fn reversed(r: Seq<u8>, s: Seq<u8>) -> bool {
    r.len() == s.len() && forall|k: int| 0 <= k < r.len() ==> r[k] == s[s.len() - 1 - k]
}

pub proof fn lemma_reversed_val(r: Seq<u8>, s: Seq<u8>)
    requires
        reversed(r, s),
    ensures
        be_val(r) == val(s),
    decreases s.len(),
{
    if s.len() > 0 {
        assert(reversed(r.drop_last(), s.drop_first()));
        lemma_reversed_val(r.drop_last(), s.drop_first());
    }
}

/// The elements of `s` in the opposite order.
pub fn reverse(s: &[u8]) -> (r: Vec<u8>)
    ensures
        reversed(r@, s@),
{
    let mut r: Vec<u8> = Vec::new();
    let mut i: usize = s.len();
    while i > 0
        invariant
            i <= s@.len(),
            r@.len() == s@.len() - i,
            forall|k: int| 0 <= k < r@.len() ==> r@[k] == s@[s@.len() - 1 - k],
        decreases i,
    {
        i = i - 1;
        r.push(s[i]);
    }
    r
}

pub proof fn lemma_be_val_bound(s: Seq<u8>)
    ensures
        be_val(s) < pow256(s.len()),
    decreases s.len(),
{
    if s.len() > 0 {
        lemma_be_val_bound(s.drop_last());
        let p = pow256((s.len() - 1) as nat);
        assert(be_val(s.drop_last()) * 256 + 255 < 256 * p) by (nonlinear_arith)
            requires be_val(s.drop_last()) < p;
    }
}

/// The leading byte of a big-endian sequence weighs `256^(len - 1)`.
pub proof fn lemma_be_val_front(s: Seq<u8>)
    requires
        s.len() > 0,
    ensures
        be_val(s) == s[0] as nat * pow256((s.len() - 1) as nat) + be_val(s.drop_first()),
    decreases s.len(),
{
    if s.len() == 1 {
        assert(s.drop_last() =~= Seq::<u8>::empty());
        assert(s.drop_first() =~= Seq::<u8>::empty());
        assert(be_val(Seq::<u8>::empty()) == 0);
        assert(pow256(0) == 1);
        assert(be_val(s) == be_val(s.drop_last()) * 256 + s.last() as nat);
    } else {
        lemma_be_val_front(s.drop_last());
        assert(s.drop_first().last() == s.last());
        assert(s.drop_last()[0] == s[0]);
        assert(be_val(s.drop_first()) == be_val(s.drop_first().drop_last()) * 256
            + s.last() as nat);
        assert(pow256((s.len() - 1) as nat) == 256 * pow256((s.len() - 2) as nat));
        assert(s.drop_last().drop_first() =~= s.drop_first().drop_last());
        let p = pow256((s.len() - 2) as nat);
        let t = be_val(s.drop_last().drop_first());
        assert((s[0] as nat * p + t) * 256 + s.last() as nat == s[0] as nat * (256 * p) + (t
            * 256 + s.last() as nat)) by (nonlinear_arith);
    }
}

} // verus!
