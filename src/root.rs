//! Integer n-th roots, truncated toward zero.
use crate::bigint::{abs, BigInt};
use vstd::arithmetic::power::{lemma_pow0, lemma_pow1, lemma_pow_adds, lemma_pow_positive, pow};
use vstd::prelude::*;

verus! {

/// `r` is the `n`-th root of `x` rounded toward zero: its magnitude is the
/// largest whose `n`-th power does not exceed `|x|`, and it has the sign of `x`.
pub open spec fn is_trunc_root(r: int, x: int, n: nat) -> bool {
    &&& (if x >= 0 {
        r >= 0
    } else {
        r <= 0
    })
    &&& pow(abs(r) as int, n) <= abs(x)
    &&& abs(x) < pow(abs(r) + 1int, n)
}

proof fn lemma_pow_ge_base(b: int, n: nat)
    requires
        b >= 1,
        n >= 1,
    ensures
        pow(b, n) >= b,
{
    lemma_pow_adds(b, 1, (n - 1) as nat);
    lemma_pow1(b);
    lemma_pow_positive(b, (n - 1) as nat);
    assert(b * pow(b, (n - 1) as nat) >= b) by (nonlinear_arith)
        requires b >= 1, pow(b, (n - 1) as nat) >= 1;
}

proof fn lemma_pow_zero_base(n: nat)
    requires
        n >= 1,
    ensures
        pow(0, n) == 0,
{
    lemma_pow_adds(0, 1, (n - 1) as nat);
    lemma_pow1(0);
}

/// Whether `b^n <= x`, found without computing powers far above `x`.
fn pow_at_most(b: &BigInt, n: u64, x: &BigInt) -> (r: bool)
    requires
        b@ >= 1,
        x@ >= 0,
    ensures
        r == (pow(b@, n as nat) <= x@),
{
    let one = BigInt::new_int(1);
    if b.equals(&one) {
        proof {
            vstd::arithmetic::power::lemma_pow1(1);
            lemma_one_pow(n as nat);
        }
        return one.cmp(x) <= 0;
    }
    let mut acc = BigInt::new_int(1);
    let mut k: u64 = 0;
    proof {
        lemma_pow0(b@);
    }
    while k < n && acc.cmp(x) <= 0
        invariant
            k <= n,
            b@ >= 2,
            x@ >= 0,
            acc@ == pow(b@, k as nat),
        decreases n - k,
    {
        proof {
            lemma_pow_adds(b@, k as nat, 1);
            lemma_pow1(b@);
        }
        acc = acc.mul(b);
        k = k + 1;
    }
    proof {
        lemma_pow_adds(b@, k as nat, (n - k) as nat);
        lemma_pow_positive(b@, (n - k) as nat);
        lemma_pow_positive(b@, k as nat);
        assert(acc@ * pow(b@, (n - k) as nat) >= acc@) by (nonlinear_arith)
            requires acc@ >= 1, pow(b@, (n - k) as nat) >= 1;
    }
    acc.cmp(x) <= 0
}

proof fn lemma_one_pow(n: nat)
    ensures
        pow(1, n) == 1,
    decreases n,
{
    if n == 0 {
        lemma_pow0(1);
    } else {
        lemma_pow_adds(1, 1, (n - 1) as nat);
        lemma_pow1(1);
        lemma_one_pow((n - 1) as nat);
    }
}

impl BigInt {
    /// Replaces `self` by its `n`-th root truncated toward zero and returns
    /// the remainder `self - root^n`.
    pub fn root(&mut self, n: u64) -> (rem: BigInt)
        requires
            n > 0,
            old(self)@ >= 0 || n % 2 == 1,
        ensures
            is_trunc_root(final(self)@, old(self)@, n as nat),
            rem@ == old(self)@ - pow(final(self)@, n as nat),
    {
        let x = self.abs_value();
        let mut lo = BigInt::new();
        let mut hi = x.inc(1);
        let two = BigInt::new_int(2);
        proof {
            lemma_pow_zero_base(n as nat);
            lemma_pow_ge_base(hi@, n as nat);
        }
        while hi.sub(&lo).cmp(&BigInt::new_int(1)) > 0
            invariant
                two@ == 2,
                x@ >= 0,
                0 <= lo@ < hi@,
                pow(lo@, n as nat) <= x@,
                x@ < pow(hi@, n as nat),
            decreases hi@ - lo@,
        {
            let mid = lo.add(&hi).div(&two);
            if pow_at_most(&mid, n, &x) {
                lo = mid;
            } else {
                hi = mid;
            }
        }
        let root = if self.cmp(&BigInt::new()) < 0 {
            lo.negate()
        } else {
            lo
        };
        let rem = self.sub(&root.pow(n));
        *self = root;
        rem
    }
}

} // verus!
