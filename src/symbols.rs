//! Jacobi and Legendre symbols.
use crate::bigint::BigInt;
use vstd::prelude::*;

verus! {

/// The symbol `(2/n)` for odd `n`: 1 when `n` is 1 or 7 modulo 8, else -1.
pub open spec fn two_symbol(n: nat) -> int {
    if n % 8 == 1 || n % 8 == 7 {
        1
    } else {
        -1
    }
}

/// The Jacobi symbol `(a/n)` for odd `n > 0`, by the reduction rules that
/// determine it: reduction of `a` modulo `n`, `(0/1) = 1` and `(0/n) = 0`
/// for `n > 1`, the rule for a factor two, and quadratic reciprocity.
pub open spec fn jac(a: nat, n: nat) -> int
    decreases n, a,
{
    if n == 0 {
        0
    } else if a >= n {
        jac(a % n, n)
    } else if a == 0 {
        if n == 1 {
            1
        } else {
            0
        }
    } else if a % 2 == 0 {
        two_symbol(n) * jac(a / 2, n)
    } else if a % 4 == 3 && n % 4 == 3 {
        -jac(n, a)
    } else {
        jac(n, a)
    }
}

/// The Jacobi symbol of an integer `a` over a positive odd `n`.
pub open spec fn jacobi_symbol(a: int, n: int) -> int {
    jac((a % n) as nat, n as nat)
}

proof fn lemma_mod_reduces(a: nat, n: nat)
    requires
        n > 0,
    ensures
        jac(a % n, n) == jac(a, n),
{
    if a >= n {
    } else {
        vstd::arithmetic::div_mod::lemma_small_mod(a, n);
    }
}

impl BigInt {
    /// The Jacobi symbol `(x/y)`: -1, 0 or 1.
    pub fn jacobi(x: &BigInt, y: &BigInt) -> (r: isize)
        requires
            y@ > 0,
            y@ % 2 == 1,
        ensures
            r == jacobi_symbol(x@, y@),
    {
        let mut a = x.rmod(y);
        let mut n = BigInt::new_copy(y);
        let mut sign: isize = 1;
        let one = BigInt::new_int(1);
        let two = BigInt::new_int(2);
        let four = BigInt::new_int(4);
        let eight = BigInt::new_int(8);
        loop
            invariant
                one@ == 1,
                two@ == 2,
                four@ == 4,
                eight@ == 8,
                a@ >= 0,
                n@ > 0,
                n@ % 2 == 1,
                sign == 1 || sign == -1,
                sign * jac(a@ as nat, n@ as nat) == jacobi_symbol(x@, y@),
            decreases n@, a@,
        {
            if a.cmp(&n) >= 0 {
                proof {
                    lemma_mod_reduces(a@ as nat, n@ as nat);
                }
                a = a.rmod(&n);
            } else if a.is_zero() {
                if n.equals(&one) {
                    return sign;
                } else {
                    return 0;
                }
            } else if a.is_even() {
                let n8 = n.rmod(&eight).to_u8();
                let ghost j = jac((a@ / 2) as nat, n@ as nat);
                proof {
                    assert(jac(a@ as nat, n@ as nat) == two_symbol(n@ as nat) * j);
                    assert(sign * (two_symbol(n@ as nat) * j) == (sign * two_symbol(n@ as nat))
                        * j) by (nonlinear_arith);
                    assert(((-sign) as int) * j == -(sign * j)) by (nonlinear_arith);
                }
                if !(n8 == 1 || n8 == 7) {
                    sign = -sign;
                }
                a = a.div(&two);
            } else {
                let a4 = a.rmod(&four).to_u8();
                let n4 = n.rmod(&four).to_u8();
                proof {
                    let j = jac(n@ as nat, a@ as nat);
                    assert(((-sign) as int) * j == sign * (-j)) by (nonlinear_arith);
                }
                if a4 == 3 && n4 == 3 {
                    sign = -sign;
                }
                let t = a;
                a = n;
                n = t;
            }
        }
    }

    /// The Legendre symbol `(self/p)`. For an odd prime `p` the Legendre and
    /// Jacobi symbols coincide, so this is the Jacobi symbol over `p`; for an
    /// odd `p` that is not prime the result is that Jacobi symbol too.
    pub fn legendre(&self, p: &BigInt) -> (r: isize)
        requires
            p@ > 2,
            p@ % 2 == 1,
        ensures
            r == jacobi_symbol(self@, p@),
    {
        BigInt::jacobi(self, p)
    }
}

} // verus!
