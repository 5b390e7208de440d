//! Probabilistic primality: the Miller-Rabin test over fixed bases, and the
//! search for a random prime of a given bit length.
use crate::bigint::{lemma_square_step, BigInt};
use crate::random::{byte_count, draws, fresh, has_bit_length, random_value, ByteSource, RecordingSource};
use vstd::arithmetic::power::pow;
use vstd::arithmetic::power2::{
    lemma2_to64, lemma_pow2_pos, lemma_pow2_strictly_increases, lemma_pow2_unfold, pow2,
};
use vstd::prelude::*;

verus! {

/// The largest base that the test tries; the bases are `2..=46`, 45 rounds.
pub const LAST_BASE: u64 = 46;

/// `n == d * 2^s` with `d` odd (for `n > 0`), as the pair `(d, s)`.
pub open spec fn odd_part(n: nat) -> (nat, nat)
    decreases n,
{
    if n > 0 && n % 2 == 0 {
        let (d, s) = odd_part(n / 2);
        (d, s + 1)
    } else {
        (n, 0)
    }
}

/// `n` is a strong probable prime to base `a`: with `n - 1 == d * 2^s`, `d`
/// odd, either `a^d == 1` or `a^(d * 2^r) == n - 1` modulo `n` for some `r < s`.
pub open spec fn strong_probable_prime(n: int, a: int) -> bool {
    let (d, s) = odd_part((n - 1) as nat);
    pow(a, d) % n == 1 || exists|r: nat| r < s && #[trigger] pow(a, d * pow2(r)) % n == n - 1
}

/// The verdict of the test: 2 and 3 pass; otherwise an odd `n > 3` passes when
/// it is a strong probable prime to every base `2..=46` below `n - 1`.
pub open spec fn probable_prime(n: int) -> bool {
    n == 2 || n == 3 || (n > 3 && n % 2 == 1 && forall|a: int|
        2 <= a <= LAST_BASE && a < n - 1 ==> #[trigger] strong_probable_prime(n, a))
}

/// The `j`-th candidate of a prime search over the bytes `d`: the value
/// built from the `j`-th group of `byte_count(bits)` bytes.
pub open spec fn candidate(d: Seq<u8>, j: int, bits: nat) -> nat {
    let n = byte_count(bits) as int;
    random_value(d.subrange(j * n, j * n + n), bits)
}

/// The first `k` candidates over `d` all fail the test.
pub open spec fn all_fail(d: Seq<u8>, k: int, bits: nat) -> bool {
    forall|j: int| 0 <= j < k ==> !probable_prime(#[trigger] candidate(d, j, bits) as int)
}

proof fn lemma_candidate_extend(d: Seq<u8>, f: Seq<u8>, k: nat, bits: nat)
    requires
        d.len() == k * byte_count(bits),
        f.len() == byte_count(bits),
    ensures
        (d + f).len() == (k + 1) * byte_count(bits),
        forall|j: int| 0 <= j < k ==> #[trigger] candidate(d + f, j, bits) == candidate(d, j, bits),
        candidate(d + f, k as int, bits) == random_value(f, bits),
{
    let n = byte_count(bits) as int;
    assert((k + 1) * n == k * n + n) by (nonlinear_arith);
    assert forall|j: int| 0 <= j < k implies #[trigger] candidate(d + f, j, bits) == candidate(
        d,
        j,
        bits,
    ) by {
        assert(j * n + n <= k * n) by (nonlinear_arith)
            requires j < k, n >= 0;
        assert(j * n >= 0) by (nonlinear_arith)
            requires j >= 0, n >= 0;
        assert((d + f).subrange(j * n, j * n + n) =~= d.subrange(j * n, j * n + n));
    }
    assert((d + f).subrange(k * n, k * n + n) =~= f);
}

impl BigInt {
    /// One Miller-Rabin round: whether `n` is a strong probable prime to base `a`.
    fn passes_round(n: &BigInt, nm1: &BigInt, d: &BigInt, a: &BigInt, s: Ghost<nat>) -> (r: bool)
        requires
            n@ > 3,
            n@ % 2 == 1,
            nm1@ == n@ - 1,
            d@ > 0,
            odd_part(nm1@ as nat) == (d@ as nat, s@),
            d@ * pow2(s@) == nm1@,
        ensures
            r == strong_probable_prime(n@, a@),
    {
        let ghost dv = d@ as nat;
        let ghost sv = s@;
        let ghost nv = n@;
        let mut x = a.pow_mod(d, n);
        let one = BigInt::new_int(1);
        let ghost r: nat = 0;
        proof {
            lemma2_to64();
            assert(dv * pow2(0) == dv);
            let h = odd_part((nm1@ / 2) as nat);
            assert(nm1@ % 2 == 0);
            assert(odd_part(nm1@ as nat) == (h.0, h.1 + 1));
            assert(sv > 0);
        }
        let first_one = x.equals(&one);
        let mut passed = first_one || x.equals(nm1);
        let mut dd = BigInt::new_copy(d);
        proof {
            if x@ == nm1@ {
                assert(pow(a@, dv * pow2(0)) % nv == nv - 1);
            }
        }
        while !passed && dd.mul(&BigInt::new_int(2)).cmp(nm1) < 0
            invariant
                nv == n@,
                nv > 3,
                nm1@ == nv - 1,
                dv == d@,
                dv > 0,
                odd_part(nm1@ as nat) == (dv, sv),
                dv * pow2(sv) == nm1@,
                r < sv,
                dd@ == dv * pow2(r),
                x@ == pow(a@, dv * pow2(r)) % nv,
                passed ==> strong_probable_prime(nv, a@),
                !passed ==> pow(a@, dv) % nv != 1,
                !passed ==> forall|k: nat| k <= r ==> #[trigger] pow(a@, dv * pow2(k)) % nv != nv - 1,
            decreases nm1@ - dd@,
        {
            proof {
                lemma_pow2_unfold(r + 1);
                lemma_pow2_pos(r);
                assert(dv * pow2(r) > 0) by (nonlinear_arith)
                    requires dv > 0, pow2(r) > 0;
                assert(dv * pow2(r + 1) == 2 * (dv * pow2(r))) by (nonlinear_arith)
                    requires pow2(r + 1) == 2 * pow2(r);
                if r + 1 >= sv {
                    if r + 1 > sv {
                        lemma_pow2_strictly_increases(sv, r + 1);
                    }
                    assert(dv * pow2(r + 1) >= dv * pow2(sv)) by (nonlinear_arith)
                        requires pow2(r + 1) >= pow2(sv), dv > 0;
                }
                lemma_square_step(a@, dv * pow2(r), nv);
                assert(2 * (dv * pow2(r)) == dv * pow2(r + 1));
            }
            x = x.mul_mod(&x, n);
            dd = dd.mul(&BigInt::new_int(2));
            proof {
                r = r + 1;
            }
            if x.equals(nm1) {
                passed = true;
            }
        }
        proof {
            if !passed {
                assert(dv * pow2(r + 1) >= dv * pow2(sv)) by {
                    lemma_pow2_unfold(r + 1);
                    assert(dv * pow2(r + 1) == 2 * (dv * pow2(r))) by (nonlinear_arith)
                        requires pow2(r + 1) == 2 * pow2(r);
                }
                if r + 1 < sv {
                    lemma_pow2_strictly_increases(r + 1, sv);
                    assert(dv * pow2(r + 1) < dv * pow2(sv)) by (nonlinear_arith)
                        requires pow2(r + 1) < pow2(sv), dv > 0;
                }
                assert(forall|k: nat| k < sv ==> #[trigger] pow(a@, dv * pow2(k)) % nv != nv - 1);
            }
        }
        passed
    }

    /// Probabilistic primality: the Miller-Rabin test with the 45 bases `2..=46`.
    pub fn is_prime(&self) -> (r: bool)
        ensures
            r == probable_prime(self@),
            r ==> self@ >= 2,
    {
        let two = BigInt::new_int(2);
        if self.cmp(&two) < 0 {
            return false;
        }
        if self.equals(&two) || self.equals(&BigInt::new_int(3)) {
            return true;
        }
        if self.is_even() {
            return false;
        }
        let nm1 = self.dec(1);
        let mut d = BigInt::new_copy(&nm1);
        let ghost mut s: nat = 0;
        proof {
            lemma2_to64();
        }
        while d.is_even()
            invariant
                two@ == 2,
                nm1@ == self@ - 1,
                nm1@ > 3,
                d@ > 0,
                odd_part(nm1@ as nat) == (odd_part(d@ as nat).0, odd_part(d@ as nat).1 + s),
                d@ * pow2(s) == nm1@,
            decreases d@,
        {
            let h = d.div(&two);
            proof {
                assert(d@ == 2 * h@);
                let o = odd_part(h@ as nat);
                assert(odd_part(d@ as nat) == (o.0, o.1 + 1));
                lemma_pow2_unfold(s + 1);
                assert(h@ * pow2(s + 1) == d@ * pow2(s)) by (nonlinear_arith)
                    requires pow2(s + 1) == 2 * pow2(s), d@ == 2 * h@;
            }
            d = h;
            proof {
                s = s + 1;
            }
        }
        let mut a: u64 = 2;
        while a <= LAST_BASE && BigInt::from_u64(a).cmp(&nm1) < 0
            invariant
                2 <= a <= LAST_BASE + 1,
                self@ > 3,
                self@ % 2 == 1,
                nm1@ == self@ - 1,
                d@ > 0,
                odd_part(nm1@ as nat) == (d@ as nat, s),
                d@ * pow2(s) == nm1@,
                forall|b: int| 2 <= b < a && b < self@ - 1 ==> #[trigger] strong_probable_prime(
                    self@,
                    b,
                ),
            decreases LAST_BASE + 1 - a,
        {
            let base = BigInt::from_u64(a);
            if !BigInt::passes_round(self, &nm1, &d, &base, Ghost(s)) {
                return false;
            }
            a = a + 1;
        }
        true
    }

    /// A random probable prime of exactly `len` bits: draws candidates as
    /// `rand` does, and returns the first that passes `is_prime`. The search
    /// stops with `None` after `attempts` candidates have failed.
    pub fn new_prime<R: ByteSource>(
        rng: &mut RecordingSource<R>,
        len: usize,
        attempts: u64,
    ) -> (r: Option<BigInt>)
        requires
            len > 0,
        ensures
            final(rng).drawn().take(old(rng).drawn().len() as int) == old(rng).drawn(),
            attempts == 0 ==> r is None && final(rng).drawn() == old(rng).drawn(),
            r is None ==> {
                let d = fresh(old(rng).drawn(), final(rng).drawn());
                &&& d.len() == attempts * byte_count(len as nat)
                &&& all_fail(d, attempts as int, len as nat)
            },
            r matches Some(p) ==> {
                let d = fresh(old(rng).drawn(), final(rng).drawn());
                exists|k: nat|
                    #![trigger candidate(d, k as int, len as nat)]
                    k < attempts && d.len() == (k + 1) * byte_count(len as nat) && all_fail(
                        d,
                        k as int,
                        len as nat,
                    ) && p@ == candidate(d, k as int, len as nat)
            },
            r matches Some(p) ==> probable_prime(p@) && has_bit_length(p@, len as nat),
    {
        let ghost start = rng.drawn();
        let mut x = BigInt::new();
        let mut tried: u64 = 0;
        proof {
            assert(start.take(start.len() as int) =~= start);
            assert(fresh(start, start) =~= Seq::<u8>::empty());
            assert(0 * byte_count(len as nat) == 0);
        }
        while tried < attempts
            invariant
                len > 0,
                start == old(rng).drawn(),
                tried <= attempts,
                rng.drawn().take(start.len() as int) == start,
                rng.drawn().len() >= start.len(),
                fresh(start, rng.drawn()).len() == tried * byte_count(len as nat),
                all_fail(fresh(start, rng.drawn()), tried as int, len as nat),
            decreases attempts - tried,
        {
            let ghost before = rng.drawn();
            x.rand(rng, len);
            proof {
                let d0 = fresh(start, before);
                let f = fresh(before, rng.drawn());
                assert(rng.drawn() =~= before + f);
                assert(before =~= start + d0);
                assert(fresh(start, rng.drawn()) =~= d0 + f);
                assert(rng.drawn().take(start.len() as int) =~= start);
                lemma_candidate_extend(d0, f, tried as nat, len as nat);
            }
            if x.is_prime() {
                proof {
                    let d = fresh(start, rng.drawn());
                    assert(x@ == candidate(d, tried as int, len as nat));
                    assert(all_fail(d, tried as int, len as nat));
                }
                return Some(x);
            }
            tried = tried + 1;
        }
        None
    }
}

} // verus!
