//! Random values of an exact bit length, drawn byte by byte.
use crate::bigint::BigInt;
use crate::magnitude::{be_val, lemma_be_val_bound, lemma_be_val_front, pow256};
use vstd::arithmetic::power2::{lemma2_to64, lemma_pow2_adds, pow2};
use vstd::prelude::*;

verus! {

/// A source of uniformly random bytes, supplied by the caller.
pub trait ByteSource {
    /// The next random byte.
    fn getbyte(&mut self) -> u8;
}

/// A caller's byte source together with a record of every byte it handed out.
pub struct RecordingSource<R> {
    source: R,
    log: Ghost<Seq<u8>>,
}

impl<R: ByteSource> RecordingSource<R> {
    /// The bytes handed out so far, oldest first.
    pub closed spec fn drawn(&self) -> Seq<u8> {
        self.log@
    }

    /// Starts recording `source`, with nothing drawn yet.
    pub fn new(source: R) -> (r: RecordingSource<R>)
        ensures
            r.drawn() == Seq::<u8>::empty(),
    {
        RecordingSource { source, log: Ghost(Seq::empty()) }
    }

    /// The underlying source.
    pub fn source(&self) -> &R {
        &self.source
    }

    /// The next byte of the source; it is appended to what was drawn.
    pub fn getbyte(&mut self) -> (r: u8)
        ensures
            final(self).drawn() == old(self).drawn().push(r),
    {
        let b = self.source.getbyte();
        self.log = Ghost(self.log@.push(b));
        b
    }
}

/// `after` extends `before` by `n` further bytes.
pub open spec fn draws(before: Seq<u8>, after: Seq<u8>, n: nat) -> bool {
    after.len() == before.len() + n && after.take(before.len() as int) == before
}

/// The bytes that `after` holds beyond `before`.
pub open spec fn fresh(before: Seq<u8>, after: Seq<u8>) -> Seq<u8> {
    after.skip(before.len() as int)
}

/// How many bytes are drawn for a value of `bits` bits: one per whole byte,
/// and one more for a leading partial byte.
pub open spec fn byte_count(bits: nat) -> nat {
    (bits + 7) / 8
}

/// The leading byte made from the first drawn byte `b`. When `bits` is not a
/// multiple of eight, `b` is masked to its low `bits % 8` bits and the highest
/// of them is forced to one; otherwise `b` keeps all its bits and its top bit
/// is forced to one.
pub open spec fn lead_byte(b: u8, bits: nat) -> u8 {
    if bits % 8 != 0 {
        let r = (bits % 8) as u32;
        (((b as u32) | (1u32 << ((r - 1) as u32))) & (((1u32 << r) - 1) as u32)) as u8
    } else {
        b | 0x80u8
    }
}

/// The value built from the drawn bytes, read big-endian, the first one
/// replaced by its leading byte.
pub open spec fn random_value(drawn: Seq<u8>, bits: nat) -> nat {
    be_val(drawn.update(0, lead_byte(drawn[0], bits)))
}

/// `v` has exactly `bits` significant bits.
pub open spec fn has_bit_length(v: int, bits: nat) -> bool {
    bits > 0 && pow2((bits - 1) as nat) <= v < pow2(bits)
}

pub proof fn lemma_pow256_pow2(k: nat)
    ensures
        pow256(k) == pow2(8 * k),
    decreases k,
{
    lemma2_to64();
    if k > 0 {
        lemma_pow256_pow2((k - 1) as nat);
        let e1: nat = 8 * (k - 1) as nat;
        lemma_pow2_adds(e1, 8);
        lemma2_to64();
        assert(e1 + 8 == 8 * k);
        assert(pow2(e1 + 8) == pow2(e1) * pow2(8));
        assert(pow256(k) == 256 * pow256((k - 1) as nat));
        assert(pow2(e1) * 256 == 256 * pow2(e1));
    }
}

pub proof fn lemma_shl_pow2(k: u32)
    requires
        k <= 8,
    ensures
        (1u32 << k) as nat == pow2(k as nat),
{
    lemma2_to64();
    if k == 0 {
        assert(1u32 << 0u32 == 1) by (bit_vector);
    } else if k == 1 {
        assert(1u32 << 1u32 == 2) by (bit_vector);
    } else if k == 2 {
        assert(1u32 << 2u32 == 4) by (bit_vector);
    } else if k == 3 {
        assert(1u32 << 3u32 == 8) by (bit_vector);
    } else if k == 4 {
        assert(1u32 << 4u32 == 16) by (bit_vector);
    } else if k == 5 {
        assert(1u32 << 5u32 == 32) by (bit_vector);
    } else if k == 6 {
        assert(1u32 << 6u32 == 64) by (bit_vector);
    } else if k == 7 {
        assert(1u32 << 7u32 == 128) by (bit_vector);
    } else {
        assert(1u32 << 8u32 == 256) by (bit_vector);
    }
}

/// Big-endian bytes whose leading byte has exactly `t` significant bits
/// denote a value of `8 * (len - 1) + t` bits.
proof fn lemma_leading_byte_length(s: Seq<u8>, t: nat)
    requires
        s.len() > 0,
        1 <= t <= 8,
        pow2((t - 1) as nat) <= s[0] < pow2(t),
    ensures
        has_bit_length(be_val(s) as int, (8 * (s.len() - 1) + t) as nat),
{
    let k = (s.len() - 1) as nat;
    lemma_be_val_front(s);
    lemma_be_val_bound(s.drop_first());
    lemma_pow256_pow2(k);
    let lo: nat = (t - 1) as nat;
    lemma_pow2_adds(lo, 8 * k);
    lemma_pow2_adds(t, 8 * k);
    assert(lo + 8 * k == (8 * (s.len() - 1) + t - 1) as nat);
    assert(t + 8 * k == (8 * (s.len() - 1) + t) as nat);
    let p = pow256(k);
    let b = s[0] as nat;
    let rest = be_val(s.drop_first());
    assert(pow2((t - 1) as nat) * p <= b * p) by (nonlinear_arith)
        requires pow2((t - 1) as nat) <= b;
    assert(b * p + rest < pow2(t) * p) by (nonlinear_arith)
        requires b + 1 <= pow2(t), rest < p;
    assert(be_val(s) == b * p + rest);
}

/// The leading byte, with the number `t` of its significant bits.
fn lead_of(b: u8, bits: usize) -> (r: u8)
    requires
        bits > 0,
    ensures
        r == lead_byte(b, bits as nat),
        bits % 8 != 0 ==> pow2((bits % 8 - 1) as nat) <= r < pow2((bits % 8) as nat),
        bits % 8 == 0 ==> pow2(7) <= r < pow2(8),
{
    let rem: usize = bits % 8;
    proof {
        lemma2_to64();
    }
    if rem != 0 {
        let byte: u32 = b as u32;
        let r: u32 = rem as u32;
        assert(1u32 << r >= 1) by (bit_vector)
            requires r <= 7;
        let mask: u32 = (1u32 << r) - 1;
        let low: u32 = r - 1;
        let top: u32 = 1u32 << low;
        let v: u32 = (byte | top) & mask;
        proof {
            assert(v >= 1u32 << low && v < 1u32 << r) by (bit_vector)
                requires
                    1 <= r <= 7,
                    low == r - 1,
                    byte < 256,
                    mask == (1u32 << r) - 1,
                    top == 1u32 << low,
                    v == (byte | top) & mask;
            assert(v < 256) by (bit_vector)
                requires r <= 7, mask == (1u32 << r) - 1, v == (byte | top) & mask;
            lemma_shl_pow2(r);
            lemma_shl_pow2(low);
        }
        v as u8
    } else {
        proof {
            assert((b | 0x80u8) >= 0x80) by (bit_vector);
        }
        b | 0x80
    }
}

impl BigInt {
    /// The value built from `drawn`, the bytes drawn for a `bits`-bit random
    /// value: the first byte becomes the leading byte (see `lead_byte`) and
    /// the bytes are read big-endian.
    pub fn from_random_bytes(drawn: &[u8], bits: usize) -> (r: BigInt)
        requires
            bits > 0,
            drawn@.len() == byte_count(bits as nat),
        ensures
            r@ == random_value(drawn@, bits as nat),
            has_bit_length(r@, bits as nat),
    {
        let mut out: Vec<u8> = Vec::new();
        let mut i: usize = 0;
        while i < drawn.len()
            invariant
                i <= drawn@.len(),
                out@ == drawn@.take(i as int),
            decreases drawn@.len() - i,
        {
            out.push(drawn[i]);
            i = i + 1;
            assert(out@ =~= drawn@.take(i as int));
        }
        assert(out@ =~= drawn@);
        let lead = lead_of(drawn[0], bits);
        out.set(0, lead);
        proof {
            if bits % 8 != 0 {
                lemma_leading_byte_length(out@, (bits % 8) as nat);
            } else {
                lemma_leading_byte_length(out@, 8);
            }
        }
        BigInt::from_bytes(out.as_mut_slice())
    }

    /// Sets `self` to a random value of exactly `bits` bits: draws
    /// `byte_count(bits)` bytes in order, the leading (possibly partial) byte
    /// first, and builds the value from them as `from_random_bytes` does.
    pub fn rand<R: ByteSource>(&mut self, rng: &mut RecordingSource<R>, bits: usize)
        requires
            bits > 0,
        ensures
            draws(old(rng).drawn(), final(rng).drawn(), byte_count(bits as nat)),
            final(self)@ == random_value(fresh(old(rng).drawn(), final(rng).drawn()), bits as nat),
            has_bit_length(final(self)@, bits as nat),
    {
        let n: usize = if bits % 8 != 0 {
            bits / 8 + 1
        } else {
            bits / 8
        };
        let ghost start = rng.drawn();
        let mut raw: Vec<u8> = Vec::new();
        let mut i: usize = 0;
        while i < n
            invariant
                i <= n,
                n == byte_count(bits as nat),
                raw@.len() == i,
                rng.drawn() == start + raw@,
            decreases n - i,
        {
            let b = rng.getbyte();
            raw.push(b);
            i = i + 1;
            assert(rng.drawn() =~= start + raw@);
        }
        assert((start + raw@).take(start.len() as int) =~= start);
        assert((start + raw@).skip(start.len() as int) =~= raw@);
        *self = BigInt::from_random_bytes(raw.as_slice(), bits);
    }

    /// A random value of exactly `bits` bits, drawn as `rand` describes.
    pub fn new_rand<R: ByteSource>(rng: &mut RecordingSource<R>, bits: usize) -> (r: BigInt)
        requires
            bits > 0,
        ensures
            draws(old(rng).drawn(), final(rng).drawn(), byte_count(bits as nat)),
            r@ == random_value(fresh(old(rng).drawn(), final(rng).drawn()), bits as nat),
            has_bit_length(r@, bits as nat),
    {
        let mut g = BigInt::new();
        g.rand(rng, bits);
        g
    }
}

} // verus!
