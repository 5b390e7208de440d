use rsa_bigint::{BigInt, ByteSource, RecordingSource};

fn big(i: isize) -> BigInt {
    BigInt::new_int(i)
}

struct Fixed(u8);

impl ByteSource for Fixed {
    fn getbyte(&mut self) -> u8 {
        self.0
    }
}

struct Counting {
    calls: usize,
}

impl ByteSource for Counting {
    fn getbyte(&mut self) -> u8 {
        self.calls += 1;
        self.calls as u8
    }
}

struct XorShift(u64);

impl ByteSource for XorShift {
    fn getbyte(&mut self) -> u8 {
        let mut x = self.0;
        x ^= x << 13;
        x ^= x >> 7;
        x ^= x << 17;
        self.0 = x;
        (x >> 24) as u8
    }
}

fn bit_length(v: &BigInt) -> usize {
    let bytes = v.to_bytes();
    if bytes.is_empty() {
        return 0;
    }
    8 * (bytes.len() - 1) + (8 - bytes[0].leading_zeros() as usize)
}

#[test]
fn random_values_have_exact_bit_length() {
    let mut rng = RecordingSource::new(XorShift(0x9e3779b97f4a7c15));
    for bits in 1..70 {
        let v = BigInt::new_rand(&mut rng, bits);
        assert_eq!(bit_length(&v), bits);
    }
}

#[test]
fn random_partial_byte_is_masked_and_forced() {
    let mut zeros = RecordingSource::new(Fixed(0));
    assert!(BigInt::new_rand(&mut zeros, 12).equals(&big(0x800)));
    assert!(BigInt::new_rand(&mut zeros, 16).equals(&big(0x8000)));
    assert!(BigInt::new_rand(&mut zeros, 1).equals(&big(1)));
    let mut ones = RecordingSource::new(Fixed(0xff));
    assert!(BigInt::new_rand(&mut ones, 12).equals(&big(0xfff)));
    let mut v = big(5);
    v.rand(&mut ones, 3);
    assert!(v.equals(&big(7)));
}

#[test]
fn primality_of_small_and_known_values() {
    for p in [2isize, 3, 5, 7, 11, 13, 97, 65537, 2305843009213693951] {
        assert!(big(p).is_prime(), "{} is prime", p);
    }
    for c in [-7isize, 0, 1, 4, 9, 15, 561, 65535, 3215031751, 2305843009213693953] {
        assert!(!big(c).is_prime(), "{} is composite", c);
    }
}

#[test]
fn random_prime_passes_the_test() {
    let mut rng = RecordingSource::new(XorShift(12345));
    let p = BigInt::new_prime(&mut rng, 20, 10000).unwrap();
    assert!(p.is_prime());
    assert_eq!(bit_length(&p), 20);
}

#[test]
fn prime_search_gives_up_after_its_attempts() {
    let mut zeros = RecordingSource::new(Fixed(0));
    assert!(BigInt::new_prime(&mut zeros, 16, 5).is_none());
}

#[test]
fn roots_truncate_toward_zero() {
    let mut x = big(30);
    let rem = x.root(3);
    assert!(x.equals(&big(3)));
    assert!(rem.equals(&big(3)));
    let mut y = big(-30);
    let rem = y.root(3);
    assert!(y.equals(&big(-3)));
    assert!(rem.equals(&big(-3)));
    let mut z = big(1 << 40);
    let rem = z.root(2);
    assert!(z.equals(&big(1 << 20)));
    assert!(rem.equals(&big(0)));
    let mut w = big(12345);
    let rem = w.root(1);
    assert!(w.equals(&big(12345)));
    assert!(rem.equals(&big(0)));
    let mut u = big(7);
    let rem = u.root(1000);
    assert!(u.equals(&big(1)));
    assert!(rem.equals(&big(6)));
}

#[test]
fn hexadecimal_text() {
    assert_eq!(big(0).to_string(), "0");
    assert_eq!(big(255).to_string(), "ff");
    assert_eq!(big(0x1abc).to_string(), "1abc");
    assert_eq!(big(-4096).to_string(), "-1000");
    assert_eq!(big(10).to_string(), "a");
}

#[test]
fn jacobi_and_legendre_symbols() {
    assert_eq!(BigInt::jacobi(&big(1001), &big(9907)), -1);
    assert_eq!(BigInt::jacobi(&big(19), &big(45)), 1);
    assert_eq!(BigInt::jacobi(&big(8), &big(21)), -1);
    assert_eq!(BigInt::jacobi(&big(5), &big(21)), 1);
    assert_eq!(BigInt::jacobi(&big(6), &big(15)), 0);
    assert_eq!(BigInt::jacobi(&big(-1), &big(7)), -1);
    assert_eq!(BigInt::jacobi(&big(3), &big(1)), 1);
    assert_eq!(big(2).legendre(&big(7)), 1);
    assert_eq!(big(3).legendre(&big(7)), -1);
    assert_eq!(big(14).legendre(&big(7)), 0);
}

#[test]
fn small_values_as_bytes() {
    assert_eq!(big(200).to_u8(), 200);
    assert_eq!(big(0).to_u8(), 0);
    assert!(big(0).is_zero());
    assert!(!big(-1).is_zero());
}

#[test]
fn random_bytes_build_the_value() {
    // partial lead byte: 12 bits keep the low four bits of 0xab, top of them set
    assert!(BigInt::from_random_bytes(&[0xab, 0xcd], 12).equals(&big(0xbcd)));
    // partial lead byte whose kept bits are zero gets its highest kept bit set
    assert!(BigInt::from_random_bytes(&[0xf0, 0x01], 11).equals(&big(0x401)));
    // whole bytes: only the first has its top bit forced
    assert!(BigInt::from_random_bytes(&[0x12, 0x34], 16).equals(&big(0x9234)));
    assert!(BigInt::from_random_bytes(&[0x00], 1).equals(&big(1)));
}

#[test]
fn random_draws_one_byte_per_started_byte_in_order() {
    let mut rng = RecordingSource::new(Counting { calls: 0 });
    let v = BigInt::new_rand(&mut rng, 20);
    assert_eq!(rng.source().calls, 3);
    // bytes 1, 2, 3: lead 1 masked to four bits with bit three set
    assert!(v.equals(&big(0x090203)));
    let mut w = big(0);
    w.rand(&mut rng, 16);
    assert_eq!(rng.source().calls, 5);
    assert!(w.equals(&big(0x8405)));
}

#[test]
fn all_zero_and_all_ones_sources() {
    for bits in 1..40usize {
        let low = BigInt::new_rand(&mut RecordingSource::new(Fixed(0)), bits);
        assert!(low.equals(&big(1).mul(&big(2).pow(bits as u64 - 1))));
        let high = BigInt::new_rand(&mut RecordingSource::new(Fixed(0xff)), bits);
        assert!(high.equals(&big(2).pow(bits as u64).dec(1)));
    }
}

#[test]
fn prime_search_takes_the_first_passing_candidate() {
    // one byte per candidate: 8 bits, top bit forced; bytes 1, 2, 3, ... give
    // 129, 130, 131, ...: 131 is the first prime
    let mut rng = RecordingSource::new(Counting { calls: 0 });
    let p = BigInt::new_prime(&mut rng, 8, 100).unwrap();
    assert!(p.equals(&big(131)));
    assert_eq!(rng.source().calls, 3);
    let mut none = RecordingSource::new(Counting { calls: 0 });
    assert!(BigInt::new_prime(&mut none, 8, 0).is_none());
    assert_eq!(none.source().calls, 0);
}
