use rsa_bigint::BigInt;

fn big(i: isize) -> BigInt {
    BigInt::new_int(i)
}

#[test]
fn pow_mod_seven_thirteen_eleven() {
    let r = big(7).pow_mod(&big(13), &big(11));
    assert!(r.equals(&big(2)));
}

#[test]
fn zero_round_trips_through_bytes() {
    let mut bytes = big(0).to_bytes();
    assert!(bytes.is_empty());
    let back = BigInt::from_bytes(&mut bytes);
    assert!(back.equals(&big(0)));
}

#[test]
fn negative_plus_positive_is_zero() {
    assert!(big(-5).add(&big(5)).equals(&big(0)));
}

#[test]
fn bytes_are_big_endian_and_minimal() {
    let mut raw = vec![0u8, 0, 1, 2, 255];
    let v = BigInt::from_bytes(&mut raw);
    assert_eq!(raw, vec![0u8, 0, 1, 2, 255]);
    assert!(v.equals(&big(0x0102ff)));
    assert_eq!(v.to_bytes(), vec![1u8, 2, 255]);
    let mut again = v.to_bytes();
    assert!(BigInt::from_bytes(&mut again).equals(&v));
}

#[test]
fn negative_value_serialises_its_magnitude() {
    assert_eq!(big(-258).to_bytes(), vec![1u8, 2]);
}

#[test]
fn native_extremes() {
    let min = big(isize::MIN);
    let max = big(isize::MAX);
    assert!(min.add(&max).equals(&big(-1)));
    assert_eq!(max.to_bytes(), vec![0x7fu8, 0xff, 0xff, 0xff, 0xff, 0xff, 0xff, 0xff]);
    assert_eq!(min.to_bytes(), vec![0x80u8, 0, 0, 0, 0, 0, 0, 0]);
}

#[test]
fn comparison_is_three_way() {
    assert_eq!(big(3).cmp(&big(5)), -1);
    assert_eq!(big(5).cmp(&big(3)), 1);
    assert_eq!(big(-7).cmp(&big(-7)), 0);
    assert_eq!(big(-7).cmp(&big(2)), -1);
    assert_eq!(big(-2).cmp(&big(-300)), 1);
    assert!(big(300).equals(&big(300)));
    assert!(!big(300).equals(&big(-300)));
}

#[test]
fn sums_differences_and_products() {
    assert!(big(1000).sub(&big(1999)).equals(&big(-999)));
    assert!(big(-1000).sub(&big(-1999)).equals(&big(999)));
    assert!(big(255).inc(1).equals(&big(256)));
    assert!(big(256).dec(257).equals(&big(-1)));
    assert!(big(-123).mul(&big(456)).equals(&big(-56088)));
    assert!(big(-123).imul(-456).equals(&big(56088)));
    assert!(big(0).imul(-9).equals(&big(0)));
    assert!(big(65535).mul(&big(65537)).equals(&big(4294967295)));
}

#[test]
fn division_is_floored() {
    assert!(big(7).div(&big(2)).equals(&big(3)));
    assert!(big(-7).div(&big(2)).equals(&big(-4)));
    assert!(big(7).div(&big(-2)).equals(&big(-4)));
    assert!(big(-7).div(&big(-2)).equals(&big(3)));
    assert!(big(-8).div(&big(2)).equals(&big(-4)));
}

#[test]
fn remainder_takes_the_sign_of_the_modulus() {
    assert!(big(-7).rmod(&big(3)).equals(&big(2)));
    assert!(big(7).rmod(&big(-3)).equals(&big(-2)));
    assert!(big(-7).rmod(&big(-3)).equals(&big(-1)));
    assert!(big(9).rmod(&big(3)).equals(&big(0)));
    assert!(big(123456789).mul_mod(&big(987654321), &big(1000003)).equals(
        &big((123456789i64 * 987654321i64 % 1000003) as isize)
    ));
}

#[test]
fn powers() {
    let two = big(2);
    let p = two.pow(64);
    let mut expected = vec![1u8, 0, 0, 0, 0, 0, 0, 0, 0];
    assert!(p.equals(&BigInt::from_bytes(&mut expected)));
    assert!(big(-3).pow(3).equals(&big(-27)));
    assert!(big(5).pow(0).equals(&big(1)));
    assert!(big(-3).pow_mod(&big(3), &big(7)).equals(&big(1)));
    assert!(big(10).pow_mod(&big(0), &big(1)).equals(&big(0)));
}

#[test]
fn pow_mod_matches_repeated_mul_mod() {
    let m = big(1009);
    let a = big(123);
    let mut acc = big(1);
    for e in 0..20 {
        assert!(a.pow_mod(&big(e), &m).equals(&acc));
        acc = acc.mul_mod(&a, &m);
    }
}

#[test]
fn modular_inverse() {
    let x = big(3).inv_mod(&big(11)).unwrap();
    assert!(x.equals(&big(4)));
    let y = big(-3).inv_mod(&big(11)).unwrap();
    assert!(y.equals(&big(7)));
    assert!(big(2).inv_mod(&big(4)).is_none());
    let inverse = big(65537).inv_mod(&big(3120)).unwrap();
    assert!(big(65537).mul_mod(&inverse, &big(3120)).equals(&big(1)));
}

#[test]
fn coprimality_and_parity() {
    assert!(big(15).coprime(4));
    assert!(!big(15).coprime(6));
    assert!(big(-15).coprime(-4));
    assert!(!big(0).coprime(0));
    assert!(big(1).coprime(0));
    assert!(big(-4).is_even());
    assert!(!big(-3).is_even());
    assert!(big(0).is_even());
}

#[test]
fn copies_and_assignment() {
    let a = big(-77);
    let b = BigInt::new_copy(&a);
    assert!(b.equals(&a));
    let mut c = BigInt::new();
    assert!(c.equals(&big(0)));
    c.set(&a);
    assert!(c.equals(&big(-77)));
    assert!(a.abs_value().equals(&big(77)));
    assert!(a.negate().equals(&big(77)));
    assert!(BigInt::from_u64(u64::MAX).equals(&big(-1).add(&BigInt::from_u64(u64::MAX)).inc(1)));
}

#[test]
fn equality_and_clone_follow_the_value() {
    let a = big(-1234567);
    let b = a.clone();
    assert!(a == b);
    assert!(a != big(1234567));
    assert!(b.sub(&a).is_zero());
}

#[test]
fn reduction_distributes_over_sums() {
    let m = big(97);
    for (a, b) in [(1000isize, 2345isize), (-1000, 2345), (-5, -7), (0, 96)] {
        let lhs = big(a).add(&big(b)).rmod(&m);
        let rhs = big(a).rmod(&m).add(&big(b).rmod(&m)).rmod(&m);
        assert!(lhs.equals(&rhs));
        let fused = big(a).mul_mod(&big(b), &m);
        assert!(fused.equals(&big(a).mul(&big(b)).rmod(&m)));
    }
}

#[test]
fn large_values_round_trip_and_divide() {
    let mut bytes: Vec<u8> = (0..256).map(|i| (i * 7 + 1) as u8).collect();
    let x = BigInt::from_bytes(&mut bytes);
    assert_eq!(x.to_bytes(), bytes);
    let y = x.mul(&x).inc(12345);
    let q = y.div(&x);
    let r = y.rmod(&x);
    assert!(q.equals(&x));
    assert!(r.equals(&big(12345)));
}

#[test]
fn square_root_of_a_large_square() {
    let mut bytes: Vec<u8> = (0..32).map(|i| (i * 11 + 3) as u8).collect();
    let x = BigInt::from_bytes(&mut bytes);
    let mut s = x.mul(&x).inc(7);
    let rem = s.root(2);
    assert!(s.equals(&x));
    assert!(rem.equals(&big(7)));
}
