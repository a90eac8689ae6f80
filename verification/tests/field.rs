use fri::prime_field::PrimeField;
use fri::FriError;
use num_bigint::BigUint;

fn u(x: u64) -> BigUint {
    BigUint::from(x)
}

fn vecu(xs: &[u64]) -> Vec<BigUint> {
    xs.iter().map(|x| u(*x)).collect()
}

fn field17() -> PrimeField {
    PrimeField::new(u(17))
}

#[test]
fn test_prime() {
    let big = BigUint::parse_bytes(
        b"115792089237316195423570985008687907852837564279074904382605163141518161494017",
        10,
    )
    .unwrap();

    let v = u(31);
    let prime = PrimeField::new(v);

    let poly = vecu(&[4, 5, 6]);
    let m = prime.evaluate_polynomial(&poly, &u(2));

    println!("{:?}", m);
    assert_eq!(m, u(7));
    assert!(big > u(0));
}

#[test]
fn test_closure_exact() {
    let f = field17();
    assert_eq!(f.add(&u(16), &u(16)), u(15));
    assert_eq!(f.sub(&u(3), &u(7)), u(13));
    assert_eq!(f.mul(&u(13), &u(15)), u(8));
    // closure: results stay inside [0, p)
    for a in 0..17u64 {
        for b in 0..17u64 {
            assert!(f.add(&u(a), &u(b)) < u(17));
            assert!(f.sub(&u(a), &u(b)) < u(17));
            assert!(f.mul(&u(a), &u(b)) < u(17));
        }
    }
}

#[test]
fn test_inverse_roundtrip() {
    let f = field17();
    let inv = f.mod_inverse(&u(5)).unwrap();
    assert_eq!(inv, u(7));
    for a in 1..17u64 {
        let x = f.mod_inverse(&u(a)).unwrap();
        assert_eq!(f.mul(&u(a), &x), u(1));
    }
}

#[test]
fn test_inverse_zero_division() {
    let f = field17();
    assert_eq!(f.mod_inverse(&u(0)), Err(FriError::DivisionByZero));
    assert_eq!(f.div(&u(3), &u(0)), Err(FriError::DivisionByZero));
    assert_eq!(f.div(&u(10), &u(5)), Ok(f.mul(&u(10), &u(7))));
}

#[test]
fn test_batch_inverse_agreement() {
    let f = field17();
    let out = f.batch_inverse(&vecu(&[2, 0, 5])).unwrap();
    assert_eq!(out, vecu(&[9, 0, 7]));
    // agreement with the single inversion on every nonzero entry
    let values = vecu(&[1, 3, 0, 16, 4, 0, 11]);
    let out = f.batch_inverse(&values).unwrap();
    for (v, o) in values.iter().zip(out.iter()) {
        if *v == u(0) {
            assert_eq!(*o, u(0));
        } else {
            assert_eq!(*o, f.mod_inverse(v).unwrap());
        }
    }
}

#[test]
fn test_poly_add_sub_round_trip() {
    let f = field17();
    let a = vecu(&[1, 2, 3]);
    let b = vecu(&[5, 16, 4, 2]);
    let s = f.add_polynomial(&a, &b);
    let back = f.sub_polynomial(&s, &b);
    assert_eq!(back, vecu(&[1, 2, 3, 0]));
}

#[test]
fn test_division_identity() {
    let f = field17();
    let a = vecu(&[5, 3, 2, 1, 6]);
    let b = vecu(&[3, 1]);
    let q = f.div_polynomial(&a, &b).unwrap();
    assert_eq!(q, vecu(&[14, 2, 0, 6]));
    let m = f.mod_polynomial(&a, &b).unwrap();
    assert_eq!(m, vecu(&[14]));
    let back = f.add_polynomial(&f.mul_polynomial(&q, &b), &m);
    assert_eq!(back, a);
}

#[test]
fn test_div_polynomial_invalid_input() {
    let f = field17();
    assert_eq!(
        f.div_polynomial(&vecu(&[1]), &vecu(&[2, 1])),
        Err(FriError::InvalidInput)
    );
    assert_eq!(
        f.div_polynomial(&vecu(&[1, 2, 3]), &vecu(&[])),
        Err(FriError::InvalidInput)
    );
}

#[test]
fn test_vanishing_polynomial() {
    let f = field17();
    let z = f.zeropoly(&vecu(&[2, 3, 4]));
    assert_eq!(z, vecu(&[10, 9, 8, 1]));
    for x in [2u64, 3, 4] {
        assert_eq!(f.evaluate_polynomial(&z, &u(x)), u(0));
    }
}

#[test]
fn test_lagrange_interpolation() {
    let f = field17();
    let xs = vecu(&[1, 2, 3]);
    let ys = vecu(&[5, 7, 11]);
    let l = f.lagrange_interpolation(&xs, &ys).unwrap();
    assert_eq!(l, vecu(&[5, 16, 1]));
    for (x, y) in xs.iter().zip(ys.iter()) {
        assert_eq!(f.evaluate_polynomial(&l, x), *y);
    }
}

#[test]
fn test_lagrange_empty() {
    // no points ask for nothing: the empty polynomial, not an error
    let f = field17();
    let xs: Vec<BigUint> = Vec::new();
    let ys: Vec<BigUint> = Vec::new();
    assert_eq!(f.lagrange_interpolation(&xs, &ys), Ok(Vec::new()));
}

#[test]
fn test_lagrange_duplicate_points() {
    let f = field17();
    let xs = vecu(&[1, 2, 1]);
    let ys = vecu(&[5, 7, 11]);
    assert_eq!(
        f.lagrange_interpolation(&xs, &ys),
        Err(FriError::InvalidInput)
    );
    assert_eq!(
        f.lagrange_interpolation(&vecu(&[1, 2]), &vecu(&[5])),
        Err(FriError::InvalidInput)
    );
}

#[test]
fn test_evaluate_exact() {
    let f = field17();
    // 3 + 5x + 2x^2 at x = 4: 3 + 20 + 32 = 55 = 4 (mod 17)
    assert_eq!(f.evaluate_polynomial(&vecu(&[3, 5, 2]), &u(4)), u(4));
    assert_eq!(f.evaluate_polynomial(&vecu(&[]), &u(4)), u(0));
}
