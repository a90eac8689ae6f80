use fri::fft::FFT;
use fri::prime_field::PrimeField;
use fri::FriError;
use num_bigint::BigUint;

fn u(x: u64) -> BigUint {
    BigUint::from(x)
}

fn vecu(xs: &[u64]) -> Vec<BigUint> {
    xs.iter().map(|x| u(*x)).collect()
}

fn fft17() -> FFT {
    FFT::new(PrimeField::new(u(17)))
}

#[test]
fn test_root_of_unity() {
    let root_of_unity = u(9);
    let p = u(17);
    let fft = FFT::new(PrimeField::new(p));
    let result = fft.build_root_of_unity(&root_of_unity).unwrap();

    println!("{:?}", result);
    assert_eq!(result, vecu(&[1, 9, 13, 15, 16, 8, 4, 2, 1]));
}

#[test]
fn test_invalid_domain() {
    // 0 never returns to 1, so the iteration cap rejects it
    let fft = fft17();
    assert_eq!(
        fft.build_root_of_unity(&u(0)),
        Err(FriError::InvalidDomain)
    );
}

#[test]
fn test_fft_exact() {
    let fft = fft17();
    let out = fft.fft(vecu(&[3, 1, 4, 1, 5]), &u(9)).unwrap();
    assert_eq!(out, vecu(&[3, 11, 13, 13, 7, 8, 13, 10]));
}

#[test]
fn test_transform_round_trip() {
    let fft = fft17();
    let fwd = fft.fft(vecu(&[3, 1, 4, 1, 5]), &u(9)).unwrap();
    let back = fft.inv_fft(fwd, &u(9)).unwrap();
    // the input zero-padded to the domain size comes back exactly
    assert_eq!(back, vecu(&[3, 1, 4, 1, 5, 0, 0, 0]));
}

#[test]
fn test_fft_values_too_long() {
    // 9 values cannot fit the order-8 domain of g = 9
    let fft = fft17();
    assert_eq!(
        fft.fft(vecu(&[1, 2, 3, 4, 5, 6, 7, 8, 9]), &u(9)),
        Err(FriError::InvalidInput)
    );
}

#[test]
fn test_fft_order_not_power_of_two() {
    // 2 has order 3 mod 7, and 3 is not a power of two
    let fft = FFT::new(PrimeField::new(u(7)));
    assert_eq!(
        fft.fft(vecu(&[1, 2]), &u(2)),
        Err(FriError::InvalidDomain)
    );
}
