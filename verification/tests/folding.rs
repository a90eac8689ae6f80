use fri::fri::FRI;
use fri::prime_field::PrimeField;
use fri::fft::FFT;
use num_bigint::BigUint;

fn u(x: u64) -> BigUint {
    BigUint::from(x)
}

fn vecu(xs: &[u64]) -> Vec<BigUint> {
    xs.iter().map(|x| u(*x)).collect()
}

#[test]
pub fn test_fri() {
    let fri = FRI::new();
    let result = fri.construct();
    // the fixed generator's order exceeds the iteration cap, so the run
    // terminates with a rejected domain instead of looping toward 2^32
    assert!(result.is_err());
}

#[test]
fn test_fold_domain_halving() {
    let fri = FRI::new();
    // squares of the first half of [1, 9, 13, 15, 16, 8, 4, 2]
    let domain = vecu(&[1, 9, 13, 15, 16, 8, 4, 2]);
    let halved = fri.fold_domain(&domain);
    assert_eq!(halved.len(), domain.len() / 2);
    assert_eq!(halved, vecu(&[1, 81, 169, 225]));
    let odd = fri.fold_domain(&vecu(&[1, 9, 13]));
    assert_eq!(odd.len(), 1);
}

#[test]
fn test_folding_boundary() {
    // an order-16 generator of the 64-bit field: folding terminates after a
    // domain-size-determined number of rounds with the final layer
    let p = 18446744069414584321u64;
    let fri = FRI::new();
    let field = PrimeField::new(u(p));
    let fft = FFT::new(field);
    let g16 = u(17293822564807737345);
    let domain = fft.build_root_of_unity(&g16).unwrap();
    assert_eq!(domain.len(), 17);
    let polynomial = vecu(&[34, 2, 10, 17, 9]);
    let challenge = u(10);
    let layer = fri.fold(domain, polynomial, &challenge).unwrap();
    assert_eq!(
        layer,
        vecu(&[2376, 0, 101330991615836196, 18446743948618629841])
    );
}
