use maths::prime::{is_prime, prime_factors, Prime};

#[test]
fn is_prime_ok() {
    assert_eq!(is_prime(2), true);
    assert_eq!(is_prime(3), true);
    assert_eq!(is_prime(5), true);
    assert_eq!(is_prime(11), true);
    assert_eq!(is_prime(8011), true);
    assert_eq!(is_prime(999999929), true);
}

#[test]
fn is_prime_nok() {
    assert_eq!(is_prime(0), false);
    assert_eq!(is_prime(1), false);
    assert_eq!(is_prime(4), false);
    assert_eq!(is_prime(15), false);
    assert_eq!(is_prime(289), false);
    assert_eq!(is_prime(8012), false);
    assert_eq!(is_prime(999999999), false);
}

#[test]
fn list_prime_factors() {
    assert_eq!(
        prime_factors(3),
        vec![Prime {
            value: 3,
            exponent: 1
        }]
    );
    assert_eq!(
        prime_factors(8),
        vec![Prime {
            value: 2,
            exponent: 3
        }]
    );
    assert_eq!(
        prime_factors(20),
        vec![
            Prime {
                value: 2,
                exponent: 2
            },
            Prime {
                value: 5,
                exponent: 1
            },
        ]
    );
    assert_eq!(
        prime_factors(24568),
        vec![
            Prime {
                value: 2,
                exponent: 3
            },
            Prime {
                value: 37,
                exponent: 1
            },
            Prime {
                value: 83,
                exponent: 1
            },
        ]
    );
    assert_eq!(
        prime_factors(68549888),
        vec![
            Prime {
                value: 2,
                exponent: 8
            },
            Prime {
                value: 11,
                exponent: 2
            },
            Prime {
                value: 2213,
                exponent: 1
            },
        ]
    );
    assert_eq!(
        prime_factors(115455),
        vec![
            Prime {
                value: 3,
                exponent: 1
            },
            Prime {
                value: 5,
                exponent: 1
            },
            Prime {
                value: 43,
                exponent: 1
            },
            Prime {
                value: 179,
                exponent: 1
            },
        ]
    );
}

#[test]
fn degenerate_pseudo_factors() {
    assert_eq!(
        prime_factors(0),
        vec![Prime {
            value: 0,
            exponent: 1
        }]
    );
    assert_eq!(
        prime_factors(1),
        vec![Prime {
            value: 1,
            exponent: 1
        }]
    );
}

#[test]
fn factorization_multiplies_back() {
    for n in [2u32, 6, 97, 360, 1024, 30030] {
        let product = prime_factors(n)
            .iter()
            .map(|p| p.value.pow(p.exponent))
            .product::<u32>();
        assert_eq!(product, n);
    }
}

#[test]
fn smallest_prime_is_two() {
    assert!(!is_prime(0));
    assert!(!is_prime(1));
    assert!(is_prime(2));
}
