use maths::prime::Prime;
use maths::{gcf, lcm, multiply_value};

#[test]
fn lcm_ok() {
    assert_eq!(lcm(&vec![0, 5]), 0);
    assert_eq!(lcm(&vec![5]), 5);
    assert_eq!(lcm(&vec![20, 75]), 300);
    assert_eq!(lcm(&vec![12, 15, 75]), 300);
    assert_eq!(lcm(&vec![1265, 1587, 7565]), 132_062_205);
    assert_eq!(lcm(&vec![10, 5, 67, 1548, 3, 568, 47]), 3_461_002_920);
}

#[test]
fn gcm_ok() {
    assert_eq!(gcf(&vec![]), Err(0));
    assert_eq!(gcf(&vec![0, 5]), Err(0));
    assert_eq!(gcf(&vec![65, 5, 0]), Err(0));
    assert_eq!(gcf(&vec![5]), Ok(5));
    assert_eq!(gcf(&vec![20, 75]), Ok(5));
    assert_eq!(gcf(&vec![12, 15, 75]), Ok(3));
    assert_eq!(gcf(&vec![330, 75, 450, 225]), Ok(15));
    assert_eq!(gcf(&vec![10, 5, 67, 1548, 3, 568, 47]), Ok(1));
}

#[test]
fn lcm_identity_cases() {
    assert_eq!(lcm(&[]), 1);
    assert_eq!(lcm(&[0]), 0);
    assert_eq!(lcm(&[1]), 1);
    assert_eq!(lcm(&[7]), 7);
    assert_eq!(lcm(&[4096]), 4096);
    assert_eq!(lcm(&[0, 9]), 0);
    assert_eq!(lcm(&[9, 0]), 0);
}

#[test]
fn gcf_single_and_ones() {
    assert_eq!(gcf(&vec![1]), Ok(1));
    assert_eq!(gcf(&vec![97]), Ok(97));
    assert_eq!(gcf(&vec![1, 12]), Ok(1));
    assert_eq!(gcf(&vec![12, 1]), Ok(1));
}

#[test]
fn idempotence() {
    for n in [1u32, 2, 6, 97, 360] {
        assert_eq!(lcm(&[n, n]), n);
        assert_eq!(gcf(&vec![n, n]), Ok(n));
    }
    assert_eq!(lcm(&[0, 0]), 0);
}

#[test]
fn gcf_times_lcm_of_pairs() {
    for (a, b) in [(20u32, 75u32), (12, 15), (5, 7), (9, 9), (1, 30)] {
        let g = gcf(&vec![a, b]).unwrap();
        let l = lcm(&[a, b]);
        assert_eq!(g * l, a * b);
    }
}

#[test]
fn multiply_value_of_powers() {
    assert_eq!(multiply_value(&[]), 1);
    assert_eq!(
        multiply_value(&[
            Prime {
                value: 2,
                exponent: 3
            },
            Prime {
                value: 5,
                exponent: 1
            },
        ]),
        40
    );
    assert_eq!(
        multiply_value(&[Prime {
            value: 7,
            exponent: 2
        }]),
        49
    );
}
