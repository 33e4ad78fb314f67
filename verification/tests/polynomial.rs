use sss::gf256::Gf256;
use sss::lagrange::interpolate;
use sss::polynomial::{evaluate, generate_polynom};

fn elements(values: &[u8]) -> Vec<Gf256> {
    values.iter().map(|&v| Gf256(v)).collect()
}

#[test]
fn evaluate_known_values() {
    let secret = Gf256(0x2a);
    let polynom = elements(&[0x03, 0x05]);
    let expected = [0x2cu8, 0x38, 0x3e, 0x76, 0x70];
    for (i, &y) in expected.iter().enumerate() {
        assert_eq!(evaluate(&secret, &polynom, &Gf256(i as u8 + 1)), Gf256(y));
    }
}

#[test]
fn evaluate_at_zero_is_the_secret() {
    let secret = Gf256(0x2a);
    let polynom = elements(&[0x9f, 0xe0, 0x11]);
    assert_eq!(evaluate(&secret, &polynom, &Gf256(0)), secret);
}

#[test]
fn evaluate_constant_polynomial() {
    let secret = Gf256(0x77);
    let polynom: Vec<Gf256> = Vec::new();
    for x in 0..=255u8 {
        assert_eq!(evaluate(&secret, &polynom, &Gf256(x)), secret);
    }
}

#[test]
fn evaluate_long_polynomial() {
    let secret = Gf256(0x2a);
    let polynom = elements(&[0xff; 254]);
    assert_eq!(evaluate(&secret, &polynom, &Gf256(0xfe)), Gf256(0xd5));
}

#[test]
fn generated_polynomial_has_one_coefficient_less_than_the_threshold() {
    let secret = Gf256(0x2a);
    assert_eq!(generate_polynom(&secret, 1).len(), 0);
    assert_eq!(generate_polynom(&secret, 2).len(), 1);
    assert_eq!(generate_polynom(&secret, 3).len(), 2);
    assert_eq!(generate_polynom(&secret, 255).len(), 254);
}

#[test]
fn generated_polynomials_differ() {
    let secret = Gf256(0x2a);
    let first = generate_polynom(&secret, 33);
    let mut differs = false;
    for _ in 0..8 {
        if generate_polynom(&secret, 33) != first {
            differs = true;
        }
    }
    assert!(differs);
}

#[test]
fn interpolate_known_values() {
    assert_eq!(
        interpolate(&elements(&[1, 2, 4]), &elements(&[0x10, 0x21, 0x07])),
        Gf256(0xfa)
    );
    assert_eq!(interpolate(&elements(&[0x53, 0x02]), &elements(&[0xca, 0x8d])), Gf256(0x47));
    assert_eq!(
        interpolate(&elements(&[5, 6, 7, 8]), &elements(&[1, 2, 3, 4])),
        Gf256(0x4d)
    );
}

#[test]
fn interpolate_one_point_gives_its_value() {
    assert_eq!(interpolate(&elements(&[7]), &elements(&[0x55])), Gf256(0x55));
}

#[test]
fn interpolate_no_points_gives_zero() {
    assert_eq!(interpolate(&elements(&[]), &elements(&[])), Gf256(0));
}

#[test]
fn interpolate_through_the_point_at_zero_gives_its_value() {
    assert_eq!(interpolate(&elements(&[0, 9]), &elements(&[0x77, 0x01])), Gf256(0x77));
}

#[test]
fn interpolate_recovers_the_constant_term() {
    let secret = Gf256(0x2a);
    let polynom = elements(&[0x9f, 0xe0]);
    let xs = elements(&[0x10, 0xab, 0xff]);
    let ys: Vec<Gf256> = xs.iter().map(|x| evaluate(&secret, &polynom, x)).collect();
    assert_eq!(ys, elements(&[0xe1, 0x3b, 0xed]));
    assert_eq!(interpolate(&xs, &ys), secret);
}

#[test]
fn interpolate_with_too_few_points_misses_the_secret() {
    let xs = elements(&[1, 2]);
    let ys = elements(&[0x55, 0xa2]);
    assert_eq!(interpolate(&xs, &ys), Gf256(0xf1));
}
