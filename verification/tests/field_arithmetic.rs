use sss::field::Field;
use sss::gf256::Gf256;

#[test]
fn addition_is_exclusive_or() {
    assert_eq!(Gf256(0x57).add(Gf256(0x83)), Gf256(0xd4));
    assert_eq!(Gf256(0x57).sub(Gf256(0x83)), Gf256(0xd4));
    assert_eq!(Gf256(0x57).neg(), Gf256(0x57));
    assert_eq!(Gf256(0xff).add(Gf256(0xff)), Gf256::zero());
}

#[test]
fn multiplication_known_products() {
    assert_eq!(Gf256(0x57).mul(Gf256(0x83)), Gf256(0xc1));
    assert_eq!(Gf256(0x57).mul(Gf256(0x13)), Gf256(0xfe));
    assert_eq!(Gf256(0x02).mul(Gf256(0x80)), Gf256(0x1b));
    assert_eq!(Gf256(0xff).mul(Gf256(0xff)), Gf256(0x13));
    assert_eq!(Gf256(0x80).mul(Gf256(0x80)), Gf256(0x9a));
}

#[test]
fn multiplication_by_zero_and_one() {
    for a in 0..=255u8 {
        assert_eq!(Gf256(a).mul(Gf256::zero()), Gf256::zero());
        assert_eq!(Gf256::zero().mul(Gf256(a)), Gf256::zero());
        assert_eq!(Gf256(a).mul(Gf256::one()), Gf256(a));
    }
}

#[test]
fn inverse_known_values() {
    assert_eq!(Gf256(0x53).invert(), Gf256(0xca));
    assert_eq!(Gf256(0x01).invert(), Gf256(0x01));
    assert_eq!(Gf256(0x02).invert(), Gf256(0x8d));
    assert_eq!(Gf256(0xff).invert(), Gf256(0x1c));
    assert_eq!(Gf256(0x80).invert(), Gf256(0x83));
}

#[test]
fn every_nonzero_element_has_an_inverse() {
    for a in 1..=255u8 {
        assert_eq!(Gf256(a).mul(Gf256(a).invert()), Gf256::one());
    }
}

#[test]
fn multiplication_is_commutative() {
    for a in 0..=255u8 {
        for b in 0..=255u8 {
            assert_eq!(Gf256(a).mul(Gf256(b)), Gf256(b).mul(Gf256(a)));
        }
    }
}

#[test]
fn multiplication_is_associative_and_distributes() {
    let samples = [0x00u8, 0x01, 0x02, 0x03, 0x1b, 0x2a, 0x53, 0x57, 0x80, 0x83, 0xca, 0xfe, 0xff];
    for &a in samples.iter() {
        for &b in samples.iter() {
            for &c in samples.iter() {
                let (a, b, c) = (Gf256(a), Gf256(b), Gf256(c));
                assert_eq!(a.mul(b).mul(c), a.mul(b.mul(c)));
                assert_eq!(a.mul(b.add(c)), a.mul(b).add(a.mul(c)));
            }
        }
    }
}

#[test]
fn equality_of_elements() {
    assert!(Gf256(7).equals(&Gf256(7)));
    assert!(!Gf256(7).equals(&Gf256(8)));
}

#[test]
fn small_integers_are_embedded_as_themselves() {
    for i in 0..=255u8 {
        assert_eq!(Gf256::from_small_integer(i), Gf256(i));
    }
    assert_eq!(Gf256::from_small_integer(0), Gf256::zero());
}

#[test]
fn bytes_of_an_element() {
    assert_eq!(Gf256(0x2a).to_bytes(), vec![0x2a]);
    assert_eq!(Gf256::from_bytes(&[0x2a]), Some(Gf256(0x2a)));
    assert_eq!(Gf256::from_bytes(&[]), None);
    assert_eq!(Gf256::from_bytes(&[0x2a, 0x00]), None);
    for a in 0..=255u8 {
        assert_eq!(Gf256::from_bytes(&Gf256(a).to_bytes()), Some(Gf256(a)));
    }
}

#[test]
fn uniform_draws_reach_many_elements() {
    let mut rng = rand::thread_rng();
    let mut seen = [false; 256];
    for _ in 0..20000 {
        let Gf256(a) = Gf256::uniform(&mut rng);
        seen[a as usize] = true;
    }
    let count = seen.iter().filter(|&&s| s).count();
    assert!(count > 200);
}
