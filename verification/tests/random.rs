use sss::field::Field;
use sss::gf256::Gf256;
use sss::shamir::{
    check_reconstruct_parameters, reconstruct_from_points, RandomShamir, ReconstructionError,
    Shamir, SplitError,
};
use sss::share::{GetX, RandomShare, Share};

fn split(secret: u8, k: usize, n: usize) -> Vec<RandomShare<Gf256>> {
    assert!(<RandomShamir as Shamir<Gf256>>::check_parameters(k, n));
    <RandomShamir as Shamir<Gf256>>::split(&Gf256(secret), k, n).unwrap()
}

fn reconstruct(shares: &[RandomShare<Gf256>], k: usize) -> Result<Gf256, ReconstructionError> {
    <RandomShamir as Shamir<Gf256>>::reconstruct(shares, k)
}

#[test]
fn random_split_parameters() {
    assert!(<RandomShamir as Shamir<Gf256>>::check_parameters(1, 1));
    assert!(<RandomShamir as Shamir<Gf256>>::check_parameters(3, 5));
    assert!(<RandomShamir as Shamir<Gf256>>::check_parameters(3, 1000));
    assert!(!<RandomShamir as Shamir<Gf256>>::check_parameters(0, 5));
    assert!(!<RandomShamir as Shamir<Gf256>>::check_parameters(1, 0));
    assert!(!<RandomShamir as Shamir<Gf256>>::check_parameters(6, 5));
}

#[test]
fn random_first_shares_reconstruct() {
    for secret in [0x00u8, 0x01, 0x2a, 0xff] {
        for (k, n) in [(1, 1), (1, 4), (2, 2), (2, 7), (3, 5), (5, 5), (16, 20)] {
            let shares = split(secret, k, n);
            assert_eq!(shares.len(), n);
            assert_eq!(reconstruct(&shares[..k], k), Ok(Gf256(secret)));
            assert_eq!(reconstruct(&shares, k), Ok(Gf256(secret)));
        }
    }
}

#[test]
fn random_fewer_shares_than_the_threshold() {
    let shares = split(0x2a, 3, 5);
    assert_eq!(reconstruct(&shares[..2], 3), Err(ReconstructionError::InsufficientShares));
    assert_eq!(reconstruct(&shares[..0], 1), Err(ReconstructionError::InsufficientShares));
}

#[test]
fn random_every_subset_of_three_reconstructs() {
    let shares = split(0x2a, 3, 6);
    for a in 0..6 {
        for b in 0..6 {
            for c in 0..6 {
                if a != b && b != c && a != c {
                    let picked = [shares[a], shares[b], shares[c]];
                    assert_eq!(reconstruct(&picked, 3), Ok(Gf256(0x2a)));
                }
            }
        }
    }
}

#[test]
fn random_x_coordinates_are_distinct_and_not_zero() {
    for n in [1usize, 5, 100, 255] {
        let shares = split(0x2a, 1, n);
        assert_eq!(shares.len(), n);
        let mut seen = [false; 256];
        for share in shares.iter() {
            let Gf256(x) = share.getx();
            assert_ne!(x, 0);
            assert!(!seen[x as usize]);
            seen[x as usize] = true;
        }
    }
}

#[test]
fn random_shares_lie_on_one_polynomial() {
    let shares = split(0x2a, 3, 9);
    let secret = reconstruct(&shares[..3], 3);
    for start in 1..=6 {
        assert_eq!(reconstruct(&shares[start..start + 3], 3), secret);
    }
}

#[test]
fn more_shares_than_the_field_has_coordinates() {
    assert_eq!(
        <RandomShamir as Shamir<Gf256>>::split(&Gf256(0x2a), 1, 256),
        Err(SplitError::SamplingExhausted)
    );
}

#[test]
fn candidate_is_accepted_once() {
    let secret = Gf256(0x2a);
    let polynom = vec![Gf256(0x9f), Gf256(0xe0)];
    let mut shares: Vec<RandomShare<Gf256>> = Vec::new();
    assert!(RandomShamir::accept_candidate(&secret, &polynom, &mut shares, Gf256(0x10)));
    assert_eq!(shares, vec![Share::new(Gf256(0x10), Gf256(0xe1))]);
    assert!(!RandomShamir::accept_candidate(&secret, &polynom, &mut shares, Gf256(0x10)));
    assert_eq!(shares, vec![Share::new(Gf256(0x10), Gf256(0xe1))]);
    assert!(RandomShamir::accept_candidate(&secret, &polynom, &mut shares, Gf256(0xab)));
    assert!(RandomShamir::accept_candidate(&secret, &polynom, &mut shares, Gf256(0xff)));
    assert!(!RandomShamir::accept_candidate(&secret, &polynom, &mut shares, Gf256(0xab)));
    assert_eq!(
        shares,
        vec![
            Share::new(Gf256(0x10), Gf256(0xe1)),
            Share::new(Gf256(0xab), Gf256(0x3b)),
            Share::new(Gf256(0xff), Gf256(0xed)),
        ]
    );
    assert_eq!(reconstruct(&shares, 3), Ok(secret));
}

#[test]
fn candidate_zero_is_refused() {
    let secret = Gf256(0x2a);
    let polynom = vec![Gf256(0x9f)];
    let mut shares: Vec<RandomShare<Gf256>> = Vec::new();
    assert!(!RandomShamir::accept_candidate(&secret, &polynom, &mut shares, Gf256::zero()));
    assert!(shares.is_empty());
}

#[test]
fn random_two_shares_with_one_x_are_refused() {
    let shares = split(0x2a, 3, 5);
    let twice = [shares[0], shares[1], Share::new(shares[0].getx(), Gf256::one())];
    assert_eq!(reconstruct(&twice, 3), Err(ReconstructionError::DuplicateXCoordinate));
    assert_eq!(reconstruct(&twice, 4), Err(ReconstructionError::InsufficientShares));
}

#[test]
fn reconstruct_parameters() {
    let points = [
        Share::new(Gf256(1), Gf256(0x55)),
        Share::new(Gf256(2), Gf256(0xa2)),
        Share::new(Gf256(3), Gf256(0xdd)),
    ];
    assert_eq!(check_reconstruct_parameters(&points, 3), Ok(()));
    assert_eq!(check_reconstruct_parameters(&points, 0), Ok(()));
    assert_eq!(
        check_reconstruct_parameters(&points, 4),
        Err(ReconstructionError::InsufficientShares)
    );
    let twice = [points[0], points[1], Share::new(Gf256(2), Gf256(0))];
    assert_eq!(
        check_reconstruct_parameters(&twice, 2),
        Err(ReconstructionError::DuplicateXCoordinate)
    );
    assert_eq!(
        check_reconstruct_parameters(&twice, 4),
        Err(ReconstructionError::InsufficientShares)
    );
}

#[test]
fn reconstruct_from_known_points() {
    let points = [
        Share::new(Gf256(1), Gf256(0x55)),
        Share::new(Gf256(2), Gf256(0xa2)),
        Share::new(Gf256(3), Gf256(0xdd)),
        Share::new(Gf256(4), Gf256(0xe2)),
        Share::new(Gf256(5), Gf256(0x9d)),
    ];
    assert_eq!(reconstruct_from_points(&points, 3), Ok(Gf256(0x2a)));
    assert_eq!(reconstruct_from_points(&points[2..], 3), Ok(Gf256(0x2a)));
    assert_eq!(reconstruct_from_points(&points[..2], 2), Ok(Gf256(0xf1)));
    assert_eq!(
        reconstruct_from_points(&points[..2], 3),
        Err(ReconstructionError::InsufficientShares)
    );
}
