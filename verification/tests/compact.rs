use sss::gf256::Gf256;
use sss::shamir::{
    check_split_parameters, CompactShamir, ReconstructionError, Shamir,
};
use sss::share::{CompactShare, GetX, Share};

fn split(secret: u8, k: usize, n: usize) -> Vec<CompactShare<Gf256>> {
    assert!(<CompactShamir as Shamir<Gf256>>::check_parameters(k, n));
    <CompactShamir as Shamir<Gf256>>::split(&Gf256(secret), k, n).unwrap()
}

fn reconstruct(shares: &[CompactShare<Gf256>], k: usize) -> Result<Gf256, ReconstructionError> {
    <CompactShamir as Shamir<Gf256>>::reconstruct(shares, k)
}

#[test]
fn split_parameters() {
    assert!(check_split_parameters(1, 1));
    assert!(check_split_parameters(3, 5));
    assert!(check_split_parameters(255, 255));
    assert!(!check_split_parameters(0, 5));
    assert!(!check_split_parameters(0, 0));
    assert!(!check_split_parameters(1, 0));
    assert!(!check_split_parameters(6, 5));
    assert!(!check_split_parameters(3, 256));
    assert!(!check_split_parameters(256, 256));
    assert!(<CompactShamir as Shamir<Gf256>>::check_parameters(3, 255));
    assert!(!<CompactShamir as Shamir<Gf256>>::check_parameters(3, 256));
}

#[test]
fn three_of_five() {
    let shares = split(0x2a, 3, 5);
    assert_eq!(shares.len(), 5);
    for (i, share) in shares.iter().enumerate() {
        assert_eq!(share.getx() as usize, i + 1);
    }
    let picked = [shares[0], shares[2], shares[4]];
    assert_eq!(reconstruct(&picked, 3), Ok(Gf256(0x2a)));
    assert_eq!(reconstruct(&picked[..2], 3), Err(ReconstructionError::InsufficientShares));
}

#[test]
fn split_with_a_given_polynomial() {
    let polynom = vec![Gf256(0x9f), Gf256(0xe0)];
    let shares = CompactShamir::split_with_polynom(&Gf256(0x2a), &polynom, 5);
    let expected = vec![
        Share::new(1u8, Gf256(0x55)),
        Share::new(2u8, Gf256(0xa2)),
        Share::new(3u8, Gf256(0xdd)),
        Share::new(4u8, Gf256(0xe2)),
        Share::new(5u8, Gf256(0x9d)),
    ];
    assert_eq!(shares, expected);
    assert_eq!(reconstruct(&shares, 3), Ok(Gf256(0x2a)));
    assert_eq!(reconstruct(&shares[..2], 2), Ok(Gf256(0xf1)));
}

#[test]
fn split_with_no_shares() {
    let polynom = vec![Gf256(0x9f)];
    assert_eq!(CompactShamir::split_with_polynom(&Gf256(0x2a), &polynom, 0), vec![]);
}

#[test]
fn first_shares_reconstruct() {
    for secret in [0x00u8, 0x01, 0x2a, 0xff] {
        for (k, n) in [(1, 1), (1, 4), (2, 2), (2, 7), (3, 5), (5, 5), (16, 20)] {
            let shares = split(secret, k, n);
            assert_eq!(shares.len(), n);
            assert_eq!(reconstruct(&shares[..k], k), Ok(Gf256(secret)));
            assert_eq!(reconstruct(&shares, k), Ok(Gf256(secret)));
        }
    }
}

#[test]
fn fewer_shares_than_the_threshold() {
    let shares = split(0x2a, 3, 5);
    assert_eq!(reconstruct(&shares[..0], 3), Err(ReconstructionError::InsufficientShares));
    assert_eq!(reconstruct(&shares[..1], 3), Err(ReconstructionError::InsufficientShares));
    assert_eq!(reconstruct(&shares[..2], 3), Err(ReconstructionError::InsufficientShares));
    assert_eq!(reconstruct(&shares[3..], 3), Err(ReconstructionError::InsufficientShares));
}

#[test]
fn every_subset_of_three_reconstructs() {
    let shares = split(0x2a, 3, 6);
    for a in 0..6 {
        for b in 0..6 {
            for c in 0..6 {
                if a != b && b != c && a != c {
                    let picked = [shares[a], shares[b], shares[c]];
                    assert_eq!(reconstruct(&picked, 3), Ok(Gf256(0x2a)));
                }
            }
        }
    }
}

#[test]
fn x_coordinates_count_up_from_one() {
    let shares = split(0x99, 4, 255);
    assert_eq!(shares.len(), 255);
    for (i, share) in shares.iter().enumerate() {
        assert_eq!(share.getx() as usize, i + 1);
    }
}

#[test]
fn largest_split() {
    let shares = split(0x99, 255, 255);
    assert_eq!(reconstruct(&shares, 255), Ok(Gf256(0x99)));
    assert_eq!(reconstruct(&shares[..254], 255), Err(ReconstructionError::InsufficientShares));
}

#[test]
fn threshold_of_one_copies_the_secret() {
    let shares = split(0x2a, 1, 3);
    for share in shares.iter() {
        assert_eq!(share.gety(), Gf256(0x2a));
    }
    assert_eq!(reconstruct(&shares[2..], 1), Ok(Gf256(0x2a)));
}

#[test]
fn two_shares_with_one_x_are_refused() {
    let shares = split(0x2a, 3, 5);
    let twice = [shares[0], shares[1], shares[0]];
    assert_eq!(reconstruct(&twice, 3), Err(ReconstructionError::DuplicateXCoordinate));
    let late = [shares[0], shares[1], shares[2], shares[3], Share::new(2u8, Gf256(0))];
    assert_eq!(reconstruct(&late, 3), Err(ReconstructionError::DuplicateXCoordinate));
}

#[test]
fn too_few_shares_are_refused_before_duplicates() {
    let twice = [Share::new(1u8, Gf256(5)), Share::new(1u8, Gf256(5))];
    assert_eq!(reconstruct(&twice, 3), Err(ReconstructionError::InsufficientShares));
    assert_eq!(reconstruct(&twice, 2), Err(ReconstructionError::DuplicateXCoordinate));
}

#[test]
fn threshold_zero_reconstructs_zero() {
    let none: [CompactShare<Gf256>; 0] = [];
    assert_eq!(reconstruct(&none, 0), Ok(Gf256(0)));
}
