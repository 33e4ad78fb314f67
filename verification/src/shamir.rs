//! Shamir's secret sharing: splitting a secret into shares and reconstructing it.

use crate::algebra::pairwise_distinct;
use crate::codec::{
    compact_parse_spec, compact_text, field_from_text, lemma_compact_text_round_trip,
    lemma_hex_is_ascii, lemma_random_text_round_trip, lemma_tokens_ascii, parse_byte,
    push_byte_text, push_field_text, random_parse_spec, random_text, split_line, split_spec,
    ParseError,
};
use crate::field::Field;
use crate::lagrange::{interpolate, interpolate_at_zero};
use crate::polynomial::{evaluate, evaluate_spec, generate_polynom};
use crate::share::{
    has_duplicate_x, lemma_duplicate_x, xs_of, ys_of, CompactShare, GetX, RandomShare, Share,
};
use rand::thread_rng;
use vstd::prelude::*;
use vstd::string::StringExecFns;

verus! {

/// Why a secret could not be reconstructed.
#[derive(Clone, Copy, Debug, PartialEq, Eq, Structural)]
pub enum ReconstructionError {
    /// Fewer shares were given than the threshold asks for.
    InsufficientShares,
    /// Two of the shares have the same x coordinate.
    DuplicateXCoordinate,
}

/// Why a secret could not be split.
#[derive(Clone, Copy, Debug, PartialEq, Eq, Structural)]
pub enum SplitError {
    /// No unused nonzero x coordinate was drawn within the allowed number of attempts.
    SamplingExhausted,
}

/// How often a random x coordinate is drawn for one share before splitting gives up.
pub const MAX_SAMPLING_ATTEMPTS: usize = 65536;

/// The threshold and the number of shares fit each other and the compact scheme:
/// `1 <= k <= n < 256`.
pub open spec fn split_parameters_valid(k: nat, n: nat) -> bool {
    k != 0 && n != 0 && k <= n && n < 256
}

/// Tells whether `k` and `n` can be used to split into compact shares.
pub fn check_split_parameters(k: usize, n: usize) -> (valid: bool)
    ensures
        valid == split_parameters_valid(k as nat, n as nat),
{
    k != 0 && n != 0 && k <= n && n < 256
}

/// The points all lie on the polynomial with constant term `secret` and the given
/// higher coefficients, and no two of them have the same x coordinate.
pub open spec fn is_sharing<F: Field>(
    points: Seq<Share<F, F>>,
    secret: F,
    coefficients: Seq<F>,
) -> bool {
    &&& pairwise_distinct(xs_of(points))
    &&& forall|i: int|
        0 <= i < points.len() ==> (#[trigger] points[i]).y == evaluate_spec(
            secret,
            coefficients,
            points[i].x,
        )
}

/// The points share `secret` with threshold `k`: they lie, with distinct x
/// coordinates, on one polynomial with constant term `secret` and `k - 1` further
/// coefficients.
pub open spec fn is_sharing_with_threshold<F: Field>(
    points: Seq<Share<F, F>>,
    secret: F,
    k: nat,
) -> bool {
    exists|coefficients: Seq<F>|
        coefficients.len() + 1 == k && #[trigger] is_sharing(points, secret, coefficients)
}

/// What the given shares and threshold are good for: an error if the shares are too
/// few, or if two of them share an x coordinate, else nothing.
pub open spec fn check_reconstruct_spec<F: Field>(points: Seq<Share<F, F>>, k: nat) -> Result<
    (),
    ReconstructionError,
> {
    if points.len() < k {
        Err(ReconstructionError::InsufficientShares)
    } else if has_duplicate_x(points) {
        Err(ReconstructionError::DuplicateXCoordinate)
    } else {
        Ok(())
    }
}

/// What reconstruction gives: an error if the shares are too few, or if two of them
/// share an x coordinate, else the interpolation at zero through the first `k`.
pub open spec fn reconstruct_spec<F: Field>(points: Seq<Share<F, F>>, k: nat) -> Result<
    F,
    ReconstructionError,
> {
    match check_reconstruct_spec(points, k) {
        Err(e) => Err(e),
        Ok(_) => Ok(
            interpolate_at_zero(xs_of(points.take(k as int)), ys_of(points.take(k as int))),
        ),
    }
}

/// Checks that there are at least `k` shares and that no two of them have the same
/// x coordinate.
pub fn check_reconstruct_parameters<F: Field>(shares: &[Share<F, F>], k: usize) -> (r: Result<
    (),
    ReconstructionError,
>)
    ensures
        r == check_reconstruct_spec(shares@, k as nat),
{
    if shares.len() < k {
        return Err(ReconstructionError::InsufficientShares);
    }
    let ghost xs = xs_of(shares@);
    proof {
        lemma_duplicate_x(shares@);
    }
    let mut i: usize = 0;
    while i < shares.len()
        invariant
            k <= shares.len(),
            i <= shares.len(),
            xs == xs_of(shares@),
            has_duplicate_x(shares@) <==> !pairwise_distinct(xs),
            forall|a: int, b: int| 0 <= a < i && 0 <= b < shares.len() && a != b ==> xs[a] != xs[b],
        decreases shares.len() - i,
    {
        let mut j: usize = 0;
        while j < shares.len()
            invariant
                k <= shares.len(),
                i < shares.len(),
                j <= shares.len(),
                xs == xs_of(shares@),
                has_duplicate_x(shares@) <==> !pairwise_distinct(xs),
                forall|b: int| 0 <= b < j && i != b ==> xs[i as int] != xs[b],
            decreases shares.len() - j,
        {
            if i != j && shares[i].x.equals(&shares[j].x) {
                assert(xs[i as int] == xs[j as int]);
                assert(!pairwise_distinct(xs));
                return Err(ReconstructionError::DuplicateXCoordinate);
            }
            j += 1;
        }
        i += 1;
    }
    Ok(())
}

/// Reconstructs the secret from points of the field.
pub fn reconstruct_from_points<F: Field>(points: &[Share<F, F>], k: usize) -> (r: Result<
    F,
    ReconstructionError,
>)
    ensures
        r == reconstruct_spec(points@, k as nat),
{
    match check_reconstruct_parameters(points, k) {
        Err(e) => Err(e),
        Ok(_) => {
            let ghost chosen = points@.take(k as int);
            proof {
                lemma_duplicate_x(points@);
            }
            let mut xs: Vec<F> = Vec::new();
            let mut ys: Vec<F> = Vec::new();
            let mut i: usize = 0;
            while i < k
                invariant
                    i <= k <= points.len(),
                    chosen == points@.take(k as int),
                    xs@ == xs_of(chosen).take(i as int),
                    ys@ == ys_of(chosen).take(i as int),
                decreases k - i,
            {
                xs.push(points[i].x);
                ys.push(points[i].y);
                assert(xs@ =~= xs_of(chosen).take(i + 1));
                assert(ys@ =~= ys_of(chosen).take(i + 1));
                i += 1;
            }
            assert(xs@ =~= xs_of(chosen));
            assert(ys@ =~= ys_of(chosen));
            assert(pairwise_distinct(xs@)) by {
                let all = xs_of(points@);
                assert forall|a: int, b: int|
                    0 <= a < xs@.len() && 0 <= b < xs@.len() && a != b implies xs@[a] != xs@[b] by {
                    assert(all[a] != all[b]);
                }
            }
            Ok(interpolate(&xs, &ys))
        },
    }
}

/// A scheme of Shamir's secret sharing over the field `F`.
pub trait Shamir<F: Field>: Sized {
    /// The x coordinate of a share.
    type X: Copy;

    /// A share.
    type Share: Copy + GetX<Self::X>;

    /// The point of the polynomial that a share stands for.
    spec fn point_spec(share: Self::Share) -> Share<F, F>;

    /// The thresholds and numbers of shares that the scheme can split with.
    spec fn parameters_valid(k: nat, n: nat) -> bool;

    /// Tells whether the scheme can split into `n` shares with threshold `k`.
    fn check_parameters(k: usize, n: usize) -> (valid: bool)
        ensures
            valid == Self::parameters_valid(k as nat, n as nat),
    ;

    /// Splits a secret into `n` shares, any `k` of which reconstruct it: the shares
    /// are `n` points with distinct x coordinates on one polynomial with constant
    /// term `secret` and `k - 1` further coefficients.
    fn split(secret: &F, k: usize, n: usize) -> (r: Result<Vec<Self::Share>, SplitError>)
        requires
            Self::parameters_valid(k as nat, n as nat),
        ensures
            match r {
                Ok(shares) => shares@.len() == n && is_sharing_with_threshold(
                    Seq::new(shares@.len(), |i: int| Self::point_spec(shares@[i])),
                    *secret,
                    k as nat,
                ),
                Err(e) => e == SplitError::SamplingExhausted,
            },
    ;

    /// The text of a share: `x|y`, each coordinate in its own text form.
    spec fn text_spec(share: Self::Share) -> Seq<char>;

    /// The share that a line of text stands for, if it stands for one.
    spec fn parse_spec(line: Seq<char>) -> Option<Self::Share>;

    /// Reading the text of a share gives the share back.
    proof fn lemma_codec_round_trip(share: Self::Share)
        ensures
            Self::parse_spec(Self::text_spec(share)) == Some(share),
    ;

    /// Writes a share as text.
    fn to_text(share: &Self::Share) -> (text: String)
        ensures
            text@ == Self::text_spec(*share),
    ;

    /// Reads a share from a line of text; a line that stands for no share is
    /// handed back in the error.
    fn parse_text(line: &str) -> (r: Result<Self::Share, ParseError>)
        ensures
            match r {
                Ok(share) => Self::parse_spec(line@) == Some(share),
                Err(e) => Self::parse_spec(line@) is None && e.line@ == line@,
            },
    ;

    /// Reconstructs the secret from at least `k` shares with distinct x coordinates, by
    /// interpolation through the first `k` of them.
    fn reconstruct(shares: &[Self::Share], k: usize) -> (r: Result<F, ReconstructionError>)
        ensures
            r == reconstruct_spec(
                Seq::new(shares@.len(), |i: int| Self::point_spec(shares@[i])),
                k as nat,
            ),
            shares@.len() < k ==> r == Err::<F, ReconstructionError>(
                ReconstructionError::InsufficientShares,
            ),
    ;
}

/// The point that a compact share stands for: its byte becomes the field element
/// that stands for the byte.
pub open spec fn compact_point<F: Field>(share: CompactShare<F>) -> Share<F, F> {
    Share { x: F::embed_spec(share.x), y: share.y }
}

/// The points that a sequence of compact shares stands for.
pub open spec fn compact_points<F: Field>(shares: Seq<CompactShare<F>>) -> Seq<Share<F, F>> {
    Seq::new(shares.len(), |i: int| compact_point(shares[i]))
}

/// The scheme with compact shares: the x coordinates are the bytes 1, 2, .. n.
pub struct CompactShamir;

/// The scheme with randomized shares: the x coordinates are drawn from the field.
pub struct RandomShamir;

/// The shares that the compact scheme makes of a secret with the given polynomial:
/// share `i` is the point at the field element that stands for `i + 1`.
pub open spec fn compact_sharing<F: Field>(secret: F, coefficients: Seq<F>, n: nat) -> Seq<
    CompactShare<F>,
> {
    Seq::new(
        n,
        |i: int|
            Share {
                x: (i + 1) as u8,
                y: evaluate_spec(secret, coefficients, F::embed_spec((i + 1) as u8)),
            },
    )
}

/// The shares are what the compact scheme returns for threshold `k`: the compact
/// shares of the secret with some polynomial of `k - 1` coefficients above it.
pub open spec fn is_compact_sharing_with_threshold<F: Field>(
    shares: Seq<CompactShare<F>>,
    secret: F,
    k: nat,
) -> bool {
    exists|coefficients: Seq<F>|
        coefficients.len() + 1 == k && shares == #[trigger] compact_sharing(
            secret,
            coefficients,
            shares.len(),
        )
}

impl CompactShamir {
    /// Evaluates the polynomial with constant term `secret` and the given higher
    /// coefficients at 1, 2, .. n.
    pub fn split_with_polynom<F: Field>(secret: &F, polynom: &Vec<F>, n: usize) -> (shares: Vec<
        CompactShare<F>,
    >)
        requires
            n < 256,
        ensures
            shares@ == compact_sharing(*secret, polynom@, n as nat),
    {
        let mut shares: Vec<CompactShare<F>> = Vec::new();
        let mut i: usize = 0;
        while i < n
            invariant
                i <= n < 256,
                shares@ == compact_sharing(*secret, polynom@, i as nat),
            decreases n - i,
        {
            let index: u8 = (i + 1) as u8;
            let x = F::from_small_integer(index);
            let y = evaluate(secret, polynom, &x);
            shares.push(Share { x: index, y });
            assert(shares@ =~= compact_sharing(*secret, polynom@, (i + 1) as nat));
            i += 1;
        }
        shares
    }
}

/// The compact shares are a sharing: their points lie on the polynomial and have
/// distinct x coordinates.
pub proof fn lemma_compact_sharing<F: Field>(secret: F, coefficients: Seq<F>, n: nat)
    requires
        n < 256,
    ensures
        is_sharing(
            compact_points(compact_sharing(secret, coefficients, n)),
            secret,
            coefficients,
        ),
{
    let shares = compact_sharing(secret, coefficients, n);
    let points = compact_points(shares);
    let xs = xs_of(points);
    assert forall|i: int, j: int| 0 <= i < xs.len() && 0 <= j < xs.len() && i != j implies xs[i]
        != xs[j] by {
        if xs[i] == xs[j] {
            F::lemma_embed_injective((i + 1) as u8, (j + 1) as u8);
        }
    }
}

/// Two compact shares have the same byte exactly when their points have the same x
/// coordinate.
pub proof fn lemma_compact_duplicates<F: Field>(shares: Seq<CompactShare<F>>)
    ensures
        has_duplicate_x(shares) <==> has_duplicate_x(compact_points(shares)),
{
    let points = compact_points(shares);
    if has_duplicate_x(shares) {
        let (i, j) = choose|i: int, j: int|
            0 <= i < shares.len() && 0 <= j < shares.len() && i != j && (#[trigger] shares[i]).x
                == (#[trigger] shares[j]).x;
        assert(points[i].x == points[j].x);
    }
    if has_duplicate_x(points) {
        let (i, j) = choose|i: int, j: int|
            0 <= i < points.len() && 0 <= j < points.len() && i != j && (#[trigger] points[i]).x
                == (#[trigger] points[j]).x;
        F::lemma_embed_injective(shares[i].x, shares[j].x);
        assert(shares[i].x == shares[j].x);
    }
}

impl<F: Field> Shamir<F> for CompactShamir {
    type X = u8;

    type Share = CompactShare<F>;

    open spec fn point_spec(share: CompactShare<F>) -> Share<F, F> {
        compact_point(share)
    }

    open spec fn parameters_valid(k: nat, n: nat) -> bool {
        split_parameters_valid(k, n)
    }

    fn check_parameters(k: usize, n: usize) -> bool {
        check_split_parameters(k, n)
    }

    /// Never fails; the x coordinates are exactly 1, 2, .. n.
    fn split(secret: &F, k: usize, n: usize) -> (r: Result<Vec<CompactShare<F>>, SplitError>)
        ensures
            r is Ok,
            forall|i: int| 0 <= i < n ==> (#[trigger] r.unwrap()@[i]).x == i + 1,
            r.unwrap()@.len() == n,
            is_compact_sharing_with_threshold(r.unwrap()@, *secret, k as nat),
    {
        let polynom = generate_polynom(secret, k);
        let shares = Self::split_with_polynom(secret, &polynom, n);
        proof {
            lemma_compact_sharing(*secret, polynom@, n as nat);
            assert(compact_points(shares@) =~= Seq::new(
                shares@.len(),
                |i: int| Self::point_spec(shares@[i]),
            ));
            assert(is_sharing(compact_points(shares@), *secret, polynom@));
            assert(shares@ == compact_sharing(*secret, polynom@, n as nat));
        }
        Ok(shares)
    }

    open spec fn text_spec(share: CompactShare<F>) -> Seq<char> {
        compact_text(share)
    }

    open spec fn parse_spec(line: Seq<char>) -> Option<CompactShare<F>> {
        compact_parse_spec(line)
    }

    proof fn lemma_codec_round_trip(share: CompactShare<F>) {
        lemma_compact_text_round_trip(share);
    }

    fn to_text(share: &CompactShare<F>) -> String {
        let mut text = String::new();
        push_byte_text(&mut text, share.x);
        text.append("|");
        push_field_text(&mut text, &share.y);
        proof {
            reveal_strlit("|");
            assert("|"@ =~= seq!['|']);
        }
        text
    }

    fn parse_text(line: &str) -> Result<CompactShare<F>, ParseError> {
        if !line.is_ascii() {
            proof {
                if compact_parse_spec::<F>(line@) is Some {
                    let (x, y) = split_spec(line@).unwrap();
                    lemma_hex_is_ascii(y);
                    lemma_tokens_ascii(line@);
                }
            }
            return Err(ParseError { line: String::from_str(line) });
        }
        match split_line(line) {
            Some((x_token, y_token)) => match parse_byte(x_token) {
                Some(x) => match field_from_text::<F>(y_token) {
                    Some(y) => Ok(Share { x, y }),
                    None => Err(ParseError { line: String::from_str(line) }),
                },
                None => Err(ParseError { line: String::from_str(line) }),
            },
            None => Err(ParseError { line: String::from_str(line) }),
        }
    }

    /// Two shares stand for the same x coordinate exactly when their bytes are equal:
    /// enough shares of which two have the same byte are refused, and no others are
    /// refused for that reason.
    fn reconstruct(shares: &[CompactShare<F>], k: usize) -> (r: Result<F, ReconstructionError>)
        ensures
            r == Err::<F, ReconstructionError>(ReconstructionError::DuplicateXCoordinate)
                <==> shares@.len() >= k && has_duplicate_x(shares@),
    {
        let ghost points_spec = compact_points(shares@);
        let mut points: Vec<Share<F, F>> = Vec::new();
        let mut i: usize = 0;
        while i < shares.len()
            invariant
                i <= shares.len(),
                points_spec == compact_points(shares@),
                points@ == points_spec.take(i as int),
            decreases shares.len() - i,
        {
            points.push(Share { x: F::from_small_integer(shares[i].x), y: shares[i].y });
            assert(points@ =~= points_spec.take(i + 1));
            i += 1;
        }
        assert(points@ =~= points_spec);
        proof {
            assert(points_spec =~= Seq::new(
                shares@.len(),
                |i: int| Self::point_spec(shares@[i]),
            ));
            lemma_compact_duplicates(shares@);
        }
        reconstruct_from_points(points.as_slice(), k)
    }
}

/// The x coordinate can be used for one more share: it is not zero and no share has
/// it yet.
pub open spec fn is_fresh<F: Field>(x: F, shares: Seq<RandomShare<F>>) -> bool {
    &&& x != F::zero_spec()
    &&& forall|i: int| 0 <= i < shares.len() ==> (#[trigger] shares[i]).x != x
}

/// The shares are what the randomized scheme may return: points of the polynomial
/// with distinct x coordinates, none of them zero.
pub open spec fn is_random_sharing<F: Field>(
    shares: Seq<RandomShare<F>>,
    secret: F,
    coefficients: Seq<F>,
) -> bool {
    &&& is_sharing(shares, secret, coefficients)
    &&& forall|i: int| 0 <= i < shares.len() ==> (#[trigger] shares[i]).x != F::zero_spec()
}

/// The shares are what the randomized scheme may return for threshold `k`: a
/// randomized sharing with some polynomial of `k - 1` coefficients above the secret.
pub open spec fn is_random_sharing_with_threshold<F: Field>(
    shares: Seq<RandomShare<F>>,
    secret: F,
    k: nat,
) -> bool {
    exists|coefficients: Seq<F>|
        coefficients.len() + 1 == k && #[trigger] is_random_sharing(shares, secret, coefficients)
}

impl RandomShamir {
    /// Takes a candidate x coordinate that was drawn at random: if it is zero or
    /// taken, nothing changes and the result is `false`; else the share at `x` is
    /// added and the result is `true`.
    pub fn accept_candidate<F: Field>(
        secret: &F,
        polynom: &Vec<F>,
        shares: &mut Vec<RandomShare<F>>,
        x: F,
    ) -> (accepted: bool)
        ensures
            accepted == is_fresh(x, old(shares)@),
            accepted ==> final(shares)@ == old(shares)@.push(
                Share { x, y: evaluate_spec(*secret, polynom@, x) },
            ),
            !accepted ==> final(shares)@ == old(shares)@,
    {
        if x.equals(&F::zero()) {
            return false;
        }
        let mut i: usize = 0;
        while i < shares.len()
            invariant
                i <= shares.len(),
                shares@ == old(shares)@,
                forall|j: int| 0 <= j < i ==> (#[trigger] shares@[j]).x != x,
            decreases shares.len() - i,
        {
            if x.equals(&shares[i].x) {
                return false;
            }
            i += 1;
        }
        let y = evaluate(secret, polynom, &x);
        shares.push(Share { x, y });
        true
    }
}

/// Adding a share at a fresh x coordinate keeps a randomized sharing one.
pub proof fn lemma_random_sharing_extended<F: Field>(
    shares: Seq<RandomShare<F>>,
    secret: F,
    coefficients: Seq<F>,
    x: F,
)
    requires
        is_random_sharing(shares, secret, coefficients),
        is_fresh(x, shares),
    ensures
        is_random_sharing(
            shares.push(Share { x, y: evaluate_spec(secret, coefficients, x) }),
            secret,
            coefficients,
        ),
{
    let longer = shares.push(Share { x, y: evaluate_spec(secret, coefficients, x) });
    let xs = xs_of(longer);
    let before = xs_of(shares);
    assert forall|i: int, j: int| 0 <= i < xs.len() && 0 <= j < xs.len() && i != j implies xs[i]
        != xs[j] by {
        if i < shares.len() && j < shares.len() {
            assert(before[i] != before[j]);
        } else if i < shares.len() {
            assert(shares[i].x != x);
        } else {
            assert(shares[j].x != x);
        }
    }
    assert forall|i: int| 0 <= i < longer.len() implies (#[trigger] longer[i]).y == evaluate_spec(
        secret,
        coefficients,
        longer[i].x,
    ) by {
        if i < shares.len() {
            assert(longer[i] == shares[i]);
        }
    }
    assert forall|i: int| 0 <= i < longer.len() implies (#[trigger] longer[i]).x
        != F::zero_spec() by {
        if i < shares.len() {
            assert(longer[i] == shares[i]);
        }
    }
}

impl<F: Field> Shamir<F> for RandomShamir {
    type X = F;

    type Share = RandomShare<F>;

    open spec fn point_spec(share: RandomShare<F>) -> Share<F, F> {
        share
    }

    open spec fn parameters_valid(k: nat, n: nat) -> bool {
        k != 0 && n != 0 && k <= n
    }

    fn check_parameters(k: usize, n: usize) -> bool {
        k != 0 && n != 0 && k <= n
    }

    /// The x coordinates are distinct and none of them is zero.
    fn split(secret: &F, k: usize, n: usize) -> (r: Result<Vec<RandomShare<F>>, SplitError>)
        ensures
            r is Ok ==> forall|i: int|
                0 <= i < n ==> (#[trigger] r.unwrap()@[i]).x != F::zero_spec(),
            r is Ok ==> forall|i: int, j: int|
                0 <= i < n && 0 <= j < n && i != j ==> (#[trigger] r.unwrap()@[i]).x != (
                #[trigger] r.unwrap()@[j]).x,
            r is Ok ==> is_random_sharing_with_threshold(r.unwrap()@, *secret, k as nat),
    {
        let polynom = generate_polynom(secret, k);
        let mut rng = thread_rng();
        let mut shares: Vec<RandomShare<F>> = Vec::new();
        let mut i: usize = 0;
        assert(is_random_sharing(shares@, *secret, polynom@));
        while i < n
            invariant
                i <= n,
                shares@.len() == i,
                is_random_sharing(shares@, *secret, polynom@),
            decreases n - i,
        {
            let mut attempts: usize = 0;
            let mut accepted = false;
            while !accepted && attempts < MAX_SAMPLING_ATTEMPTS
                invariant
                    attempts <= MAX_SAMPLING_ATTEMPTS,
                    shares@.len() == if accepted {
                        i + 1
                    } else {
                        i as int
                    },
                    is_random_sharing(shares@, *secret, polynom@),
                decreases MAX_SAMPLING_ATTEMPTS - attempts,
            {
                let x = F::uniform(&mut rng);
                proof {
                    if is_fresh(x, shares@) {
                        lemma_random_sharing_extended(shares@, *secret, polynom@, x);
                    }
                }
                accepted = Self::accept_candidate(secret, &polynom, &mut shares, x);
                attempts += 1;
            }
            if !accepted {
                return Err(SplitError::SamplingExhausted);
            }
            i += 1;
        }
        proof {
            assert(Seq::new(shares@.len(), |i: int| Self::point_spec(shares@[i])) =~= shares@);
            assert(is_sharing(shares@, *secret, polynom@));
            assert(is_random_sharing(shares@, *secret, polynom@));
            let xs = xs_of(shares@);
            assert forall|i: int, j: int| 0 <= i < n && 0 <= j < n && i != j implies (
            #[trigger] shares@[i]).x != (#[trigger] shares@[j]).x by {
                assert(xs[i] != xs[j]);
            }
            assert forall|i: int| 0 <= i < n implies (#[trigger] shares@[i]).x
                != F::zero_spec() by {}
            assert(polynom@.len() == k - 1);
            assert(is_random_sharing_with_threshold(shares@, *secret, k as nat));
            assert(is_sharing_with_threshold(
                Seq::new(shares@.len(), |i: int| Self::point_spec(shares@[i])),
                *secret,
                k as nat,
            ));
        }
        Ok(shares)
    }

    open spec fn text_spec(share: RandomShare<F>) -> Seq<char> {
        random_text(share)
    }

    open spec fn parse_spec(line: Seq<char>) -> Option<RandomShare<F>> {
        random_parse_spec(line)
    }

    proof fn lemma_codec_round_trip(share: RandomShare<F>) {
        lemma_random_text_round_trip(share);
    }

    fn to_text(share: &RandomShare<F>) -> String {
        let mut text = String::new();
        push_field_text(&mut text, &share.x);
        text.append("|");
        push_field_text(&mut text, &share.y);
        proof {
            reveal_strlit("|");
            assert("|"@ =~= seq!['|']);
        }
        text
    }

    fn parse_text(line: &str) -> Result<RandomShare<F>, ParseError> {
        if !line.is_ascii() {
            proof {
                if random_parse_spec::<F>(line@) is Some {
                    let (x, y) = split_spec(line@).unwrap();
                    lemma_hex_is_ascii(x);
                    lemma_hex_is_ascii(y);
                    lemma_tokens_ascii(line@);
                }
            }
            return Err(ParseError { line: String::from_str(line) });
        }
        match split_line(line) {
            Some((x_token, y_token)) => match field_from_text::<F>(x_token) {
                Some(x) => match field_from_text::<F>(y_token) {
                    Some(y) => Ok(Share { x, y }),
                    None => Err(ParseError { line: String::from_str(line) }),
                },
                None => Err(ParseError { line: String::from_str(line) }),
            },
            None => Err(ParseError { line: String::from_str(line) }),
        }
    }

    /// Enough shares of which two have the same x coordinate are refused, and no
    /// others are refused for that reason.
    fn reconstruct(shares: &[RandomShare<F>], k: usize) -> (r: Result<F, ReconstructionError>)
        ensures
            r == Err::<F, ReconstructionError>(ReconstructionError::DuplicateXCoordinate)
                <==> shares@.len() >= k && has_duplicate_x(shares@),
    {
        proof {
            assert(Seq::new(shares@.len(), |i: int| Self::point_spec(shares@[i])) =~= shares@);
        }
        reconstruct_from_points(shares, k)
    }
}

} // verus!
