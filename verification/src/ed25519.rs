//! Scalars, points and Pedersen commitments over the Ed25519 elliptic curve.
//!
//! A point is held by its canonical encoding and a scalar by its reduced encoding. The arithmetic
//! itself is curve25519-dalek's.

use curve25519_dalek::edwards::CompressedEdwardsY;
use curve25519_dalek::constants::ED25519_BASEPOINT_TABLE;
use curve25519_dalek::scalar::Scalar as DalekScalar;
use vstd::prelude::*;
use zeroize::Zeroize;

use crate::bytes::{bytes_eq, le_bytes, le_nat, u64_to_le, zeros};
use crate::bytes::{lemma_le_bytes_le_nat, lemma_le_nat_le_bytes_8, lemma_le_nat_zeros};
use crate::hash::{keccak256, keccak256_digest};

verus! {

/// The order of the prime-order subgroup, which scalars are reduced by.
pub open spec fn group_order() -> nat {
    0x1000000000000000000000000000000014def9dea2f79cd65812631a5cf5d3ednat
}

/// The encoding of the identity point.
pub const IDENTITY: [u8; 32] = [
    1, 0, 0, 0, 0, 0, 0, 0, 0, 0, 0, 0, 0, 0, 0, 0, 0, 0, 0, 0, 0, 0, 0, 0, 0, 0, 0, 0, 0, 0, 0, 0,
];

/// The encoding of `H`, the generator amounts are committed to with.
pub const H: [u8; 32] = [
    139, 101, 89, 112, 21, 55, 153, 175, 42, 234, 220, 159, 241, 173, 208, 234, 108, 114, 81, 213,
    65, 84, 207, 169, 44, 23, 58, 13, 211, 156, 31, 148,
];

/// The encoding of the point `bytes` decodes to, `None` if it decodes to no point.
pub uninterp spec fn reencoded(bytes: Seq<u8>) -> Option<Seq<u8>>;

/// The encoding of the point `scalar` times the point `point` encodes.
pub uninterp spec fn point_product(scalar: nat, point: Seq<u8>) -> Seq<u8>;

/// The encoding of the point `scalar` times the Ed25519 basepoint.
pub uninterp spec fn base_product(scalar: nat) -> Seq<u8>;

/// The encoding of the point the curve's cofactor, eight, times the point `point` encodes.
pub open spec fn cofactor_product(point: Seq<u8>) -> Seq<u8> {
    point_product(8, point)
}

/// The encoding of the sum of the points `a`, `b` encode.
pub uninterp spec fn point_sum(a: Seq<u8>, b: Seq<u8>) -> Seq<u8>;

/// The encoding of the point `a` encodes, less the point `b` encodes.
pub uninterp spec fn point_difference(a: Seq<u8>, b: Seq<u8>) -> Seq<u8>;

/// The integer of the scalar `data` hashes to.
pub open spec fn scalar_hash(data: Seq<u8>) -> nat {
    le_nat(keccak256_digest(data)) % group_order()
}

/// If `bytes` is the one canonical encoding of a point on the curve.
pub open spec fn is_canonical(bytes: Seq<u8>) -> bool {
    reencoded(bytes) == Some(bytes)
}

/// If `to` is `from` offset by the basepoint times `offset`.
///
/// Any further offset then may be summed with this one, and the private key of `to` is the sum of
/// that of `from`, if it has one, and `offset`.
pub open spec fn is_offset_key(from: Seq<u8>, offset: nat, to: Seq<u8>) -> bool {
    &&& to == point_sum(from, base_product(offset))
    &&& forall|further: nat|
        further < group_order() ==> #[trigger] point_sum(to, base_product(further)) == point_sum(
            from,
            base_product((offset + further) % group_order()),
        )
    &&& forall|private: nat|
        private < group_order() && from == #[trigger] base_product(private) ==> to == base_product(
            (private + offset) % group_order(),
        )
}

/// `CompressedEdwardsY::decompress`, followed by `EdwardsPoint::compress`.
///
/// Claimed of it: if a point is decoded, and which one, depends on the bytes alone, and the
/// encoding of a point decodes to that point. `H` is such an encoding.
#[verifier::external_body]
fn dalek_reencode(bytes: &[u8; 32]) -> (res: Option<[u8; 32]>)
    ensures
        match res {
            Some(encoding) => reencoded(bytes@) == Some(encoding@) && is_canonical(encoding@),
            None => reencoded(bytes@) is None,
        },
        bytes@ == H@ ==> res is Some && res->0@ == H@,
{
    match CompressedEdwardsY(*bytes).decompress() {
        Some(point) => Some(point.compress().to_bytes()),
        None => None,
    }
}

/// `&Scalar * &EdwardsPoint`, over encodings.
///
/// Claimed of it: the product depends on the scalar's value and on the point alone, and is encoded
/// canonically.
#[verifier::external_body]
fn dalek_point_product(scalar: &[u8; 32], point: &[u8; 32]) -> (res: [u8; 32])
    requires
        is_canonical(point@),
    ensures
        res@ == point_product(le_nat(scalar@), point@),
        is_canonical(res@),
{
    let point = CompressedEdwardsY(*point).decompress().expect("canonical encoding of a point");
    (&DalekScalar::from_bytes_mod_order(*scalar) * &point).compress().to_bytes()
}

/// `&Scalar * ED25519_BASEPOINT_TABLE`, over encodings.
///
/// Claimed of it: the product depends on the scalar's value alone, and is encoded canonically.
#[verifier::external_body]
fn dalek_base_product(scalar: &[u8; 32]) -> (res: [u8; 32])
    ensures
        res@ == base_product(le_nat(scalar@)),
        is_canonical(res@),
{
    (&DalekScalar::from_bytes_mod_order(*scalar) * ED25519_BASEPOINT_TABLE).compress().to_bytes()
}

/// `EdwardsPoint::mul_by_cofactor`, over encodings.
///
/// Claimed of it: the product is that by eight, and is encoded canonically.
#[verifier::external_body]
fn dalek_cofactor_product(point: &[u8; 32]) -> (res: [u8; 32])
    requires
        is_canonical(point@),
    ensures
        res@ == point_product(8, point@),
        is_canonical(res@),
{
    let point = CompressedEdwardsY(*point).decompress().expect("canonical encoding of a point");
    point.mul_by_cofactor().compress().to_bytes()
}

/// `EdwardsPoint + EdwardsPoint`, over encodings.
///
/// Claimed of it: the sum depends on the two points alone, is encoded canonically, and yields `a`
/// again once `b` is subtracted from it. If `b` is a multiple of the basepoint, adding another
/// multiple is adding the sum of the scalars at once, and if both are multiples of it, so is the
/// sum, by the sum of the scalars.
#[verifier::external_body]
fn dalek_point_sum(a: &[u8; 32], b: &[u8; 32]) -> (res: [u8; 32])
    requires
        is_canonical(a@),
        is_canonical(b@),
    ensures
        res@ == point_sum(a@, b@),
        is_canonical(res@),
        point_difference(res@, b@) == a@,
        forall|n: nat|
            n < group_order() && b@ == #[trigger] base_product(n) ==> is_offset_key(a@, n, res@),
{
    let a = CompressedEdwardsY(*a).decompress().expect("canonical encoding of a point");
    let b = CompressedEdwardsY(*b).decompress().expect("canonical encoding of a point");
    (a + b).compress().to_bytes()
}

/// `EdwardsPoint - EdwardsPoint`, over encodings.
///
/// Claimed of it: the difference depends on the two points alone, is encoded canonically, and
/// yields `a` again once `b` is added to it. If `b` is a multiple of the basepoint, adding another
/// multiple to `a` is adding the sum of the scalars to it, and if both it and `b` are multiples of
/// the basepoint, so is `a`, by the sum of the scalars.
#[verifier::external_body]
fn dalek_point_difference(a: &[u8; 32], b: &[u8; 32]) -> (res: [u8; 32])
    requires
        is_canonical(a@),
        is_canonical(b@),
    ensures
        res@ == point_difference(a@, b@),
        is_canonical(res@),
        point_sum(res@, b@) == a@,
        forall|n: nat|
            n < group_order() && b@ == #[trigger] base_product(n) ==> is_offset_key(res@, n, a@),
{
    let a = CompressedEdwardsY(*a).decompress().expect("canonical encoding of a point");
    let b = CompressedEdwardsY(*b).decompress().expect("canonical encoding of a point");
    (a - b).compress().to_bytes()
}

/// `<CompressedEdwardsY as Zeroize>::zeroize`, over its bytes.
///
/// Claimed of it: what is left is the identity's encoding, which is canonical.
#[verifier::external_body]
fn dalek_zeroize_point(bytes: &mut [u8; 32])
    ensures
        final(bytes)@ == IDENTITY@,
        is_canonical(final(bytes)@),
    no_unwind
{
    let mut point = CompressedEdwardsY(*bytes);
    point.zeroize();
    *bytes = point.to_bytes();
}

/// `Scalar::from_bytes_mod_order`, over encodings.
///
/// Claimed of it: the integer encoded is reduced by the group order.
#[verifier::external_body]
fn dalek_scalar_reduce(bytes: &[u8; 32]) -> (res: [u8; 32])
    ensures
        le_nat(res@) == le_nat(bytes@) % group_order(),
{
    DalekScalar::from_bytes_mod_order(*bytes).to_bytes()
}

/// `Scalar + Scalar`, over encodings.
///
/// Claimed of it: the sum is that of the integers encoded, reduced by the group order.
#[verifier::external_body]
fn dalek_scalar_sum(a: &[u8; 32], b: &[u8; 32]) -> (res: [u8; 32])
    ensures
        le_nat(res@) == (le_nat(a@) + le_nat(b@)) % group_order(),
{
    let sum = DalekScalar::from_bytes_mod_order(*a) + DalekScalar::from_bytes_mod_order(*b);
    sum.to_bytes()
}

/// `Scalar - Scalar`, over encodings.
///
/// Claimed of it: the difference is that of the integers encoded, reduced by the group order to be
/// non-negative.
#[verifier::external_body]
fn dalek_scalar_difference(a: &[u8; 32], b: &[u8; 32]) -> (res: [u8; 32])
    ensures
        le_nat(res@) as int == (le_nat(a@) - le_nat(b@)) % (group_order() as int),
{
    let difference = DalekScalar::from_bytes_mod_order(*a) - DalekScalar::from_bytes_mod_order(*b);
    difference.to_bytes()
}

/// `<[u8; 32] as Zeroize>::zeroize`.
///
/// Claimed of it: every byte left is zero.
#[verifier::external_body]
pub(crate) fn zeroize_bytes(bytes: &mut [u8; 32])
    ensures
        final(bytes)@ == zeros(32),
    no_unwind
{
    bytes.zeroize();
}

/// A scalar, reduced by the group order.
pub struct Scalar {
    bytes: [u8; 32],
}

/// The integer the scalar is.
impl View for Scalar {
    type V = nat;

    closed spec fn view(&self) -> nat {
        le_nat(self.bytes@)
    }
}

impl Clone for Scalar {
    fn clone(&self) -> (res: Self)
        ensures
            res@ == self@,
    {
        proof {
            use_type_invariant(self);
        }
        Scalar { bytes: self.bytes }
    }
}

impl Scalar {
    #[verifier::type_invariant]
    spec fn is_reduced(self) -> bool {
        le_nat(self.bytes@) < group_order()
    }

    /// The scalar an integer is reduced to.
    pub fn from_bytes_mod_order(bytes: [u8; 32]) -> (res: Scalar)
        ensures
            res@ == le_nat(bytes@) % group_order(),
            res@ < group_order(),
    {
        Scalar { bytes: dalek_scalar_reduce(&bytes) }
    }

    /// The scalar of value `n`.
    pub fn from_u64(n: u64) -> (res: Scalar)
        ensures
            res@ == n,
            res@ < group_order(),
    {
        let low = u64_to_le(n);
        let mut bytes: [u8; 32] = [0;32];
        let mut i: usize = 0;
        while i < 8
            invariant
                i <= 8,
                bytes@ == low@.subrange(0, i as int) + zeros((32 - i) as nat),
            decreases 8 - i,
        {
            bytes[i] = low[i];
            i += 1;
            assert(bytes@ =~= low@.subrange(0, i as int) + zeros((32 - i) as nat));
        }
        proof {
            assert(low@.subrange(0, 8) =~= low@);
            lemma_le_nat_zeros(low@, 24);
            lemma_le_nat_le_bytes_8(n);
        }
        Scalar { bytes }
    }

    /// The scalar `data` hashes to: its Keccak-256 digest, as an integer, reduced.
    pub fn hash(data: &[u8]) -> (res: Scalar)
        ensures
            res@ == scalar_hash(data@),
            res@ < group_order(),
    {
        Scalar::from_bytes_mod_order(keccak256(data))
    }

    /// The scalar's encoding.
    pub fn to_bytes(&self) -> (res: [u8; 32])
        ensures
            res@ == le_bytes(self@, 32),
    {
        proof {
            lemma_le_bytes_le_nat(self.bytes@);
        }
        self.bytes
    }

    /// The sum of two scalars.
    pub fn plus(&self, other: &Scalar) -> (res: Scalar)
        ensures
            res@ == (self@ + other@) % group_order(),
            res@ < group_order(),
    {
        Scalar { bytes: dalek_scalar_sum(&self.bytes, &other.bytes) }
    }

    /// The difference of two scalars.
    pub fn minus(&self, other: &Scalar) -> (res: Scalar)
        ensures
            res@ as int == (self@ - other@) % (group_order() as int),
            res@ < group_order(),
    {
        Scalar { bytes: dalek_scalar_difference(&self.bytes, &other.bytes) }
    }

    /// Overwrite the scalar with zero.
    pub fn zeroize(&mut self)
        ensures
            final(self)@ == 0,
    {
        proof {
            lemma_le_nat_zeros(Seq::empty(), 32);
        }
        zeroize_bytes(&mut self.bytes);
    }
}

/// A point on the curve.
pub struct Point {
    bytes: [u8; 32],
}

/// The point's canonical encoding.
impl View for Point {
    type V = Seq<u8>;

    closed spec fn view(&self) -> Seq<u8> {
        self.bytes@
    }
}

impl Clone for Point {
    fn clone(&self) -> (res: Self)
        ensures
            res@ == self@,
    {
        proof {
            use_type_invariant(self);
        }
        Point { bytes: self.bytes }
    }
}

impl Point {
    #[verifier::type_invariant]
    spec fn is_point(self) -> bool {
        is_canonical(self.bytes@)
    }

    /// The point `bytes` canonically encodes.
    ///
    /// Encodings whose field element is unreduced, or which are of negative zero, aren't canonical.
    pub fn decompress(bytes: &[u8; 32]) -> (res: Option<Point>)
        ensures
            match res {
                Some(point) => is_canonical(bytes@) && point@ == bytes@,
                None => !is_canonical(bytes@),
            },
            bytes@ == H@ ==> res is Some,
    {
        match dalek_reencode(bytes) {
            Some(encoding) => {
                if bytes_eq(&encoding, bytes) {
                    Some(Point { bytes: encoding })
                } else {
                    None
                }
            },
            None => None,
        }
    }

    /// The point's canonical encoding.
    pub fn compress(&self) -> (res: [u8; 32])
        ensures
            res@ == self@,
            is_canonical(res@),
    {
        proof {
            use_type_invariant(self);
        }
        self.bytes
    }

    /// The basepoint, times `scalar`.
    pub fn base_times(scalar: &Scalar) -> (res: Point)
        ensures
            res@ == base_product(scalar@),
    {
        Point { bytes: dalek_base_product(&scalar.bytes) }
    }

    /// This point, times `scalar`.
    pub fn times(&self, scalar: &Scalar) -> (res: Point)
        ensures
            res@ == point_product(scalar@, self@),
    {
        proof {
            use_type_invariant(self);
        }
        Point { bytes: dalek_point_product(&scalar.bytes, &self.bytes) }
    }

    /// This point, times the curve's cofactor.
    pub fn times_cofactor(&self) -> (res: Point)
        ensures
            res@ == cofactor_product(self@),
    {
        proof {
            use_type_invariant(self);
        }
        Point { bytes: dalek_cofactor_product(&self.bytes) }
    }

    /// The sum of two points, which yields the first again once the second is subtracted.
    pub fn plus(&self, other: &Point) -> (res: Point)
        ensures
            res@ == point_sum(self@, other@),
            point_difference(res@, other@) == self@,
            forall|n: nat|
                n < group_order() && other@ == #[trigger] base_product(n) ==> is_offset_key(
                    self@,
                    n,
                    res@,
                ),
    {
        proof {
            use_type_invariant(self);
            use_type_invariant(other);
        }
        Point { bytes: dalek_point_sum(&self.bytes, &other.bytes) }
    }

    /// The difference of two points, which yields the first again once the second is added.
    pub fn minus(&self, other: &Point) -> (res: Point)
        ensures
            res@ == point_difference(self@, other@),
            point_sum(res@, other@) == self@,
            forall|n: nat|
                n < group_order() && other@ == #[trigger] base_product(n) ==> is_offset_key(
                    res@,
                    n,
                    self@,
                ),
    {
        proof {
            use_type_invariant(self);
            use_type_invariant(other);
        }
        Point { bytes: dalek_point_difference(&self.bytes, &other.bytes) }
    }

    /// Overwrite the point with the identity.
    pub fn zeroize(&mut self)
        ensures
            final(self)@ == IDENTITY@,
    {
        dalek_zeroize_point(&mut self.bytes);
    }
}

/// The opening of a Pedersen commitment to an amount.
pub struct Commitment {
    /// The mask hiding the amount.
    pub mask: Scalar,
    /// The amount committed to.
    pub amount: u64,
}

/// The encoding of the commitment to `amount` with `mask`: `mask * G + amount * H`.
pub open spec fn committed(mask: nat, amount: nat) -> Seq<u8> {
    point_sum(base_product(mask), point_product(amount, H@))
}

impl Clone for Commitment {
    fn clone(&self) -> (res: Self)
        ensures
            res.mask@ == self.mask@,
            res.amount == self.amount,
    {
        Commitment { mask: self.mask.clone(), amount: self.amount }
    }
}

impl Commitment {
    /// The opening of the commitment to zero without randomness, which has a mask of one.
    pub fn zero() -> (res: Commitment)
        ensures
            res.mask@ == 1,
            res.amount == 0,
    {
        Commitment { mask: Scalar::from_u64(1), amount: 0 }
    }

    /// The commitment this opens.
    pub fn commit(&self) -> (res: Point)
        ensures
            res@ == committed(self.mask@, self.amount as nat),
    {
        let h = Point::decompress(&H).unwrap();
        Point::base_times(&self.mask).plus(&h.times(&Scalar::from_u64(self.amount)))
    }
}

} // verus!
