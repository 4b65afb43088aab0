//! The keys with which a wallet's outputs are found.

use vstd::prelude::*;

use crate::address::SubaddressIndex;
use crate::bytes::{le_bytes, push_bytes, u32_to_le};
use crate::ed25519::{base_product, group_order, is_offset_key, point_product, point_sum};
use crate::ed25519::{scalar_hash, Point, Scalar};

verus! {

/// `SubAddr`, null-terminated, which what a subaddress is derived from starts with.
pub const SUBADDRESS_DOMAIN: [u8; 8] = [0x53, 0x75, 0x62, 0x41, 0x64, 0x64, 0x72, 0];

/// The offset of a subaddress's spend key from the primary address's.
pub open spec fn subaddress_offset(view: nat, index: SubaddressIndex) -> nat {
    scalar_hash(
        SUBADDRESS_DOMAIN@ + le_bytes(view, 32) + le_bytes(index@.0 as nat, 4) + le_bytes(
            index@.1 as nat,
            4,
        ),
    )
}

/// A subaddress's spend key.
pub open spec fn subaddress_spend_key(
    spend: Seq<u8>,
    view: nat,
    index: SubaddressIndex,
) -> Seq<u8> {
    point_sum(spend, base_product(subaddress_offset(view, index)))
}

/// The public spend key and private view key, with which received outputs can be found.
pub struct ViewPair {
    spend: Point,
    view: Scalar,
}

/// The encoding of the public spend key, and the private view key.
impl View for ViewPair {
    type V = (Seq<u8>, nat);

    closed spec fn view(&self) -> (Seq<u8>, nat) {
        (self.spend@, self.view@)
    }
}

impl Clone for ViewPair {
    fn clone(&self) -> (res: Self)
        ensures
            res@ == self@,
    {
        ViewPair { spend: self.spend.clone(), view: self.view.clone() }
    }
}

impl ViewPair {
    /// Pair the public spend key with the private view key.
    pub fn new(spend: Point, view: Scalar) -> (res: ViewPair)
        ensures
            res@ == (spend@, view@),
    {
        ViewPair { spend, view }
    }

    /// The public spend key.
    pub fn spend(&self) -> (res: &Point)
        ensures
            res@ == self@.0,
    {
        &self.spend
    }

    /// The private view key.
    pub fn view_key(&self) -> (res: &Scalar)
        ensures
            res@ == self@.1,
    {
        &self.view
    }

    /// The offset of a subaddress's spend key from the primary address's.
    pub fn subaddress_derivation(&self, index: SubaddressIndex) -> (res: Scalar)
        ensures
            res@ == subaddress_offset(self@.1, index),
            res@ < group_order(),
    {
        let mut preimage: Vec<u8> = Vec::new();
        push_bytes(&mut preimage, &SUBADDRESS_DOMAIN);
        push_bytes(&mut preimage, &self.view.to_bytes());
        push_bytes(&mut preimage, &u32_to_le(index.account()));
        push_bytes(&mut preimage, &u32_to_le(index.address()));
        assert(preimage@ =~= SUBADDRESS_DOMAIN@ + le_bytes(self@.1, 32) + le_bytes(
            index@.0 as nat,
            4,
        ) + le_bytes(index@.1 as nat, 4));
        Scalar::hash(preimage.as_slice())
    }

    /// A subaddress's spend and view keys.
    pub fn subaddress_keys(&self, index: SubaddressIndex) -> (res: (Point, Point))
        ensures
            res.0@ == subaddress_spend_key(self@.0, self@.1, index),
            is_offset_key(self@.0, subaddress_offset(self@.1, index), res.0@),
            res.1@ == point_product(self@.1, res.0@),
    {
        let spend = self.spend.plus(&Point::base_times(&self.subaddress_derivation(index)));
        let view = spend.times(&self.view);
        (spend, view)
    }

    /// Overwrite the spend key with the identity and the view key with zero.
    pub fn zeroize(&mut self)
        ensures
            final(self)@ == (crate::ed25519::IDENTITY@, 0nat),
    {
        self.spend.zeroize();
        self.view.zeroize();
    }
}

/// A `ViewPair` for outputs which are guaranteed to be spendable.
pub struct GuaranteedViewPair(pub ViewPair);

impl GuaranteedViewPair {
    /// Pair the public spend key with the private view key.
    pub fn new(spend: Point, view: Scalar) -> (res: GuaranteedViewPair)
        ensures
            res.0@ == (spend@, view@),
    {
        GuaranteedViewPair(ViewPair::new(spend, view))
    }
}

} // verus!
