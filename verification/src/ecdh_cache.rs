//! A cache of the products of the view key with transactions' keys.

use std::collections::HashMap;

use ahash::RandomState;
use vstd::prelude::*;

use crate::ed25519::{point_product, Point, Scalar, IDENTITY};

verus! {

/// aHash's randomly seeded hasher.
#[verifier::external_type_specification]
#[verifier::external_body]
pub struct ExRandomState(ahash::RandomState);

/// The values within a map, by their keys.
pub uninterp spec fn indexed(map: HashMap<[u8; 32], usize, RandomState>) -> Map<Seq<u8>, usize>;

/// `ahash::RandomState::new`. Nothing is claimed of it, as its seed is random.
pub assume_specification[ RandomState::new ]() -> (res: RandomState)
;

/// `HashMap::with_hasher`.
///
/// Claimed of it: the map is empty.
#[verifier::external_body]
fn map_with_hasher(state: RandomState) -> (res: HashMap<[u8; 32], usize, RandomState>)
    ensures
        forall|key: Seq<u8>| !(#[trigger] indexed(res).contains_key(key)),
{
    HashMap::with_hasher(state)
}

/// `HashMap::get`.
///
/// Claimed of it: a key has the value it was last inserted with, and solely keys inserted have one.
#[verifier::external_body]
fn map_get(map: &HashMap<[u8; 32], usize, RandomState>, key: &[u8; 32]) -> (res: Option<usize>)
    ensures
        match res {
            Some(value) => indexed(*map).contains_key(key@) && indexed(*map)[key@] == value,
            None => !indexed(*map).contains_key(key@),
        },
{
    map.get(key).copied()
}

/// `HashMap::insert`.
///
/// Claimed of it: the key has this value, and all other keys have the values they had.
#[verifier::external_body]
fn map_insert(map: &mut HashMap<[u8; 32], usize, RandomState>, key: [u8; 32], value: usize)
    ensures
        indexed(*final(map)) == indexed(*old(map)).insert(key@, value),
{
    map.insert(key, value);
}

/// A cache of the products of one view key with transactions' keys.
pub struct EcdhCache {
    view: Scalar,
    indexes: HashMap<[u8; 32], usize, RandomState>,
    products: Vec<Point>,
}

/// The keys whose product is cached.
impl View for EcdhCache {
    type V = Set<Seq<u8>>;

    closed spec fn view(&self) -> Set<Seq<u8>> {
        indexed(self.indexes).dom()
    }
}

impl EcdhCache {
    /// The view key the products are with.
    pub closed spec fn view_key(&self) -> nat {
        self.view@
    }

    /// If each product cached is that with its key.
    pub closed spec fn wf(&self) -> bool {
        forall|key: Seq<u8>| #[trigger]
            indexed(self.indexes).contains_key(key) ==> indexed(self.indexes)[key]
                < self.products@.len() && self.products@[indexed(self.indexes)[key] as int]@
                == point_product(self.view@, key)
    }

    /// A cache of no products.
    pub(crate) fn new(view: &Scalar) -> (res: EcdhCache)
        ensures
            res.wf(),
            res.view_key() == view@,
            res@ == Set::<Seq<u8>>::empty(),
    {
        let res = EcdhCache {
            view: view.clone(),
            indexes: map_with_hasher(RandomState::new()),
            products: Vec::new(),
        };
        assert(res@ =~= Set::<Seq<u8>>::empty()) by {
            assert forall|key: Seq<u8>| !res@.contains(key) by {
                assert(!indexed(res.indexes).contains_key(key));
            }
        }
        res
    }

    /// How many products are cached.
    pub closed spec fn len(&self) -> nat {
        self.products@.len()
    }

    /// The product at an index.
    pub closed spec fn product(&self, i: int) -> Seq<u8> {
        self.products@[i]@
    }

    /// The index of the product with `key`, if it's cached.
    pub(crate) fn find(&self, key: &Point) -> (res: Option<usize>)
        requires
            self.wf(),
        ensures
            match res {
                Some(i) => self@.contains(key@) && i < self.len() && self.product(i as int)
                    == point_product(self.view_key(), key@),
                None => !self@.contains(key@),
            },
    {
        map_get(&self.indexes, &key.compress())
    }

    /// The product at an index.
    pub(crate) fn at(&self, i: usize) -> (res: &Point)
        requires
            i < self.len(),
        ensures
            res@ == self.product(i as int),
    {
        &self.products[i]
    }

    /// The product with `key`, which is computed, neither taken from the cache nor cached.
    pub(crate) fn compute(&self, key: &Point) -> (res: Point)
        ensures
            res@ == point_product(self.view_key(), key@),
    {
        key.times(&self.view)
    }

    /// Cache the product with `key`, returning its index.
    pub(crate) fn insert(&mut self, key: &Point, ecdh: Point) -> (res: usize)
        requires
            old(self).wf(),
            ecdh@ == point_product(old(self).view_key(), key@),
        ensures
            final(self).wf(),
            final(self).view_key() == old(self).view_key(),
            final(self)@ == old(self)@.insert(key@),
            res < final(self).len(),
            final(self).product(res as int) == ecdh@,
    {
        let index: usize = self.products.len();
        map_insert(&mut self.indexes, key.compress(), index);
        self.products.push(ecdh);
        assert(self@ =~= old(self)@.insert(key@));
        index
    }

    /// Overwrite the view key with zero and each product cached with the identity.
    pub(crate) fn zeroize(&mut self)
        ensures
            final(self).view_key() == 0,
            final(self).len() == old(self).len(),
            forall|i: int|
                0 <= i < final(self).len() ==> #[trigger] final(self).product(i) == IDENTITY@,
            final(self)@ == Set::<Seq<u8>>::empty(),
            final(self).wf(),
    {
        self.view.zeroize();
        let mut i: usize = 0;
        while i < self.products.len()
            invariant
                i <= self.products.len(),
                self.products.len() == old(self).products.len(),
                self.view@ == 0,
                forall|j: int| 0 <= j < i ==> (#[trigger] self.products@[j])@ == IDENTITY@,
            decreases self.products.len() - i,
        {
            self.products[i].zeroize();
            i += 1;
        }
        self.indexes = map_with_hasher(RandomState::new());
        assert(self@ =~= Set::<Seq<u8>>::empty()) by {
            assert forall|key: Seq<u8>| !self@.contains(key) by {
                assert(!indexed(self.indexes).contains_key(key));
            }
        }
    }
}

} // verus!
