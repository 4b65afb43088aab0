//! A map from the encodings of points to the subaddresses they're the spend keys of.

use std::collections::HashMap;

use vstd::prelude::*;

use crate::address::SubaddressIndex;
use crate::bytes::{array_at, bytes_eq, le_nat, u64_from_le, zeros};
use crate::ed25519::zeroize_bytes;

verus! {

/// A key, and its value.
struct Entry {
    key: [u8; 32],
    value: Option<SubaddressIndex>,
}

impl Clone for Entry {
    fn clone(&self) -> (res: Self)
        ensures
            res == *self,
    {
        Entry { key: self.key, value: self.value }
    }
}

/// The bucket of a key: its first eight bytes, as an integer.
spec fn bucket_of(key: Seq<u8>) -> u64 {
    le_nat(key.take(8)) as u64
}

/// The value `key` has among the entries at these indexes.
spec fn find(entries: Seq<Entry>, indexes: Seq<usize>, key: Seq<u8>) -> Option<
    Option<SubaddressIndex>,
>
    decreases indexes.len(),
{
    if indexes.len() == 0 {
        None
    } else if indexes.last() < entries.len() && entries[indexes.last() as int].key@ == key {
        Some(entries[indexes.last() as int].value)
    } else {
        find(entries, indexes.drop_last(), key)
    }
}

/// The value `key` has among the entries, those at the indexes its bucket has being considered.
spec fn lookup(entries: Seq<Entry>, buckets: Map<u64, Vec<usize>>, key: Seq<u8>) -> Option<
    Option<SubaddressIndex>,
> {
    if key.len() == 32 && buckets.contains_key(bucket_of(key)) {
        find(entries, buckets[bucket_of(key)]@, key)
    } else {
        None
    }
}

/// Replacing an entry with one of the same key solely changes the value that key has.
proof fn lemma_find_other(
    entries: Seq<Entry>,
    indexes: Seq<usize>,
    e: usize,
    entry: Entry,
    other: Seq<u8>,
)
    requires
        e < entries.len(),
        entries[e as int].key@ == entry.key@,
        other != entry.key@,
    ensures
        find(entries.update(e as int, entry), indexes, other) == find(entries, indexes, other),
    decreases indexes.len(),
{
    if indexes.len() != 0 {
        lemma_find_other(entries, indexes.drop_last(), e, entry, other);
    }
}

/// Pushing an entry solely changes the value its key has.
proof fn lemma_find_push(entries: Seq<Entry>, indexes: Seq<usize>, entry: Entry, other: Seq<u8>)
    requires
        other != entry.key@,
    ensures
        find(entries.push(entry), indexes, other) == find(entries, indexes, other),
    decreases indexes.len(),
{
    if indexes.len() != 0 {
        lemma_find_push(entries, indexes.drop_last(), entry, other);
    }
}

/// The indexes past the last one of an entry with `key` don't matter.
proof fn lemma_find_take(entries: Seq<Entry>, indexes: Seq<usize>, n: int, key: Seq<u8>)
    requires
        0 <= n <= indexes.len(),
        forall|j: int|
            n <= j < indexes.len() ==> !((#[trigger] indexes[j]) < entries.len()
                && entries[indexes[j] as int].key@ == key),
    ensures
        find(entries, indexes, key) == find(entries, indexes.take(n), key),
    decreases indexes.len() - n,
{
    if n < indexes.len() {
        assert(indexes.take(n + 1).drop_last() =~= indexes.take(n));
        assert(indexes.take(n + 1).last() == indexes[n]);
        lemma_find_take(entries, indexes, n + 1, key);
    } else {
        assert(indexes.take(n) =~= indexes);
    }
}

/// A map from the encodings of points.
pub struct PointMap {
    entries: Vec<Entry>,
    buckets: HashMap<u64, Vec<usize>>,
}

impl View for PointMap {
    type V = Map<Seq<u8>, Option<SubaddressIndex>>;

    closed spec fn view(&self) -> Map<Seq<u8>, Option<SubaddressIndex>> {
        Map::new(
            |key: Seq<u8>| lookup(self.entries@, self.buckets@, key) is Some,
            |key: Seq<u8>| lookup(self.entries@, self.buckets@, key)->0,
        )
    }
}

impl Clone for PointMap {
    fn clone(&self) -> (res: Self)
        ensures
            res@ == self@,
            res.entry_count() == self.entry_count(),
    {
        let mut entries: Vec<Entry> = Vec::new();
        let mut i: usize = 0;
        while i < self.entries.len()
            invariant
                i <= self.entries.len(),
                entries@ == self.entries@.take(i as int),
            decreases self.entries.len() - i,
        {
            entries.push(self.entries[i].clone());
            i += 1;
            assert(entries@ =~= self.entries@.take(i as int));
        }
        assert(self.entries@.take(i as int) =~= self.entries@);
        PointMap { entries, buckets: self.buckets.clone() }
    }
}

fn bucket(key: &[u8; 32]) -> (res: u64)
    ensures
        res == bucket_of(key@),
{
    let first: [u8; 8] = array_at(key, 0);
    assert(first@ =~= key@.take(8));
    u64_from_le(&first)
}

impl PointMap {
    /// How many entries there are, those which were overwritten included.
    pub closed spec fn entry_count(&self) -> nat {
        self.entries@.len()
    }

    /// If every entry left was overwritten.
    pub closed spec fn is_zeroized(&self) -> bool {
        forall|i: int|
            0 <= i < self.entries@.len() ==> (#[trigger] self.entries@[i]).key@ == zeros(32)
                && self.entries@[i].value is None
    }

    /// An empty map.
    pub fn new() -> (res: PointMap)
        ensures
            res@ == Map::<Seq<u8>, Option<SubaddressIndex>>::empty(),
            res.entry_count() == 0,
    {
        let res = PointMap { entries: Vec::new(), buckets: HashMap::new() };
        assert(res@ =~= Map::<Seq<u8>, Option<SubaddressIndex>>::empty());
        res
    }

    /// The index of the entry which decides the value `key` has, `None` if it isn't within the map.
    fn position(&self, key: &[u8; 32]) -> (res: Option<usize>)
        ensures
            match res {
                Some(e) => {
                    &&& e < self.entries@.len()
                    &&& self.entries@[e as int].key@ == key@
                    &&& lookup(self.entries@, self.buckets@, key@) == Some(
                        self.entries@[e as int].value,
                    )
                    &&& forall|value: Option<SubaddressIndex>|
                        #![auto]
                        lookup(
                            self.entries@.update(e as int, Entry { key: *key, value }),
                            self.buckets@,
                            key@,
                        ) == Some(value)
                },
                None => lookup(self.entries@, self.buckets@, key@) is None,
            },
    {
        broadcast use vstd::std_specs::hash::group_hash_axioms;

        let indexes: &Vec<usize> = match self.buckets.get(&bucket(key)) {
            Some(indexes) => indexes,
            None => {
                return None;
            },
        };
        let mut i: usize = indexes.len();
        while i > 0
            invariant
                i <= indexes.len(),
                self.buckets@.contains_key(bucket_of(key@)),
                indexes == self.buckets@[bucket_of(key@)],
                forall|j: int|
                    i <= j < indexes@.len() ==> !((#[trigger] indexes@[j]) < self.entries@.len()
                        && self.entries@[indexes@[j] as int].key@ == key@),
            decreases i,
        {
            i -= 1;
            let e: usize = indexes[i];
            if e < self.entries.len() && bytes_eq(&self.entries[e].key, key) {
                proof {
                    let entries = self.entries@;
                    let upto = indexes@.take(i + 1);
                    assert(upto.last() == e);
                    lemma_find_take(entries, indexes@, i + 1, key@);
                    assert forall|value: Option<SubaddressIndex>|
                        #![auto]
                        lookup(
                            entries.update(e as int, Entry { key: *key, value }),
                            self.buckets@,
                            key@,
                        ) == Some(value) by {
                        let updated = entries.update(e as int, Entry { key: *key, value });
                        lemma_find_take(updated, indexes@, i + 1, key@);
                    }
                }
                return Some(e);
            }
        }
        proof {
            lemma_find_take(self.entries@, indexes@, 0, key@);
            assert(indexes@.take(0).len() == 0);
        }
        None
    }

    /// The value `key` has, `None` if it isn't within the map.
    pub fn get(&self, key: &[u8; 32]) -> (res: Option<Option<SubaddressIndex>>)
        ensures
            match res {
                Some(value) => self@.contains_key(key@) && self@[key@] == value,
                None => !self@.contains_key(key@),
            },
    {
        match self.position(key) {
            Some(e) => Some(self.entries[e].value),
            None => None,
        }
    }

    /// Have `key` have this value, in place of any it had.
    pub fn insert(&mut self, key: [u8; 32], value: Option<SubaddressIndex>)
        ensures
            final(self)@ == old(self)@.insert(key@, value),
            final(self).entry_count() == if old(self)@.contains_key(key@) {
                old(self).entry_count()
            } else {
                old(self).entry_count() + 1
            },
    {
        broadcast use vstd::std_specs::hash::group_hash_axioms;

        let ghost entries = self.entries@;
        let ghost buckets = self.buckets@;
        let entry = Entry { key, value };
        if let Some(e) = self.position(&key) {
            self.entries.set(e, entry);
            proof {
                assert forall|other: Seq<u8>| other != key@ implies #[trigger] lookup(
                    self.entries@,
                    self.buckets@,
                    other,
                ) == lookup(entries, buckets, other) by {
                    if buckets.contains_key(bucket_of(other)) {
                        lemma_find_other(
                            entries,
                            buckets[bucket_of(other)]@,
                            e,
                            entry,
                            other,
                        );
                    }
                }
                assert(self@ =~= old(self)@.insert(key@, value));
            }
            return ;
        }
        let b: u64 = bucket(&key);
        let mut indexes: Vec<usize> = match self.buckets.remove(&b) {
            Some(indexes) => indexes,
            None => Vec::new(),
        };
        let ghost before = indexes@;
        indexes.push(self.entries.len());
        let ghost after = indexes@;
        self.entries.push(entry);
        self.buckets.insert(b, indexes);
        proof {
            assert(after.drop_last() =~= before);
            assert forall|other: Seq<u8>| other != key@ implies #[trigger] lookup(
                self.entries@,
                self.buckets@,
                other,
            ) == lookup(entries, buckets, other) by {
                if other.len() == 32 && bucket_of(other) == b {
                    lemma_find_push(entries, before, entry, other);
                } else if buckets.contains_key(bucket_of(other)) {
                    lemma_find_push(entries, buckets[bucket_of(other)]@, entry, other);
                }
            }
            assert(lookup(self.entries@, self.buckets@, key@) == Some(value));
            assert(self@ =~= old(self)@.insert(key@, value));
        }
    }

    /// Overwrite all entries, and empty the map. The entries overwritten are kept, without being part
    /// of the map. The buckets, which hold the first bytes of the keys, are removed without being
    /// overwritten.
    pub fn zeroize(&mut self)
        ensures
            final(self)@ == Map::<Seq<u8>, Option<SubaddressIndex>>::empty(),
            final(self).is_zeroized(),
            final(self).entry_count() == old(self).entry_count(),
    {
        let mut i: usize = 0;
        while i < self.entries.len()
            invariant
                i <= self.entries.len(),
                self.entries.len() == old(self).entries.len(),
                forall|j: int|
                    0 <= j < i ==> (#[trigger] self.entries@[j]).key@ == zeros(32)
                        && self.entries@[j].value is None,
            decreases self.entries.len() - i,
        {
            zeroize_bytes(&mut self.entries[i].key);
            self.entries[i].value = None;
            i += 1;
        }
        self.buckets.clear();
        assert(self@ =~= Map::<Seq<u8>, Option<SubaddressIndex>>::empty());
    }
}

} // verus!
