//! Scanners, which find the outputs received.

use std::time::Instant;

use vstd::prelude::*;

use crate::address::SubaddressIndex;
use crate::block::ScannableBlock;
use crate::bytes::bytes_eq;
use crate::derivations::{unique_bytes, SharedKeyDerivations};
use crate::ecdh_cache::EcdhCache;
use crate::ed25519::{group_order, is_offset_key, point_product, Commitment, Point, Scalar};
use crate::ed25519::IDENTITY;
use crate::error::{ScanError, ScanFault};
use crate::extra::{additional_keys, encodings, payment_id_of, public_keys, read_fields, Extra};
use crate::extra::PaymentId;
use crate::microprof::{events_of, Counter, Event, ScannerMicroprof, Timer};
use crate::output::{payment_id_bytes, AbsoluteId, Metadata, OutputData, RelativeId, WalletOutput};
use crate::output::{outputs_view, ReceivedOutput};
use crate::point_map::PointMap;
use crate::profiling::{balanced_profiles_add_up, blocks_are_profiled_balanced};
use crate::profiling::transactions_are_profiled_balanced;
use crate::receiving::{derivations_trace, ecdh_trace, settlement, settlement_trace, tag_matches};
use crate::receiving::{keys_for, lemma_faulted, settlement_fault, unreadable_trace};
use crate::receiving::{next_index, without_dropped, BlockScan, DROPS_UNENCRYPTED_PAYMENT_IDS};
use crate::receiving::{is_registered, is_scannable, LATEST_HARDFORK};
use crate::receiving::{Settlement, TransactionScan, Wallet};
use crate::timelocked::{zeroize_outputs, Timelocked};
use crate::transaction::{transaction_hash, PrunedRctProofs, Transaction};
use crate::view_pair::{subaddress_spend_key, GuaranteedViewPair, ViewPair};

verus! {

/// The index within the cache of the product of the view key with `key`, which is computed and cached
/// if it isn't yet.
fn cached_ecdh(key: &Point, cache: &mut EcdhCache, prof: &mut ScannerMicroprof) -> (res: usize)
    requires
        old(cache).wf(),
    ensures
        res < final(cache).len(),
        final(cache).product(res as int) == point_product(old(cache).view_key(), key@),
        final(cache).wf(),
        final(cache).view_key() == old(cache).view_key(),
        final(cache)@ == old(cache)@.insert(key@),
        final(prof).continues(old(prof), ecdh_trace(old(cache)@.contains(key@))),
{
    let lookup_start = Instant::now();
    if let Some(i) = cache.find(key) {
        prof.count(Counter::EcdhCacheHits);
        prof.time(Timer::EcdhCacheLookupHit, &lookup_start);
        assert(cache@ =~= old(cache)@.insert(key@));
        assert(events_of(prof@) =~= events_of(old(prof)@) + ecdh_trace(true));
        return i;
    }
    prof.count(Counter::EcdhCacheMisses);
    // Attribute the time spent on the cache as lookup miss overhead, excluding the scalar mul itself
    prof.time(Timer::EcdhCacheLookupMiss, &lookup_start);
    let mul_start = Instant::now();
    let ecdh = cache.compute(key);
    prof.time(Timer::EcdhMul, &mul_start);
    let insert_start = Instant::now();
    let i: usize = cache.insert(key, ecdh);
    prof.time(Timer::EcdhCacheLookupMiss, &insert_start);
    assert(events_of(prof@) =~= events_of(old(prof)@) + ecdh_trace(false));
    i
}

/// If an output's view tag, which it may not have, is the one expected.
pub fn view_tag_matches(actual: Option<u8>, expected: u8) -> (res: bool)
    ensures
        res == tag_matches(actual, expected),
{
    match actual {
        Some(actual) => actual == expected,
        None => true,
    }
}

/// If the commitment rebuilt is the one the output at this index has.
pub fn commitment_matches(rebuilt: &[u8; 32], commitments: &Vec<[u8; 32]>, o: usize) -> (res: bool)
    ensures
        res == (o < commitments@.len() && commitments@[o as int]@ == rebuilt@),
{
    o < commitments.len() && bytes_eq(&commitments[o], rebuilt)
}

/// Find the amount of an output received, `None` if it isn't the one committed to.
///
/// If the amount isn't hidden, the opening is that of the commitment without randomness.
pub fn settle(
    amount: Option<u64>,
    proofs: Option<&PrunedRctProofs>,
    o: usize,
    derivations: &SharedKeyDerivations,
    prof: &mut ScannerMicroprof,
) -> (res: Result<Option<Commitment>, ScanError>)
    ensures
        ({
            let found = settlement(
                amount,
                match proofs {
                    Some(proofs) => Some(*proofs),
                    None => None,
                },
                o as int,
                derivations.shared_key@,
            );
            &&& final(prof).continues(old(prof), settlement_trace(amount, found))
            &&& match res {
                Ok(Some(commitment)) => found == (Settlement::Settled {
                    mask: commitment.mask@,
                    amount: commitment.amount as nat,
                }),
                Ok(None) => found is WrongCommitment,
                Err(error) => settlement_fault(found) == Some(error@),
            }
        }),
{
    let mut commitment = Commitment::zero();
    if let Some(amount) = amount {
        commitment.amount = amount;
        assert(events_of(prof@) =~= events_of(old(prof)@) + Seq::<Event>::empty());
        return Ok(Some(commitment));
    }
    let proofs = match proofs {
        Some(proofs) => proofs,
        None => {
            assert(events_of(prof@) =~= events_of(old(prof)@) + Seq::<Event>::empty());
            return Err(
                ScanError::InvalidScannableBlock("non-miner v2 transaction without RCT proofs"),
            );
        },
    };
    if o >= proofs.base.encrypted_amounts.len() {
        assert(events_of(prof@) =~= events_of(old(prof)@) + Seq::<Event>::empty());
        return Err(
            ScanError::InvalidScannableBlock("RCT proofs without an encrypted amount per output"),
        );
    }
    let commitment = derivations.decrypt(&proofs.base.encrypted_amounts[o]);
    let verify_start = Instant::now();
    prof.count(Counter::CommitmentVerifyAttempts);
    let rebuilt = commitment.commit().compress();
    let ok = commitment_matches(&rebuilt, &proofs.base.commitments, o);
    prof.time(Timer::CommitmentVerify, &verify_start);
    if !ok {
        prof.count(Counter::CommitmentVerifyFail);
        assert(events_of(prof@) =~= events_of(old(prof)@) + settlement_trace(
            None,
            Settlement::WrongCommitment,
        ));
        return Ok(None);
    }
    assert(events_of(prof@) =~= events_of(old(prof)@) + seq![
        Event::Count(Counter::CommitmentVerifyAttempts),
        Event::Elapsed(Timer::CommitmentVerify),
    ]);
    Ok(Some(commitment))
}

/// The offset of an output's private key: its shared key, and the offset of the subaddress it was
/// received with, if it was with one.
pub fn total_offset(shared_key: &Scalar, subaddress: &Option<Scalar>) -> (res: Scalar)
    ensures
        res@ == match *subaddress {
            Some(offset) => (shared_key@ + offset@) % group_order(),
            None => shared_key@,
        },
{
    match subaddress {
        Some(offset) => shared_key.plus(offset),
        None => shared_key.clone(),
    }
}

/// The index on the blockchain of the output at this index within its transaction.
pub fn index_on_blockchain(first: u64, o: u64) -> (res: Result<u64, ScanError>)
    ensures
        match res {
            Ok(index) => index == first + o,
            Err(error) => first + o > u64::MAX && error@ == ScanFault::InvalidScannableBlock(
                "transaction's output's index isn't representable as a u64"@,
            ),
        },
{
    match first.checked_add(o) {
        Some(index) => Ok(index),
        None => Err(
            ScanError::InvalidScannableBlock(
                "transaction's output's index isn't representable as a u64",
            ),
        ),
    }
}

/// The index on the blockchain of the first RingCT output of the transaction after this one.
pub fn next_ringct_index(first: u64, tx: &Transaction) -> (res: Result<u64, ScanError>)
    ensures
        match res {
            Ok(next) => next == next_index(first as nat, *tx),
            Err(error) => next_index(first as nat, *tx) > u64::MAX
                && error@ == ScanFault::InvalidScannableBlock(
                "RingCT output indexes exceeded u64::MAX"@,
            ),
        },
{
    if tx.version() != 2 {
        return Ok(first);
    }
    match first.checked_add(tx.prefix().outputs.len() as u64) {
        Some(next) => Ok(next),
        None => Err(ScanError::InvalidScannableBlock("RingCT output indexes exceeded u64::MAX")),
    }
}

/// Drop the payment IDs which aren't encrypted, if the protocol is of a version which does.
pub fn drop_unencrypted_payment_ids(hardfork: u8, outputs: &mut Vec<WalletOutput>)
    ensures
        outputs_view(final(outputs)@) == outputs_view(old(outputs)@).map_values(
            |output: ReceivedOutput| without_dropped(hardfork, output),
        ),
{
    let mut i: usize = 0;
    while i < outputs.len()
        invariant
            i <= outputs.len(),
            outputs@.len() == old(outputs)@.len(),
            forall|j: int|
                0 <= j < i ==> (#[trigger] outputs@[j])@ == without_dropped(
                    hardfork,
                    old(outputs)@[j]@,
                ),
            forall|j: int| i <= j < outputs@.len() ==> #[trigger] outputs@[j] == old(outputs)@[j],
        decreases outputs.len() - i,
    {
        if hardfork >= DROPS_UNENCRYPTED_PAYMENT_IDS {
            if let Some(PaymentId::Unencrypted(_)) = outputs[i].metadata.payment_id {
                outputs[i].metadata.payment_id = None;
            }
        }
        i += 1;
    }
    assert(outputs_view(outputs@) =~= outputs_view(old(outputs)@).map_values(
        |output: ReceivedOutput| without_dropped(hardfork, output),
    ));
}

/// The scan of a transaction, with what doesn't depend on which output is scanned.
struct Context<'a> {
    scanner: &'a InternalScanner,
    tx: &'a Transaction,
    extra: &'a Extra,
    hash: [u8; 32],
    first: u64,
    uniqueness: Option<[u8; 32]>,
    payment_id: Option<PaymentId>,
    keys: Vec<Point>,
    additional: Option<Vec<Point>>,
}

impl<'a> Context<'a> {
    spec fn scan(&self) -> TransactionScan {
        TransactionScan {
            wallet: self.scanner@,
            tx: *self.tx,
            extra: self.extra@,
            hash: self.hash@,
            first: self.first as nat,
        }
    }

    spec fn wf(&self) -> bool {
        &&& unique_bytes(self.uniqueness) == self.scan().uniqueness()
        &&& payment_id_bytes(self.payment_id) == payment_id_of(read_fields(self.extra@))
        &&& encodings(self.keys@) == public_keys(read_fields(self.extra@))
        &&& match self.additional {
            Some(additional) => additional_keys(read_fields(self.extra@)) == Some(
                encodings(additional@),
            ),
            None => additional_keys(read_fields(self.extra@)) is None,
        }
    }

    /// The index within the cache of the ECDH with `key`, and what is derived from it for an output,
    /// `None` if the output's view tag isn't the one expected.
    fn derive(
        &self,
        view_tag: Option<u8>,
        o: usize,
        key: &Point,
        cache: &mut EcdhCache,
        prof: &mut ScannerMicroprof,
    ) -> (res: Option<(usize, SharedKeyDerivations)>)
        requires
            self.wf(),
            old(cache).wf(),
            old(cache).view_key() == self.scan().wallet.view,
        ensures
            match res {
                Some((ecdh, derivations)) => {
                    &&& tag_matches(view_tag, self.scan().view_tag(o as int, key@))
                    &&& ecdh < final(cache).len()
                    &&& final(cache).product(ecdh as int) == self.scan().ecdh(key@)
                    &&& derivations.shared_key@ == self.scan().shared_key(o as int, key@)
                },
                None => !tag_matches(view_tag, self.scan().view_tag(o as int, key@)),
            },
            final(cache).wf(),
            final(cache).view_key() == old(cache).view_key(),
            final(cache)@ == old(cache)@.insert(key@),
            final(prof).continues(
                old(prof),
                ecdh_trace(old(cache)@.contains(key@)) + derivations_trace(
                    view_tag,
                    self.scan().view_tag(o as int, key@),
                ),
            ),
    {
        let ghost lookup = ecdh_trace(old(cache)@.contains(key@));
        let ghost expected = self.scan().view_tag(o as int, key@);
        let index: usize = cached_ecdh(key, cache, prof);
        let ecdh = cache.at(index);
        let start = Instant::now();
        if view_tag.is_none() {
            let derivations = SharedKeyDerivations::output_derivations(&self.uniqueness, ecdh, o);
            prof.time(Timer::OutputDerivations, &start);
            assert(events_of(prof@) =~= events_of(old(prof)@) + (lookup + derivations_trace(
                view_tag,
                expected,
            )));
            return Some((index, derivations));
        }
        // Solely compute the shared key once the view tag is known to match
        let expected_view_tag = SharedKeyDerivations::output_view_tag(ecdh, o);
        prof.time(Timer::OutputDerivations, &start);
        if !view_tag_matches(view_tag, expected_view_tag) {
            prof.count(Counter::ViewtagMismatch);
            assert(events_of(prof@) =~= events_of(old(prof)@) + (lookup + derivations_trace(
                view_tag,
                expected,
            )));
            return None;
        }
        let shared_key_start = Instant::now();
        let shared_key = SharedKeyDerivations::output_shared_key(&self.uniqueness, ecdh, o);
        prof.time(Timer::OutputDerivations, &shared_key_start);
        assert(events_of(prof@) =~= events_of(old(prof)@) + (lookup + derivations_trace(
            view_tag,
            expected,
        )));
        Some((index, SharedKeyDerivations { view_tag: expected_view_tag, shared_key }))
    }

    /// The index within the cache of the ECDH, what is derived from it, and the subaddress, for an
    /// output received with `key`.
    fn search(
        &self,
        o: usize,
        output_key: &Point,
        key: &Point,
        cache: &mut EcdhCache,
        prof: &mut ScannerMicroprof,
    ) -> (res: Option<(usize, SharedKeyDerivations, Option<SubaddressIndex>)>)
        requires
            self.wf(),
            o < self.tx.spec_prefix().outputs@.len(),
            output_key@ == self.scan().output(o as int).key@,
            old(cache).wf(),
            old(cache).view_key() == self.scan().wallet.view,
        ensures
            match res {
                Some((ecdh, derivations, subaddress)) => {
                    &&& self.scan().is_ours(o as int, key@)
                    &&& ecdh < final(cache).len()
                    &&& final(cache).product(ecdh as int) == self.scan().ecdh(key@)
                    &&& derivations.shared_key@ == self.scan().shared_key(o as int, key@)
                    &&& subaddress == self.scan().wallet.subaddresses[self.scan().spend_key(
                        o as int,
                        key@,
                    )]
                    &&& is_offset_key(
                        self.scan().spend_key(o as int, key@),
                        self.scan().shared_key(o as int, key@),
                        output_key@,
                    )
                },
                None => !self.scan().is_ours(o as int, key@),
            },
            final(cache).wf(),
            final(cache).view_key() == old(cache).view_key(),
            final(cache)@ == old(cache)@.insert(key@),
            final(prof).continues(
                old(prof),
                self.scan().search_trace(o as int, key@, old(cache)@.contains(key@)),
            ),
    {
        let ghost trace = self.scan().search_trace(o as int, key@, old(cache)@.contains(key@));
        let view_tag = self.tx.prefix().outputs[o].view_tag;
        prof.count(Counter::EcdhDerivations);
        if self.derive(view_tag, o, key, cache, prof).is_none() {
            assert(events_of(prof@) =~= events_of(old(prof)@) + trace);
            return None;
        }
        // The view tag is known to match, and the ECDH is cached, so what is derived from it is
        // derived anew
        assert(cache@.insert(key@) =~= cache@);
        let (ecdh, derivations) = match self.derive(view_tag, o, key, cache, prof) {
            Some(derived) => derived,
            None => {
                return None;
            },
        };

        // P - shared == spend
        let start = Instant::now();
        // The output key may be of torsion [0, 8)
        // Our subtracting of a prime-order element means any torsion will be preserved
        // If someone wanted to malleate output keys with distinct torsions, only one will be
        // scanned accordingly (the one which has matching torsion of the spend key)
        let spend_key = output_key.minus(&Point::base_times(&derivations.shared_key));
        let found = self.scanner.subaddresses.get(&spend_key.compress());
        prof.time(Timer::SubaddressLookup, &start);
        assert(events_of(prof@) =~= events_of(old(prof)@) + trace);
        match found {
            Some(subaddress) => Some((ecdh, derivations, subaddress)),
            None => None,
        }
    }

    /// An output received, whose amount was found.
    fn assemble(
        &self,
        o: usize,
        output_key: &Point,
        Ghost(key): Ghost<Seq<u8>>,
        ecdh: &Point,
        derivations: &SharedKeyDerivations,
        subaddress: Option<SubaddressIndex>,
        commitment: Commitment,
    ) -> (res: Result<WalletOutput, ScanError>)
        requires
            self.wf(),
            o < self.tx.spec_prefix().outputs@.len(),
            output_key@ == self.scan().output(o as int).key@,
            ecdh@ == self.scan().ecdh(key),
            derivations.shared_key@ == self.scan().shared_key(o as int, key),
            subaddress == self.scan().wallet.subaddresses[self.scan().spend_key(o as int, key)],
        ensures
            match res {
                Ok(output) => self.first + o <= u64::MAX && output@ == self.scan().received_output(
                    o as int,
                    key,
                    commitment.mask@,
                    commitment.amount as nat,
                ),
                Err(error) => self.first + o > u64::MAX
                    && error@ == ScanFault::InvalidScannableBlock(
                    "transaction's output's index isn't representable as a u64"@,
                ),
            },
    {
        // The key offset is the shared key
        // If this was to a subaddress, it's additionally the offset from the subaddress's spend key
        // to the normal spend key
        let subaddress_offset = match subaddress {
            Some(index) => Some(self.scanner.pair.subaddress_derivation(index)),
            None => None,
        };
        let key_offset = total_offset(&derivations.shared_key, &subaddress_offset);
        let payment_id = match &self.payment_id {
            Some(id) => Some(id.decrypted(&SharedKeyDerivations::payment_id_xor(ecdh))),
            None => None,
        };
        match index_on_blockchain(self.first, o as u64) {
            Ok(index_on_blockchain) => Ok(
                WalletOutput {
                    absolute_id: AbsoluteId {
                        transaction: self.hash,
                        index_in_transaction: o as u64,
                    },
                    relative_id: RelativeId { index_on_blockchain },
                    data: OutputData { key: output_key.clone(), key_offset, commitment },
                    metadata: Metadata {
                        additional_timelock: self.tx.prefix().additional_timelock,
                        subaddress,
                        payment_id,
                        arbitrary_data: self.extra.arbitrary_data(),
                    },
                },
            ),
            Err(error) => Err(error),
        }
    }

    /// Scan the output at this index with `key`.
    fn scan_with_key(
        &self,
        o: usize,
        output_key: &Point,
        key: &Point,
        cache: &mut EcdhCache,
        prof: &mut ScannerMicroprof,
    ) -> (res: Result<Option<WalletOutput>, ScanError>)
        requires
            self.wf(),
            o < self.tx.spec_prefix().outputs@.len(),
            output_key@ == self.scan().output(o as int).key@,
            old(cache).wf(),
            old(cache).view_key() == self.scan().wallet.view,
        ensures
            yields(res, self.scan().with_key(o as int, key@)),
            res is Ok && res->Ok_0 is Some ==> self.scan().was_sent_with(res->Ok_0->0@, key@),
            final(cache).wf(),
            final(cache).view_key() == old(cache).view_key(),
            final(cache)@ == old(cache)@.insert(key@),
            final(prof).continues(
                old(prof),
                self.scan().key_trace(o as int, key@, old(cache)@.contains(key@)),
            ),
    {
        let ghost trace = self.scan().key_trace(o as int, key@, old(cache)@.contains(key@));
        let (ecdh, derivations, subaddress) = match self.search(o, output_key, key, cache, prof) {
            Some(found) => found,
            None => {
                return Ok(None);
            },
        };
        let amount = self.tx.prefix().outputs[o].amount;
        match settle(amount, self.tx.proofs(), o, &derivations, prof) {
            Ok(Some(commitment)) => {
                prof.count(Counter::OutputsMatched);
                assert(events_of(prof@) =~= events_of(old(prof)@) + trace);
                let output = self.assemble(
                    o,
                    output_key,
                    Ghost(key@),
                    cache.at(ecdh),
                    &derivations,
                    subaddress,
                    commitment,
                );
                match output {
                    Ok(output) => Ok(Some(output)),
                    Err(error) => Err(error),
                }
            },
            Ok(None) => {
                assert(events_of(prof@) =~= events_of(old(prof)@) + trace);
                Ok(None)
            },
            Err(error) => {
                assert(events_of(prof@) =~= events_of(old(prof)@) + trace);
                Err(error)
            },
        }
    }

    /// Scan the output at this index with each key it may have been made with, until one decides.
    fn scan_output(
        &self,
        o: usize,
        output_key: &Point,
        cache: &mut EcdhCache,
        prof: &mut ScannerMicroprof,
    ) -> (res: Result<Option<WalletOutput>, ScanError>)
        requires
            self.wf(),
            o < self.tx.spec_prefix().outputs@.len(),
            output_key@ == self.scan().output(o as int).key@,
            is_scannable(self.scan().output(o as int)),
            old(cache).wf(),
            old(cache).view_key() == self.scan().wallet.view,
        ensures
            yields(res, self.scan().with_keys(o as int, self.scan().keys(o as int))),
            res is Ok && res->Ok_0 is Some ==> self.scan().was_sent(res->Ok_0->0@),
            final(cache).wf(),
            final(cache).view_key() == old(cache).view_key(),
            final(cache)@ == self.scan().keys_cached(
                o as int,
                self.scan().keys(o as int),
                old(cache)@,
            ),
            final(prof).continues(
                old(prof),
                self.scan().keys_trace(
                    o as int,
                    self.scan().keys(o as int),
                    old(cache)@,
                ),
            ),
    {
        let ghost scan = self.scan();
        let ghost keys = scan.keys(o as int);
        let ghost cached = cache@;
        let mut k: usize = 0;
        assert(events_of(prof@) =~= events_of(old(prof)@) + Seq::<Event>::empty());
        while k < self.keys.len()
            invariant
                self.wf(),
                scan == self.scan(),
                keys == scan.keys(o as int),
                keys == keys_for(read_fields(self.extra@), o as int),
                o < self.tx.spec_prefix().outputs@.len(),
                output_key@ == scan.output(o as int).key@,
                k <= self.keys.len() <= keys.len(),
                cached == old(cache)@,
                cache.wf(),
                cache.view_key() == old(cache).view_key(),
                cache.view_key() == scan.wallet.view,
                scan.with_keys(o as int, keys.take(k as int)) == Ok::<
                    Option<ReceivedOutput>,
                    ScanFault,
                >(None),
                cache@ == scan.keys_cached(o as int, keys.take(k as int), cached),
                prof.continues(old(prof), scan.keys_trace(o as int, keys.take(k as int), cached)),
            decreases self.keys.len() - k,
        {
            assert(keys.take(k + 1).drop_last() =~= keys.take(k as int));
            assert(encodings(self.keys@)[k as int] == self.keys@[k as int]@);
            let decided = self.scan_with_key(o, output_key, &self.keys[k], cache, prof);
            assert(events_of(prof@) =~= events_of(old(prof)@) + scan.keys_trace(
                o as int,
                keys.take(k + 1),
                cached,
            ));
            k += 1;
            match decided {
                Ok(None) => {},
                decided => {
                    proof {
                        scan.lemma_decided(o as int, keys, k as int, cached);
                        assert(keys.contains(keys[k - 1]));
                    }
                    return decided;
                },
            }
        }
        if let Some(additional) = &self.additional {
            if o < additional.len() {
                assert(keys.take(k as int) =~= keys.drop_last());
                let decided = self.scan_with_key(o, output_key, &additional[o], cache, prof);
                assert(events_of(prof@) =~= events_of(old(prof)@) + scan.keys_trace(
                    o as int,
                    keys,
                    cached,
                ));
                assert(keys.contains(keys[k as int]));
                return decided;
            }
        }
        assert(keys.take(k as int) =~= keys);
        Ok(None)
    }

    /// Scan each output.
    fn scan_outputs(&self, cache: &mut EcdhCache, prof: &mut ScannerMicroprof) -> (res: Result<
        Vec<WalletOutput>,
        ScanError,
    >)
        requires
            self.wf(),
            old(cache).wf(),
            old(cache)@ == Set::<Seq<u8>>::empty(),
            old(cache).view_key() == self.scan().wallet.view,
        ensures
            ({
                let len = self.tx.spec_prefix().outputs@.len() as int;
                &&& final(prof).continues(old(prof), self.scan().outputs_trace(len))
                &&& match res {
                    Ok(outputs) => self.scan().first_outputs(len) == Ok::<_, ScanFault>(
                        outputs_view(outputs@),
                    ) && self.scan().were_sent(outputs_view(outputs@)),
                    Err(error) => self.scan().first_outputs(len) == Err::<Seq<ReceivedOutput>, _>(
                        error@,
                    ),
                }
            }),
    {
        let ghost scan = self.scan();
        let outputs = &self.tx.prefix().outputs;
        let mut res: Vec<WalletOutput> = Vec::new();
        let mut o: usize = 0;
        assert(outputs_view(res@) =~= Seq::<ReceivedOutput>::empty());
        assert(events_of(prof@) =~= events_of(old(prof)@) + Seq::<Event>::empty());
        while o < outputs.len()
            invariant
                self.wf(),
                scan == self.scan(),
                *outputs == self.tx.spec_prefix().outputs,
                o <= outputs.len(),
                cache.wf(),
                cache.view_key() == scan.wallet.view,
                cache@ == scan.outputs_cached(o as int),
                scan.first_outputs(o as int) == Ok::<_, ScanFault>(outputs_view(res@)),
                scan.were_sent(outputs_view(res@)),
                prof.continues(old(prof), scan.outputs_trace(o as int)),
            decreases outputs.len() - o,
        {
            let ghost before = events_of(prof@);
            let ghost cached = cache@;
            prof.count(Counter::OutputsVisited);
            /*
              Explicitly skip keys which are the identity.

              These are theoretically able to be scanned (with negligible probability except for a
              recipient who chooses their keys as to cause this), but are unspendable due to
              restrictions the key image isn't the identity point (in place since the RingCT
              upgrade).
            */
            let output_key = if bytes_eq(&outputs[o].key, &IDENTITY) {
                None
            } else {
                Point::decompress(&outputs[o].key)
            };
            let scanned = match &output_key {
                // Monero checks with each TX key and with the additional key for this output
                Some(output_key) => self.scan_output(o, output_key, cache, prof),
                None => Ok(None),
            };
            assert(yields(scanned, scan.with_keys(o as int, scan.keys(o as int))));
            assert(events_of(prof@) =~= before + (seq![Event::Count(Counter::OutputsVisited)]
                + scan.keys_trace(o as int, scan.keys(o as int), cached)));
            assert(events_of(prof@) =~= events_of(old(prof)@) + scan.outputs_trace(o + 1));
            o += 1;
            match scanned {
                Ok(Some(output)) => {
                    assert(outputs_view(res@.push(output)) =~= outputs_view(res@).push(output@));
                    res.push(output);
                },
                Ok(None) => {},
                Err(error) => {
                    proof {
                        lemma_faulted(scan, o as int, outputs@.len() as int);
                    }
                    zeroize_outputs(&mut res);
                    return Err(error);
                },
            }
        }
        Ok(res)
    }
}

/// If scanning an output yields what it should.
spec fn yields(
    res: Result<Option<WalletOutput>, ScanError>,
    expected: Result<Option<ReceivedOutput>, ScanFault>,
) -> bool {
    match res {
        Ok(Some(output)) => expected == Ok::<_, ScanFault>(Some(output@)),
        Ok(None) => expected == Ok::<Option<ReceivedOutput>, ScanFault>(None),
        Err(error) => expected == Err::<Option<ReceivedOutput>, _>(error@),
    }
}

/// A scanner, for either kind of output.
pub struct InternalScanner {
    pair: ViewPair,
    guaranteed: bool,
    subaddresses: PointMap,
}

impl View for InternalScanner {
    type V = Wallet;

    closed spec fn view(&self) -> Wallet {
        Wallet {
            spend: self.pair@.0,
            view: self.pair@.1,
            guaranteed: self.guaranteed,
            subaddresses: self.subaddresses@,
        }
    }
}

impl Clone for InternalScanner {
    fn clone(&self) -> (res: Self)
        ensures
            res@ == self@,
            res.entry_count() == self.entry_count(),
    {
        InternalScanner {
            pair: self.pair.clone(),
            guaranteed: self.guaranteed,
            subaddresses: self.subaddresses.clone(),
        }
    }
}

/// If scanning yields what it should.
pub open spec fn found(
    res: Result<Timelocked, ScanError>,
    expected: Result<Seq<ReceivedOutput>, ScanFault>,
) -> bool {
    match res {
        Ok(outputs) => expected == Ok::<_, ScanFault>(outputs@),
        Err(error) => expected == Err::<Seq<ReceivedOutput>, _>(error@),
    }
}

/// No outputs.
fn nothing() -> (res: Timelocked)
    ensures
        res@ == Seq::<ReceivedOutput>::empty(),
{
    let res = Timelocked::from_outputs(Vec::new());
    assert(res@ =~= Seq::<ReceivedOutput>::empty());
    res
}

impl InternalScanner {
    /// If what is left of the subaddresses registered was overwritten.
    pub closed spec fn is_zeroized(&self) -> bool {
        self.subaddresses.is_zeroized()
    }

    /// How many spend keys there are, those which were overwritten included.
    pub closed spec fn entry_count(&self) -> nat {
        self.subaddresses.entry_count()
    }

    /// Create a scanner which looks for outputs sent to the primary address.
    pub fn new(pair: ViewPair, guaranteed: bool) -> (res: InternalScanner)
        ensures
            res@ == Wallet::new(pair@.0, pair@.1, guaranteed),
            is_registered(res@),
            res.entry_count() == 1,
    {
        let mut subaddresses = PointMap::new();
        subaddresses.insert(pair.spend().compress(), None);
        InternalScanner { pair, guaranteed, subaddresses }
    }

    /// Register a subaddress to scan for.
    pub fn register_subaddress(&mut self, subaddress: SubaddressIndex)
        ensures
            final(self)@ == old(self)@.registering(subaddress),
            is_registered(old(self)@) ==> is_registered(final(self)@),
            final(self).entry_count() == if old(self)@.subaddresses.contains_key(
                subaddress_spend_key(old(self)@.spend, old(self)@.view, subaddress),
            ) {
                old(self).entry_count()
            } else {
                old(self).entry_count() + 1
            },
    {
        let (spend, _) = self.pair.subaddress_keys(subaddress);
        self.subaddresses.insert(spend.compress(), Some(subaddress));
    }

    /// Overwrite the keys, and overwrite and forget the subaddresses registered.
    pub fn zeroize(&mut self)
        ensures
            final(self)@ == Wallet::zeroized(),
            final(self).is_zeroized(),
            final(self).entry_count() == old(self).entry_count(),
    {
        self.pair.zeroize();
        self.guaranteed = false;
        self.subaddresses.zeroize();
    }

    /// Scan a transaction whose additional data was read, `None` if it couldn't be.
    pub fn scan_with_extra(
        &self,
        output_index_for_first_ringct_output: u64,
        tx_hash: [u8; 32],
        tx: &Transaction,
        extra: Option<&Extra>,
        prof: &mut ScannerMicroprof,
    ) -> (res: Result<Timelocked, ScanError>)
        ensures
            old(prof).is_balanced() ==> final(prof).is_balanced(),
            match extra {
                Some(extra) => {
                    let scan = TransactionScan {
                        wallet: self@,
                        tx: *tx,
                        extra: extra@,
                        hash: tx_hash@,
                        first: output_index_for_first_ringct_output as nat,
                    };
                    &&& found(res, scan.received())
                    &&& res is Ok ==> scan.were_sent(res->Ok_0@)
                    &&& final(prof).continues(old(prof), scan.trace())
                },
                None => found(res, Ok(Seq::empty())) && final(prof).continues(
                    old(prof),
                    unreadable_trace(*tx),
                ),
            },
    {
        let start = Instant::now();
        self.scan_from(&start, output_index_for_first_ringct_output, tx_hash, tx, extra, prof)
    }

    /// Scan a transaction whose additional data was read, `None` if it couldn't be, having started at
    /// `start`.
    fn scan_from(
        &self,
        start: &Instant,
        output_index_for_first_ringct_output: u64,
        tx_hash: [u8; 32],
        tx: &Transaction,
        extra: Option<&Extra>,
        prof: &mut ScannerMicroprof,
    ) -> (res: Result<Timelocked, ScanError>)
        ensures
            old(prof).is_balanced() ==> final(prof).is_balanced(),
            match extra {
                Some(extra) => {
                    let scan = TransactionScan {
                        wallet: self@,
                        tx: *tx,
                        extra: extra@,
                        hash: tx_hash@,
                        first: output_index_for_first_ringct_output as nat,
                    };
                    &&& found(res, scan.received())
                    &&& res is Ok ==> scan.were_sent(res->Ok_0@)
                    &&& final(prof).continues(old(prof), scan.trace())
                },
                None => found(res, Ok(Seq::empty())) && final(prof).continues(
                    old(prof),
                    unreadable_trace(*tx),
                ),
            },
    {
        proof {
            let scan = TransactionScan {
                wallet: self@,
                tx: *tx,
                extra: match extra {
                    Some(extra) => extra@,
                    None => Seq::empty(),
                },
                hash: tx_hash@,
                first: output_index_for_first_ringct_output as nat,
            };
            transactions_are_profiled_balanced(scan);
            if prof.is_balanced() {
                balanced_profiles_add_up(events_of(prof@), scan.trace());
                balanced_profiles_add_up(events_of(prof@), unreadable_trace(*tx));
            }
        }
        // Only scan TXs creating RingCT outputs
        if tx.version() != 2 {
            prof.time(Timer::ScanTransaction, start);
            return Ok(nothing());
        }
        prof.count(Counter::TxsScanned);
        let extra = match extra {
            Some(extra) => extra,
            None => {
                prof.count(Counter::ExtraParseFail);
                prof.time(Timer::ScanTransaction, start);
                assert(events_of(prof@) =~= events_of(old(prof)@) + unreadable_trace(*tx));
                return Ok(nothing());
            },
        };
        let ghost scan = TransactionScan {
            wallet: self@,
            tx: *tx,
            extra: extra@,
            hash: tx_hash@,
            first: output_index_for_first_ringct_output as nat,
        };
        let (keys, additional) = match extra.keys() {
            Some(keys) => keys,
            None => {
                prof.count(Counter::TxKeysMissing);
                prof.time(Timer::ScanTransaction, start);
                assert(events_of(prof@) =~= events_of(old(prof)@) + scan.trace());
                return Ok(nothing());
            },
        };
        let uniqueness = if self.guaranteed {
            Some(SharedKeyDerivations::uniqueness(&tx.prefix().inputs))
        } else {
            None
        };
        let context = Context {
            scanner: self,
            tx,
            extra,
            hash: tx_hash,
            first: output_index_for_first_ringct_output,
            uniqueness,
            payment_id: extra.payment_id(),
            keys,
            additional,
        };
        // ECDH = view_scalar * tx_pub_key is independent of the output, so compute it once per key
        let mut cache = EcdhCache::new(self.pair.view_key());
        let outputs = context.scan_outputs(&mut cache, prof);
        cache.zeroize();
        prof.time(Timer::ScanTransaction, start);
        assert(events_of(prof@) =~= events_of(old(prof)@) + scan.trace());
        match outputs {
            Ok(outputs) => Ok(Timelocked::from_outputs(outputs)),
            Err(error) => Err(error),
        }
    }

    /// Scan a transaction.
    pub fn scan_transaction(
        &self,
        output_index_for_first_ringct_output: u64,
        tx_hash: [u8; 32],
        tx: &Transaction,
        prof: &mut ScannerMicroprof,
    ) -> (res: Result<Timelocked, ScanError>)
        ensures
            old(prof).is_balanced() ==> final(prof).is_balanced(),
            ({
                let scan = TransactionScan {
                    wallet: self@,
                    tx: *tx,
                    extra: tx.spec_prefix().extra@,
                    hash: tx_hash@,
                    first: output_index_for_first_ringct_output as nat,
                };
                &&& found(res, scan.received())
                &&& res is Ok ==> scan.were_sent(res->Ok_0@)
                &&& final(prof).continues(old(prof), scan.trace())
            }),
    {
        let start = Instant::now();
        let first: u64 = output_index_for_first_ringct_output;
        if tx.version() != 2 {
            return self.scan_from(&start, first, tx_hash, tx, None, prof);
        }
        let extra = Extra::read(tx.prefix().extra.as_slice());
        self.scan_from(&start, first, tx_hash, tx, Some(&extra), prof)
    }

    /// Scan the next transaction of a block, pushing its outputs to those found, and update the
    /// RingCT starting index for the next transaction.
    fn scan_next(
        &self,
        first: &mut u64,
        hash: [u8; 32],
        tx: &Transaction,
        outputs: &mut Vec<WalletOutput>,
        prof: &mut ScannerMicroprof,
    ) -> (res: Result<(), ScanError>)
        ensures
            ({
                let scan = TransactionScan {
                    wallet: self@,
                    tx: *tx,
                    extra: tx.spec_prefix().extra@,
                    hash: hash@,
                    first: *old(first) as nat,
                };
                let next = next_index(*old(first) as nat, *tx);
                &&& final(prof).continues(old(prof), scan.trace())
                &&& match res {
                    Ok(()) => {
                        &&& *final(first) == next
                        &&& scan.received() is Ok
                        &&& outputs_view(final(outputs)@) == outputs_view(old(outputs)@)
                            + scan.received()->Ok_0
                        &&& scan.were_sent(scan.received()->Ok_0)
                    },
                    Err(error) => match scan.received() {
                        Ok(_) => next > u64::MAX && error@ == ScanFault::InvalidScannableBlock(
                            "RingCT output indexes exceeded u64::MAX"@,
                        ),
                        Err(fault) => error@ == fault,
                    },
                }
            }),
    {
        match self.scan_transaction(*first, hash, tx, prof) {
            Ok(received) => {
                let mut received = received.ignore_additional_timelock();
                let ghost theirs = received@;
                outputs.append(&mut received);
                assert(outputs_view(outputs@) =~= outputs_view(old(outputs)@) + outputs_view(
                    theirs,
                ));
            },
            Err(error) => {
                return Err(error);
            },
        }
        match next_ringct_index(*first, tx) {
            Ok(next) => {
                *first = next;
                Ok(())
            },
            Err(error) => Err(error),
        }
    }

    /// Scan each transaction of a block.
    fn scan_transactions(
        &self,
        block: &ScannableBlock,
        output_index_for_first_ringct_output: u64,
        miner_hash: [u8; 32],
        prof: &mut ScannerMicroprof,
    ) -> (res: Result<Vec<WalletOutput>, ScanError>)
        requires
            block.block.transactions@.len() == block.transactions@.len(),
            block.output_index_for_first_ringct_output == Some(
                output_index_for_first_ringct_output,
            ),
            miner_hash@ == transaction_hash(block.block.miner_transaction),
        ensures
            ({
                let scan = BlockScan { wallet: self@, block: *block };
                &&& final(prof).continues(old(prof), scan.transactions_trace(scan.len()))
                &&& match res {
                    Ok(outputs) => scan.first_transactions(scan.len()) == Ok::<_, ScanFault>(
                        outputs_view(outputs@),
                    ) && scan.were_sent(outputs_view(outputs@)),
                    Err(error) => scan.first_transactions(scan.len()) == Err::<
                        Seq<ReceivedOutput>,
                        _,
                    >(error@),
                }
            }),
    {
        let ghost scan = BlockScan { wallet: self@, block: *block };
        // This is the output index for the first RingCT output within the block
        // We mutate it to be the output index for the first RingCT for each transaction
        let mut first: u64 = output_index_for_first_ringct_output;
        let mut res: Vec<WalletOutput> = Vec::new();
        assert(outputs_view(res@) =~= Seq::<ReceivedOutput>::empty());
        assert(events_of(prof@) =~= events_of(old(prof)@) + Seq::<Event>::empty());
        let mut i: usize = 0;
        loop
            invariant_except_break
                scan == (BlockScan { wallet: self@, block: *block }),
                block.block.transactions.len() == block.transactions.len(),
                miner_hash@ == transaction_hash(block.block.miner_transaction),
                i <= block.transactions.len(),
                first == scan.index(i as int),
                scan.first_transactions(i as int) == Ok::<_, ScanFault>(outputs_view(res@)),
                scan.were_sent(outputs_view(res@)),
                prof.continues(old(prof), scan.transactions_trace(i as int)),
            ensures
                scan.first_transactions(scan.len()) == Ok::<_, ScanFault>(outputs_view(res@)),
                scan.were_sent(outputs_view(res@)),
                prof.continues(old(prof), scan.transactions_trace(scan.len())),
            decreases block.transactions.len() - i,
        {
            let ghost before = events_of(prof@);
            let ghost found_before = outputs_view(res@);
            let scanned = if i == 0 {
                let tx = &block.block.miner_transaction.pruned;
                self.scan_next(&mut first, miner_hash, tx, &mut res, prof)
            } else {
                let hash = block.block.transactions[i - 1];
                self.scan_next(&mut first, hash, &block.transactions[i - 1], &mut res, prof)
            };
            assert(events_of(prof@) =~= before + scan.transaction(i as int).trace());
            assert(events_of(prof@) =~= events_of(old(prof)@) + scan.transactions_trace(i + 1));
            proof {
                if scanned is Ok {
                    scan.lemma_sent_by(i as int, found_before, outputs_view(res@));
                }
            }
            if let Err(error) = scanned {
                proof {
                    scan.lemma_faulted(i + 1, scan.len());
                }
                zeroize_outputs(&mut res);
                return Err(error);
            }
            if i == block.transactions.len() {
                break;
            }
            i += 1;
        }
        Ok(res)
    }

    /// Scan a block.
    pub fn scan(&mut self, block: ScannableBlock, prof: &mut ScannerMicroprof) -> (res: Result<
        Timelocked,
        ScanError,
    >)
        ensures
            *final(self) == *old(self),
            old(prof).is_balanced() ==> final(prof).is_balanced(),
            ({
                let scan = BlockScan { wallet: old(self)@, block };
                &&& found(res, scan.received())
                &&& res is Ok ==> scan.were_sent(res->Ok_0@)
                &&& final(prof).continues(old(prof), scan.trace())
            }),
    {
        let ghost scan = BlockScan { wallet: self@, block };
        proof {
            blocks_are_profiled_balanced(scan);
            if prof.is_balanced() {
                balanced_profiles_add_up(events_of(prof@), scan.trace());
            }
        }
        let start = Instant::now();
        if block.block.transactions.len() != block.transactions.len() {
            prof.time(Timer::BlockSetup, &start);
            return Err(
                ScanError::InvalidScannableBlock(
                    "scanning a ScannableBlock with more/less transactions than it should have",
                ),
            );
        }
        let first: u64 = match block.output_index_for_first_ringct_output {
            Some(first) => first,
            None => {
                prof.time(Timer::BlockSetup, &start);
                return Ok(nothing());
            },
        };
        let hardfork: u8 = block.block.header.hardfork_version;
        if hardfork > LATEST_HARDFORK {
            prof.time(Timer::BlockSetup, &start);
            return Err(ScanError::UnsupportedProtocol(hardfork));
        }
        let miner_hash = block.block.miner_transaction.hash();
        prof.count(Counter::Blocks);
        prof.time(Timer::BlockSetup, &start);
        let transactions = self.scan_transactions(&block, first, miner_hash, prof);
        assert(events_of(prof@) =~= events_of(old(prof)@) + scan.trace());
        let mut res = match transactions {
            Ok(outputs) => outputs,
            Err(error) => {
                return Err(error);
            },
        };
        // If the block's version is >= 12, drop all unencrypted payment IDs
        // https://github.com/monero-project/monero/blob/ac02af92867590ca80b2779a7bbeafa99ff94dcb/
        //   src/wallet/wallet2.cpp#L2739-L2744
        let ghost before = outputs_view(res@);
        drop_unencrypted_payment_ids(hardfork, &mut res);
        proof {
            assert forall|i: int| 0 <= i < outputs_view(res@).len() implies scan.was_sent(
                #[trigger] outputs_view(res@)[i],
            ) by {
                scan.lemma_sent_without_dropped(hardfork, before[i]);
            }
        }
        Ok(Timelocked::from_outputs(res))
    }
}

/// A transaction scanner to find outputs received.
///
/// When an output is successfully scanned, the output key MUST be checked against the local
/// database for lack of prior observation. If it was prior observed, that output is an instance
/// of the
/// [burning bug](https://web.getmonero.org/2018/09/25/a-post-mortum-of-the-burning-bug.html) and
/// MAY be unspendable. Only the prior received output(s) or the newly received output will be
/// spendable (as spending one will burn all of them).
///
/// Once checked, the output key MUST be saved to the local database so future checks can be
/// performed.
pub struct Scanner(InternalScanner);

impl View for Scanner {
    type V = Wallet;

    closed spec fn view(&self) -> Wallet {
        self.0@
    }
}

impl Clone for Scanner {
    fn clone(&self) -> (res: Self)
        ensures
            res@ == self@,
            res.entry_count() == self.entry_count(),
    {
        Scanner(self.0.clone())
    }
}

impl Scanner {
    /// If what is left of the subaddresses registered was overwritten.
    pub closed spec fn is_zeroized(&self) -> bool {
        self.0.is_zeroized()
    }

    /// How many spend keys there are, those which were overwritten included.
    pub closed spec fn entry_count(&self) -> nat {
        self.0.entry_count()
    }

    /// Create a Scanner from a ViewPair.
    pub fn new(pair: ViewPair) -> (res: Scanner)
        ensures
            res@ == Wallet::new(pair@.0, pair@.1, false),
            is_registered(res@),
            res.entry_count() == 1,
    {
        Scanner(InternalScanner::new(pair, false))
    }

    /// Register a subaddress to scan for.
    ///
    /// Subaddresses must be explicitly registered ahead of time in order to be successfully scanned.
    ///
    /// This function runs in variable time, notably with regards to the distribution of subaddress
    /// derivations (which should be reasonably uniform) and the amount of subaddresses registered.
    pub fn register_subaddress(&mut self, subaddress: SubaddressIndex)
        ensures
            final(self)@ == old(self)@.registering(subaddress),
            is_registered(old(self)@) ==> is_registered(final(self)@),
            final(self).entry_count() == if old(self)@.subaddresses.contains_key(
                subaddress_spend_key(old(self)@.spend, old(self)@.view, subaddress),
            ) {
                old(self).entry_count()
            } else {
                old(self).entry_count() + 1
            },
    {
        self.0.register_subaddress(subaddress);
    }

    /// Scan a block.
    ///
    /// This function runs in variable time, notably with regards to how the private view key relates
    /// to outputs present within the block (such as if it can successfully scan outputs present).
    pub fn scan(&mut self, block: ScannableBlock, prof: &mut ScannerMicroprof) -> (res: Result<
        Timelocked,
        ScanError,
    >)
        ensures
            *final(self) == *old(self),
            old(prof).is_balanced() ==> final(prof).is_balanced(),
            ({
                let scan = BlockScan { wallet: old(self)@, block };
                &&& found(res, scan.received())
                &&& res is Ok ==> scan.were_sent(res->Ok_0@)
                &&& final(prof).continues(old(prof), scan.trace())
            }),
    {
        self.0.scan(block, prof)
    }

    /// Overwrite the keys, and overwrite and forget the subaddresses registered.
    pub fn zeroize(&mut self)
        ensures
            final(self)@ == Wallet::zeroized(),
            final(self).is_zeroized(),
            final(self).entry_count() == old(self).entry_count(),
    {
        self.0.zeroize();
    }
}

/// A transaction scanner to find outputs received which are guaranteed to be spendable.
///
/// 'Guaranteed' outputs, or transactions outputs to the burning bug, are not officially specified
/// by the Monero project. They should only be used if necessary. No support outside of this library
/// is promised.
///
/// "guaranteed to be spendable" assumes satisfaction of any timelocks in effect.
pub struct GuaranteedScanner(InternalScanner);

impl View for GuaranteedScanner {
    type V = Wallet;

    closed spec fn view(&self) -> Wallet {
        self.0@
    }
}

impl Clone for GuaranteedScanner {
    fn clone(&self) -> (res: Self)
        ensures
            res@ == self@,
            res.entry_count() == self.entry_count(),
    {
        GuaranteedScanner(self.0.clone())
    }
}

impl GuaranteedScanner {
    /// If what is left of the subaddresses registered was overwritten.
    pub closed spec fn is_zeroized(&self) -> bool {
        self.0.is_zeroized()
    }

    /// How many spend keys there are, those which were overwritten included.
    pub closed spec fn entry_count(&self) -> nat {
        self.0.entry_count()
    }

    /// Create a GuaranteedScanner from a GuaranteedViewPair.
    pub fn new(pair: GuaranteedViewPair) -> (res: GuaranteedScanner)
        ensures
            res@ == Wallet::new(pair.0@.0, pair.0@.1, true),
            is_registered(res@),
            res.entry_count() == 1,
    {
        GuaranteedScanner(InternalScanner::new(pair.0, true))
    }

    /// Register a subaddress to scan for.
    ///
    /// Subaddresses must be explicitly registered ahead of time in order to be successfully scanned.
    ///
    /// This function runs in variable time, notably with regards to the distribution of subaddress
    /// derivations (which should be reasonably uniform) and the amount of subaddresses registered.
    pub fn register_subaddress(&mut self, subaddress: SubaddressIndex)
        ensures
            final(self)@ == old(self)@.registering(subaddress),
            is_registered(old(self)@) ==> is_registered(final(self)@),
            final(self).entry_count() == if old(self)@.subaddresses.contains_key(
                subaddress_spend_key(old(self)@.spend, old(self)@.view, subaddress),
            ) {
                old(self).entry_count()
            } else {
                old(self).entry_count() + 1
            },
    {
        self.0.register_subaddress(subaddress);
    }

    /// Scan a block.
    ///
    /// This function runs in variable time, notably with regards to how the private view key relates
    /// to outputs present within the block (such as if it can successfully scan outputs present).
    pub fn scan(&mut self, block: ScannableBlock, prof: &mut ScannerMicroprof) -> (res: Result<
        Timelocked,
        ScanError,
    >)
        ensures
            *final(self) == *old(self),
            old(prof).is_balanced() ==> final(prof).is_balanced(),
            ({
                let scan = BlockScan { wallet: old(self)@, block };
                &&& found(res, scan.received())
                &&& res is Ok ==> scan.were_sent(res->Ok_0@)
                &&& final(prof).continues(old(prof), scan.trace())
            }),
    {
        self.0.scan(block, prof)
    }

    /// Overwrite the keys, and overwrite and forget the subaddresses registered.
    pub fn zeroize(&mut self)
        ensures
            final(self)@ == Wallet::zeroized(),
            final(self).is_zeroized(),
            final(self).entry_count() == old(self).entry_count(),
    {
        self.0.zeroize();
    }
}

} // verus!
