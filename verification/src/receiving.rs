//! What a wallet receives, and what scanning for it is profiled as.

use vstd::prelude::*;

use crate::address::SubaddressIndex;
use crate::block::ScannableBlock;
use crate::derivations::{decrypted_amount, payment_id_pad, shared_key_of, uniqueness_of};
use crate::derivations::view_tag_of;
use crate::ed25519::{base_product, committed, group_order, is_canonical, is_offset_key};
use crate::ed25519::{point_difference, point_product, IDENTITY};
use crate::error::ScanFault;
use crate::extra::{additional_keys, arbitrary_data_of, payment_id_of, public_keys, read_fields};
use crate::extra::{relayed, FieldContents, PaymentIdBytes};
use crate::microprof::{Counter, Event, Timer};
use crate::output::ReceivedOutput;
use crate::transaction::{Output, PrunedRctProofs, Transaction};
use crate::view_pair::{subaddress_offset, subaddress_spend_key};

verus! {

/// The latest version of the protocol which is supported.
pub const LATEST_HARDFORK: u8 = 16;

/// The version of the protocol unencrypted payment IDs are dropped as of.
pub const DROPS_UNENCRYPTED_PAYMENT_IDS: u8 = 12;

/// What a scanner looks for.
pub struct Wallet {
    /// The encoding of the public spend key.
    pub spend: Seq<u8>,
    /// The private view key.
    pub view: nat,
    /// If solely outputs guaranteed to be spendable are looked for.
    pub guaranteed: bool,
    /// The encodings of the spend keys looked for, with the subaddresses they're of.
    pub subaddresses: Map<Seq<u8>, Option<SubaddressIndex>>,
}

impl Wallet {
    /// A wallet which solely looks for outputs sent to the primary address.
    pub open spec fn new(spend: Seq<u8>, view: nat, guaranteed: bool) -> Wallet {
        Wallet { spend, view, guaranteed, subaddresses: Map::empty().insert(spend, None) }
    }

    /// This wallet, once it also looks for outputs sent to a subaddress.
    pub open spec fn registering(self, index: SubaddressIndex) -> Wallet {
        Wallet {
            subaddresses: self.subaddresses.insert(
                subaddress_spend_key(self.spend, self.view, index),
                Some(index),
            ),
            ..self
        }
    }

    /// A wallet whose keys were overwritten, and which doesn't look for anything.
    pub open spec fn zeroized() -> Wallet {
        Wallet { spend: IDENTITY@, view: 0, guaranteed: false, subaddresses: Map::empty() }
    }
}

/// If every spend key looked for is the primary address's, or the one of its subaddress, whose
/// private key is then the private spend key and the subaddress's offset.
pub open spec fn is_registered(wallet: Wallet) -> bool {
    forall|spend: Seq<u8>| #[trigger]
        wallet.subaddresses.contains_key(spend) ==> match wallet.subaddresses[spend] {
            Some(index) => spend == subaddress_spend_key(wallet.spend, wallet.view, index)
                && is_offset_key(wallet.spend, subaddress_offset(wallet.view, index), spend),
            None => spend == wallet.spend,
        }
}

/// What the amount of an output, once looked up, is found to be.
pub enum Settlement {
    /// The amount isn't hidden, or is the one committed to.
    Settled {
        /// The mask of the commitment.
        mask: nat,
        /// The amount.
        amount: nat,
    },
    /// The amount is hidden yet there isn't any RingCT data.
    NoProofs,
    /// The amount is hidden yet there isn't an encrypted amount.
    NoEncryptedAmount,
    /// The amount isn't the one committed to.
    WrongCommitment,
}

/// If an encrypted amount's decryption is the opening of the output's commitment.
pub open spec fn opens_commitment(
    mask: nat,
    amount: nat,
    commitments: Seq<[u8; 32]>,
    o: int,
) -> bool {
    o < commitments.len() && commitments[o]@ == committed(mask, amount)
}

/// What the amount of an output is found to be.
pub open spec fn settlement(
    amount: Option<u64>,
    proofs: Option<PrunedRctProofs>,
    o: int,
    shared_key: nat,
) -> Settlement {
    match (amount, proofs) {
        (Some(amount), _) => Settlement::Settled { mask: 1, amount: amount as nat },
        (None, None) => Settlement::NoProofs,
        (None, Some(proofs)) => if o < proofs.base.encrypted_amounts@.len() {
            let (mask, amount) = decrypted_amount(
                shared_key,
                proofs.base.encrypted_amounts@[o],
            );
            if opens_commitment(mask, amount, proofs.base.commitments@, o) {
                Settlement::Settled { mask, amount }
            } else {
                Settlement::WrongCommitment
            }
        } else {
            Settlement::NoEncryptedAmount
        },
    }
}

/// The error of an amount which can't be found.
pub open spec fn settlement_fault(settlement: Settlement) -> Option<ScanFault> {
    match settlement {
        Settlement::NoProofs => Some(
            ScanFault::InvalidScannableBlock("non-miner v2 transaction without RCT proofs"@),
        ),
        Settlement::NoEncryptedAmount => Some(
            ScanFault::InvalidScannableBlock("RCT proofs without an encrypted amount per output"@),
        ),
        _ => None,
    }
}

/// What settling the amount of an output is profiled as.
pub open spec fn settlement_trace(amount: Option<u64>, settlement: Settlement) -> Seq<Event> {
    match (amount, settlement) {
        (None, Settlement::Settled { .. }) => seq![
            Event::Count(Counter::CommitmentVerifyAttempts),
            Event::Elapsed(Timer::CommitmentVerify),
        ],
        (None, Settlement::WrongCommitment) => seq![
            Event::Count(Counter::CommitmentVerifyAttempts),
            Event::Elapsed(Timer::CommitmentVerify),
            Event::Count(Counter::CommitmentVerifyFail),
        ],
        _ => seq![],
    }
}

/// What looking the ECDH with a key up is profiled as.
pub open spec fn ecdh_trace(hit: bool) -> Seq<Event> {
    if hit {
        seq![Event::Count(Counter::EcdhCacheHits), Event::Elapsed(Timer::EcdhCacheLookupHit)]
    } else {
        seq![
            Event::Count(Counter::EcdhCacheMisses),
            Event::Elapsed(Timer::EcdhCacheLookupMiss),
            Event::Elapsed(Timer::EcdhMul),
            Event::Elapsed(Timer::EcdhCacheLookupMiss),
        ]
    }
}

/// If an output's view tag, which it may not have, is the one expected.
pub open spec fn tag_matches(actual: Option<u8>, expected: u8) -> bool {
    match actual {
        Some(actual) => actual == expected,
        None => true,
    }
}

/// What making the derivations for an output is profiled as.
pub open spec fn derivations_trace(actual: Option<u8>, expected: u8) -> Seq<Event> {
    match actual {
        Some(actual) => if actual == expected {
            seq![
                Event::Elapsed(Timer::OutputDerivations),
                Event::Elapsed(Timer::OutputDerivations),
            ]
        } else {
            seq![
                Event::Elapsed(Timer::OutputDerivations),
                Event::Count(Counter::ViewtagMismatch),
            ]
        },
        None => seq![Event::Elapsed(Timer::OutputDerivations)],
    }
}

/// The keys the output at an index is scanned with: those of the transaction, and the one for it.
pub open spec fn keys_for(fields: Seq<FieldContents>, o: int) -> Seq<Seq<u8>> {
    match additional_keys(fields) {
        Some(additional) => if o < additional.len() {
            public_keys(fields).push(additional[o])
        } else {
            public_keys(fields)
        },
        None => public_keys(fields),
    }
}

/// If an output is scanned at all: its key is a point, and isn't the identity.
pub open spec fn is_scannable(output: Output) -> bool {
    output.key@ != IDENTITY@ && is_canonical(output.key@)
}

/// The scan of a transaction.
pub struct TransactionScan {
    /// What is looked for.
    pub wallet: Wallet,
    /// The transaction.
    pub tx: Transaction,
    /// The serialization of its additional data.
    pub extra: Seq<u8>,
    /// Its hash.
    pub hash: Seq<u8>,
    /// The index on the blockchain of its first output.
    pub first: nat,
}

impl TransactionScan {
    /// The transaction's uniqueness, if the outputs looked for depend on it.
    pub open spec fn uniqueness(self) -> Option<Seq<u8>> {
        if self.wallet.guaranteed {
            Some(uniqueness_of(self.tx.spec_prefix().inputs@))
        } else {
            None
        }
    }

    /// The output at an index.
    pub open spec fn output(self, o: int) -> Output {
        self.tx.spec_prefix().outputs@[o]
    }

    /// The shared secret, had the transaction been made with this key.
    pub open spec fn ecdh(self, key: Seq<u8>) -> Seq<u8> {
        point_product(self.wallet.view, key)
    }

    /// The view tag of an output, had it been made with this key.
    pub open spec fn view_tag(self, o: int, key: Seq<u8>) -> u8 {
        view_tag_of(self.ecdh(key), o as nat)
    }

    /// The shared key of an output, had it been made with this key.
    pub open spec fn shared_key(self, o: int, key: Seq<u8>) -> nat {
        shared_key_of(self.uniqueness(), self.ecdh(key), o as nat)
    }

    /// The spend key an output was sent to, had it been made with this key.
    pub open spec fn spend_key(self, o: int, key: Seq<u8>) -> Seq<u8> {
        point_difference(self.output(o).key@, base_product(self.shared_key(o, key)))
    }

    /// If an output was sent to the wallet with this key.
    pub open spec fn is_ours(self, o: int, key: Seq<u8>) -> bool {
        tag_matches(self.output(o).view_tag, self.view_tag(o, key))
            && self.wallet.subaddresses.contains_key(self.spend_key(o, key))
    }

    /// What the amount of an output sent with this key is found to be.
    pub open spec fn settlement(self, o: int, key: Seq<u8>) -> Settlement {
        settlement(self.output(o).amount, self.tx.spec_proofs(), o, self.shared_key(o, key))
    }

    /// The offset of the private key of an output sent with this key from the private spend key.
    pub open spec fn key_offset(self, o: int, key: Seq<u8>) -> nat {
        match self.wallet.subaddresses[self.spend_key(o, key)] {
            Some(index) => (self.shared_key(o, key) + subaddress_offset(self.wallet.view, index))
                % group_order(),
            None => self.shared_key(o, key),
        }
    }

    /// The payment ID of an output sent with this key.
    pub open spec fn payment_id(self, key: Seq<u8>) -> Option<PaymentIdBytes> {
        match payment_id_of(read_fields(self.extra)) {
            Some(id) => Some(id.decrypted(payment_id_pad(self.ecdh(key)))),
            None => None,
        }
    }

    /// What is known of an output sent with this key.
    pub open spec fn received_output(
        self,
        o: int,
        key: Seq<u8>,
        mask: nat,
        amount: nat,
    ) -> ReceivedOutput {
        ReceivedOutput {
            transaction: self.hash,
            index_in_transaction: o as nat,
            index_on_blockchain: (self.first + o) as nat,
            key: self.output(o).key@,
            key_offset: self.key_offset(o, key),
            mask,
            amount,
            additional_timelock: self.tx.spec_prefix().additional_timelock,
            subaddress: self.wallet.subaddresses[self.spend_key(o, key)],
            payment_id: self.payment_id(key),
            arbitrary_data: arbitrary_data_of(read_fields(relayed(self.extra))),
        }
    }

    /// What scanning an output with this key yields.
    pub open spec fn with_key(self, o: int, key: Seq<u8>) -> Result<
        Option<ReceivedOutput>,
        ScanFault,
    > {
        if !self.is_ours(o, key) {
            Ok(None)
        } else {
            match self.settlement(o, key) {
                Settlement::Settled { mask, amount } => if self.first + o <= u64::MAX {
                    Ok(Some(self.received_output(o, key, mask, amount)))
                } else {
                    Err(
                        ScanFault::InvalidScannableBlock(
                            "transaction's output's index isn't representable as a u64"@,
                        ),
                    )
                },
                Settlement::WrongCommitment => Ok(None),
                unsettled => Err(settlement_fault(unsettled)->0),
            }
        }
    }

    /// If an output was sent with this key to a spend key which is looked for: the output's key is that
    /// spend key, offset by the shared key derived.
    pub open spec fn was_sent_with(self, output: ReceivedOutput, key: Seq<u8>) -> bool {
        let o = output.index_in_transaction as int;
        &&& o < self.tx.spec_prefix().outputs@.len()
        &&& self.is_ours(o, key)
        &&& output.key == self.output(o).key@
        &&& output.key_offset == self.key_offset(o, key)
        &&& output.subaddress == self.wallet.subaddresses[self.spend_key(o, key)]
        &&& is_offset_key(self.spend_key(o, key), self.shared_key(o, key), output.key)
    }

    /// If an output was sent with a key it's scanned with to a spend key which is looked for.
    pub open spec fn was_sent(self, output: ReceivedOutput) -> bool {
        exists|key: Seq<u8>|
            self.keys(output.index_in_transaction as int).contains(key) && #[trigger]
                self.was_sent_with(output, key)
    }

    /// If each output was sent with a key it's scanned with to a spend key which is looked for.
    pub open spec fn were_sent(self, outputs: Seq<ReceivedOutput>) -> bool {
        forall|i: int| 0 <= i < outputs.len() ==> self.was_sent(#[trigger] outputs[i])
    }

    /// What scanning an output with each of these keys yields, up to the first which yields anything.
    pub open spec fn with_keys(self, o: int, keys: Seq<Seq<u8>>) -> Result<
        Option<ReceivedOutput>,
        ScanFault,
    >
        decreases keys.len(),
    {
        if keys.len() == 0 {
            Ok(None)
        } else {
            match self.with_keys(o, keys.drop_last()) {
                Ok(None) => self.with_key(o, keys.last()),
                decided => decided,
            }
        }
    }

    /// The keys the output at an index is scanned with, if it's scanned at all.
    pub open spec fn keys(self, o: int) -> Seq<Seq<u8>> {
        if is_scannable(self.output(o)) {
            keys_for(read_fields(self.extra), o)
        } else {
            Seq::empty()
        }
    }

    /// What scanning the first `n` outputs yields.
    pub open spec fn first_outputs(self, n: int) -> Result<Seq<ReceivedOutput>, ScanFault>
        decreases n,
    {
        if n <= 0 {
            Ok(Seq::empty())
        } else {
            match self.first_outputs(n - 1) {
                Ok(received) => match self.with_keys(n - 1, self.keys(n - 1)) {
                    Ok(Some(output)) => Ok(received.push(output)),
                    Ok(None) => Ok(received),
                    Err(fault) => Err(fault),
                },
                Err(fault) => Err(fault),
            }
        }
    }

    /// If the transaction may have RingCT outputs, and has a key.
    pub open spec fn has_keys(self) -> bool {
        self.tx.spec_version() == 2 && public_keys(read_fields(self.extra)).len() != 0
    }

    /// What scanning the transaction yields.
    pub open spec fn received(self) -> Result<Seq<ReceivedOutput>, ScanFault> {
        if self.has_keys() {
            self.first_outputs(self.tx.spec_prefix().outputs@.len() as int)
        } else {
            Ok(Seq::empty())
        }
    }

    /// What looking up if an output was sent with this key is profiled as.
    pub open spec fn search_trace(self, o: int, key: Seq<u8>, hit: bool) -> Seq<Event> {
        let tag = self.output(o).view_tag;
        let expected = self.view_tag(o, key);
        let screening = seq![Event::Count(Counter::EcdhDerivations)] + ecdh_trace(hit)
            + derivations_trace(tag, expected);
        if tag_matches(tag, expected) {
            screening + ecdh_trace(true) + derivations_trace(tag, expected)
                + seq![Event::Elapsed(Timer::SubaddressLookup)]
        } else {
            screening
        }
    }

    /// What scanning an output with this key is profiled as.
    pub open spec fn key_trace(self, o: int, key: Seq<u8>, hit: bool) -> Seq<Event> {
        let search = self.search_trace(o, key, hit);
        if !self.is_ours(o, key) {
            search
        } else {
            let found = self.settlement(o, key);
            let settling = search + settlement_trace(self.output(o).amount, found);
            match found {
                Settlement::Settled { .. } => settling.push(Event::Count(Counter::OutputsMatched)),
                _ => settling,
            }
        }
    }

    /// The keys whose ECDH is cached once an output was scanned with these keys, `cached` having
    /// been before.
    pub open spec fn keys_cached(
        self,
        o: int,
        keys: Seq<Seq<u8>>,
        cached: Set<Seq<u8>>,
    ) -> Set<Seq<u8>>
        decreases keys.len(),
    {
        if keys.len() == 0 {
            cached
        } else {
            let before = self.keys_cached(o, keys.drop_last(), cached);
            match self.with_keys(o, keys.drop_last()) {
                Ok(None) => before.insert(keys.last()),
                _ => before,
            }
        }
    }

    /// What scanning an output with these keys is profiled as.
    pub open spec fn keys_trace(
        self,
        o: int,
        keys: Seq<Seq<u8>>,
        cached: Set<Seq<u8>>,
    ) -> Seq<Event>
        decreases keys.len(),
    {
        if keys.len() == 0 {
            Seq::empty()
        } else {
            let before = self.keys_trace(o, keys.drop_last(), cached);
            match self.with_keys(o, keys.drop_last()) {
                Ok(None) => before + self.key_trace(
                    o,
                    keys.last(),
                    self.keys_cached(o, keys.drop_last(), cached).contains(keys.last()),
                ),
                _ => before,
            }
        }
    }

    /// Once a key decides what scanning an output yields, the keys after it aren't considered.
    pub proof fn lemma_decided(
        self,
        o: int,
        keys: Seq<Seq<u8>>,
        n: int,
        cached: Set<Seq<u8>>,
    )
        requires
            0 <= n <= keys.len(),
            self.with_keys(o, keys.take(n)) != Ok::<Option<ReceivedOutput>, ScanFault>(None),
        ensures
            self.with_keys(o, keys) == self.with_keys(o, keys.take(n)),
            self.keys_cached(o, keys, cached) == self.keys_cached(o, keys.take(n), cached),
            self.keys_trace(o, keys, cached) == self.keys_trace(o, keys.take(n), cached),
        decreases keys.len() - n,
    {
        if n < keys.len() {
            assert(keys.take(n + 1).drop_last() =~= keys.take(n));
            self.lemma_decided(o, keys, n + 1, cached);
        } else {
            assert(keys.take(n) =~= keys);
        }
    }

    /// The keys whose ECDH is cached once the first `n` outputs were scanned.
    pub open spec fn outputs_cached(self, n: int) -> Set<Seq<u8>>
        decreases n,
    {
        if n <= 0 {
            Set::empty()
        } else {
            self.keys_cached(n - 1, self.keys(n - 1), self.outputs_cached(n - 1))
        }
    }

    /// What scanning the first `n` outputs is profiled as.
    pub open spec fn outputs_trace(self, n: int) -> Seq<Event>
        decreases n,
    {
        if n <= 0 {
            Seq::empty()
        } else {
            let before = self.outputs_trace(n - 1);
            match self.first_outputs(n - 1) {
                Ok(_) => before + (seq![Event::Count(Counter::OutputsVisited)] + self.keys_trace(
                    n - 1,
                    self.keys(n - 1),
                    self.outputs_cached(n - 1),
                )),
                Err(_) => before,
            }
        }
    }

    /// What scanning the transaction is profiled as.
    pub open spec fn trace(self) -> Seq<Event> {
        let end = seq![Event::Elapsed(Timer::ScanTransaction)];
        if self.tx.spec_version() != 2 {
            end
        } else if !self.has_keys() {
            seq![Event::Count(Counter::TxsScanned), Event::Count(Counter::TxKeysMissing)] + end
        } else {
            seq![Event::Count(Counter::TxsScanned)] + self.outputs_trace(
                self.tx.spec_prefix().outputs@.len() as int,
            ) + end
        }
    }
}

/// Once an output can't be scanned, the outputs after it aren't.
pub proof fn lemma_faulted(scan: TransactionScan, n: int, len: int)
    requires
        0 <= n <= len,
        scan.first_outputs(n) is Err,
    ensures
        scan.first_outputs(len) == scan.first_outputs(n),
        scan.outputs_trace(len) == scan.outputs_trace(n),
    decreases len - n,
{
    if n < len {
        lemma_faulted(scan, n + 1, len);
    }
}

/// What scanning a transaction whose additional data can't be read is profiled as.
pub open spec fn unreadable_trace(tx: Transaction) -> Seq<Event> {
    let end = seq![Event::Elapsed(Timer::ScanTransaction)];
    if tx.spec_version() != 2 {
        end
    } else {
        seq![Event::Count(Counter::TxsScanned), Event::Count(Counter::ExtraParseFail)] + end
    }
}

/// The index of the first output of the transaction after this one, if this one's is `first`.
pub open spec fn next_index(first: nat, tx: Transaction) -> nat {
    match tx {
        Transaction::V1 { .. } => first,
        Transaction::V2 { prefix, .. } => first + prefix.outputs@.len(),
    }
}

/// An output, without its payment ID if it isn't encrypted and the protocol drops those.
pub open spec fn without_dropped(hardfork: u8, output: ReceivedOutput) -> ReceivedOutput {
    match output.payment_id {
        Some(PaymentIdBytes::Unencrypted(_)) if hardfork >= DROPS_UNENCRYPTED_PAYMENT_IDS =>
            ReceivedOutput { payment_id: None, ..output },
        _ => output,
    }
}

/// The scan of a block.
pub struct BlockScan {
    /// What is looked for.
    pub wallet: Wallet,
    /// The block.
    pub block: ScannableBlock,
}

impl BlockScan {
    /// The amount of transactions within the block.
    pub open spec fn len(self) -> int {
        (self.block.transactions@.len() + 1) as int
    }

    /// The index on the blockchain of the first output of a transaction of the block.
    pub open spec fn index(self, i: int) -> nat
        decreases i,
    {
        if i <= 0 {
            match self.block.output_index_for_first_ringct_output {
                Some(index) => index as nat,
                None => 0,
            }
        } else {
            next_index(self.index(i - 1), self.block.transaction_at(i - 1))
        }
    }

    /// The scan of a transaction of the block.
    pub open spec fn transaction(self, i: int) -> TransactionScan {
        TransactionScan {
            wallet: self.wallet,
            tx: self.block.transaction_at(i),
            extra: self.block.transaction_at(i).spec_prefix().extra@,
            hash: self.block.hash_at(i),
            first: self.index(i),
        }
    }

    /// If an output was sent by a transaction of the block to a spend key which is looked for.
    pub open spec fn was_sent(self, output: ReceivedOutput) -> bool {
        exists|t: int| 0 <= t < self.len() && #[trigger] self.transaction(t).was_sent(output)
    }

    /// If each output was sent by a transaction of the block to a spend key which is looked for.
    pub open spec fn were_sent(self, outputs: Seq<ReceivedOutput>) -> bool {
        forall|i: int| 0 <= i < outputs.len() ==> self.was_sent(#[trigger] outputs[i])
    }

    /// What scanning the first `n` transactions yields.
    pub open spec fn first_transactions(self, n: int) -> Result<Seq<ReceivedOutput>, ScanFault>
        decreases n,
    {
        if n <= 0 {
            Ok(Seq::empty())
        } else {
            match self.first_transactions(n - 1) {
                Ok(before) => match self.transaction(n - 1).received() {
                    Ok(received) => if self.index(n) <= u64::MAX {
                        Ok(before + received)
                    } else {
                        Err(
                            ScanFault::InvalidScannableBlock(
                                "RingCT output indexes exceeded u64::MAX"@,
                            ),
                        )
                    },
                    Err(fault) => Err(fault),
                },
                Err(fault) => Err(fault),
            }
        }
    }

    /// What scanning the block yields.
    pub open spec fn received(self) -> Result<Seq<ReceivedOutput>, ScanFault> {
        let hardfork = self.block.block.header.hardfork_version;
        if self.block.block.transactions@.len() != self.block.transactions@.len() {
            Err(
                ScanFault::InvalidScannableBlock(
                    "scanning a ScannableBlock with more/less transactions than it should have"@,
                ),
            )
        } else if self.block.output_index_for_first_ringct_output is None {
            Ok(Seq::empty())
        } else if hardfork > LATEST_HARDFORK {
            Err(ScanFault::UnsupportedProtocol(hardfork))
        } else {
            match self.first_transactions(self.len()) {
                Ok(received) => Ok(
                    received.map_values(
                        |output: ReceivedOutput| without_dropped(hardfork, output),
                    ),
                ),
                Err(fault) => Err(fault),
            }
        }
    }

    /// What scanning the first `n` transactions is profiled as.
    pub open spec fn transactions_trace(self, n: int) -> Seq<Event>
        decreases n,
    {
        if n <= 0 {
            Seq::empty()
        } else {
            let before = self.transactions_trace(n - 1);
            match self.first_transactions(n - 1) {
                Ok(_) => before + self.transaction(n - 1).trace(),
                Err(_) => before,
            }
        }
    }

    /// What scanning the block is profiled as.
    pub open spec fn trace(self) -> Seq<Event> {
        if self.block.block.transactions@.len() != self.block.transactions@.len()
            || self.block.output_index_for_first_ringct_output is None
            || self.block.block.header.hardfork_version > LATEST_HARDFORK {
            seq![Event::Elapsed(Timer::BlockSetup)]
        } else {
            seq![Event::Count(Counter::Blocks), Event::Elapsed(Timer::BlockSetup)]
                + self.transactions_trace(self.len())
        }
    }

    /// Once a transaction can't be scanned, the transactions after it aren't.
    pub proof fn lemma_faulted(self, n: int, len: int)
        requires
            0 <= n <= len,
            self.first_transactions(n) is Err,
        ensures
            self.first_transactions(len) == self.first_transactions(n),
            self.transactions_trace(len) == self.transactions_trace(n),
        decreases len - n,
    {
        if n < len {
            self.lemma_faulted(n + 1, len);
        }
    }

    /// Appending outputs sent by a transaction of the block keeps each sent by the block.
    pub proof fn lemma_sent_by(
        self,
        t: int,
        before: Seq<ReceivedOutput>,
        after: Seq<ReceivedOutput>,
    )
        requires
            0 <= t < self.len(),
            self.were_sent(before),
            self.transaction(t).received() is Ok,
            self.transaction(t).were_sent(self.transaction(t).received()->Ok_0),
            after == before + self.transaction(t).received()->Ok_0,
        ensures
            self.were_sent(after),
    {
        let these = self.transaction(t).received()->Ok_0;
        assert forall|i: int| 0 <= i < after.len() implies self.was_sent(#[trigger] after[i]) by {
            if i < before.len() {
                assert(after[i] == before[i]);
            } else {
                assert(after[i] == these[i - before.len()]);
                assert(self.transaction(t).was_sent(after[i]));
            }
        }
    }

    /// Dropping the payment ID of an output doesn't change if it was sent.
    pub proof fn lemma_sent_without_dropped(self, hardfork: u8, output: ReceivedOutput)
        requires
            self.was_sent(output),
        ensures
            self.was_sent(without_dropped(hardfork, output)),
    {
        let t = choose|t: int|
            0 <= t < self.len() && #[trigger] self.transaction(t).was_sent(output);
        let scan = self.transaction(t);
        let key = choose|key: Seq<u8>|
            scan.keys(output.index_in_transaction as int).contains(key) && #[trigger]
                scan.was_sent_with(output, key);
        assert(scan.was_sent_with(without_dropped(hardfork, output), key));
        assert(self.transaction(t).was_sent(without_dropped(hardfork, output)));
    }
}

} // verus!
