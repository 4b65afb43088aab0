//! What holds of scanning as a whole.

use vstd::arithmetic::div_mod::lemma_add_mod_noop_right;
use vstd::prelude::*;

use crate::address::SubaddressIndex;
use crate::ed25519::{base_product, committed, group_order, is_canonical, is_offset_key};
use crate::ed25519::{point_difference, point_sum, IDENTITY};
use crate::error::ScanFault;
use crate::extra::{read_fields, PaymentIdBytes};
use crate::output::ReceivedOutput;
use crate::receiving::{is_registered, is_scannable, tag_matches, BlockScan};
use crate::receiving::{keys_for, next_index, without_dropped, TransactionScan, Wallet};
use crate::receiving::{DROPS_UNENCRYPTED_PAYMENT_IDS, LATEST_HARDFORK};
use crate::timelocked::{not_locked, satisfied_by, unlocked_by};
use crate::transaction::{timelock_at_most, Timelock};
use crate::view_pair::{subaddress_offset, subaddress_spend_key};

verus! {

/// At most is a partial order over timelocks, of which the absent one is the least.
pub proof fn timelocks_are_ordered(a: Timelock, b: Timelock, c: Timelock)
    ensures
        timelock_at_most(Timelock::Absent, a),
        timelock_at_most(a, a),
        timelock_at_most(a, b) && timelock_at_most(b, a) ==> a == b,
        timelock_at_most(a, b) && timelock_at_most(b, c) ==> timelock_at_most(a, c),
{
}

/// An output locked until a block is unlocked by that block and later ones, whatever the time is. One
/// locked until a time is unlocked by that time and later ones, whatever the block is. One without a
/// timelock always is unlocked. The outputs unlocked are in the order they were, each as often.
pub proof fn timelocks_unlock_by_their_own_kind(
    outputs: Seq<ReceivedOutput>,
    block: usize,
    time: u64,
    i: int,
)
    requires
        0 <= i < outputs.len(),
    ensures
        unlocked_by(outputs, block, time).contains(outputs[i]) <==> match outputs[i].additional_timelock {
            Timelock::Absent => true,
            Timelock::Block(until) => until <= block,
            Timelock::Time(until) => until <= time,
        },
        unlocked_by(outputs, block, time) == outputs.filter(
            |output: ReceivedOutput|
                match output.additional_timelock {
                    Timelock::Absent => true,
                    Timelock::Block(until) => until <= block,
                    Timelock::Time(until) => until <= time,
                },
        ),
        not_locked(outputs).contains(outputs[i]) <==> outputs[i].additional_timelock is Absent,
        not_locked(outputs) == outputs.filter(
            |output: ReceivedOutput| output.additional_timelock is Absent,
        ),
{
    let unlocks = |output: ReceivedOutput|
        match output.additional_timelock {
            Timelock::Absent => true,
            Timelock::Block(until) => until <= block,
            Timelock::Time(until) => until <= time,
        };
    let satisfies = |output: ReceivedOutput|
        satisfied_by(output.additional_timelock, block, time);
    let absent = |output: ReceivedOutput| output.additional_timelock is Absent;
    let equals_absent = |output: ReceivedOutput| output.additional_timelock == Timelock::Absent;
    assert(forall|output: ReceivedOutput| #[trigger] satisfies(output) == unlocks(output));
    assert(forall|output: ReceivedOutput| #[trigger] equals_absent(output) == absent(output));
    lemma_filter_same(outputs, satisfies, unlocks);
    lemma_filter_same(outputs, equals_absent, absent);
    lemma_filter_contains(outputs, unlocks, i);
    lemma_filter_contains(outputs, absent, i);
}

proof fn lemma_filter_same(
    outputs: Seq<ReceivedOutput>,
    a: spec_fn(ReceivedOutput) -> bool,
    b: spec_fn(ReceivedOutput) -> bool,
)
    requires
        forall|output: ReceivedOutput| #[trigger] a(output) == b(output),
    ensures
        outputs.filter(a) == outputs.filter(b),
    decreases outputs.len(),
{
    reveal(Seq::filter);
    if outputs.len() != 0 {
        lemma_filter_same(outputs.drop_last(), a, b);
    }
}

proof fn lemma_filter_contains(
    outputs: Seq<ReceivedOutput>,
    keep: spec_fn(ReceivedOutput) -> bool,
    i: int,
)
    requires
        0 <= i < outputs.len(),
    ensures
        outputs.filter(keep).contains(outputs[i]) <==> keep(outputs[i]),
{
    let kept = outputs.filter(keep);
    if keep(outputs[i]) {
        outputs.lemma_filter_contains(keep, i);
    }
    if kept.contains(outputs[i]) {
        let j = choose|j: int| 0 <= j < kept.len() && kept[j] == outputs[i];
        outputs.lemma_filter_pred(keep, j);
    }
}

/// Filtering by a weaker condition first doesn't change what is left by a stronger one.
proof fn lemma_filter_twice(
    outputs: Seq<ReceivedOutput>,
    weak: spec_fn(ReceivedOutput) -> bool,
    strong: spec_fn(ReceivedOutput) -> bool,
)
    requires
        forall|output: ReceivedOutput| #[trigger] strong(output) ==> weak(output),
    ensures
        outputs.filter(weak).filter(strong) == outputs.filter(strong),
    decreases outputs.len(),
{
    reveal(Seq::filter);
    if outputs.len() != 0 {
        let rest = outputs.drop_last();
        lemma_filter_twice(rest, weak, strong);
        if weak(outputs.last()) {
            assert(outputs.filter(weak).drop_last() =~= rest.filter(weak));
        }
    }
}

/// The outputs which aren't additionally locked are unlocked by every block and time.
pub proof fn unlocked_outputs_stay_unlocked(
    outputs: Seq<ReceivedOutput>,
    block: usize,
    time: u64,
)
    ensures
        not_locked(unlocked_by(outputs, block, time)) == not_locked(outputs),
{
    lemma_filter_twice(
        outputs,
        |output: ReceivedOutput| satisfied_by(output.additional_timelock, block, time),
        |output: ReceivedOutput| output.additional_timelock == Timelock::Absent,
    );
}

/// The outputs unlocked by a block and time are unlocked by every later block and time.
pub proof fn unlocking_is_monotonic(
    outputs: Seq<ReceivedOutput>,
    block: usize,
    time: u64,
    later_block: usize,
    later_time: u64,
)
    requires
        block <= later_block,
        time <= later_time,
    ensures
        unlocked_by(unlocked_by(outputs, later_block, later_time), block, time) == unlocked_by(
            outputs,
            block,
            time,
        ),
{
    lemma_filter_twice(
        outputs,
        |output: ReceivedOutput| satisfied_by(output.additional_timelock, later_block, later_time),
        |output: ReceivedOutput| satisfied_by(output.additional_timelock, block, time),
    );
}

/// Every output is unlocked by the latest block and time.
pub proof fn every_output_unlocks(outputs: Seq<ReceivedOutput>)
    ensures
        unlocked_by(outputs, usize::MAX, u64::MAX) == outputs,
    decreases outputs.len(),
{
    reveal(Seq::filter);
    if outputs.len() != 0 {
        every_output_unlocks(outputs.drop_last());
        assert(outputs.drop_last().push(outputs.last()) =~= outputs);
    }
}

/// A scanner looks for spend keys of its own wallet alone, whichever subaddresses are registered.
pub proof fn registered_keys_are_ours(
    spend: Seq<u8>,
    view: nat,
    guaranteed: bool,
    wallet: Wallet,
    index: SubaddressIndex,
)
    requires
        is_registered(wallet),
        is_offset_key(
            wallet.spend,
            subaddress_offset(wallet.view, index),
            subaddress_spend_key(wallet.spend, wallet.view, index),
        ),
    ensures
        is_registered(Wallet::new(spend, view, guaranteed)),
        is_registered(wallet.registering(index)),
        is_registered(Wallet::zeroized()),
{
}

/// A subaddress registered is looked for, registering it again changes nothing, and no other spend
/// key is looked for in its place.
pub proof fn registering_adds_one_subaddress(wallet: Wallet, index: SubaddressIndex, spend: Seq<u8>)
    ensures
        ({
            let registered = wallet.registering(index);
            let added = subaddress_spend_key(wallet.spend, wallet.view, index);
            &&& registered.subaddresses.contains_key(added)
            &&& registered.subaddresses[added] == Some(index)
            &&& registered.registering(index) == registered
            &&& registered.spend == wallet.spend
            &&& registered.view == wallet.view
            &&& registered.guaranteed == wallet.guaranteed
            &&& spend != added ==> registered.subaddresses.contains_key(spend)
                == wallet.subaddresses.contains_key(spend)
            &&& spend != added && wallet.subaddresses.contains_key(spend)
                ==> registered.subaddresses[spend] == wallet.subaddresses[spend]
        }),
{
    let registered = wallet.registering(index);
    assert(registered.registering(index).subaddresses =~= registered.subaddresses);
}

/// The key of an output received is the public spend key, offset by the basepoint times the output's
/// key offset, whichever address the output was received with. Its private key hence is the sum of
/// the private spend key and the key offset.
pub proof fn received_outputs_are_spendable(
    scan: TransactionScan,
    output: ReceivedOutput,
    private: nat,
)
    requires
        is_registered(scan.wallet),
        scan.was_sent(output),
    ensures
        output.key == point_sum(scan.wallet.spend, base_product(output.key_offset)),
        private < group_order() && scan.wallet.spend == base_product(private) ==> output.key
            == base_product((private + output.key_offset) % group_order()),
{
    let order = group_order() as int;
    let o = output.index_in_transaction as int;
    let key = choose|key: Seq<u8>|
        scan.keys(o).contains(key) && #[trigger] scan.was_sent_with(output, key);
    let spend = scan.spend_key(o, key);
    let shared_key = scan.shared_key(o, key);
    assert(shared_key < group_order());
    assert(scan.wallet.subaddresses.contains_key(spend));
    assert(output.key == point_sum(spend, base_product(shared_key)));
    if let Some(index) = output.subaddress {
        let offset = subaddress_offset(scan.wallet.view, index);
        assert(point_sum(spend, base_product(shared_key)) == point_sum(
            scan.wallet.spend,
            base_product((offset + shared_key) % group_order()),
        ));
        assert(offset + shared_key == shared_key + offset);
        if private < group_order() && scan.wallet.spend == base_product(private) {
            let subaddress = (private + offset) % group_order();
            assert(spend == base_product(subaddress));
            assert(output.key == base_product((subaddress + shared_key) % group_order()));
            lemma_add_mod_noop_right(shared_key as int, (private + offset) as int, order);
            lemma_add_mod_noop_right(private as int, (shared_key + offset) as int, order);
        }
    }
}

/// As with transactions, the key of an output received from a block is the public spend key, offset
/// by the basepoint times the output's key offset.
pub proof fn received_outputs_of_blocks_are_spendable(
    scan: BlockScan,
    output: ReceivedOutput,
    private: nat,
)
    requires
        is_registered(scan.wallet),
        scan.was_sent(output),
    ensures
        output.key == point_sum(scan.wallet.spend, base_product(output.key_offset)),
        private < group_order() && scan.wallet.spend == base_product(private) ==> output.key
            == base_product((private + output.key_offset) % group_order()),
{
    let t = choose|t: int| 0 <= t < scan.len() && #[trigger] scan.transaction(t).was_sent(output);
    received_outputs_are_spendable(scan.transaction(t), output, private);
}

/// Outputs are solely received with subaddresses which were registered.
pub proof fn received_with_registered_subaddresses(
    scan: BlockScan,
    output: ReceivedOutput,
    index: SubaddressIndex,
)
    requires
        scan.was_sent(output),
        output.subaddress == Some(index),
    ensures
        scan.wallet.subaddresses.contains_value(Some(index)),
{
    let t = choose|t: int| 0 <= t < scan.len() && #[trigger] scan.transaction(t).was_sent(output);
    let tx = scan.transaction(t);
    let o = output.index_in_transaction as int;
    let key = choose|key: Seq<u8>|
        tx.keys(o).contains(key) && #[trigger] tx.was_sent_with(output, key);
    assert(scan.wallet.subaddresses.contains_key(tx.spend_key(o, key)));
}

/// If a key is the sum of a spend key and the base point times a shared key, which yields the spend
/// key again once the latter is subtracted.
pub open spec fn is_sent_key(key: Seq<u8>, spend: Seq<u8>, shared_key: nat) -> bool {
    &&& key == point_sum(spend, base_product(shared_key))
    &&& point_difference(key, base_product(shared_key)) == spend
}

/// An output sent to a spend key which is looked for, with the view tag it should have if it has
/// one, is found to be.
pub proof fn outputs_sent_are_ours(scan: TransactionScan, o: int, key: Seq<u8>, spend: Seq<u8>)
    requires
        is_sent_key(scan.output(o).key@, spend, scan.shared_key(o, key)),
        tag_matches(scan.output(o).view_tag, scan.view_tag(o, key)),
        scan.wallet.subaddresses.contains_key(spend),
    ensures
        scan.is_ours(o, key),
        scan.spend_key(o, key) == spend,
{
}

/// What scanning with a list of keys yields is what scanning with one of them yields.
pub proof fn lemma_with_keys(scan: TransactionScan, o: int, keys: Seq<Seq<u8>>)
    ensures
        match scan.with_keys(o, keys) {
            Ok(None) => forall|k: int|
                0 <= k < keys.len() ==> scan.with_key(o, #[trigger] keys[k]) == Ok::<
                    Option<ReceivedOutput>,
                    ScanFault,
                >(None),
            decided => exists|k: int|
                0 <= k < keys.len() && scan.with_key(o, #[trigger] keys[k]) == decided,
        },
    decreases keys.len(),
{
    if keys.len() != 0 {
        let rest = keys.drop_last();
        lemma_with_keys(scan, o, rest);
        assert(forall|k: int| 0 <= k < rest.len() ==> #[trigger] keys[k] == rest[k]);
        match scan.with_keys(o, rest) {
            Ok(None) => {
                assert(keys[keys.len() - 1] == keys.last());
            },
            decided => {
                let k = choose|k: int|
                    0 <= k < rest.len() && scan.with_key(o, #[trigger] rest[k]) == decided;
                assert(scan.with_key(o, keys[k]) == decided);
            },
        }
    }
}

/// What is known of the outputs received among the first `n` of a transaction.
pub proof fn lemma_first_outputs(scan: TransactionScan, n: int)
    requires
        0 <= n,
        scan.first_outputs(n) is Ok,
    ensures
        ({
            let received = scan.first_outputs(n)->Ok_0;
            &&& forall|i: int|
                0 <= i < received.len() ==> {
                    let o = (#[trigger] received[i]).index_in_transaction;
                    o < n && scan.with_keys(o as int, scan.keys(o as int)) == Ok::<_, ScanFault>(
                        Some(received[i]),
                    )
                }
            &&& forall|i: int, j: int|
                0 <= i < j < received.len() ==> (#[trigger] received[i]).index_in_transaction < (
                #[trigger] received[j]).index_in_transaction
            &&& forall|o: int|
                0 <= o < n ==> (#[trigger] scan.with_keys(o, scan.keys(o))) is Ok && match (
                scan.with_keys(o, scan.keys(o))) {
                    Ok(Some(output)) => exists|i: int|
                        0 <= i < received.len() && received[i] == output,
                    _ => true,
                }
        }),
    decreases n,
{
    if n > 0 {
        lemma_first_outputs(scan, n - 1);
        lemma_with_keys(scan, n - 1, scan.keys(n - 1));
        let before = scan.first_outputs(n - 1)->Ok_0;
        let received = scan.first_outputs(n)->Ok_0;
        assert(forall|i: int| 0 <= i < before.len() ==> received[i] == before[i]);
        match scan.with_keys(n - 1, scan.keys(n - 1)) {
            Ok(Some(output)) => {
                assert(received[received.len() - 1] == output);
                assert(output.index_in_transaction == n - 1);
            },
            _ => {},
        }
        assert forall|o: int| 0 <= o < n implies (#[trigger] scan.with_keys(o, scan.keys(o))) is Ok
            && match (scan.with_keys(o, scan.keys(o))) {
            Ok(Some(output)) => exists|i: int| 0 <= i < received.len() && received[i] == output,
            _ => true,
        } by {
            if o < n - 1 {
                if let Ok(Some(output)) = scan.with_keys(o, scan.keys(o)) {
                    let i = choose|i: int| 0 <= i < before.len() && before[i] == output;
                    assert(received[i] == output);
                }
            }
        }
    }
}

/// Each output of a transaction is received at most once, in order.
pub proof fn outputs_are_received_once(scan: TransactionScan, i: int, j: int)
    requires
        scan.received() is Ok,
        0 <= i < j < scan.received()->Ok_0.len(),
    ensures
        scan.received()->Ok_0[i].index_in_transaction
            < scan.received()->Ok_0[j].index_in_transaction,
{
    lemma_first_outputs(scan, scan.tx.spec_prefix().outputs@.len() as int);
}

/// An output received is one of the transaction's, with the key the transaction has for it, the
/// transaction's hash and timelock, and the index on the blockchain its place has.
pub proof fn received_outputs_are_the_transactions(scan: TransactionScan, i: int)
    requires
        scan.received() is Ok,
        0 <= i < scan.received()->Ok_0.len(),
    ensures
        ({
            let received = scan.received()->Ok_0[i];
            let o = received.index_in_transaction as int;
            &&& scan.has_keys()
            &&& o < scan.tx.spec_prefix().outputs@.len()
            &&& received.key == scan.output(o).key@
            &&& received.transaction == scan.hash
            &&& received.index_on_blockchain == scan.first + o
            &&& received.index_on_blockchain <= u64::MAX
            &&& received.additional_timelock == scan.tx.spec_prefix().additional_timelock
        }),
{
    lemma_first_outputs(scan, scan.tx.spec_prefix().outputs@.len() as int);
    let o = scan.received()->Ok_0[i].index_in_transaction as int;
    lemma_with_keys(scan, o, scan.keys(o));
}

/// Outputs whose key is the identity, or isn't a point, are never received.
pub proof fn unspendable_keys_are_skipped(scan: TransactionScan, i: int)
    requires
        scan.received() is Ok,
        0 <= i < scan.received()->Ok_0.len(),
    ensures
        scan.received()->Ok_0[i].key != IDENTITY@,
        is_canonical(scan.received()->Ok_0[i].key),
{
    lemma_first_outputs(scan, scan.tx.spec_prefix().outputs@.len() as int);
    let o = scan.received()->Ok_0[i].index_in_transaction as int;
    lemma_with_keys(scan, o, scan.keys(o));
    assert(is_scannable(scan.output(o)));
}

/// The amount of an output received is the one the transaction declares, or is hidden and opens
/// the commitment the transaction has for the output.
pub proof fn received_amounts_are_committed_to(scan: TransactionScan, i: int)
    requires
        scan.received() is Ok,
        0 <= i < scan.received()->Ok_0.len(),
    ensures
        ({
            let received = scan.received()->Ok_0[i];
            let o = received.index_in_transaction as int;
            match scan.output(o).amount {
                Some(amount) => received.amount == amount && received.mask == 1,
                None => {
                    &&& scan.tx.spec_proofs() is Some
                    &&& o < scan.tx.spec_proofs()->0.base.commitments@.len()
                    &&& scan.tx.spec_proofs()->0.base.commitments@[o]@ == committed(
                        received.mask,
                        received.amount,
                    )
                },
            }
        }),
{
    lemma_first_outputs(scan, scan.tx.spec_prefix().outputs@.len() as int);
    let o = scan.received()->Ok_0[i].index_in_transaction as int;
    lemma_with_keys(scan, o, scan.keys(o));
}

/// An output which scanning with any of its keys finds is received, unless the scan fails.
pub proof fn outputs_found_are_received(scan: TransactionScan, o: int, key: Seq<u8>)
    requires
        scan.received() is Ok,
        scan.has_keys(),
        0 <= o < scan.tx.spec_prefix().outputs@.len(),
        scan.keys(o).contains(key),
        scan.is_ours(o, key),
        scan.settlement(o, key) is Settled,
    ensures
        exists|i: int|
            0 <= i < scan.received()->Ok_0.len() && (
            #[trigger] scan.received()->Ok_0[i]).index_in_transaction == o,
{
    lemma_first_outputs(scan, scan.tx.spec_prefix().outputs@.len() as int);
    lemma_with_keys(scan, o, scan.keys(o));
    let k = choose|k: int| 0 <= k < scan.keys(o).len() && scan.keys(o)[k] == key;
    assert(scan.with_key(o, scan.keys(o)[k]) != Ok::<Option<ReceivedOutput>, ScanFault>(None));
    assert(scan.with_keys(o, scan.keys(o)) is Ok);
    let output = scan.with_keys(o, scan.keys(o))->Ok_0->0;
    let i = choose|i: int|
        0 <= i < scan.received()->Ok_0.len() && scan.received()->Ok_0[i] == output;
    assert(scan.received()->Ok_0[i].index_in_transaction == o);
}

/// An output sent to a spend key which is looked for, with one of the transaction's keys for it and
/// an amount which is found, is received, unless the scan fails.
pub proof fn outputs_sent_are_received(scan: TransactionScan, o: int, key: Seq<u8>, spend: Seq<u8>)
    requires
        scan.received() is Ok,
        scan.has_keys(),
        0 <= o < scan.tx.spec_prefix().outputs@.len(),
        is_scannable(scan.output(o)),
        keys_for(read_fields(scan.extra), o).contains(key),
        is_sent_key(scan.output(o).key@, spend, scan.shared_key(o, key)),
        tag_matches(scan.output(o).view_tag, scan.view_tag(o, key)),
        scan.wallet.subaddresses.contains_key(spend),
        scan.settlement(o, key) is Settled,
    ensures
        exists|i: int|
            0 <= i < scan.received()->Ok_0.len() && (
            #[trigger] scan.received()->Ok_0[i]).index_in_transaction == o,
{
    outputs_sent_are_ours(scan, o, key, spend);
    outputs_found_are_received(scan, o, key);
}

/// Nothing is received from transactions before RingCT, nor from those without a key.
pub proof fn transactions_without_keys_yield_nothing(scan: TransactionScan)
    requires
        scan.tx.spec_version() == 1 || !scan.has_keys(),
    ensures
        scan.received() == Ok::<_, ScanFault>(Seq::<ReceivedOutput>::empty()),
{
}

proof fn lemma_nothing_sought(scan: TransactionScan, n: int)
    requires
        0 <= n,
        forall|spend: Seq<u8>| !(#[trigger] scan.wallet.subaddresses.contains_key(spend)),
    ensures
        scan.first_outputs(n) == Ok::<_, ScanFault>(Seq::<ReceivedOutput>::empty()),
    decreases n,
{
    if n > 0 {
        lemma_nothing_sought(scan, n - 1);
        lemma_with_keys(scan, n - 1, scan.keys(n - 1));
    }
}

/// A scanner which was zeroized doesn't find anything.
pub proof fn zeroized_scanners_find_nothing(scan: TransactionScan)
    requires
        scan.wallet == Wallet::zeroized(),
    ensures
        scan.received() == Ok::<_, ScanFault>(Seq::<ReceivedOutput>::empty()),
{
    lemma_nothing_sought(scan, scan.tx.spec_prefix().outputs@.len() as int);
}

proof fn lemma_no_transactions_sought(scan: BlockScan, n: int)
    requires
        scan.wallet == Wallet::zeroized(),
        scan.first_transactions(n) is Ok,
    ensures
        scan.first_transactions(n)->Ok_0.len() == 0,
    decreases n,
{
    if n > 0 {
        lemma_no_transactions_sought(scan, n - 1);
        zeroized_scanners_find_nothing(scan.transaction(n - 1));
    }
}

/// A scanner which was zeroized doesn't find anything within a block.
pub proof fn zeroized_scanners_find_nothing_in_blocks(scan: BlockScan)
    requires
        scan.wallet == Wallet::zeroized(),
    ensures
        match scan.received() {
            Ok(received) => received.len() == 0,
            Err(fault) => {
                // The block by itself is invalid, or isn't supported
                ||| fault == ScanFault::InvalidScannableBlock(
                    "scanning a ScannableBlock with more/less transactions than it should have"@,
                )
                ||| fault == ScanFault::InvalidScannableBlock(
                    "RingCT output indexes exceeded u64::MAX"@,
                )
                ||| fault == ScanFault::UnsupportedProtocol(
                    scan.block.block.header.hardfork_version,
                )
            },
        },
{
    if scan.first_transactions(scan.len()) is Ok {
        lemma_no_transactions_sought(scan, scan.len());
    } else {
        lemma_no_transactions_fault(scan, scan.len());
    }
}

proof fn lemma_no_transactions_fault(scan: BlockScan, n: int)
    requires
        scan.wallet == Wallet::zeroized(),
        scan.first_transactions(n) is Err,
    ensures
        scan.first_transactions(n)->Err_0 == ScanFault::InvalidScannableBlock(
            "RingCT output indexes exceeded u64::MAX"@,
        ),
    decreases n,
{
    if n > 0 {
        if scan.first_transactions(n - 1) is Err {
            lemma_no_transactions_fault(scan, n - 1);
        } else {
            zeroized_scanners_find_nothing(scan.transaction(n - 1));
        }
    }
}

proof fn lemma_first_transactions(scan: BlockScan, n: int)
    requires
        0 <= n,
        scan.first_transactions(n) is Ok,
    ensures
        ({
            let received = scan.first_transactions(n)->Ok_0;
            &&& scan.index(0) <= scan.index(n)
            &&& forall|i: int|
                0 <= i < received.len() ==> scan.index(0) <= (
                #[trigger] received[i]).index_on_blockchain < scan.index(n)
            &&& forall|i: int, j: int|
                0 <= i < j < received.len() ==> (#[trigger] received[i]).index_on_blockchain < (
                #[trigger] received[j]).index_on_blockchain
            &&& forall|i: int|
                0 <= i < received.len() ==> is_among_received(scan, n, #[trigger] received[i])
        }),
    decreases n,
{
    if n > 0 {
        lemma_first_transactions(scan, n - 1);
        let before = scan.first_transactions(n - 1)->Ok_0;
        let tx = scan.transaction(n - 1);
        let these = tx.received()->Ok_0;
        let received = scan.first_transactions(n)->Ok_0;
        assert(received == before + these);
        assert(scan.index(n) == next_index(scan.index(n - 1), tx.tx));
        assert forall|k: int| 0 <= k < these.len() implies scan.index(n - 1) <= (
        #[trigger] these[k]).index_on_blockchain < scan.index(n) by {
            received_outputs_are_the_transactions(tx, k);
        }
        assert forall|k: int, l: int| 0 <= k < l < these.len() implies (
        #[trigger] these[k]).index_on_blockchain < (#[trigger] these[l]).index_on_blockchain by {
            received_outputs_are_the_transactions(tx, k);
            received_outputs_are_the_transactions(tx, l);
            outputs_are_received_once(tx, k, l);
        }
        assert forall|i: int| 0 <= i < received.len() implies is_among_received(
            scan,
            n,
            #[trigger] received[i],
        ) by {
            if i < before.len() {
                assert(is_among_received(scan, n - 1, before[i]));
                let (t, k) = choose|t: int, k: int|
                    0 <= t < n - 1 && #[trigger] is_received(scan, t, k, before[i]);
                assert(is_received(scan, t, k, received[i]));
            } else {
                assert(is_received(scan, n - 1, i - before.len(), received[i]));
            }
        }
        assert forall|i: int| 0 <= i < received.len() implies scan.index(0) <= (
        #[trigger] received[i]).index_on_blockchain < scan.index(n) by {
            if i < before.len() {
                assert(received[i] == before[i]);
            } else {
                assert(received[i] == these[i - before.len()]);
            }
        }
        assert forall|i: int, j: int| 0 <= i < j < received.len() implies (
        #[trigger] received[i]).index_on_blockchain < (
        #[trigger] received[j]).index_on_blockchain by {
            if j < before.len() {
                assert(received[i] == before[i] && received[j] == before[j]);
            } else if i < before.len() {
                assert(received[i] == before[i]);
                assert(received[j] == these[j - before.len()]);
            } else {
                assert(received[i] == these[i - before.len()]);
                assert(received[j] == these[j - before.len()]);
            }
        }
    }
}

/// If an output is one of those received from a transaction of a block.
pub open spec fn is_received(scan: BlockScan, t: int, k: int, output: ReceivedOutput) -> bool {
    &&& scan.transaction(t).received() is Ok
    &&& 0 <= k < scan.transaction(t).received()->Ok_0.len()
    &&& scan.transaction(t).received()->Ok_0[k] == output
}

/// If an output is one of those received from the first `n` transactions of a block.
pub open spec fn is_among_received(scan: BlockScan, n: int, output: ReceivedOutput) -> bool {
    exists|t: int, k: int| 0 <= t < n && #[trigger] is_received(scan, t, k, output)
}

/// The outputs received from a block are in the order they're on the blockchain, without any
/// occurring twice.
pub proof fn blocks_are_received_in_order(scan: BlockScan, i: int, j: int)
    requires
        scan.received() is Ok,
        0 <= i < j < scan.received()->Ok_0.len(),
    ensures
        scan.received()->Ok_0[i].index_on_blockchain < scan.received()->Ok_0[j].index_on_blockchain,
{
    lemma_first_transactions(scan, scan.len());
    let all = scan.first_transactions(scan.len())->Ok_0;
    let hardfork = scan.block.block.header.hardfork_version;
    assert(scan.received()->Ok_0[i] == without_dropped(hardfork, all[i]));
    assert(scan.received()->Ok_0[j] == without_dropped(hardfork, all[j]));
}

/// The indexes on the blockchain of the outputs received from a block are among those of the block's
/// RingCT outputs.
pub proof fn received_outputs_are_the_blocks(scan: BlockScan, i: int)
    requires
        scan.received() is Ok,
        0 <= i < scan.received()->Ok_0.len(),
    ensures
        scan.index(0) <= scan.received()->Ok_0[i].index_on_blockchain < scan.index(scan.len()),
        scan.index(scan.len()) <= u64::MAX,
{
    lemma_first_transactions(scan, scan.len());
    let all = scan.first_transactions(scan.len())->Ok_0;
    let hardfork = scan.block.block.header.hardfork_version;
    assert(scan.received()->Ok_0[i] == without_dropped(hardfork, all[i]));
}

/// An output received from a block was received from one of its transactions, though its payment ID
/// may have been dropped.
pub proof fn blocks_yield_what_their_transactions_do(scan: BlockScan, i: int)
    requires
        scan.received() is Ok,
        0 <= i < scan.received()->Ok_0.len(),
    ensures
        exists|output: ReceivedOutput| #[trigger]
            is_among_received(scan, scan.len(), output) && scan.received()->Ok_0[i]
                == without_dropped(scan.block.block.header.hardfork_version, output),
{
    lemma_first_transactions(scan, scan.len());
    assert(is_among_received(scan, scan.len(), scan.first_transactions(scan.len())->Ok_0[i]));
}

proof fn lemma_all_transactions(scan: BlockScan, n: int, t: int, k: int, output: ReceivedOutput)
    requires
        0 <= t < n,
        scan.first_transactions(n) is Ok,
        is_received(scan, t, k, output),
    ensures
        exists|i: int|
            0 <= i < scan.first_transactions(n)->Ok_0.len() && (
            #[trigger] scan.first_transactions(n)->Ok_0[i]) == output,
    decreases n,
{
    let before = scan.first_transactions(n - 1)->Ok_0;
    let received = scan.first_transactions(n)->Ok_0;
    if t == n - 1 {
        assert(received[before.len() + k] == output);
    } else {
        lemma_all_transactions(scan, n - 1, t, k, output);
        let i = choose|i: int| 0 <= i < before.len() && (#[trigger] before[i]) == output;
        assert(received[i] == output);
    }
}

/// An output received from any of a block's transactions is received from the block, though its
/// payment ID may be dropped.
pub proof fn blocks_yield_all_their_transactions_do(
    scan: BlockScan,
    t: int,
    k: int,
    output: ReceivedOutput,
)
    requires
        scan.received() is Ok,
        scan.block.output_index_for_first_ringct_output is Some,
        0 <= t < scan.len(),
        is_received(scan, t, k, output),
    ensures
        scan.received()->Ok_0.contains(
            without_dropped(scan.block.block.header.hardfork_version, output),
        ),
{
    lemma_all_transactions(scan, scan.len(), t, k, output);
    let all = scan.first_transactions(scan.len())->Ok_0;
    let i = choose|i: int| 0 <= i < all.len() && (#[trigger] all[i]) == output;
    assert(scan.received()->Ok_0[i] == without_dropped(
        scan.block.block.header.hardfork_version,
        output,
    ));
}

/// As of the version which drops them, no output has an unencrypted payment ID. Before it, the
/// payment IDs are those of the transactions.
pub proof fn unencrypted_payment_ids_are_dropped(scan: BlockScan, i: int)
    requires
        scan.received() is Ok,
        0 <= i < scan.received()->Ok_0.len(),
    ensures
        scan.block.block.header.hardfork_version >= DROPS_UNENCRYPTED_PAYMENT_IDS
            ==> match scan.received()->Ok_0[i].payment_id {
            Some(PaymentIdBytes::Unencrypted(_)) => false,
            _ => true,
        },
        scan.block.block.header.hardfork_version < DROPS_UNENCRYPTED_PAYMENT_IDS
            ==> scan.received()->Ok_0[i] == scan.first_transactions(scan.len())->Ok_0[i],
{
}

/// Nothing is received from a block without RingCT outputs, whichever version it's of.
pub proof fn blocks_without_ringct_yield_nothing(scan: BlockScan)
    requires
        scan.block.block.transactions@.len() == scan.block.transactions@.len(),
        scan.block.output_index_for_first_ringct_output is None,
    ensures
        scan.received() == Ok::<_, ScanFault>(Seq::<ReceivedOutput>::empty()),
{
}

/// A block is of an unsupported protocol if and only if its version is past the latest, its
/// transactions are all there, and it has RingCT outputs.
pub proof fn later_protocols_are_unsupported(scan: BlockScan, version: u8)
    ensures
        scan.received() == Err::<Seq<ReceivedOutput>, _>(ScanFault::UnsupportedProtocol(version))
            <==> {
            &&& scan.block.block.header.hardfork_version == version
            &&& version > LATEST_HARDFORK
            &&& scan.block.block.transactions@.len() == scan.block.transactions@.len()
            &&& scan.block.output_index_for_first_ringct_output is Some
        },
{
    lemma_transactions_fault(scan, scan.len());
}

proof fn lemma_transactions_fault(scan: BlockScan, n: int)
    ensures
        match scan.first_transactions(n) {
            Err(ScanFault::UnsupportedProtocol(_)) => false,
            _ => true,
        },
    decreases n,
{
    if n > 0 {
        lemma_transactions_fault(scan, n - 1);
        lemma_outputs_fault(
            scan.transaction(n - 1),
            scan.transaction(n - 1).tx.spec_prefix().outputs@.len() as int,
        );
    }
}

proof fn lemma_outputs_fault(scan: TransactionScan, n: int)
    ensures
        match scan.first_outputs(n) {
            Err(ScanFault::UnsupportedProtocol(_)) => false,
            _ => true,
        },
    decreases n,
{
    if n > 0 {
        lemma_outputs_fault(scan, n - 1);
        lemma_with_keys(scan, n - 1, scan.keys(n - 1));
    }
}

} // verus!
