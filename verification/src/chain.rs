//! What holds of blocks: which transactions they're scanned as, and when that fails.

use vstd::prelude::*;

use crate::error::ScanFault;
use crate::extra::PaymentIdBytes;
use crate::output::ReceivedOutput;
use crate::payments::prefix_of;
use crate::receiving::{without_dropped, BlockScan, Wallet};
use crate::transaction::{transaction_hash, Transaction};

verus! {

/// A block's transactions are its miner transaction and those which follow, each with its hash. The
/// indexes on the blockchain start with that of the block's first RingCT output, which each output of
/// a transaction of the second version advances.
pub proof fn blocks_are_scanned_by_their_transactions(scan: BlockScan, t: int)
    requires
        0 <= t < scan.len(),
    ensures
        scan.len() == scan.block.transactions@.len() + 1,
        scan.transaction(t).wallet == scan.wallet,
        scan.transaction(0).tx == scan.block.block.miner_transaction.pruned,
        scan.transaction(0).hash == transaction_hash(scan.block.block.miner_transaction),
        t > 0 ==> scan.transaction(t).tx == scan.block.transactions@[t - 1],
        t > 0 ==> scan.transaction(t).hash == scan.block.block.transactions@[t - 1]@,
        scan.transaction(t).extra == prefix_of(scan.transaction(t).tx).extra@,
        scan.block.output_index_for_first_ringct_output is Some ==> scan.transaction(0).first
            == scan.block.output_index_for_first_ringct_output->0,
        scan.index(t) == scan.transaction(t).first,
        scan.index(t + 1) == scan.transaction(t).first + match scan.transaction(t).tx {
            Transaction::V1 { prefix: _ } => 0,
            Transaction::V2 { prefix, proofs: _ } => prefix.outputs@.len(),
        },
{
}

/// If the transaction at this index is the first to fail, with this fault, or if it's the first past
/// which indexes on the blockchain aren't representable.
pub open spec fn block_fails_at(scan: BlockScan, t: int, fault: ScanFault) -> bool {
    &&& match scan.transaction(t).received() {
        Err(of) => fault == of,
        Ok(_) => scan.index(t + 1) > u64::MAX && fault == ScanFault::InvalidScannableBlock(
            "RingCT output indexes exceeded u64::MAX"@,
        ),
    }
    &&& forall|s: int|
        0 <= s < t ==> (#[trigger] scan.transaction(s)).received() is Ok && scan.index(s + 1)
            <= u64::MAX
}

proof fn lemma_block_fails(scan: BlockScan, n: int, fault: ScanFault)
    requires
        0 <= n,
    ensures
        scan.first_transactions(n) == Err::<Seq<ReceivedOutput>, _>(fault) <==> exists|t: int|
            0 <= t < n && #[trigger] block_fails_at(scan, t, fault),
        scan.first_transactions(n) is Ok <==> forall|s: int|
            0 <= s < n ==> (#[trigger] scan.transaction(s)).received() is Ok && scan.index(s + 1)
                <= u64::MAX,
    decreases n,
{
    if n > 0 {
        lemma_block_fails(scan, n - 1, fault);
        let tx = scan.transaction(n - 1);
        match scan.first_transactions(n - 1) {
            Ok(_) => {
                if scan.first_transactions(n) == Err::<Seq<ReceivedOutput>, _>(fault) {
                    assert(block_fails_at(scan, n - 1, fault));
                }
                assert forall|t: int| 0 <= t < n && #[trigger] block_fails_at(
                    scan,
                    t,
                    fault,
                ) implies scan.first_transactions(n) == Err::<Seq<ReceivedOutput>, _>(fault) by {
                    if t < n - 1 {
                        assert(scan.transaction(t).received() is Ok);
                    }
                }
            },
            Err(other) => {
                lemma_block_fails(scan, n - 1, other);
                let s = choose|s: int| 0 <= s < n - 1 && #[trigger] block_fails_at(scan, s, other);
                if scan.first_transactions(n) == Err::<Seq<ReceivedOutput>, _>(fault) {
                    assert(block_fails_at(scan, s, fault));
                }
                assert forall|t: int| 0 <= t < n && #[trigger] block_fails_at(
                    scan,
                    t,
                    fault,
                ) implies scan.first_transactions(n) == Err::<Seq<ReceivedOutput>, _>(fault) by {
                    if t < s {
                        assert(scan.transaction(t).received() is Ok);
                    } else if t > s {
                        assert(scan.transaction(s).received() is Ok);
                    }
                }
            },
        }
    }
}

/// A block is refused exactly if it doesn't have a transaction per hash, if it has RingCT outputs
/// yet is of a version past 16, or if one of its transactions fails, or leaves no representable
/// index, the first of them deciding.
pub proof fn blocks_fail_as_they_are_invalid(scan: BlockScan, fault: ScanFault)
    ensures
        scan.received() == Err::<Seq<ReceivedOutput>, _>(fault) <==> {
            if scan.block.block.transactions@.len() != scan.block.transactions@.len() {
                fault == ScanFault::InvalidScannableBlock(
                    "scanning a ScannableBlock with more/less transactions than it should have"@,
                )
            } else {
                &&& scan.block.output_index_for_first_ringct_output is Some
                &&& if scan.block.block.header.hardfork_version > 16 {
                    fault == ScanFault::UnsupportedProtocol(
                        scan.block.block.header.hardfork_version,
                    )
                } else {
                    exists|t: int|
                        0 <= t < scan.block.transactions@.len() + 1 && #[trigger] block_fails_at(
                            scan,
                            t,
                            fault,
                        )
                }
            }
        },
{
    lemma_block_fails(scan, scan.len(), fault);
}

/// What is received from a block, or a transaction, dropping a payment ID changes nothing but it, and
/// does so solely as of version 12, and solely if it isn't encrypted.
pub proof fn solely_unencrypted_payment_ids_are_dropped(hardfork: u8, output: ReceivedOutput)
    ensures
        ({
            let left = without_dropped(hardfork, output);
            &&& left.payment_id == (if hardfork >= 12 && output.payment_id is Some
                && output.payment_id->0 is Unencrypted {
                None::<PaymentIdBytes>
            } else {
                output.payment_id
            })
            &&& (ReceivedOutput { payment_id: output.payment_id, ..left }) == output
        }),
{
}

/// What a block yields is what its transactions yield, one after another.
pub proof fn blocks_concatenate_their_transactions(scan: BlockScan, n: int)
    requires
        0 <= n,
        scan.first_transactions(n) is Ok,
    ensures
        scan.first_transactions(n)->Ok_0 == Seq::new(
            n as nat,
            |t: int| scan.transaction(t).received()->Ok_0,
        ).flatten(),
    decreases n,
{
    let parts = |n: int|
        Seq::new(n as nat, |t: int| scan.transaction(t).received()->Ok_0);
    if n == 0 {
        assert(parts(0) =~= Seq::empty());
        parts(0).lemma_flatten_and_flatten_alt_are_equivalent();
    } else {
        blocks_concatenate_their_transactions(scan, n - 1);
        assert(parts(n) =~= parts(n - 1).push(scan.transaction(n - 1).received()->Ok_0));
        parts(n - 1).lemma_flatten_push(scan.transaction(n - 1).received()->Ok_0);
    }
}

/// What is received from a block which isn't refused is what its transactions yield, one after
/// another, but for payment IDs which are dropped. Nothing is if there isn't an index to start with.
pub proof fn blocks_are_received_whole(scan: BlockScan)
    requires
        scan.received() is Ok,
    ensures
        scan.received()->Ok_0 == if scan.block.output_index_for_first_ringct_output is None {
            Seq::<ReceivedOutput>::empty()
        } else {
            Seq::new(
                scan.block.transactions@.len() + 1,
                |t: int| scan.transaction(t).received()->Ok_0,
            ).flatten().map_values(
                |output: ReceivedOutput|
                    without_dropped(scan.block.block.header.hardfork_version, output),
            )
        },
{
    if scan.block.output_index_for_first_ringct_output is Some {
        blocks_concatenate_their_transactions(scan, scan.len());
    }
}

/// A scanner starts with the primary address, and solely it.
pub proof fn scanners_start_with_the_primary_address(
    spend: Seq<u8>,
    view: nat,
    guaranteed: bool,
    other: Seq<u8>,
)
    ensures
        ({
            let wallet = Wallet::new(spend, view, guaranteed);
            &&& wallet.spend == spend
            &&& wallet.view == view
            &&& wallet.guaranteed == guaranteed
            &&& wallet.subaddresses.contains_key(other) <==> other == spend
            &&& wallet.subaddresses[spend] is None
        }),
{
}

} // verus!
