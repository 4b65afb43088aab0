//! Blocks, so far as a scanner reads them.

use vstd::prelude::*;

use crate::transaction::{transaction_hash, FullTransaction, Transaction};

verus! {

/// The header of a block.
#[derive(Clone, Copy, Debug)]
pub struct BlockHeader {
    /// The version of the protocol the block is of.
    pub hardfork_version: u8,
}

/// A block.
pub struct Block {
    /// The header.
    pub header: BlockHeader,
    /// The miner transaction.
    pub miner_transaction: FullTransaction,
    /// The hashes of the transactions other than the miner transaction.
    pub transactions: Vec<[u8; 32]>,
}

/// A block, with what is needed to scan it.
pub struct ScannableBlock {
    /// The block.
    pub block: Block,
    /// The transactions other than the miner transaction, in order.
    pub transactions: Vec<Transaction>,
    /// The index on the blockchain of the first RingCT output within this block, `None` if there
    /// isn't any.
    pub output_index_for_first_ringct_output: Option<u64>,
}

impl ScannableBlock {
    /// The hash of a transaction of this block, the miner transaction being the first.
    pub open spec fn hash_at(&self, i: int) -> Seq<u8> {
        if i == 0 {
            transaction_hash(self.block.miner_transaction)
        } else {
            self.block.transactions@[i - 1]@
        }
    }

    /// A transaction of this block, the miner transaction being the first.
    pub open spec fn transaction_at(&self, i: int) -> Transaction {
        if i == 0 {
            self.block.miner_transaction.pruned
        } else {
            self.transactions@[i - 1]
        }
    }
}

} // verus!
