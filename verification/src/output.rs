//! The outputs a wallet received.

use vstd::prelude::*;

use crate::address::SubaddressIndex;
use crate::bytes::{vec_at, zeros};
use crate::ed25519::{zeroize_bytes, Commitment, Point, Scalar, IDENTITY};
use crate::extra::{PaymentId, PaymentIdBytes};
use crate::transaction::Timelock;

verus! {

/// The identifier of an output which is the same on every blockchain with its transaction.
#[derive(Clone, Copy, Debug)]
pub struct AbsoluteId {
    /// The hash of the transaction.
    pub transaction: [u8; 32],
    /// The index of the output within the transaction.
    pub index_in_transaction: u64,
}

/// The identifier of an output which depends on the blockchain.
#[derive(Clone, Copy, Debug)]
pub struct RelativeId {
    /// The index of the output among all RingCT outputs on the blockchain.
    pub index_on_blockchain: u64,
}

/// What is needed to spend an output, but for the private spend key.
pub struct OutputData {
    /// The output's key.
    pub key: Point,
    /// The offset of the output's private key from the private spend key.
    pub key_offset: Scalar,
    /// The opening of the commitment to the output's amount.
    pub commitment: Commitment,
}

/// What a transaction says of an output.
pub struct Metadata {
    /// The additional timelock.
    pub additional_timelock: Timelock,
    /// The subaddress the output was received with, `None` if it's the primary address.
    pub subaddress: Option<SubaddressIndex>,
    /// The payment ID.
    pub payment_id: Option<PaymentId>,
    /// The arbitrary data.
    pub arbitrary_data: Vec<Vec<u8>>,
}

/// An output a wallet received.
pub struct WalletOutput {
    /// The absolute identifier.
    pub absolute_id: AbsoluteId,
    /// The relative identifier.
    pub relative_id: RelativeId,
    /// What is needed to spend the output.
    pub data: OutputData,
    /// What the transaction says of the output.
    pub metadata: Metadata,
}

/// What is known of an output a wallet received.
pub struct ReceivedOutput {
    /// The hash of the transaction.
    pub transaction: Seq<u8>,
    /// The index of the output within the transaction.
    pub index_in_transaction: nat,
    /// The index of the output among all RingCT outputs on the blockchain.
    pub index_on_blockchain: nat,
    /// The encoding of the output's key.
    pub key: Seq<u8>,
    /// The offset of the output's private key from the private spend key.
    pub key_offset: nat,
    /// The mask of the commitment.
    pub mask: nat,
    /// The amount.
    pub amount: nat,
    /// The additional timelock.
    pub additional_timelock: Timelock,
    /// The subaddress the output was received with, `None` if it's the primary address.
    pub subaddress: Option<SubaddressIndex>,
    /// The payment ID.
    pub payment_id: Option<PaymentIdBytes>,
    /// The arbitrary data.
    pub arbitrary_data: Seq<Seq<u8>>,
}

impl ReceivedOutput {
    /// What is known of an output which was overwritten.
    pub open spec fn zeroized() -> ReceivedOutput {
        ReceivedOutput {
            transaction: zeros(32),
            index_in_transaction: 0,
            index_on_blockchain: 0,
            key: IDENTITY@,
            key_offset: 0,
            mask: 0,
            amount: 0,
            additional_timelock: Timelock::Absent,
            subaddress: None,
            payment_id: None,
            arbitrary_data: Seq::empty(),
        }
    }
}

/// The bytes of a payment ID, if there is one.
pub open spec fn payment_id_bytes(id: Option<PaymentId>) -> Option<PaymentIdBytes> {
    match id {
        Some(id) => Some(id@),
        None => None,
    }
}

/// The bytes of each piece of arbitrary data.
pub open spec fn data_bytes(data: Seq<Vec<u8>>) -> Seq<Seq<u8>> {
    data.map_values(|data: Vec<u8>| data@)
}

impl View for WalletOutput {
    type V = ReceivedOutput;

    open spec fn view(&self) -> ReceivedOutput {
        ReceivedOutput {
            transaction: self.absolute_id.transaction@,
            index_in_transaction: self.absolute_id.index_in_transaction as nat,
            index_on_blockchain: self.relative_id.index_on_blockchain as nat,
            key: self.data.key@,
            key_offset: self.data.key_offset@,
            mask: self.data.commitment.mask@,
            amount: self.data.commitment.amount as nat,
            additional_timelock: self.metadata.additional_timelock,
            subaddress: self.metadata.subaddress,
            payment_id: payment_id_bytes(self.metadata.payment_id),
            arbitrary_data: data_bytes(self.metadata.arbitrary_data@),
        }
    }
}

/// What is known of each output of a list.
pub open spec fn outputs_view(outputs: Seq<WalletOutput>) -> Seq<ReceivedOutput> {
    outputs.map_values(|output: WalletOutput| output@)
}

fn clone_data(data: &Vec<Vec<u8>>) -> (res: Vec<Vec<u8>>)
    ensures
        data_bytes(res@) == data_bytes(data@),
{
    let mut res: Vec<Vec<u8>> = Vec::new();
    let mut i: usize = 0;
    while i < data.len()
        invariant
            i <= data.len(),
            data_bytes(res@) == data_bytes(data@).take(i as int),
        decreases data.len() - i,
    {
        let ghost before = res@;
        let copy = vec_at(data[i].as_slice(), 0, data[i].len());
        assert(copy@ =~= data@[i as int]@);
        res.push(copy);
        assert(data_bytes(res@) =~= data_bytes(before).push(copy@));
        assert(data_bytes(data@).take(i + 1) =~= data_bytes(data@).take(i as int).push(copy@));
        i += 1;
    }
    assert(data_bytes(data@).take(i as int) =~= data_bytes(data@));
    res
}

impl Clone for WalletOutput {
    fn clone(&self) -> (res: Self)
        ensures
            res@ == self@,
    {
        WalletOutput {
            absolute_id: self.absolute_id,
            relative_id: self.relative_id,
            data: OutputData {
                key: self.data.key.clone(),
                key_offset: self.data.key_offset.clone(),
                commitment: self.data.commitment.clone(),
            },
            metadata: Metadata {
                additional_timelock: self.metadata.additional_timelock,
                subaddress: self.metadata.subaddress,
                payment_id: self.metadata.payment_id,
                arbitrary_data: clone_data(&self.metadata.arbitrary_data),
            },
        }
    }
}

impl WalletOutput {
    /// The additional timelock on this output.
    pub fn additional_timelock(&self) -> (res: Timelock)
        ensures
            res == self@.additional_timelock,
    {
        self.metadata.additional_timelock
    }

    /// Overwrite what is known of the output.
    pub fn zeroize(&mut self)
        ensures
            final(self)@ == ReceivedOutput::zeroized(),
    {
        zeroize_bytes(&mut self.absolute_id.transaction);
        self.absolute_id.index_in_transaction = 0;
        self.relative_id.index_on_blockchain = 0;
        self.data.key.zeroize();
        self.data.key_offset.zeroize();
        self.data.commitment.mask.zeroize();
        self.data.commitment.amount = 0;
        self.metadata.additional_timelock = Timelock::Absent;
        self.metadata.subaddress = None;
        self.metadata.payment_id = None;
        self.metadata.arbitrary_data.clear();
        assert(data_bytes(self.metadata.arbitrary_data@) =~= Seq::empty());
    }
}

} // verus!
