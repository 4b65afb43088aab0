//! Monero transactions, so far as a scanner reads them.

use vstd::prelude::*;

use crate::bytes::{push_bytes, varint, write_varint, zeros};
use crate::hash::{keccak256, keccak256_digest};

verus! {

/// An additional timelock on a transaction's outputs.
#[derive(Clone, Copy, PartialEq, Eq, Structural, Debug)]
pub enum Timelock {
    /// No additional timelock.
    Absent,
    /// Additionally locked until this block.
    Block(usize),
    /// Additionally locked until this many seconds since the epoch.
    Time(u64),
}

/// If `a` is at most `b`. No timelock is at most any, and a block and a time aren't comparable.
pub open spec fn timelock_at_most(a: Timelock, b: Timelock) -> bool {
    match (a, b) {
        (Timelock::Absent, _) => true,
        (Timelock::Block(a), Timelock::Block(b)) => a <= b,
        (Timelock::Time(a), Timelock::Time(b)) => a <= b,
        _ => false,
    }
}

impl Timelock {
    /// If this timelock is at most `other`. No timelock is at most any, and a block and a time
    /// aren't comparable.
    pub fn at_most(&self, other: &Timelock) -> (res: bool)
        ensures
            res == timelock_at_most(*self, *other),
    {
        match (*self, *other) {
            (Timelock::Absent, _) => true,
            (Timelock::Block(a), Timelock::Block(b)) => a <= b,
            (Timelock::Time(a), Timelock::Time(b)) => a <= b,
            _ => false,
        }
    }
}

/// An input of a transaction.
pub enum Input {
    /// The input of a miner transaction, generating new coins for the block of this number.
    Gen(usize),
    /// An input spending an output.
    ToKey {
        /// The pool this input spends an output of.
        amount: Option<u64>,
        /// The ring's members, as their offset distance from each other.
        key_offsets: Vec<u64>,
        /// The key image of the output spent.
        key_image: [u8; 32],
    },
}

/// An output of a transaction.
pub struct Output {
    /// The pool this output is sorted into, being its amount if it isn't hidden.
    pub amount: Option<u64>,
    /// The encoding of the key which spends this output, which may not be of a point.
    pub key: [u8; 32],
    /// The view tag of this output.
    pub view_tag: Option<u8>,
}

/// What is common to all versions of transactions.
pub struct TransactionPrefix {
    /// The timelock this transaction's outputs are additionally subject to.
    pub additional_timelock: Timelock,
    /// The inputs.
    pub inputs: Vec<Input>,
    /// The outputs.
    pub outputs: Vec<Output>,
    /// The additional data, in which wallets place what is needed to scan the transaction.
    pub extra: Vec<u8>,
}

/// An encrypted amount.
#[allow(inconsistent_fields)]
pub enum EncryptedAmount {
    /// The original format.
    Original {
        /// The encrypted mask.
        mask: [u8; 32],
        /// The encrypted amount, as a scalar.
        amount: [u8; 32],
    },
    /// The compact format.
    Compact {
        /// The encrypted amount, as a little-endian `u64`.
        amount: [u8; 8],
    },
}

/// The type of the RingCT data.
#[derive(Clone, Copy, PartialEq, Eq, Structural, Debug)]
pub enum RctType {
    /// One MLSAG for all inputs and Borromean range proofs.
    AggregateMlsagBorromean,
    /// One MLSAG for each input and Borromean range proofs.
    MlsagBorromean,
    /// One MLSAG for each input and a Bulletproof.
    MlsagBulletproofs,
    /// One MLSAG for each input and a Bulletproof, with compact encrypted amounts.
    MlsagBulletproofsCompactAmount,
    /// One CLSAG for each input and a Bulletproof.
    ClsagBulletproof,
    /// One CLSAG for each input and a Bulletproof+.
    ClsagBulletproofPlus,
}

/// The base of the RingCT data.
pub struct RctBase {
    /// The fee paid.
    pub fee: u64,
    /// The commitments of the inputs, solely present for the oldest types.
    pub pseudo_outs: Vec<[u8; 32]>,
    /// The amounts, encrypted to the recipients.
    pub encrypted_amounts: Vec<EncryptedAmount>,
    /// The commitments to the amounts.
    pub commitments: Vec<[u8; 32]>,
}

/// The RingCT data, without the proofs.
pub struct PrunedRctProofs {
    /// The type of the RingCT data.
    pub rct_type: RctType,
    /// The base of the RingCT data.
    pub base: RctBase,
}

/// A transaction, without its signatures and proofs.
pub enum Transaction {
    /// A transaction from before RingCT.
    V1 {
        /// The prefix.
        prefix: TransactionPrefix,
    },
    /// A RingCT transaction.
    V2 {
        /// The prefix.
        prefix: TransactionPrefix,
        /// The RingCT data, if any.
        proofs: Option<PrunedRctProofs>,
    },
}

/// A transaction, with its signatures and proofs as bytes.
pub struct FullTransaction {
    /// What isn't prunable.
    pub pruned: Transaction,
    /// The serialization of the signatures, or of the RingCT proofs.
    pub prunable: Vec<u8>,
}

/// The byte identifying a type of RingCT data.
pub open spec fn rct_type_byte(rct_type: RctType) -> u8 {
    match rct_type {
        RctType::AggregateMlsagBorromean => 1,
        RctType::MlsagBorromean => 2,
        RctType::MlsagBulletproofs => 3,
        RctType::MlsagBulletproofsCompactAmount => 4,
        RctType::ClsagBulletproof => 5,
        RctType::ClsagBulletproofPlus => 6,
    }
}

/// `Some`'s value, or zero.
pub open spec fn or_zero(amount: Option<u64>) -> nat {
    match amount {
        Some(amount) => amount as nat,
        None => 0,
    }
}

/// The serialization of a timelock.
pub open spec fn timelock_bytes(timelock: Timelock) -> Seq<u8> {
    match timelock {
        Timelock::Absent => varint(0),
        Timelock::Block(block) => varint(block as nat),
        Timelock::Time(time) => varint(time as nat),
    }
}

/// The serialization of a list of integers, without its length.
pub open spec fn varints_bytes(list: Seq<u64>) -> Seq<u8>
    decreases list.len(),
{
    if list.len() == 0 {
        Seq::empty()
    } else {
        varints_bytes(list.drop_last()) + varint(list.last() as nat)
    }
}

/// The serialization of a list of encoded points, without its length.
pub open spec fn points_bytes(list: Seq<[u8; 32]>) -> Seq<u8>
    decreases list.len(),
{
    if list.len() == 0 {
        Seq::empty()
    } else {
        points_bytes(list.drop_last()) + list.last()@
    }
}

/// The serialization of an input.
pub open spec fn input_bytes(input: Input) -> Seq<u8> {
    match input {
        Input::Gen(number) => seq![255u8] + varint(number as nat),
        Input::ToKey { amount, key_offsets, key_image } => seq![2u8] + varint(or_zero(amount))
            + varint(key_offsets@.len()) + varints_bytes(key_offsets@) + key_image@,
    }
}

/// The serialization of a list of inputs, without its length.
pub open spec fn inputs_bytes(list: Seq<Input>) -> Seq<u8>
    decreases list.len(),
{
    if list.len() == 0 {
        Seq::empty()
    } else {
        inputs_bytes(list.drop_last()) + input_bytes(list.last())
    }
}

/// The serialization of an output.
pub open spec fn output_bytes(output: Output) -> Seq<u8> {
    varint(or_zero(output.amount)) + match output.view_tag {
        Some(view_tag) => seq![3u8] + output.key@ + seq![view_tag],
        None => seq![2u8] + output.key@,
    }
}

/// The serialization of a list of outputs, without its length.
pub open spec fn outputs_bytes(list: Seq<Output>) -> Seq<u8>
    decreases list.len(),
{
    if list.len() == 0 {
        Seq::empty()
    } else {
        outputs_bytes(list.drop_last()) + output_bytes(list.last())
    }
}

/// The serialization of a prefix.
pub open spec fn prefix_bytes(prefix: TransactionPrefix) -> Seq<u8> {
    timelock_bytes(prefix.additional_timelock) + varint(prefix.inputs@.len()) + inputs_bytes(
        prefix.inputs@,
    ) + varint(prefix.outputs@.len()) + outputs_bytes(prefix.outputs@) + varint(prefix.extra@.len())
        + prefix.extra@
}

/// The serialization of an encrypted amount.
pub open spec fn encrypted_amount_bytes(amount: EncryptedAmount) -> Seq<u8> {
    match amount {
        EncryptedAmount::Original { mask, amount } => mask@ + amount@,
        EncryptedAmount::Compact { amount } => amount@,
    }
}

/// The serialization of a list of encrypted amounts, without its length.
pub open spec fn encrypted_amounts_bytes(list: Seq<EncryptedAmount>) -> Seq<u8>
    decreases list.len(),
{
    if list.len() == 0 {
        Seq::empty()
    } else {
        encrypted_amounts_bytes(list.drop_last()) + encrypted_amount_bytes(list.last())
    }
}

/// The serialization of the RingCT data, without the proofs.
pub open spec fn rct_base_bytes(proofs: PrunedRctProofs) -> Seq<u8> {
    let pseudo_outs = if proofs.rct_type == RctType::MlsagBorromean {
        points_bytes(proofs.base.pseudo_outs@)
    } else {
        Seq::empty()
    };
    seq![rct_type_byte(proofs.rct_type)] + varint(proofs.base.fee as nat) + pseudo_outs
        + encrypted_amounts_bytes(proofs.base.encrypted_amounts@) + points_bytes(
        proofs.base.commitments@,
    )
}

/// The hash of a transaction.
pub open spec fn transaction_hash(tx: FullTransaction) -> Seq<u8> {
    match tx.pruned {
        Transaction::V1 { prefix } => keccak256_digest(
            varint(1) + prefix_bytes(prefix) + tx.prunable@,
        ),
        Transaction::V2 { prefix, proofs } => {
            let prefix_hash = keccak256_digest(varint(2) + prefix_bytes(prefix));
            let (base_hash, prunable_hash) = match proofs {
                Some(proofs) => (
                    keccak256_digest(rct_base_bytes(proofs)),
                    keccak256_digest(tx.prunable@),
                ),
                None => (keccak256_digest(seq![0u8]), zeros(32)),
            };
            keccak256_digest(prefix_hash + base_hash + prunable_hash)
        },
    }
}

fn write_timelock(timelock: &Timelock, buf: &mut Vec<u8>)
    ensures
        final(buf)@ == old(buf)@ + timelock_bytes(*timelock),
{
    match *timelock {
        Timelock::Absent => write_varint(0, buf),
        Timelock::Block(block) => write_varint(block as u64, buf),
        Timelock::Time(time) => write_varint(time, buf),
    }
}

fn write_varints(list: &Vec<u64>, buf: &mut Vec<u8>)
    ensures
        final(buf)@ == old(buf)@ + varints_bytes(list@),
{
    let mut i: usize = 0;
    assert(buf@ =~= old(buf)@ + varints_bytes(list@.take(0)));
    while i < list.len()
        invariant
            i <= list@.len(),
            buf@ == old(buf)@ + varints_bytes(list@.take(i as int)),
        decreases list@.len() - i,
    {
        write_varint(list[i], buf);
        i += 1;
        assert(list@.take(i as int).drop_last() =~= list@.take(i - 1));
        assert(buf@ =~= old(buf)@ + varints_bytes(list@.take(i as int)));
    }
    assert(list@.take(i as int) =~= list@);
}

fn write_points(list: &Vec<[u8; 32]>, buf: &mut Vec<u8>)
    ensures
        final(buf)@ == old(buf)@ + points_bytes(list@),
{
    let mut i: usize = 0;
    assert(buf@ =~= old(buf)@ + points_bytes(list@.take(0)));
    while i < list.len()
        invariant
            i <= list@.len(),
            buf@ == old(buf)@ + points_bytes(list@.take(i as int)),
        decreases list@.len() - i,
    {
        push_bytes(buf, &list[i]);
        i += 1;
        assert(list@.take(i as int).drop_last() =~= list@.take(i - 1));
        assert(buf@ =~= old(buf)@ + points_bytes(list@.take(i as int)));
    }
    assert(list@.take(i as int) =~= list@);
}

fn write_amount(amount: &Option<u64>, buf: &mut Vec<u8>)
    ensures
        final(buf)@ == old(buf)@ + varint(or_zero(*amount)),
{
    match amount {
        Some(amount) => write_varint(*amount, buf),
        None => write_varint(0, buf),
    }
}

fn write_input(input: &Input, buf: &mut Vec<u8>)
    ensures
        final(buf)@ == old(buf)@ + input_bytes(*input),
{
    match input {
        Input::Gen(number) => {
            buf.push(255);
            write_varint(*number as u64, buf);
        },
        Input::ToKey { amount, key_offsets, key_image } => {
            buf.push(2);
            write_amount(amount, buf);
            write_varint(key_offsets.len() as u64, buf);
            write_varints(key_offsets, buf);
            push_bytes(buf, key_image);
        },
    }
    assert(buf@ =~= old(buf)@ + input_bytes(*input));
}

fn write_inputs(list: &Vec<Input>, buf: &mut Vec<u8>)
    ensures
        final(buf)@ == old(buf)@ + inputs_bytes(list@),
{
    let mut i: usize = 0;
    assert(buf@ =~= old(buf)@ + inputs_bytes(list@.take(0)));
    while i < list.len()
        invariant
            i <= list@.len(),
            buf@ == old(buf)@ + inputs_bytes(list@.take(i as int)),
        decreases list@.len() - i,
    {
        write_input(&list[i], buf);
        i += 1;
        assert(list@.take(i as int).drop_last() =~= list@.take(i - 1));
        assert(buf@ =~= old(buf)@ + inputs_bytes(list@.take(i as int)));
    }
    assert(list@.take(i as int) =~= list@);
}

fn write_output(output: &Output, buf: &mut Vec<u8>)
    ensures
        final(buf)@ == old(buf)@ + output_bytes(*output),
{
    write_amount(&output.amount, buf);
    match output.view_tag {
        Some(view_tag) => {
            buf.push(3);
            push_bytes(buf, &output.key);
            buf.push(view_tag);
        },
        None => {
            buf.push(2);
            push_bytes(buf, &output.key);
        },
    }
    assert(buf@ =~= old(buf)@ + output_bytes(*output));
}

fn write_outputs(list: &Vec<Output>, buf: &mut Vec<u8>)
    ensures
        final(buf)@ == old(buf)@ + outputs_bytes(list@),
{
    let mut i: usize = 0;
    assert(buf@ =~= old(buf)@ + outputs_bytes(list@.take(0)));
    while i < list.len()
        invariant
            i <= list@.len(),
            buf@ == old(buf)@ + outputs_bytes(list@.take(i as int)),
        decreases list@.len() - i,
    {
        write_output(&list[i], buf);
        i += 1;
        assert(list@.take(i as int).drop_last() =~= list@.take(i - 1));
        assert(buf@ =~= old(buf)@ + outputs_bytes(list@.take(i as int)));
    }
    assert(list@.take(i as int) =~= list@);
}

fn write_prefix(prefix: &TransactionPrefix, buf: &mut Vec<u8>)
    ensures
        final(buf)@ == old(buf)@ + prefix_bytes(*prefix),
{
    write_timelock(&prefix.additional_timelock, buf);
    write_varint(prefix.inputs.len() as u64, buf);
    write_inputs(&prefix.inputs, buf);
    write_varint(prefix.outputs.len() as u64, buf);
    write_outputs(&prefix.outputs, buf);
    write_varint(prefix.extra.len() as u64, buf);
    push_bytes(buf, prefix.extra.as_slice());
    assert(buf@ =~= old(buf)@ + prefix_bytes(*prefix));
}

fn write_encrypted_amounts(list: &Vec<EncryptedAmount>, buf: &mut Vec<u8>)
    ensures
        final(buf)@ == old(buf)@ + encrypted_amounts_bytes(list@),
{
    let mut i: usize = 0;
    assert(buf@ =~= old(buf)@ + encrypted_amounts_bytes(list@.take(0)));
    while i < list.len()
        invariant
            i <= list@.len(),
            buf@ == old(buf)@ + encrypted_amounts_bytes(list@.take(i as int)),
        decreases list@.len() - i,
    {
        match &list[i] {
            EncryptedAmount::Original { mask, amount } => {
                push_bytes(buf, mask);
                push_bytes(buf, amount);
            },
            EncryptedAmount::Compact { amount } => push_bytes(buf, amount),
        }
        i += 1;
        assert(list@.take(i as int).drop_last() =~= list@.take(i - 1));
        assert(buf@ =~= old(buf)@ + encrypted_amounts_bytes(list@.take(i as int)));
    }
    assert(list@.take(i as int) =~= list@);
}

fn write_rct_base(proofs: &PrunedRctProofs, buf: &mut Vec<u8>)
    ensures
        final(buf)@ == old(buf)@ + rct_base_bytes(*proofs),
{
    buf.push(proofs.rct_type.byte());
    write_varint(proofs.base.fee, buf);
    if proofs.rct_type == RctType::MlsagBorromean {
        write_points(&proofs.base.pseudo_outs, buf);
    }
    write_encrypted_amounts(&proofs.base.encrypted_amounts, buf);
    write_points(&proofs.base.commitments, buf);
    assert(buf@ =~= old(buf)@ + rct_base_bytes(*proofs));
}

impl RctType {
    /// The byte identifying this type.
    pub fn byte(&self) -> (res: u8)
        ensures
            res == rct_type_byte(*self),
    {
        match *self {
            RctType::AggregateMlsagBorromean => 1,
            RctType::MlsagBorromean => 2,
            RctType::MlsagBulletproofs => 3,
            RctType::MlsagBulletproofsCompactAmount => 4,
            RctType::ClsagBulletproof => 5,
            RctType::ClsagBulletproofPlus => 6,
        }
    }
}

impl Transaction {
    /// The version of this transaction.
    pub open spec fn spec_version(&self) -> u8 {
        match *self {
            Transaction::V1 { .. } => 1,
            Transaction::V2 { .. } => 2,
        }
    }

    /// The prefix of this transaction.
    pub open spec fn spec_prefix(&self) -> TransactionPrefix {
        match *self {
            Transaction::V1 { prefix } => prefix,
            Transaction::V2 { prefix, .. } => prefix,
        }
    }

    /// The RingCT data of this transaction, if any.
    pub open spec fn spec_proofs(&self) -> Option<PrunedRctProofs> {
        match *self {
            Transaction::V1 { .. } => None,
            Transaction::V2 { proofs, .. } => proofs,
        }
    }

    /// The version of this transaction.
    pub fn version(&self) -> (res: u8)
        ensures
            res == self.spec_version(),
    {
        match self {
            Transaction::V1 { .. } => 1,
            Transaction::V2 { .. } => 2,
        }
    }

    /// The prefix of this transaction.
    pub fn prefix(&self) -> (res: &TransactionPrefix)
        ensures
            *res == self.spec_prefix(),
    {
        match self {
            Transaction::V1 { prefix } => prefix,
            Transaction::V2 { prefix, .. } => prefix,
        }
    }

    /// The RingCT data of this transaction, if any.
    pub fn proofs(&self) -> (res: Option<&PrunedRctProofs>)
        ensures
            match res {
                Some(proofs) => self.spec_proofs() == Some(*proofs),
                None => self.spec_proofs() is None,
            },
    {
        match self {
            Transaction::V1 { .. } => None,
            Transaction::V2 { proofs, .. } => match proofs {
                Some(proofs) => Some(proofs),
                None => None,
            },
        }
    }
}

impl FullTransaction {
    /// The hash of this transaction.
    pub fn hash(&self) -> (res: [u8; 32])
        ensures
            res@ == transaction_hash(*self),
    {
        let mut buf: Vec<u8> = Vec::new();
        write_varint(self.pruned.version() as u64, &mut buf);
        write_prefix(self.pruned.prefix(), &mut buf);
        match &self.pruned {
            Transaction::V1 { prefix } => {
                push_bytes(&mut buf, self.prunable.as_slice());
                assert(buf@ =~= varint(1) + prefix_bytes(*prefix) + self.prunable@);
                keccak256(buf.as_slice())
            },
            Transaction::V2 { prefix, proofs } => {
                assert(buf@ =~= varint(2) + prefix_bytes(*prefix));
                let mut hashes: Vec<u8> = Vec::new();
                push_bytes(&mut hashes, &keccak256(buf.as_slice()));
                match proofs {
                    Some(proofs) => {
                        let mut base: Vec<u8> = Vec::new();
                        write_rct_base(proofs, &mut base);
                        assert(base@ =~= rct_base_bytes(*proofs));
                        push_bytes(&mut hashes, &keccak256(base.as_slice()));
                        push_bytes(&mut hashes, &keccak256(self.prunable.as_slice()));
                    },
                    None => {
                        let null: [u8; 1] = [0];
                        assert(null@ =~= seq![0u8]);
                        push_bytes(&mut hashes, &keccak256(&null));
                        let zero: [u8; 32] = [0;32];
                        assert(zero@ =~= zeros(32));
                        push_bytes(&mut hashes, &zero);
                    },
                }
                let ghost parts = transaction_hash(*self);
                assert(keccak256_digest(hashes@) == parts) by {
                    let prefix_hash = keccak256_digest(varint(2) + prefix_bytes(*prefix));
                    match *proofs {
                        Some(proofs) => {
                            assert(hashes@ =~= prefix_hash + keccak256_digest(
                                rct_base_bytes(proofs),
                            ) + keccak256_digest(self.prunable@));
                        },
                        None => {
                            assert(hashes@ =~= prefix_hash + keccak256_digest(seq![0u8]) + zeros(
                                32,
                            ));
                        },
                    }
                }
                keccak256(hashes.as_slice())
            },
        }
    }
}

} // verus!
