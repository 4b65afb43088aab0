//! What holds of the models: each says what it's a model of.

use vstd::prelude::*;

use crate::bytes::{le_nat, varint};
use crate::derivations::{input_identities, payment_id_pad, shared_key_of, unique_bytes};
use crate::derivations::{uniqueness_of, view_tag_of};
use crate::ed25519::{base_product, committed, group_order, point_product, point_sum, scalar_hash};
use crate::ed25519::{H, IDENTITY};
use crate::error::{ScanError, ScanFault};
use crate::extra::{PaymentId, PaymentIdBytes};
use crate::hash::keccak256_digest;
use crate::output::{outputs_view, payment_id_bytes, ReceivedOutput, WalletOutput};
use crate::payments::{ascii, lemma_ascii};
use crate::receiving::Wallet;
use crate::scan::found;
use crate::timelocked::Timelocked;
use crate::transaction::{timelock_at_most, Input, Timelock};

verus! {

/// What is derived from a shared secret are hashes of it, each with its own domain.
pub proof fn derivations_are_hashes(
    ecdh: Seq<u8>,
    o: nat,
    uniqueness: Seq<u8>,
    inputs: Seq<Input>,
)
    ensures
        view_tag_of(ecdh, o) == keccak256_digest(
            ascii("view_tag"@) + (point_product(8, ecdh) + varint(o)),
        )[0],
        shared_key_of(None, ecdh, o) == le_nat(
            keccak256_digest(point_product(8, ecdh) + varint(o)),
        ) % group_order(),
        shared_key_of(Some(uniqueness), ecdh, o) == le_nat(
            keccak256_digest(uniqueness + (point_product(8, ecdh) + varint(o))),
        ) % group_order(),
        payment_id_pad(ecdh) == keccak256_digest(point_product(8, ecdh).push(0x8d)).subrange(0, 8),
        uniqueness_of(inputs) == keccak256_digest(
            ascii("uniqueness"@) + input_identities(inputs),
        ),
{
    lemma_ascii();
    assert(point_product(8, ecdh).push(0x8d) =~= point_product(8, ecdh) + seq![0x8du8]);
}

/// A commitment is to its amount with the generator for amounts, hidden by its mask with the
/// basepoint, and a scalar is hashed to by reducing the digest.
pub proof fn commitments_are_to_amounts(mask: nat, amount: nat, data: Seq<u8>)
    ensures
        committed(mask, amount) == point_sum(base_product(mask), point_product(amount, H@)),
        scalar_hash(data) == le_nat(keccak256_digest(data)) % group_order(),
{
}

/// The generator for amounts is Monero's, and the identity is of a Y coordinate of one.
pub proof fn points_are_these()
    ensures
        le_nat(H@) == 0x941f9cd30d3a172ca9cf5441d551726cead0adf19fdcea2aaf9937157059658bnat,
        le_nat(IDENTITY@) == 1,
{
    reveal_with_fuel(le_nat, 33);
    assert(le_nat(IDENTITY@) == 1);
}

/// Solely timelocks of the same kind are compared, by their block or time, and the absent one is at
/// most any.
pub proof fn timelocks_are_compared_by_their_kind(a: Timelock, b: Timelock)
    ensures
        timelock_at_most(a, b) <==> {
            ||| a is Absent
            ||| a is Block && b is Block && a->Block_0 <= b->Block_0
            ||| a is Time && b is Time && a->Time_0 <= b->Time_0
        },
{
}

/// What is known of an output is each part of it.
pub proof fn outputs_are_known_by_their_parts(
    output: WalletOutput,
    outputs: Seq<WalletOutput>,
    i: int,
    j: int,
)
    requires
        0 <= i < outputs.len(),
        0 <= j < output.metadata.arbitrary_data@.len(),
    ensures
        output@.transaction == output.absolute_id.transaction@,
        output@.index_in_transaction == output.absolute_id.index_in_transaction,
        output@.index_on_blockchain == output.relative_id.index_on_blockchain,
        output@.key == output.data.key@,
        output@.key_offset == output.data.key_offset@,
        output@.mask == output.data.commitment.mask@,
        output@.amount == output.data.commitment.amount,
        output@.additional_timelock == output.metadata.additional_timelock,
        output@.subaddress == output.metadata.subaddress,
        output@.payment_id is Some <==> output.metadata.payment_id is Some,
        output@.payment_id is Some ==> output@.payment_id->0 == output.metadata.payment_id->0@,
        output@.arbitrary_data.len() == output.metadata.arbitrary_data@.len(),
        output@.arbitrary_data[j] == output.metadata.arbitrary_data@[j]@,
        outputs_view(outputs).len() == outputs.len(),
        outputs_view(outputs)[i] == outputs[i]@,
{
}

/// A payment ID is its bytes, and the form it's of.
pub proof fn payment_ids_are_their_bytes(
    unencrypted: [u8; 32],
    encrypted: [u8; 8],
    uniqueness: [u8; 32],
)
    ensures
        PaymentId::Unencrypted(unencrypted)@ == PaymentIdBytes::Unencrypted(unencrypted@),
        PaymentId::Encrypted(encrypted)@ == PaymentIdBytes::Encrypted(encrypted@),
        payment_id_bytes(None) is None,
        payment_id_bytes(Some(PaymentId::Encrypted(encrypted))) == Some(
            PaymentIdBytes::Encrypted(encrypted@),
        ),
        unique_bytes(None) is None,
        unique_bytes(Some(uniqueness)) == Some(uniqueness@),
{
}

/// An error is the fault it's of, with the reason for it, and what a scan found is what was expected.
pub proof fn errors_are_their_faults(
    version: u8,
    reason: &'static str,
    res: Result<Timelocked, ScanError>,
    expected: Result<Seq<ReceivedOutput>, ScanFault>,
)
    ensures
        ScanError::UnsupportedProtocol(version)@ == ScanFault::UnsupportedProtocol(version),
        ScanError::InvalidScannableBlock(reason)@ == ScanFault::InvalidScannableBlock(reason@),
        found(res, expected) <==> match expected {
            Ok(outputs) => res is Ok && res->Ok_0@ == outputs,
            Err(fault) => res is Err && res->Err_0@ == fault,
        },
{
}

/// What is left of a scanner, or of an output, which was overwritten says nothing of it.
pub proof fn nothing_is_left_once_zeroized()
    ensures
        Wallet::zeroized().spend == IDENTITY@,
        Wallet::zeroized().view == 0,
        !Wallet::zeroized().guaranteed,
        Wallet::zeroized().subaddresses.dom() =~= Set::<Seq<u8>>::empty(),
        ReceivedOutput::zeroized().transaction == Seq::new(32, |i: int| 0u8),
        ReceivedOutput::zeroized().index_in_transaction == 0,
        ReceivedOutput::zeroized().index_on_blockchain == 0,
        ReceivedOutput::zeroized().key == IDENTITY@,
        ReceivedOutput::zeroized().key_offset == 0,
        ReceivedOutput::zeroized().mask == 0,
        ReceivedOutput::zeroized().amount == 0,
        ReceivedOutput::zeroized().additional_timelock is Absent,
        ReceivedOutput::zeroized().subaddress is None,
        ReceivedOutput::zeroized().payment_id is None,
        ReceivedOutput::zeroized().arbitrary_data.len() == 0,
{
}

} // verus!
