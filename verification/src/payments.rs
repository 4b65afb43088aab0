//! What holds of payments: which outputs are received is said by what their sender made.
//!
//! What is said here is said over what is hashed, multiplied and added, rather than over what
//! scanning derives.

use vstd::arithmetic::div_mod::lemma_mod_breakdown;
use vstd::prelude::*;

use crate::address::SubaddressIndex;
use crate::bytes::{byte_range, le_bytes, le_nat, varint, xor};
use crate::derivations::{decrypted_amount, input_identities, lemma_le_bytes_prefix, scalar_less};
use crate::derivations::{xor_undoes_xor, AMOUNT_DOMAIN, COMMITMENT_MASK_DOMAIN};
use crate::derivations::{UNIQUENESS_DOMAIN, VIEW_TAG_DOMAIN};
use crate::ed25519::{base_product, group_order, point_difference, point_product, point_sum};
use crate::ed25519::{reencoded, H, IDENTITY};
use crate::error::ScanFault;
use crate::extra::{additional_keys, arbitrary_data_of, payment_id_of, public_keys, read_fields};
use crate::extra::{relayed, FieldContents, PaymentIdBytes};
use crate::hash::keccak256_digest;
use crate::laws::{lemma_first_outputs, lemma_with_keys, outputs_found_are_received};
use crate::output::ReceivedOutput;
use crate::receiving::{keys_for, settlement, tag_matches, Settlement, TransactionScan};
use crate::transaction::{EncryptedAmount, Input, Output, PrunedRctProofs, Transaction};
use crate::transaction::TransactionPrefix;
use crate::view_pair::{subaddress_offset, subaddress_spend_key, SUBADDRESS_DOMAIN};

verus! {

/// The bytes of ASCII characters.
pub open spec fn ascii(s: Seq<char>) -> Seq<u8> {
    s.map_values(|c: char| c as u8)
}

/// The inputs, outputs, timelock and additional data of a transaction of either version.
pub open spec fn prefix_of(tx: Transaction) -> TransactionPrefix {
    match tx {
        Transaction::V1 { prefix } => prefix,
        Transaction::V2 { prefix, proofs: _ } => prefix,
    }
}

/// The RingCT data of a transaction, if it has any.
pub open spec fn proofs_of(tx: Transaction) -> Option<PrunedRctProofs> {
    match tx {
        Transaction::V1 { prefix: _ } => None,
        Transaction::V2 { prefix: _, proofs } => proofs,
    }
}

/// What the sender and recipient of the output at an index both hash.
pub open spec fn agreed(view: nat, key: Seq<u8>, o: int) -> Seq<u8> {
    point_product(8, point_product(view, key)) + varint(o as nat)
}

/// The scalar the sender of the output at an index offsets the recipient's spend key by.
pub open spec fn agreed_scalar(
    guaranteed: bool,
    inputs: Seq<Input>,
    view: nat,
    key: Seq<u8>,
    o: int,
) -> nat {
    let bound = if guaranteed {
        keccak256_digest(ascii("uniqueness"@) + input_identities(inputs))
    } else {
        Seq::empty()
    };
    le_nat(keccak256_digest(bound + agreed(view, key, o))) % group_order()
}

/// The scalar the sender of an output of this transaction would offset the spend key by.
pub open spec fn sender_scalar(scan: TransactionScan, o: int, key: Seq<u8>) -> nat {
    agreed_scalar(
        scan.wallet.guaranteed,
        prefix_of(scan.tx).inputs@,
        scan.wallet.view,
        key,
        o,
    )
}

/// If an output doesn't have a view tag, or has the one its sender would've given it.
pub open spec fn is_tagged(output: Output, view: nat, key: Seq<u8>, o: int) -> bool {
    output.view_tag is Some ==> output.view_tag->0 == keccak256_digest(
        ascii("view_tag"@) + agreed(view, key, o),
    )[0]
}

/// If `key` is a key of the transaction, or is the one the first list of keys has for this output.
pub open spec fn is_key_for(fields: Seq<FieldContents>, o: int, key: Seq<u8>) -> bool {
    ||| exists|f: int| 0 <= f < fields.len() && #[trigger] fields[f] == FieldContents::PublicKey(key)
    ||| exists|f: int| #[trigger] is_first_list(fields, f) && 0 <= o < fields[f]->PublicKeys_0.len()
        && fields[f]->PublicKeys_0[o] == key
}

/// If the field at this index is the first which is a list of keys.
pub open spec fn is_first_list(fields: Seq<FieldContents>, f: int) -> bool {
    &&& 0 <= f < fields.len()
    &&& fields[f] is PublicKeys
    &&& forall|g: int| 0 <= g < f ==> !((#[trigger] fields[g]) is PublicKeys)
}

/// The identities of inputs are those of each, in order: that of the block a miner's input is of, or
/// the key image.
pub proof fn every_input_is_identified(a: Seq<Input>, b: Seq<Input>, input: Input)
    ensures
        input_identities(Seq::empty()) == Seq::<u8>::empty(),
        input_identities(seq![input]) == match input {
            Input::Gen(number) => varint(number as nat),
            Input::ToKey { amount: _, key_offsets: _, key_image } => key_image@,
        },
        input_identities(a + b) == input_identities(a) + input_identities(b),
    decreases b.len(),
{
    reveal_with_fuel(input_identities, 2);
    assert(seq![input].drop_last() =~= Seq::<Input>::empty());
    assert(seq![input].last() == input);
    assert(input_identities(seq![input]) =~= match input {
        Input::Gen(number) => varint(number as nat),
        Input::ToKey { amount: _, key_offsets: _, key_image } => key_image@,
    });
    if b.len() == 0 {
        assert(a + b =~= a);
        assert(input_identities(a) + input_identities(b) =~= input_identities(a));
    } else {
        every_input_is_identified(a, b.drop_last(), input);
        assert((a + b).drop_last() =~= a + b.drop_last());
        assert((a + b).last() == b.last());
        assert(input_identities(a + b) =~= input_identities(a) + input_identities(b));
    }
}

/// What each hash is separated from others by.
pub proof fn lemma_ascii()
    ensures
        ascii("uniqueness"@) == UNIQUENESS_DOMAIN@,
        ascii("view_tag"@) == VIEW_TAG_DOMAIN@,
        ascii("commitment_mask"@) == COMMITMENT_MASK_DOMAIN@,
        ascii("amount"@) == AMOUNT_DOMAIN@,
        ascii("SubAddr"@).push(0) == SUBADDRESS_DOMAIN@,
{
    reveal_strlit("uniqueness");
    reveal_strlit("view_tag");
    reveal_strlit("commitment_mask");
    reveal_strlit("amount");
    reveal_strlit("SubAddr");
    assert(ascii("uniqueness"@) =~= UNIQUENESS_DOMAIN@);
    assert(ascii("view_tag"@) =~= VIEW_TAG_DOMAIN@);
    assert(ascii("commitment_mask"@) =~= COMMITMENT_MASK_DOMAIN@);
    assert(ascii("amount"@) =~= AMOUNT_DOMAIN@);
    assert(ascii("SubAddr"@).push(0) =~= SUBADDRESS_DOMAIN@);
}

/// The offset of a subaddress is what its indexes, along with the private view key, hash to.
pub proof fn subaddresses_are_derived_from_their_indexes(
    spend: Seq<u8>,
    view: nat,
    index: SubaddressIndex,
)
    ensures
        subaddress_offset(view, index) == le_nat(
            keccak256_digest(
                ascii("SubAddr"@).push(0) + le_bytes(view, 32) + le_bytes(index@.0 as nat, 4)
                    + le_bytes(index@.1 as nat, 4),
            ),
        ) % group_order(),
        subaddress_spend_key(spend, view, index) == point_sum(
            spend,
            base_product(subaddress_offset(view, index)),
        ),
{
    lemma_ascii();
}

/// The sender and the recipient of an output agree on what is derived for it: the output is found to
/// be the wallet's if it's tagged accordingly, and a spend key looked for is left once what the
/// sender offset it by is subtracted.
pub proof fn senders_and_recipients_agree(scan: TransactionScan, o: int, key: Seq<u8>)
    requires
        0 <= o,
    ensures
        scan.shared_key(o, key) == sender_scalar(scan, o, key),
        scan.spend_key(o, key) == spend_key_paid(scan, o, key),
        scan.is_ours(o, key) <==> is_paid(scan, o, key),
{
    lemma_ascii();
    let secret = agreed(scan.wallet.view, key, o);
    assert(Seq::<u8>::empty() + secret =~= secret);
    assert(scan.tx.spec_prefix() == prefix_of(scan.tx));
}

/// A view tag matches exactly if it's the one the sender would've made.
pub proof fn lemma_tagged(scan: TransactionScan, o: int, key: Seq<u8>)
    requires
        0 <= o,
    ensures
        tag_matches(scan.output(o).view_tag, scan.view_tag(o, key)) <==> is_tagged(
            prefix_of(scan.tx).outputs@[o],
            scan.wallet.view,
            key,
            o,
        ),
{
    lemma_ascii();
    assert(scan.tx.spec_prefix() == prefix_of(scan.tx));
}

/// The spend key an output was sent to, had it been made with this key.
pub open spec fn spend_key_paid(scan: TransactionScan, o: int, key: Seq<u8>) -> Seq<u8> {
    point_difference(
        prefix_of(scan.tx).outputs@[o].key@,
        base_product(sender_scalar(scan, o, key)),
    )
}

/// If an output was sent to a spend key looked for with this key.
pub open spec fn is_paid(scan: TransactionScan, o: int, key: Seq<u8>) -> bool {
    &&& is_tagged(prefix_of(scan.tx).outputs@[o], scan.wallet.view, key, o)
    &&& scan.wallet.subaddresses.contains_key(spend_key_paid(scan, o, key))
}

/// If an encrypted amount is this mask and amount, encrypted with this scalar.
pub open spec fn is_encryption(
    encrypted: EncryptedAmount,
    scalar: nat,
    mask: nat,
    amount: nat,
) -> bool {
    match encrypted {
        EncryptedAmount::Compact { amount: bytes } => {
            &&& mask == le_nat(
                keccak256_digest(ascii("commitment_mask"@) + le_bytes(scalar, 32)),
            ) % group_order()
            &&& amount == le_nat(
                xor(
                    bytes@,
                    keccak256_digest(ascii("amount"@) + le_bytes(scalar, 32)).subrange(0, 8),
                ),
            )
        },
        EncryptedAmount::Original { mask: mask_bytes, amount: amount_bytes } => {
            let mask_pad = le_nat(keccak256_digest(le_bytes(scalar, 32))) % group_order();
            let amount_pad = le_nat(keccak256_digest(le_bytes(mask_pad, 32))) % group_order();
            &&& mask < group_order()
            &&& (mask + mask_pad) % group_order() == le_nat(mask_bytes@) % group_order()
            &&& exists|whole: nat|
                whole < group_order() && #[trigger] ((whole + amount_pad) % group_order())
                    == le_nat(amount_bytes@) % group_order() && amount == whole
                    % 0x1_0000_0000_0000_0000
        },
    }
}

proof fn lemma_unpad(n: nat, pad: nat)
    requires
        pad < group_order(),
    ensures
        scalar_less(n, pad) < group_order(),
        (scalar_less(n, pad) + pad) % group_order() == n % group_order(),
{
    let order = group_order();
    let m = n % order;
    assert(m < order);
    let less = scalar_less(n, pad);
    if m >= pad {
        assert((m - pad) % (order as int) == m - pad);
        assert(less + pad == m);
        assert(m % order == m);
    } else {
        assert((m - pad) % (order as int) == m - pad + order);
        assert(less + pad == m + order);
        assert((m + order) % order == m);
    }
}

proof fn lemma_le_nat_of_low(n: nat, len: nat)
    ensures
        le_nat(le_bytes(n, len)) == n % byte_range(len),
        byte_range(len) > 0,
    decreases len,
{
    if len > 0 {
        let rest = le_bytes(n / 256, (len - 1) as nat);
        lemma_le_nat_of_low(n / 256, (len - 1) as nat);
        assert(le_bytes(n, len).skip(1) =~= rest);
        let range = byte_range((len - 1) as nat);
        lemma_mod_breakdown(n as int, 256, range as int);
    }
}

/// An encrypted amount is the encryption of what it decrypts to, and of nothing else.
pub proof fn amounts_are_what_was_encrypted(
    scalar: nat,
    encrypted: EncryptedAmount,
    mask: nat,
    amount: nat,
)
    ensures
        is_encryption(encrypted, scalar, mask, amount) <==> decrypted_amount(scalar, encrypted) == (
            mask,
            amount,
        ),
{
    lemma_ascii();
    if let EncryptedAmount::Original { mask: mask_bytes, amount: amount_bytes } = encrypted {
        let order = group_order();
        let mask_pad = le_nat(keccak256_digest(le_bytes(scalar, 32))) % order;
        let amount_pad = le_nat(keccak256_digest(le_bytes(mask_pad, 32))) % order;
        let (m, a) = decrypted_amount(scalar, encrypted);
        let whole = scalar_less(le_nat(amount_bytes@), amount_pad);
        lemma_unpad(le_nat(mask_bytes@), mask_pad);
        lemma_unpad(le_nat(amount_bytes@), amount_pad);
        lemma_le_bytes_prefix(whole, 8, 32);
        lemma_le_nat_of_low(whole, 8);
        reveal_with_fuel(byte_range, 9);
        assert(byte_range(8) == 0x1_0000_0000_0000_0000);
        assert(a == whole % 0x1_0000_0000_0000_0000);
        assert(((whole + amount_pad) % order) == le_nat(amount_bytes@) % order);
        assert(is_encryption(encrypted, scalar, m, a));
        if is_encryption(encrypted, scalar, mask, amount) {
            lemma_unpad_unique(mask, m, mask_pad);
            let other = choose|other: nat|
                other < order && #[trigger] ((other + amount_pad) % order) == le_nat(amount_bytes@)
                    % order && amount == other % 0x1_0000_0000_0000_0000;
            lemma_unpad_unique(other, whole, amount_pad);
        }
    }
}

proof fn lemma_unpad_unique(a: nat, b: nat, pad: nat)
    requires
        a < group_order(),
        b < group_order(),
        pad < group_order(),
        (a + pad) % group_order() == (b + pad) % group_order(),
    ensures
        a == b,
{
    let order = group_order();
    if a + pad < order {
        assert((a + pad) % order == a + pad);
    } else {
        assert((a + pad) % order == a + pad - order);
    }
    if b + pad < order {
        assert((b + pad) % order == b + pad);
    } else {
        assert((b + pad) % order == b + pad - order);
    }
}

/// If the opening of an output's commitment is found to be this one: that of the amount declared,
/// or the encrypted one if the commitment is to it. The type of the RingCT data doesn't matter.
pub open spec fn is_opening(
    declared: Option<u64>,
    proofs: Option<PrunedRctProofs>,
    o: int,
    scalar: nat,
    mask: nat,
    amount: nat,
) -> bool {
    match declared {
        Some(declared) => mask == 1 && amount == declared,
        None => {
            &&& proofs is Some
            &&& 0 <= o < proofs->0.base.encrypted_amounts@.len()
            &&& is_encryption(proofs->0.base.encrypted_amounts@[o], scalar, mask, amount)
            &&& o < proofs->0.base.commitments@.len()
            &&& proofs->0.base.commitments@[o]@ == point_sum(
                base_product(mask),
                point_product(amount, H@),
            )
        },
    }
}

/// The amount of an output is settled exactly if it's declared, or if it's encrypted and committed to,
/// whichever type the RingCT data is of. It's a fault for the data, or the encryption, to be missing.
pub proof fn amounts_are_settled_by_their_commitments(
    declared: Option<u64>,
    proofs: Option<PrunedRctProofs>,
    o: int,
    scalar: nat,
    mask: nat,
    amount: nat,
)
    requires
        0 <= o,
    ensures
        settlement(declared, proofs, o, scalar) == (Settlement::Settled { mask, amount })
            <==> is_opening(declared, proofs, o, scalar, mask, amount),
        settlement(declared, proofs, o, scalar) is NoProofs <==> declared is None && proofs is None,
        settlement(declared, proofs, o, scalar) is NoEncryptedAmount <==> declared is None
            && proofs is Some && o >= proofs->0.base.encrypted_amounts@.len(),
{
    if declared is None && proofs is Some && o < proofs->0.base.encrypted_amounts@.len() {
        amounts_are_what_was_encrypted(
            scalar,
            proofs->0.base.encrypted_amounts@[o],
            mask,
            amount,
        );
    }
}

/// If an output's key may be spent: it's a point, encoded canonically, other than the identity.
pub open spec fn is_spendable_key(key: Seq<u8>) -> bool {
    key != IDENTITY@ && reencoded(key) == Some(key)
}

/// If the outcome of scanning an output with a key is what is known of the output, so received.
pub open spec fn is_receipt(
    scan: TransactionScan,
    o: int,
    key: Seq<u8>,
    received: ReceivedOutput,
) -> bool {
    let prefix = prefix_of(scan.tx);
    let scalar = sender_scalar(scan, o, key);
    let subaddress = scan.wallet.subaddresses[spend_key_paid(scan, o, key)];
    &&& is_opening(
        prefix.outputs@[o].amount,
        proofs_of(scan.tx),
        o,
        scalar,
        received.mask,
        received.amount,
    )
    &&& received.transaction == scan.hash
    &&& received.index_in_transaction == o
    &&& received.index_on_blockchain == scan.first + o
    &&& received.index_on_blockchain <= u64::MAX
    &&& received.key == prefix.outputs@[o].key@
    &&& received.key_offset == (if subaddress is Some {
        (scalar + subaddress_offset(scan.wallet.view, subaddress->0)) % group_order()
    } else {
        scalar
    })
    &&& received.subaddress == subaddress
    &&& received.additional_timelock == prefix.additional_timelock
    &&& is_payment_id(scan.extra, scan.wallet.view, key, received.payment_id)
    &&& received.arbitrary_data == arbitrary_data_of(read_fields(relayed(scan.extra)))
}

/// If this is the payment ID the additional data holds, once decrypted as with this key.
pub open spec fn is_payment_id(
    extra: Seq<u8>,
    view: nat,
    key: Seq<u8>,
    id: Option<PaymentIdBytes>,
) -> bool {
    let pad = keccak256_digest(
        point_product(8, point_product(view, key)).push(0x8d),
    ).subrange(0, 8);
    match payment_id_of(read_fields(extra)) {
        None => id is None,
        Some(PaymentIdBytes::Unencrypted(bytes)) => id == Some(PaymentIdBytes::Unencrypted(bytes)),
        Some(PaymentIdBytes::Encrypted(bytes)) => id == Some(
            PaymentIdBytes::Encrypted(xor(bytes, pad)),
        ),
    }
}

proof fn lemma_with_key_receipt(
    scan: TransactionScan,
    o: int,
    key: Seq<u8>,
    received: ReceivedOutput,
)
    requires
        0 <= o,
    ensures
        scan.with_key(o, key) == Ok::<_, ScanFault>(Some(received)) <==> is_paid(scan, o, key)
            && is_receipt(scan, o, key, received),
{
    senders_and_recipients_agree(scan, o, key);
    assert(scan.tx.spec_prefix() == prefix_of(scan.tx));
    assert(scan.tx.spec_proofs() == proofs_of(scan.tx));
    let declared = scan.output(o).amount;
    let scalar = sender_scalar(scan, o, key);
    let ecdh = point_product(scan.wallet.view, key);
    assert(point_product(8, ecdh).push(0x8d) =~= point_product(8, ecdh) + seq![0x8du8]);
    amounts_are_settled_by_their_commitments(
        declared,
        proofs_of(scan.tx),
        o,
        scalar,
        received.mask,
        received.amount,
    );
    if let Settlement::Settled { mask, amount } = scan.settlement(o, key) {
        amounts_are_settled_by_their_commitments(
            declared,
            proofs_of(scan.tx),
            o,
            scalar,
            mask,
            amount,
        );
        if is_receipt(scan, o, key, received) {
            assert(received == scan.received_output(o, key, mask, amount));
        }
    }
}

/// Scanning an output with a key yields exactly the receipt of an output paid with that key, or the
/// fault which keeps its amount, or its index, from being known. An output which isn't paid with the
/// key, or whose amount isn't the one committed to, is passed by.
pub proof fn keys_yield_receipts_or_faults(
    scan: TransactionScan,
    o: int,
    key: Seq<u8>,
    received: ReceivedOutput,
    fault: ScanFault,
)
    requires
        0 <= o,
    ensures
        scan.with_key(o, key) == Ok::<_, ScanFault>(Some(received)) <==> is_paid(scan, o, key)
            && is_receipt(scan, o, key, received),
        scan.with_key(o, key) == Err::<Option<ReceivedOutput>, _>(fault) <==> is_paid(scan, o, key)
            && is_key_fault(scan, o, key, fault),
{
    lemma_with_key_receipt(scan, o, key, received);
    senders_and_recipients_agree(scan, o, key);
    assert(scan.tx.spec_prefix() == prefix_of(scan.tx));
    assert(scan.tx.spec_proofs() == proofs_of(scan.tx));
    let declared = scan.output(o).amount;
    let scalar = sender_scalar(scan, o, key);
    amounts_are_settled_by_their_commitments(declared, proofs_of(scan.tx), o, scalar, 0, 0);
    if let Settlement::Settled { mask, amount } = scan.settlement(o, key) {
        amounts_are_settled_by_their_commitments(
            declared,
            proofs_of(scan.tx),
            o,
            scalar,
            mask,
            amount,
        );
    }
    assert forall|mask: nat, amount: nat| #[trigger]
        is_opening(declared, proofs_of(scan.tx), o, scalar, mask, amount) implies scan.settlement(
        o,
        key,
    ) == (Settlement::Settled { mask, amount }) by {
        amounts_are_settled_by_their_commitments(
            declared,
            proofs_of(scan.tx),
            o,
            scalar,
            mask,
            amount,
        );
    }
}

/// If scanning an output paid with this key fails with this fault.
pub open spec fn is_key_fault(
    scan: TransactionScan,
    o: int,
    key: Seq<u8>,
    fault: ScanFault,
) -> bool {
    let declared = prefix_of(scan.tx).outputs@[o].amount;
    let proofs = proofs_of(scan.tx);
    if declared is None && proofs is None {
        fault == ScanFault::InvalidScannableBlock("non-miner v2 transaction without RCT proofs"@)
    } else if declared is None && o >= proofs->0.base.encrypted_amounts@.len() {
        fault == ScanFault::InvalidScannableBlock(
            "RCT proofs without an encrypted amount per output"@,
        )
    } else {
        &&& scan.first + o > u64::MAX
        &&& exists|mask: nat, amount: nat| #[trigger]
            is_opening(declared, proofs, o, sender_scalar(scan, o, key), mask, amount)
        &&& fault == ScanFault::InvalidScannableBlock(
            "transaction's output's index isn't representable as a u64"@,
        )
    }
}

/// The keys of a list of fields are those of each of its parts, in order, and solely a key by itself
/// is one.
pub proof fn keys_are_collected_in_order(
    a: Seq<FieldContents>,
    b: Seq<FieldContents>,
    field: FieldContents,
)
    ensures
        public_keys(Seq::empty()) == Seq::<Seq<u8>>::empty(),
        public_keys(seq![field]) == match field {
            FieldContents::PublicKey(key) => seq![key],
            _ => Seq::empty(),
        },
        public_keys(a + b) == public_keys(a) + public_keys(b),
    decreases b.len(),
{
    reveal_with_fuel(public_keys, 2);
    assert(seq![field].drop_last() =~= Seq::<FieldContents>::empty());
    assert(seq![field].last() == field);
    if b.len() == 0 {
        assert(a + b =~= a);
        assert(public_keys(a) + public_keys(b) =~= public_keys(a));
    } else {
        keys_are_collected_in_order(a, b.drop_last(), field);
        assert((a + b).drop_last() =~= a + b.drop_last());
        assert((a + b).last() == b.last());
        assert(public_keys(a + b) =~= public_keys(a) + public_keys(b));
    }
}

/// The keys for the outputs are the first list of keys there is.
pub proof fn the_first_list_of_keys_is_for_the_outputs(fields: Seq<FieldContents>, f: int)
    ensures
        is_first_list(fields, f) ==> additional_keys(fields) == Some(fields[f]->PublicKeys_0),
        additional_keys(fields) is None <==> forall|g: int|
            0 <= g < fields.len() ==> !((#[trigger] fields[g]) is PublicKeys),
    decreases fields.len(),
{
    if fields.len() != 0 {
        let rest = fields.drop_last();
        the_first_list_of_keys_is_for_the_outputs(rest, f);
        assert(forall|g: int| 0 <= g < rest.len() ==> rest[g] == #[trigger] fields[g]);
        assert(fields.last() == fields[fields.len() - 1]);
        if additional_keys(rest) is None {
            assert(forall|g: int| 0 <= g < rest.len() ==> !((#[trigger] fields[g]) is PublicKeys)) by {
                assert forall|g: int| 0 <= g < rest.len() implies !((
                #[trigger] fields[g]) is PublicKeys) by {
                    assert(!(rest[g] is PublicKeys));
                }
            }
        } else {
            let g = choose|g: int| 0 <= g < rest.len() && (#[trigger] rest[g]) is PublicKeys;
            assert(fields[g] is PublicKeys);
            if is_first_list(fields, f) && f == fields.len() - 1 {
                assert(!(fields[g] is PublicKeys));
            }
            if is_first_list(fields, f) {
                assert(is_first_list(rest, f)) by {
                    assert forall|h: int| 0 <= h < f implies !((#[trigger] rest[h]) is PublicKeys) by {
                        assert(!(fields[h] is PublicKeys));
                    }
                }
            }
        }
    }
}

proof fn lemma_first_list(fields: Seq<FieldContents>)
    requires
        additional_keys(fields) is Some,
    ensures
        exists|f: int| is_first_list(fields, f),
    decreases fields.len(),
{
    let rest = fields.drop_last();
    assert(forall|g: int| 0 <= g < rest.len() ==> rest[g] == #[trigger] fields[g]);
    if additional_keys(rest) is Some {
        lemma_first_list(rest);
        let f = choose|f: int| is_first_list(rest, f);
        assert(is_first_list(fields, f)) by {
            assert forall|h: int| 0 <= h < f implies !((#[trigger] fields[h]) is PublicKeys) by {
                assert(!(rest[h] is PublicKeys));
            }
        }
    } else {
        the_first_list_of_keys_is_for_the_outputs(rest, 0);
        assert(is_first_list(fields, fields.len() - 1)) by {
            assert forall|h: int| 0 <= h < fields.len() - 1 implies !((
            #[trigger] fields[h]) is PublicKeys) by {
                assert(!(rest[h] is PublicKeys));
            }
        }
    }
}

proof fn lemma_public_keys_contain(fields: Seq<FieldContents>, key: Seq<u8>)
    ensures
        public_keys(fields).contains(key) <==> exists|f: int|
            0 <= f < fields.len() && #[trigger] fields[f] == FieldContents::PublicKey(key),
    decreases fields.len(),
{
    if fields.len() != 0 {
        let rest = fields.drop_last();
        lemma_public_keys_contain(rest, key);
        assert(forall|g: int| 0 <= g < rest.len() ==> rest[g] == #[trigger] fields[g]);
        assert(fields.last() == fields[fields.len() - 1]);
        let found = public_keys(fields);
        let before = public_keys(rest);
        if before.contains(key) {
            let i = choose|i: int| 0 <= i < before.len() && before[i] == key;
            assert(found[i] == key);
            let f = choose|f: int|
                0 <= f < rest.len() && #[trigger] rest[f] == FieldContents::PublicKey(key);
            assert(fields[f] == FieldContents::PublicKey(key));
        }
        if fields.last() == FieldContents::PublicKey(key) {
            assert(found[found.len() - 1] == key);
        }
        if found.contains(key) && fields.last() != FieldContents::PublicKey(key) {
            let i = choose|i: int| 0 <= i < found.len() && found[i] == key;
            assert(before[i] == key);
        }
        if exists|f: int| 0 <= f < fields.len() && #[trigger] fields[f] == FieldContents::PublicKey(
            key,
        ) {
            let f = choose|f: int|
                0 <= f < fields.len() && #[trigger] fields[f] == FieldContents::PublicKey(key);
            if f < rest.len() {
                assert(rest[f] == FieldContents::PublicKey(key));
            }
        }
    }
}

/// The keys an output is scanned with are the transaction's, each of them, and the one the first list
/// of keys has at the output's index, which is tried last.
pub proof fn outputs_are_scanned_with_their_keys(
    fields: Seq<FieldContents>,
    o: int,
    key: Seq<u8>,
)
    requires
        0 <= o,
    ensures
        keys_for(fields, o).contains(key) <==> is_key_for(fields, o, key),
        public_keys(fields).is_prefix_of(keys_for(fields, o)),
        keys_for(fields, o).len() <= public_keys(fields).len() + 1,
{
    let keys = keys_for(fields, o);
    let public = public_keys(fields);
    lemma_public_keys_contain(fields, key);
    assert(keys.take(public.len() as int) =~= public);
    assert(forall|i: int| 0 <= i < public.len() ==> keys[i] == public[i]);
    if public.contains(key) {
        let i = choose|i: int| 0 <= i < public.len() && public[i] == key;
        assert(keys[i] == key);
    }
    match additional_keys(fields) {
        Some(list) => {
            lemma_first_list(fields);
            let f = choose|f: int| is_first_list(fields, f);
            the_first_list_of_keys_is_for_the_outputs(fields, f);
            if o < list.len() {
                assert(keys[public.len() as int] == list[o]);
            }
            assert forall|g: int| #[trigger] is_first_list(fields, g) implies fields[g]
                == fields[f] by {
                the_first_list_of_keys_is_for_the_outputs(fields, g);
            }
        },
        None => {
            assert forall|g: int| !(#[trigger] is_first_list(fields, g)) by {
                the_first_list_of_keys_is_for_the_outputs(fields, g);
            }
        },
    }
    if keys.contains(key) {
        let i = choose|i: int| 0 <= i < keys.len() && keys[i] == key;
        if i < public.len() {
            assert(public[i] == key);
        }
    }
}

/// Keys are tried in order until one yields anything, which is what is yielded.
pub proof fn the_first_key_to_yield_decides(
    scan: TransactionScan,
    o: int,
    a: Seq<Seq<u8>>,
    b: Seq<Seq<u8>>,
    key: Seq<u8>,
)
    ensures
        scan.with_keys(o, Seq::empty()) == Ok::<Option<ReceivedOutput>, ScanFault>(None),
        scan.with_keys(o, seq![key]) == scan.with_key(o, key),
        scan.with_keys(o, a + b) == if scan.with_keys(o, a) == Ok::<
            Option<ReceivedOutput>,
            ScanFault,
        >(None) {
            scan.with_keys(o, b)
        } else {
            scan.with_keys(o, a)
        },
    decreases b.len(),
{
    reveal_with_fuel(TransactionScan::with_keys, 2);
    assert(seq![key].drop_last() =~= Seq::<Seq<u8>>::empty());
    assert(seq![key].last() == key);
    if b.len() == 0 {
        assert(a + b =~= a);
    } else {
        the_first_key_to_yield_decides(scan, o, a, b.drop_last(), key);
        assert((a + b).drop_last() =~= a + b.drop_last());
        assert((a + b).last() == b.last());
    }
}

/// If an output is received, what is known of it is the receipt of one of its keys it was paid with.
pub open spec fn is_paid_receipt(
    scan: TransactionScan,
    key: Seq<u8>,
    received: ReceivedOutput,
) -> bool {
    let o = received.index_in_transaction as int;
    &&& o < prefix_of(scan.tx).outputs@.len()
    &&& is_spendable_key(prefix_of(scan.tx).outputs@[o].key@)
    &&& is_key_for(read_fields(scan.extra), o, key)
    &&& is_paid(scan, o, key)
    &&& is_receipt(scan, o, key, received)
}

/// If a transaction is scanned: it's of the second version, and there is a key among its fields.
pub open spec fn is_scanned(tx: Transaction, fields: Seq<FieldContents>) -> bool {
    &&& tx is V2
    &&& exists|f: int| 0 <= f < fields.len() && (#[trigger] fields[f]) is PublicKey
}

/// A transaction has keys exactly if it's scanned.
pub proof fn lemma_is_scanned(scan: TransactionScan)
    ensures
        scan.has_keys() <==> is_scanned(scan.tx, read_fields(scan.extra)),
{
    let fields = read_fields(scan.extra);
    let keys = public_keys(fields);
    if keys.len() != 0 {
        lemma_public_keys_contain(fields, keys[0]);
        assert(keys.contains(keys[0]));
        let f = choose|f: int|
            0 <= f < fields.len() && #[trigger] fields[f] == FieldContents::PublicKey(keys[0]);
        assert(fields[f] is PublicKey);
    }
    if exists|f: int| 0 <= f < fields.len() && (#[trigger] fields[f]) is PublicKey {
        let f = choose|f: int| 0 <= f < fields.len() && (#[trigger] fields[f]) is PublicKey;
        lemma_public_keys_contain(fields, fields[f]->PublicKey_0);
        assert(fields[f] == FieldContents::PublicKey(fields[f]->PublicKey_0));
        assert(keys.contains(fields[f]->PublicKey_0));
    }
}

proof fn lemma_keys(scan: TransactionScan, o: int)
    ensures
        scan.keys(o) == if is_spendable_key(prefix_of(scan.tx).outputs@[o].key@) {
            keys_for(read_fields(scan.extra), o)
        } else {
            Seq::empty()
        },
{
    assert(scan.tx.spec_prefix() == prefix_of(scan.tx));
}

/// Every output received was paid to the wallet: it was made with a key of the transaction, or with
/// the one for it, and all that is known of it is as its sender made it.
pub proof fn received_outputs_were_paid(scan: TransactionScan, i: int)
    requires
        scan.received() is Ok,
        0 <= i < scan.received()->Ok_0.len(),
    ensures
        is_scanned(scan.tx, read_fields(scan.extra)),
        exists|key: Seq<u8>| #[trigger] is_paid_receipt(scan, key, scan.received()->Ok_0[i]),
{
    let received = scan.received()->Ok_0[i];
    let o = received.index_in_transaction as int;
    lemma_is_scanned(scan);
    lemma_first_outputs(scan, scan.tx.spec_prefix().outputs@.len() as int);
    lemma_with_keys(scan, o, scan.keys(o));
    lemma_keys(scan, o);
    let keys = scan.keys(o);
    let k = choose|k: int|
        0 <= k < keys.len() && scan.with_key(o, #[trigger] keys[k]) == Ok::<_, ScanFault>(
            Some(received),
        );
    keys_yield_receipts_or_faults(
        scan,
        o,
        keys[k],
        received,
        ScanFault::UnsupportedProtocol(0),
    );
    outputs_are_scanned_with_their_keys(read_fields(scan.extra), o, keys[k]);
    assert(keys.contains(keys[k]));
    assert(is_paid_receipt(scan, keys[k], received));
}

/// Every output paid to the wallet is received, unless the scan fails: one whose key may be spent,
/// made with a key of the transaction or with the one at its index within the first list of keys, and
/// whose amount is declared or is the one committed to.
pub proof fn paid_outputs_are_received(
    scan: TransactionScan,
    o: int,
    key: Seq<u8>,
    mask: nat,
    amount: nat,
)
    requires
        scan.received() is Ok,
        is_scanned(scan.tx, read_fields(scan.extra)),
        0 <= o < prefix_of(scan.tx).outputs@.len(),
        is_spendable_key(prefix_of(scan.tx).outputs@[o].key@),
        is_key_for(read_fields(scan.extra), o, key),
        is_paid(scan, o, key),
        is_opening(
            prefix_of(scan.tx).outputs@[o].amount,
            proofs_of(scan.tx),
            o,
            sender_scalar(scan, o, key),
            mask,
            amount,
        ),
    ensures
        exists|i: int|
            0 <= i < scan.received()->Ok_0.len() && (
            #[trigger] scan.received()->Ok_0[i]).index_in_transaction == o,
{
    assert(scan.tx.spec_prefix() == prefix_of(scan.tx));
    assert(scan.tx.spec_proofs() == proofs_of(scan.tx));
    lemma_is_scanned(scan);
    lemma_keys(scan, o);
    outputs_are_scanned_with_their_keys(read_fields(scan.extra), o, key);
    senders_and_recipients_agree(scan, o, key);
    amounts_are_settled_by_their_commitments(
        prefix_of(scan.tx).outputs@[o].amount,
        proofs_of(scan.tx),
        o,
        sender_scalar(scan, o, key),
        mask,
        amount,
    );
    outputs_found_are_received(scan, o, key);
}

/// An output which its sender made with the key the first list of keys has at the output's index is
/// received, unless the scan fails.
pub proof fn outputs_made_with_their_own_keys_are_received(
    scan: TransactionScan,
    f: int,
    o: int,
    spend: Seq<u8>,
    mask: nat,
    amount: nat,
)
    requires
        scan.received() is Ok,
        is_scanned(scan.tx, read_fields(scan.extra)),
        is_first_list(read_fields(scan.extra), f),
        0 <= o < read_fields(scan.extra)[f]->PublicKeys_0.len(),
        o < prefix_of(scan.tx).outputs@.len(),
        is_spendable_key(prefix_of(scan.tx).outputs@[o].key@),
        ({
            let key = read_fields(scan.extra)[f]->PublicKeys_0[o];
            let output = prefix_of(scan.tx).outputs@[o];
            let scalar = sender_scalar(scan, o, key);
            &&& output.key@ == point_sum(spend, base_product(scalar))
            &&& point_difference(output.key@, base_product(scalar)) == spend
            &&& scan.wallet.subaddresses.contains_key(spend)
            &&& is_tagged(output, scan.wallet.view, key, o)
            &&& is_opening(output.amount, proofs_of(scan.tx), o, scalar, mask, amount)
        }),
    ensures
        exists|i: int|
            0 <= i < scan.received()->Ok_0.len() && (
            #[trigger] scan.received()->Ok_0[i]).index_in_transaction == o,
{
    let key = read_fields(scan.extra)[f]->PublicKeys_0[o];
    assert(is_key_for(read_fields(scan.extra), o, key));
    paid_outputs_are_received(scan, o, key, mask, amount);
}

/// Each output received has the payment ID its sender encrypted to it, whichever its index is.
pub proof fn payment_ids_are_those_sent(scan: TransactionScan, i: int, id: Seq<u8>)
    requires
        scan.received() is Ok,
        0 <= i < scan.received()->Ok_0.len(),
        id.len() == 8,
    ensures
        ({
            let held = payment_id_of(read_fields(scan.extra));
            let received = scan.received()->Ok_0[i];
            &&& held is None <==> received.payment_id is None
            &&& held is Some && held->0 is Unencrypted ==> received.payment_id == held
            &&& exists|key: Seq<u8>|
                {
                    let pad = keccak256_digest(
                        point_product(8, point_product(scan.wallet.view, key)).push(0x8d),
                    ).subrange(0, 8);
                    &&& #[trigger] is_paid_receipt(scan, key, received)
                    &&& held == Some(PaymentIdBytes::Encrypted(xor(id, pad)))
                        ==> received.payment_id == Some(PaymentIdBytes::Encrypted(id))
                }
        }),
{
    let received = scan.received()->Ok_0[i];
    received_outputs_were_paid(scan, i);
    let key = choose|key: Seq<u8>| #[trigger] is_paid_receipt(scan, key, received);
    let pad = keccak256_digest(
        point_product(8, point_product(scan.wallet.view, key)).push(0x8d),
    ).subrange(0, 8);
    xor_undoes_xor(id, pad);
}

/// A scan fails exactly if it's of a transaction which is scanned, and one of its outputs does, which is
/// the first which does.
pub proof fn the_first_output_to_fail_decides(scan: TransactionScan, fault: ScanFault)
    ensures
        scan.received() == Err::<Seq<ReceivedOutput>, _>(fault) <==> is_scanned(
            scan.tx,
            read_fields(scan.extra),
        ) && exists|o: int|
            0 <= o < prefix_of(scan.tx).outputs@.len() && #[trigger] fails_at(scan, o, fault),
{
    lemma_is_scanned(scan);
    assert(scan.tx.spec_prefix() == prefix_of(scan.tx));
    lemma_fails(scan, prefix_of(scan.tx).outputs@.len() as int, fault);
}

/// If the output at this index is the first to fail, with this fault.
pub open spec fn fails_at(scan: TransactionScan, o: int, fault: ScanFault) -> bool {
    &&& scan.with_keys(o, scan.keys(o)) == Err::<Option<ReceivedOutput>, _>(fault)
    &&& forall|p: int| 0 <= p < o ==> (#[trigger] scan.with_keys(p, scan.keys(p))) is Ok
}

proof fn lemma_fails(scan: TransactionScan, n: int, fault: ScanFault)
    requires
        0 <= n,
    ensures
        scan.first_outputs(n) == Err::<Seq<ReceivedOutput>, _>(fault) <==> exists|o: int|
            0 <= o < n && #[trigger] fails_at(scan, o, fault),
    decreases n,
{
    if n > 0 {
        lemma_fails(scan, n - 1, fault);
        match scan.first_outputs(n - 1) {
            Ok(_) => {
                lemma_first_outputs(scan, n - 1);
                if scan.first_outputs(n) == Err::<Seq<ReceivedOutput>, _>(fault) {
                    assert(fails_at(scan, n - 1, fault));
                }
                assert forall|o: int| 0 <= o < n && #[trigger] fails_at(
                    scan,
                    o,
                    fault,
                ) implies scan.first_outputs(n) == Err::<Seq<ReceivedOutput>, _>(fault) by {
                    if o < n - 1 {
                        assert(scan.with_keys(o, scan.keys(o)) is Ok);
                    }
                }
            },
            Err(other) => {
                lemma_fails(scan, n - 1, other);
                let p = choose|p: int| 0 <= p < n - 1 && #[trigger] fails_at(scan, p, other);
                if scan.first_outputs(n) == Err::<Seq<ReceivedOutput>, _>(fault) {
                    assert(fails_at(scan, p, fault));
                }
                assert forall|o: int| 0 <= o < n && #[trigger] fails_at(
                    scan,
                    o,
                    fault,
                ) implies scan.first_outputs(n) == Err::<Seq<ReceivedOutput>, _>(fault) by {
                    if o < p {
                        assert(scan.with_keys(o, scan.keys(o)) is Ok);
                    } else if o > p {
                        assert(scan.with_keys(p, scan.keys(p)) is Ok);
                    }
                }
            },
        }
    }
}

} // verus!
