//! What is derived from the secret the sender and the recipient of an output share.

use vstd::prelude::*;

use crate::bytes::{array_at, le_bytes, le_nat, push_bytes, u64_from_le, varint, write_varint};
use crate::bytes::{lemma_le_nat_le_bytes, lemma_le_nat_le_bytes_8, xor, xor_arrays};
use crate::ed25519::{cofactor_product, group_order, scalar_hash, Commitment, Point, Scalar};
use crate::extra::PaymentIdBytes;
use crate::hash::{keccak256, keccak256_digest};
use crate::transaction::{EncryptedAmount, Input};

verus! {

/// `uniqueness`.
pub const UNIQUENESS_DOMAIN: [u8; 10] = [
    0x75, 0x6e, 0x69, 0x71, 0x75, 0x65, 0x6e, 0x65, 0x73, 0x73,
];

/// `view_tag`.
pub const VIEW_TAG_DOMAIN: [u8; 8] = [0x76, 0x69, 0x65, 0x77, 0x5f, 0x74, 0x61, 0x67];

/// `commitment_mask`.
pub const COMMITMENT_MASK_DOMAIN: [u8; 15] = [
    0x63, 0x6f, 0x6d, 0x6d, 0x69, 0x74, 0x6d, 0x65, 0x6e, 0x74, 0x5f, 0x6d, 0x61, 0x73, 0x6b,
];

/// `amount`.
pub const AMOUNT_DOMAIN: [u8; 6] = [0x61, 0x6d, 0x6f, 0x75, 0x6e, 0x74];

/// The byte what a payment ID is encrypted with is derived with.
pub const PAYMENT_ID_DOMAIN: u8 = 0x8d;

/// What makes an input unique: the number of the block it's the miner's, or its key image.
pub open spec fn input_identity(input: Input) -> Seq<u8> {
    match input {
        Input::Gen(number) => varint(number as nat),
        Input::ToKey { key_image, .. } => key_image@,
    }
}

/// What makes each of a list of inputs unique.
pub open spec fn input_identities(inputs: Seq<Input>) -> Seq<u8>
    decreases inputs.len(),
{
    if inputs.len() == 0 {
        Seq::empty()
    } else {
        input_identities(inputs.drop_last()) + input_identity(inputs.last())
    }
}

/// What makes a transaction unique.
pub open spec fn uniqueness_of(inputs: Seq<Input>) -> Seq<u8> {
    keccak256_digest(UNIQUENESS_DOMAIN@ + input_identities(inputs))
}

/// The shared secret, made specific to the output at this index.
pub open spec fn output_secret(ecdh: Seq<u8>, o: nat) -> Seq<u8> {
    cofactor_product(ecdh) + varint(o)
}

/// The view tag of an output.
pub open spec fn view_tag_of(ecdh: Seq<u8>, o: nat) -> u8 {
    keccak256_digest(VIEW_TAG_DOMAIN@ + output_secret(ecdh, o))[0]
}

/// The shared key of an output, made specific to the transaction if its uniqueness is specified.
pub open spec fn shared_key_of(uniqueness: Option<Seq<u8>>, ecdh: Seq<u8>, o: nat) -> nat {
    match uniqueness {
        Some(uniqueness) => scalar_hash(uniqueness + output_secret(ecdh, o)),
        None => scalar_hash(output_secret(ecdh, o)),
    }
}

/// What an encrypted payment ID is exclusively disjoined with.
pub open spec fn payment_id_pad(ecdh: Seq<u8>) -> Seq<u8> {
    keccak256_digest(cofactor_product(ecdh) + seq![PAYMENT_ID_DOMAIN]).take(8)
}

/// What an amount in the compact format is exclusively disjoined with.
pub open spec fn amount_pad(shared_key: nat) -> Seq<u8> {
    keccak256_digest(AMOUNT_DOMAIN@ + le_bytes(shared_key, 32)).take(8)
}

/// The mask of the commitment to an amount in the compact format.
pub open spec fn commitment_mask_of(shared_key: nat) -> nat {
    scalar_hash(COMMITMENT_MASK_DOMAIN@ + le_bytes(shared_key, 32))
}

/// What a mask in the original format is offset by.
pub open spec fn mask_pad(shared_key: nat) -> nat {
    scalar_hash(le_bytes(shared_key, 32))
}

/// What an amount in the original format is offset by.
pub open spec fn original_amount_pad(shared_key: nat) -> nat {
    scalar_hash(le_bytes(mask_pad(shared_key), 32))
}

/// `n`, less `pad`, among the scalars.
pub open spec fn scalar_less(n: nat, pad: nat) -> nat {
    ((n % group_order() - pad) % (group_order() as int)) as nat
}

/// The mask and amount an encrypted amount decrypts to.
pub open spec fn decrypted_amount(shared_key: nat, encrypted: EncryptedAmount) -> (nat, nat) {
    match encrypted {
        EncryptedAmount::Original { mask, amount } => (
            scalar_less(le_nat(mask@), mask_pad(shared_key)),
            le_nat(
                le_bytes(
                    scalar_less(le_nat(amount@), original_amount_pad(shared_key)),
                    32,
                ).take(8),
            ),
        ),
        EncryptedAmount::Compact { amount } => (
            commitment_mask_of(shared_key),
            le_nat(xor(amount@, amount_pad(shared_key))),
        ),
    }
}

/// What is derived from the shared secret, for an output.
pub struct SharedKeyDerivations {
    /// The view tag.
    pub view_tag: u8,
    /// The shared key.
    pub shared_key: Scalar,
}

fn write_output_secret(ecdh: &Point, o: usize, buf: &mut Vec<u8>)
    ensures
        final(buf)@ == old(buf)@ + output_secret(ecdh@, o as nat),
{
    push_bytes(buf, &ecdh.times_cofactor().compress());
    write_varint(o as u64, buf);
    assert(buf@ =~= old(buf)@ + output_secret(ecdh@, o as nat));
}

impl SharedKeyDerivations {
    /// What makes a transaction unique.
    pub fn uniqueness(inputs: &Vec<Input>) -> (res: [u8; 32])
        ensures
            res@ == uniqueness_of(inputs@),
    {
        let mut preimage: Vec<u8> = Vec::new();
        push_bytes(&mut preimage, &UNIQUENESS_DOMAIN);
        let mut i: usize = 0;
        assert(preimage@ =~= UNIQUENESS_DOMAIN@ + input_identities(inputs@.take(0)));
        while i < inputs.len()
            invariant
                i <= inputs.len(),
                preimage@ == UNIQUENESS_DOMAIN@ + input_identities(inputs@.take(i as int)),
            decreases inputs.len() - i,
        {
            match &inputs[i] {
                Input::Gen(number) => write_varint(*number as u64, &mut preimage),
                Input::ToKey { key_image, .. } => push_bytes(&mut preimage, key_image),
            }
            i += 1;
            assert(inputs@.take(i as int).drop_last() =~= inputs@.take(i - 1));
            assert(preimage@ =~= UNIQUENESS_DOMAIN@ + input_identities(inputs@.take(i as int)));
        }
        assert(inputs@.take(i as int) =~= inputs@);
        keccak256(preimage.as_slice())
    }

    /// The view tag of the output at this index.
    pub fn output_view_tag(ecdh: &Point, o: usize) -> (res: u8)
        ensures
            res == view_tag_of(ecdh@, o as nat),
    {
        let mut preimage: Vec<u8> = Vec::new();
        push_bytes(&mut preimage, &VIEW_TAG_DOMAIN);
        write_output_secret(ecdh, o, &mut preimage);
        assert(preimage@ =~= VIEW_TAG_DOMAIN@ + output_secret(ecdh@, o as nat));
        keccak256(preimage.as_slice())[0]
    }

    /// The shared key of the output at this index.
    pub fn output_shared_key(uniqueness: &Option<[u8; 32]>, ecdh: &Point, o: usize) -> (res: Scalar)
        ensures
            res@ == shared_key_of(unique_bytes(*uniqueness), ecdh@, o as nat),
            res@ < group_order(),
    {
        let mut preimage: Vec<u8> = Vec::new();
        if let Some(uniqueness) = uniqueness {
            push_bytes(&mut preimage, uniqueness);
            write_output_secret(ecdh, o, &mut preimage);
            assert(preimage@ =~= uniqueness@ + output_secret(ecdh@, o as nat));
        } else {
            write_output_secret(ecdh, o, &mut preimage);
            assert(preimage@ =~= output_secret(ecdh@, o as nat));
        }
        Scalar::hash(preimage.as_slice())
    }

    /// The view tag and shared key of the output at this index.
    pub fn output_derivations(
        uniqueness: &Option<[u8; 32]>,
        ecdh: &Point,
        o: usize,
    ) -> (res: SharedKeyDerivations)
        ensures
            res.view_tag == view_tag_of(ecdh@, o as nat),
            res.shared_key@ == shared_key_of(unique_bytes(*uniqueness), ecdh@, o as nat),
    {
        SharedKeyDerivations {
            view_tag: SharedKeyDerivations::output_view_tag(ecdh, o),
            shared_key: SharedKeyDerivations::output_shared_key(uniqueness, ecdh, o),
        }
    }

    /// What an encrypted payment ID is exclusively disjoined with.
    pub fn payment_id_xor(ecdh: &Point) -> (res: [u8; 8])
        ensures
            res@ == payment_id_pad(ecdh@),
    {
        let mut preimage: Vec<u8> = Vec::new();
        push_bytes(&mut preimage, &ecdh.times_cofactor().compress());
        preimage.push(PAYMENT_ID_DOMAIN);
        assert(preimage@ =~= cofactor_product(ecdh@) + seq![PAYMENT_ID_DOMAIN]);
        array_at(&keccak256(preimage.as_slice()), 0)
    }

    /// Decrypt an amount to the opening of the commitment to it.
    pub fn decrypt(&self, encrypted: &EncryptedAmount) -> (res: Commitment)
        ensures
            (res.mask@, res.amount as nat) == decrypted_amount(self.shared_key@, *encrypted),
    {
        let shared_key = self.shared_key.to_bytes();
        match encrypted {
            EncryptedAmount::Original { mask, amount } => {
                let mask_pad = Scalar::hash(&shared_key);
                let amount_pad = Scalar::hash(&mask_pad.to_bytes());
                let mask = Scalar::from_bytes_mod_order(*mask).minus(&mask_pad);
                let amount = Scalar::from_bytes_mod_order(*amount).minus(&amount_pad);
                let amount: [u8; 8] = array_at(&amount.to_bytes(), 0);
                Commitment { mask, amount: u64_from_le(&amount) }
            },
            EncryptedAmount::Compact { amount } => {
                let mut mask: Vec<u8> = Vec::new();
                push_bytes(&mut mask, &COMMITMENT_MASK_DOMAIN);
                push_bytes(&mut mask, &shared_key);
                assert(mask@ =~= COMMITMENT_MASK_DOMAIN@ + shared_key@);
                let mut pad: Vec<u8> = Vec::new();
                push_bytes(&mut pad, &AMOUNT_DOMAIN);
                push_bytes(&mut pad, &shared_key);
                assert(pad@ =~= AMOUNT_DOMAIN@ + shared_key@);
                let pad: [u8; 8] = array_at(&keccak256(pad.as_slice()), 0);
                Commitment {
                    mask: Scalar::hash(mask.as_slice()),
                    amount: u64_from_le(&xor_arrays(amount, &pad)),
                }
            },
        }
    }
}

/// The bytes of a transaction's uniqueness, if specified.
pub open spec fn unique_bytes(uniqueness: Option<[u8; 32]>) -> Option<Seq<u8>> {
    match uniqueness {
        Some(uniqueness) => Some(uniqueness@),
        None => None,
    }
}

/// Exclusively disjoining with the same bytes twice has no effect.
pub proof fn xor_undoes_xor(s: Seq<u8>, pad: Seq<u8>)
    ensures
        xor(xor(s, pad), pad) == s,
{
    assert forall|i: int| 0 <= i < s.len() implies xor(xor(s, pad), pad)[i] == s[i] by {
        let a = s[i];
        let b = pad[i];
        assert((a ^ b) ^ b == a) by (bit_vector);
    }
    assert(xor(xor(s, pad), pad) =~= s);
}

/// A payment ID encrypted to the recipient is the one the recipient decrypts.
pub proof fn payment_ids_decrypt(id: PaymentIdBytes, pad: Seq<u8>)
    ensures
        id.decrypted(pad).decrypted(pad) == id,
{
    if let PaymentIdBytes::Encrypted(bytes) = id {
        xor_undoes_xor(bytes, pad);
    }
}

/// An amount encrypted to the recipient in the compact format is the one the recipient decrypts.
pub proof fn compact_amounts_decrypt(shared_key: nat, amount: u64, encrypted: [u8; 8])
    requires
        encrypted@ == xor(le_bytes(amount as nat, 8), amount_pad(shared_key)),
    ensures
        decrypted_amount(shared_key, EncryptedAmount::Compact { amount: encrypted }) == (
            commitment_mask_of(shared_key),
            amount as nat,
        ),
{
    lemma_le_nat_le_bytes_8(amount);
    xor_undoes_xor(le_bytes(amount as nat, 8), amount_pad(shared_key));
}

proof fn lemma_scalar_less(n: nat, pad: nat)
    requires
        n < group_order(),
        pad < group_order(),
    ensures
        scalar_less((n + pad) % group_order(), pad) == n,
{
    let order = group_order();
    let sum = (n + pad) % order;
    assert(sum < order);
    assert(sum % order == sum);
    if n + pad < order {
        assert(sum == n + pad);
        assert((n as int) % (order as int) == n);
    } else {
        assert(sum == n + pad - order);
        assert((n - order) % (order as int) == n);
    }
}

/// A mask and amount encrypted to the recipient in the original format are the ones the recipient
/// decrypts.
pub proof fn original_amounts_decrypt(
    shared_key: nat,
    mask: nat,
    amount: u64,
    encrypted_mask: [u8; 32],
    encrypted_amount: [u8; 32],
)
    requires
        mask < group_order(),
        le_nat(encrypted_mask@) == (mask + mask_pad(shared_key)) % group_order(),
        le_nat(encrypted_amount@) == (amount as nat + original_amount_pad(shared_key))
            % group_order(),
    ensures
        decrypted_amount(
            shared_key,
            EncryptedAmount::Original { mask: encrypted_mask, amount: encrypted_amount },
        ) == (mask, amount as nat),
{
    lemma_scalar_less(mask, mask_pad(shared_key));
    lemma_scalar_less(amount as nat, original_amount_pad(shared_key));
    lemma_le_bytes_prefix(amount as nat, 8, 32);
    lemma_le_nat_le_bytes_8(amount);
}

/// The first bytes of an encoding are the shorter encoding.
pub proof fn lemma_le_bytes_prefix(n: nat, short: nat, long: nat)
    requires
        short <= long,
    ensures
        le_bytes(n, long).take(short as int) == le_bytes(n, short),
    decreases short,
{
    lemma_le_nat_le_bytes(n, long);
    lemma_le_nat_le_bytes(n, short);
    if short > 0 {
        lemma_le_bytes_prefix(n / 256, (short - 1) as nat, (long - 1) as nat);
        assert(le_bytes(n, long).take(short as int) =~= seq![(n % 256) as u8] + le_bytes(
            n / 256,
            (long - 1) as nat,
        ).take(short - 1));
    } else {
        assert(le_bytes(n, long).take(0) =~= le_bytes(n, 0));
    }
}

} // verus!
