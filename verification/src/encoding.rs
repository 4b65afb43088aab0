//! What holds of encodings, and of what is hashed of a transaction.

use vstd::arithmetic::div_mod::{lemma_div_denominator, lemma_fundamental_div_mod};
use vstd::arithmetic::power::{lemma_pow0, lemma_pow1, lemma_pow_adds, lemma_pow_positive, pow};
use vstd::prelude::*;

use crate::bytes::{byte_range, decode_varint, decode_varint_at_most, le_bytes, le_nat, varint};
use crate::bytes::{lemma_le_nat_le_bytes, xor};
use crate::hash::keccak256_digest;
use crate::transaction::{encrypted_amount_bytes, encrypted_amounts_bytes, input_bytes};
use crate::transaction::{inputs_bytes, output_bytes, outputs_bytes, points_bytes};
use crate::transaction::{prefix_bytes, rct_base_bytes, transaction_hash, varints_bytes};
use crate::transaction::{EncryptedAmount, FullTransaction, Input, Output, PrunedRctProofs, RctType};
use crate::transaction::{Timelock, Transaction, TransactionPrefix};

verus! {

/// Each byte of an integer counts for 256 times what the one before it does.
pub proof fn later_bytes_are_more_significant(bytes: Seq<u8>, byte: u8)
    ensures
        le_nat(Seq::empty()) == 0,
        le_nat(bytes.push(byte)) == le_nat(bytes) + byte * pow(256, bytes.len()),
    decreases bytes.len(),
{
    if bytes.len() == 0 {
        assert(bytes.push(byte).skip(1) =~= Seq::<u8>::empty());
        lemma_pow0(256);
        assert(byte * 1 == byte);
    } else {
        later_bytes_are_more_significant(bytes.skip(1), byte);
        assert(bytes.push(byte).skip(1) =~= bytes.skip(1).push(byte));
        let rest = pow(256, (bytes.len() - 1) as nat);
        lemma_pow_adds(256, 1, (bytes.len() - 1) as nat);
        lemma_pow1(256);
        assert(bytes.push(byte)[0] == bytes[0]);
        let low = le_nat(bytes.skip(1));
        assert(256 * (low + byte * rest) == 256 * low + byte * (256 * rest)) by (nonlinear_arith);
    }
}

/// The encoding of an integer with as many bytes as suffice is of that length, and encodes it.
pub proof fn integers_are_encoded(n: nat, len: nat)
    requires
        n < pow(256, len),
    ensures
        le_bytes(n, len).len() == len,
        le_nat(le_bytes(n, len)) == n,
{
    lemma_byte_range(len);
    lemma_le_nat_le_bytes(n, len);
}

proof fn lemma_byte_range(len: nat)
    ensures
        byte_range(len) == pow(256, len),
    decreases len,
{
    reveal(pow);
    if len > 0 {
        lemma_byte_range((len - 1) as nat);
    }
}

/// The byte of a variable-length encoding at an index holds the seven bits of the integer which are
/// that many times seven bits up. Solely bytes which are followed by another have their high bit set,
/// and there are no more bytes than needed.
pub proof fn varints_hold_seven_bits_per_byte(n: nat, i: int)
    requires
        0 <= i < varint(n).len(),
    ensures
        varint(n)[i] % 128 == (n as int / pow(128, i as nat)) % 128,
        varint(n)[i] >= 128 <==> i < varint(n).len() - 1,
        n < pow(128, varint(n).len()),
        varint(n).len() == 1 || n >= pow(128, (varint(n).len() - 1) as nat),
    decreases n,
{
    lemma_pow0(128);
    lemma_pow1(128);
    assert(n as int / 1 == n);
    if n < 128 {
        assert(varint(n)[0] == n);
    } else {
        let rest = varint(n / 128);
        lemma_varint_len(n / 128);
        lemma_pow_adds(128, 1, rest.len());
        lemma_pow_adds(128, 1, (rest.len() - 1) as nat);
        lemma_pow1(128);
        let j = if i == 0 { 0 } else { i - 1 };
        varints_hold_seven_bits_per_byte(n / 128, j);
        assert(varint(n).skip(1) =~= rest);
        assert(n / 128 < pow(128, rest.len()));
        lemma_fundamental_div_mod(n as int, 128);
        if i == 0 {
            let low = n % 128;
            assert((128 + low) % 128 == low);
            assert(varint(n)[0] == (128 + low) as u8);
        } else {
            assert(varint(n)[i] == rest[i - 1]);
            lemma_pow_adds(128, 1, (i - 1) as nat);
            lemma_pow_positive(128, (i - 1) as nat);
            lemma_div_denominator(n as int, 128, pow(128, (i - 1) as nat));
            assert((n / 128) as int == n as int / 128);
            assert(pow(128, i as nat) == 128 * pow(128, (i - 1) as nat));
        }
    }
}

proof fn lemma_varint_len(n: nat)
    ensures
        varint(n).len() >= 1,
    decreases n,
{
    if n >= 128 {
        lemma_varint_len(n / 128);
    }
}

/// The encoding of a 64-bit integer takes at most ten bytes.
pub proof fn lemma_varint_short(n: nat)
    requires
        n <= u64::MAX,
    ensures
        varint(n).len() <= 10,
{
    reveal_with_fuel(varint, 11);
}

/// An integer is decoded exactly if there is its encoding, and if it's no larger than it may be.
pub proof fn solely_encodings_decode(s: Seq<u8>, n: nat, len: nat, max: nat)
    ensures
        decode_varint(s) == Some((n, len)) <==> len <= s.len() && s.take(len as int) == varint(n),
        decode_varint_at_most(s, max) == Some((n, len)) <==> n <= max && len <= s.len() && s.take(
            len as int,
        ) == varint(n),
    decreases s.len(),
{
    lemma_varint_len(n);
    if s.len() == 0 {
        if len == 0 {
            assert(s.take(0).len() == 0);
        }
    } else {
        if s[0] < 128 {
            if len <= s.len() && s.take(len as int) == varint(n) {
                assert(s.take(len as int)[0] == s[0]);
                if n >= 128 {
                    assert(varint(n)[0] >= 128);
                }
                assert(varint(n).len() == 1);
                assert(s.take(len as int).len() == len);
            }
            if n == s[0] && len == 1 {
                assert(s.take(1) =~= varint(n));
            }
        } else {
            let rest = s.skip(1);
            let high = n / 128;
            if len > 0 {
                solely_encodings_decode(rest, high, (len - 1) as nat, max);
                if len <= s.len() {
                    assert(s.take(len as int).skip(1) =~= rest.take(len - 1));
                    assert(s.take(len as int)[0] == s[0]);
                    if s.take(len as int) == varint(n) {
                        assert(n >= 128);
                        assert(varint(n).skip(1) =~= varint(high));
                    }
                }
            } else {
                assert(s.take(0).len() == 0);
            }
            if decode_varint(s) == Some((n, len)) {
                let (value, size) = decode_varint(rest)->0;
                assert(value == high);
                assert(s.take(len as int) =~= seq![s[0]] + rest.take(len - 1));
                assert(varint(n) =~= seq![s[0]] + varint(high));
            }
            if len > 0 && len <= s.len() && s.take(len as int) == varint(n) {
                assert(varint(n)[0] == (128 + n % 128) as u8);
            }
        }
    }
}

/// Each byte exclusively disjoined is that of both bytes at its index.
pub proof fn bytes_are_disjoined_each(a: Seq<u8>, b: Seq<u8>, i: int)
    requires
        0 <= i < a.len(),
    ensures
        xor(a, b).len() == a.len(),
        xor(a, b)[i] == a[i] ^ b[i],
{
}

/// Lists are serialized as each of their parts is, in order.
pub proof fn lists_are_serialized_in_order(
    integers: (Seq<u64>, Seq<u64>),
    points: (Seq<[u8; 32]>, Seq<[u8; 32]>),
    inputs: (Seq<Input>, Seq<Input>),
    outputs: (Seq<Output>, Seq<Output>),
    amounts: (Seq<EncryptedAmount>, Seq<EncryptedAmount>),
)
    ensures
        varints_bytes(integers.0 + integers.1) == varints_bytes(integers.0) + varints_bytes(
            integers.1,
        ),
        points_bytes(points.0 + points.1) == points_bytes(points.0) + points_bytes(points.1),
        inputs_bytes(inputs.0 + inputs.1) == inputs_bytes(inputs.0) + inputs_bytes(inputs.1),
        outputs_bytes(outputs.0 + outputs.1) == outputs_bytes(outputs.0) + outputs_bytes(outputs.1),
        encrypted_amounts_bytes(amounts.0 + amounts.1) == encrypted_amounts_bytes(amounts.0)
            + encrypted_amounts_bytes(amounts.1),
{
    lemma_integers(integers.0, integers.1);
    lemma_points(points.0, points.1);
    lemma_inputs(inputs.0, inputs.1);
    lemma_outputs(outputs.0, outputs.1);
    lemma_amounts(amounts.0, amounts.1);
}

proof fn lemma_integers(a: Seq<u64>, b: Seq<u64>)
    ensures
        varints_bytes(a + b) == varints_bytes(a) + varints_bytes(b),
    decreases b.len(),
{
    if b.len() == 0 {
        assert(a + b =~= a);
        assert(varints_bytes(a) + varints_bytes(b) =~= varints_bytes(a));
    } else {
        lemma_integers(a, b.drop_last());
        assert((a + b).drop_last() =~= a + b.drop_last());
        assert((a + b).last() == b.last());
        assert(varints_bytes(a + b) =~= varints_bytes(a) + varints_bytes(b));
    }
}

proof fn lemma_points(a: Seq<[u8; 32]>, b: Seq<[u8; 32]>)
    ensures
        points_bytes(a + b) == points_bytes(a) + points_bytes(b),
    decreases b.len(),
{
    if b.len() == 0 {
        assert(a + b =~= a);
        assert(points_bytes(a) + points_bytes(b) =~= points_bytes(a));
    } else {
        lemma_points(a, b.drop_last());
        assert((a + b).drop_last() =~= a + b.drop_last());
        assert((a + b).last() == b.last());
        assert(points_bytes(a + b) =~= points_bytes(a) + points_bytes(b));
    }
}

proof fn lemma_inputs(a: Seq<Input>, b: Seq<Input>)
    ensures
        inputs_bytes(a + b) == inputs_bytes(a) + inputs_bytes(b),
    decreases b.len(),
{
    if b.len() == 0 {
        assert(a + b =~= a);
        assert(inputs_bytes(a) + inputs_bytes(b) =~= inputs_bytes(a));
    } else {
        lemma_inputs(a, b.drop_last());
        assert((a + b).drop_last() =~= a + b.drop_last());
        assert((a + b).last() == b.last());
        assert(inputs_bytes(a + b) =~= inputs_bytes(a) + inputs_bytes(b));
    }
}

proof fn lemma_outputs(a: Seq<Output>, b: Seq<Output>)
    ensures
        outputs_bytes(a + b) == outputs_bytes(a) + outputs_bytes(b),
    decreases b.len(),
{
    if b.len() == 0 {
        assert(a + b =~= a);
        assert(outputs_bytes(a) + outputs_bytes(b) =~= outputs_bytes(a));
    } else {
        lemma_outputs(a, b.drop_last());
        assert((a + b).drop_last() =~= a + b.drop_last());
        assert((a + b).last() == b.last());
        assert(outputs_bytes(a + b) =~= outputs_bytes(a) + outputs_bytes(b));
    }
}

proof fn lemma_amounts(a: Seq<EncryptedAmount>, b: Seq<EncryptedAmount>)
    ensures
        encrypted_amounts_bytes(a + b) == encrypted_amounts_bytes(a) + encrypted_amounts_bytes(b),
    decreases b.len(),
{
    if b.len() == 0 {
        assert(a + b =~= a);
        assert(encrypted_amounts_bytes(a) + encrypted_amounts_bytes(b) =~= encrypted_amounts_bytes(
            a,
        ));
    } else {
        lemma_amounts(a, b.drop_last());
        assert((a + b).drop_last() =~= a + b.drop_last());
        assert((a + b).last() == b.last());
        assert(encrypted_amounts_bytes(a + b) =~= encrypted_amounts_bytes(a)
            + encrypted_amounts_bytes(b));
    }
}

/// What each element of a list is serialized as.
pub proof fn elements_are_serialized(
    integer: u64,
    point: [u8; 32],
    input: Input,
    output: Output,
    amount: EncryptedAmount,
)
    ensures
        varints_bytes(Seq::empty()) == Seq::<u8>::empty(),
        varints_bytes(seq![integer]) == varint(integer as nat),
        points_bytes(Seq::empty()) == Seq::<u8>::empty(),
        points_bytes(seq![point]) == point@,
        inputs_bytes(Seq::empty()) == Seq::<u8>::empty(),
        inputs_bytes(seq![input]) == match input {
            Input::Gen(number) => seq![0xffu8] + varint(number as nat),
            Input::ToKey { amount, key_offsets, key_image } => seq![2u8] + varint(
                if amount is Some {
                    amount->0 as nat
                } else {
                    0
                },
            ) + varint(key_offsets@.len()) + varints_bytes(key_offsets@) + key_image@,
        },
        outputs_bytes(Seq::empty()) == Seq::<u8>::empty(),
        outputs_bytes(seq![output]) == varint(
            if output.amount is Some {
                output.amount->0 as nat
            } else {
                0
            },
        ) + if output.view_tag is Some {
            seq![3u8] + output.key@ + seq![output.view_tag->0]
        } else {
            seq![2u8] + output.key@
        },
        encrypted_amounts_bytes(Seq::empty()) == Seq::<u8>::empty(),
        encrypted_amounts_bytes(seq![amount]) == match amount {
            EncryptedAmount::Original { mask, amount } => mask@ + amount@,
            EncryptedAmount::Compact { amount } => amount@,
        },
{
    reveal_with_fuel(varints_bytes, 2);
    reveal_with_fuel(points_bytes, 2);
    reveal_with_fuel(inputs_bytes, 2);
    reveal_with_fuel(outputs_bytes, 2);
    reveal_with_fuel(encrypted_amounts_bytes, 2);
    assert(seq![integer].drop_last() =~= Seq::<u64>::empty());
    assert(seq![point].drop_last() =~= Seq::<[u8; 32]>::empty());
    assert(seq![input].drop_last() =~= Seq::<Input>::empty());
    assert(seq![output].drop_last() =~= Seq::<Output>::empty());
    assert(seq![amount].drop_last() =~= Seq::<EncryptedAmount>::empty());
    assert(seq![integer].last() == integer);
    assert(seq![point].last() == point);
    assert(seq![input].last() == input);
    assert(seq![output].last() == output);
    assert(seq![amount].last() == amount);
    let none = Seq::<u8>::empty();
    assert(none + varint(integer as nat) =~= varint(integer as nat));
    assert(none + point@ =~= point@);
    assert(none + input_bytes(input) =~= input_bytes(
        input,
    ));
    assert(none + output_bytes(output) =~= output_bytes(
        output,
    ));
    assert(none + encrypted_amount_bytes(amount)
        =~= encrypted_amount_bytes(amount));
}

/// A transaction's hash is of all of it: its version, timelock, inputs, outputs and additional data,
/// along with its signatures if it's of the first version. If of the second, its RingCT data and
/// proofs are hashed by themselves, their hashes being hashed along with that of the former.
pub proof fn hashes_are_of_all_of_a_transaction(
    prefix: TransactionPrefix,
    proofs: PrunedRctProofs,
    prunable: Vec<u8>,
)
    ensures
        prefix_bytes(prefix) == (match prefix.additional_timelock {
            Timelock::Absent => seq![0u8],
            Timelock::Block(until) => varint(until as nat),
            Timelock::Time(until) => varint(until as nat),
        }) + varint(prefix.inputs@.len()) + inputs_bytes(prefix.inputs@) + varint(
            prefix.outputs@.len(),
        ) + outputs_bytes(prefix.outputs@) + varint(prefix.extra@.len()) + prefix.extra@,
        rct_base_bytes(proofs) == seq![
            match proofs.rct_type {
                RctType::AggregateMlsagBorromean => 1u8,
                RctType::MlsagBorromean => 2,
                RctType::MlsagBulletproofs => 3,
                RctType::MlsagBulletproofsCompactAmount => 4,
                RctType::ClsagBulletproof => 5,
                RctType::ClsagBulletproofPlus => 6,
            },
        ] + varint(proofs.base.fee as nat) + (if proofs.rct_type is MlsagBorromean {
            points_bytes(proofs.base.pseudo_outs@)
        } else {
            Seq::empty()
        }) + encrypted_amounts_bytes(proofs.base.encrypted_amounts@) + points_bytes(
            proofs.base.commitments@,
        ),
        transaction_hash(
            FullTransaction { pruned: Transaction::V1 { prefix }, prunable },
        ) == keccak256_digest(seq![1u8] + prefix_bytes(prefix) + prunable@),
        transaction_hash(
            FullTransaction { pruned: Transaction::V2 { prefix, proofs: None }, prunable },
        ) == keccak256_digest(
            keccak256_digest(seq![2u8] + prefix_bytes(prefix)) + keccak256_digest(seq![0u8])
                + Seq::new(32, |i: int| 0u8),
        ),
        transaction_hash(
            FullTransaction { pruned: Transaction::V2 { prefix, proofs: Some(proofs) }, prunable },
        ) == keccak256_digest(
            keccak256_digest(seq![2u8] + prefix_bytes(prefix)) + keccak256_digest(
                rct_base_bytes(proofs),
            ) + keccak256_digest(prunable@),
        ),
{
}

} // verus!
