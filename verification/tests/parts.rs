use curve25519_dalek::constants::ED25519_BASEPOINT_TABLE;
use curve25519_dalek::scalar::Scalar as DalekScalar;
use sha3::{Digest, Keccak256};

use monero_scan::address::SubaddressIndex;
use monero_scan::bytes::{read_varint, u64_from_le, u64_to_le, write_varint};
use monero_scan::derivations::SharedKeyDerivations;
use monero_scan::ed25519::{Commitment, Point, Scalar, H, IDENTITY};
use monero_scan::error::ScanError;
use monero_scan::extra::{Extra, PaymentId};
use monero_scan::microprof::{
    microprof_enabled, microprof_requested, scanner_microprof_snapshot, ScannerMicroprof,
    ScannerMicroprofSnapshot,
};
use monero_scan::point_map::PointMap;
use monero_scan::scan::{
    commitment_matches, index_on_blockchain, next_ringct_index, settle, total_offset,
    view_tag_matches,
};
use monero_scan::transaction::{
    EncryptedAmount, FullTransaction, Input, Output, PrunedRctProofs, RctBase, RctType, Timelock,
    Transaction, TransactionPrefix,
};

fn unhex(hex: &str) -> Vec<u8> {
    let mut bytes = vec![];
    for i in 0..hex.len() / 2 {
        bytes.push(u8::from_str_radix(&hex[2 * i..2 * i + 2], 16).unwrap());
    }
    bytes
}

fn unhex_32(hex: &str) -> [u8; 32] {
    unhex(hex).try_into().unwrap()
}

fn base(n: u64) -> [u8; 32] {
    (&DalekScalar::from(n) * ED25519_BASEPOINT_TABLE).compress().to_bytes()
}

fn point(n: u64) -> Point {
    Point::decompress(&base(n)).unwrap()
}

#[test]
fn genesis_transaction_has_its_hash() {
    let tx = FullTransaction {
        pruned: Transaction::V1 {
            prefix: TransactionPrefix {
                additional_timelock: Timelock::Block(60),
                inputs: vec![Input::Gen(0)],
                outputs: vec![Output {
                    amount: Some(17_592_186_044_415),
                    key: unhex_32(
                        "9b2e4c0281c0b02e7c53291a94d1d0cbff8883f8024f5142ee494ffbbd088071",
                    ),
                    view_tag: None,
                }],
                extra: unhex("017767aafcde9be00dcfd098715ebcf7f410daebc582fda69d24a28e9d0bc890d1"),
            },
        },
        prunable: vec![],
    };
    let hash = "c88ce9783b4f11190d7b9c17a69c1c52200f9faaee8e98dd07e6811175177139";
    assert_eq!(tx.hash(), unhex_32(hash));
    assert_eq!(tx.pruned.version(), 1);
    assert!(tx.pruned.proofs().is_none());
}

#[test]
fn varints_round_trip() {
    for n in [0, 1, 127, 128, 300, 16_383, 16_384, u64::from(u32::MAX), u64::MAX] {
        let mut buf = vec![9];
        write_varint(n, &mut buf);
        assert_eq!(read_varint(&buf, 1, u64::MAX), Some((n, buf.len())));
        if n != 0 {
            assert_eq!(read_varint(&buf, 1, n - 1), None);
        }
    }
    let mut buf = vec![];
    write_varint(300, &mut buf);
    assert_eq!(buf, vec![0xac, 0x02]);
    // Neither truncated nor non-canonical encodings are read
    assert_eq!(read_varint(&[0xac], 0, u64::MAX), None);
    assert_eq!(read_varint(&[0x80, 0x00], 0, u64::MAX), None);
    assert_eq!(u64_from_le(&u64_to_le(0x0102_0304_0506_0708)), 0x0102_0304_0506_0708);
}

#[test]
fn timelocks_are_compared_among_their_kind() {
    let timelocks = [Timelock::Absent, Timelock::Block(0), Timelock::Time(0)];
    for timelock in &timelocks {
        assert!(Timelock::Absent.at_most(timelock));
        assert!(timelock.at_most(timelock));
    }
    assert!(Timelock::Block(5).at_most(&Timelock::Block(6)));
    assert!(!Timelock::Block(6).at_most(&Timelock::Block(5)));
    assert!(!Timelock::Block(0).at_most(&Timelock::Time(u64::MAX)));
    assert!(!Timelock::Time(0).at_most(&Timelock::Block(usize::MAX)));
    assert!(!Timelock::Block(0).at_most(&Timelock::Absent));
}

#[test]
fn errors_have_messages() {
    let error = ScanError::UnsupportedProtocol(17);
    assert_eq!(error.message(), "unsupported protocol version (17)");
    assert_eq!(ScanError::UnsupportedProtocol(0).message(), "unsupported protocol version (0)");
    let error = ScanError::UnsupportedProtocol(255);
    assert_eq!(error.message(), "unsupported protocol version (255)");
    let error = ScanError::InvalidScannableBlock("a reason");
    assert_eq!(error.message(), "invalid scannable block (a reason)");
}

#[test]
fn the_profiler_is_requested_by_a_non_zero_byte() {
    for value in ["1", "+1", "255", "007", "+255"] {
        assert!(microprof_requested(Some(value)));
    }
    for value in ["", "0", "+", "+0", "000", "256", "-1", "1 ", " 1", "true", "++1", "99999999999"] {
        assert!(!microprof_requested(Some(value)));
    }
    assert!(!microprof_requested(None));
}

#[test]
fn new_profilers_are_zero() {
    let mut prof = ScannerMicroprof::new(true);
    assert!(microprof_enabled(&prof));
    assert!(!microprof_enabled(&ScannerMicroprof::new(false)));
    let snapshot = scanner_microprof_snapshot(&mut prof, true).unwrap();
    let zero = ScannerMicroprofSnapshot::default();
    assert_eq!(format!("{:?}", snapshot), format!("{:?}", zero));
    assert_eq!(zero.blocks, 0);
    assert_eq!(zero.ns_subaddress_lookup, 0);
}

#[test]
fn subaddresses_are_not_the_primary_address() {
    assert_eq!(SubaddressIndex::new(0, 0), None);
    let index = SubaddressIndex::new(0, 1).unwrap();
    assert_eq!((index.account(), index.address()), (0, 1));
    assert!(SubaddressIndex::new(1, 0).is_some());
}

#[test]
fn maps_hold_what_was_last_inserted() {
    let mut map = PointMap::new();
    assert_eq!(map.get(&base(1)), None);
    map.insert(base(1), None);
    map.insert(base(2), SubaddressIndex::new(0, 2));
    assert_eq!(map.get(&base(1)), Some(None));
    assert_eq!(map.get(&base(2)), Some(SubaddressIndex::new(0, 2)));
    // Keys which solely differ past what their bucket is decided by
    let mut sibling = base(2);
    sibling[31] ^= 1;
    assert_eq!(map.get(&sibling), None);
    map.insert(sibling, SubaddressIndex::new(0, 3));
    map.insert(base(2), SubaddressIndex::new(0, 4));
    assert_eq!(map.get(&sibling), Some(SubaddressIndex::new(0, 3)));
    assert_eq!(map.get(&base(2)), Some(SubaddressIndex::new(0, 4)));
    let cloned = map.clone();
    map.zeroize();
    assert_eq!(map.get(&base(1)), None);
    assert_eq!(map.get(&base(2)), None);
    assert_eq!(map.get(&sibling), None);
    assert_eq!(map.get(&[0; 32]), None);
    assert_eq!(cloned.get(&base(1)), Some(None));
    assert_eq!(cloned.get(&base(2)), Some(SubaddressIndex::new(0, 4)));
    map.insert(base(1), None);
    assert_eq!(map.get(&base(1)), Some(None));
    assert_eq!(map.get(&base(2)), None);
}

#[test]
fn points_are_solely_decompressed_if_canonical() {
    assert_eq!(Point::decompress(&IDENTITY).unwrap().compress(), IDENTITY);
    // The identity, with a Y coordinate past the field's modulus
    let mut unreduced = [0xff; 32];
    unreduced[0] = 0xee;
    unreduced[31] = 0x7f;
    assert!(Point::decompress(&unreduced).is_none());
    // The identity, with a negative zero for its X coordinate
    let mut negative_zero = IDENTITY;
    negative_zero[31] = 0x80;
    assert!(Point::decompress(&negative_zero).is_none());
    let mut not_a_point = [0; 32];
    not_a_point[0] = 2;
    assert!(Point::decompress(&not_a_point).is_none());
    assert!(Point::decompress(&H).is_some());
}

#[test]
fn points_are_added_and_subtracted() {
    assert_eq!(point(2).plus(&point(3)).compress(), base(5));
    assert_eq!(point(5).minus(&point(3)).compress(), base(2));
    assert_eq!(point(3).minus(&point(3)).compress(), IDENTITY);
    assert_eq!(point(3).times_cofactor().compress(), base(24));
    assert_eq!(point(3).times(&Scalar::from_u64(7)).compress(), base(21));
    assert_eq!(Point::base_times(&Scalar::from_u64(9)).compress(), base(9));
    let mut zeroized = point(3);
    zeroized.zeroize();
    assert_eq!(zeroized.compress(), IDENTITY);
}

#[test]
fn scalars_are_reduced() {
    let order = unhex_32("edd3f55c1a631258d69cf7a2def9de1400000000000000000000000000000010");
    assert_eq!(Scalar::from_bytes_mod_order(order).to_bytes(), [0; 32]);
    let one = Scalar::from_u64(1);
    let minus_one = Scalar::from_u64(0).minus(&one);
    let mut expected = order;
    expected[0] -= 1;
    assert_eq!(minus_one.to_bytes(), expected);
    assert_eq!(minus_one.plus(&one).to_bytes(), [0; 32]);
    assert_eq!(Scalar::from_u64(300).to_bytes()[..3], [44, 1, 0]);
    // The digest of nothing is c5d2..., which is reduced
    let digest = unhex_32("c5d2460186f7233c927e7db2dcc703c0e500b653ca82273b7bfad8045d85a470");
    let expected = DalekScalar::from_bytes_mod_order(digest).to_bytes();
    assert_eq!(Scalar::hash(&[]).to_bytes(), expected);
    let mut zeroized = Scalar::from_u64(5);
    zeroized.zeroize();
    assert_eq!(zeroized.to_bytes(), [0; 32]);
}

#[test]
fn commitments_open() {
    let zero = Commitment::zero();
    assert_eq!(zero.amount, 0);
    assert_eq!(zero.commit().compress(), base(1));
    let h = Point::decompress(&H).unwrap();
    let commitment = Commitment { mask: Scalar::from_u64(4), amount: 1 };
    assert_eq!(commitment.commit().compress(), point(4).plus(&h).compress());
}

#[test]
fn indexes_are_checked() {
    assert_eq!(index_on_blockchain(5, 6), Ok(11));
    assert_eq!(index_on_blockchain(u64::MAX - 1, 1), Ok(u64::MAX));
    let reason = "transaction's output's index isn't representable as a u64";
    assert_eq!(index_on_blockchain(u64::MAX, 1), Err(ScanError::InvalidScannableBlock(reason)));
}

fn with_outputs(version: u8, len: usize) -> Transaction {
    let mut outputs = vec![];
    for _ in 0..len {
        outputs.push(Output { amount: Some(0), key: IDENTITY, view_tag: None });
    }
    let prefix = TransactionPrefix {
        additional_timelock: Timelock::Absent,
        inputs: vec![],
        outputs,
        extra: vec![],
    };
    match version {
        1 => Transaction::V1 { prefix },
        _ => Transaction::V2 { prefix, proofs: None },
    }
}

#[test]
fn solely_ringct_transactions_advance_the_index() {
    assert_eq!(next_ringct_index(10, &with_outputs(2, 3)), Ok(13));
    assert_eq!(next_ringct_index(10, &with_outputs(1, 3)), Ok(10));
    assert_eq!(next_ringct_index(u64::MAX, &with_outputs(1, 3)), Ok(u64::MAX));
    assert_eq!(next_ringct_index(u64::MAX, &with_outputs(2, 0)), Ok(u64::MAX));
    let error = ScanError::InvalidScannableBlock("RingCT output indexes exceeded u64::MAX");
    assert_eq!(next_ringct_index(u64::MAX, &with_outputs(2, 1)), Err(error));
}

#[test]
fn view_tags_and_commitments_are_compared() {
    assert!(view_tag_matches(None, 5));
    assert!(view_tag_matches(Some(5), 5));
    assert!(!view_tag_matches(Some(6), 5));
    let commitments = vec![base(1), base(2)];
    assert!(commitment_matches(&base(2), &commitments, 1));
    assert!(!commitment_matches(&base(2), &commitments, 0));
    assert!(!commitment_matches(&base(2), &commitments, 2));
    assert!(!commitment_matches(&base(1), &commitments, 1));
}

#[test]
fn offsets_are_summed() {
    let shared = Scalar::from_u64(7);
    assert_eq!(total_offset(&shared, &None).to_bytes(), shared.to_bytes());
    let sum = total_offset(&shared, &Some(Scalar::from_u64(8)));
    assert_eq!(sum.to_bytes(), Scalar::from_u64(15).to_bytes());
}

#[test]
fn amounts_are_settled() {
    let mut prof = ScannerMicroprof::new(true);
    let derivations = SharedKeyDerivations { view_tag: 0, shared_key: Scalar::from_u64(6) };
    let settled = settle(Some(5), None, 0, &derivations, &mut prof).ok().unwrap().unwrap();
    assert_eq!(settled.amount, 5);
    assert_eq!(settled.mask.to_bytes(), Scalar::from_u64(1).to_bytes());
    let reason = "non-miner v2 transaction without RCT proofs";
    let error = settle(None, None, 0, &derivations, &mut prof).err().unwrap();
    assert_eq!(error, ScanError::InvalidScannableBlock(reason));
    let encrypted = EncryptedAmount::Compact { amount: [1; 8] };
    let decrypted = derivations.decrypt(&encrypted);
    let mut proofs = PrunedRctProofs {
        rct_type: RctType::ClsagBulletproof,
        base: RctBase {
            fee: 0,
            pseudo_outs: vec![],
            encrypted_amounts: vec![encrypted],
            commitments: vec![decrypted.commit().compress()],
        },
    };
    let settled = settle(None, Some(&proofs), 0, &derivations, &mut prof).ok().unwrap().unwrap();
    assert_eq!(settled.amount, decrypted.amount);
    let reason = "RCT proofs without an encrypted amount per output";
    let error = settle(None, Some(&proofs), 1, &derivations, &mut prof).err().unwrap();
    assert_eq!(error, ScanError::InvalidScannableBlock(reason));
    proofs.base.commitments[0] = base(1);
    assert!(settle(None, Some(&proofs), 0, &derivations, &mut prof).ok().unwrap().is_none());
    let snapshot = scanner_microprof_snapshot(&mut prof, false).unwrap();
    assert_eq!(snapshot.commitment_verify_attempts, 2);
    assert_eq!(snapshot.commitment_verify_fail, 1);
}

#[test]
fn derivations_agree_with_each_other() {
    let uniqueness = Some([3; 32]);
    for o in [0, 1, 127, 128, 100_000] {
        let both = SharedKeyDerivations::output_derivations(&uniqueness, &point(5), o);
        assert_eq!(both.view_tag, SharedKeyDerivations::output_view_tag(&point(5), o));
        let shared_key = SharedKeyDerivations::output_shared_key(&uniqueness, &point(5), o);
        assert_eq!(both.shared_key.to_bytes(), shared_key.to_bytes());
        let without = SharedKeyDerivations::output_shared_key(&None, &point(5), o);
        assert_ne!(without.to_bytes(), shared_key.to_bytes());
    }
}

fn keys_of(extra: &Extra) -> Option<(Vec<[u8; 32]>, Option<Vec<[u8; 32]>>)> {
    let (keys, additional) = extra.keys()?;
    let encode = |points: Vec<Point>| points.iter().map(|point| point.compress()).collect();
    Some((encode(keys), additional.map(encode)))
}

#[test]
fn keys_are_read() {
    let extra = [[1].as_slice(), &base(1), &[4, 2], &base(2), &base(3)].concat();
    let expected = (vec![base(1)], Some(vec![base(2), base(3)]));
    assert_eq!(keys_of(&Extra::read(&extra)), Some(expected));
    // Multiple keys are, though solely the first list of keys for the outputs is
    let extra =
        [[4, 1].as_slice(), &base(4), &[1], &base(1), &[1], &base(2), &[4, 1], &base(3)].concat();
    let expected = (vec![base(1), base(2)], Some(vec![base(4)]));
    assert_eq!(keys_of(&Extra::read(&extra)), Some(expected));
    assert_eq!(keys_of(&Extra::read(&[])), None);
    // Truncated
    assert_eq!(keys_of(&Extra::read(&[1, 2, 3])), None);
    // Not of a point
    let extra = [[1].as_slice(), &[2; 1], &[0; 31], &[1], &base(1)].concat();
    assert_eq!(keys_of(&Extra::read(&extra)), None);
    // Past merge-mining data, and Minergate's field
    let extra = [[3, 33, 7].as_slice(), &[5; 32], &[0xde, 2, 1, 2], &[1], &base(1)].concat();
    assert_eq!(keys_of(&Extra::read(&extra)), Some((vec![base(1)], None)));
    // Padding is solely read if it's last
    let extra = [[0, 0].as_slice(), &[1], &base(1)].concat();
    assert_eq!(keys_of(&Extra::read(&extra)), None);
}

#[test]
fn payment_ids_are_solely_the_first_nonce() {
    let encrypted = [2, 9, 1, 1, 2, 3, 4, 5, 6, 7, 8];
    let id = PaymentId::Encrypted([1, 2, 3, 4, 5, 6, 7, 8]);
    assert_eq!(Extra::read(&encrypted).payment_id(), Some(id));
    let unencrypted = [[2, 33, 0].as_slice(), &[4; 32]].concat();
    assert_eq!(Extra::read(&unencrypted).payment_id(), Some(PaymentId::Unencrypted([4; 32])));
    assert_eq!(Extra::read(&[&[2, 1, 7], encrypted.as_slice()].concat()).payment_id(), None);
    assert_eq!(Extra::read(&[2, 8, 1, 1, 2, 3, 4, 5, 6, 7]).payment_id(), None);
    assert_eq!(Extra::read(&[]).payment_id(), None);
    assert_eq!(id.decrypted(&[1; 8]), PaymentId::Encrypted([0, 3, 2, 5, 4, 7, 6, 9]));
    assert_eq!(id.decrypted(&[1; 8]).decrypted(&[1; 8]), id);
    let id = PaymentId::Unencrypted([4; 32]);
    assert_eq!(id.decrypted(&[1; 8]), id);
}

#[test]
fn arbitrary_data_past_what_is_relayed_is_not_read() {
    let mut extra = vec![];
    for _ in 0..5 {
        extra.extend([2, 0xfa, 0x01, 127]);
        extra.extend([6; 249]);
    }
    let data = Extra::read(&extra).arbitrary_data();
    // The fifth field ends past the amount nodes relay
    assert_eq!(data.len(), 4);
    assert_eq!(data[0], vec![6; 249]);
}

/// A profiler which profiled one commitment to verify.
fn profiled(enabled: bool) -> ScannerMicroprof {
    let mut prof = ScannerMicroprof::new(enabled);
    let derivations = SharedKeyDerivations { view_tag: 0, shared_key: Scalar::from_u64(6) };
    let proofs = PrunedRctProofs {
        rct_type: RctType::ClsagBulletproof,
        base: RctBase {
            fee: 0,
            pseudo_outs: vec![],
            encrypted_amounts: vec![EncryptedAmount::Compact { amount: [1; 8] }],
            commitments: vec![],
        },
    };
    assert!(settle(None, Some(&proofs), 0, &derivations, &mut prof).ok().unwrap().is_none());
    prof
}

#[test]
fn profilers_absorb_each_other() {
    let mut prof = profiled(true);
    prof.absorb(&profiled(true));
    prof.absorb(&profiled(false));
    let other = scanner_microprof_snapshot(&mut profiled(true), false).unwrap();
    assert_eq!(other.commitment_verify_attempts, 1);
    let snapshot = scanner_microprof_snapshot(&mut prof, false).unwrap();
    assert_eq!(snapshot.commitment_verify_attempts, 2);
    assert_eq!(snapshot.commitment_verify_fail, 2);
    assert!(snapshot.ns_commitment_verify > 0);
    let mut disabled = profiled(false);
    disabled.absorb(&prof);
    assert!(scanner_microprof_snapshot(&mut disabled, false).is_none());
}

fn digest(data: &[u8]) -> [u8; 32] {
    Keccak256::digest(data).into()
}

#[test]
fn ringct_transactions_are_hashed_in_parts() {
    let prefix = || TransactionPrefix {
        additional_timelock: Timelock::Time(300),
        inputs: vec![Input::ToKey { amount: None, key_offsets: vec![5, 200], key_image: [9; 32] }],
        outputs: vec![Output { amount: None, key: [8; 32], view_tag: Some(77) }],
        extra: vec![1, 2, 3],
    };
    let serialized = [
        [2, 0xac, 2, 1, 2, 0, 2, 5, 0xc8, 1].as_slice(),
        &[9; 32],
        &[1, 0, 3],
        &[8; 32],
        &[77, 3, 1, 2, 3],
    ]
    .concat();
    let prefix_hash = digest(&serialized);

    let tx = FullTransaction {
        pruned: Transaction::V2 { prefix: prefix(), proofs: None },
        prunable: vec![],
    };
    assert_eq!(tx.hash(), digest(&[prefix_hash, digest(&[0]), [0; 32]].concat()));

    let proofs = |rct_type: RctType, amount: EncryptedAmount| PrunedRctProofs {
        rct_type,
        base: RctBase {
            fee: 128,
            pseudo_outs: vec![],
            encrypted_amounts: vec![amount],
            commitments: vec![[6; 32]],
        },
    };
    let amount = EncryptedAmount::Compact { amount: [4; 8] };
    let tx = FullTransaction {
        pruned: Transaction::V2 {
            prefix: prefix(),
            proofs: Some(proofs(RctType::ClsagBulletproofPlus, amount)),
        },
        prunable: vec![1, 2],
    };
    let base_hash = digest(&[[6, 0x80, 1].as_slice(), &[4; 8], &[6; 32]].concat());
    assert_eq!(tx.hash(), digest(&[prefix_hash, base_hash, digest(&[1, 2])].concat()));

    let amount = EncryptedAmount::Original { mask: [3; 32], amount: [4; 32] };
    let tx = FullTransaction {
        pruned: Transaction::V2 {
            prefix: prefix(),
            proofs: Some(proofs(RctType::AggregateMlsagBorromean, amount)),
        },
        prunable: vec![],
    };
    let base_hash = digest(&[[1, 0x80, 1].as_slice(), &[3; 32], &[4; 32], &[6; 32]].concat());
    assert_eq!(tx.hash(), digest(&[prefix_hash, base_hash, digest(&[])].concat()));
}
