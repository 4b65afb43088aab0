use curve25519_dalek::constants::ED25519_BASEPOINT_TABLE;
use curve25519_dalek::edwards::{CompressedEdwardsY, EdwardsPoint};
use curve25519_dalek::scalar::Scalar as DalekScalar;
use sha3::{Digest, Keccak256};

use monero_scan::address::SubaddressIndex;
use monero_scan::block::{Block, BlockHeader, ScannableBlock};
use monero_scan::ed25519::{Point, Scalar, H, IDENTITY};
use monero_scan::error::ScanError;
use monero_scan::extra::{Extra, PaymentId};
use monero_scan::microprof::{
    scanner_microprof_snapshot, ScannerMicroprof, ScannerMicroprofSnapshot,
};
use monero_scan::output::WalletOutput;
use monero_scan::scan::{GuaranteedScanner, InternalScanner, Scanner};
use monero_scan::transaction::{
    EncryptedAmount, FullTransaction, Input, Output, PrunedRctProofs, RctBase, RctType, Timelock,
    Transaction, TransactionPrefix,
};
use monero_scan::view_pair::{GuaranteedViewPair, ViewPair};

fn keccak(data: &[u8]) -> [u8; 32] {
    Keccak256::digest(data).into()
}

fn hash_to_scalar(data: &[u8]) -> DalekScalar {
    DalekScalar::from_bytes_mod_order(keccak(data))
}

fn base(scalar: &DalekScalar) -> EdwardsPoint {
    scalar * ED25519_BASEPOINT_TABLE
}

fn spend_secret() -> DalekScalar {
    hash_to_scalar(b"the private spend key")
}

fn view_secret() -> DalekScalar {
    hash_to_scalar(b"the private view key")
}

fn tx_secret() -> DalekScalar {
    hash_to_scalar(b"the private transaction key")
}

fn spend_key() -> EdwardsPoint {
    base(&spend_secret())
}

fn pair() -> ViewPair {
    ViewPair::new(
        Point::decompress(&spend_key().compress().to_bytes()).unwrap(),
        Scalar::from_bytes_mod_order(view_secret().to_bytes()),
    )
}

fn scanner() -> Scanner {
    Scanner::new(pair())
}

fn subaddress_offset(account: u32, address: u32) -> DalekScalar {
    let mut data = b"SubAddr\0".to_vec();
    data.extend(view_secret().to_bytes());
    data.extend(account.to_le_bytes());
    data.extend(address.to_le_bytes());
    hash_to_scalar(&data)
}

/// What the sender derives for an output, given the secret shared with the recipient.
struct Derived {
    secret: [u8; 32],
    view_tag: u8,
    shared_key: DalekScalar,
}

fn derive(ecdh: EdwardsPoint, o: u8, uniqueness: &[u8]) -> Derived {
    let secret = ecdh.mul_by_cofactor().compress().to_bytes();
    let mut derivation = secret.to_vec();
    derivation.push(o);
    let view_tag = keccak(&[b"view_tag".as_slice(), &derivation].concat())[0];
    Derived {
        secret,
        view_tag,
        shared_key: hash_to_scalar(&[uniqueness, &derivation].concat()),
    }
}

/// The secret shared with the primary address.
fn primary_ecdh() -> EdwardsPoint {
    base(&view_secret()) * tx_secret()
}

fn tx_key() -> [u8; 32] {
    base(&tx_secret()).compress().to_bytes()
}

fn compact(derived: &Derived, amount: u64) -> (EncryptedAmount, [u8; 32], DalekScalar) {
    let shared_key = derived.shared_key.to_bytes();
    let pad = keccak(&[b"amount".as_slice(), &shared_key].concat());
    let mut encrypted = amount.to_le_bytes();
    for i in 0..8 {
        encrypted[i] ^= pad[i];
    }
    let mask = hash_to_scalar(&[b"commitment_mask".as_slice(), &shared_key].concat());
    (EncryptedAmount::Compact { amount: encrypted }, commit(&mask, amount), mask)
}

fn commit(mask: &DalekScalar, amount: u64) -> [u8; 32] {
    let h = CompressedEdwardsY(H).decompress().unwrap();
    (base(mask) + (h * DalekScalar::from(amount))).compress().to_bytes()
}

/// Outputs to be within one transaction.
struct Outputs {
    outputs: Vec<Output>,
    encrypted_amounts: Vec<EncryptedAmount>,
    commitments: Vec<[u8; 32]>,
}

impl Outputs {
    fn new() -> Outputs {
        Outputs { outputs: vec![], encrypted_amounts: vec![], commitments: vec![] }
    }

    fn push(&mut self, derived: &Derived, spend: EdwardsPoint, amount: u64) {
        let (encrypted, commitment, _) = compact(derived, amount);
        self.outputs.push(Output {
            amount: None,
            key: (spend + base(&derived.shared_key)).compress().to_bytes(),
            view_tag: Some(derived.view_tag),
        });
        self.encrypted_amounts.push(encrypted);
        self.commitments.push(commitment);
    }

    /// An output to the primary address, of this amount.
    fn push_ours(&mut self, amount: u64) {
        let o = u8::try_from(self.outputs.len()).unwrap();
        self.push(&derive(primary_ecdh(), o, &[]), spend_key(), amount);
    }

    /// An output to someone else.
    fn push_theirs(&mut self) {
        let o = u8::try_from(self.outputs.len()).unwrap();
        self.push(&derive(primary_ecdh(), o, &[]), base(&hash_to_scalar(b"someone else")), 7);
    }

    fn transaction(self, extra: Vec<u8>) -> Transaction {
        Transaction::V2 {
            prefix: TransactionPrefix {
                additional_timelock: Timelock::Absent,
                inputs: inputs(),
                outputs: self.outputs,
                extra,
            },
            proofs: Some(PrunedRctProofs {
                rct_type: RctType::ClsagBulletproofPlus,
                base: RctBase {
                    fee: 1,
                    pseudo_outs: vec![],
                    encrypted_amounts: self.encrypted_amounts,
                    commitments: self.commitments,
                },
            }),
        }
    }
}

fn inputs() -> Vec<Input> {
    vec![Input::ToKey { amount: None, key_offsets: vec![5, 1], key_image: [9; 32] }]
}

fn extra() -> Vec<u8> {
    [[1].as_slice(), &tx_key()].concat()
}

/// A transaction with one output to the primary address.
fn payment(amount: u64, extra: Vec<u8>) -> Transaction {
    let mut outputs = Outputs::new();
    outputs.push_ours(amount);
    outputs.transaction(extra)
}

fn with_timelock(mut tx: Transaction, timelock: Timelock) -> Transaction {
    if let Transaction::V2 { prefix, .. } = &mut tx {
        prefix.additional_timelock = timelock;
    }
    tx
}

fn first_output(tx: &mut Transaction) -> &mut Output {
    match tx {
        Transaction::V1 { prefix } => &mut prefix.outputs[0],
        Transaction::V2 { prefix, .. } => &mut prefix.outputs[0],
    }
}

fn proofs(tx: &mut Transaction) -> &mut Option<PrunedRctProofs> {
    match tx {
        Transaction::V1 { .. } => panic!("a transaction before RingCT"),
        Transaction::V2 { proofs, .. } => proofs,
    }
}

/// A miner transaction of this version, with one output to someone else.
fn miner(version: u8) -> FullTransaction {
    let prefix = TransactionPrefix {
        additional_timelock: Timelock::Block(60),
        inputs: vec![Input::Gen(5)],
        outputs: vec![Output { amount: Some(3), key: tx_key(), view_tag: None }],
        extra: vec![],
    };
    let pruned = match version {
        1 => Transaction::V1 { prefix },
        _ => Transaction::V2 { prefix, proofs: None },
    };
    FullTransaction { pruned, prunable: vec![] }
}

fn block(hardfork_version: u8, transactions: Vec<Transaction>) -> ScannableBlock {
    let mut hashes: Vec<[u8; 32]> = vec![];
    for i in 0..transactions.len() {
        hashes.push([u8::try_from(i).unwrap() + 100; 32]);
    }
    ScannableBlock {
        block: Block {
            header: BlockHeader { hardfork_version },
            miner_transaction: miner(2),
            transactions: hashes,
        },
        transactions,
        output_index_for_first_ringct_output: Some(1000),
    }
}

fn disabled() -> ScannerMicroprof {
    ScannerMicroprof::new(false)
}

fn scan(scanner: &mut Scanner, block: ScannableBlock) -> Vec<WalletOutput> {
    scanner.scan(block, &mut disabled()).ok().unwrap().ignore_additional_timelock()
}

fn scan_error(block: ScannableBlock) -> ScanError {
    scanner().scan(block, &mut disabled()).err().unwrap()
}

fn internal() -> InternalScanner {
    InternalScanner::new(pair(), false)
}

/// The outputs received from one transaction, whose first has the index 50.
fn scan_one(tx: &Transaction) -> Vec<WalletOutput> {
    let res = internal().scan_transaction(50, [4; 32], tx, &mut disabled());
    res.ok().unwrap().ignore_additional_timelock()
}

/// The private key of an output, from its key offset.
fn assert_spendable(output: &WalletOutput) {
    let offset = DalekScalar::from_bytes_mod_order(output.data.key_offset.to_bytes());
    assert_eq!(
        base(&(spend_secret() + offset)).compress().to_bytes(),
        output.data.key.compress(),
    );
}

#[test]
fn receives_outputs_to_the_primary_address() {
    let tx = payment(123_456, extra());
    let received = scan_one(&tx);
    assert_eq!(received.len(), 1);
    let output = &received[0];
    assert_eq!(output.absolute_id.transaction, [4; 32]);
    assert_eq!(output.absolute_id.index_in_transaction, 0);
    assert_eq!(output.relative_id.index_on_blockchain, 50);
    let derived = derive(primary_ecdh(), 0, &[]);
    let key = (spend_key() + base(&derived.shared_key)).compress().to_bytes();
    assert_eq!(output.data.key.compress(), key);
    assert_eq!(output.data.key_offset.to_bytes(), derived.shared_key.to_bytes());
    assert_spendable(output);
    assert_eq!(output.data.commitment.amount, 123_456);
    let (_, commitment, mask) = compact(&derived, 123_456);
    assert_eq!(output.data.commitment.mask.to_bytes(), mask.to_bytes());
    assert_eq!(output.data.commitment.commit().compress(), commitment);
    assert_eq!(output.metadata.additional_timelock, Timelock::Absent);
    assert_eq!(output.additional_timelock(), Timelock::Absent);
    assert_eq!(output.metadata.subaddress, None);
    assert_eq!(output.metadata.payment_id, None);
    assert!(output.metadata.arbitrary_data.is_empty());
}

#[test]
fn receives_each_output_once_and_in_order() {
    let mut outputs = Outputs::new();
    outputs.push_theirs();
    outputs.push_ours(1);
    outputs.push_theirs();
    outputs.push_ours(2);
    // The key is repeated, so every output is scanned with it thrice
    let tx = outputs.transaction([extra(), extra(), extra()].concat());
    let received = scan_one(&tx);
    assert_eq!(received.len(), 2);
    assert_eq!(received[0].absolute_id.index_in_transaction, 1);
    assert_eq!(received[0].relative_id.index_on_blockchain, 51);
    assert_eq!(received[0].data.commitment.amount, 1);
    assert_eq!(received[1].absolute_id.index_in_transaction, 3);
    assert_eq!(received[1].relative_id.index_on_blockchain, 53);
    assert_eq!(received[1].data.commitment.amount, 2);
    assert_spendable(&received[0]);
    assert_spendable(&received[1]);
}

/// A transaction to a subaddress, whose key is among the keys of its outputs if `additional`.
fn to_subaddress(account: u32, address: u32, additional: bool) -> Transaction {
    let offset = subaddress_offset(account, address);
    let spend = spend_key() + base(&offset);
    let key = spend * tx_secret();
    let ecdh = key * view_secret();
    let mut outputs = Outputs::new();
    outputs.push(&derive(ecdh, 0, &[]), spend, 88);
    let key = key.compress().to_bytes();
    let extra = if additional {
        let unrelated = base(&hash_to_scalar(b"unrelated")).compress().to_bytes();
        [[1].as_slice(), &unrelated, &[4, 1], &key].concat()
    } else {
        [[1].as_slice(), &key].concat()
    };
    outputs.transaction(extra)
}

#[test]
fn receives_outputs_to_registered_subaddresses() {
    for additional in [false, true] {
        let index = SubaddressIndex::new(2, 3).unwrap();
        let mut scanner = scanner();
        let received = scan(&mut scanner, block(16, vec![to_subaddress(2, 3, additional)]));
        assert!(received.is_empty());
        scanner.register_subaddress(SubaddressIndex::new(3, 2).unwrap());
        let received = scan(&mut scanner, block(16, vec![to_subaddress(2, 3, additional)]));
        assert!(received.is_empty());

        scanner.register_subaddress(index);
        let received = scan(&mut scanner, block(16, vec![to_subaddress(2, 3, additional)]));
        assert_eq!(received.len(), 1);
        assert_eq!(received[0].metadata.subaddress, Some(index));
        assert_eq!(received[0].data.commitment.amount, 88);
        assert_spendable(&received[0]);

        // Registering it again doesn't have it received twice
        scanner.register_subaddress(index);
        let received = scan(&mut scanner, block(16, vec![to_subaddress(2, 3, additional)]));
        assert_eq!(received.len(), 1);
        // The primary address is still scanned for
        assert_eq!(scan(&mut scanner, block(16, vec![payment(5, extra())])).len(), 1);
    }
}

#[test]
fn additional_keys_are_solely_for_their_outputs() {
    // The sole key the output was made with is the one for the second output
    let offset = subaddress_offset(1, 1);
    let spend = spend_key() + base(&offset);
    let key = spend * tx_secret();
    let mut outputs = Outputs::new();
    outputs.push(&derive(key * view_secret(), 0, &[]), spend, 88);
    let unrelated = base(&hash_to_scalar(b"unrelated")).compress().to_bytes();
    let key = key.compress().to_bytes();
    let tx = outputs.transaction([[1].as_slice(), &unrelated, &[4, 2], &unrelated, &key].concat());
    let mut scanner = internal();
    scanner.register_subaddress(SubaddressIndex::new(1, 1).unwrap());
    let res = scanner.scan_transaction(0, [0; 32], &tx, &mut disabled());
    assert!(res.ok().unwrap().ignore_additional_timelock().is_empty());
}

#[test]
fn ignores_transactions_without_a_key() {
    assert!(scan_one(&payment(1, vec![])).is_empty());
    // Solely keys for the outputs
    assert!(scan_one(&payment(1, [[4, 1].as_slice(), &tx_key()].concat())).is_empty());
    // Reading stops at the first field which can't be read
    assert!(scan_one(&payment(1, [[0xff].as_slice(), &extra()].concat())).is_empty());
    assert_eq!(scan_one(&payment(1, [extra().as_slice(), &[0xff]].concat())).len(), 1);
}

#[test]
fn view_tags_decide_if_present() {
    let mut tx = payment(1, extra());
    let tag = first_output(&mut tx).view_tag.unwrap();
    first_output(&mut tx).view_tag = Some(tag.wrapping_add(1));
    assert!(scan_one(&tx).is_empty());
    first_output(&mut tx).view_tag = None;
    assert_eq!(scan_one(&tx).len(), 1);
}

#[test]
fn miner_outputs_have_their_amount_declared() {
    let mut tx = payment(1, extra());
    first_output(&mut tx).amount = Some(600_000);
    *proofs(&mut tx) = None;
    let received = scan_one(&tx);
    assert_eq!(received.len(), 1);
    assert_eq!(received[0].data.commitment.amount, 600_000);
    assert_eq!(received[0].data.commitment.mask.to_bytes(), DalekScalar::ONE.to_bytes());
}

#[test]
fn miner_transactions_are_scanned_with_their_hash() {
    let mut tx = payment(1, extra());
    first_output(&mut tx).amount = Some(600_000);
    *proofs(&mut tx) = None;
    let mut this = block(16, vec![payment(2, extra())]);
    this.block.miner_transaction = FullTransaction { pruned: tx, prunable: vec![] };
    let hash = this.block.miner_transaction.hash();
    let received = scan(&mut scanner(), this);
    assert_eq!(received.len(), 2);
    assert_eq!(received[0].absolute_id.transaction, hash);
    assert_eq!(received[0].relative_id.index_on_blockchain, 1000);
    assert_eq!(received[1].absolute_id.transaction, [100; 32]);
    assert_eq!(received[1].relative_id.index_on_blockchain, 1001);
}

#[test]
fn amounts_must_be_the_ones_committed_to() {
    let mut tx = payment(1, extra());
    proofs(&mut tx).as_mut().unwrap().base.commitments[0] = commit(&DalekScalar::ONE, 1);
    assert!(scan_one(&tx).is_empty());
    proofs(&mut tx).as_mut().unwrap().base.commitments.clear();
    assert!(scan_one(&tx).is_empty());
}

#[test]
fn amounts_in_the_original_format_are_decrypted() {
    let derived = derive(primary_ecdh(), 0, &[]);
    let mask = hash_to_scalar(b"a mask");
    let mask_pad = hash_to_scalar(&derived.shared_key.to_bytes());
    let amount_pad = hash_to_scalar(&mask_pad.to_bytes());
    let amount: u64 = 9_876_543_210;
    let mut tx = payment(1, extra());
    let base = &mut proofs(&mut tx).as_mut().unwrap().base;
    base.encrypted_amounts[0] = EncryptedAmount::Original {
        mask: (mask + mask_pad).to_bytes(),
        amount: (DalekScalar::from(amount) + amount_pad).to_bytes(),
    };
    base.commitments[0] = commit(&mask, amount);
    let received = scan_one(&tx);
    assert_eq!(received.len(), 1);
    assert_eq!(received[0].data.commitment.amount, amount);
    assert_eq!(received[0].data.commitment.mask.to_bytes(), mask.to_bytes());
}

#[test]
fn non_miner_transactions_must_have_proofs() {
    let mut tx = payment(1, extra());
    *proofs(&mut tx) = None;
    let error = scan_error(block(16, vec![tx]));
    let reason = "non-miner v2 transaction without RCT proofs";
    assert_eq!(error, ScanError::InvalidScannableBlock(reason));
}

#[test]
fn proofs_must_have_an_encrypted_amount_per_output() {
    let mut tx = payment(1, extra());
    proofs(&mut tx).as_mut().unwrap().base.encrypted_amounts.clear();
    let error = scan_error(block(16, vec![tx]));
    let reason = "RCT proofs without an encrypted amount per output";
    assert_eq!(error, ScanError::InvalidScannableBlock(reason));
    // Solely outputs received have their amounts looked up
    let mut outputs = Outputs::new();
    outputs.push_theirs();
    let mut tx = outputs.transaction(extra());
    proofs(&mut tx).as_mut().unwrap().base.encrypted_amounts.clear();
    assert!(scan_one(&tx).is_empty());
}

#[test]
fn indexes_of_outputs_must_be_representable() {
    let mut outputs = Outputs::new();
    outputs.push_theirs();
    outputs.push_ours(1);
    let tx = outputs.transaction(extra());
    let res = internal().scan_transaction(u64::MAX - 1, [0; 32], &tx, &mut disabled());
    let received = res.ok().unwrap().ignore_additional_timelock();
    assert_eq!(received[0].relative_id.index_on_blockchain, u64::MAX);
    let res = internal().scan_transaction(u64::MAX, [0; 32], &tx, &mut disabled());
    let reason = "transaction's output's index isn't representable as a u64";
    assert_eq!(res.err().unwrap(), ScanError::InvalidScannableBlock(reason));
}

#[test]
fn indexes_past_a_block_must_be_representable() {
    let mut this = block(16, vec![]);
    this.output_index_for_first_ringct_output = Some(u64::MAX);
    let reason = "RingCT output indexes exceeded u64::MAX";
    assert_eq!(scan_error(this), ScanError::InvalidScannableBlock(reason));
    // A transaction from before RingCT doesn't have RingCT outputs
    let mut this = block(16, vec![]);
    this.block.miner_transaction = miner(1);
    this.output_index_for_first_ringct_output = Some(u64::MAX);
    assert!(scan(&mut scanner(), this).is_empty());
}

#[test]
fn blocks_must_have_their_transactions() {
    let reason = "scanning a ScannableBlock with more/less transactions than it should have";
    let mut this = block(17, vec![payment(1, extra())]);
    this.transactions.clear();
    this.output_index_for_first_ringct_output = None;
    assert_eq!(scan_error(this), ScanError::InvalidScannableBlock(reason));
    let mut this = block(16, vec![payment(1, extra())]);
    this.transactions.push(payment(1, extra()));
    assert_eq!(scan_error(this), ScanError::InvalidScannableBlock(reason));
}

#[test]
fn blocks_must_be_of_a_supported_protocol() {
    assert_eq!(scan_error(block(17, vec![])), ScanError::UnsupportedProtocol(17));
    assert_eq!(scan_error(block(255, vec![])), ScanError::UnsupportedProtocol(255));
    assert_eq!(scan(&mut scanner(), block(16, vec![payment(1, extra())])).len(), 1);
}

#[test]
fn blocks_without_ringct_outputs_yield_nothing() {
    let mut this = block(17, vec![payment(1, extra())]);
    this.output_index_for_first_ringct_output = None;
    assert!(scan(&mut scanner(), this).is_empty());
}

#[test]
fn transactions_before_ringct_yield_nothing() {
    let v1 = match payment(1, extra()) {
        Transaction::V2 { prefix, .. } => Transaction::V1 { prefix },
        v1 => v1,
    };
    let received = scan(&mut scanner(), block(16, vec![v1, payment(2, extra())]));
    assert_eq!(received.len(), 1);
    assert_eq!(received[0].absolute_id.transaction, [101; 32]);
    // The miner transaction's output is followed by this one, without those before RingCT
    assert_eq!(received[0].relative_id.index_on_blockchain, 1001);
}

#[test]
fn blocks_are_scanned_in_order() {
    let mut outputs = Outputs::new();
    outputs.push_ours(1);
    outputs.push_theirs();
    outputs.push_ours(2);
    let first = outputs.transaction(extra());
    let second = payment(3, extra());
    let received = scan(&mut scanner(), block(16, vec![first, second]));
    let mut found: Vec<(u8, u64, u64, u64)> = vec![];
    for output in &received {
        found.push((
            output.absolute_id.transaction[0],
            output.absolute_id.index_in_transaction,
            output.relative_id.index_on_blockchain,
            output.data.commitment.amount,
        ));
    }
    assert_eq!(found, vec![(100, 0, 1001, 1), (100, 2, 1003, 2), (101, 0, 1004, 3)]);
}

#[test]
fn the_identity_is_never_received() {
    // A spend key such that the output's key is the identity
    let derived = derive(primary_ecdh(), 0, &[]);
    let spend = base(&-derived.shared_key);
    let pair = ViewPair::new(
        Point::decompress(&spend.compress().to_bytes()).unwrap(),
        Scalar::from_bytes_mod_order(view_secret().to_bytes()),
    );
    let mut outputs = Outputs::new();
    outputs.push(&derived, spend, 1);
    let tx = outputs.transaction(extra());
    assert_eq!(tx.prefix().outputs[0].key, IDENTITY);
    let scanner = InternalScanner::new(pair, false);
    let res = scanner.scan_transaction(0, [0; 32], &tx, &mut disabled());
    assert!(res.ok().unwrap().ignore_additional_timelock().is_empty());
}

#[test]
fn keys_which_are_not_points_are_skipped() {
    let mut tx = payment(1, extra());
    // Two isn't the Y coordinate of any point
    let mut key = [0; 32];
    key[0] = 2;
    first_output(&mut tx).key = key;
    assert!(scan_one(&tx).is_empty());
    // An unreduced encoding of the identity
    let mut key = [0xff; 32];
    key[0] = 0xee;
    key[31] = 0x7f;
    first_output(&mut tx).key = key;
    assert!(scan_one(&tx).is_empty());
}

fn encrypted_payment_id(id: [u8; 8]) -> Vec<u8> {
    let derived = derive(primary_ecdh(), 0, &[]);
    let pad = keccak(&[derived.secret.as_slice(), &[0x8d]].concat());
    let mut encrypted = id;
    for i in 0..8 {
        encrypted[i] ^= pad[i];
    }
    [extra().as_slice(), &[2, 9, 1], &encrypted].concat()
}

#[test]
fn encrypted_payment_ids_are_decrypted() {
    let id = [1, 2, 3, 4, 5, 6, 7, 8];
    for hardfork in [11, 12, 16] {
        let tx = payment(1, encrypted_payment_id(id));
        let received = scan(&mut scanner(), block(hardfork, vec![tx]));
        assert_eq!(received[0].metadata.payment_id, Some(PaymentId::Encrypted(id)));
    }
}

#[test]
fn unencrypted_payment_ids_are_dropped_as_of_version_12() {
    let extra = [extra().as_slice(), &[2, 33, 0], &[6; 32]].concat();
    let received = scan(&mut scanner(), block(11, vec![payment(1, extra.clone())]));
    assert_eq!(received[0].metadata.payment_id, Some(PaymentId::Unencrypted([6; 32])));
    let received = scan(&mut scanner(), block(12, vec![payment(1, extra.clone())]));
    assert_eq!(received[0].metadata.payment_id, None);
    // Transactions by themselves aren't of any version
    let received = scan_one(&payment(1, extra));
    assert_eq!(received[0].metadata.payment_id, Some(PaymentId::Unencrypted([6; 32])));
}

#[test]
fn arbitrary_data_is_relayed() {
    let extra = [extra().as_slice(), &[2, 4, 127, 1, 2, 3], &[2, 1, 127], &[2, 1, 5]].concat();
    let received = scan_one(&payment(1, extra));
    assert_eq!(received[0].metadata.arbitrary_data, vec![vec![1, 2, 3], vec![]]);
}

#[test]
fn timelocks_lock_outputs() {
    let transactions = || {
        vec![
            with_timelock(payment(1, extra()), Timelock::Absent),
            with_timelock(payment(2, extra()), Timelock::Block(100)),
            with_timelock(payment(3, extra()), Timelock::Time(1_600_000_000)),
        ]
    };
    let scanned =
        || scanner().scan(block(16, transactions()), &mut disabled()).ok().unwrap();
    let amounts = |outputs: Vec<WalletOutput>| -> Vec<u64> {
        outputs.iter().map(|output| output.data.commitment.amount).collect()
    };
    assert_eq!(amounts(scanned().ignore_additional_timelock()), vec![1, 2, 3]);
    assert_eq!(amounts(scanned().not_additionally_locked()), vec![1]);
    assert_eq!(amounts(scanned().additional_timelock_satisfied_by(99, 1_599_999_999)), vec![1]);
    assert_eq!(amounts(scanned().additional_timelock_satisfied_by(100, 0)), vec![1, 2]);
    assert_eq!(amounts(scanned().additional_timelock_satisfied_by(0, 1_600_000_000)), vec![1, 3]);
    assert_eq!(
        amounts(scanned().additional_timelock_satisfied_by(usize::MAX, u64::MAX)),
        vec![1, 2, 3],
    );
    let mut zeroized = scanned();
    zeroized.zeroize();
    assert!(zeroized.ignore_additional_timelock().is_empty());
}

#[test]
fn guaranteed_outputs_depend_on_the_inputs() {
    let uniqueness = keccak(&[b"uniqueness".as_slice(), &[9; 32]].concat());
    let guaranteed = || {
        let mut outputs = Outputs::new();
        outputs.push(&derive(primary_ecdh(), 0, &uniqueness), spend_key(), 4);
        outputs.transaction(extra())
    };
    let spend = Point::decompress(&spend_key().compress().to_bytes()).unwrap();
    let view = Scalar::from_bytes_mod_order(view_secret().to_bytes());
    let mut scanner = GuaranteedScanner::new(GuaranteedViewPair::new(spend, view));
    let transactions = vec![guaranteed(), payment(5, extra())];
    let received = scanner.scan(block(16, transactions), &mut disabled()).ok().unwrap();
    let received = received.ignore_additional_timelock();
    assert_eq!(received.len(), 1);
    assert_eq!(received[0].data.commitment.amount, 4);
    assert_spendable(&received[0]);
    // Nor is a guaranteed output received otherwise
    assert!(scan_one(&guaranteed()).is_empty());
    // The same output of a transaction with other inputs isn't received
    let mut replayed = guaranteed();
    if let Transaction::V2 { prefix, .. } = &mut replayed {
        prefix.inputs =
            vec![Input::ToKey { amount: None, key_offsets: vec![], key_image: [8; 32] }];
    }
    let received = scanner.scan(block(16, vec![replayed]), &mut disabled()).ok().unwrap();
    assert!(received.ignore_additional_timelock().is_empty());
    // Subaddresses are registered, and forgotten
    scanner.register_subaddress(SubaddressIndex::new(0, 1).unwrap());
    let mut cloned = scanner.clone();
    scanner.zeroize();
    let received = scanner.scan(block(16, vec![guaranteed()]), &mut disabled()).ok().unwrap();
    assert!(received.ignore_additional_timelock().is_empty());
    let received = cloned.scan(block(16, vec![guaranteed()]), &mut disabled()).ok().unwrap();
    assert_eq!(received.ignore_additional_timelock().len(), 1);
}

#[test]
fn uniqueness_of_miner_transactions_is_their_block() {
    let uniqueness = keccak(&[b"uniqueness".as_slice(), &[0xac, 0x02]].concat());
    let mut outputs = Outputs::new();
    outputs.push(&derive(primary_ecdh(), 0, &uniqueness), spend_key(), 4);
    let mut tx = outputs.transaction(extra());
    if let Transaction::V2 { prefix, .. } = &mut tx {
        prefix.inputs = vec![Input::Gen(300)];
    }
    let scanner = InternalScanner::new(pair(), true);
    let res = scanner.scan_transaction(0, [0; 32], &tx, &mut disabled());
    assert_eq!(res.ok().unwrap().ignore_additional_timelock().len(), 1);
}

#[test]
fn scanning_leaves_scanners_as_they_were() {
    let mut scanner = scanner();
    for _ in 0..3 {
        assert_eq!(scan(&mut scanner, block(16, vec![payment(1, extra())])).len(), 1);
    }
    let mut cloned = scanner.clone();
    scanner.zeroize();
    assert!(scan(&mut scanner, block(16, vec![payment(1, extra())])).is_empty());
    assert_eq!(scan(&mut cloned, block(16, vec![payment(1, extra())])).len(), 1);
}

fn assert_balanced(s: &ScannerMicroprofSnapshot) {
    assert!(s.outputs_matched <= s.outputs_visited);
    assert!(s.commitment_verify_fail <= s.commitment_verify_attempts);
    let ended = s.outputs_matched + s.viewtag_mismatch + s.commitment_verify_fail;
    assert!(ended <= s.ecdh_derivations);
    assert!(s.ecdh_cache_misses <= s.ecdh_derivations);
    assert!(s.ecdh_derivations <= s.ecdh_cache_hits + s.ecdh_cache_misses);
    assert!(s.extra_parse_fail + s.tx_keys_missing <= s.txs_scanned);
}

#[test]
fn scanning_is_profiled() {
    let mut prof = ScannerMicroprof::new(true);
    let mut outputs = Outputs::new();
    // Received with the first key
    outputs.push_ours(1);
    // With a view tag which mismatches for the one key, and isn't ours for the other
    outputs.push_theirs();
    // Not of the amount committed to
    outputs.push_ours(2);
    let mut tx = outputs.transaction([extra(), extra()].concat());
    proofs(&mut tx).as_mut().unwrap().base.commitments[2] = [7; 32];
    if let Transaction::V2 { prefix, .. } = &mut tx {
        prefix.outputs.push(Output { amount: None, key: IDENTITY, view_tag: None });
        prefix.outputs[1].view_tag = prefix.outputs[1].view_tag.map(|tag| tag.wrapping_add(1));
    }
    let v1 = Transaction::V1 {
        prefix: TransactionPrefix {
            additional_timelock: Timelock::Absent,
            inputs: vec![],
            outputs: vec![],
            extra: vec![],
        },
    };
    let received = scanner().scan(block(16, vec![tx, v1]), &mut prof).ok().unwrap();
    assert_eq!(received.ignore_additional_timelock().len(), 1);
    let snapshot = scanner_microprof_snapshot(&mut prof, false).unwrap();
    assert_eq!(snapshot.blocks, 1);
    // The miner transaction and the one with keys
    assert_eq!(snapshot.txs_scanned, 2);
    assert_eq!(snapshot.tx_keys_missing, 1);
    assert_eq!(snapshot.extra_parse_fail, 0);
    assert_eq!(snapshot.outputs_visited, 4);
    // Once for the first output, twice for the second and third
    assert_eq!(snapshot.ecdh_derivations, 5);
    assert_eq!(snapshot.viewtag_mismatch, 2);
    assert_eq!(snapshot.commitment_verify_attempts, 3);
    assert_eq!(snapshot.commitment_verify_fail, 2);
    assert_eq!(snapshot.outputs_matched, 1);
    assert_eq!(snapshot.ecdh_cache_misses, 1);
    // One for each derivation but the first, and one more for each whose view tag matches
    assert_eq!(snapshot.ecdh_cache_hits, 4 + 3);
    assert_balanced(&snapshot);
    assert!(snapshot.ns_block_setup > 0);
    assert!(snapshot.ns_ecdh_mul > 0);
    assert!(snapshot.ns_output_derivations > 0);
    assert!(snapshot.ns_subaddress_lookup > 0);
    assert!(snapshot.ns_commitment_verify > 0);
    assert!(snapshot.ns_scan_transaction > snapshot.ns_ecdh_mul);

    let again = scanner_microprof_snapshot(&mut prof, true).unwrap();
    assert_eq!(again.ecdh_cache_hits, snapshot.ecdh_cache_hits);
    assert_eq!(again.ns_scan_transaction, snapshot.ns_scan_transaction);
    let reset = scanner_microprof_snapshot(&mut prof, false).unwrap();
    assert_eq!(reset.blocks, 0);
    assert_eq!(reset.ecdh_cache_hits, 0);
    assert_eq!(reset.ns_block_setup, 0);
    assert_eq!(reset.ns_scan_transaction, 0);
}

#[test]
fn disabled_profilers_have_no_snapshot() {
    let mut prof = disabled();
    scanner().scan(block(16, vec![payment(1, extra())]), &mut prof).ok().unwrap();
    assert!(scanner_microprof_snapshot(&mut prof, false).is_none());
    assert!(scanner_microprof_snapshot(&mut prof, true).is_none());
}

#[test]
fn failed_scans_are_profiled_until_they_fail() {
    let mut prof = ScannerMicroprof::new(true);
    let mut tx = payment(1, extra());
    *proofs(&mut tx) = None;
    let transactions = vec![tx, payment(1, extra())];
    assert!(scanner().scan(block(16, transactions), &mut prof).is_err());
    let snapshot = scanner_microprof_snapshot(&mut prof, true).unwrap();
    assert_eq!(snapshot.blocks, 1);
    assert_eq!(snapshot.txs_scanned, 2);
    assert_eq!(snapshot.outputs_visited, 1);
    assert_eq!(snapshot.outputs_matched, 0);
    assert_balanced(&snapshot);
    // An output whose index isn't representable was matched
    let res = internal().scan_transaction(u64::MAX, [0; 32], &payment(1, extra()), &mut prof);
    assert!(res.is_ok());
    let mut outputs = Outputs::new();
    outputs.push_theirs();
    outputs.push_ours(1);
    let tx = outputs.transaction(extra());
    assert!(internal().scan_transaction(u64::MAX, [0; 32], &tx, &mut prof).is_err());
    assert_eq!(scanner_microprof_snapshot(&mut prof, true).unwrap().outputs_matched, 2);
    // Blocks which aren't scanned aren't counted
    assert!(scanner().scan(block(17, vec![]), &mut prof).is_err());
    let mut this = block(16, vec![]);
    this.output_index_for_first_ringct_output = None;
    assert!(scanner().scan(this, &mut prof).is_ok());
    assert_eq!(scanner_microprof_snapshot(&mut prof, true).unwrap().blocks, 0);
}

#[test]
fn failed_scans_are_timed() {
    let mut prof = ScannerMicroprof::new(true);
    let mut tx = payment(1, extra());
    *proofs(&mut tx) = None;
    assert!(internal().scan_transaction(0, [0; 32], &tx, &mut prof).is_err());
    let snapshot = scanner_microprof_snapshot(&mut prof, true).unwrap();
    assert!(snapshot.ns_scan_transaction >= snapshot.ns_ecdh_mul);
    assert!(snapshot.ns_scan_transaction > 0);
    assert_eq!(snapshot.ns_block_setup, 0);
    assert_eq!(snapshot.ns_commitment_verify, 0);
    let mut scanner = scanner();
    for _ in 0..20 {
        assert!(scanner.scan(block(17, vec![]), &mut prof).is_err());
    }
    let snapshot = scanner_microprof_snapshot(&mut prof, true).unwrap();
    assert!(snapshot.ns_block_setup > 0);
    assert_eq!(snapshot.ns_scan_transaction, 0);
    for _ in 0..20 {
        let mut this = block(16, vec![]);
        this.block.transactions.push([0; 32]);
        assert!(scanner.scan(this, &mut prof).is_err());
    }
    assert!(scanner_microprof_snapshot(&mut prof, true).unwrap().ns_block_setup > 0);
}

#[test]
fn additional_data_which_was_not_read_is_counted() {
    let mut prof = ScannerMicroprof::new(true);
    let tx = payment(1, extra());
    let res = internal().scan_with_extra(0, [0; 32], &tx, None, &mut prof);
    assert!(res.ok().unwrap().ignore_additional_timelock().is_empty());
    let snapshot = scanner_microprof_snapshot(&mut prof, true).unwrap();
    assert_eq!(snapshot.txs_scanned, 1);
    assert_eq!(snapshot.extra_parse_fail, 1);
    assert_eq!(snapshot.tx_keys_missing, 0);
    let read = Extra::read(&extra());
    let res = internal().scan_with_extra(0, [0; 32], &tx, Some(&read), &mut prof);
    assert_eq!(res.ok().unwrap().ignore_additional_timelock().len(), 1);
}

#[test]
fn outputs_are_zeroized() {
    let mut received = scan_one(&payment(5, encrypted_payment_id([1; 8])));
    received[0].zeroize();
    let output = &received[0];
    assert_eq!(output.absolute_id.transaction, [0; 32]);
    assert_eq!(output.relative_id.index_on_blockchain, 0);
    assert_eq!(output.data.key.compress(), IDENTITY);
    assert_eq!(output.data.key_offset.to_bytes(), [0; 32]);
    assert_eq!(output.data.commitment.mask.to_bytes(), [0; 32]);
    assert_eq!(output.data.commitment.amount, 0);
    assert_eq!(output.metadata.payment_id, None);
}

#[test]
fn view_pairs_derive_subaddresses() {
    let pair = pair();
    let index = SubaddressIndex::new(7, 300).unwrap();
    let offset = subaddress_offset(7, 300);
    assert_eq!(pair.subaddress_derivation(index).to_bytes(), offset.to_bytes());
    let spend = spend_key() + base(&offset);
    let (spend_found, view_found) = pair.subaddress_keys(index);
    assert_eq!(spend_found.compress(), spend.compress().to_bytes());
    assert_eq!(view_found.compress(), (spend * view_secret()).compress().to_bytes());
    assert_eq!(pair.spend().compress(), spend_key().compress().to_bytes());
    assert_eq!(pair.view_key().to_bytes(), view_secret().to_bytes());
    let mut zeroized = pair.clone();
    zeroized.zeroize();
    assert_eq!(zeroized.spend().compress(), IDENTITY);
    assert_eq!(zeroized.view_key().to_bytes(), [0; 32]);
}
