//! The additional data of a transaction, in which wallets place keys and payment IDs.

use vstd::prelude::*;
use vstd::slice::slice_subrange;

use crate::bytes::{array_at, decode_varint_at_most, read_varint, vec_at, xor, xor_arrays};
use crate::ed25519::{is_canonical, Point};

verus! {

/// The tag of padding.
pub const PADDING_TAG: u8 = 0;

/// The tag of a public key.
pub const PUBLIC_KEY_TAG: u8 = 1;

/// The tag of a nonce.
pub const NONCE_TAG: u8 = 2;

/// The tag of merge-mining data.
pub const MERGE_MINING_TAG: u8 = 3;

/// The tag of a list of public keys, one per output.
pub const PUBLIC_KEYS_TAG: u8 = 4;

/// The tag Minergate uses for data without known meaning.
pub const MYSTERIOUS_MINERGATE_TAG: u8 = 0xDE;

/// The most padding there may be, in bytes.
pub const MAX_PADDING: usize = 255;

/// The longest a nonce may be, in bytes.
pub const MAX_NONCE: u64 = 255;

/// The first byte of a nonce which is an unencrypted payment ID.
pub const PAYMENT_ID_MARKER: u8 = 0;

/// The first byte of a nonce which is an encrypted payment ID.
pub const ENCRYPTED_PAYMENT_ID_MARKER: u8 = 1;

/// The first byte of a nonce which is arbitrary data.
pub const ARBITRARY_DATA_MARKER: u8 = 127;

/// The amount of additional data nodes relay a transaction with, in bytes.
pub const MAX_RELAYED: usize = 1060;

/// A payment ID.
#[derive(Clone, Copy, PartialEq, Eq, Debug)]
pub enum PaymentId {
    /// A deprecated form of payment ID, which isn't encrypted.
    Unencrypted([u8; 32]),
    /// A payment ID, which is encrypted until it's exclusively disjoined with the shared secret.
    Encrypted([u8; 8]),
}

/// The bytes of a payment ID, and which form it is of.
pub enum PaymentIdBytes {
    /// A payment ID which isn't encrypted.
    Unencrypted(Seq<u8>),
    /// A payment ID which is encrypted on the blockchain.
    Encrypted(Seq<u8>),
}

impl View for PaymentId {
    type V = PaymentIdBytes;

    open spec fn view(&self) -> PaymentIdBytes {
        match *self {
            PaymentId::Unencrypted(id) => PaymentIdBytes::Unencrypted(id@),
            PaymentId::Encrypted(id) => PaymentIdBytes::Encrypted(id@),
        }
    }
}

impl PaymentIdBytes {
    /// An encrypted payment ID exclusively disjoined with `pad`. An unencrypted one is unchanged.
    pub open spec fn decrypted(self, pad: Seq<u8>) -> PaymentIdBytes {
        match self {
            PaymentIdBytes::Unencrypted(id) => PaymentIdBytes::Unencrypted(id),
            PaymentIdBytes::Encrypted(id) => PaymentIdBytes::Encrypted(xor(id, pad)),
        }
    }
}

impl PaymentId {
    /// An encrypted payment ID exclusively disjoined with `pad`. An unencrypted one is unchanged.
    pub fn decrypted(&self, pad: &[u8; 8]) -> (res: PaymentId)
        ensures
            res@ == self@.decrypted(pad@),
    {
        match *self {
            PaymentId::Unencrypted(id) => PaymentId::Unencrypted(id),
            PaymentId::Encrypted(id) => PaymentId::Encrypted(xor_arrays(&id, pad)),
        }
    }
}

/// A field of the additional data.
pub enum ExtraField {
    /// This many bytes of padding.
    Padding(usize),
    /// The transaction's key.
    PublicKey(Point),
    /// A nonce.
    Nonce(Vec<u8>),
    /// The depth and root of a merge-mining tree.
    MergeMining(u64, [u8; 32]),
    /// A key for each output, when those of outputs to subaddresses are distinct.
    PublicKeys(Vec<Point>),
    /// Data without known meaning.
    MysteriousMinergate(Vec<u8>),
}

/// What a field of the additional data holds.
pub enum FieldContents {
    /// An amount of padding.
    Padding(nat),
    /// A key.
    PublicKey(Seq<u8>),
    /// A nonce.
    Nonce(Seq<u8>),
    /// The depth and root of a merge-mining tree.
    MergeMining(nat, Seq<u8>),
    /// A list of keys.
    PublicKeys(Seq<Seq<u8>>),
    /// Data without known meaning.
    MysteriousMinergate(Seq<u8>),
}

/// The encodings of a list of points.
pub open spec fn encodings(points: Seq<Point>) -> Seq<Seq<u8>> {
    points.map_values(|point: Point| point@)
}

impl View for ExtraField {
    type V = FieldContents;

    open spec fn view(&self) -> FieldContents {
        match *self {
            ExtraField::Padding(len) => FieldContents::Padding(len as nat),
            ExtraField::PublicKey(key) => FieldContents::PublicKey(key@),
            ExtraField::Nonce(nonce) => FieldContents::Nonce(nonce@),
            ExtraField::MergeMining(depth, root) => FieldContents::MergeMining(depth as nat, root@),
            ExtraField::PublicKeys(keys) => FieldContents::PublicKeys(encodings(keys@)),
            ExtraField::MysteriousMinergate(data) => FieldContents::MysteriousMinergate(data@),
        }
    }
}

/// The length-prefixed bytes `s` starts with, if of at most `max` bytes, and how many bytes they
/// take including their prefix.
pub open spec fn read_blob(s: Seq<u8>, max: nat) -> Option<(Seq<u8>, nat)> {
    match decode_varint_at_most(s, max) {
        Some((n, len)) if len + n <= s.len() => Some(
            (s.subrange(len as int, (len + n) as int), len + n),
        ),
        _ => None,
    }
}

/// The `n` points `s` starts with, if all are canonically encoded.
pub open spec fn read_points(s: Seq<u8>, n: nat) -> Option<Seq<Seq<u8>>> {
    let points = Seq::new(n, |i: int| s.subrange(32 * i, 32 * i + 32));
    if 32 * n <= s.len() && (forall|i: int| 0 <= i < n ==> is_canonical(#[trigger] points[i])) {
        Some(points)
    } else {
        None
    }
}

/// The field `s` starts with, and how many bytes it takes.
///
/// Padding runs until the end of the additional data.
pub open spec fn read_field(s: Seq<u8>) -> Option<(FieldContents, nat)> {
    let body = s.skip(1);
    if s.len() == 0 {
        None
    } else if s[0] == PADDING_TAG {
        if s.len() <= MAX_PADDING && (forall|i: int| 0 <= i < s.len() ==> #[trigger] s[i] == 0) {
            Some((FieldContents::Padding(s.len()), s.len()))
        } else {
            None
        }
    } else if s[0] == PUBLIC_KEY_TAG {
        match read_points(body, 1) {
            Some(points) => Some((FieldContents::PublicKey(points[0]), 33)),
            None => None,
        }
    } else if s[0] == NONCE_TAG {
        match read_blob(body, MAX_NONCE as nat) {
            Some((nonce, len)) => Some((FieldContents::Nonce(nonce), 1 + len)),
            None => None,
        }
    } else if s[0] == MERGE_MINING_TAG {
        match read_blob(body, u64::MAX as nat) {
            Some((blob, len)) => match decode_varint_at_most(blob, u64::MAX as nat) {
                Some((depth, depth_len)) if depth_len + 32 == blob.len() => Some(
                    (FieldContents::MergeMining(depth, blob.skip(depth_len as int)), 1 + len),
                ),
                _ => None,
            },
            None => None,
        }
    } else if s[0] == PUBLIC_KEYS_TAG {
        match decode_varint_at_most(body, u64::MAX as nat) {
            Some((n, len)) => match read_points(body.skip(len as int), n) {
                Some(points) => Some((FieldContents::PublicKeys(points), 1 + len + 32 * n)),
                None => None,
            },
            None => None,
        }
    } else if s[0] == MYSTERIOUS_MINERGATE_TAG {
        match read_blob(body, u64::MAX as nat) {
            Some((data, len)) => Some((FieldContents::MysteriousMinergate(data), 1 + len)),
            None => None,
        }
    } else {
        None
    }
}

/// The fields `s` holds, until one which can't be read.
pub open spec fn read_fields(s: Seq<u8>) -> Seq<FieldContents>
    decreases s.len(),
{
    match read_field(s) {
        Some((field, len)) if 1 <= len <= s.len() => seq![field] + read_fields(s.skip(len as int)),
        _ => Seq::empty(),
    }
}

/// The keys a transaction's additional data holds.
pub open spec fn public_keys(fields: Seq<FieldContents>) -> Seq<Seq<u8>>
    decreases fields.len(),
{
    if fields.len() == 0 {
        Seq::empty()
    } else {
        let rest = public_keys(fields.drop_last());
        match fields.last() {
            FieldContents::PublicKey(key) => rest.push(key),
            _ => rest,
        }
    }
}

/// The first list of keys, one per output, a transaction's additional data holds.
pub open spec fn additional_keys(fields: Seq<FieldContents>) -> Option<Seq<Seq<u8>>>
    decreases fields.len(),
{
    if fields.len() == 0 {
        None
    } else {
        match (additional_keys(fields.drop_last()), fields.last()) {
            (Some(keys), _) => Some(keys),
            (None, FieldContents::PublicKeys(keys)) => Some(keys),
            _ => None,
        }
    }
}

/// The first nonce a transaction's additional data holds.
pub open spec fn first_nonce(fields: Seq<FieldContents>) -> Option<Seq<u8>>
    decreases fields.len(),
{
    if fields.len() == 0 {
        None
    } else {
        match (first_nonce(fields.drop_last()), fields.last()) {
            (Some(nonce), _) => Some(nonce),
            (None, FieldContents::Nonce(nonce)) => Some(nonce),
            _ => None,
        }
    }
}

/// The payment ID a nonce is.
pub open spec fn nonce_payment_id(nonce: Seq<u8>) -> Option<PaymentIdBytes> {
    if nonce.len() == 33 && nonce[0] == PAYMENT_ID_MARKER {
        Some(PaymentIdBytes::Unencrypted(nonce.skip(1)))
    } else if nonce.len() == 9 && nonce[0] == ENCRYPTED_PAYMENT_ID_MARKER {
        Some(PaymentIdBytes::Encrypted(nonce.skip(1)))
    } else {
        None
    }
}

/// The payment ID a transaction's additional data holds, which solely its first nonce may be.
pub open spec fn payment_id_of(fields: Seq<FieldContents>) -> Option<PaymentIdBytes> {
    match first_nonce(fields) {
        Some(nonce) => nonce_payment_id(nonce),
        None => None,
    }
}

/// The arbitrary data among `fields`.
pub open spec fn arbitrary_data_of(fields: Seq<FieldContents>) -> Seq<Seq<u8>>
    decreases fields.len(),
{
    if fields.len() == 0 {
        Seq::empty()
    } else {
        let rest = arbitrary_data_of(fields.drop_last());
        match fields.last() {
            FieldContents::Nonce(nonce) if nonce.len() != 0 && nonce[0] == ARBITRARY_DATA_MARKER =>
                rest.push(nonce.skip(1)),
            _ => rest,
        }
    }
}

/// The part of the additional data which nodes would relay.
pub open spec fn relayed(s: Seq<u8>) -> Seq<u8> {
    if s.len() <= MAX_RELAYED {
        s
    } else {
        s.take(MAX_RELAYED as int)
    }
}

/// Read length-prefixed bytes of at most `max` bytes, as where they start and end.
fn blob_at(bytes: &[u8], pos: usize, max: u64) -> (res: Option<(usize, usize)>)
    requires
        pos <= bytes@.len(),
    ensures
        match res {
            Some((start, end)) => pos < start <= end <= bytes@.len() && read_blob(
                bytes@.skip(pos as int),
                max as nat,
            ) == Some((bytes@.subrange(start as int, end as int), (end - pos) as nat)),
            None => read_blob(bytes@.skip(pos as int), max as nat) is None,
        },
{
    let ghost s = bytes@.skip(pos as int);
    match read_varint(bytes, pos, max) {
        Some((n, start)) => {
            if n <= (bytes.len() - start) as u64 {
                let end: usize = start + n as usize;
                assert(s.subrange(start - pos, end - pos) =~= bytes@.subrange(
                    start as int,
                    end as int,
                ));
                Some((start, end))
            } else {
                None
            }
        },
        None => None,
    }
}

/// Read `n` canonically encoded points.
fn points_at(bytes: &[u8], pos: usize, n: u64) -> (res: Option<Vec<Point>>)
    requires
        pos <= bytes@.len(),
    ensures
        match res {
            Some(points) => read_points(bytes@.skip(pos as int), n as nat) == Some(
                encodings(points@),
            ) && pos + 32 * n <= bytes@.len(),
            None => read_points(bytes@.skip(pos as int), n as nat) is None,
        },
{
    let ghost s = bytes@.skip(pos as int);
    let ghost expected = Seq::new(n as nat, |i: int| s.subrange(32 * i, 32 * i + 32));
    if n > (bytes.len() - pos) as u64 / 32 {
        return None;
    }
    let mut points: Vec<Point> = Vec::new();
    let mut i: usize = 0;
    while i < n as usize
        invariant
            i <= n,
            n <= usize::MAX,
            pos <= bytes.len(),
            32 * n <= bytes.len() - pos,
            s == bytes@.skip(pos as int),
            expected == Seq::new(n as nat, |i: int| s.subrange(32 * i, 32 * i + 32)),
            encodings(points@) == expected.take(i as int),
            forall|j: int| 0 <= j < i ==> is_canonical(#[trigger] expected[j]),
        decreases n - i,
    {
        let encoding: [u8; 32] = array_at(bytes, pos + 32 * i);
        assert(encoding@ =~= expected[i as int]);
        match Point::decompress(&encoding) {
            Some(point) => {
                let ghost before = points@;
                points.push(point);
                assert(encodings(points@) =~= encodings(before).push(encoding@));
                assert(expected.take(i + 1) =~= expected.take(i as int).push(encoding@));
            },
            None => {
                return None;
            },
        }
        i += 1;
    }
    assert(expected.take(n as int) =~= expected);
    Some(points)
}

/// If every byte from `pos` on is zero.
fn zero_from(bytes: &[u8], pos: usize) -> (res: bool)
    requires
        pos <= bytes@.len(),
    ensures
        res == forall|i: int| 0 <= i < bytes@.len() - pos ==> #[trigger] bytes@.skip(pos as int)[i]
            == 0,
{
    let ghost s = bytes@.skip(pos as int);
    let mut i: usize = pos;
    while i < bytes.len()
        invariant
            pos <= i <= bytes.len(),
            s == bytes@.skip(pos as int),
            forall|j: int| 0 <= j < i - pos ==> #[trigger] s[j] == 0,
        decreases bytes.len() - i,
    {
        if bytes[i] != 0 {
            assert(s[i - pos] != 0);
            return false;
        }
        i += 1;
    }
    true
}

impl ExtraField {
    /// Read the field at `pos`, and the position past it.
    fn read(bytes: &[u8], pos: usize) -> (res: Option<(ExtraField, usize)>)
        requires
            pos <= bytes@.len(),
        ensures
            match res {
                Some((field, end)) => pos < end <= bytes@.len() && read_field(
                    bytes@.skip(pos as int),
                ) == Some((field@, (end - pos) as nat)),
                None => read_field(bytes@.skip(pos as int)) is None,
            },
    {
        let ghost s = bytes@.skip(pos as int);
        if pos == bytes.len() {
            return None;
        }
        let tag: u8 = bytes[pos];
        let start: usize = pos + 1;
        assert(bytes@.skip(start as int) =~= s.skip(1));
        if tag == PADDING_TAG {
            if bytes.len() - pos <= MAX_PADDING && zero_from(bytes, pos) {
                return Some((ExtraField::Padding(bytes.len() - pos), bytes.len()));
            }
            return None;
        }
        if tag == PUBLIC_KEY_TAG {
            return match points_at(bytes, start, 1) {
                Some(mut points) => {
                    assert(encodings(points@).len() == 1);
                    assert(encodings(points@)[0] == points@[0]@);
                    match points.pop() {
                        Some(point) => Some((ExtraField::PublicKey(point), start + 32)),
                        None => None,
                    }
                },
                None => None,
            };
        }
        if tag == NONCE_TAG {
            return match blob_at(bytes, start, MAX_NONCE) {
                Some((start, end)) => Some((ExtraField::Nonce(vec_at(bytes, start, end)), end)),
                None => None,
            };
        }
        if tag == MERGE_MINING_TAG {
            return match blob_at(bytes, start, u64::MAX) {
                Some((start, end)) => {
                    let blob = vec_at(bytes, start, end);
                    assert(blob@.skip(0) =~= blob@);
                    match read_varint(blob.as_slice(), 0, u64::MAX) {
                        Some((depth, depth_end)) => if blob.len() - depth_end == 32 {
                            let root: [u8; 32] = array_at(blob.as_slice(), depth_end);
                            assert(root@ =~= blob@.skip(depth_end as int));
                            Some((ExtraField::MergeMining(depth, root), end))
                        } else {
                            None
                        },
                        None => None,
                    }
                },
                None => None,
            };
        }
        if tag == PUBLIC_KEYS_TAG {
            return match read_varint(bytes, start, u64::MAX) {
                Some((n, points_start)) => {
                    assert(s.skip(1).skip(points_start - start) =~= bytes@.skip(
                        points_start as int,
                    ));
                    match points_at(bytes, points_start, n) {
                        Some(points) => {
                            let end: usize = points_start + 32 * n as usize;
                            Some((ExtraField::PublicKeys(points), end))
                        },
                        None => None,
                    }
                },
                None => None,
            };
        }
        if tag == MYSTERIOUS_MINERGATE_TAG {
            return match blob_at(bytes, start, u64::MAX) {
                Some((start, end)) => Some(
                    (ExtraField::MysteriousMinergate(vec_at(bytes, start, end)), end),
                ),
                None => None,
            };
        }
        None
    }
}

/// What each of a list of fields holds.
pub open spec fn contents(fields: Seq<ExtraField>) -> Seq<FieldContents> {
    fields.map_values(|field: ExtraField| field@)
}

/// Read fields until one can't be read.
fn fields_at(bytes: &[u8], end: usize) -> (res: Vec<ExtraField>)
    requires
        end <= bytes@.len(),
    ensures
        contents(res@) == read_fields(bytes@.take(end as int)),
{
    let slice = slice_subrange(bytes, 0, end);
    assert(slice@ =~= bytes@.take(end as int));
    let mut fields: Vec<ExtraField> = Vec::new();
    let mut pos: usize = 0;
    assert(slice@.skip(0) =~= slice@);
    assert(contents(fields@) + read_fields(slice@) =~= read_fields(slice@));
    loop
        invariant_except_break
            pos <= slice@.len(),
            contents(fields@) + read_fields(slice@.skip(pos as int)) == read_fields(slice@),
        ensures
            contents(fields@) == read_fields(slice@),
        decreases slice@.len() - pos,
    {
        match ExtraField::read(slice, pos) {
            Some((field, end)) => {
                let ghost rest = slice@.skip(pos as int);
                let ghost before = fields@;
                fields.push(field);
                assert(rest.skip(end - pos) =~= slice@.skip(end as int));
                assert(contents(fields@) =~= contents(before).push(field@));
                assert(contents(before) + (seq![field@] + read_fields(slice@.skip(end as int)))
                    =~= contents(fields@) + read_fields(slice@.skip(end as int)));
                pos = end;
            },
            None => {
                assert(contents(fields@) + Seq::<FieldContents>::empty() =~= contents(fields@));
                break;
            },
        }
    }
    fields
}

/// The additional data of a transaction.
pub struct Extra {
    bytes: Vec<u8>,
    fields: Vec<ExtraField>,
}

/// The serialization the additional data was read from.
impl View for Extra {
    type V = Seq<u8>;

    closed spec fn view(&self) -> Seq<u8> {
        self.bytes@
    }
}

impl Extra {
    #[verifier::type_invariant]
    spec fn is_read(self) -> bool {
        contents(self.fields@) == read_fields(self.bytes@)
    }

    /// Read the additional data of a transaction.
    ///
    /// Reading stops at the first field which can't be read, the fields before it being kept.
    pub fn read(bytes: &[u8]) -> (res: Extra)
        ensures
            res@ == bytes@,
    {
        let fields = fields_at(bytes, bytes.len());
        assert(bytes@.take(bytes@.len() as int) =~= bytes@);
        let copy = vec_at(bytes, 0, bytes.len());
        assert(copy@ =~= bytes@);
        Extra { bytes: copy, fields }
    }

    /// The transaction's keys, and the keys for each output.
    ///
    /// `None` if there isn't a key for the transaction, even if there are ones for its outputs.
    pub fn keys(&self) -> (res: Option<(Vec<Point>, Option<Vec<Point>>)>)
        ensures
            match res {
                Some((keys, additional)) => {
                    &&& keys@.len() != 0
                    &&& encodings(keys@) == public_keys(read_fields(self@))
                    &&& match additional {
                        Some(additional) => additional_keys(read_fields(self@)) == Some(
                            encodings(additional@),
                        ),
                        None => additional_keys(read_fields(self@)) is None,
                    }
                },
                None => public_keys(read_fields(self@)).len() == 0,
            },
    {
        proof {
            use_type_invariant(self);
        }
        let ghost fields = contents(self.fields@);
        let mut keys: Vec<Point> = Vec::new();
        let mut additional: Option<Vec<Point>> = None;
        let mut i: usize = 0;
        assert(encodings(keys@) =~= public_keys(fields.take(0)));
        while i < self.fields.len()
            invariant
                i <= self.fields.len(),
                fields == contents(self.fields@),
                encodings(keys@) == public_keys(fields.take(i as int)),
                match additional {
                    Some(additional) => additional_keys(fields.take(i as int)) == Some(
                        encodings(additional@),
                    ),
                    None => additional_keys(fields.take(i as int)) is None,
                },
            decreases self.fields.len() - i,
        {
            assert(fields.take(i + 1).drop_last() =~= fields.take(i as int));
            match &self.fields[i] {
                ExtraField::PublicKey(key) => {
                    let ghost before = keys@;
                    keys.push(key.clone());
                    assert(encodings(keys@) =~= encodings(before).push(key@));
                },
                ExtraField::PublicKeys(these) => {
                    if additional.is_none() {
                        additional = Some(clone_points(these));
                    }
                },
                _ => {},
            }
            i += 1;
        }
        assert(fields.take(i as int) =~= fields);
        if keys.len() == 0 {
            None
        } else {
            Some((keys, additional))
        }
    }

    /// The payment ID, which solely the first nonce may be.
    pub fn payment_id(&self) -> (res: Option<PaymentId>)
        ensures
            match res {
                Some(id) => payment_id_of(read_fields(self@)) == Some(id@),
                None => payment_id_of(read_fields(self@)) is None,
            },
    {
        proof {
            use_type_invariant(self);
        }
        let ghost fields = contents(self.fields@);
        let mut i: usize = 0;
        while i < self.fields.len()
            invariant
                i <= self.fields.len(),
                fields == contents(self.fields@),
                fields == read_fields(self@),
                first_nonce(fields.take(i as int)) is None,
            decreases self.fields.len() - i,
        {
            assert(fields.take(i + 1).drop_last() =~= fields.take(i as int));
            if let ExtraField::Nonce(nonce) = &self.fields[i] {
                proof {
                    assert(fields.take(i + 1).last() == FieldContents::Nonce(nonce@));
                    lemma_first_nonce(fields, i + 1);
                }
                return parse_payment_id(nonce);
            }
            i += 1;
        }
        assert(fields.take(i as int) =~= fields);
        None
    }

    /// The arbitrary data within the part of the additional data which nodes would relay.
    pub fn arbitrary_data(&self) -> (res: Vec<Vec<u8>>)
        ensures
            res@.map_values(|data: Vec<u8>| data@) == arbitrary_data_of(read_fields(relayed(self@))),
    {
        proof {
            use_type_invariant(self);
        }
        if self.bytes.len() <= MAX_RELAYED {
            marked_nonces(&self.fields)
        } else {
            marked_nonces(&fields_at(self.bytes.as_slice(), MAX_RELAYED))
        }
    }
}

/// Once there is a nonce, it's the first of any longer list of fields.
proof fn lemma_first_nonce(fields: Seq<FieldContents>, n: int)
    requires
        0 <= n <= fields.len(),
        first_nonce(fields.take(n)) is Some,
    ensures
        first_nonce(fields) == first_nonce(fields.take(n)),
    decreases fields.len() - n,
{
    if n < fields.len() {
        assert(fields.take(n + 1).drop_last() =~= fields.take(n));
        lemma_first_nonce(fields, n + 1);
    } else {
        assert(fields.take(n) =~= fields);
    }
}

fn clone_points(points: &Vec<Point>) -> (res: Vec<Point>)
    ensures
        encodings(res@) == encodings(points@),
{
    let mut res: Vec<Point> = Vec::new();
    let mut i: usize = 0;
    while i < points.len()
        invariant
            i <= points.len(),
            encodings(res@) == encodings(points@).take(i as int),
        decreases points.len() - i,
    {
        let ghost before = res@;
        res.push(points[i].clone());
        assert(encodings(res@) =~= encodings(before).push(points@[i as int]@));
        assert(encodings(points@).take(i + 1) =~= encodings(points@).take(i as int).push(
            points@[i as int]@,
        ));
        i += 1;
    }
    assert(encodings(points@).take(i as int) =~= encodings(points@));
    res
}

fn parse_payment_id(nonce: &Vec<u8>) -> (res: Option<PaymentId>)
    ensures
        match res {
            Some(id) => nonce_payment_id(nonce@) == Some(id@),
            None => nonce_payment_id(nonce@) is None,
        },
{
    if nonce.len() == 33 && nonce[0] == PAYMENT_ID_MARKER {
        let id: [u8; 32] = array_at(nonce.as_slice(), 1);
        assert(id@ =~= nonce@.skip(1));
        Some(PaymentId::Unencrypted(id))
    } else if nonce.len() == 9 && nonce[0] == ENCRYPTED_PAYMENT_ID_MARKER {
        let id: [u8; 8] = array_at(nonce.as_slice(), 1);
        assert(id@ =~= nonce@.skip(1));
        Some(PaymentId::Encrypted(id))
    } else {
        None
    }
}

fn marked_nonces(fields: &Vec<ExtraField>) -> (res: Vec<Vec<u8>>)
    ensures
        res@.map_values(|data: Vec<u8>| data@) == arbitrary_data_of(contents(fields@)),
{
    let ghost all = contents(fields@);
    let mut res: Vec<Vec<u8>> = Vec::new();
    let mut i: usize = 0;
    assert(res@.map_values(|data: Vec<u8>| data@) =~= arbitrary_data_of(all.take(0)));
    while i < fields.len()
        invariant
            i <= fields.len(),
            all == contents(fields@),
            res@.map_values(|data: Vec<u8>| data@) == arbitrary_data_of(all.take(i as int)),
        decreases fields.len() - i,
    {
        assert(all.take(i + 1).drop_last() =~= all.take(i as int));
        if let ExtraField::Nonce(nonce) = &fields[i] {
            if nonce.len() != 0 && nonce[0] == ARBITRARY_DATA_MARKER {
                let ghost before = res@;
                let data = vec_at(nonce.as_slice(), 1, nonce.len());
                assert(data@ =~= nonce@.skip(1));
                res.push(data);
                assert(res@.map_values(|data: Vec<u8>| data@) =~= before.map_values(
                    |data: Vec<u8>| data@,
                ).push(data@));
            }
        }
        i += 1;
    }
    assert(all.take(i as int) =~= all);
    res
}

} // verus!
