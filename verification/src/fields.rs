//! What holds of the additional data: what is read of it is what was written to it.

use vstd::prelude::*;

use crate::bytes::{decode_varint_at_most, varint};
use crate::ed25519::reencoded;
use crate::encoding::{lemma_varint_short, solely_encodings_decode};
use crate::extra::{arbitrary_data_of, first_nonce, payment_id_of, read_blob, read_field};
use crate::extra::{read_fields, read_points, relayed, FieldContents, PaymentIdBytes};

verus! {

/// If `bytes` are what is written for a field.
pub open spec fn is_written(field: FieldContents, bytes: Seq<u8>) -> bool {
    match field {
        FieldContents::Padding(len) => {
            &&& 1 <= len <= 255
            &&& bytes == Seq::new(len, |i: int| 0u8)
        },
        FieldContents::PublicKey(key) => {
            &&& bytes == seq![1u8] + key
            &&& key.len() == 32
            &&& reencoded(key) == Some(key)
        },
        FieldContents::Nonce(nonce) => {
            &&& bytes == seq![2u8] + varint(nonce.len()) + nonce
            &&& nonce.len() <= 255
        },
        FieldContents::MergeMining(depth, root) => {
            &&& bytes == seq![3u8] + varint(varint(depth).len() + 32) + varint(depth) + root
            &&& depth <= u64::MAX
            &&& root.len() == 32
        },
        FieldContents::PublicKeys(keys) => {
            let head = seq![4u8] + varint(keys.len());
            &&& bytes.len() == head.len() + 32 * keys.len()
            &&& bytes.take(head.len() as int) == head
            &&& keys.len() <= u64::MAX
            &&& forall|i: int|
                0 <= i < keys.len() ==> (#[trigger] keys[i]) == bytes.subrange(
                    head.len() + 32 * i,
                    head.len() + 32 * i + 32,
                ) && reencoded(keys[i]) == Some(keys[i])
        },
        FieldContents::MysteriousMinergate(data) => {
            &&& bytes == seq![0xdeu8] + varint(data.len()) + data
            &&& data.len() <= u64::MAX
        },
    }
}

proof fn lemma_blob(s: Seq<u8>, max: nat, blob: Seq<u8>, len: nat)
    ensures
        read_blob(s, max) == Some((blob, len)) <==> blob.len() <= max && len <= s.len() && s.take(
            len as int,
        ) == varint(blob.len()) + blob,
{
    let head = varint(blob.len()).len();
    solely_encodings_decode(s, blob.len(), head, max);
    if len <= s.len() && s.take(len as int) == varint(blob.len()) + blob {
        assert(s.take(len as int).len() == head + blob.len());
        assert(s.take(head as int) =~= varint(blob.len())) by {
            assert forall|i: int| 0 <= i < head implies s[i] == varint(blob.len())[i] by {
                assert(s.take(len as int)[i] == (varint(blob.len()) + blob)[i]);
            }
        }
        assert(s.subrange(head as int, len as int) =~= blob) by {
            assert forall|i: int| 0 <= i < blob.len() implies s[head + i] == blob[i] by {
                assert(s.take(len as int)[head + i] == (varint(blob.len()) + blob)[head + i]);
            }
        }
    }
    if read_blob(s, max) == Some((blob, len)) {
        let (n, size) = decode_varint_at_most(s, max)->0;
        solely_encodings_decode(s, n, size, max);
        assert(blob.len() == n);
        assert(s.take(len as int) =~= s.take(size as int) + s.subrange(size as int, len as int));
    }
}

/// A field is read exactly if it was written: the bytes read are what is written for it. Padding
/// additionally has to last until the end.
pub proof fn fields_are_read_as_written(s: Seq<u8>, field: FieldContents, len: nat)
    ensures
        read_field(s) == Some((field, len)) <==> {
            &&& len <= s.len()
            &&& is_written(field, s.take(len as int))
            &&& field is Padding ==> len == s.len()
        },
{
    if s.len() == 0 {
        if len == 0 {
            assert(s.take(0).len() == 0);
        }
        lemma_written_starts(field, s.take(len as int));
    } else {
        let body = s.skip(1);
        lemma_written_starts(field, s.take(len as int));
        if 0 < len && len <= s.len() {
            assert(s.take(len as int)[0] == s[0]);
            assert(s.take(len as int) =~= seq![s[0]] + body.take(len - 1));
        }
        match field {
            FieldContents::Padding(n) => {
                if len <= s.len() && is_written(field, s.take(len as int)) && len == s.len() {
                    assert(s.take(len as int) =~= s);
                }
                if read_field(s) == Some((field, len)) {
                    assert(s.take(len as int) =~= Seq::new(n, |i: int| 0u8));
                }
            },
            FieldContents::PublicKey(key) => lemma_key(s, key, len),
            FieldContents::Nonce(nonce) => {
                if len > 0 {
                    lemma_blob(body, 255, nonce, (len - 1) as nat);
                    lemma_tagged(s, 2, varint(nonce.len()) + nonce, len);
                    assert(seq![2u8] + varint(nonce.len()) + nonce =~= seq![2u8] + (varint(
                        nonce.len(),
                    ) + nonce));
                }
            },
            FieldContents::MysteriousMinergate(data) => {
                if len > 0 {
                    lemma_blob(body, u64::MAX as nat, data, (len - 1) as nat);
                    lemma_tagged(s, 0xde, varint(data.len()) + data, len);
                    assert(seq![0xdeu8] + varint(data.len()) + data =~= seq![0xdeu8] + (varint(
                        data.len(),
                    ) + data));
                }
            },
            FieldContents::MergeMining(depth, root) => lemma_merge_mining(s, depth, root, len),
            FieldContents::PublicKeys(keys) => lemma_keys(s, keys, len),
        }
    }
}

/// What is written for a field starts with the tag of its kind.
proof fn lemma_written_starts(field: FieldContents, bytes: Seq<u8>)
    ensures
        is_written(field, bytes) ==> bytes.len() > 0 && bytes[0] == (match field {
            FieldContents::Padding(_) => 0u8,
            FieldContents::PublicKey(_) => 1,
            FieldContents::Nonce(_) => 2,
            FieldContents::MergeMining(_, _) => 3,
            FieldContents::PublicKeys(_) => 4,
            FieldContents::MysteriousMinergate(_) => 0xde,
        }),
{
    if let FieldContents::PublicKeys(keys) = field {
        if is_written(field, bytes) {
            let head = seq![4u8] + varint(keys.len());
            assert(bytes.take(head.len() as int)[0] == head[0]);
        }
    }
}

proof fn lemma_tagged(s: Seq<u8>, tag: u8, contents: Seq<u8>, len: nat)
    requires
        0 < len,
        s.len() > 0,
    ensures
        len <= s.len() && s.take(len as int) == seq![tag] + contents <==> s[0] == tag && len - 1
            <= s.skip(1).len() && s.skip(1).take(len - 1) == contents,
{
    let body = s.skip(1);
    if len <= s.len() {
        assert(s.take(len as int) =~= seq![s[0]] + body.take(len - 1));
        if s.take(len as int) == seq![tag] + contents {
            assert(s.take(len as int)[0] == tag);
            assert(s.take(len as int).skip(1) =~= body.take(len - 1));
            assert((seq![tag] + contents).skip(1) =~= contents);
        }
    }
}

proof fn lemma_key(s: Seq<u8>, key: Seq<u8>, len: nat)
    requires
        s.len() > 0,
    ensures
        read_field(s) == Some((FieldContents::PublicKey(key), len)) <==> len <= s.len()
            && is_written(FieldContents::PublicKey(key), s.take(len as int)),
{
    let body = s.skip(1);
    if len > 0 {
        lemma_tagged(s, 1, key, len);
    }
    let points = Seq::new(1, |i: int| body.subrange(32 * i, 32 * i + 32));
    if body.len() >= 32 {
        assert(points[0] =~= body.take(32));
        assert(forall|i: int| 0 <= i < 1 ==> #[trigger] points[i] == points[0]);
    }
    if len <= s.len() && is_written(FieldContents::PublicKey(key), s.take(len as int)) {
        assert(s.take(len as int).len() == 33);
        assert(read_points(body, 1) == Some(points));
    }
}

proof fn lemma_merge_mining(s: Seq<u8>, depth: nat, root: Seq<u8>, len: nat)
    requires
        s.len() > 0,
    ensures
        read_field(s) == Some((FieldContents::MergeMining(depth, root), len)) <==> len <= s.len()
            && is_written(FieldContents::MergeMining(depth, root), s.take(len as int)),
{
    let body = s.skip(1);
    let field = FieldContents::MergeMining(depth, root);
    let blob = varint(depth) + root;
    let size = varint(depth).len();
    let written = seq![3u8] + varint(size + 32) + varint(depth) + root;
    if len > 0 {
        lemma_tagged(s, 3, varint(size + 32) + blob, len);
        assert(written =~= seq![3u8] + (varint(size + 32) + blob));
    }
    if len <= s.len() && is_written(field, s.take(len as int)) {
        assert(s.take(len as int).len() > 0);
        lemma_varint_short(depth);
        lemma_blob(body, u64::MAX as nat, blob, (len - 1) as nat);
        assert(blob.len() == size + 32);
        assert(blob.take(size as int) =~= varint(depth));
        solely_encodings_decode(blob, depth, size, u64::MAX as nat);
        assert(blob.skip(size as int) =~= root);
    }
    if read_field(s) == Some((field, len)) {
        let (read, used) = read_blob(body, u64::MAX as nat)->0;
        let (d, depth_len) = decode_varint_at_most(read, u64::MAX as nat)->0;
        lemma_blob(body, u64::MAX as nat, read, used);
        solely_encodings_decode(read, d, depth_len, u64::MAX as nat);
        assert(d == depth);
        assert(read =~= read.take(depth_len as int) + read.skip(depth_len as int));
        assert(read == blob);
        assert(read.take(depth_len as int).len() == depth_len);
    }
}

proof fn lemma_keys(s: Seq<u8>, keys: Seq<Seq<u8>>, len: nat)
    requires
        s.len() > 0,
    ensures
        read_field(s) == Some((FieldContents::PublicKeys(keys), len)) <==> len <= s.len()
            && is_written(FieldContents::PublicKeys(keys), s.take(len as int)),
{
    let body = s.skip(1);
    let field = FieldContents::PublicKeys(keys);
    let n = keys.len();
    let size = varint(n).len();
    let head = seq![4u8] + varint(n);
    let rest = body.skip(size as int);
    let points = Seq::new(n, |i: int| rest.subrange(32 * i, 32 * i + 32));
    solely_encodings_decode(body, n, size, u64::MAX as nat);
    if len <= s.len() && is_written(field, s.take(len as int)) {
        let bytes = s.take(len as int);
        assert(bytes.take(head.len() as int) =~= s.take(head.len() as int));
        lemma_tagged(s, 4, varint(n), head.len());
        assert(body.take(size as int) == varint(n));
        assert(32 * n <= rest.len());
        assert forall|i: int| 0 <= i < n implies #[trigger] points[i] == keys[i] by {
            assert(rest.subrange(32 * i, 32 * i + 32) =~= bytes.subrange(
                head.len() + 32 * i,
                head.len() + 32 * i + 32,
            ));
        }
        assert(points =~= keys);
        assert(read_points(rest, n) == Some(keys));
    }
    if read_field(s) == Some((field, len)) {
        let (count, used) = decode_varint_at_most(body, u64::MAX as nat)->0;
        solely_encodings_decode(body, count, used, u64::MAX as nat);
        assert(count == n);
        assert(body.take(used as int).len() == used);
        assert(used == size);
        let bytes = s.take(len as int);
        lemma_tagged(s, 4, varint(n), head.len());
        assert(bytes.take(head.len() as int) =~= s.take(head.len() as int));
        assert(read_points(rest, n) == Some(points));
        assert forall|i: int| 0 <= i < n implies (#[trigger] keys[i]) == bytes.subrange(
            head.len() + 32 * i,
            head.len() + 32 * i + 32,
        ) && reencoded(keys[i]) == Some(keys[i]) by {
            assert(keys[i] == points[i]);
            assert(rest.subrange(32 * i, 32 * i + 32) =~= bytes.subrange(
                head.len() + 32 * i,
                head.len() + 32 * i + 32,
            ));
        }
    }
}

/// Fields are read one after another, until there isn't one to read.
pub proof fn fields_are_read_in_order(field: FieldContents, bytes: Seq<u8>, rest: Seq<u8>)
    ensures
        is_written(field, bytes) && !(field is Padding) ==> read_fields(bytes + rest) == seq![field]
            + read_fields(rest),
        is_written(field, bytes) && field is Padding ==> read_fields(bytes) == seq![field],
        (forall|other: FieldContents, len: nat|
            len <= rest.len() && !(other is Padding && len < rest.len()) ==> !(
            #[trigger] is_written(other, rest.take(len as int)))) ==> read_fields(rest)
            == Seq::<FieldContents>::empty(),
{
    let s = bytes + rest;
    lemma_written_starts(field, bytes);
    assert(s.take(bytes.len() as int) =~= bytes);
    assert(s.skip(bytes.len() as int) =~= rest);
    fields_are_read_as_written(s, field, bytes.len());
    assert(bytes.take(bytes.len() as int) =~= bytes);
    fields_are_read_as_written(bytes, field, bytes.len());
    let none = Seq::<u8>::empty();
    assert(bytes.skip(bytes.len() as int) =~= none);
    assert(read_fields(none) =~= Seq::empty());
    assert(seq![field] + read_fields(none) =~= seq![field]);
    if let Some((other, len)) = read_field(rest) {
        fields_are_read_as_written(rest, other, len);
    }
}

/// If the field at this index is the first which is a nonce.
pub open spec fn is_first_nonce(fields: Seq<FieldContents>, f: int) -> bool {
    &&& 0 <= f < fields.len()
    &&& fields[f] is Nonce
    &&& forall|g: int| 0 <= g < f ==> !((#[trigger] fields[g]) is Nonce)
}

proof fn lemma_first_nonce_is_first(fields: Seq<FieldContents>)
    ensures
        match first_nonce(fields) {
            Some(nonce) => exists|f: int| #[trigger]
                is_first_nonce(fields, f) && fields[f]->Nonce_0 == nonce,
            None => forall|g: int| 0 <= g < fields.len() ==> !((#[trigger] fields[g]) is Nonce),
        },
    decreases fields.len(),
{
    if fields.len() != 0 {
        let rest = fields.drop_last();
        lemma_first_nonce_is_first(rest);
        assert(forall|g: int| 0 <= g < rest.len() ==> rest[g] == #[trigger] fields[g]);
        match first_nonce(rest) {
            Some(nonce) => {
                let f = choose|f: int| #[trigger]
                    is_first_nonce(rest, f) && rest[f]->Nonce_0 == nonce;
                assert(is_first_nonce(fields, f)) by {
                    assert forall|g: int| 0 <= g < f implies !((#[trigger] fields[g]) is Nonce) by {
                        assert(!(rest[g] is Nonce));
                    }
                }
            },
            None => {
                assert forall|g: int| 0 <= g < rest.len() implies !((
                #[trigger] fields[g]) is Nonce) by {
                    assert(!(rest[g] is Nonce));
                }
                if fields.last() is Nonce {
                    assert(is_first_nonce(fields, fields.len() - 1));
                }
            },
        }
    }
}

/// A payment ID is held exactly if the first nonce is one: a zero followed by 32 bytes if it isn't
/// encrypted, and a one followed by eight if it is.
pub proof fn payment_ids_are_held_by_the_first_nonce(fields: Seq<FieldContents>, id: PaymentIdBytes)
    ensures
        payment_id_of(fields) == Some(id) <==> exists|f: int| #[trigger]
            is_first_nonce(fields, f) && match id {
                PaymentIdBytes::Unencrypted(bytes) => bytes.len() == 32 && fields[f]->Nonce_0
                    == seq![0u8] + bytes,
                PaymentIdBytes::Encrypted(bytes) => bytes.len() == 8 && fields[f]->Nonce_0
                    == seq![1u8] + bytes,
            },
{
    lemma_first_nonce_is_first(fields);
    assert forall|f: int, g: int| #[trigger] is_first_nonce(fields, f) && #[trigger] is_first_nonce(
        fields,
        g,
    ) implies f == g by {
        if f < g {
            assert(!(fields[f] is Nonce));
        } else if g < f {
            assert(!(fields[g] is Nonce));
        }
    }
    let bytes = match id {
        PaymentIdBytes::Unencrypted(bytes) => bytes,
        PaymentIdBytes::Encrypted(bytes) => bytes,
    };
    assert((seq![0u8] + bytes).skip(1) =~= bytes);
    assert((seq![1u8] + bytes).skip(1) =~= bytes);
    if let Some(nonce) = first_nonce(fields) {
        let f = choose|f: int| #[trigger]
            is_first_nonce(fields, f) && fields[f]->Nonce_0 == nonce;
        if nonce.len() > 0 {
            assert(nonce =~= seq![nonce[0]] + nonce.skip(1));
        }
        assert((seq![0u8] + bytes)[0] == 0);
        assert((seq![1u8] + bytes)[0] == 1);
    } else {
        assert forall|f: int| !(#[trigger] is_first_nonce(fields, f)) by {
            if 0 <= f < fields.len() {
                assert(!(fields[f] is Nonce));
            }
        }
    }
}

/// The arbitrary data of a list of fields is that of each of its parts, in order: what follows the
/// marker of each nonce which starts with it.
pub proof fn arbitrary_data_is_collected_in_order(
    a: Seq<FieldContents>,
    b: Seq<FieldContents>,
    field: FieldContents,
    data: Seq<u8>,
)
    ensures
        arbitrary_data_of(Seq::empty()) == Seq::<Seq<u8>>::empty(),
        arbitrary_data_of(seq![FieldContents::Nonce(seq![127u8] + data)]) == seq![data],
        !(field is Nonce && field->Nonce_0.len() != 0 && field->Nonce_0[0] == 127)
            ==> arbitrary_data_of(seq![field]) == Seq::<Seq<u8>>::empty(),
        arbitrary_data_of(a + b) == arbitrary_data_of(a) + arbitrary_data_of(b),
    decreases b.len(),
{
    reveal_with_fuel(arbitrary_data_of, 2);
    let marked = FieldContents::Nonce(seq![127u8] + data);
    assert(seq![marked].drop_last() =~= Seq::<FieldContents>::empty());
    assert(seq![marked].last() == marked);
    assert((seq![127u8] + data).skip(1) =~= data);
    assert((seq![127u8] + data)[0] == 127);
    assert(arbitrary_data_of(seq![marked]) =~= seq![data]);
    assert(seq![field].drop_last() =~= Seq::<FieldContents>::empty());
    assert(seq![field].last() == field);
    if b.len() == 0 {
        assert(a + b =~= a);
        assert(arbitrary_data_of(a) + arbitrary_data_of(b) =~= arbitrary_data_of(a));
    } else {
        arbitrary_data_is_collected_in_order(a, b.drop_last(), field, data);
        assert((a + b).drop_last() =~= a + b.drop_last());
        assert((a + b).last() == b.last());
        assert(arbitrary_data_of(a + b) =~= arbitrary_data_of(a) + arbitrary_data_of(b));
    }
}

/// What nodes would relay is the first 1060 bytes, or all if there are less.
pub proof fn so_much_is_relayed(s: Seq<u8>, i: int)
    ensures
        relayed(s).len() == if s.len() < 1060 {
            s.len()
        } else {
            1060
        },
        0 <= i < relayed(s).len() ==> relayed(s)[i] == s[i],
{
}

} // verus!
