//! Byte encodings: little-endian integers, variable-length integers, and comparisons.

use vstd::prelude::*;

verus! {

/// The natural number `bytes` encodes, least significant byte first.
pub open spec fn le_nat(bytes: Seq<u8>) -> nat
    decreases bytes.len(),
{
    if bytes.len() == 0 {
        0
    } else {
        bytes[0] as nat + 256 * le_nat(bytes.skip(1))
    }
}

/// The `len` lowest bytes of `n`, least significant byte first.
pub open spec fn le_bytes(n: nat, len: nat) -> Seq<u8>
    decreases len,
{
    if len == 0 {
        Seq::empty()
    } else {
        seq![(n % 256) as u8] + le_bytes(n / 256, (len - 1) as nat)
    }
}

/// The variable-length encoding of `n`: seven bits per byte, least significant first, the high bit
/// of each byte but the last being set.
pub open spec fn varint(n: nat) -> Seq<u8>
    decreases n,
{
    if n < 128 {
        seq![n as u8]
    } else {
        seq![(128 + n % 128) as u8] + varint(n / 128)
    }
}

/// The integer whose variable-length encoding `s` starts with, and that encoding's length.
///
/// An encoding whose last byte, not being its first, is zero isn't the encoding of any integer.
pub open spec fn decode_varint(s: Seq<u8>) -> Option<(nat, nat)>
    decreases s.len(),
{
    if s.len() == 0 {
        None
    } else if s[0] < 128 {
        Some((s[0] as nat, 1))
    } else {
        match decode_varint(s.skip(1)) {
            Some((rest, len)) if rest != 0 => Some(((s[0] - 128 + 128 * rest) as nat, len + 1)),
            _ => None,
        }
    }
}

/// As `decode_varint`, yet solely of integers at most `max`.
pub open spec fn decode_varint_at_most(s: Seq<u8>, max: nat) -> Option<(nat, nat)> {
    match decode_varint(s) {
        Some((n, len)) if n <= max => Some((n, len)),
        _ => None,
    }
}

/// What follows the encoding of an integer doesn't affect its decoding.
pub proof fn varint_decodes(n: nat, rest: Seq<u8>)
    ensures
        decode_varint(varint(n) + rest) == Some((n, varint(n).len())),
    decreases n,
{
    let s = varint(n) + rest;
    if n >= 128 {
        varint_decodes(n / 128, rest);
        assert(s.skip(1) =~= varint(n / 128) + rest);
    }
}

/// A decoded encoding lies within what it was decoded from.
pub proof fn lemma_decode_varint_len(s: Seq<u8>)
    ensures
        match decode_varint(s) {
            Some((_, len)) => 1 <= len <= s.len(),
            None => true,
        },
    decreases s.len(),
{
    if s.len() != 0 {
        lemma_decode_varint_len(s.skip(1));
    }
}

/// Read the integer of at most `max` encoded at `pos`, and the position past its encoding.
pub fn read_varint(bytes: &[u8], pos: usize, max: u64) -> (res: Option<(u64, usize)>)
    requires
        pos <= bytes@.len(),
    ensures
        match res {
            Some((n, end)) => pos < end <= bytes@.len() && decode_varint_at_most(
                bytes@.skip(pos as int),
                max as nat,
            ) == Some((n as nat, (end - pos) as nat)),
            None => decode_varint_at_most(bytes@.skip(pos as int), max as nat) is None,
        },
    decreases max,
{
    let ghost s = bytes@.skip(pos as int);
    proof {
        lemma_decode_varint_len(s);
    }
    if pos == bytes.len() {
        return None;
    }
    let byte: u8 = bytes[pos];
    if byte < 128 {
        if byte as u64 <= max {
            return Some((byte as u64, pos + 1));
        }
        return None;
    }
    let low: u64 = (byte - 128) as u64;
    assert(bytes@.skip(pos + 1) =~= s.skip(1));
    if max < low + 128 {
        return None;
    }
    match read_varint(bytes, pos + 1, (max - low) / 128) {
        Some((rest, end)) => if rest != 0 {
            Some((low + 128 * rest, end))
        } else {
            None
        },
        None => None,
    }
}

/// If both arrays hold the same bytes.
pub fn bytes_eq<const N: usize>(a: &[u8; N], b: &[u8; N]) -> (res: bool)
    ensures
        res == (a@ == b@),
{
    let mut i: usize = 0;
    while i < N
        invariant
            i <= N,
            a@.subrange(0, i as int) == b@.subrange(0, i as int),
        decreases N - i,
    {
        if a[i] != b[i] {
            assert(a@[i as int] != b@[i as int]);
            return false;
        }
        assert(a@.subrange(0, i + 1) =~= a@.subrange(0, i as int).push(a@[i as int]));
        assert(b@.subrange(0, i + 1) =~= b@.subrange(0, i as int).push(b@[i as int]));
        i += 1;
    }
    assert(a@.subrange(0, N as int) =~= a@);
    assert(b@.subrange(0, N as int) =~= b@);
    true
}

/// The `N` bytes at `pos`.
pub fn array_at<const N: usize>(bytes: &[u8], pos: usize) -> (res: [u8; N])
    requires
        pos + N <= bytes@.len(),
    ensures
        res@ == bytes@.subrange(pos as int, pos + N),
{
    let mut res: [u8; N] = [0;N];
    let mut i: usize = 0;
    while i < N
        invariant
            i <= N,
            pos + N <= bytes.len(),
            forall|j: int| 0 <= j < i ==> res@[j] == bytes@[pos + j],
        decreases N - i,
    {
        res[i] = bytes[pos + i];
        i += 1;
    }
    assert(res@ =~= bytes@.subrange(pos as int, pos + N));
    res
}

/// The bytes from `start` until `end`.
pub fn vec_at(bytes: &[u8], start: usize, end: usize) -> (res: Vec<u8>)
    requires
        start <= end <= bytes@.len(),
    ensures
        res@ == bytes@.subrange(start as int, end as int),
{
    let mut res: Vec<u8> = Vec::new();
    let mut i: usize = start;
    while i < end
        invariant
            start <= i <= end <= bytes@.len(),
            res@ == bytes@.subrange(start as int, i as int),
        decreases end - i,
    {
        res.push(bytes[i]);
        i += 1;
        assert(res@ =~= bytes@.subrange(start as int, i as int));
    }
    res
}

/// The bitwise exclusive disjunction of `a` and `b`.
pub open spec fn xor(a: Seq<u8>, b: Seq<u8>) -> Seq<u8> {
    Seq::new(a.len(), |i: int| a[i] ^ b[i])
}

/// The bitwise exclusive disjunction of `a` and `b`.
pub fn xor_arrays<const N: usize>(a: &[u8; N], b: &[u8; N]) -> (res: [u8; N])
    ensures
        res@ == xor(a@, b@),
{
    let mut res: [u8; N] = [0;N];
    let mut i: usize = 0;
    while i < N
        invariant
            i <= N,
            forall|j: int| 0 <= j < i ==> res@[j] == a@[j] ^ b@[j],
        decreases N - i,
    {
        res[i] = a[i] ^ b[i];
        i += 1;
    }
    assert(res@ =~= xor(a@, b@));
    res
}

/// Append every byte of `bytes` to `buf`.
pub fn push_bytes(buf: &mut Vec<u8>, bytes: &[u8])
    ensures
        final(buf)@ == old(buf)@ + bytes@,
{
    buf.extend_from_slice(bytes);
    assert(buf@ =~= old(buf)@ + bytes@);
}

/// Append the variable-length encoding of `n` to `buf`.
pub fn write_varint(n: u64, buf: &mut Vec<u8>)
    ensures
        final(buf)@ == old(buf)@ + varint(n as nat),
{
    let mut rest: u64 = n;
    while rest >= 128
        invariant
            buf@ + varint(rest as nat) == old(buf)@ + varint(n as nat),
        decreases rest,
    {
        let ghost before = buf@;
        let byte: u8 = (128 + rest % 128) as u8;
        buf.push(byte);
        assert(before + varint(rest as nat) =~= buf@ + varint((rest / 128) as nat));
        rest = rest / 128;
    }
    let ghost before = buf@;
    buf.push(rest as u8);
    assert(before + varint(rest as nat) =~= buf@);
}

/// The `u64` eight little-endian bytes encode.
pub fn u64_from_le(bytes: &[u8; 8]) -> (res: u64)
    ensures
        res as nat == le_nat(bytes@),
{
    proof {
        lemma_le_nat_8(bytes@);
    }
    bytes[0] as u64 + 0x100 * (bytes[1] as u64) + 0x1_0000 * (bytes[2] as u64) + 0x100_0000 * (
    bytes[3] as u64) + 0x1_0000_0000 * (bytes[4] as u64) + 0x100_0000_0000 * (bytes[5] as u64)
        + 0x1_0000_0000_0000 * (bytes[6] as u64) + 0x100_0000_0000_0000 * (bytes[7] as u64)
}

proof fn lemma_le_nat_8(s: Seq<u8>)
    requires
        s.len() == 8,
    ensures
        le_nat(s) == s[0] + 0x100 * s[1] + 0x1_0000 * s[2] + 0x100_0000 * s[3] + 0x1_0000_0000 * s[4]
            + 0x100_0000_0000 * s[5] + 0x1_0000_0000_0000 * s[6] + 0x100_0000_0000_0000 * s[7],
{
    reveal_with_fuel(le_nat, 9);
}

/// The eight little-endian bytes of `n`.
pub fn u64_to_le(n: u64) -> (res: [u8; 8])
    ensures
        res@ == le_bytes(n as nat, 8),
{
    let low = u32_to_le((n % 0x1_0000_0000) as u32);
    let high = u32_to_le((n / 0x1_0000_0000) as u32);
    let res: [u8; 8] = [low[0], low[1], low[2], low[3], high[0], high[1], high[2], high[3]];
    proof {
        lemma_le_bytes_halves(n);
        assert(res@ =~= low@ + high@);
    }
    res
}

proof fn lemma_le_bytes_halves(n: u64)
    ensures
        le_bytes(n as nat, 8) == le_bytes(n as nat % 0x1_0000_0000, 4) + le_bytes(
            n as nat / 0x1_0000_0000,
            4,
        ),
{
    reveal_with_fuel(le_bytes, 9);
    let m = n as nat;
    let low = m % 0x1_0000_0000;
    assert(m % 256 == low % 256);
    assert(m / 256 % 256 == low / 256 % 256);
    assert(m / 256 / 256 % 256 == low / 256 / 256 % 256);
    assert(m / 256 / 256 / 256 % 256 == low / 256 / 256 / 256 % 256);
    assert(m / 256 / 256 / 256 / 256 == m / 0x1_0000_0000);
    assert(le_bytes(m, 8) =~= le_bytes(low, 4) + le_bytes(m / 0x1_0000_0000, 4));
}

/// Encoding what bytes encode yields the bytes again.
pub proof fn lemma_le_bytes_le_nat(s: Seq<u8>)
    ensures
        le_bytes(le_nat(s), s.len()) == s,
    decreases s.len(),
{
    if s.len() != 0 {
        lemma_le_bytes_le_nat(s.skip(1));
        let n = le_nat(s);
        assert(n % 256 == s[0]);
        assert(n / 256 == le_nat(s.skip(1)));
        assert(seq![s[0]] + s.skip(1) =~= s);
    } else {
        assert(le_bytes(0, 0) =~= s);
    }
}

/// The bytes of a `u64` encode it.
pub proof fn lemma_le_nat_le_bytes_8(n: u64)
    ensures
        le_nat(le_bytes(n as nat, 8)) == n,
{
    lemma_le_nat_le_bytes(n as nat, 8);
    reveal_with_fuel(byte_range, 9);
    assert(byte_range(8) == 0x1_0000_0000_0000_0000);
}

/// The amount of integers `len` bytes encode.
pub open spec fn byte_range(len: nat) -> nat
    decreases len,
{
    if len == 0 {
        1
    } else {
        256 * byte_range((len - 1) as nat)
    }
}

/// The `len` lowest bytes of an integer `len` bytes suffice for encode it.
pub proof fn lemma_le_nat_le_bytes(n: nat, len: nat)
    ensures
        n < byte_range(len) ==> le_nat(le_bytes(n, len)) == n,
        le_bytes(n, len).len() == len,
    decreases len,
{
    if len != 0 {
        let rest = le_bytes(n / 256, (len - 1) as nat);
        lemma_le_nat_le_bytes(n / 256, (len - 1) as nat);
        assert(le_bytes(n, len).skip(1) =~= rest);
    }
}

/// `len` zero bytes.
pub open spec fn zeros(len: nat) -> Seq<u8> {
    Seq::new(len, |i: int| 0u8)
}

/// Zeros past the most significant byte don't change what is encoded.
pub proof fn lemma_le_nat_zeros(s: Seq<u8>, len: nat)
    ensures
        le_nat(s + zeros(len)) == le_nat(s),
        le_nat(zeros(len)) == 0,
    decreases s.len() + len,
{
    if s.len() != 0 {
        lemma_le_nat_zeros(s.skip(1), len);
        assert((s + zeros(len)).skip(1) =~= s.skip(1) + zeros(len));
    } else if len != 0 {
        lemma_le_nat_zeros(s, (len - 1) as nat);
        assert((s + zeros(len)).skip(1) =~= s + zeros((len - 1) as nat));
        assert(s + zeros(len) =~= zeros(len));
    }
}

/// The four little-endian bytes of `n`.
pub fn u32_to_le(n: u32) -> (res: [u8; 4])
    ensures
        res@ == le_bytes(n as nat, 4),
{
    let res: [u8; 4] = [
        (n % 256) as u8,
        (n / 0x100 % 256) as u8,
        (n / 0x1_0000 % 256) as u8,
        (n / 0x100_0000) as u8,
    ];
    proof {
        reveal_with_fuel(le_bytes, 5);
        assert(n as nat / 256 / 256 == n as nat / 0x1_0000);
        assert(n as nat / 256 / 256 / 256 == n as nat / 0x100_0000);
        assert(res@ =~= le_bytes(n as nat, 4));
    }
    res
}

} // verus!
