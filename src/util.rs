//! Identifiers and big-endian byte helpers shared by the record codecs.

use vstd::prelude::*;

use crate::errors::POSError;

verus! {

/// A transaction identifier: 8 bytes, compared as a big-endian integer.
pub type Tid = [u8; 8];

/// An object identifier: 8 bytes, compared as a big-endian integer.
pub type Oid = [u8; 8];

/// Object data.
pub type Bytes = Vec<u8>;

/// The all-zero identifier: "no prior version".
pub const Z64: [u8; 8] = [0, 0, 0, 0, 0, 0, 0, 0];

/// Big-endian value of the first two bytes of `b`.
pub open spec fn be16(b: Seq<u8>) -> u16 {
    ((b[0] as u16) << 8u16) | (b[1] as u16)
}

/// Big-endian value of the first four bytes of `b`.
pub open spec fn be32(b: Seq<u8>) -> u32 {
    ((b[0] as u32) << 24u32) | ((b[1] as u32) << 16u32) | ((b[2] as u32) << 8u32) | (b[3] as u32)
}

/// Big-endian value of the first eight bytes of `b`.
pub open spec fn be64(b: Seq<u8>) -> u64 {
    ((b[0] as u64) << 56u64) | ((b[1] as u64) << 48u64) | ((b[2] as u64) << 40u64) | ((b[3] as u64)
        << 32u64) | ((b[4] as u64) << 24u64) | ((b[5] as u64) << 16u64) | ((b[6] as u64) << 8u64)
        | (b[7] as u64)
}

/// The two big-endian bytes of `v`.
pub open spec fn p16s(v: u16) -> Seq<u8> {
    seq![(v >> 8u16) as u8, v as u8]
}

/// The four big-endian bytes of `v`.
pub open spec fn p32s(v: u32) -> Seq<u8> {
    seq![(v >> 24u32) as u8, (v >> 16u32) as u8, (v >> 8u32) as u8, v as u8]
}

/// The eight big-endian bytes of `v`.
pub open spec fn p64s(v: u64) -> Seq<u8> {
    seq![
        (v >> 56u64) as u8,
        (v >> 48u64) as u8,
        (v >> 40u64) as u8,
        (v >> 32u64) as u8,
        (v >> 24u64) as u8,
        (v >> 16u64) as u8,
        (v >> 8u64) as u8,
        v as u8,
    ]
}

/// Decoding the encoding of a `u64` gives it back.
pub proof fn lemma_be64_p64s(v: u64)
    ensures
        be64(p64s(v)) == v,
{
    let b = p64s(v);
    let (b0, b1, b2, b3, b4, b5, b6, b7) = (b[0], b[1], b[2], b[3], b[4], b[5], b[6], b[7]);
    assert(b0 == (v >> 56u64) as u8 && b1 == (v >> 48u64) as u8 && b2 == (v >> 40u64) as u8 && b3
        == (v >> 32u64) as u8 && b4 == (v >> 24u64) as u8 && b5 == (v >> 16u64) as u8 && b6 == (v
        >> 8u64) as u8 && b7 == v as u8);
    assert(((b0 as u64) << 56u64) | ((b1 as u64) << 48u64) | ((b2 as u64) << 40u64) | ((b3 as u64)
        << 32u64) | ((b4 as u64) << 24u64) | ((b5 as u64) << 16u64) | ((b6 as u64) << 8u64) | (
    b7 as u64) == v) by (bit_vector)
        requires
            b0 == (v >> 56u64) as u8 && b1 == (v >> 48u64) as u8 && b2 == (v >> 40u64) as u8 && b3
                == (v >> 32u64) as u8 && b4 == (v >> 24u64) as u8 && b5 == (v >> 16u64) as u8 && b6
                == (v >> 8u64) as u8 && b7 == v as u8,
    ;
}

/// Encoding the value of eight bytes gives them back.
pub proof fn lemma_p64s_be64(b: Seq<u8>)
    requires
        b.len() == 8,
    ensures
        p64s(be64(b)) == b,
{
    let (b0, b1, b2, b3, b4, b5, b6, b7) = (b[0], b[1], b[2], b[3], b[4], b[5], b[6], b[7]);
    let v = be64(b);
    assert(v == ((b0 as u64) << 56u64) | ((b1 as u64) << 48u64) | ((b2 as u64) << 40u64) | ((
    b3 as u64) << 32u64) | ((b4 as u64) << 24u64) | ((b5 as u64) << 16u64) | ((b6 as u64) << 8u64)
        | (b7 as u64));
    assert(b0 == (v >> 56u64) as u8 && b1 == (v >> 48u64) as u8 && b2 == (v >> 40u64) as u8 && b3
        == (v >> 32u64) as u8 && b4 == (v >> 24u64) as u8 && b5 == (v >> 16u64) as u8 && b6 == (v
        >> 8u64) as u8 && b7 == v as u8) by (bit_vector)
        requires
            v == ((b0 as u64) << 56u64) | ((b1 as u64) << 48u64) | ((b2 as u64) << 40u64) | ((
            b3 as u64) << 32u64) | ((b4 as u64) << 24u64) | ((b5 as u64) << 16u64) | ((b6 as u64)
                << 8u64) | (b7 as u64),
    ;
    assert(p64s(v) =~= b);
}

/// The eight big-endian bytes of `i`.
pub fn p64(i: u64) -> (r: [u8; 8])
    ensures
        r@ == p64s(i),
        be64(r@) == i,
{
    let r = [
        (i >> 56u64) as u8,
        (i >> 48u64) as u8,
        (i >> 40u64) as u8,
        (i >> 32u64) as u8,
        (i >> 24u64) as u8,
        (i >> 16u64) as u8,
        (i >> 8u64) as u8,
        i as u8,
    ];
    assert(r@ =~= p64s(i));
    proof {
        lemma_be64_p64s(i);
    }
    r
}

/// The big-endian value of an identifier.
pub fn u64_of(a: &[u8; 8]) -> (r: u64)
    ensures
        r == be64(a@),
        p64s(r) == a@,
{
    proof {
        lemma_p64s_be64(a@);
    }
    ((a[0] as u64) << 56u64) | ((a[1] as u64) << 48u64) | ((a[2] as u64) << 40u64) | ((
    a[3] as u64) << 32u64) | ((a[4] as u64) << 24u64) | ((a[5] as u64) << 16u64) | ((a[6] as u64)
        << 8u64) | (a[7] as u64)
}


/// Decoding the encoding of a `u32` gives it back.
pub proof fn lemma_be32_p32s(v: u32)
    ensures
        be32(p32s(v)) == v,
{
    let b = p32s(v);
    let (b0, b1, b2, b3) = (b[0], b[1], b[2], b[3]);
    assert(((b0 as u32) << 24u32) | ((b1 as u32) << 16u32) | ((b2 as u32) << 8u32) | (b3 as u32)
        == v) by (bit_vector)
        requires
            b0 == (v >> 24u32) as u8 && b1 == (v >> 16u32) as u8 && b2 == (v >> 8u32) as u8 && b3
                == v as u8,
    ;
}

/// Whether two identifiers hold the same bytes.
pub fn same_id(a: &[u8; 8], b: &[u8; 8]) -> (r: bool)
    ensures
        r == (a@ == b@),
        r == (be64(a@) == be64(b@)),
{
    let x = u64_of(a);
    let y = u64_of(b);
    x == y
}

/// Encoding the value of four bytes gives them back.
pub proof fn lemma_p32s_be32(b: Seq<u8>)
    requires
        b.len() == 4,
    ensures
        p32s(be32(b)) == b,
{
    let (b0, b1, b2, b3) = (b[0], b[1], b[2], b[3]);
    let v = be32(b);
    assert(b0 == (v >> 24u32) as u8 && b1 == (v >> 16u32) as u8 && b2 == (v >> 8u32) as u8 && b3
        == v as u8) by (bit_vector)
        requires
            v == ((b0 as u32) << 24u32) | ((b1 as u32) << 16u32) | ((b2 as u32) << 8u32) | (
            b3 as u32),
    ;
    assert(p32s(v) =~= b);
}

/// Encoding the value of two bytes gives them back.
pub proof fn lemma_p16s_be16(b: Seq<u8>)
    requires
        b.len() == 2,
    ensures
        p16s(be16(b)) == b,
{
    let (b0, b1) = (b[0], b[1]);
    let v = be16(b);
    assert(b0 == (v >> 8u16) as u8 && b1 == v as u8) by (bit_vector)
        requires
            v == ((b0 as u16) << 8u16) | (b1 as u16),
    ;
    assert(p16s(v) =~= b);
}

/// `s` with the bytes from `pos` on replaced by `t`.
pub open spec fn splice(s: Seq<u8>, pos: int, t: Seq<u8>) -> Seq<u8> {
    s.subrange(0, pos) + t + s.subrange(pos + t.len(), s.len() as int)
}

/// The big-endian `u16` at `pos` of `b`.
pub fn read_u16_at(b: &Vec<u8>, pos: usize) -> (r: u16)
    requires
        pos + 2 <= b@.len(),
    ensures
        r == be16(b@.subrange(pos as int, pos + 2)),
{
    let _len = b.len();
    ((b[pos] as u16) << 8u16) | (b[pos + 1] as u16)
}

/// The big-endian `u32` at `pos` of `b`.
pub fn read_u32_at(b: &Vec<u8>, pos: usize) -> (r: u32)
    requires
        pos + 4 <= b@.len(),
    ensures
        r == be32(b@.subrange(pos as int, pos + 4)),
{
    let _len = b.len();
    ((b[pos] as u32) << 24u32) | ((b[pos + 1] as u32) << 16u32) | ((b[pos + 2] as u32) << 8u32) | (
    b[pos + 3] as u32)
}

/// The big-endian `u64` at `pos` of `b`.
pub fn read_u64_at(b: &Vec<u8>, pos: usize) -> (r: u64)
    requires
        pos + 8 <= b@.len(),
    ensures
        r == be64(b@.subrange(pos as int, pos + 8)),
{
    let _len = b.len();
    ((b[pos] as u64) << 56u64) | ((b[pos + 1] as u64) << 48u64) | ((b[pos + 2] as u64) << 40u64)
        | ((b[pos + 3] as u64) << 32u64) | ((b[pos + 4] as u64) << 24u64) | ((b[pos + 5] as u64)
        << 16u64) | ((b[pos + 6] as u64) << 8u64) | (b[pos + 7] as u64)
}

/// The eight bytes at `pos` of `b`.
pub fn id_at(b: &Vec<u8>, pos: usize) -> (r: [u8; 8])
    requires
        pos + 8 <= b@.len(),
    ensures
        r@ == b@.subrange(pos as int, pos + 8),
{
    let _len = b.len();
    let r = [b[pos], b[pos + 1], b[pos + 2], b[pos + 3], b[pos + 4], b[pos + 5], b[pos + 6], b[pos
        + 7]];
    assert(r@ =~= b@.subrange(pos as int, pos + 8));
    r
}

/// The four bytes at `pos` of `b`.
pub fn read4(b: &Vec<u8>, pos: usize) -> (r: [u8; 4])
    requires
        pos + 4 <= b@.len(),
    ensures
        r@ == b@.subrange(pos as int, pos + 4),
{
    let _len = b.len();
    let r = [b[pos], b[pos + 1], b[pos + 2], b[pos + 3]];
    assert(r@ =~= b@.subrange(pos as int, pos + 4));
    r
}

/// Whether the four bytes at `pos` of `b` are `magic`.
pub fn check_magic(b: &Vec<u8>, pos: usize, magic: &[u8; 4]) -> (r: bool)
    ensures
        r == (pos + 4 <= b@.len() && b@.subrange(pos as int, pos + 4) == magic@),
{
    let n = b.len();
    if pos > n || n - pos < 4 {
        return false;
    }
    let m = read4(b, pos);
    let ok = m[0] == magic[0] && m[1] == magic[1] && m[2] == magic[2] && m[3] == magic[3];
    proof {
        if ok {
            assert(m@ =~= magic@);
        } else {
            assert(m@ != magic@) by {
                if m@ == magic@ {
                    assert(m@[0] == magic@[0] && m@[1] == magic@[1] && m@[2] == magic@[2] && m@[3]
                        == magic@[3]);
                }
            }
        }
    }
    ok
}

/// The `size` bytes at `pos` of `b`.
pub fn bytes_at(b: &Vec<u8>, pos: usize, size: usize) -> (r: Vec<u8>)
    requires
        pos + size <= b@.len(),
    ensures
        r@ == b@.subrange(pos as int, pos + size),
{
    let _len = b.len();
    let mut r: Vec<u8> = Vec::with_capacity(size);
    let mut i: usize = 0;
    while i < size
        invariant
            pos + size <= b@.len(),
            i <= size,
            _len == b@.len(),
            r@ == b@.subrange(pos as int, pos + i),
        decreases size - i,
    {
        r.push(b[pos + i]);
        i = i + 1;
        assert(r@ =~= b@.subrange(pos as int, pos + i));
    }
    r
}

/// Relies on String::from_utf8: the string whose UTF-8 encoding is `b`,
/// exactly when `b` is valid UTF-8.
#[verifier::external_body]
pub fn utf8_string(b: Vec<u8>) -> (r: Option<String>)
    ensures
        r is Some <==> vstd::utf8::valid_utf8(b@),
        r matches Some(s) ==> vstd::utf8::encode_utf8(s@) == b@,
{
    String::from_utf8(b).ok()
}

/// The `size` bytes at `pos` of `b`, or a format error where `b` ends
/// before them.
pub fn read_sized(b: &Vec<u8>, pos: usize, size: usize) -> (r: Result<Vec<u8>, POSError>)
    ensures
        r is Ok <==> pos + size <= b@.len(),
        r matches Ok(v) ==> v@ == b@.subrange(pos as int, pos + size),
        r is Err ==> r == Err::<Vec<u8>, POSError>(POSError::Format),
{
    let n = b.len();
    if pos > n || size > n - pos {
        return Err(POSError::Format);
    }
    Ok(bytes_at(b, pos, size))
}

/// The eight bytes at `pos` of `b`, or a format error where `b` ends
/// before them.
pub fn read8(b: &Vec<u8>, pos: usize) -> (r: Result<[u8; 8], POSError>)
    ensures
        r is Ok <==> pos + 8 <= b@.len(),
        r matches Ok(v) ==> v@ == b@.subrange(pos as int, pos + 8),
        r is Err ==> r == Err::<[u8; 8], POSError>(POSError::Format),
{
    let n = b.len();
    if pos > n || n - pos < 8 {
        return Err(POSError::Format);
    }
    Ok(id_at(b, pos))
}

/// Appends `data` to `out`.
pub fn push_bytes(out: &mut Vec<u8>, data: &[u8])
    ensures
        final(out)@ == old(out)@ + data@,
{
    let mut i: usize = 0;
    while i < data.len()
        invariant
            i <= data@.len(),
            out@ == old(out)@ + data@.subrange(0, i as int),
        decreases data@.len() - i,
    {
        out.push(data[i]);
        i = i + 1;
        assert(out@ =~= old(out)@ + data@.subrange(0, i as int));
    }
    assert(data@.subrange(0, data@.len() as int) =~= data@);
}

/// Appends the big-endian bytes of `v` to `out`.
pub fn push_u16(out: &mut Vec<u8>, v: u16)
    ensures
        final(out)@ == old(out)@ + p16s(v),
{
    out.push((v >> 8u16) as u8);
    out.push(v as u8);
    assert(out@ =~= old(out)@ + p16s(v));
}

/// Appends the big-endian bytes of `v` to `out`.
pub fn push_u32(out: &mut Vec<u8>, v: u32)
    ensures
        final(out)@ == old(out)@ + p32s(v),
{
    out.push((v >> 24u32) as u8);
    out.push((v >> 16u32) as u8);
    out.push((v >> 8u32) as u8);
    out.push(v as u8);
    assert(out@ =~= old(out)@ + p32s(v));
}

/// Appends the big-endian bytes of `v` to `out`.
pub fn push_u64(out: &mut Vec<u8>, v: u64)
    ensures
        final(out)@ == old(out)@ + p64s(v),
{
    let a = p64(v);
    push_bytes(out, &a);
}

/// Overwrites the bytes of `b` from `pos` on with `data`.
pub fn write_at(b: &mut Vec<u8>, pos: usize, data: &[u8])
    requires
        pos + data@.len() <= old(b)@.len(),
    ensures
        final(b)@ == splice(old(b)@, pos as int, data@),
{
    let _len = b.len();
    let mut i: usize = 0;
    while i < data.len()
        invariant
            pos + data@.len() <= old(b)@.len(),
            i <= data@.len(),
            _len == old(b)@.len(),
            b@ == splice(old(b)@, pos as int, data@.subrange(0, i as int)),
        decreases data@.len() - i,
    {
        b.set(pos + i, data[i]);
        i = i + 1;
        assert(b@ =~= splice(old(b)@, pos as int, data@.subrange(0, i as int)));
    }
    assert(data@.subrange(0, data@.len() as int) =~= data@);
}

} // verus!
