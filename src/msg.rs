//! Framing of wire messages: each is a big-endian u32 length followed by a
//! MessagePack array `[id, method, args]`.

use vstd::prelude::*;
use vstd::string::StringSliceAdditionalSpecFns;

use crate::errors::POSError;
use crate::util::{
    be16, be32, be64, p32s, push_bytes, push_u32, read_u32_at, bytes_at, utf8_string, Bytes, Oid, Tid,
};

verus! {

/// `v` framed: its length as a big-endian u32, then `v`.
pub fn size_vec(v: Vec<u8>) -> (r: Vec<u8>)
    requires
        v@.len() <= u32::MAX,
    ensures
        r@ == p32s(v@.len() as u32) + v@,
{
    let mut r: Vec<u8> = Vec::new();
    push_u32(&mut r, v.len() as u32);
    push_bytes(&mut r, v.as_slice());
    r
}

/// MessagePack bytes of an array header for `n` elements.
pub open spec fn mp_array_len_bytes(n: u32) -> Seq<u8> {
    if n < 16 {
        seq![(0x90 + n) as u8]
    } else if n < 0x1_0000 {
        seq![0xdcu8] + crate::util::p16s(n as u16)
    } else {
        seq![0xddu8] + p32s(n)
    }
}

/// MessagePack bytes of a string header for `n` bytes.
pub open spec fn mp_str_len_bytes(n: u32) -> Seq<u8> {
    if n < 32 {
        seq![(0xa0 + n) as u8]
    } else if n < 256 {
        seq![0xd9u8, n as u8]
    } else if n < 0x1_0000 {
        seq![0xdau8] + crate::util::p16s(n as u16)
    } else {
        seq![0xdbu8] + p32s(n)
    }
}

/// MessagePack bytes of the signed integer `v`, in its shortest form.
pub open spec fn mp_sint_bytes(v: i64) -> Seq<u8> {
    if -32 <= v < 0 {
        seq![v as u8]
    } else if -128 <= v < -32 {
        seq![0xd0u8, v as u8]
    } else if -32768 <= v < -128 {
        seq![0xd1u8] + crate::util::p16s(v as u16)
    } else if -2147483648 <= v < -32768 {
        seq![0xd2u8] + p32s(v as u32)
    } else if v < -2147483648 {
        seq![0xd3u8] + crate::util::p64s(v as u64)
    } else if v < 128 {
        seq![v as u8]
    } else if v < 256 {
        seq![0xccu8, v as u8]
    } else if v < 65536 {
        seq![0xcdu8] + crate::util::p16s(v as u16)
    } else if v < 4294967296 {
        seq![0xceu8] + p32s(v as u32)
    } else {
        seq![0xcfu8] + crate::util::p64s(v as u64)
    }
}

/// Relies on rmp::encode::write_array_len, which writes the shortest
/// array header (fixarray, array 16 or array 32); writing to a `Vec` does
/// not fail.
#[verifier::external_body]
fn mp_write_array_len(out: &mut Vec<u8>, n: u32)
    ensures
        final(out)@ == old(out)@ + mp_array_len_bytes(n),
{
    let _ = rmp::encode::write_array_len(out, n);
}

/// Relies on rmp::encode::write_str_len, which writes the shortest string
/// header (fixstr, str 8, 16 or 32); writing to a `Vec` does not fail.
#[verifier::external_body]
fn mp_write_str_len(out: &mut Vec<u8>, n: u32)
    ensures
        final(out)@ == old(out)@ + mp_str_len_bytes(n),
{
    let _ = rmp::encode::write_str_len(out, n);
}

/// Relies on rmp::encode::write_sint, which writes the shortest encoding
/// of a signed integer; writing to a `Vec` does not fail.
#[verifier::external_body]
fn mp_write_sint(out: &mut Vec<u8>, v: i64)
    ensures
        final(out)@ == old(out)@ + mp_sint_bytes(v),
{
    let _ = rmp::encode::write_sint(out, v);
}

/// The MessagePack bytes of the message header `[id, method, ...` of a
/// three-element message.
pub open spec fn message_head(id: i64, method: Seq<u8>) -> Seq<u8> {
    mp_array_len_bytes(3) + mp_sint_bytes(id) + mp_str_len_bytes(method.len() as u32) + method
}

/// A framed message `[id, method, payload]`, where `payload` is already
/// MessagePack.
pub fn message(id: i64, method: &str, payload: &[u8]) -> (r: Vec<u8>)
    requires
        method.spec_bytes().len() <= 0xffff,
        payload@.len() <= 0xfffe_0000,
    ensures
        r@ == p32s((message_head(id, method.spec_bytes()) + payload@).len() as u32)
            + message_head(id, method.spec_bytes()) + payload@,
{
    let mut v: Vec<u8> = Vec::new();
    mp_write_array_len(&mut v, 3);
    mp_write_sint(&mut v, id);
    let m = method.as_bytes();
    mp_write_str_len(&mut v, m.len() as u32);
    push_bytes(&mut v, m);
    push_bytes(&mut v, payload);
    assert(v@ =~= message_head(id, method.spec_bytes()) + payload@);
    assert(mp_sint_bytes(id).len() <= 9);
    assert(mp_str_len_bytes(m@.len() as u32).len() <= 5);
    assert(mp_array_len_bytes(3).len() == 1);
    size_vec(v)
}

/// A framed message `[id, method, value]` with an integer value.
pub fn sencode(id: i64, method: &str, value: i64) -> (r: Vec<u8>)
    requires
        method.spec_bytes().len() <= 0xffff,
    ensures
        r@ == p32s((message_head(id, method.spec_bytes()) + mp_sint_bytes(value)).len() as u32)
            + message_head(id, method.spec_bytes()) + mp_sint_bytes(value),
{
    let mut p: Vec<u8> = Vec::new();
    mp_write_sint(&mut p, value);
    message(id, method, p.as_slice())
}

/// The array length and header size of a MessagePack array header at `pos`.
pub open spec fn mp_array_len_at(b: Seq<u8>, pos: int) -> Option<(u32, int)> {
    if pos < 0 || pos >= b.len() {
        None
    } else if 0x90 <= b[pos] <= 0x9f {
        Some(((b[pos] - 0x90) as u32, 1))
    } else if b[pos] == 0xdc && pos + 3 <= b.len() {
        Some((be16(b.subrange(pos + 1, pos + 3)) as u32, 3))
    } else if b[pos] == 0xdd && pos + 5 <= b.len() {
        Some((be32(b.subrange(pos + 1, pos + 5)), 5))
    } else {
        None
    }
}

/// The length and header size of a MessagePack string header at `pos`.
pub open spec fn mp_str_len_at(b: Seq<u8>, pos: int) -> Option<(u32, int)> {
    if pos < 0 || pos >= b.len() {
        None
    } else if 0xa0 <= b[pos] <= 0xbf {
        Some(((b[pos] - 0xa0) as u32, 1))
    } else if b[pos] == 0xd9 && pos + 2 <= b.len() {
        Some((b[pos + 1] as u32, 2))
    } else if b[pos] == 0xda && pos + 3 <= b.len() {
        Some((be16(b.subrange(pos + 1, pos + 3)) as u32, 3))
    } else if b[pos] == 0xdb && pos + 5 <= b.len() {
        Some((be32(b.subrange(pos + 1, pos + 5)), 5))
    } else {
        None
    }
}

/// The length and header size of a MessagePack binary header at `pos`.
pub open spec fn mp_bin_len_at(b: Seq<u8>, pos: int) -> Option<(u32, int)> {
    if pos < 0 || pos >= b.len() {
        None
    } else if b[pos] == 0xc4 && pos + 2 <= b.len() {
        Some((b[pos + 1] as u32, 2))
    } else if b[pos] == 0xc5 && pos + 3 <= b.len() {
        Some((be16(b.subrange(pos + 1, pos + 3)) as u32, 3))
    } else if b[pos] == 0xc6 && pos + 5 <= b.len() {
        Some((be32(b.subrange(pos + 1, pos + 5)), 5))
    } else {
        None
    }
}

/// The MessagePack boolean at `pos`.
pub open spec fn mp_bool_at(b: Seq<u8>, pos: int) -> Option<bool> {
    if pos < 0 || pos >= b.len() {
        None
    } else if b[pos] == 0xc2 {
        Some(false)
    } else if b[pos] == 0xc3 {
        Some(true)
    } else {
        None
    }
}

/// The MessagePack integer at `pos` as an `i64`, and its size.
pub open spec fn mp_int_at(b: Seq<u8>, pos: int) -> Option<(i64, int)> {
    if pos < 0 || pos >= b.len() {
        None
    } else {
        let m = b[pos];
        if m <= 0x7f {
            Some((m as i64, 1))
        } else if m >= 0xe0 {
            Some(((m as i8) as i64, 1))
        } else if m == 0xcc && pos + 2 <= b.len() {
            Some((b[pos + 1] as i64, 2))
        } else if m == 0xcd && pos + 3 <= b.len() {
            Some((be16(b.subrange(pos + 1, pos + 3)) as i64, 3))
        } else if m == 0xce && pos + 5 <= b.len() {
            Some((be32(b.subrange(pos + 1, pos + 5)) as i64, 5))
        } else if m == 0xcf && pos + 9 <= b.len() && be64(b.subrange(pos + 1, pos + 9))
            <= i64::MAX {
            Some((be64(b.subrange(pos + 1, pos + 9)) as i64, 9))
        } else if m == 0xd0 && pos + 2 <= b.len() {
            Some(((b[pos + 1] as i8) as i64, 2))
        } else if m == 0xd1 && pos + 3 <= b.len() {
            Some(((be16(b.subrange(pos + 1, pos + 3)) as i16) as i64, 3))
        } else if m == 0xd2 && pos + 5 <= b.len() {
            Some(((be32(b.subrange(pos + 1, pos + 5)) as i32) as i64, 5))
        } else if m == 0xd3 && pos + 9 <= b.len() {
            Some((be64(b.subrange(pos + 1, pos + 9)) as i64, 9))
        } else {
            None
        }
    }
}

/// Relies on rmp::decode::read_array_len on the bytes of `b` from `pos`:
/// fixarray, array 16 or array 32.
#[verifier::external_body]
fn mp_read_array_len(b: &Vec<u8>, pos: usize) -> (r: Option<(u32, usize)>)
    requires
        pos <= b@.len(),
    ensures
        r == (match mp_array_len_at(b@, pos as int) {
            Some((n, k)) => Some((n, k as usize)),
            None => None,
        }),
{
    let mut rd: &[u8] = &b[pos..];
    match rmp::decode::read_array_len(&mut rd) {
        Ok(n) => Some((n, b.len() - pos - rd.len())),
        Err(_) => None,
    }
}

/// Relies on rmp::decode::read_str_len on the bytes of `b` from `pos`:
/// fixstr, str 8, 16 or 32.
#[verifier::external_body]
fn mp_read_str_len(b: &Vec<u8>, pos: usize) -> (r: Option<(u32, usize)>)
    requires
        pos <= b@.len(),
    ensures
        r == (match mp_str_len_at(b@, pos as int) {
            Some((n, k)) => Some((n, k as usize)),
            None => None,
        }),
{
    let mut rd: &[u8] = &b[pos..];
    match rmp::decode::read_str_len(&mut rd) {
        Ok(n) => Some((n, b.len() - pos - rd.len())),
        Err(_) => None,
    }
}

/// Relies on rmp::decode::read_bin_len on the bytes of `b` from `pos`:
/// bin 8, 16 or 32.
#[verifier::external_body]
fn mp_read_bin_len(b: &Vec<u8>, pos: usize) -> (r: Option<(u32, usize)>)
    requires
        pos <= b@.len(),
    ensures
        r == (match mp_bin_len_at(b@, pos as int) {
            Some((n, k)) => Some((n, k as usize)),
            None => None,
        }),
{
    let mut rd: &[u8] = &b[pos..];
    match rmp::decode::read_bin_len(&mut rd) {
        Ok(n) => Some((n, b.len() - pos - rd.len())),
        Err(_) => None,
    }
}

/// Relies on rmp::decode::read_bool on the bytes of `b` from `pos`.
#[verifier::external_body]
fn mp_read_bool(b: &Vec<u8>, pos: usize) -> (r: Option<bool>)
    requires
        pos <= b@.len(),
    ensures
        r == mp_bool_at(b@, pos as int),
{
    let mut rd: &[u8] = &b[pos..];
    rmp::decode::read_bool(&mut rd).ok()
}

/// Relies on rmp::decode::read_int (as `i64`) on the bytes of `b` from
/// `pos`: any integer format whose value fits.
#[verifier::external_body]
fn mp_read_int(b: &Vec<u8>, pos: usize) -> (r: Option<(i64, usize)>)
    requires
        pos <= b@.len(),
    ensures
        r == (match mp_int_at(b@, pos as int) {
            Some((v, k)) => Some((v, k as usize)),
            None => None,
        }),
{
    let mut rd: &[u8] = &b[pos..];
    match rmp::decode::read_int::<i64, _>(&mut rd) {
        Ok(v) => Some((v, b.len() - pos - rd.len())),
        Err(_) => None,
    }
}

/// A decoded wire message, or an event the storage hands to a client's
/// writer.
#[derive(Debug, PartialEq)]
pub enum Zeo {
    Raw(Vec<u8>),
    End,
    Register(i64, String, bool),
    LoadBefore(i64, Oid, Tid),
    GetInfo(i64),
    NewOids(i64),
    TpcBegin(u64, Bytes, Bytes, Bytes),
    Storea(Oid, Tid, Bytes, u64),
    Vote(i64, u64),
    TpcFinish(i64, u64),
    TpcAbort(i64, u64),
    Ping(i64),
    Locked(i64, u64),
    Finished(i64, Tid, u64, u64),
    Invalidate(Tid, Vec<Oid>),
}

/// The payload of the first complete frame of `input`, and what follows it.
pub open spec fn first_frame(input: Seq<u8>) -> Option<(Seq<u8>, Seq<u8>)> {
    if input.len() < 4 {
        None
    } else {
        let n = be32(input.subrange(0, 4)) as int;
        if input.len() < 4 + n {
            None
        } else {
            Some((input.subrange(4, 4 + n), input.subrange(4 + n, input.len() as int)))
        }
    }
}

/// Splits a byte stream into frames and decodes them.
pub struct ZeoIter {
    input: Vec<u8>,
}

impl ZeoIter {
    /// Bytes received and not yet taken as frames.
    pub closed spec fn pending(&self) -> Seq<u8> {
        self.input@
    }

    /// A reader over the bytes received so far.
    pub fn new(input: Vec<u8>) -> (r: ZeoIter)
        ensures
            r.pending() == input@,
    {
        ZeoIter { input }
    }

    /// Appends bytes received.
    pub fn feed(&mut self, bytes: &[u8])
        ensures
            final(self).pending() == old(self).pending() + bytes@,
    {
        push_bytes(&mut self.input, bytes);
    }

    /// Takes the payload of the next complete frame, if there is one.
    pub fn next_vec(&mut self) -> (r: Option<Vec<u8>>)
        ensures
            match first_frame(old(self).pending()) {
                None => r is None && final(self).pending() == old(self).pending(),
                Some((p, rest)) => (r matches Some(v) && v@ == p && final(self).pending() == rest),
            },
    {
        let len = self.input.len();
        if len < 4 {
            return None;
        }
        let n = read_u32_at(&self.input, 0) as usize;
        if len - 4 < n {
            return None;
        }
        let payload = bytes_at(&self.input, 4, n);
        let rest = bytes_at(&self.input, 4 + n, len - 4 - n);
        self.input = rest;
        Some(payload)
    }

    /// Decodes the next message, skipping heartbeats (payloads that begin
    /// with 147, 255). `Zeo::End` where no complete frame is left.
    pub fn next(&mut self) -> (r: Result<Zeo, POSError>)
        ensures
            first_frame(old(self).pending()) is None ==> r matches Ok(Zeo::End),
            final(self).pending().len() <= old(self).pending().len(),
    {
        loop
            invariant
                self.pending().len() <= old(self).pending().len(),
                first_frame(old(self).pending()) is None ==> self.pending() == old(self).pending(),
            decreases self.pending().len(),
        {
            match self.next_vec() {
                None => {
                    return Ok(Zeo::End);
                },
                Some(p) => {
                    if p.len() >= 2 && p[0] == 147 && p[1] == 255 {
                        continue ;
                    }
                    return parse_message(&p);
                },
            }
        }
    }
}

/// The bytes `a` equal the bytes `b`.
fn bytes_eq(a: &Vec<u8>, b: &[u8]) -> (r: bool)
    ensures
        r == (a@ == b@),
{
    if a.len() != b.len() {
        return false;
    }
    let mut i: usize = 0;
    while i < a.len()
        invariant
            a@.len() == b@.len(),
            i <= a@.len(),
            forall|k: int| 0 <= k < i ==> a@[k] == b@[k],
        decreases a@.len() - i,
    {
        if a[i] != b[i] {
            return false;
        }
        i = i + 1;
    }
    assert(a@ =~= b@);
    true
}

/// Reads a MessagePack binary at `pos`: its bytes and the position after.
fn read_bin(b: &Vec<u8>, pos: usize) -> (r: Option<(Vec<u8>, usize)>)
    requires
        pos <= b@.len(),
    ensures
        r matches Some((v, next)) ==> next <= b@.len() && match mp_bin_len_at(b@, pos as int) {
            Some((n, k)) => v@ == b@.subrange(pos + k, pos + k + n) && next == pos + k + n,
            None => false,
        },
{
    let _len = b.len();
    match mp_read_bin_len(b, pos) {
        None => None,
        Some((n, k)) => {
            let start = pos + k;
            if n as usize > b.len() - start {
                return None;
            }
            Some((bytes_at(b, start, n as usize), start + n as usize))
        },
    }
}

/// Reads an 8-byte identifier sent as a MessagePack binary at `pos` (its
/// first eight bytes).
fn read_id(b: &Vec<u8>, pos: usize) -> (r: Option<([u8; 8], usize)>)
    requires
        pos <= b@.len(),
    ensures
        r matches Some((_, next)) ==> next <= b@.len(),
{
    match read_bin(b, pos) {
        None => None,
        Some((v, next)) => match crate::util::read8(&v, 0) {
            Ok(id) => Some((id, next)),
            Err(_) => None,
        },
    }
}

/// Reads a non-negative MessagePack integer at `pos`.
fn read_count(b: &Vec<u8>, pos: usize) -> (r: Option<(u64, usize)>)
    requires
        pos <= b@.len(),
    ensures
        r matches Some((v, next)) ==> next <= b@.len() && (match mp_int_at(b@, pos as int) {
            Some((i, k)) => i >= 0 && v == i && next == pos + k,
            None => false,
        }),
{
    let _len = b.len();
    match mp_read_int(b, pos) {
        Some((v, k)) => {
            if v < 0 {
                return None;
            }
            Some((v as u64, pos + k))
        },
        None => None,
    }
}

/// Reads an argument array header of exactly `n` elements at `pos`.
fn read_args(b: &Vec<u8>, pos: usize, n: u32) -> (r: Option<usize>)
    requires
        pos <= b@.len(),
    ensures
        r matches Some(next) ==> next <= b@.len() && mp_array_len_at(b@, pos as int) == Some(
            (n, next - pos),
        ),
{
    let _len = b.len();
    match mp_read_array_len(b, pos) {
        Some((len, k)) => {
            if len != n {
                return None;
            }
            Some(pos + k)
        },
        None => None,
    }
}

/// The id of the message `[id, method, args]` in `b`.
pub open spec fn message_id(b: Seq<u8>) -> Option<(i64, int)> {
    match mp_array_len_at(b, 0) {
        Some((n, k)) => if n == 3 {
            match mp_int_at(b, k) {
                Some((id, k2)) => Some((id, k + k2)),
                None => None,
            }
        } else {
            None
        },
        None => None,
    }
}

/// The method name of the message in `b`, and where its arguments begin.
pub open spec fn message_method(b: Seq<u8>) -> Option<(Seq<u8>, int)> {
    match message_id(b) {
        Some((_, pos)) => match mp_str_len_at(b, pos) {
            Some((ml, k)) => if pos + k + ml <= b.len() {
                Some((b.subrange(pos + k, pos + k + ml), pos + k + ml))
            } else {
                None
            },
            None => None,
        },
        None => None,
    }
}

/// The message in `b` has this id and this method.
pub open spec fn message_is(b: Seq<u8>, id: i64, method: &str) -> bool {
    &&& message_id(b) matches Some((i, _)) && i == id
    &&& message_method(b) matches Some((m, _)) && m == method.spec_bytes()
}

/// Reads the head `[id, method, ...` of a message: the id, the method's
/// bytes and the position of the arguments.
fn parse_head(b: &Vec<u8>) -> (r: Option<(i64, Vec<u8>, usize)>)
    ensures
        r is None <==> message_method(b@) is None,
        r matches Some((id, m, pos)) ==> pos <= b@.len() && (message_id(b@) matches Some((i, _))
            && i == id) && message_method(b@) == Some((m@, pos as int)),
{
    let _len = b.len();
    let pos: usize = match mp_read_array_len(b, 0) {
        Some((n, k)) => {
            if n != 3 {
                return None;
            }
            k
        },
        None => {
            return None;
        },
    };
    let (id, k) = match mp_read_int(b, pos) {
        Some(x) => x,
        None => {
            return None;
        },
    };
    let pos = pos + k;
    let (ml, k) = match mp_read_str_len(b, pos) {
        Some(x) => x,
        None => {
            return None;
        },
    };
    let pos = pos + k;
    if ml as usize > b.len() - pos {
        return None;
    }
    let method = bytes_at(b, pos, ml as usize);
    Some((id, method, pos + ml as usize))
}

/// Arguments of `loadBefore`: the object and the TID, as binaries.
fn parse_load_before(b: &Vec<u8>, pos: usize, id: i64) -> (r: Option<Zeo>)
    requires
        pos <= b@.len(),
    ensures
        r matches Some(z) ==> (z matches Zeo::LoadBefore(i, _, _) && i == id),
{
    let pos = read_args(b, pos, 2)?;
    let (oid, pos) = read_id(b, pos)?;
    let (before, _) = read_id(b, pos)?;
    Some(Zeo::LoadBefore(id, oid, before))
}

/// Arguments of `register`: the storage name and the read-only flag.
fn parse_register(b: &Vec<u8>, pos: usize, id: i64) -> (r: Option<Zeo>)
    requires
        pos <= b@.len(),
    ensures
        r matches Some(z) ==> (z matches Zeo::Register(i, _, _) && i == id),
{
    let _len = b.len();
    let pos = read_args(b, pos, 2)?;
    let (sl, k) = mp_read_str_len(b, pos)?;
    let pos = pos + k;
    if sl as usize > b.len() - pos {
        return None;
    }
    let sbytes = bytes_at(b, pos, sl as usize);
    let pos = pos + sl as usize;
    let storage = utf8_string(sbytes)?;
    let read_only = mp_read_bool(b, pos)?;
    Some(Zeo::Register(id, storage, read_only))
}

/// Arguments of `storea`: object, serial, data and transaction number.
fn parse_storea(b: &Vec<u8>, pos: usize) -> (r: Option<Zeo>)
    requires
        pos <= b@.len(),
    ensures
        r matches Some(z) ==> z is Storea,
{
    let pos = read_args(b, pos, 4)?;
    let (oid, pos) = read_id(b, pos)?;
    let (serial, pos) = read_id(b, pos)?;
    let (data, pos) = read_bin(b, pos)?;
    let (txn, _) = read_count(b, pos)?;
    Some(Zeo::Storea(oid, serial, data, txn))
}

/// Arguments of `tpc_begin`: transaction number, user, description and
/// extension (two further arguments are not used).
fn parse_tpc_begin(b: &Vec<u8>, pos: usize) -> (r: Option<Zeo>)
    requires
        pos <= b@.len(),
    ensures
        r matches Some(z) ==> z is TpcBegin,
{
    let pos = read_args(b, pos, 6)?;
    let (txn, pos) = read_count(b, pos)?;
    let (user, pos) = read_bin(b, pos)?;
    let (desc, pos) = read_bin(b, pos)?;
    let (ext, _) = read_bin(b, pos)?;
    Some(Zeo::TpcBegin(txn, user, desc, ext))
}

/// The single argument of `vote`, `tpc_finish` and `tpc_abort`: the
/// transaction number.
fn parse_txn(b: &Vec<u8>, pos: usize) -> (r: Option<u64>)
    requires
        pos <= b@.len(),
{
    let pos = read_args(b, pos, 1)?;
    let (txn, _) = read_count(b, pos)?;
    Some(txn)
}

/// Decodes a message payload `[id, method, args]`.
pub fn parse_message(b: &Vec<u8>) -> (r: Result<Zeo, POSError>)
    ensures
        message_method(b@) is None ==> r is Err,
        r is Err ==> r == Err::<Zeo, POSError>(POSError::Format),
        r matches Ok(z) ==> match z {
            Zeo::Ping(i) => message_is(b@, i, "ping"),
            Zeo::NewOids(i) => message_is(b@, i, "new_oids"),
            Zeo::GetInfo(i) => message_is(b@, i, "get_info"),
            Zeo::LoadBefore(i, _, _) => message_is(b@, i, "loadBefore"),
            Zeo::Register(i, _, _) => message_is(b@, i, "register"),
            Zeo::Vote(i, _) => message_is(b@, i, "vote"),
            Zeo::TpcFinish(i, _) => message_is(b@, i, "tpc_finish"),
            Zeo::TpcAbort(i, _) => message_is(b@, i, "tpc_abort"),
            Zeo::Storea(_, _, _, _) => message_method(b@) matches Some((m, _)) && m
                == "storea".spec_bytes(),
            Zeo::TpcBegin(_, _, _, _) => message_method(b@) matches Some((m, _)) && m
                == "tpc_begin".spec_bytes(),
            _ => false,
        },
{
    let (id, method, pos) = match parse_head(b) {
        Some(x) => x,
        None => {
            return Err(POSError::Format);
        },
    };
    let parsed = if bytes_eq(&method, "ping".as_bytes()) {
        Some(Zeo::Ping(id))
    } else if bytes_eq(&method, "new_oids".as_bytes()) {
        Some(Zeo::NewOids(id))
    } else if bytes_eq(&method, "get_info".as_bytes()) {
        Some(Zeo::GetInfo(id))
    } else if bytes_eq(&method, "loadBefore".as_bytes()) {
        parse_load_before(b, pos, id)
    } else if bytes_eq(&method, "register".as_bytes()) {
        parse_register(b, pos, id)
    } else if bytes_eq(&method, "storea".as_bytes()) {
        parse_storea(b, pos)
    } else if bytes_eq(&method, "tpc_begin".as_bytes()) {
        parse_tpc_begin(b, pos)
    } else if bytes_eq(&method, "vote".as_bytes()) {
        match parse_txn(b, pos) {
            Some(t) => Some(Zeo::Vote(id, t)),
            None => None,
        }
    } else if bytes_eq(&method, "tpc_finish".as_bytes()) {
        match parse_txn(b, pos) {
            Some(t) => Some(Zeo::TpcFinish(id, t)),
            None => None,
        }
    } else if bytes_eq(&method, "tpc_abort".as_bytes()) {
        match parse_txn(b, pos) {
            Some(t) => Some(Zeo::TpcAbort(id, t)),
            None => None,
        }
    } else {
        None
    };
    match parsed {
        Some(z) => Ok(z),
        None => Err(POSError::Format),
    }
}

} // verus!
