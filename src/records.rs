//! Byte layouts of the log: the file header, commit (transaction) record
//! headers and data record headers.

use vstd::prelude::*;

use crate::errors::POSError;
use crate::index::Index;
use crate::util::{
    be16, be32, be64, p16s, p32s, p64s, check_magic, push_bytes, push_u16, push_u32, push_u64, id_at,
    bytes_at, read_u16_at, utf8_string, u64_of, lemma_p64s_be64, lemma_p32s_be32, lemma_p16s_be16, read_u32_at, read_u64_at, Oid, Tid,
};

verus! {

/// Length of the file header; records start here.
pub const HEADER_SIZE: u64 = 4096;

/// Length of a commit record header after its 4-byte marker.
pub const TRANSACTION_HEADER_LENGTH: u64 = 28;

/// Length of a data record header.
pub const DATA_HEADER_SIZE: u64 = 36;

/// Offset of the TID within a data record header.
pub const DATA_TID_OFFSET: u64 = 12;

/// Offset of the back pointer within a data record header.
pub const DATA_PREVIOUS_OFFSET: u64 = 20;

/// Offset of the trailing u64 of the file header.
pub const HEADER_TRAILER_POS: u64 = 4088;

/// Magic at the start of the log file: `fs2 `.
pub const HEADER_MARKER: [u8; 4] = [0x66, 0x73, 0x32, 0x20];

/// The magic bytes `fs2 `.
pub open spec fn header_marker() -> Seq<u8> {
    seq![0x66u8, 0x73u8, 0x32u8, 0x20u8]
}

/// `n` zero bytes.
pub open spec fn zeros(n: nat) -> Seq<u8> {
    Seq::new(n, |i: int| 0u8)
}

/// The log's file header.
#[derive(Debug)]
pub struct FileHeader {
    pub alignment: u64,
    pub previous: String,
}

/// The 4096 bytes of a file header.
pub open spec fn file_header_bytes(alignment: u64, previous: Seq<u8>) -> Seq<u8> {
    header_marker() + p64s(4096) + p64s(alignment) + p16s(previous.len() as u16) + previous + zeros(
        (4066 - previous.len()) as nat,
    ) + p64s(4096)
}

/// What a well-formed file header at the start of `b` holds.
pub open spec fn file_header_valid(b: Seq<u8>) -> bool {
    &&& b.len() >= 4096
    &&& b.subrange(0, 4) == header_marker()
    &&& be64(b.subrange(4, 12)) == 4096
    &&& be16(b.subrange(20, 22)) <= 4066
    &&& vstd::utf8::valid_utf8(b.subrange(22, 22 + be16(b.subrange(20, 22))))
    &&& be64(b.subrange(4088, 4096)) == 4096
}

impl FileHeader {
    /// A header with the default alignment hint (2^32) and no previous file.
    pub fn new() -> (r: FileHeader)
        ensures
            r.alignment == 0x1_0000_0000u64,
            r.previous@.len() == 0,
    {
        FileHeader { alignment: 0x1_0000_0000u64, previous: String::new() }
    }

    /// Parses the file header at the start of `b`.
    pub fn read(b: &Vec<u8>) -> (r: Result<FileHeader, POSError>)
        ensures
            r is Ok <==> file_header_valid(b@),
            r is Err ==> r == Err::<FileHeader, POSError>(POSError::Format),
            r matches Ok(h) ==> h.alignment == be64(b@.subrange(12, 20)) && vstd::utf8::encode_utf8(
                h.previous@,
            ) == b@.subrange(22, 22 + be16(b@.subrange(20, 22))),
    {
        if b.len() < 4096 {
            return Err(POSError::Format);
        }
        if !check_magic(b, 0, &HEADER_MARKER) {
            return Err(POSError::Format);
        }
        assert(HEADER_MARKER@ =~= header_marker());
        if read_u64_at(b, 4) != 4096 {
            return Err(POSError::Format);
        }
        let alignment = read_u64_at(b, 12);
        let l = read_u16_at(b, 20);
        if l > 4066 {
            return Err(POSError::Format);
        }
        let bytes = bytes_at(b, 22, l as usize);
        let previous = match utf8_string(bytes) {
            Some(p) => p,
            None => {
                return Err(POSError::Format);
            },
        };
        if read_u64_at(b, 4088) != 4096 {
            return Err(POSError::Format);
        }
        Ok(FileHeader { alignment, previous })
    }

    /// The 4096 bytes of this header.
    pub fn write(&self) -> (r: Vec<u8>)
        requires
            vstd::utf8::encode_utf8(self.previous@).len() <= 4066,
        ensures
            r@ == file_header_bytes(self.alignment, vstd::utf8::encode_utf8(self.previous@)),
            r@.len() == 4096,
    {
        let mut r: Vec<u8> = Vec::new();
        push_bytes(&mut r, &HEADER_MARKER);
        push_u64(&mut r, 4096);
        push_u64(&mut r, self.alignment);
        let previous = self.previous.as_str().as_bytes();
        push_u16(&mut r, previous.len() as u16);
        push_bytes(&mut r, previous);
        let pad: usize = 4066 - previous.len();
        let mut i: usize = 0;
        let ghost before = r@;
        while i < pad
            invariant
                i <= pad,
                r@ == before + zeros(i as nat),
            decreases pad - i,
        {
            r.push(0u8);
            i = i + 1;
            assert(r@ =~= before + zeros(i as nat));
        }
        push_u64(&mut r, 4096);
        assert(HEADER_MARKER@ =~= header_marker());
        assert(r@ =~= file_header_bytes(self.alignment, vstd::utf8::encode_utf8(self.previous@)));
        r
    }
}

/// The header of a commit record, after its 4-byte marker.
#[derive(PartialEq, Eq, Debug)]
pub struct TransactionHeader {
    pub length: u64,
    pub id: Tid,
    pub ndata: u32,
    pub luser: u16,
    pub ldesc: u16,
    pub lext: u32,
}

/// The 28 bytes of a commit record header.
pub open spec fn transaction_header_bytes(h: TransactionHeader) -> Seq<u8> {
    p64s(h.length) + h.id@ + p32s(h.ndata) + p16s(h.luser) + p16s(h.ldesc) + p32s(h.lext)
}

impl TransactionHeader {
    /// A header for `tid` with all lengths and counts zero.
    pub fn new(tid: Tid) -> (r: TransactionHeader)
        ensures
            r == (TransactionHeader { length: 0, id: tid, ndata: 0, luser: 0, ldesc: 0, lext: 0 }),
    {
        TransactionHeader { length: 0, id: tid, luser: 0, ldesc: 0, lext: 0, ndata: 0 }
    }


    /// Parses the commit record header at `pos` of `b` (just after the marker).
    pub fn read(b: &Vec<u8>, pos: usize) -> (r: Result<TransactionHeader, POSError>)
        ensures
            r is Ok <==> pos + 28 <= b@.len(),
            r is Err ==> r == Err::<TransactionHeader, POSError>(POSError::Format),
            r matches Ok(h) ==> transaction_header_bytes(h) == b@.subrange(pos as int, pos + 28),
    {
        let n = b.len();
        if pos > n || n - pos < 28 {
            return Err(POSError::Format);
        }
        let length = read_u64_at(b, pos);
        let id = id_at(b, pos + 8);
        let ndata = read_u32_at(b, pos + 16);
        let luser = read_u16_at(b, pos + 20);
        let ldesc = read_u16_at(b, pos + 22);
        let lext = read_u32_at(b, pos + 24);
        let h = TransactionHeader { length, id, ndata, luser, ldesc, lext };
        proof {
            lemma_p64s_be64(b@.subrange(pos as int, pos + 8));
            lemma_p32s_be32(b@.subrange(pos + 16, pos + 20));
            lemma_p16s_be16(b@.subrange(pos + 20, pos + 22));
            lemma_p16s_be16(b@.subrange(pos + 22, pos + 24));
            lemma_p32s_be32(b@.subrange(pos + 24, pos + 28));
            assert(transaction_header_bytes(h) =~= b@.subrange(pos as int, pos + 28));
        }
        Ok(h)
    }

    /// Appends the 28 bytes of this header to `out`.
    pub fn write(&self, out: &mut Vec<u8>)
        ensures
            final(out)@ == old(out)@ + transaction_header_bytes(*self),
    {
        push_u64(out, self.length);
        push_bytes(out, &self.id);
        push_u32(out, self.ndata);
        push_u16(out, self.luser);
        push_u16(out, self.ldesc);
        push_u32(out, self.lext);
        assert(out@ =~= old(out)@ + transaction_header_bytes(*self));
    }

    /// Maps the object of each data record of this commit record to the
    /// record's position in `log`, and returns the largest of `last_oid` and
    /// those objects. `pos` is the position just after this header.
    pub fn update_index(&self, log: &Vec<u8>, pos: usize, index: &mut Index, last_oid: u64) -> (r:
        Result<u64, POSError>)
        requires
            old(index).wf(),
        ensures
            final(index).wf(),
            r is Ok <==> data_start(*self, pos as int) <= log@.len() && records_fit(
                log@,
                data_start(*self, pos as int),
                self.ndata as nat,
            ),
            r is Err ==> r == Err::<u64, POSError>(POSError::Format),
            r matches Ok(o) ==> final(index)@ == index_records(
                log@,
                old(index)@,
                data_start(*self, pos as int),
                self.ndata as nat,
            ) && o == max_oid(log@, last_oid, data_start(*self, pos as int), self.ndata as nat),
    {
        let n = log.len();
        let skip: u64 = self.luser as u64 + self.ldesc as u64 + self.lext as u64;
        if pos > n || skip > (n - pos) as u64 {
            return Err(POSError::Format);
        }
        let mut p: usize = pos + skip as usize;
        let ghost start = p as int;
        let mut last: u64 = last_oid;
        let mut i: u32 = 0;
        while i < self.ndata
            invariant
                n == log@.len(),
                index.wf(),
                i <= self.ndata,
                p <= n,
                start == data_start(*self, pos as int),
                records_fit(log@, start, self.ndata as nat) == records_fit(
                    log@,
                    p as int,
                    (self.ndata - i) as nat,
                ),
                index_records(log@, old(index)@, start, self.ndata as nat) == index_records(
                    log@,
                    index@,
                    p as int,
                    (self.ndata - i) as nat,
                ),
                max_oid(log@, last_oid, start, self.ndata as nat) == max_oid(
                    log@,
                    last,
                    p as int,
                    (self.ndata - i) as nat,
                ),
            decreases self.ndata - i,
        {
            if n - p < 36 {
                return Err(POSError::Format);
            }
            let ldata = read_u32_at(log, p);
            let oid = id_at(log, p + 4);
            let o = u64_of(&oid);
            if ldata as usize > n - p - 36 {
                return Err(POSError::Format);
            }
            index.insert(o, p as u64);
            if o > last {
                last = o;
            }
            p = p + 36 + ldata as usize;
            i = i + 1;
        }
        Ok(last)
    }
}

/// End of the data record at `pos` of `log`: its header and its data.
pub open spec fn data_record_end(log: Seq<u8>, pos: int) -> int {
    pos + 36 + be32(log.subrange(pos, pos + 4))
}

/// The object identifier of the data record at `pos` of `log`.
pub open spec fn data_record_oid(log: Seq<u8>, pos: int) -> u64 {
    be64(log.subrange(pos + 4, pos + 12))
}

/// `n` data records lie one after another from `pos`, each inside `log`.
pub open spec fn records_fit(log: Seq<u8>, pos: int, n: nat) -> bool
    decreases n,
{
    if n == 0 {
        true
    } else {
        0 <= pos && pos + 36 <= log.len() && data_record_end(log, pos) <= log.len() && records_fit(
            log,
            data_record_end(log, pos),
            (n - 1) as nat,
        )
    }
}

/// `m` after mapping the object of each of the `n` data records from `pos`
/// to the record's position, in order.
pub open spec fn index_records(log: Seq<u8>, m: Map<u64, u64>, pos: int, n: nat) -> Map<u64, u64>
    decreases n,
{
    if n == 0 {
        m
    } else {
        index_records(
            log,
            m.insert(data_record_oid(log, pos), pos as u64),
            data_record_end(log, pos),
            (n - 1) as nat,
        )
    }
}

/// The largest of `last` and the objects of the `n` data records from `pos`.
pub open spec fn max_oid(log: Seq<u8>, last: u64, pos: int, n: nat) -> u64
    decreases n,
{
    if n == 0 {
        last
    } else {
        let o = data_record_oid(log, pos);
        max_oid(log, if o > last { o } else { last }, data_record_end(log, pos), (n - 1) as nat)
    }
}

/// Where the data records of the commit record with header `h` start,
/// given the position `pos` just after the header.
pub open spec fn data_start(h: TransactionHeader, pos: int) -> int {
    pos + h.luser + h.ldesc + h.lext
}

/// The header of a data record.
#[derive(PartialEq, Eq, Debug)]
pub struct DataHeader {
    pub length: u32,
    pub id: Oid,
    pub tid: Tid,
    pub previous: u64,
    pub offset: u64,
}

/// The 36 bytes of a data record header.
pub open spec fn data_header_bytes(h: DataHeader) -> Seq<u8> {
    p32s(h.length) + h.id@ + h.tid@ + p64s(h.previous) + p64s(h.offset)
}

impl DataHeader {
    /// Parses the data record header at `pos` of `b`.
    pub fn read(b: &Vec<u8>, pos: usize) -> (r: Result<DataHeader, POSError>)
        ensures
            r is Ok <==> pos + 36 <= b@.len(),
            r is Err ==> r == Err::<DataHeader, POSError>(POSError::Format),
            r matches Ok(h) ==> data_header_bytes(h) == b@.subrange(pos as int, pos + 36),
    {
        let n = b.len();
        if pos > n || n - pos < 36 {
            return Err(POSError::Format);
        }
        let length = read_u32_at(b, pos);
        let id = id_at(b, pos + 4);
        let tid = id_at(b, pos + 12);
        let previous = read_u64_at(b, pos + 20);
        let offset = read_u64_at(b, pos + 28);
        let h = DataHeader { length, id, tid, previous, offset };
        proof {
            lemma_p32s_be32(b@.subrange(pos as int, pos + 4));
            lemma_p64s_be64(b@.subrange(pos + 20, pos + 28));
            lemma_p64s_be64(b@.subrange(pos + 28, pos + 36));
            assert(data_header_bytes(h) =~= b@.subrange(pos as int, pos + 36));
        }
        Ok(h)
    }

    /// Appends the 36 bytes of this header to `out`.
    pub fn write(&self, out: &mut Vec<u8>)
        ensures
            final(out)@ == old(out)@ + data_header_bytes(*self),
    {
        push_u32(out, self.length);
        push_bytes(out, &self.id);
        push_bytes(out, &self.tid);
        push_u64(out, self.previous);
        push_u64(out, self.offset);
        assert(out@ =~= old(out)@ + data_header_bytes(*self));
    }
}

} // verus!
