//! The storage engine: the log image, its position index, recovery on
//! open, historical loads, and two-phase commit with per-object locking and
//! ordered publication of commits.

use vstd::prelude::*;

use crate::errors::POSError;
use crate::index::Index;
use crate::lock::LockManager;
use crate::records::{
    FileHeader, TransactionHeader, data_start, index_records, max_oid, records_fit, HEADER_SIZE,
};
use crate::tid::later_than;
use crate::transaction::{
    commit_header_length, commit_record_bytes, is_latest, latest, lemma_latest_upto, link_all,
    padding_marker, records_offsets, Transaction, TransactionState,
};
use crate::util::{
    be16, be32, be64, p64, p64s, read4, id_at, same_id, bytes_at, read_u16_at, read_u32_at, read_u64_at, u64_of,
    Bytes, Oid, Tid,
};

verus! {

/// Marker of a committed record: `TTTT`.
pub const TRANSACTION_MARKER: [u8; 4] = [0x54, 0x54, 0x54, 0x54];

/// The bytes `TTTT`.
pub open spec fn transaction_marker() -> Seq<u8> {
    seq![0x54u8, 0x54u8, 0x54u8, 0x54u8]
}

/// Total length of the record at `pos`, from its header.
pub open spec fn record_length(log: Seq<u8>, pos: int) -> int {
    be64(log.subrange(pos + 4, pos + 12)) as int
}

/// The trailing copy of the length of the record at `pos` that is `length` long.
pub open spec fn record_trailer(log: Seq<u8>, pos: int, length: int) -> int {
    be64(log.subrange(pos + length - 8, pos + length)) as int
}

/// The TID of the commit record at `pos`.
pub open spec fn record_tid(log: Seq<u8>, pos: int) -> u64 {
    be64(log.subrange(pos + 12, pos + 20))
}

/// The header of the commit record at `pos` (after its marker).
pub open spec fn record_header(log: Seq<u8>, pos: int) -> TransactionHeader {
    TransactionHeader {
        length: be64(log.subrange(pos + 4, pos + 12)),
        id: crate::util::Z64,
        ndata: be32(log.subrange(pos + 20, pos + 24)),
        luser: be16(log.subrange(pos + 24, pos + 26)),
        ldesc: be16(log.subrange(pos + 26, pos + 28)),
        lext: be32(log.subrange(pos + 28, pos + 32)),
    }
}

/// Recovery from `pos` on: applies each committed record to the index `m`,
/// tracking the last TID and the largest object; skips uncommitted
/// (`PPPP`) records, and an uncommitted record cut short at the end of the
/// log. `None` where the log is corrupt: an unknown marker, a length that
/// does not match its trailer, a record that runs past the end, or a TID
/// that does not increase.
pub open spec fn scan(log: Seq<u8>, pos: int, m: Map<u64, u64>, end: u64, oid: u64) -> Option<
    (Map<u64, u64>, u64, u64),
>
    decreases log.len() - pos,
{
    if pos >= log.len() {
        Some((m, end, oid))
    } else if pos < 0 || pos + 12 > log.len() {
        None
    } else {
        let length = record_length(log, pos);
        let mk = log.subrange(pos, pos + 4);
        if mk == padding_marker() {
            if pos + length > log.len() {
                Some((m, end, oid))
            } else if length < 40 || record_trailer(log, pos, length) != length {
                None
            } else {
                scan(log, pos + length, m, end, oid)
            }
        } else if mk == transaction_marker() {
            if length < 40 || pos + length > log.len() || record_trailer(log, pos, length)
                != length {
                None
            } else {
                let h = record_header(log, pos);
                let tid = record_tid(log, pos);
                let ds = data_start(h, pos + 32);
                if tid <= end || ds > log.len() || !records_fit(log, ds, h.ndata as nat) {
                    None
                } else {
                    scan(
                        log,
                        pos + length,
                        index_records(log, m, ds, h.ndata as nat),
                        tid,
                        max_oid(log, oid, ds, h.ndata as nat),
                    )
                }
            }
        } else {
            None
        }
    }
}

/// Replays the records of `log` from `pos` on into `index`, as `scan` says.
/// Returns the index, the last committed TID and the largest object seen.
pub fn recover(log: &Vec<u8>, start: usize, index0: Index, end0: u64, last_oid: u64) -> (r: Result<
    (Index, u64, u64),
    POSError,
>)
    requires
        index0.wf(),
    ensures
        scan(log@, start as int, index0@, end0, last_oid) is None ==> r == Err::<
            (Index, u64, u64),
            POSError,
        >(POSError::Format),
        scan(log@, start as int, index0@, end0, last_oid) matches Some((m, e, o)) ==> r matches Ok(
            (i, e2, o2),
        ) && i.wf() && i@ == m && e2 == e && o2 == o,
{
    let n = log.len();
    let ghost goal = scan(log@, start as int, index0@, end0, last_oid);
    let mut index = index0;
    let mut pos = start;
    let mut end = end0;
    let mut last = last_oid;
    while pos < n
        invariant
            n == log@.len(),
            index.wf(),
            scan(log@, pos as int, index@, end, last) == goal,
            goal == scan(log@, start as int, index0@, end0, last_oid),
        decreases n - pos,
    {
        if n - pos < 12 {
            assert(scan(log@, pos as int, index@, end, last) is None);
            return Err(POSError::Format);
        }
        let mk = read4(log, pos);
        let length = read_u64_at(log, pos + 4);
        proof {
            assert(mk@ == log@.subrange(pos as int, pos + 4));
        }
        if mk[0] == 0x50 && mk[1] == 0x50 && mk[2] == 0x50 && mk[3] == 0x50 {
            assert(log@.subrange(pos as int, pos + 4) =~= padding_marker());
            if length > (n - pos) as u64 {
                return Ok((index, end, last));
            }
            if length < 40 || read_u64_at(log, pos + length as usize - 8) != length {
                return Err(POSError::Format);
            }
            pos = pos + length as usize;
        } else if mk[0] == 0x54 && mk[1] == 0x54 && mk[2] == 0x54 && mk[3] == 0x54 {
            assert(log@.subrange(pos as int, pos + 4) =~= transaction_marker());
            assert(log@.subrange(pos as int, pos + 4) != padding_marker()) by {
                assert(log@.subrange(pos as int, pos + 4)[0] != padding_marker()[0]);
            }
            if length < 40 || length > (n - pos) as u64 || read_u64_at(
                log,
                pos + length as usize - 8,
            ) != length {
                return Err(POSError::Format);
            }
            let tid = read_u64_at(log, pos + 12);
            let h = TransactionHeader {
                length,
                id: crate::util::Z64,
                ndata: read_u32_at(log, pos + 20),
                luser: read_u16_at(log, pos + 24),
                ldesc: read_u16_at(log, pos + 26),
                lext: read_u32_at(log, pos + 28),
            };
            if tid <= end {
                return Err(POSError::Format);
            }
            proof {
                assert(h == record_header(log@, pos as int));
            }
            match h.update_index(log, pos + 32, &mut index, last) {
                Ok(o) => {
                    last = o;
                },
                Err(e) => {
                    return Err(e);
                },
            }
            end = tid;
            pos = pos + length as usize;
        } else {
            assert(log@.subrange(pos as int, pos + 4) != padding_marker()) by {
                let s = log@.subrange(pos as int, pos + 4);
                if s == padding_marker() {
                    assert(s[0] == 0x50 && s[1] == 0x50 && s[2] == 0x50 && s[3] == 0x50);
                }
            }
            assert(log@.subrange(pos as int, pos + 4) != transaction_marker()) by {
                let s = log@.subrange(pos as int, pos + 4);
                if s == transaction_marker() {
                    assert(s[0] == 0x54 && s[1] == 0x54 && s[2] == 0x54 && s[3] == 0x54);
                }
            }
            return Err(POSError::Format);
        }
    }
    Ok((index, end, last))
}

/// What a historical load found.
#[derive(Debug)]
pub enum LoadBeforeResult {
    /// The revision's data, its TID, and the TID of the revision after it
    /// (none where it is the latest).
    Loaded(Bytes, Tid, Option<Tid>),
    /// The object has no revision before the TID asked for.
    NoneBefore,
    /// The object is not in the index.
    PosKeyError,
}

/// A write whose serial is not the object's committed TID.
#[derive(Debug, PartialEq, Eq)]
pub struct Conflict {
    pub oid: Oid,
    pub serial: Tid,
    pub committed: Tid,
    pub data: Bytes,
}

/// Something the engine asks its host to deliver to a client.
#[derive(Debug, PartialEq, Eq)]
pub enum Notice {
    /// The transaction now holds every lock it asked for.
    Locked(Tid),
    /// To a client: these objects have a new revision at this TID.
    Invalidate(u64, Tid, Vec<Oid>),
    /// To the client that finished a commit: it is published at this TID;
    /// then the number of index entries and the length of the log.
    Finished(u64, Tid, u64, u64),
}

/// A commit record appended to the log but not yet published.
pub struct Voted {
    pub id: Tid,
    pub pos: u64,
    pub tid: Tid,
    pub length: u64,
    pub index: Index,
    pub finished: Option<u64>,
}

/// A conflict as plain sequences.
pub struct ConflictView {
    pub oid: Seq<u8>,
    pub serial: Seq<u8>,
    pub committed: Seq<u8>,
    pub data: Seq<u8>,
}

impl View for Conflict {
    type V = ConflictView;

    open spec fn view(&self) -> ConflictView {
        ConflictView {
            oid: self.oid@,
            serial: self.serial@,
            committed: self.committed@,
            data: self.data@,
        }
    }
}

/// What checking a transaction's serials against the index finds.
pub enum SerialCheck {
    /// Every object is known or new; these are the stale serials.
    Conflicts(Seq<ConflictView>),
    /// This object is not in the index, yet its serial is not zero.
    Missing(Seq<u8>),
    /// An index entry points outside the log.
    Corrupt,
}

/// Eight zero bytes: the serial of an object not yet created.
pub open spec fn zero8() -> Seq<u8> {
    seq![0u8, 0u8, 0u8, 0u8, 0u8, 0u8, 0u8, 0u8]
}

/// Checks each revision of `rs`, in order, against the TID of its object's
/// latest committed record (at offset 12 of the record the index points
/// at): a revision whose serial differs is a conflict; a revision of an
/// object missing from the index must have a zero serial.
pub open spec fn check_serials(log: Seq<u8>, m: Map<u64, u64>, rs: Seq<
    crate::transaction::RecordView,
>) -> SerialCheck
    decreases rs.len(),
{
    if rs.len() == 0 {
        SerialCheck::Conflicts(Seq::empty())
    } else {
        match check_serials(log, m, rs.drop_last()) {
            SerialCheck::Conflicts(cs) => {
                let r = rs.last();
                let o = be64(r.oid);
                if m.contains_key(o) {
                    let p = m[o] as int;
                    if p + 20 > log.len() {
                        SerialCheck::Corrupt
                    } else {
                        let c = log.subrange(p + 12, p + 20);
                        if c != r.serial {
                            SerialCheck::Conflicts(
                                cs.push(
                                    ConflictView {
                                        oid: r.oid,
                                        serial: r.serial,
                                        committed: c,
                                        data: r.data,
                                    },
                                ),
                            )
                        } else {
                            SerialCheck::Conflicts(cs)
                        }
                    }
                } else if r.serial != zero8() {
                    SerialCheck::Missing(r.oid)
                } else {
                    SerialCheck::Conflicts(cs)
                }
            },
            other => other,
        }
    }
}

/// Once the check of a prefix fails, the check of the whole fails the same way.
pub proof fn lemma_check_serials_stops(
    log: Seq<u8>,
    m: Map<u64, u64>,
    rs: Seq<crate::transaction::RecordView>,
    i: int,
)
    requires
        0 <= i <= rs.len(),
        !(check_serials(log, m, rs.subrange(0, i)) is Conflicts),
    ensures
        check_serials(log, m, rs) == check_serials(log, m, rs.subrange(0, i)),
    decreases rs.len() - i,
{
    if i < rs.len() {
        assert(rs.subrange(0, i + 1).drop_last() =~= rs.subrange(0, i));
        lemma_check_serials_stops(log, m, rs, i + 1);
    } else {
        assert(rs.subrange(0, i) =~= rs);
    }
}

/// `m` with each object of the commit's index `vi` mapped to its offset
/// made absolute by `pos`.
pub open spec fn apply_offsets(m: Map<u64, u64>, vi: Map<u64, u64>, pos: u64) -> Map<u64, u64> {
    Map::new(
        |k: u64| m.contains_key(k) || vi.contains_key(k),
        |k: u64|
            if vi.contains_key(k) {
                (vi[k] + pos) as u64
            } else {
                m[k]
            },
    )
}

/// `m` after publishing the voted commits `vs`, in order.
pub open spec fn publish(m: Map<u64, u64>, vs: Seq<Voted>) -> Map<u64, u64>
    decreases vs.len(),
{
    if vs.len() == 0 {
        m
    } else {
        apply_offsets(publish(m, vs.drop_last()), vs.last().index@, vs.last().pos)
    }
}

/// The TID a notice announces a commit at, if it announces one.
pub open spec fn notice_tid(n: Notice) -> Option<u64> {
    match n {
        Notice::Locked(_) => None,
        Notice::Invalidate(_, t, _) => Some(be64(t@)),
        Notice::Finished(_, t, _, _) => Some(be64(t@)),
    }
}

/// Commits are announced in `ns` in TID order, each after `after` and none
/// after `upto`.
pub open spec fn announced_in_order(ns: Seq<Notice>, after: u64, upto: u64) -> bool {
    &&& forall|i: int|
        0 <= i < ns.len() && #[trigger] notice_tid(ns[i]) is Some ==> after < notice_tid(
            ns[i],
        )->0 <= upto
    &&& forall|i: int, j: int|
        0 <= i < j < ns.len() && #[trigger] notice_tid(ns[i]) is Some && #[trigger] notice_tid(
            ns[j],
        ) is Some ==> notice_tid(ns[i])->0 <= notice_tid(ns[j])->0
}

/// Position of the first voted commit of transaction `id` in `vs`.
pub open spec fn first_voted(vs: Seq<Voted>, id: Tid) -> int {
    choose|i: int|
        0 <= i < vs.len() && vs[i].id@ == id@ && forall|j: int| 0 <= j < i ==> vs[j].id@ != id@
}

/// The first voted commit of `id` is the one found first.
pub proof fn lemma_first_voted(vs: Seq<Voted>, id: Tid, i: int)
    requires
        0 <= i < vs.len(),
        vs[i].id@ == id@,
        forall|j: int| 0 <= j < i ==> vs[j].id@ != id@,
    ensures
        first_voted(vs, id) == i,
{
    let f = first_voted(vs, id);
    assert(0 <= f < vs.len() && vs[f].id@ == id@ && forall|j: int| 0 <= j < f ==> vs[j].id@ != id@);
    if f < i {
    } else if f > i {
        assert(vs[i].id@ != id@);
    }
}

/// Filtering keeps the order of what it keeps: TIDs that increase along
/// `vs` increase along what is left of it.
pub proof fn lemma_filter_order(vs: Seq<Voted>, id: Tid, a: int, b: int)
    requires
        forall|i: int, j: int| 0 <= i < j < vs.len() ==> be64(vs[i].tid@) < be64(vs[j].tid@),
        0 <= a < b < vs.filter(|v: Voted| v.id@ != id@).len(),
    ensures
        be64(vs.filter(|v: Voted| v.id@ != id@)[a].tid@) < be64(
            vs.filter(|v: Voted| v.id@ != id@)[b].tid@,
        ),
    decreases vs.len(),
{
    reveal(Seq::filter);
    let f = vs.filter(|v: Voted| v.id@ != id@);
    let g = vs.drop_last().filter(|v: Voted| v.id@ != id@);
    if vs.last().id@ != id@ {
        assert(f == g.push(vs.last()));
        if b < g.len() {
            lemma_filter_order(vs.drop_last(), id, a, b);
        } else {
            vs.drop_last().lemma_filter_contains_rev(|v: Voted| v.id@ != id@, g[a]);
            let i = choose|i: int| 0 <= i < vs.drop_last().len() && vs.drop_last()[i] == g[a];
            assert(g.contains(g[a]));
            assert(vs[i] == g[a]);
        }
    } else {
        assert(f == g);
        lemma_filter_order(vs.drop_last(), id, a, b);
    }
}

/// A sidecar fits the log when the segment it covers lies within the log
/// after the file header and its start and end TIDs match the log's bytes
/// at the first record's TID and at the end of the segment.
pub open spec fn sidecar_fits(log: Seq<u8>, seg: u64, start: Seq<u8>, end: Seq<u8>) -> bool {
    4116 <= seg <= log.len() && log.subrange(4108, 4116) == start && log.subrange(seg - 8, seg as int)
        == end
}

/// Where recovery starts, with what index and what last TID: from the
/// sidecar where it decodes and fits the log, else from the file header's
/// end with nothing.
pub open spec fn recovery_start(log: Seq<u8>, sidecar: Option<Vec<u8>>) -> (int, Map<u64, u64>, u64) {
    match sidecar {
        Some(b) => match crate::index::sidecar_decode(b@) {
            Some((es, seg, st, en)) => if sidecar_fits(log, seg, st, en) {
                (seg as int, crate::index::insert_all(Map::empty(), es), be64(en))
            } else {
                (4096, Map::empty(), 0)
            },
            None => (4096, Map::empty(), 0),
        },
        None => (4096, Map::empty(), 0),
    }
}

/// `n` tells `client` that the objects of commit `v` have a new revision
/// at its TID.
pub open spec fn invalidates(n: Notice, client: u64, v: Voted) -> bool {
    match n {
        Notice::Invalidate(cl, t, oids) => cl == client && t == v.tid && oids@.map_values(
            |o: Oid| be64(o@),
        ) == v.index.entries().map_values(|e: (u64, u64)| e.0),
        _ => false,
    }
}

/// `ns` are the notices that publishing commit `v` gives, where `clients`
/// are connected and the index then has `n` entries: an invalidation for
/// each client other than the one that finished it, in order, then
/// `Finished` for that client with `n` and the end of the commit record,
/// then only lock grants.
pub open spec fn publish_notices(ns: Seq<Notice>, clients: Seq<u64>, v: Voted, n: u64) -> bool {
    let c = v.finished->0;
    let others = clients.filter(|x: u64| x != c);
    &&& ns.len() >= others.len() + 1
    &&& forall|i: int| 0 <= i < others.len() ==> invalidates(#[trigger] ns[i], others[i], v)
    &&& ns[others.len() as int] == Notice::Finished(c, v.tid, n, (v.pos + v.length) as u64)
    &&& forall|i: int| others.len() < i < ns.len() ==> (#[trigger] ns[i]) is Locked
}

/// `cuts` splits `ns` into one segment per commit of `vs`, each holding
/// the notices of publishing that commit after those before it, from the
/// index `m` and with `clients` connected.
pub open spec fn published_notices(
    ns: Seq<Notice>,
    cuts: Seq<int>,
    clients: Seq<u64>,
    m: Map<u64, u64>,
    vs: Seq<Voted>,
) -> bool {
    &&& cuts.len() == vs.len() + 1
    &&& forall|j: int|
        #![trigger cuts[j]]
        0 <= j < vs.len() ==> 0 <= cuts[j] <= cuts[j + 1] <= ns.len() && publish_notices(
            ns.subrange(cuts[j], cuts[j + 1]),
            clients,
            vs[j],
            publish(m, vs.subrange(0, j + 1)).dom().len() as u64,
        )
}

/// Lock grants in front of notices announced in order leave them in order.
pub proof fn lemma_announced_after_grants(ns: Seq<Notice>, o: int, p: int, after: u64, upto: u64)
    requires
        0 <= o <= p <= ns.len(),
        forall|i: int| o <= i < p ==> (#[trigger] ns[i]) is Locked,
        announced_in_order(ns.subrange(p, ns.len() as int), after, upto),
    ensures
        announced_in_order(ns.subrange(o, ns.len() as int), after, upto),
{
    let a = ns.subrange(p, ns.len() as int);
    let b = ns.subrange(o, ns.len() as int);
    assert forall|i: int| 0 <= i < b.len() && #[trigger] notice_tid(b[i]) is Some implies after
        < notice_tid(b[i])->0 <= upto by {
        if o + i < p {
            assert(b[i] == ns[o + i]);
        } else {
            assert(b[i] == a[o + i - p]);
        }
    }
    assert forall|i: int, j: int|
        0 <= i < j < b.len() && #[trigger] notice_tid(b[i]) is Some && #[trigger] notice_tid(b[j])
            is Some implies notice_tid(b[i])->0 <= notice_tid(b[j])->0 by {
        if o + i < p {
            assert(b[i] == ns[o + i]);
        } else if o + j < p {
            assert(b[j] == ns[o + j]);
        } else {
            assert(b[i] == a[o + i - p]);
            assert(b[j] == a[o + j - p]);
        }
    }
}

/// No TID is left after `last` for the clock reading `now`.
pub open spec fn stage_exhausted(last: u64, now: Seq<u8>) -> bool {
    be64(now) <= last && last == u64::MAX
}

/// The TID handed out after `last` for the clock reading `now`: the reading
/// if it is later, else the one just after `last`.
pub open spec fn next_tid_value(last: u64, now: Seq<u8>) -> u64 {
    if be64(now) > last {
        be64(now)
    } else {
        (last + 1) as u64
    }
}

/// Outcome of following an object's back pointers from `pos`.
pub enum Walk {
    /// The revision at this position comes before the TID asked for; the
    /// TID of the revision after it, if one was stepped over.
    Found(int, Option<u64>),
    /// The chain ends before reaching such a revision.
    NoneBefore,
    /// A position outside the log or a back pointer that does not go back.
    Corrupt,
}

/// Follows back pointers from the data record at `pos` until one whose
/// TID is below `t`.
pub open spec fn walk(log: Seq<u8>, pos: int, t: u64, next: Option<u64>) -> Walk
    decreases pos,
{
    if pos < 0 || pos + 36 > log.len() {
        Walk::Corrupt
    } else {
        let htid = be64(log.subrange(pos + 12, pos + 20));
        let prev = be64(log.subrange(pos + 20, pos + 28)) as int;
        if htid < t {
            if pos + 36 + be32(log.subrange(pos, pos + 4)) <= log.len() {
                Walk::Found(pos, next)
            } else {
                Walk::Corrupt
            }
        } else if prev == 0 {
            Walk::NoneBefore
        } else if prev >= pos {
            Walk::Corrupt
        } else {
            walk(log, prev, t, Some(htid))
        }
    }
}

/// The TID of the data record at `pos`.
pub open spec fn data_tid_at(log: Seq<u8>, pos: int) -> u64 {
    be64(log.subrange(pos + 12, pos + 20))
}

/// Loading before a later TID finds a revision no older than loading
/// before an earlier one; and where nothing precedes the later TID,
/// nothing precedes the earlier one either.
pub proof fn lemma_load_before_monotone(
    log: Seq<u8>,
    pos: int,
    t1: u64,
    t2: u64,
    n1: Option<u64>,
    n2: Option<u64>,
)
    requires
        t1 < t2,
    ensures
        walk(log, pos, t1, n1) matches Walk::Found(p1, _) ==> (walk(log, pos, t2, n2) matches Walk::Found(
            p2,
            _,
        ) ==> data_tid_at(log, p1) <= data_tid_at(log, p2)),
        walk(log, pos, t2, n2) is NoneBefore ==> walk(log, pos, t1, n1) is NoneBefore,
    decreases pos,
{
    if pos >= 0 && pos + 36 <= log.len() {
        let h = be64(log.subrange(pos + 12, pos + 20));
        let prev = be64(log.subrange(pos + 20, pos + 28)) as int;
        if h >= t2 && prev != 0 && prev < pos {
            lemma_load_before_monotone(log, prev, t1, t2, Some(h), Some(h));
        } else if t1 <= h && h < t2 && prev != 0 && prev < pos {
            lemma_walk_found_below(log, prev, t1, Some(h));
        }
    }
}

/// A revision that a walk finds lies below the TID asked for.
pub proof fn lemma_walk_found_below(log: Seq<u8>, pos: int, t: u64, n: Option<u64>)
    ensures
        walk(log, pos, t, n) matches Walk::Found(p, _) ==> data_tid_at(log, p) < t,
    decreases pos,
{
    if pos >= 0 && pos + 36 <= log.len() {
        let h = be64(log.subrange(pos + 12, pos + 20));
        let prev = be64(log.subrange(pos + 20, pos + 28)) as int;
        if h >= t && prev != 0 && prev < pos {
            lemma_walk_found_below(log, prev, t, Some(h));
        }
    }
}

/// A data record laid out at `q` is found by a load before any TID after
/// its own, with its data.
pub proof fn lemma_walk_record(log: Seq<u8>, q: int, r: crate::transaction::RecordView, tid: Seq<u8>, t: u64)
    requires
        0 <= q,
        q + crate::transaction::record_size(r) <= log.len(),
        log.subrange(q, q + crate::transaction::record_size(r)) == crate::transaction::record_bytes(r, tid, q),
        r.oid.len() == 8,
        tid.len() == 8,
        r.data.len() <= u32::MAX,
        be64(tid) < t,
    ensures
        walk(log, q, t, None) == Walk::Found(q, None),
        log.subrange(q + 12, q + 20) == tid,
        be32(log.subrange(q, q + 4)) == r.data.len(),
        log.subrange(q + 36, q + 36 + r.data.len()) == r.data,
{
    let rb = crate::transaction::record_bytes(r, tid, q);
    assert(log.subrange(q, q + 4) =~= rb.subrange(0, 4));
    assert(rb.subrange(0, 4) =~= crate::util::p32s(r.data.len() as u32));
    crate::util::lemma_be32_p32s(r.data.len() as u32);
    assert(log.subrange(q + 12, q + 20) =~= rb.subrange(12, 20));
    assert(rb.subrange(12, 20) =~= tid);
    assert(log.subrange(q + 36, q + 36 + r.data.len()) =~= rb.subrange(36, 36 + r.data.len() as int));
    assert(rb.subrange(36, 36 + r.data.len() as int) =~= r.data);
}

/// Round trip: where the log holds a commit record of packed revisions
/// `rs` (distinct objects) at `base`, whatever its marker, each revision's
/// object maps, in the index its commit publishes, to a data record from
/// which a load before the TID just after the commit's returns the data
/// committed, at the commit's TID, as the latest revision.
pub proof fn lemma_round_trip(
    log: Seq<u8>,
    base: int,
    tid: Seq<u8>,
    user: Seq<u8>,
    desc: Seq<u8>,
    ext: Seq<u8>,
    rs: Seq<crate::transaction::RecordView>,
    k: int,
)
    requires
        0 <= base,
        tid.len() == 8,
        be64(tid) < u64::MAX,
        0 <= k < rs.len(),
        forall|i: int| 0 <= i < rs.len() ==> (#[trigger] rs[i]).oid.len() == 8 && rs[i].data.len() <= u32::MAX,
        forall|a: int, b: int| 0 <= a < b < rs.len() ==> rs[a].oid != rs[b].oid,
        base + commit_record_bytes(tid, user, desc, ext, rs, base).len() <= log.len(),
        base + commit_header_length(user, desc, ext) + crate::transaction::records_size(rs) <= u64::MAX,
        log.subrange(base + 4, base + commit_record_bytes(tid, user, desc, ext, rs, base).len())
            == commit_record_bytes(tid, user, desc, ext, rs, base).subrange(
            4,
            commit_record_bytes(tid, user, desc, ext, rs, base).len() as int,
        ),
    ensures
        ({
            let hl = commit_header_length(user, desc, ext);
            let q = base + hl + crate::transaction::records_size(rs.subrange(0, k));
            &&& records_offsets(rs, hl).contains_key(be64(rs[k].oid))
            &&& records_offsets(rs, hl)[be64(rs[k].oid)] + base == q
            &&& walk(log, q, (be64(tid) + 1) as u64, None) == Walk::Found(q, None)
            &&& log.subrange(q + 12, q + 20) == tid
            &&& log.subrange(q + 36, q + 36 + rs[k].data.len()) == rs[k].data
        }),
{
    let hl = commit_header_length(user, desc, ext);
    let c = commit_record_bytes(tid, user, desc, ext, rs, base);
    let rbs = crate::transaction::records_bytes(rs, tid, base + hl);
    crate::transaction::lemma_records_bytes_len(rs, tid, base + hl);
    crate::transaction::lemma_records_size_prefix(rs, k, rs.len() as int);
    crate::transaction::lemma_records_size_prefix(rs, k + 1, rs.len() as int);
    assert(rs.subrange(0, rs.len() as int) =~= rs);
    assert(rs.subrange(0, k + 1).drop_last() =~= rs.subrange(0, k));
    assert(rs.subrange(0, k + 1).last() == rs[k]);
    let off = crate::transaction::records_size(rs.subrange(0, k));
    let q = base + hl + off;
    crate::transaction::lemma_records_offsets_at(rs, hl, k);
    crate::transaction::lemma_record_in_records(rs, tid, base + hl, k);
    // The data records sit after the header within the commit record.
    assert(c.subrange(hl, hl + rbs.len()) =~= rbs);
    let size = crate::transaction::record_size(rs[k]);
    assert(log.subrange(q, q + size) =~= c.subrange(hl + off, hl + off + size)) by {
        assert forall|i: int| 0 <= i < size implies #[trigger] log.subrange(q, q + size)[i] == c.subrange(
            hl + off,
            hl + off + size,
        )[i] by {
            assert(log.subrange(base + 4, base + c.len())[hl + off + i - 4] == c.subrange(
                4,
                c.len() as int,
            )[hl + off + i - 4]);
        }
    }
    assert(c.subrange(hl + off, hl + off + size) =~= rbs.subrange(off, off + size));
    lemma_walk_record(log, q, rs[k], tid, (be64(tid) + 1) as u64);
}

/// An uncommitted (`PPPP`) record leaves recovery as it was: recovery goes
/// on after it, or ends with nothing changed where the record is cut short
/// at the end of the log, as after a crash.
pub proof fn lemma_uncommitted_ignored(log: Seq<u8>, pos: int, m: Map<u64, u64>, end: u64, oid: u64)
    requires
        0 <= pos,
        pos + 12 <= log.len(),
        log.subrange(pos, pos + 4) == padding_marker(),
    ensures
        pos + record_length(log, pos) > log.len() ==> scan(log, pos, m, end, oid) == Some(
            (m, end, oid),
        ),
        pos + record_length(log, pos) <= log.len() && record_length(log, pos) >= 40
            && record_trailer(log, pos, record_length(log, pos)) == record_length(log, pos) ==> scan(
            log,
            pos,
            m,
            end,
            oid,
        ) == scan(log, pos + record_length(log, pos), m, end, oid),
{
}

/// The storage engine. The host keeps the log file in step with `log`:
/// it appends what `stage` appends and rewrites the marker that
/// `tpc_finish` rewrites.
pub struct FileStorage {
    log: Vec<u8>,
    index: Index,
    last_tid: u64,
    committed_tid: u64,
    last_oid: u64,
    locker: LockManager,
    clients: Vec<u64>,
    voted: Vec<Voted>,
    notices: Vec<Notice>,
}

impl FileStorage {
    /// The bytes of the log.
    pub closed spec fn log_bytes(&self) -> Seq<u8> {
        self.log@
    }

    /// Object to offset of its latest committed data record.
    pub closed spec fn index_map(&self) -> Map<u64, u64> {
        self.index@
    }

    /// TID of the last published commit.
    pub closed spec fn committed(&self) -> u64 {
        self.committed_tid
    }

    /// The last TID handed out.
    pub closed spec fn tid_handed_out(&self) -> u64 {
        self.last_tid
    }

    /// The last object identifier handed out.
    pub closed spec fn oid_handed_out(&self) -> u64 {
        self.last_oid
    }

    /// The connected clients.
    pub closed spec fn client_ids(&self) -> Seq<u64> {
        self.clients@
    }

    /// Notices not yet taken by the host.
    pub closed spec fn outbox(&self) -> Seq<Notice> {
        self.notices@
    }

    /// The lock table.
    pub closed spec fn locks(&self) -> LockManager {
        self.locker
    }

    /// The voted commits, in log order.
    pub closed spec fn voted_seq(&self) -> Seq<Voted> {
        self.voted@
    }

    /// The index, the lock table and each voted commit are well formed;
    /// voted commits lie inside the log with increasing TIDs, all after the
    /// last published one and none after the last handed out.
    pub open spec fn wf(&self) -> bool {
        &&& self.index_wf()
        &&& self.locks().wf()
        &&& self.committed() <= self.tid_handed_out()
        &&& self.log_bytes().len() <= u64::MAX
        &&& forall|i: int|
            0 <= i < self.voted_seq().len() ==> {
                let v = #[trigger] self.voted_seq()[i];
                &&& v.index.wf()
                &&& v.length >= 40
                &&& v.pos + v.length <= self.log_bytes().len()
                &&& forall|k: u64| #[trigger] v.index@.contains_key(k) ==> v.index@[k] < v.length
                &&& self.committed() < be64(v.tid@) <= self.tid_handed_out()
            }
        &&& forall|i: int, j: int|
            0 <= i < j < self.voted_seq().len() ==> be64(self.voted_seq()[i].tid@) < be64(
                self.voted_seq()[j].tid@,
            )
    }

    /// The position index is well formed.
    pub closed spec fn index_wf(&self) -> bool {
        self.index.wf()
    }

    /// Opens the store on the bytes of its log and, where there is one, of
    /// its index sidecar. An empty log gets a fresh file header; otherwise
    /// the header is checked, the sidecar's index is taken where it fits the
    /// log (see `sidecar_fits`), and every record after the segment it
    /// covers is replayed into the index, as `scan` says.
    pub fn open(log: Vec<u8>, sidecar: Option<Vec<u8>>) -> (r: Result<FileStorage, POSError>)
        requires
            log@.len() == 0 || log@.len() >= 4096,
        ensures
            r matches Ok(fs) ==> fs.wf() && fs.voted_seq().len() == 0 && fs.outbox().len() == 0
                && fs.client_ids().len() == 0 && fs.locks().requests().is_empty()
                && fs.committed() == fs.tid_handed_out(),
            log@.len() == 0 ==> (r matches Ok(fs) && fs.log_bytes()
                == crate::records::file_header_bytes(0x1_0000_0000u64, Seq::empty())
                && fs.index_map() == Map::<u64, u64>::empty() && fs.committed() == 0
                && fs.oid_handed_out() == 0),
            log@.len() > 0 && !crate::records::file_header_valid(log@) ==> r == Err::<
                FileStorage,
                POSError,
            >(POSError::Format),
            log@.len() > 0 && crate::records::file_header_valid(log@) ==> match recovery_start(
                log@,
                sidecar,
            ) {
                (pos, m, e) => match scan(log@, pos, m, e, 0) {
                    None => r == Err::<FileStorage, POSError>(POSError::Format),
                    Some((m2, e2, o2)) => (r matches Ok(fs) && fs.log_bytes() == log@
                        && fs.index_map() == m2 && fs.committed() == e2 && fs.oid_handed_out()
                        == o2),
                },
            },
    {
        if log.len() == 0 {
            let h = FileHeader::new();
            let bytes = h.write();
            let fs = FileStorage {
                log: bytes,
                index: Index::new(),
                last_tid: 0,
                committed_tid: 0,
                last_oid: 0,
                locker: LockManager::new(),
                clients: Vec::new(),
                voted: Vec::new(),
                notices: Vec::new(),
            };
            return Ok(fs);
        }
        match FileHeader::read(&log) {
            Err(e) => {
                return Err(e);
            },
            Ok(_) => {},
        }
        let (start_index, seg, end) = Self::sidecar_start(&log, sidecar);
        match recover(&log, seg, start_index, end, 0) {
            Err(e) => Err(e),
            Ok((index, end, last_oid)) => Ok(
                FileStorage {
                    log,
                    index,
                    last_tid: end,
                    committed_tid: end,
                    last_oid,
                    locker: LockManager::new(),
                    clients: Vec::new(),
                    voted: Vec::new(),
                    notices: Vec::new(),
                },
            ),
        }
    }

    /// Where recovery starts: the sidecar's index, segment and end TID where
    /// it fits the log, else an empty index after the file header.
    fn sidecar_start(log: &Vec<u8>, sidecar: Option<Vec<u8>>) -> (r: (Index, usize, u64))
        ensures
            r.0.wf(),
            recovery_start(log@, sidecar) == (r.1 as int, r.0@, r.2),
    {
        let n = log.len();
        match sidecar {
            None => (Index::new(), HEADER_SIZE as usize, 0),
            Some(b) => match crate::index::load_index(&b) {
                Err(_) => (Index::new(), HEADER_SIZE as usize, 0),
                Ok((index, seg, start, end)) => {
                    if seg < 4116 || seg > n as u64 {
                        return (Index::new(), HEADER_SIZE as usize, 0);
                    }
                    let s = id_at(log, 4108);
                    let e = id_at(log, seg as usize - 8);
                    if same_id(&s, &start) && same_id(&e, &end) {
                        (index, seg as usize, u64_of(&end))
                    } else {
                        (Index::new(), HEADER_SIZE as usize, 0)
                    }
                },
            },
        }
    }

    /// The log's current bytes, for the host to keep the file in step.
    pub fn log(&self) -> (r: &Vec<u8>)
        ensures
            r@ == self.log_bytes(),
    {
        &self.log
    }

    /// TID of the last published commit.
    pub fn last_transaction(&self) -> (r: Tid)
        ensures
            be64(r@) == self.committed(),
    {
        p64(self.committed_tid)
    }

    /// The last object identifier handed out.
    pub fn last_oid(&self) -> (r: u64)
        ensures
            r == self.oid_handed_out(),
    {
        self.last_oid
    }

    /// Hands out the next 100 object identifiers.
    pub fn new_oids(&mut self) -> (r: Vec<Oid>)
        requires
            old(self).wf(),
            old(self).oid_handed_out() <= u64::MAX - 100,
        ensures
            final(self).wf(),
            final(self).oid_handed_out() == old(self).oid_handed_out() + 100,
            r@.len() == 100,
            forall|i: int| 0 <= i < 100 ==> be64(#[trigger] r@[i]@) == old(self).oid_handed_out() + 1 + i,
            final(self).log_bytes() == old(self).log_bytes(),
            final(self).index_map() == old(self).index_map(),
            final(self).committed() == old(self).committed(),
    {
        let mut r: Vec<Oid> = Vec::new();
        let first = self.last_oid + 1;
        let mut i: u64 = 0;
        while i < 100
            invariant
                first == self.last_oid + 1,
                self.last_oid <= u64::MAX - 100,
                i <= 100,
                r@.len() == i,
                forall|k: int| 0 <= k < i ==> be64(#[trigger] r@[k]@) == first + k,
            decreases 100 - i,
        {
            r.push(p64(first + i));
            i = i + 1;
        }
        self.last_oid = self.last_oid + 100;
        r
    }

    /// Hands out a TID: `now` if it is after the last one handed out, else
    /// the one just after that.
    pub fn new_tid(&mut self, now: &Tid) -> (r: Result<Tid, POSError>)
        requires
            old(self).wf(),
        ensures
            final(self).wf(),
            r is Err <==> be64(now@) <= old(self).tid_handed_out() && old(self).tid_handed_out()
                == u64::MAX,
            r is Err ==> r == Err::<Tid, POSError>(POSError::Exhausted) && final(self).tid_handed_out()
                == old(self).tid_handed_out(),
            r matches Ok(t) ==> be64(t@) == (if be64(now@) > old(self).tid_handed_out() {
                be64(now@)
            } else {
                (old(self).tid_handed_out() + 1) as u64
            }) && final(self).tid_handed_out() == be64(t@),
            final(self).log_bytes() == old(self).log_bytes(),
            final(self).index_map() == old(self).index_map(),
            final(self).committed() == old(self).committed(),
            final(self).voted_seq() == old(self).voted_seq(),
            final(self).outbox() == old(self).outbox(),
            final(self).client_ids() == old(self).client_ids(),
            final(self).locks() == old(self).locks(),
            final(self).oid_handed_out() == old(self).oid_handed_out(),
    {
        let n = u64_of(now);
        if n <= self.last_tid && self.last_tid == u64::MAX {
            return Err(POSError::Exhausted);
        }
        let t = later_than(*now, p64(self.last_tid));
        self.last_tid = u64_of(&t);
        Ok(t)
    }

    /// Starts a transaction with a fresh TID (see `new_tid`) as its
    /// identifier.
    pub fn tpc_begin(&mut self, now: &Tid, user: &[u8], desc: &[u8], ext: &[u8]) -> (r: Result<
        Transaction,
        POSError,
    >)
        requires
            old(self).wf(),
        ensures
            final(self).wf(),
            be64(now@) <= old(self).tid_handed_out() && old(self).tid_handed_out() == u64::MAX
                ==> r == Err::<Transaction, POSError>(POSError::Exhausted),
            !(be64(now@) <= old(self).tid_handed_out() && old(self).tid_handed_out() == u64::MAX)
                ==> {
                &&& final(self).tid_handed_out() == if be64(now@) > old(self).tid_handed_out() {
                    be64(now@)
                } else {
                    (old(self).tid_handed_out() + 1) as u64
                }
                &&& (r is Ok <==> user@.len() <= u16::MAX && desc@.len() <= u16::MAX
                    && ext@.len() <= u32::MAX)
                &&& r is Err ==> r == Err::<Transaction, POSError>(POSError::Format)
                &&& r matches Ok(t) ==> t.wf() && be64(t.tid()@) == final(self).tid_handed_out()
                    && t.status() == crate::transaction::TransactionState::Saving && t.user()
                    == user@ && t.desc() == desc@ && t.ext() == ext@ && t.records().len() == 0
            },
            final(self).log_bytes() == old(self).log_bytes(),
            final(self).index_map() == old(self).index_map(),
            final(self).committed() == old(self).committed(),
            final(self).voted_seq() == old(self).voted_seq(),
            final(self).outbox() == old(self).outbox(),
            final(self).locks() == old(self).locks(),
    {
        let id = match self.new_tid(now) {
            Ok(t) => t,
            Err(e) => {
                return Err(e);
            },
        };
        Transaction::begin(id, user, desc, ext)
    }

    /// Asks for the locks on every object `trans` saved, in its lock order.
    /// When granted, now or on a later release, `Notice::Locked` with the
    /// transaction's identifier goes to the outbox. Only while saving.
    pub fn lock(&mut self, trans: &Transaction) -> (r: Result<(), POSError>)
        requires
            old(self).wf(),
            trans.wf(),
        ensures
            final(self).wf(),
            trans.status() != crate::transaction::TransactionState::Saving ==> r == Err::<
                (),
                POSError,
            >(POSError::State) && *final(self) == *old(self),
            trans.status() == crate::transaction::TransactionState::Saving ==> r is Ok
                && final(self).locks().requests() == old(self).locks().requests().insert(
                be64(trans.tid()@),
            ) && (final(self).locks().wanted(be64(trans.tid()@)).len() == 0 ==> final(self).outbox() == old(self).outbox().push(Notice::Locked(trans.tid())))
                && (final(self).locks().wanted(be64(trans.tid()@)).len() > 0 ==> final(self).outbox() == old(self).outbox())
                && exists|w: Seq<u64>|
                crate::transaction::strictly_decreasing(w) && w.to_set()
                    == crate::transaction::oid_set(trans.records()) && ({
                    let (l2, w2, g2) = crate::lock::acquire(old(self).locks().held(), w, Seq::empty());
                    &&& final(self).locks().held() == l2
                    &&& final(self).locks().wanted(be64(trans.tid()@)) == w2
                    &&& final(self).locks().holds(be64(trans.tid()@)) == g2
                    &&& forall|o: u64|
                        #[trigger] final(self).locks().queue(o) == if w2.len() > 0 && o == w2.last() {
                            old(self).locks().queue(o).push(be64(trans.tid()@))
                        } else {
                            old(self).locks().queue(o)
                        }
                }),
            final(self).log_bytes() == old(self).log_bytes(),
            final(self).index_map() == old(self).index_map(),
            final(self).committed() == old(self).committed(),
            final(self).voted_seq() == old(self).voted_seq(),
    {
        match trans.lock_data() {
            Err(e) => Err(e),
            Ok((id, oids)) => {
                let ghost w = oids@.map_values(|o: Oid| be64(o@));
                let granted = self.locker.lock(id, oids);
                assert(crate::transaction::strictly_decreasing(w));
                if granted {
                    self.notices.push(Notice::Locked(id));
                }
                Ok(())
            },
        }
    }

    /// Adds a client to be told of commits.
    pub fn add_client(&mut self, client: u64)
        requires
            old(self).wf(),
        ensures
            final(self).wf(),
            final(self).client_ids() == old(self).client_ids().push(client),
            final(self).log_bytes() == old(self).log_bytes(),
            final(self).index_map() == old(self).index_map(),
            final(self).committed() == old(self).committed(),
            final(self).voted_seq() == old(self).voted_seq(),
    {
        self.clients.push(client);
    }

    /// Removes every entry of `client`.
    pub fn remove_client(&mut self, client: u64)
        requires
            old(self).wf(),
        ensures
            final(self).wf(),
            final(self).client_ids() == old(self).client_ids().filter(|c: u64| c != client),
            final(self).log_bytes() == old(self).log_bytes(),
            final(self).index_map() == old(self).index_map(),
            final(self).committed() == old(self).committed(),
            final(self).voted_seq() == old(self).voted_seq(),
    {
        let mut kept: Vec<u64> = Vec::new();
        let mut i: usize = 0;
        while i < self.clients.len()
            invariant
                i <= self.clients@.len(),
                kept@ == self.clients@.subrange(0, i as int).filter(|c: u64| c != client),
            decreases self.clients@.len() - i,
        {
            let c = self.clients[i];
            proof {
                let s = self.clients@.subrange(0, i + 1);
                assert(s.drop_last() =~= self.clients@.subrange(0, i as int));
                reveal(Seq::filter);
            }
            if c != client {
                kept.push(c);
            }
            i = i + 1;
        }
        assert(self.clients@.subrange(0, i as int) =~= self.clients@);
        self.clients = kept;
    }

    /// Number of clients.
    pub fn client_count(&self) -> (r: usize)
        ensures
            r == self.client_ids().len(),
    {
        self.clients.len()
    }

    /// Hands the host every notice produced so far, oldest first, and
    /// empties the outbox.
    pub fn take_notices(&mut self) -> (r: Vec<Notice>)
        requires
            old(self).wf(),
        ensures
            final(self).wf(),
            r@ == old(self).outbox(),
            final(self).outbox().len() == 0,
            final(self).log_bytes() == old(self).log_bytes(),
            final(self).index_map() == old(self).index_map(),
            final(self).committed() == old(self).committed(),
            final(self).voted_seq() == old(self).voted_seq(),
            final(self).client_ids() == old(self).client_ids(),
    {
        let mut r: Vec<Notice> = Vec::new();
        std::mem::swap(&mut r, &mut self.notices);
        r
    }

    /// Checks each serial of a voting transaction, as `check_serials` says.
    fn check_conflicts(&self, trans: &Transaction, serials: &Vec<(Oid, Tid)>) -> (r: Result<
        Vec<Conflict>,
        POSError,
    >)
        requires
            self.wf(),
            trans.wf(),
            trans.status() == TransactionState::Voting,
            serials@.len() == latest(trans.records()).len(),
            forall|k: int|
                0 <= k < serials@.len() ==> (#[trigger] serials@[k]).0@ == latest(trans.records())[k].oid
                    && serials@[k].1@ == latest(trans.records())[k].serial,
        ensures
            match check_serials(self.log_bytes(), self.index_map(), latest(trans.records())) {
                SerialCheck::Corrupt => r == Err::<Vec<Conflict>, POSError>(POSError::Format),
                SerialCheck::Missing(o) => (r matches Err(POSError::Key(k)) && k@ == o),
                SerialCheck::Conflicts(cs) => (r matches Ok(v) && v@.len() == cs.len() && forall|k: int|
                    0 <= k < cs.len() ==> #[trigger] v@[k]@ == cs[k]),
            },
    {
        let ghost rs = trans.records();
        let ghost lat = latest(rs);
        let n = self.log.len();
        let mut conflicts: Vec<Conflict> = Vec::new();
        let mut i: usize = 0;
        proof {
            lemma_latest_upto(rs, rs.len() as int);
            trans.lemma_record_lengths();
            assert(lat.subrange(0, 0) =~= Seq::<crate::transaction::RecordView>::empty());
        }
        while i < serials.len()
            invariant
                trans.wf(),
                self.wf(),
                n == self.log@.len(),
                rs == trans.records(),
                lat == latest(rs),
                trans.status() == TransactionState::Voting,
                serials@.len() == lat.len(),
                forall|k: int|
                    0 <= k < serials@.len() ==> (#[trigger] serials@[k]).0@ == lat[k].oid
                        && serials@[k].1@ == lat[k].serial,
                forall|k: int|
                    0 <= k < lat.len() ==> exists|j: int|
                        0 <= j < rs.len() && #[trigger] lat[k] == rs[j] && is_latest(rs, j),
                i <= serials@.len(),
                check_serials(self.log@, self.index@, lat.subrange(0, i as int))
                    matches SerialCheck::Conflicts(cs) && cs.len() == conflicts@.len() && forall|
                    k: int,
                | 0 <= k < cs.len() ==> #[trigger] conflicts@[k]@ == cs[k],
            decreases serials@.len() - i,
        {
            let (oid, serial) = serials[i];
            let ghost pre = lat.subrange(0, i as int);
            proof {
                assert(lat.subrange(0, i + 1).drop_last() =~= pre);
                assert(lat.subrange(0, i + 1).last() == lat[i as int]);
            }
            match self.index.get(u64_of(&oid)) {
                Some(pos) => {
                    if pos > n as u64 || (n as u64) - pos < 20 {
                        proof {
                            lemma_check_serials_stops(self.log@, self.index@, lat, i as int + 1);
                        }
                        return Err(POSError::Format);
                    }
                    let committed = id_at(&self.log, pos as usize + 12);
                    if !same_id(&committed, &serial) {
                        let data = match trans.get_data(&oid) {
                            Ok(d) => d,
                            Err(e) => {
                                return Err(e);
                            },
                        };
                        proof {
                            let j = choose|j: int|
                                0 <= j < rs.len() && #[trigger] lat[i as int] == rs[j] && is_latest(rs, j);
                            let j2 = choose|j2: int|
                                0 <= j2 < rs.len() && rs[j2].oid == oid@ && is_latest(rs, j2)
                                    && data@ == rs[j2].data;
                            if j < j2 {
                                assert(rs[j2].oid != rs[j].oid);
                            } else if j2 < j {
                                assert(rs[j].oid != rs[j2].oid);
                            }
                        }
                        let ghost before = conflicts@;
                        conflicts.push(Conflict { oid, serial, committed, data });
                        proof {
                            assert forall|k: int| 0 <= k < conflicts@.len() implies #[trigger] conflicts@[k]@
                                == (match check_serials(self.log@, self.index@, lat.subrange(0, i + 1)) {
                                SerialCheck::Conflicts(cs) => cs,
                                _ => Seq::empty(),
                            })[k] by {
                                if k < before.len() {
                                    assert(conflicts@[k] == before[k]);
                                }
                            }
                        }
                    }
                },
                None => {
                    if !same_id(&serial, &crate::util::Z64) {
                        proof {
                            assert(crate::util::Z64@ =~= zero8());
                        }
                        proof {
                            lemma_check_serials_stops(self.log@, self.index@, lat, i as int + 1);
                        }
                        return Err(POSError::Key(oid));
                    }
                    proof {
                        assert(crate::util::Z64@ =~= zero8());
                    }
                },
            }
            i = i + 1;
        }
        proof {
            assert(lat.subrange(0, lat.len() as int) =~= lat);
        }
        Ok(conflicts)
    }

    /// Checks the serials of a voting transaction against the index. On a
    /// conflict or more, the transaction goes back to saving, its locks are
    /// released (their new holders are announced in the outbox) and the
    /// conflicts are returned. With none, the transaction's revisions are
    /// packed, linked to their objects' current records, stamped with a
    /// fresh TID and appended to the log as one `PPPP` commit record, which
    /// joins the voted queue.
    pub fn stage(&mut self, trans: &mut Transaction, now: &Tid) -> (r: Result<
        Vec<Conflict>,
        POSError,
    >)
        requires
            old(self).wf(),
            old(trans).wf(),
        ensures
            final(self).wf(),
            final(trans).wf(),
            final(trans).tid() == old(trans).tid(),
            final(self).committed() == old(self).committed(),
            final(self).index_map() == old(self).index_map(),
            final(self).client_ids() == old(self).client_ids(),
            old(trans).status() != TransactionState::Voting ==> r == Err::<Vec<Conflict>, POSError>(
                POSError::State,
            ) && final(self).tid_handed_out() == old(self).tid_handed_out(),
            r is Err ==> final(self).log_bytes() == old(self).log_bytes() && final(self).voted_seq()
                == old(self).voted_seq(),
            old(trans).status() == TransactionState::Voting ==> match check_serials(
                old(self).log_bytes(),
                old(self).index_map(),
                latest(old(trans).records()),
            ) {
                SerialCheck::Corrupt => r == Err::<Vec<Conflict>, POSError>(POSError::Format)
                    && final(self).tid_handed_out() == old(self).tid_handed_out(),
                SerialCheck::Missing(o) => (r matches Err(POSError::Key(k)) && k@ == o
                    && final(self).tid_handed_out() == old(self).tid_handed_out()),
                SerialCheck::Conflicts(cs) => {
                    &&& cs.len() > 0 ==> {
                        &&& r matches Ok(v) && v@.len() == cs.len() && forall|k: int|
                            0 <= k < cs.len() ==> #[trigger] v@[k]@ == cs[k]
                        &&& final(self).log_bytes() == old(self).log_bytes()
                        &&& final(self).voted_seq() == old(self).voted_seq()
                        &&& final(self).tid_handed_out() == old(self).tid_handed_out()
                        &&& final(trans).status() == TransactionState::Saving
                        &&& final(trans).records() == old(trans).records()
                        &&& final(self).locks().requests() == old(self).locks().requests().remove(
                            be64(old(trans).tid()@),
                        )
                        &&& old(self).locks().requests().contains(be64(old(trans).tid()@)) ==> forall|k: int|
                            0 <= k < old(self).locks().holds(be64(old(trans).tid()@)).len()
                                ==> crate::lock::free_or_owned(
                                final(self).locks(),
                                #[trigger] old(self).locks().holds(be64(old(trans).tid()@))[k],
                            ) && crate::lock::fifo_popped(
                                old(self).locks().queue(old(self).locks().holds(be64(old(trans).tid()@))[k]),
                                final(self).locks().queue(old(self).locks().holds(be64(old(trans).tid()@))[k]),
                            )
                        &&& forall|o: u64|
                            crate::lock::free_or_owned(old(self).locks(), o)
                                ==> #[trigger] crate::lock::free_or_owned(final(self).locks(), o)
                    }
                    &&& cs.len() == 0 && stage_exhausted(old(self).tid_handed_out(), now@) ==> r
                        == Err::<Vec<Conflict>, POSError>(POSError::Exhausted)
                        && final(self).tid_handed_out() == old(self).tid_handed_out()
                    &&& cs.len() == 0 && !stage_exhausted(old(self).tid_handed_out(), now@) ==> (
                    r is Ok <==> old(self).log_bytes().len() + commit_header_length(
                        old(trans).user(),
                        old(trans).desc(),
                        old(trans).ext(),
                    ) + crate::transaction::records_size(latest(old(trans).records())) + 8
                        <= u64::MAX)
                    &&& cs.len() == 0 && !stage_exhausted(old(self).tid_handed_out(), now@) && r is Err
                        ==> r == Err::<Vec<Conflict>, POSError>(POSError::Format)
                    &&& cs.len() == 0 && r is Ok ==> {
                        let t = final(self).tid_handed_out();
                        &&& r matches Ok(v) && v@.len() == 0
                        &&& t == next_tid_value(old(self).tid_handed_out(), now@)
                        &&& final(trans).status() == TransactionState::Voted
                        &&& final(trans).records() == link_all(
                            latest(old(trans).records()),
                            old(self).index_map(),
                        )
                        &&& final(self).log_bytes() == old(self).log_bytes() + commit_record_bytes(
                            p64s(t),
                            old(trans).user(),
                            old(trans).desc(),
                            old(trans).ext(),
                            final(trans).records(),
                            old(self).log_bytes().len() as int,
                        )
                        &&& final(self).voted_seq().len() == old(self).voted_seq().len() + 1
                        &&& final(self).voted_seq().drop_last() == old(self).voted_seq()
                        &&& final(self).voted_seq().last().id == old(trans).tid()
                        &&& final(self).voted_seq().last().pos == old(self).log_bytes().len()
                        &&& be64(final(self).voted_seq().last().tid@) == t
                        &&& final(self).voted_seq().last().finished is None
                        &&& final(self).voted_seq().last().index@ == records_offsets(
                            final(trans).records(),
                            commit_header_length(
                                old(trans).user(),
                                old(trans).desc(),
                                old(trans).ext(),
                            ),
                        )
                    }
                },
            },
    {
        let serials = match trans.serials() {
            Ok(v) => v,
            Err(e) => {
                return Err(e);
            },
        };
        let conflicts = match self.check_conflicts(trans, &serials) {
            Ok(c) => c,
            Err(e) => {
                return Err(e);
            },
        };
        if conflicts.len() > 0 {
            let _ = trans.unlocked();
            let id = trans.id();
            let granted = self.locker.release(&id);
            let ghost lk = self.locker;
            let mut k: usize = 0;
            while k < granted.len()
                invariant
                    self.locker == lk,
                    self.wf(),
                    self.log@ == old(self).log@,
                    self.index@ == old(self).index@,
                    self.voted@ == old(self).voted@,
                    self.committed_tid == old(self).committed_tid,
                    self.last_tid == old(self).last_tid,
                    self.clients@ == old(self).clients@,
                    self.locker.requests() == old(self).locks().requests().remove(be64(old(trans).tid()@)),
                    k <= granted@.len(),
                decreases granted@.len() - k,
            {
                self.notices.push(Notice::Locked(granted[k]));
                k = k + 1;
            }
            return Ok(conflicts);
        }
        let _ = trans.pack();
        trans.link_previous(&self.index);
        proof {
            crate::transaction::lemma_records_size_link(latest(old(trans).records()), self.index@);
        }
        let tid = match self.new_tid(now) {
            Ok(t) => t,
            Err(e) => {
                return Err(e);
            },
        };
        let pos = self.log.len();
        let ghost packed = trans.records();
        match trans.stage(tid, &mut self.log) {
            Err(e) => {
                return Err(e);
            },
            Ok((index, length)) => {
                proof {
                    trans.lemma_record_lengths();
                    crate::transaction::lemma_records_bytes_len(
                        packed,
                        tid@,
                        pos + commit_header_length(trans.user(), trans.desc(), trans.ext()),
                    );
                    crate::transaction::lemma_records_offsets_bound(
                        packed,
                        commit_header_length(trans.user(), trans.desc(), trans.ext()),
                    );
                    crate::util::lemma_p64s_be64(tid@);
                    crate::transaction::lemma_records_size_prefix(packed, 0, packed.len() as int);
                    assert(packed.subrange(0, packed.len() as int) =~= packed);
                }
                let ghost before = self.voted@;
                self.voted.push(
                    Voted { id: trans.id(), pos: pos as u64, tid, length, index, finished: None },
                );
                proof {
                    assert(self.voted@.drop_last() =~= before);
                    assert forall|a: int, b: int|
                        0 <= a < b < self.voted_seq().len() implies be64(self.voted_seq()[a].tid@)
                        < be64(self.voted_seq()[b].tid@) by {
                        if b == before.len() {
                            assert(be64(before[a].tid@) <= old(self).tid_handed_out());
                        } else {
                            assert(self.voted_seq()[a] == before[a]);
                            assert(self.voted_seq()[b] == before[b]);
                        }
                    }
                    assert forall|a: int| 0 <= a < self.voted_seq().len() implies {
                        let v = #[trigger] self.voted_seq()[a];
                        &&& v.index.wf()
                        &&& v.length >= 40
                        &&& v.pos + v.length <= self.log_bytes().len()
                        &&& forall|k: u64| #[trigger] v.index@.contains_key(k) ==> v.index@[k] < v.length
                        &&& self.committed() < be64(v.tid@) <= self.tid_handed_out()
                    } by {
                        if a < before.len() {
                            assert(self.voted_seq()[a] == before[a]);
                        }
                    }
                }
                Ok(conflicts)
            },
        }
    }

    /// The identifiers of the objects of `index`, in order.
    fn oid_list(index: &Index) -> (r: Vec<Oid>)
        requires
            index.wf(),
        ensures
            r@.len() == index.entries().len(),
            forall|i: int| 0 <= i < r@.len() ==> be64((#[trigger] r@[i])@) == index.entries()[i].0,
    {
        let mut r: Vec<Oid> = Vec::new();
        let n = index.len();
        let mut i: usize = 0;
        while i < n
            invariant
                index.wf(),
                n == index.entries().len(),
                i <= n,
                r@.len() == i,
                forall|k: int| 0 <= k < i ==> be64((#[trigger] r@[k])@) == index.entries()[k].0,
            decreases n - i,
        {
            let (k, _) = index.entry(i);
            r.push(p64(k));
            i = i + 1;
        }
        r
    }

    /// Maps each object of `vi` to its offset plus `pos` in the position index.
    fn apply_index(&mut self, vi: &Index, pos: u64)
        requires
            old(self).wf(),
            vi.wf(),
            forall|k: u64| #[trigger] vi@.contains_key(k) ==> vi@[k] + pos <= u64::MAX,
        ensures
            final(self).index_wf(),
            final(self).index_map() == apply_offsets(old(self).index_map(), vi@, pos),
            final(self).log_bytes() == old(self).log_bytes(),
            final(self).voted_seq() == old(self).voted_seq(),
            final(self).committed() == old(self).committed(),
            final(self).tid_handed_out() == old(self).tid_handed_out(),
            final(self).outbox() == old(self).outbox(),
            final(self).client_ids() == old(self).client_ids(),
            final(self).locks() == old(self).locks(),
    {
        let n = vi.len();
        let ghost m = self.index@;
        let ghost e = vi.entries();
        proof {
            vi.lemma_entries();
        }
        let mut i: usize = 0;
        while i < n
            invariant
                vi.wf(),
                e == vi.entries(),
                n == e.len(),
                i <= n,
                self.index.wf(),
                forall|k: u64| #[trigger] vi@.contains_key(k) ==> vi@[k] + pos <= u64::MAX,
                forall|j: int| 0 <= j < e.len() ==> #[trigger] vi@.contains_key(e[j].0) && vi@[e[j].0] == e[j].1,
                forall|k: u64|
                    #[trigger] self.index@.contains_key(k) <==> (m.contains_key(k) || exists|j: int|
                        0 <= j < i && e[j].0 == k),
                forall|k: u64|
                    #[trigger] self.index@.contains_key(k) ==> self.index@[k] == if exists|j: int|
                        0 <= j < i && e[j].0 == k {
                        (vi@[k] + pos) as u64
                    } else {
                        m[k]
                    },
                self.log@ == old(self).log@,
                self.voted@ == old(self).voted@,
                self.committed_tid == old(self).committed_tid,
                self.last_tid == old(self).last_tid,
                self.notices@ == old(self).notices@,
                self.clients@ == old(self).clients@,
                self.locker == old(self).locker,
            decreases n - i,
        {
            let (k, off) = vi.entry(i);
            assert(vi@.contains_key(e[i as int].0) && vi@[e[i as int].0] == e[i as int].1);
            self.index.insert(k, off + pos);
            proof {
                assert forall|q: u64| #[trigger] self.index@.contains_key(q) <==> (m.contains_key(q)
                    || exists|j: int| 0 <= j < i + 1 && e[j].0 == q) by {
                    if q == k {
                        assert(e[i as int].0 == q);
                    }
                }
                assert forall|q: u64| #[trigger] self.index@.contains_key(q) implies self.index@[q]
                    == if exists|j: int| 0 <= j < i + 1 && e[j].0 == q {
                    (vi@[q] + pos) as u64
                } else {
                    m[q]
                } by {
                    if q == k {
                        assert(e[i as int].0 == q);
                    } else {
                        if exists|j: int| 0 <= j < i + 1 && e[j].0 == q {
                            let j = choose|j: int| 0 <= j < i + 1 && e[j].0 == q;
                            assert(j < i);
                        }
                    }
                }
            }
            i = i + 1;
        }
        proof {
            assert forall|k: u64| vi@.contains_key(k) implies exists|j: int| 0 <= j < n && e[j].0 == k by {
                let j = choose|j: int| 0 <= j < vi.entries().len() && vi.entries()[j].0 == k;
                assert(e[j].0 == k);
            }
            assert forall|k: u64| (exists|j: int| 0 <= j < n && e[j].0 == k) implies vi@.contains_key(k) by {
                let j = choose|j: int| 0 <= j < n && e[j].0 == k;
                assert(vi@.contains_key(e[j].0));
            }
            assert(self.index@ =~= apply_offsets(m, vi@, pos));
        }
    }

    /// Publishes the head of the voted queue if its client has finished it:
    /// its objects enter the position index, it becomes the last committed
    /// transaction, every other client is told to invalidate its objects,
    /// its client is told it is finished, and its locks are released.
    fn publish_head(&mut self) -> (done: bool)
        requires
            old(self).wf(),
        ensures
            final(self).wf(),
            done == (old(self).voted_seq().len() > 0 && old(self).voted_seq()[0].finished is Some),
            !done ==> *final(self) == *old(self),
            forall|o: u64|
                crate::lock::free_or_owned(old(self).locks(), o) ==> #[trigger] crate::lock::free_or_owned(
                    final(self).locks(),
                    o,
                ),
            done ==> {
                let v = old(self).voted_seq()[0];
                &&& final(self).locks().requests() == old(self).locks().requests().remove(
                    be64(v.id@),
                )
                &&& final(self).voted_seq() == old(self).voted_seq().drop_first()
                &&& final(self).index_map() == apply_offsets(old(self).index_map(), v.index@, v.pos)
                &&& final(self).committed() == be64(v.tid@)
                &&& final(self).outbox().len() >= old(self).outbox().len()
                &&& final(self).outbox().subrange(0, old(self).outbox().len() as int) == old(
                    self,
                ).outbox()
                &&& forall|i: int|
                    old(self).outbox().len() <= i < final(self).outbox().len() && #[trigger] notice_tid(
                        final(self).outbox()[i],
                    ) is Some ==> notice_tid(final(self).outbox()[i])->0 == be64(v.tid@)
                &&& publish_notices(
                    final(self).outbox().subrange(
                        old(self).outbox().len() as int,
                        final(self).outbox().len() as int,
                    ),
                    old(self).client_ids(),
                    v,
                    final(self).index_map().dom().len() as u64,
                )
            },
            final(self).log_bytes() == old(self).log_bytes(),
            final(self).tid_handed_out() == old(self).tid_handed_out(),
            final(self).client_ids() == old(self).client_ids(),
    {
        if self.voted.len() == 0 {
            return false;
        }
        let c = match self.voted[0].finished {
            None => {
                return false;
            },
            Some(c) => c,
        };
        let v = self.voted.remove(0);
        proof {
            assert(v == old(self).voted@[0]);
            assert(old(self).voted_seq()[0] == v);
            assert(self.voted@ =~= old(self).voted@.drop_first());
            assert forall|k: u64| #[trigger] v.index@.contains_key(k) implies v.index@[k] + v.pos
                <= u64::MAX by {
                assert(v.index@[k] < v.length);
            }
        }
        self.apply_index(&v.index, v.pos);
        let len = self.index.len() as u64;
        self.committed_tid = u64_of(&v.tid);
        let ghost n0 = self.notices@;
        let ghost s1 = *self;
        let mut i: usize = 0;
        while i < self.clients.len()
            invariant
                self.log == s1.log,
                self.index == s1.index,
                self.voted == s1.voted,
                self.locker == s1.locker,
                self.clients == s1.clients,
                self.committed_tid == s1.committed_tid,
                self.last_tid == s1.last_tid,
                self.last_oid == s1.last_oid,
                self.notices@.len() >= n0.len(),
                self.notices@.subrange(0, n0.len() as int) == n0,
                forall|j: int|
                    n0.len() <= j < self.notices@.len() && #[trigger] notice_tid(self.notices@[j])
                        is Some ==> notice_tid(self.notices@[j])->0 == be64(v.tid@),
                i <= self.clients@.len(),
                v.index.wf(),
                v.finished == Some(c),
                ({
                    let added = self.notices@.subrange(n0.len() as int, self.notices@.len() as int);
                    let others = self.clients@.subrange(0, i as int).filter(|x: u64| x != c);
                    &&& added.len() == others.len()
                    &&& forall|j: int| 0 <= j < others.len() ==> invalidates(#[trigger] added[j], others[j], v)
                }),
            decreases self.clients@.len() - i,
        {
            let cl = self.clients[i];
            let ghost before = self.notices@;
            let ghost others0 = self.clients@.subrange(0, i as int).filter(|x: u64| x != c);
            proof {
                let s = self.clients@.subrange(0, i + 1);
                assert(s.drop_last() =~= self.clients@.subrange(0, i as int));
                reveal(Seq::filter);
            }
            if cl != c {
                let oids = Self::oid_list(&v.index);
                assert(oids@.map_values(|o: Oid| be64(o@)) =~= v.index.entries().map_values(
                    |e: (u64, u64)| e.0,
                ));
                self.notices.push(Notice::Invalidate(cl, v.tid, oids));
                assert(self.notices@.subrange(0, n0.len() as int) =~= before.subrange(
                    0,
                    n0.len() as int,
                ));
                proof {
                    let added = self.notices@.subrange(n0.len() as int, self.notices@.len() as int);
                    let others = self.clients@.subrange(0, i + 1).filter(|x: u64| x != c);
                    assert(others == others0.push(cl));
                    assert forall|j: int| 0 <= j < others.len() implies invalidates(
                        #[trigger] added[j],
                        others[j],
                        v,
                    ) by {
                        if j < others0.len() {
                            assert(added[j] == before.subrange(n0.len() as int, before.len() as int)[j]);
                        }
                    }
                }
            } else {
                proof {
                    let others = self.clients@.subrange(0, i + 1).filter(|x: u64| x != c);
                    assert(others == others0);
                }
            }
            i = i + 1;
        }
        proof {
            assert(self.clients@.subrange(0, i as int) =~= self.clients@);
        }
        let ghost before = self.notices@;
        self.notices.push(Notice::Finished(c, v.tid, len, v.pos + v.length));
        assert(self.notices@.subrange(0, n0.len() as int) =~= before.subrange(0, n0.len() as int));
        let ghost fin_at: int = self.notices@.len() - 1;
        let ghost others = self.clients@.filter(|x: u64| x != c);
        let granted = self.locker.release(&v.id);
        let ghost s2 = *self;
        let mut k: usize = 0;
        while k < granted.len()
            invariant
                self.log == s2.log,
                self.index == s2.index,
                self.voted == s2.voted,
                self.locker == s2.locker,
                self.clients == s2.clients,
                self.committed_tid == s2.committed_tid,
                self.last_tid == s2.last_tid,
                self.last_oid == s2.last_oid,
                self.notices@.len() >= n0.len(),
                self.notices@.subrange(0, n0.len() as int) == n0,
                forall|j: int|
                    n0.len() <= j < self.notices@.len() && #[trigger] notice_tid(self.notices@[j])
                        is Some ==> notice_tid(self.notices@[j])->0 == be64(v.tid@),
                k <= granted@.len(),
                0 <= fin_at < self.notices@.len(),
                fin_at == s2.notices@.len() - 1,
                self.notices@.subrange(0, fin_at + 1) == s2.notices@,
                forall|j: int| fin_at < j < self.notices@.len() ==> (#[trigger] self.notices@[j]) is Locked,
            decreases granted@.len() - k,
        {
            let ghost before = self.notices@;
            self.notices.push(Notice::Locked(granted[k]));
            assert(self.notices@.subrange(0, fin_at + 1) =~= before.subrange(0, fin_at + 1));
            assert forall|j: int| fin_at < j < self.notices@.len() implies (
            #[trigger] self.notices@[j]) is Locked by {
                if j < before.len() {
                    assert(self.notices@[j] == before[j]);
                }
            }
            assert(self.notices@.subrange(0, n0.len() as int) =~= before.subrange(
                0,
                n0.len() as int,
            ));
            k = k + 1;
        }
        proof {
            let ns = self.notices@.subrange(n0.len() as int, self.notices@.len() as int);
            let pre = before.subrange(n0.len() as int, before.len() as int);
            assert(pre.len() == others.len());
            assert forall|i: int| 0 <= i < others.len() implies invalidates(#[trigger] ns[i], others[i], v) by {
                assert(self.notices@.subrange(0, fin_at + 1)[n0.len() + i] == s2.notices@[n0.len() + i]);
                assert(ns[i] == pre[i]);
            }
            assert(ns[others.len() as int] == self.notices@[fin_at]);
            assert(self.notices@.subrange(0, fin_at + 1)[fin_at] == s2.notices@[fin_at]);
            assert forall|i: int| others.len() < i < ns.len() implies (#[trigger] ns[i]) is Locked by {
                assert(ns[i] == self.notices@[n0.len() + i]);
            }
            assert(publish_notices(ns, old(self).client_ids(), v, self.index_map().dom().len() as u64));
            assert forall|a: int| 0 <= a < self.voted_seq().len() implies {
                let w = #[trigger] self.voted_seq()[a];
                &&& w.index.wf()
                &&& w.length >= 40
                &&& w.pos + w.length <= self.log_bytes().len()
                &&& forall|k: u64| #[trigger] w.index@.contains_key(k) ==> w.index@[k] < w.length
                &&& self.committed() < be64(w.tid@) <= self.tid_handed_out()
            } by {
                assert(self.voted_seq()[a] == old(self).voted_seq()[a + 1]);
                assert(old(self).committed() < be64(old(self).voted_seq()[0].tid@));
                assert(be64(old(self).voted_seq()[0].tid@) < be64(old(self).voted_seq()[a + 1].tid@));
            }
            assert forall|a: int, b: int|
                0 <= a < b < self.voted_seq().len() implies be64(self.voted_seq()[a].tid@) < be64(
                self.voted_seq()[b].tid@,
            ) by {
                assert(self.voted_seq()[a] == old(self).voted_seq()[a + 1]);
                assert(self.voted_seq()[b] == old(self).voted_seq()[b + 1]);
            }
        }
        true
    }

    /// Publishes finished commits from the head of the voted queue until
    /// the first unfinished one, in order.
    fn publish_finished(&mut self)
        requires
            old(self).wf(),
        ensures
            final(self).wf(),
            ({
                let k = old(self).voted_seq().len() - final(self).voted_seq().len();
                &&& 0 <= k <= old(self).voted_seq().len()
                &&& final(self).voted_seq() == old(self).voted_seq().subrange(
                    k,
                    old(self).voted_seq().len() as int,
                )
                &&& forall|j: int| 0 <= j < k ==> (#[trigger] old(self).voted_seq()[j]).finished is Some
                &&& final(self).voted_seq().len() > 0 ==> final(self).voted_seq()[0].finished is None
                &&& final(self).index_map() == publish(
                    old(self).index_map(),
                    old(self).voted_seq().subrange(0, k),
                )
                &&& k > 0 ==> final(self).committed() == be64(old(self).voted_seq()[k - 1].tid@)
                &&& k == 0 ==> final(self).committed() == old(self).committed()
                &&& exists|cuts: Seq<int>|
                    published_notices(
                        final(self).outbox(),
                        cuts,
                        old(self).client_ids(),
                        old(self).index_map(),
                        old(self).voted_seq().subrange(0, k),
                    ) && cuts[0] == old(self).outbox().len() && cuts.last() == final(self).outbox().len()
            }),
            final(self).outbox().len() >= old(self).outbox().len(),
            final(self).outbox().subrange(0, old(self).outbox().len() as int) == old(self).outbox(),
            announced_in_order(
                final(self).outbox().subrange(
                    old(self).outbox().len() as int,
                    final(self).outbox().len() as int,
                ),
                old(self).committed(),
                final(self).committed(),
            ),
            final(self).locks().requests().subset_of(old(self).locks().requests()),
            forall|o: u64|
                crate::lock::free_or_owned(old(self).locks(), o) ==> #[trigger] crate::lock::free_or_owned(
                    final(self).locks(),
                    o,
                ),
            final(self).log_bytes() == old(self).log_bytes(),
            final(self).tid_handed_out() == old(self).tid_handed_out(),
            final(self).client_ids() == old(self).client_ids(),
    {
        let ghost vs = old(self).voted_seq();
        let ghost n0 = old(self).outbox();
        proof {
            assert(vs.subrange(0, 0) =~= Seq::<Voted>::empty());
            assert(vs.subrange(0, vs.len() - vs.len()) =~= Seq::<Voted>::empty());
            assert(vs.subrange(0, vs.len() as int) =~= vs);
        }
        let mut more = true;
        let ghost mut cuts: Seq<int> = seq![n0.len() as int];
        while more
            invariant
                self.wf(),
                vs == old(self).voted_seq(),
                n0 == old(self).outbox(),
                published_notices(
                    self.outbox(),
                    cuts,
                    old(self).client_ids(),
                    old(self).index_map(),
                    vs.subrange(0, vs.len() - self.voted_seq().len()),
                ),
                cuts[0] == n0.len(),
                cuts.last() == self.outbox().len(),
                ({
                    let k = vs.len() - self.voted_seq().len();
                    &&& 0 <= k <= vs.len()
                    &&& self.voted_seq() == vs.subrange(k, vs.len() as int)
                    &&& forall|j: int| 0 <= j < k ==> (#[trigger] vs[j]).finished is Some
                    &&& !more ==> (self.voted_seq().len() > 0 ==> self.voted_seq()[0].finished is None)
                    &&& self.index_map() == publish(old(self).index_map(), vs.subrange(0, k))
                    &&& k > 0 ==> self.committed() == be64(vs[k - 1].tid@)
                    &&& k == 0 ==> self.committed() == old(self).committed()
                }),
                self.outbox().len() >= n0.len(),
                self.outbox().subrange(0, n0.len() as int) == n0,
                announced_in_order(
                    self.outbox().subrange(n0.len() as int, self.outbox().len() as int),
                    old(self).committed(),
                    self.committed(),
                ),
                old(self).committed() <= self.committed(),
                self.locks().requests().subset_of(old(self).locks().requests()),
                forall|o: u64|
                    crate::lock::free_or_owned(old(self).locks(), o) ==> #[trigger] crate::lock::free_or_owned(
                        self.locks(),
                        o,
                    ),
                self.log_bytes() == old(self).log_bytes(),
                self.tid_handed_out() == old(self).tid_handed_out(),
                self.client_ids() == old(self).client_ids(),
            decreases self.voted_seq().len(), if more { 1int } else { 0int },
        {
            let ghost pre = *self;
            let ghost k0 = vs.len() - self.voted_seq().len();
            more = self.publish_head();
            proof {
                if more {
                    let v = pre.voted_seq()[0];
                    let k = k0 + 1;
                    assert(v == vs[k0]);
                    assert(self.voted_seq() =~= vs.subrange(k, vs.len() as int));
                    assert(vs.subrange(0, k).drop_last() =~= vs.subrange(0, k0));
                    assert(vs.subrange(0, k).last() == v);
                    let c2 = cuts.push(self.outbox().len() as int);
                    let vk = vs.subrange(0, k);
                    let vk0 = vs.subrange(0, k0);
                    assert forall|j: int| #![trigger c2[j]] 0 <= j < vk.len() implies 0 <= c2[j] <= c2[j + 1]
                        <= self.outbox().len() && publish_notices(
                        self.outbox().subrange(c2[j], c2[j + 1]),
                        old(self).client_ids(),
                        vk[j],
                        publish(old(self).index_map(), vk.subrange(0, j + 1)).dom().len() as u64,
                    ) by {
                        assert(vk.subrange(0, j + 1) =~= vs.subrange(0, j + 1));
                        if j < k0 {
                            assert(c2[j] == cuts[j] && c2[j + 1] == cuts[j + 1]);
                            assert(vk0.subrange(0, j + 1) =~= vs.subrange(0, j + 1));
                            assert(vk[j] == vk0[j]);
                            assert(self.outbox().subrange(c2[j], c2[j + 1]) =~= pre.outbox().subrange(
                                cuts[j],
                                cuts[j + 1],
                            )) by {
                                assert forall|x: int| 0 <= x < cuts[j + 1] - cuts[j] implies #[trigger] self.outbox().subrange(
                                    c2[j],
                                    c2[j + 1],
                                )[x] == pre.outbox().subrange(cuts[j], cuts[j + 1])[x] by {
                                    assert(self.outbox().subrange(0, pre.outbox().len() as int)[cuts[j] + x]
                                        == pre.outbox()[cuts[j] + x]);
                                }
                            }
                        } else {
                            assert(c2[j] == pre.outbox().len());
                            assert(vk.subrange(0, j + 1) =~= vk);
                        }
                    }
                    cuts = c2;
                    assert forall|j: int| 0 <= j < k implies (#[trigger] vs[j]).finished is Some by {}
                    // the new commit comes after every one published before
                    assert(pre.committed() < be64(v.tid@));
                    let a = pre.outbox().subrange(n0.len() as int, pre.outbox().len() as int);
                    let b = self.outbox().subrange(n0.len() as int, self.outbox().len() as int);
                    assert(self.outbox().subrange(0, pre.outbox().len() as int) == pre.outbox());
                    assert(self.outbox().subrange(0, n0.len() as int) =~= pre.outbox().subrange(
                        0,
                        n0.len() as int,
                    ));
                    assert forall|i: int| 0 <= i < a.len() implies b[i] == a[i] by {
                        assert(b[i] == self.outbox()[n0.len() + i]);
                        assert(self.outbox().subrange(0, pre.outbox().len() as int)[n0.len() + i]
                            == pre.outbox()[n0.len() + i]);
                    }
                    assert forall|i: int|
                        0 <= i < b.len() && #[trigger] notice_tid(b[i]) is Some implies old(
                        self,
                    ).committed() < notice_tid(b[i])->0 <= self.committed() by {
                        if i < a.len() {
                            assert(b[i] == a[i]);
                        } else {
                            assert(b[i] == self.outbox()[n0.len() + i]);
                        }
                    }
                    assert forall|i: int, j: int|
                        0 <= i < j < b.len() && #[trigger] notice_tid(b[i]) is Some
                            && #[trigger] notice_tid(b[j]) is Some implies notice_tid(b[i])->0
                        <= notice_tid(b[j])->0 by {
                        if j < a.len() {
                            assert(b[i] == a[i] && b[j] == a[j]);
                        } else if i < a.len() {
                            assert(b[i] == a[i]);
                            assert(b[j] == self.outbox()[n0.len() + j]);
                        } else {
                            assert(b[i] == self.outbox()[n0.len() + i]);
                            assert(b[j] == self.outbox()[n0.len() + j]);
                        }
                    }
                }
            }
        }
    }

    /// The client finishes voted transaction `id`: its record's marker
    /// becomes `TTTT` in the log at once, and the finished commits at the
    /// head of the voted queue are published in order (see
    /// `publish_finished`). `POSError::Transaction` where no voted
    /// transaction is `id`; the queue head is published all the same.
    pub fn tpc_finish(&mut self, id: &Tid, client: u64) -> (r: Result<(), POSError>)
        requires
            old(self).wf(),
        ensures
            final(self).wf(),
            r is Ok <==> exists|i: int|
                0 <= i < old(self).voted_seq().len() && old(self).voted_seq()[i].id@ == id@,
            r is Err ==> r == Err::<(), POSError>(POSError::Transaction) && final(self).log_bytes()
                == old(self).log_bytes(),
            ({
                let vs = old(self).voted_seq();
                let i = first_voted(vs, *id);
                let mid = if r is Ok {
                    vs.update(i, Voted { finished: Some(client), ..vs[i] })
                } else {
                    vs
                };
                let k = vs.len() - final(self).voted_seq().len();
                &&& r is Ok ==> final(self).log_bytes() == crate::util::splice(
                    old(self).log_bytes(),
                    vs[i].pos as int,
                    transaction_marker(),
                )
                &&& 0 <= k <= vs.len()
                &&& final(self).voted_seq() == mid.subrange(k, vs.len() as int)
                &&& forall|j: int| 0 <= j < k ==> (#[trigger] mid[j]).finished is Some
                &&& final(self).voted_seq().len() > 0 ==> final(self).voted_seq()[0].finished is None
                &&& final(self).index_map() == publish(old(self).index_map(), mid.subrange(0, k))
                &&& k > 0 ==> final(self).committed() == be64(mid[k - 1].tid@)
                &&& k == 0 ==> final(self).committed() == old(self).committed()
                &&& exists|cuts: Seq<int>|
                    published_notices(
                        final(self).outbox(),
                        cuts,
                        old(self).client_ids(),
                        old(self).index_map(),
                        mid.subrange(0, k),
                    ) && cuts[0] == old(self).outbox().len() && cuts.last() == final(self).outbox().len()
            }),
            final(self).outbox().len() >= old(self).outbox().len(),
            final(self).outbox().subrange(0, old(self).outbox().len() as int) == old(self).outbox(),
            announced_in_order(
                final(self).outbox().subrange(
                    old(self).outbox().len() as int,
                    final(self).outbox().len() as int,
                ),
                old(self).committed(),
                final(self).committed(),
            ),
            final(self).tid_handed_out() == old(self).tid_handed_out(),
            final(self).client_ids() == old(self).client_ids(),
    {
        let ghost vs = self.voted@;
        let mut i: usize = 0;
        let mut found = false;
        while i < self.voted.len() && !found
            invariant
                i <= self.voted@.len(),
                vs == self.voted@,
                forall|j: int| 0 <= j < i ==> vs[j].id@ != id@,
                found ==> i < vs.len() && vs[i as int].id@ == id@,
            decreases self.voted@.len() - i, if found { 0int } else { 1int },
        {
            if same_id(&self.voted[i].id, id) {
                found = true;
            } else {
                i = i + 1;
            }
        }
        proof {
            if found {
                assert(first_voted(vs, *id) == i) by {
                    lemma_first_voted(vs, *id, i as int);
                }
            } else {
                assert(!exists|j: int| 0 <= j < vs.len() && vs[j].id@ == id@);
            }
        }
        if found {
            let mut v = self.voted.remove(i);
            v.finished = Some(client);
            let pos = v.pos;
            let ghost vv = v;
            self.voted.insert(i, v);
            proof {
                assert(self.voted@ =~= vs.update(i as int, vv));
                assert(vv == Voted { finished: Some(client), ..vs[i as int] });
            }
            let n = self.log.len();
            assert(pos + 4 <= n);
            crate::util::write_at(&mut self.log, pos as usize, &TRANSACTION_MARKER);
            proof {
                assert(TRANSACTION_MARKER@ =~= transaction_marker());
                assert forall|a: int| 0 <= a < self.voted_seq().len() implies {
                    let w = #[trigger] self.voted_seq()[a];
                    &&& w.index.wf()
                    &&& w.length >= 40
                    &&& w.pos + w.length <= self.log_bytes().len()
                    &&& forall|k: u64| #[trigger] w.index@.contains_key(k) ==> w.index@[k] < w.length
                    &&& self.committed() < be64(w.tid@) <= self.tid_handed_out()
                } by {
                    if a != i {
                        assert(self.voted_seq()[a] == vs[a]);
                    }
                }
            }
        }
        let ghost fi = first_voted(vs, *id);
        let ghost mid = if found {
            vs.update(fi, Voted { finished: Some(client), ..vs[fi] })
        } else {
            vs
        };
        assert(self.voted_seq() == mid);
        assert(found ==> self.log_bytes() == crate::util::splice(old(self).log_bytes(), vs[fi].pos as int, transaction_marker()));
        self.publish_finished();
        if found {
            Ok(())
        } else {
            Err(POSError::Transaction)
        }
    }

    /// Abandons transaction `id`: drops it from the voted queue (its
    /// `PPPP` record stays in the log as padding), releases its locks, and
    /// publishes whatever finished commits are now at the head of the queue.
    pub fn tpc_abort(&mut self, id: &Tid)
        requires
            old(self).wf(),
        ensures
            final(self).wf(),
            final(self).log_bytes() == old(self).log_bytes(),
            ({
                let mid = old(self).voted_seq().filter(|v: Voted| v.id@ != id@);
                let k = mid.len() - final(self).voted_seq().len();
                &&& 0 <= k <= mid.len()
                &&& final(self).voted_seq() == mid.subrange(k, mid.len() as int)
                &&& forall|j: int| 0 <= j < k ==> (#[trigger] mid[j]).finished is Some
                &&& final(self).voted_seq().len() > 0 ==> final(self).voted_seq()[0].finished is None
                &&& final(self).index_map() == publish(old(self).index_map(), mid.subrange(0, k))
                &&& k > 0 ==> final(self).committed() == be64(mid[k - 1].tid@)
                &&& k == 0 ==> final(self).committed() == old(self).committed()
                &&& exists|cuts: Seq<int>|
                    published_notices(
                        final(self).outbox(),
                        cuts,
                        old(self).client_ids(),
                        old(self).index_map(),
                        mid.subrange(0, k),
                    ) && old(self).outbox().len() <= cuts[0] && cuts.last() == final(self).outbox().len()
                        && forall|i: int|
                        old(self).outbox().len() <= i < cuts[0] ==> (#[trigger] final(self).outbox()[i]) is Locked
            }),
            final(self).outbox().len() >= old(self).outbox().len(),
            final(self).outbox().subrange(0, old(self).outbox().len() as int) == old(self).outbox(),
            announced_in_order(
                final(self).outbox().subrange(
                    old(self).outbox().len() as int,
                    final(self).outbox().len() as int,
                ),
                old(self).committed(),
                final(self).committed(),
            ),
            old(self).locks().requests().contains(be64(id@)) ==> forall|k: int|
                0 <= k < old(self).locks().holds(be64(id@)).len() ==> crate::lock::free_or_owned(
                    final(self).locks(),
                    #[trigger] old(self).locks().holds(be64(id@))[k],
                ),
            forall|o: u64|
                crate::lock::free_or_owned(old(self).locks(), o) ==> #[trigger] crate::lock::free_or_owned(
                    final(self).locks(),
                    o,
                ),
            !final(self).locks().requests().contains(be64(id@)),
            final(self).tid_handed_out() == old(self).tid_handed_out(),
            final(self).client_ids() == old(self).client_ids(),
    {
        let ghost vs = self.voted@;
        let mut kept: Vec<Voted> = Vec::new();
        let mut old_voted: Vec<Voted> = Vec::new();
        std::mem::swap(&mut old_voted, &mut self.voted);
        proof {
            assert(old_voted@ == vs);
            assert(vs.subrange(0, 0).filter(|v: Voted| v.id@ != id@) =~= Seq::<Voted>::empty()) by {
                reveal(Seq::filter);
            }
        }
        let mut rest = old_voted;
        let mut i: usize = 0;
        let n = rest.len();
        proof {
            assert(rest@.subrange(0, 0) =~= Seq::<Voted>::empty());
        }
        // Walk the queue from its head, keeping the entries of other transactions.
        while rest.len() > 0
            invariant
                i <= n,
                n == vs.len(),
                rest@ == vs.subrange(i as int, n as int),
                kept@ == vs.subrange(0, i as int).filter(|v: Voted| v.id@ != id@),
            decreases rest@.len(),
        {
            let v = rest.remove(0);
            proof {
                assert(v == vs[i as int]);
                let s = vs.subrange(0, i + 1);
                assert(s.drop_last() =~= vs.subrange(0, i as int));
                reveal(Seq::filter);
                assert(rest@ =~= vs.subrange(i + 1, n as int));
            }
            if !same_id(&v.id, id) {
                kept.push(v);
            }
            i = i + 1;
        }
        proof {
            assert(vs.subrange(0, n as int) =~= vs);
            let mid = vs.filter(|v: Voted| v.id@ != id@);
            assert forall|a: int| 0 <= a < mid.len() implies exists|b: int| 0 <= b < vs.len() && #[trigger] mid[a] == vs[b] by {
                assert(vs.filter(|v: Voted| v.id@ != id@).contains(mid[a]));
                vs.lemma_filter_contains_rev(|v: Voted| v.id@ != id@, mid[a]);
            }
        }
        self.voted = kept;
        proof {
            let mid = vs.filter(|v: Voted| v.id@ != id@);
            assert forall|a: int, b: int| 0 <= a < b < mid.len() implies be64(mid[a].tid@) < be64(mid[b].tid@) by {
                lemma_filter_order(vs, *id, a, b);
            }
            assert forall|a: int| 0 <= a < self.voted_seq().len() implies {
                let w = #[trigger] self.voted_seq()[a];
                &&& w.index.wf()
                &&& w.length >= 40
                &&& w.pos + w.length <= self.log_bytes().len()
                &&& forall|k: u64| #[trigger] w.index@.contains_key(k) ==> w.index@[k] < w.length
                &&& self.committed() < be64(w.tid@) <= self.tid_handed_out()
            } by {
                let b = choose|b: int| 0 <= b < vs.len() && #[trigger] mid[a] == vs[b];
                assert(self.voted_seq()[a] == vs[b]);
            }
        }
        let granted = self.locker.release(id);
        let ghost s2 = *self;
        let mut k: usize = 0;
        while k < granted.len()
            invariant
                self.log == s2.log,
                self.index == s2.index,
                self.voted == s2.voted,
                self.locker == s2.locker,
                self.clients == s2.clients,
                self.committed_tid == s2.committed_tid,
                self.last_tid == s2.last_tid,
                self.last_oid == s2.last_oid,
                self.notices@.len() >= old(self).notices@.len(),
                self.notices@.subrange(0, old(self).notices@.len() as int) == old(self).notices@,
                forall|i: int|
                    old(self).notices@.len() <= i < self.notices@.len() ==> (
                    #[trigger] self.notices@[i]) is Locked,
                k <= granted@.len(),
            decreases granted@.len() - k,
        {
            let ghost before = self.notices@;
            self.notices.push(Notice::Locked(granted[k]));
            assert(self.notices@.subrange(0, old(self).notices@.len() as int) =~= before.subrange(
                0,
                old(self).notices@.len() as int,
            ));
            assert forall|i: int|
                old(self).notices@.len() <= i < self.notices@.len() implies (
                #[trigger] self.notices@[i]) is Locked by {
                if i < before.len() {
                    assert(self.notices@[i] == before[i]);
                }
            }
            k = k + 1;
        }
        let ghost pre = *self;
        self.publish_finished();
        proof {
            assert(self.outbox().subrange(0, old(self).outbox().len() as int) =~= pre.outbox().subrange(
                0,
                old(self).outbox().len() as int,
            ));
            assert forall|i: int|
                old(self).outbox().len() <= i < pre.outbox().len() implies (
                #[trigger] self.outbox()[i]) is Locked by {
                assert(self.outbox().subrange(0, pre.outbox().len() as int)[i] == pre.outbox()[i]);
            }
            lemma_announced_after_grants(
                self.outbox(),
                old(self).outbox().len() as int,
                pre.outbox().len() as int,
                old(self).committed(),
                self.committed(),
            );
        }
    }

    /// Loads the revision of `oid` whose TID is the largest below `tid`:
    /// from the index entry, back pointers are followed as `walk` says.
    pub fn load_before(&self, oid: &Oid, tid: &Tid) -> (r: Result<LoadBeforeResult, POSError>)
        requires
            self.wf(),
        ensures
            !self.index_map().contains_key(be64(oid@)) ==> r matches Ok(
                LoadBeforeResult::PosKeyError,
            ),
            self.index_map().contains_key(be64(oid@)) ==> match walk(
                self.log_bytes(),
                self.index_map()[be64(oid@)] as int,
                be64(tid@),
                None,
            ) {
                Walk::Corrupt => r == Err::<LoadBeforeResult, POSError>(POSError::Format),
                Walk::NoneBefore => r matches Ok(LoadBeforeResult::NoneBefore),
                Walk::Found(p, next) => (r matches Ok(LoadBeforeResult::Loaded(data, t, n)) && data@
                    == self.log_bytes().subrange(
                    p + 36,
                    p + 36 + be32(self.log_bytes().subrange(p, p + 4)),
                ) && t@ == self.log_bytes().subrange(p + 12, p + 20) && match next {
                    None => n is None,
                    Some(x) => (n matches Some(y) && be64(y@) == x),
                }),
            },
    {
        let o = u64_of(oid);
        let t = u64_of(tid);
        match self.index.get(o) {
            None => Ok(LoadBeforeResult::PosKeyError),
            Some(p0) => {
                let n = self.log.len();
                let ghost goal = walk(self.log@, p0 as int, t, None);
                let mut pos: u64 = p0;
                let mut next: Option<u64> = None;
                loop
                    invariant
                        n == self.log@.len(),
                        goal == walk(self.log@, p0 as int, t, None),
                        t == be64(tid@),
                        self.index_map().contains_key(be64(oid@)),
                        p0 == self.index_map()[be64(oid@)],
                        walk(self.log@, pos as int, t, next) == goal,
                    decreases pos,
                {
                    if pos > n as u64 || (n as u64) - pos < 36 {
                        return Err(POSError::Format);
                    }
                    let p = pos as usize;
                    let htid = read_u64_at(&self.log, p + 12);
                    let prev = read_u64_at(&self.log, p + 20);
                    if htid < t {
                        let dlen = read_u32_at(&self.log, p);
                        let data = match crate::util::read_sized(&self.log, p + 36, dlen as usize) {
                            Ok(d) => d,
                            Err(e) => {
                                return Err(e);
                            },
                        };
                        let found = crate::util::id_at(&self.log, p + 12);
                        let nx = match next {
                            None => None,
                            Some(x) => Some(p64(x)),
                        };
                        return Ok(LoadBeforeResult::Loaded(data, found, nx));
                    }
                    if prev == 0 {
                        return Ok(LoadBeforeResult::NoneBefore);
                    }
                    if prev >= pos {
                        return Err(POSError::Format);
                    }
                    next = Some(htid);
                    pos = prev;
                }
            },
        }
    }
}

} // verus!
