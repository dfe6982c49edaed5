//! A transaction in progress: the object revisions a client saves, their
//! packing, and the commit record they become when staged.

use vstd::prelude::*;

use crate::errors::POSError;
use crate::index::Index;
use crate::records::{DataHeader, TransactionHeader, data_header_bytes, transaction_header_bytes};
use crate::util::{be64, p64, p64s, push_bytes, push_u64, same_id, u64_of, Oid, Tid};

verus! {

/// Marker of a commit record that is not (yet) committed: `PPPP`.
pub const PADDING_MARKER: [u8; 4] = [0x50, 0x50, 0x50, 0x50];

/// The bytes `PPPP`.
pub open spec fn padding_marker() -> Seq<u8> {
    seq![0x50u8, 0x50u8, 0x50u8, 0x50u8]
}

/// One saved object revision.
#[derive(Debug)]
pub struct SavedRecord {
    pub oid: Oid,
    pub serial: Tid,
    pub data: Vec<u8>,
    pub previous: u64,
}

/// What a saved revision holds.
pub struct RecordView {
    pub oid: Seq<u8>,
    pub serial: Seq<u8>,
    pub data: Seq<u8>,
    pub previous: u64,
}

impl View for SavedRecord {
    type V = RecordView;

    open spec fn view(&self) -> RecordView {
        RecordView { oid: self.oid@, serial: self.serial@, data: self.data@, previous: self.previous }
    }
}

/// Bytes that a revision takes in a commit record: header and data.
pub open spec fn record_size(r: RecordView) -> int {
    36 + r.data.len() as int
}

/// Bytes that a sequence of revisions takes.
pub open spec fn records_size(rs: Seq<RecordView>) -> int
    decreases rs.len(),
{
    if rs.len() == 0 {
        0
    } else {
        records_size(rs.drop_last()) + record_size(rs.last())
    }
}

/// The bytes of revision `r` as a data record at offset `off`, stamped with `tid`.
pub open spec fn record_bytes(r: RecordView, tid: Seq<u8>, off: int) -> Seq<u8> {
    p32s_of_len(r.data.len()) + r.oid + tid + p64s(r.previous) + p64s(off as u64) + r.data
}

/// The four big-endian bytes of a data length.
pub open spec fn p32s_of_len(n: nat) -> Seq<u8> {
    crate::util::p32s(n as u32)
}

/// The data records of `rs`, the first at offset `start`, each stamped with `tid`.
pub open spec fn records_bytes(rs: Seq<RecordView>, tid: Seq<u8>, start: int) -> Seq<u8>
    decreases rs.len(),
{
    if rs.len() == 0 {
        Seq::empty()
    } else {
        records_bytes(rs.drop_last(), tid, start) + record_bytes(
            rs.last(),
            tid,
            start + records_size(rs.drop_last()),
        )
    }
}

/// Each object of `rs` mapped to the offset of its last revision, the first
/// revision being at `start`.
pub open spec fn records_offsets(rs: Seq<RecordView>, start: int) -> Map<u64, u64>
    decreases rs.len(),
{
    if rs.len() == 0 {
        Map::empty()
    } else {
        records_offsets(rs.drop_last(), start).insert(
            be64(rs.last().oid),
            (start + records_size(rs.drop_last())) as u64,
        )
    }
}

/// Revision `i` is the last one of its object.
pub open spec fn is_latest(rs: Seq<RecordView>, i: int) -> bool {
    forall|j: int| i < j < rs.len() ==> rs[j].oid != rs[i].oid
}

/// Of the first `n` revisions, those that are the last of their object.
pub open spec fn latest_upto(rs: Seq<RecordView>, n: int) -> Seq<RecordView>
    decreases n,
{
    if n <= 0 {
        Seq::empty()
    } else if is_latest(rs, n - 1) {
        latest_upto(rs, n - 1).push(rs[n - 1])
    } else {
        latest_upto(rs, n - 1)
    }
}

/// The last revision of each object, in the order they were saved.
pub open spec fn latest(rs: Seq<RecordView>) -> Seq<RecordView> {
    latest_upto(rs, rs.len() as int)
}

/// The header length of a commit record with these user, description and
/// extension bytes: marker, header and the three strings.
pub open spec fn commit_header_length(user: Seq<u8>, desc: Seq<u8>, ext: Seq<u8>) -> int {
    32 + user.len() as int + desc.len() as int + ext.len() as int
}

/// The whole commit record of revisions `rs` under `tid`, marked `PPPP`,
/// placed at offset `base` of the log.
pub open spec fn commit_record_bytes(
    tid: Seq<u8>,
    user: Seq<u8>,
    desc: Seq<u8>,
    ext: Seq<u8>,
    rs: Seq<RecordView>,
    base: int,
) -> Seq<u8> {
    let hl = commit_header_length(user, desc, ext);
    let total = (hl + records_size(rs) + 8) as u64;
    padding_marker() + p64s(total) + tid + crate::util::p32s(rs.len() as u32) + crate::util::p16s(
        user.len() as u16,
    ) + crate::util::p16s(desc.len() as u16) + crate::util::p32s(ext.len() as u32) + user + desc
        + ext + records_bytes(rs, tid, base + hl) + p64s(total)
}

/// The set of objects that `rs` saves.
pub open spec fn oid_set(rs: Seq<RecordView>) -> Set<u64> {
    Set::new(|o: u64| exists|i: int| 0 <= i < rs.len() && be64(rs[i].oid) == o)
}

/// Values strictly decreasing along `s`.
pub open spec fn strictly_decreasing(s: Seq<u64>) -> bool {
    forall|i: int, j: int| 0 <= i < j < s.len() ==> s[i] > s[j]
}

/// Of the first `n` revisions, those that are the last of their object, are
/// no larger than the first `n` and are among them.
pub proof fn lemma_latest_upto(rs: Seq<RecordView>, n: int)
    requires
        0 <= n <= rs.len(),
    ensures
        latest_upto(rs, n).len() <= n,
        records_size(latest_upto(rs, n)) <= records_size(rs.subrange(0, n)),
        forall|k: int|
            0 <= k < latest_upto(rs, n).len() ==> exists|i: int|
                0 <= i < n && #[trigger] latest_upto(rs, n)[k] == rs[i] && is_latest(rs, i),
    decreases n,
{
    if n > 0 {
        lemma_latest_upto(rs, n - 1);
        assert(rs.subrange(0, n).drop_last() =~= rs.subrange(0, n - 1));
        let l = latest_upto(rs, n - 1);
        if is_latest(rs, n - 1) {
            assert(l.push(rs[n - 1]).drop_last() =~= l);
            assert forall|k: int| 0 <= k < latest_upto(rs, n).len() implies exists|i: int|
                0 <= i < n && #[trigger] latest_upto(rs, n)[k] == rs[i] && is_latest(rs, i) by {
                if k < l.len() {
                    let i = choose|i: int|
                        0 <= i < n - 1 && #[trigger] l[k] == rs[i] && is_latest(rs, i);
                    assert(latest_upto(rs, n)[k] == rs[i]);
                } else {
                    assert(latest_upto(rs, n)[k] == rs[n - 1]);
                }
            }
        }
    }
}

/// The revisions the last of their object, among the first `n`, all stay.
proof fn lemma_latest_upto_keeps(rs: Seq<RecordView>, n: int, j: int)
    requires
        0 <= j < n <= rs.len(),
        is_latest(rs, j),
    ensures
        exists|k: int| 0 <= k < latest_upto(rs, n).len() && #[trigger] latest_upto(rs, n)[k] == rs[j],
    decreases n,
{
    if j < n - 1 {
        lemma_latest_upto_keeps(rs, n - 1, j);
        let k = choose|k: int|
            0 <= k < latest_upto(rs, n - 1).len() && #[trigger] latest_upto(rs, n - 1)[k] == rs[j];
        let l = latest_upto(rs, n - 1);
        if is_latest(rs, n - 1) {
            assert(latest_upto(rs, n) == l.push(rs[n - 1]));
            assert(latest_upto(rs, n)[k] == l[k]);
        } else {
            assert(latest_upto(rs, n) == l);
        }
    } else {
        let l = latest_upto(rs, n - 1);
        assert(latest_upto(rs, n) == l.push(rs[n - 1]));
        assert(latest_upto(rs, n)[l.len() as int] == rs[j]);
    }
}

/// A packed commit holds exactly one revision of each object saved: no
/// object twice, and every object saved, with its last revision.
pub proof fn lemma_one_record_per_object(rs: Seq<RecordView>)
    ensures
        forall|a: int, b: int|
            0 <= a < b < latest(rs).len() ==> latest(rs)[a].oid != latest(rs)[b].oid,
        oid_set(latest(rs)) == oid_set(rs),
{
    lemma_latest_distinct(rs, rs.len() as int);
    let n = rs.len() as int;
    lemma_latest_upto(rs, n);
    assert forall|o: u64| oid_set(rs).contains(o) implies oid_set(latest(rs)).contains(o) by {
        let i = choose|i: int| 0 <= i < rs.len() && be64(rs[i].oid) == o;
        let j = lemma_last_of(rs, i);
        lemma_latest_upto_keeps(rs, rs.len() as int, j);
        let k = choose|k: int| 0 <= k < latest_upto(rs, n).len() && #[trigger] latest_upto(rs, n)[k] == rs[j];
        assert(latest(rs) == latest_upto(rs, n));
        assert(be64(latest(rs)[k].oid) == o);
    }
    assert forall|o: u64| oid_set(latest(rs)).contains(o) implies oid_set(rs).contains(o) by {
        let k = choose|k: int| 0 <= k < latest(rs).len() && be64(latest(rs)[k].oid) == o;
        let i = choose|i: int| 0 <= i < n && #[trigger] latest_upto(rs, n)[k] == rs[i] && is_latest(rs, i);
        assert(be64(rs[i].oid) == o);
    }
    assert(oid_set(latest(rs)) =~= oid_set(rs));
}

/// The last revision of the object of revision `i`.
proof fn lemma_last_of(rs: Seq<RecordView>, i: int) -> (j: int)
    requires
        0 <= i < rs.len(),
    ensures
        i <= j < rs.len(),
        rs[j].oid == rs[i].oid,
        is_latest(rs, j),
    decreases rs.len() - i,
{
    if is_latest(rs, i) {
        i
    } else {
        let k = choose|k: int| i < k < rs.len() && rs[k].oid == rs[i].oid;
        lemma_last_of(rs, k)
    }
}

/// Of the first `n` revisions, those kept have distinct objects.
proof fn lemma_latest_distinct(rs: Seq<RecordView>, n: int)
    requires
        0 <= n <= rs.len(),
    ensures
        forall|a: int, b: int|
            0 <= a < b < latest_upto(rs, n).len() ==> latest_upto(rs, n)[a].oid != latest_upto(
                rs,
                n,
            )[b].oid,
    decreases n,
{
    if n > 0 {
        lemma_latest_distinct(rs, n - 1);
        lemma_latest_upto(rs, n - 1);
        let l = latest_upto(rs, n - 1);
        if is_latest(rs, n - 1) {
            let m = latest_upto(rs, n);
            assert forall|a: int, b: int| 0 <= a < b < m.len() implies m[a].oid != m[b].oid by {
                if b < l.len() {
                    assert(m[a] == l[a] && m[b] == l[b]);
                } else {
                    assert(m[a] == l[a]);
                    let i = choose|i: int| 0 <= i < n - 1 && #[trigger] l[a] == rs[i] && is_latest(rs, i);
                    assert(rs[n - 1].oid != rs[i].oid);
                }
            }
        }
    }
}

/// Within the data records of `rs`, revision `k` is laid out at its offset.
pub proof fn lemma_record_in_records(rs: Seq<RecordView>, tid: Seq<u8>, start: int, k: int)
    requires
        tid.len() == 8,
        forall|i: int| 0 <= i < rs.len() ==> (#[trigger] rs[i]).oid.len() == 8,
        0 <= k < rs.len(),
    ensures
        records_bytes(rs, tid, start).subrange(
            records_size(rs.subrange(0, k)),
            records_size(rs.subrange(0, k)) + record_size(rs[k]),
        ) == record_bytes(rs[k], tid, start + records_size(rs.subrange(0, k))),
    decreases rs.len(),
{
    let t = rs.drop_last();
    lemma_records_bytes_len(t, tid, start);
    let a = records_bytes(t, tid, start);
    let b = record_bytes(rs.last(), tid, start + records_size(t));
    assert(records_bytes(rs, tid, start) == a + b);
    if k < rs.len() - 1 {
        assert(rs.subrange(0, k) == t.subrange(0, k));
        lemma_record_in_records(t, tid, start, k);
        lemma_records_size_prefix(t, k + 1, t.len() as int);
        assert(t.subrange(0, t.len() as int) =~= t);
        assert(t.subrange(0, k + 1).drop_last() =~= t.subrange(0, k));
        assert(t.subrange(0, k + 1).last() == rs[k]);
        lemma_records_size_prefix(t, k, t.len() as int);
        assert(records_size(t.subrange(0, k + 1)) == records_size(t.subrange(0, k)) + record_size(
            rs[k],
        ));
        assert((a + b).subrange(
            records_size(rs.subrange(0, k)),
            records_size(rs.subrange(0, k)) + record_size(rs[k]),
        ) =~= a.subrange(
            records_size(rs.subrange(0, k)),
            records_size(rs.subrange(0, k)) + record_size(rs[k]),
        ));
    } else {
        assert(rs.subrange(0, k) =~= t);
        assert(rs.last() == rs[k]);
        assert(b.len() == record_size(rs[k]));
        assert((a + b).subrange(a.len() as int, (a.len() + b.len()) as int) =~= b);
    }
}

/// With distinct objects, each revision's object is mapped to its offset.
pub proof fn lemma_records_offsets_at(rs: Seq<RecordView>, start: int, k: int)
    requires
        forall|a: int, b: int| 0 <= a < b < rs.len() ==> rs[a].oid != rs[b].oid,
        forall|i: int| 0 <= i < rs.len() ==> (#[trigger] rs[i]).oid.len() == 8,
        0 <= k < rs.len(),
    ensures
        records_offsets(rs, start).contains_key(be64(rs[k].oid)),
        records_offsets(rs, start)[be64(rs[k].oid)] == (start + records_size(rs.subrange(0, k))) as u64,
    decreases rs.len(),
{
    let t = rs.drop_last();
    if k < rs.len() - 1 {
        lemma_records_offsets_at(t, start, k);
        assert(rs.subrange(0, k) == t.subrange(0, k));
        crate::util::lemma_p64s_be64(rs[k].oid);
        crate::util::lemma_p64s_be64(rs.last().oid);
        assert(rs[k].oid != rs[rs.len() - 1].oid);
    } else {
        assert(rs.subrange(0, k) =~= t);
    }
}

/// A prefix of a sequence of revisions takes no more bytes than a longer one.
pub proof fn lemma_records_size_prefix(rs: Seq<RecordView>, i: int, n: int)
    requires
        0 <= i <= n <= rs.len(),
    ensures
        0 <= records_size(rs.subrange(0, i)) <= records_size(rs.subrange(0, n)),
    decreases n,
{
    if n > 0 {
        assert(rs.subrange(0, n).drop_last() =~= rs.subrange(0, n - 1));
        if i < n {
            lemma_records_size_prefix(rs, i, n - 1);
        } else {
            lemma_records_size_prefix(rs, i - 1, n - 1);
        }
    } else {
        assert(rs.subrange(0, 0).len() == 0);
    }
}

/// Where a transaction is in two-phase commit.
#[derive(Debug, PartialEq, Eq, Structural, Clone, Copy)]
pub enum TransactionState {
    /// Revisions may be saved.
    Saving,
    /// Locks are held; conflicts are being checked.
    Voting,
    /// The commit record has been handed to the log.
    Voted,
}

/// A transaction: its identifier, its state and what it has saved.
#[derive(Debug)]
pub struct Transaction {
    id: Tid,
    state: TransactionState,
    user: Vec<u8>,
    desc: Vec<u8>,
    ext: Vec<u8>,
    records: Vec<SavedRecord>,
    length: u64,
}


impl Transaction {
    /// The saved revisions, in the order they were saved.
    pub closed spec fn records(&self) -> Seq<RecordView> {
        self.records@.map_values(|r: SavedRecord| r@)
    }

    /// The transaction's identifier.
    pub closed spec fn tid(&self) -> Tid {
        self.id
    }

    /// The transaction's state.
    pub closed spec fn status(&self) -> TransactionState {
        self.state
    }

    /// User bytes of the commit.
    pub closed spec fn user(&self) -> Seq<u8> {
        self.user@
    }

    /// Description bytes of the commit.
    pub closed spec fn desc(&self) -> Seq<u8> {
        self.desc@
    }

    /// Extension bytes of the commit.
    pub closed spec fn ext(&self) -> Seq<u8> {
        self.ext@
    }

    /// Length of the commit record so far: header and saved revisions,
    /// without the trailing length.
    pub open spec fn size(&self) -> int {
        commit_header_length(self.user(), self.desc(), self.ext()) + records_size(self.records())
    }

    /// The length kept matches what was saved, and each length fits its field.
    pub closed spec fn wf(&self) -> bool {
        &&& self.length == self.size()
        &&& self.size() + 8 <= u64::MAX
        &&& self.user@.len() <= u16::MAX
        &&& self.desc@.len() <= u16::MAX
        &&& self.ext@.len() <= u32::MAX
        &&& self.records@.len() <= u32::MAX
        &&& forall|i: int| 0 <= i < self.records@.len() ==> self.records@[i].data@.len() <= u32::MAX
    }

    /// The transaction's identifier.
    pub fn id(&self) -> (r: Tid)
        ensures
            r == self.tid(),
    {
        self.id
    }

    /// The transaction's state.
    pub fn state(&self) -> (r: TransactionState)
        ensures
            r == self.status(),
    {
        self.state
    }

    /// Starts a transaction `id` with the given user, description and
    /// extension bytes and nothing saved.
    pub fn begin(id: Tid, user: &[u8], desc: &[u8], ext: &[u8]) -> (r: Result<
        Transaction,
        POSError,
    >)
        ensures
            r is Ok <==> user@.len() <= u16::MAX && desc@.len() <= u16::MAX && ext@.len()
                <= u32::MAX,
            r is Err ==> r == Err::<Transaction, POSError>(POSError::Format),
            r matches Ok(t) ==> {
                &&& t.wf()
                &&& t.tid() == id
                &&& t.status() == TransactionState::Saving
                &&& t.user() == user@
                &&& t.desc() == desc@
                &&& t.ext() == ext@
                &&& t.records() == Seq::<RecordView>::empty()
            },
    {
        if user.len() > 0xffff || desc.len() > 0xffff || ext.len() as u64 > 0xffff_ffffu64 {
            return Err(POSError::Format);
        }
        let mut u: Vec<u8> = Vec::new();
        push_bytes(&mut u, user);
        let mut d: Vec<u8> = Vec::new();
        push_bytes(&mut d, desc);
        let mut e: Vec<u8> = Vec::new();
        push_bytes(&mut e, ext);
        let length: u64 = 32 + user.len() as u64 + desc.len() as u64 + ext.len() as u64;
        let t = Transaction {
            id,
            state: TransactionState::Saving,
            user: u,
            desc: d,
            ext: e,
            records: Vec::new(),
            length,
        };
        assert(t.records() =~= Seq::<RecordView>::empty());
        Ok(t)
    }

    /// Saves a revision of `oid`, read at `serial`, with `data`. Only while
    /// saving; a later save of the same object shadows an earlier one.
    pub fn save(&mut self, oid: Oid, serial: Tid, data: &[u8]) -> (r: Result<(), POSError>)
        requires
            old(self).wf(),
        ensures
            final(self).wf(),
            final(self).tid() == old(self).tid(),
            final(self).status() == old(self).status(),
            final(self).user() == old(self).user(),
            final(self).desc() == old(self).desc(),
            final(self).ext() == old(self).ext(),
            old(self).status() != TransactionState::Saving ==> r == Err::<(), POSError>(
                POSError::State,
            ),
            old(self).status() == TransactionState::Saving ==> (r is Ok <==> (data@.len() <= u32::MAX
                && old(self).records().len() < u32::MAX && old(self).size() + 36 + data@.len() + 8
                <= u64::MAX)),
            r is Err ==> final(self).records() == old(self).records(),
            r is Ok ==> final(self).records() == old(self).records().push(
                RecordView { oid: oid@, serial: serial@, data: data@, previous: 0 },
            ),
            r matches Err(e) ==> e == POSError::State || e == POSError::Format,
    {
        if self.state != TransactionState::Saving {
            return Err(POSError::State);
        }
        if data.len() as u64 > 0xffff_ffffu64 || self.records.len() >= 0xffff_ffffusize
            || self.length > u64::MAX - 44 || data.len() as u64 > u64::MAX - 44 - self.length {
            return Err(POSError::Format);
        }
        let mut v: Vec<u8> = Vec::new();
        push_bytes(&mut v, data);
        let ghost old_records = self.records();
        self.records.push(SavedRecord { oid, serial, data: v, previous: 0 });
        self.length = self.length + 36 + data.len() as u64;
        proof {
            assert(self.records().drop_last() =~= old_records);
        }
        assert(self.records() =~= old_records.push(
            RecordView { oid: oid@, serial: serial@, data: data@, previous: 0 },
        ));
        Ok(())
    }

    /// The objects saved, without repeats, in decreasing order: the order in
    /// which the lock manager acquires them (it pops from the end). Only
    /// while saving.
    pub fn lock_data(&self) -> (r: Result<(Tid, Vec<Oid>), POSError>)
        requires
            self.wf(),
        ensures
            self.status() != TransactionState::Saving ==> r == Err::<(Tid, Vec<Oid>), POSError>(
                POSError::State,
            ),
            self.status() == TransactionState::Saving ==> r is Ok,
            r matches Ok((id, oids)) ==> {
                &&& id == self.tid()
                &&& strictly_decreasing(oids@.map_values(|o: Oid| be64(o@)))
                &&& oids@.map_values(|o: Oid| be64(o@)).to_set() == oid_set(self.records())
            },
    {
        if self.state != TransactionState::Saving {
            return Err(POSError::State);
        }
        let mut seen = Index::new();
        let mut i: usize = 0;
        while i < self.records.len()
            invariant
                seen.wf(),
                i <= self.records@.len(),
                forall|o: u64|
                    seen@.contains_key(o) <==> exists|k: int|
                        0 <= k < i && be64(#[trigger] self.records@[k].oid@) == o,
            decreases self.records@.len() - i,
        {
            let o = u64_of(&self.records[i].oid);
            seen.insert(o, 0);
            i = i + 1;
            assert forall|q: u64|
                seen@.contains_key(q) <==> exists|k: int|
                    0 <= k < i && be64(#[trigger] self.records@[k].oid@) == q by {
                if q == o {
                    assert(be64(self.records@[i - 1].oid@) == q);
                }
                if exists|k: int| 0 <= k < i && be64(#[trigger] self.records@[k].oid@) == q {
                    let k = choose|k: int| 0 <= k < i && be64(#[trigger] self.records@[k].oid@) == q;
                    if k < i - 1 {
                    }
                }
            }
        }
        let n = seen.len();
        let mut oids: Vec<Oid> = Vec::new();
        let mut j: usize = n;
        proof {
            seen.lemma_entries();
        }
        while j > 0
            invariant
                seen.wf(),
                j <= n,
                n == seen.entries().len(),
                oids@.len() == n - j,
                forall|k: int|
                    0 <= k < n - j ==> be64(#[trigger] oids@[k]@) == seen.entries()[n - 1 - k].0,
            decreases j,
        {
            j = j - 1;
            let (o, _) = seen.entry(j);
            oids.push(p64(o));
        }
        let ghost m = oids@.map_values(|o: Oid| be64(o@));
        assert forall|a: int, b: int| 0 <= a < b < m.len() implies m[a] > m[b] by {
            assert(m[a] == seen.entries()[n - 1 - a].0);
            assert(m[b] == seen.entries()[n - 1 - b].0);
        }
        assert forall|o: u64| m.to_set().contains(o) <==> oid_set(self.records()).contains(o) by {
            if m.to_set().contains(o) {
                let a = choose|a: int| 0 <= a < m.len() && m[a] == o;
                assert(seen@.contains_key(seen.entries()[n - 1 - a].0));
                let k = choose|k: int|
                    0 <= k < self.records@.len() && be64(#[trigger] self.records@[k].oid@) == o;
                assert(be64(self.records()[k].oid) == o);
            }
            if oid_set(self.records()).contains(o) {
                let k = choose|k: int|
                    0 <= k < self.records().len() && be64(self.records()[k].oid) == o;
                assert(be64(self.records@[k].oid@) == o);
                assert(seen@.contains_key(o));
                let e = choose|e: int| 0 <= e < seen.entries().len() && seen.entries()[e].0 == o;
                assert(m[n - 1 - e] == o);
            }
        }
        assert(m.to_set() =~= oid_set(self.records()));
        Ok((self.id, oids))
    }

    /// Locks are held: from saving to voting.
    pub fn locked(&mut self) -> (r: Result<(), POSError>)
        requires
            old(self).wf(),
        ensures
            final(self).wf(),
            old(self).status() == TransactionState::Saving ==> r is Ok && final(self).status()
                == TransactionState::Voting,
            old(self).status() != TransactionState::Saving ==> r == Err::<(), POSError>(
                POSError::State,
            ) && final(self).status() == old(self).status(),
            final(self).tid() == old(self).tid(),
            final(self).records() == old(self).records(),
            final(self).user() == old(self).user(),
            final(self).desc() == old(self).desc(),
            final(self).ext() == old(self).ext(),
    {
        if self.state != TransactionState::Saving {
            return Err(POSError::State);
        }
        self.state = TransactionState::Voting;
        Ok(())
    }

    /// Locks were given up after a conflict: from voting back to saving, so
    /// that more revisions can be saved and the transaction voted again.
    pub fn unlocked(&mut self) -> (r: Result<(), POSError>)
        requires
            old(self).wf(),
        ensures
            final(self).wf(),
            old(self).status() == TransactionState::Voting ==> r is Ok && final(self).status()
                == TransactionState::Saving,
            old(self).status() != TransactionState::Voting ==> r == Err::<(), POSError>(
                POSError::State,
            ) && final(self).status() == old(self).status(),
            final(self).tid() == old(self).tid(),
            final(self).records() == old(self).records(),
            final(self).user() == old(self).user(),
            final(self).desc() == old(self).desc(),
            final(self).ext() == old(self).ext(),
    {
        if self.state != TransactionState::Voting {
            return Err(POSError::State);
        }
        self.state = TransactionState::Saving;
        Ok(())
    }

    /// Revision `i` is the last saved of its object.
    fn is_latest_at(&self, i: usize) -> (r: bool)
        requires
            i < self.records@.len(),
        ensures
            r == is_latest(self.records(), i as int),
    {
        let n = self.records.len();
        let mut j: usize = i + 1;
        while j < n
            invariant
                i < j <= self.records@.len(),
                n == self.records@.len(),
                forall|k: int| i < k < j ==> self.records@[k].oid@ != self.records@[i as int].oid@,
            decreases self.records@.len() - j,
        {
            if same_id(&self.records[j].oid, &self.records[i].oid) {
                assert(self.records@[j as int].oid@ == self.records@[i as int].oid@);
                assert(self.records()[j as int].oid == self.records()[i as int].oid);
                return false;
            }
            assert(self.records@[j as int].oid@ != self.records@[i as int].oid@) by {
                if self.records@[j as int].oid@ == self.records@[i as int].oid@ {
                    assert(self.records@[j as int].oid == self.records@[i as int].oid);
                }
            }
            j = j + 1;
        }
        assert forall|k: int| i < k < self.records().len() implies self.records()[k].oid
            != self.records()[i as int].oid by {
            assert(self.records@[k].oid@ != self.records@[i as int].oid@);
        }
        true
    }

    /// The object and serial of the last revision of each object, in the
    /// order saved. Only while voting.
    pub fn serials(&self) -> (r: Result<Vec<(Oid, Tid)>, POSError>)
        requires
            self.wf(),
        ensures
            self.status() != TransactionState::Voting ==> r == Err::<Vec<(Oid, Tid)>, POSError>(
                POSError::State,
            ),
            self.status() == TransactionState::Voting ==> r is Ok,
            r matches Ok(v) ==> v@.len() == latest(self.records()).len() && forall|k: int|
                0 <= k < v@.len() ==> (#[trigger] v@[k]).0@ == latest(self.records())[k].oid
                    && v@[k].1@ == latest(self.records())[k].serial,
    {
        if self.state != TransactionState::Voting {
            return Err(POSError::State);
        }
        let mut v: Vec<(Oid, Tid)> = Vec::new();
        let mut i: usize = 0;
        while i < self.records.len()
            invariant
                i <= self.records@.len(),
                v@.len() == latest_upto(self.records(), i as int).len(),
                forall|k: int|
                    0 <= k < v@.len() ==> (#[trigger] v@[k]).0@ == latest_upto(
                        self.records(),
                        i as int,
                    )[k].oid && v@[k].1@ == latest_upto(self.records(), i as int)[k].serial,
            decreases self.records@.len() - i,
        {
            if self.is_latest_at(i) {
                v.push((self.records[i].oid, self.records[i].serial));
            }
            i = i + 1;
        }
        Ok(v)
    }

    /// Data of the last revision saved of `oid`. Only while voting.
    pub fn get_data(&self, oid: &Oid) -> (r: Result<Vec<u8>, POSError>)
        requires
            self.wf(),
        ensures
            self.status() != TransactionState::Voting ==> r == Err::<Vec<u8>, POSError>(
                POSError::State,
            ),
            self.status() == TransactionState::Voting ==> (r is Ok <==> exists|i: int|
                0 <= i < self.records().len() && self.records()[i].oid == oid@),
            self.status() == TransactionState::Voting && r is Err ==> r == Err::<
                Vec<u8>,
                POSError,
            >(POSError::Key(*oid)),
            r matches Ok(d) ==> exists|i: int|
                0 <= i < self.records().len() && self.records()[i].oid == oid@ && is_latest(
                    self.records(),
                    i,
                ) && d@ == self.records()[i].data,
    {
        if self.state != TransactionState::Voting {
            return Err(POSError::State);
        }
        match self.latest_index(oid) {
            Some(i) => {
                let mut d: Vec<u8> = Vec::new();
                push_bytes(&mut d, self.records[i].data.as_slice());
                Ok(d)
            },
            None => Err(POSError::Key(*oid)),
        }
    }

    /// Position of the last revision saved of `oid`.
    fn latest_index(&self, oid: &Oid) -> (r: Option<usize>)
        ensures
            r is None <==> !exists|i: int|
                0 <= i < self.records().len() && self.records()[i].oid == oid@,
            r matches Some(i) ==> i < self.records().len() && self.records()[i as int].oid == oid@
                && is_latest(self.records(), i as int),
    {
        let mut j: usize = self.records.len();
        while j > 0
            invariant
                j <= self.records@.len(),
                forall|k: int| j <= k < self.records().len() ==> self.records()[k].oid != oid@,
            decreases j,
        {
            j = j - 1;
            if same_id(&self.records[j].oid, oid) {
                assert(self.records()[j as int].oid == oid@);
                return Some(j);
            }
            assert(self.records()[j as int].oid != oid@);
        }
        None
    }

    /// Sets the back pointer of the last revision saved of `oid` to
    /// `previous`. Only while voting.
    pub fn set_previous(&mut self, oid: &Oid, previous: u64) -> (r: Result<(), POSError>)
        requires
            old(self).wf(),
        ensures
            final(self).wf(),
            final(self).tid() == old(self).tid(),
            final(self).status() == old(self).status(),
            final(self).user() == old(self).user(),
            final(self).desc() == old(self).desc(),
            final(self).ext() == old(self).ext(),
            old(self).status() != TransactionState::Voting ==> r == Err::<(), POSError>(
                POSError::State,
            ),
            old(self).status() == TransactionState::Voting ==> (r is Ok <==> exists|i: int|
                0 <= i < old(self).records().len() && old(self).records()[i].oid == oid@),
            old(self).status() == TransactionState::Voting && r is Err ==> r == Err::<
                (),
                POSError,
            >(POSError::Key(*oid)),
            r is Err ==> final(self).records() == old(self).records(),
            r is Ok ==> exists|i: int|
                0 <= i < old(self).records().len() && old(self).records()[i].oid == oid@
                    && is_latest(old(self).records(), i) && final(self).records() == old(
                    self,
                ).records().update(i, RecordView { previous, ..old(self).records()[i] }),
    {
        if self.state != TransactionState::Voting {
            return Err(POSError::State);
        }
        match self.latest_index(oid) {
            Some(i) => {
                let ghost before = self.records();
                let mut rec = self.records.remove(i);
                rec.previous = previous;
                self.records.insert(i, rec);
                assert(self.records() =~= before.update(
                    i as int,
                    RecordView { previous, ..before[i as int] },
                ));
                assert forall|k: int| 0 <= k < self.records@.len() implies self.records@[k].data@.len()
                    <= u32::MAX by {
                    assert(self.records()[k].data == before[k].data);
                }
                proof {
                    lemma_records_size_update(before, i as int, previous);
                }
                Ok(())
            },
            None => Err(POSError::Key(*oid)),
        }
    }

    /// Drops every revision that a later save of the same object shadows,
    /// keeping the order of the rest. Only while voting.
    pub fn pack(&mut self) -> (r: Result<(), POSError>)
        requires
            old(self).wf(),
        ensures
            final(self).wf(),
            final(self).tid() == old(self).tid(),
            final(self).status() == old(self).status(),
            final(self).user() == old(self).user(),
            final(self).desc() == old(self).desc(),
            final(self).ext() == old(self).ext(),
            old(self).status() != TransactionState::Voting ==> r == Err::<(), POSError>(
                POSError::State,
            ) && final(self).records() == old(self).records(),
            old(self).status() == TransactionState::Voting ==> r is Ok && final(self).records()
                == latest(old(self).records()),
    {
        if self.state != TransactionState::Voting {
            return Err(POSError::State);
        }
        let ghost rs = self.records();
        let mut kept: Vec<SavedRecord> = Vec::new();
        let mut length: u64 = 32 + self.user.len() as u64 + self.desc.len() as u64
            + self.ext.len() as u64;
        let mut i: usize = 0;
        while i < self.records.len()
            invariant
                self.wf(),
                rs == self.records(),
                i <= self.records@.len(),
                kept@.map_values(|r: SavedRecord| r@) == latest_upto(rs, i as int),
                length == commit_header_length(self.user(), self.desc(), self.ext())
                    + records_size(latest_upto(rs, i as int)),
            decreases self.records@.len() - i,
        {
            proof {
                lemma_latest_upto(rs, i as int);
                lemma_records_size_prefix(rs, i as int, rs.len() as int);
            }
            if self.is_latest_at(i) {
                let mut d: Vec<u8> = Vec::new();
                push_bytes(&mut d, self.records[i].data.as_slice());
                let ghost before = kept@.map_values(|r: SavedRecord| r@);
                kept.push(
                    SavedRecord {
                        oid: self.records[i].oid,
                        serial: self.records[i].serial,
                        data: d,
                        previous: self.records[i].previous,
                    },
                );
                proof {
                    lemma_latest_upto(rs, i + 1);
                    lemma_records_size_prefix(rs, i + 1, rs.len() as int);
                    assert(rs.subrange(0, rs.len() as int) =~= rs);
                    assert(latest_upto(rs, i + 1) == latest_upto(rs, i as int).push(rs[i as int]));
                    assert(latest_upto(rs, i as int).push(rs[i as int]).drop_last()
                        =~= latest_upto(rs, i as int));
                }
                length = length + 36 + self.records[i].data.len() as u64;
                assert(kept@.map_values(|r: SavedRecord| r@) =~= before.push(rs[i as int]));
                assert(before.push(rs[i as int]).drop_last() =~= before);
            }
            i = i + 1;
        }
        proof {
            lemma_latest_upto(rs, rs.len() as int);
            assert(rs.subrange(0, rs.len() as int) =~= rs);
        }
        self.records = kept;
        self.length = length;
        assert forall|k: int| 0 <= k < self.records@.len() implies self.records@[k].data@.len()
            <= u32::MAX by {
            let j = choose|j: int|
                0 <= j < rs.len() && #[trigger] latest(rs)[k] == rs[j] && is_latest(rs, j);
            assert(self.records()[k] == latest(rs)[k]);
        }
        Ok(())
    }

    /// Object and serial of every saved revision are eight bytes.
    pub proof fn lemma_record_lengths(&self)
        ensures
            forall|i: int|
                0 <= i < self.records().len() ==> (#[trigger] self.records()[i]).oid.len() == 8
                    && self.records()[i].serial.len() == 8,
    {
        assert forall|i: int| 0 <= i < self.records().len() implies (#[trigger] self.records()[i]).oid.len()
            == 8 && self.records()[i].serial.len() == 8 by {
            assert(self.records()[i] == self.records@[i]@);
        }
    }

    /// Points each revision's back pointer at its object's entry in
    /// `index`, where there is one.
    pub fn link_previous(&mut self, index: &Index)
        requires
            old(self).wf(),
            index.wf(),
        ensures
            final(self).wf(),
            final(self).tid() == old(self).tid(),
            final(self).status() == old(self).status(),
            final(self).user() == old(self).user(),
            final(self).desc() == old(self).desc(),
            final(self).ext() == old(self).ext(),
            final(self).records() == link_all(old(self).records(), index@),
    {
        let ghost rs = self.records();
        let mut i: usize = 0;
        while i < self.records.len()
            invariant
                i <= self.records@.len(),
                index.wf(),
                self.records().len() == rs.len(),
                forall|k: int| 0 <= k < i ==> #[trigger] self.records()[k] == link(rs[k], index@),
                forall|k: int| i <= k < rs.len() ==> #[trigger] self.records()[k] == rs[k],
                self.id == old(self).id,
                self.state == old(self).state,
                self.user == old(self).user,
                self.desc == old(self).desc,
                self.ext == old(self).ext,
                self.length == old(self).length,
            decreases self.records@.len() - i,
        {
            match index.get(u64_of(&self.records[i].oid)) {
                Some(p) => {
                    let ghost before = self.records();
                    let mut rec = self.records.remove(i);
                    rec.previous = p;
                    self.records.insert(i, rec);
                    assert(self.records() =~= before.update(
                        i as int,
                        RecordView { previous: p, ..before[i as int] },
                    ));
                },
                None => {},
            }
            i = i + 1;
        }
        assert(self.records() =~= link_all(rs, index@));
        proof {
            lemma_records_size_link(rs, index@);
        }
        assert forall|k: int| 0 <= k < self.records@.len() implies self.records@[k].data@.len()
            <= u32::MAX by {
            assert(self.records()[k].data == rs[k].data);
        }
    }

    /// Turns the saved revisions into a commit record stamped with `tid`,
    /// marked `PPPP`, and appends it to `out`. Returns each object mapped to
    /// the offset of its last data record within the commit record, and the
    /// record's length. Only while voting; the transaction is then voted.
    #[verifier::rlimit(40)]
    pub fn stage(&mut self, tid: Tid, out: &mut Vec<u8>) -> (r: Result<(Index, u64), POSError>)
        requires
            old(self).wf(),
        ensures
            final(self).wf(),
            final(self).tid() == old(self).tid(),
            final(self).records() == old(self).records(),
            final(self).user() == old(self).user(),
            final(self).desc() == old(self).desc(),
            final(self).ext() == old(self).ext(),
            old(self).status() != TransactionState::Voting ==> r == Err::<(Index, u64), POSError>(
                POSError::State,
            ),
            old(self).status() == TransactionState::Voting ==> (r is Ok <==> old(out)@.len()
                + old(self).size() + 8 <= u64::MAX),
            old(self).status() == TransactionState::Voting && r is Err ==> r == Err::<
                (Index, u64),
                POSError,
            >(POSError::Format),
            r is Err ==> final(out)@ == old(out)@ && final(self).status() == old(self).status(),
            r matches Ok((idx, len)) ==> {
                &&& final(self).status() == TransactionState::Voted
                &&& final(out)@ == old(out)@ + commit_record_bytes(
                    tid@,
                    old(self).user(),
                    old(self).desc(),
                    old(self).ext(),
                    old(self).records(),
                    old(out)@.len() as int,
                )
                &&& len == old(self).size() + 8
                &&& idx.wf()
                &&& idx@ == records_offsets(
                    old(self).records(),
                    commit_header_length(old(self).user(), old(self).desc(), old(self).ext()),
                )
            },
    {
        if self.state != TransactionState::Voting {
            return Err(POSError::State);
        }
        let base = out.len();
        if base as u64 > u64::MAX - 8 - self.length {
            return Err(POSError::Format);
        }
        let ghost rs = self.records();
        let ghost pre = out@;
        let total: u64 = self.length + 8;
        let hl: u64 = 32 + self.user.len() as u64 + self.desc.len() as u64 + self.ext.len() as u64;
        push_bytes(out, &PADDING_MARKER);
        let h = TransactionHeader {
            length: total,
            id: tid,
            ndata: self.records.len() as u32,
            luser: self.user.len() as u16,
            ldesc: self.desc.len() as u16,
            lext: self.ext.len() as u32,
        };
        h.write(out);
        push_bytes(out, self.user.as_slice());
        push_bytes(out, self.desc.as_slice());
        push_bytes(out, self.ext.as_slice());
        let ghost head = out@;
        let mut idx = Index::new();
        let mut off: u64 = hl;
        let mut i: usize = 0;
        proof {
            assert(rs.subrange(0, 0) =~= Seq::<RecordView>::empty());
            assert(records_bytes(rs.subrange(0, 0), tid@, base + hl) =~= Seq::<u8>::empty());
            assert(head + records_bytes(rs.subrange(0, 0), tid@, base + hl) =~= head);
        }
        while i < self.records.len()
            invariant
                self.wf(),
                rs == self.records(),
                hl == commit_header_length(self.user(), self.desc(), self.ext()),
                base + self.length + 8 <= u64::MAX,
                i <= self.records@.len(),
                idx.wf(),
                off == hl + records_size(rs.subrange(0, i as int)),
                out@ == head + records_bytes(rs.subrange(0, i as int), tid@, base + hl),
                idx@ == records_offsets(rs.subrange(0, i as int), hl as int),
            decreases self.records@.len() - i,
        {
            proof {
                lemma_records_size_prefix(rs, i as int + 1, rs.len() as int);
                assert(rs.subrange(0, rs.len() as int) =~= rs);
                assert(rs.subrange(0, i + 1).drop_last() =~= rs.subrange(0, i as int));
            }
            let rec = &self.records[i];
            let dh = DataHeader {
                length: rec.data.len() as u32,
                id: rec.oid,
                tid,
                previous: rec.previous,
                offset: base as u64 + off,
            };
            let ghost o = out@;
            dh.write(out);
            push_bytes(out, rec.data.as_slice());
            idx.insert(u64_of(&rec.oid), off);
            proof {
                assert(rs[i as int] == rec@);
                assert(out@ =~= o + record_bytes(rs[i as int], tid@, base + hl + records_size(
                    rs.subrange(0, i as int),
                )));
            }
            off = off + 36 + rec.data.len() as u64;
            i = i + 1;
        }
        push_u64(out, total);
        proof {
            assert(rs.subrange(0, rs.len() as int) =~= rs);
            assert(out@ =~= pre + commit_record_bytes(
                tid@,
                self.user(),
                self.desc(),
                self.ext(),
                rs,
                base as int,
            ));
        }
        self.state = TransactionState::Voted;
        Ok((idx, total))
    }
}

/// `r` with its back pointer set to the offset that `m` holds for its
/// object, if any.
pub open spec fn link(r: RecordView, m: Map<u64, u64>) -> RecordView {
    if m.contains_key(be64(r.oid)) {
        RecordView { previous: m[be64(r.oid)], ..r }
    } else {
        r
    }
}

/// Each revision of `rs` linked to its object's entry in `m`.
pub open spec fn link_all(rs: Seq<RecordView>, m: Map<u64, u64>) -> Seq<RecordView> {
    rs.map_values(|r: RecordView| link(r, m))
}

/// Linking leaves the sizes as they were.
pub proof fn lemma_records_size_link(rs: Seq<RecordView>, m: Map<u64, u64>)
    ensures
        records_size(link_all(rs, m)) == records_size(rs),
    decreases rs.len(),
{
    if rs.len() > 0 {
        assert(link_all(rs, m).drop_last() =~= link_all(rs.drop_last(), m));
        lemma_records_size_link(rs.drop_last(), m);
    }
}

/// The data records of `rs` take `records_size(rs)` bytes.
pub proof fn lemma_records_bytes_len(rs: Seq<RecordView>, tid: Seq<u8>, start: int)
    requires
        tid.len() == 8,
        forall|i: int| 0 <= i < rs.len() ==> (#[trigger] rs[i]).oid.len() == 8,
    ensures
        records_bytes(rs, tid, start).len() == records_size(rs),
    decreases rs.len(),
{
    if rs.len() > 0 {
        lemma_records_bytes_len(rs.drop_last(), tid, start);
        assert(rs.last() == rs[rs.len() - 1]);
    }
}

/// Every offset in `records_offsets(rs, start)` lies within the records.
pub proof fn lemma_records_offsets_bound(rs: Seq<RecordView>, start: int)
    requires
        0 <= start,
        start + records_size(rs) <= u64::MAX,
    ensures
        forall|k: u64|
            #[trigger] records_offsets(rs, start).contains_key(k) ==> start <= records_offsets(
                rs,
                start,
            )[k] < start + records_size(rs),
    decreases rs.len(),
{
    if rs.len() > 0 {
        lemma_records_size_prefix(rs, rs.len() - 1, rs.len() as int);
        assert(rs.subrange(0, rs.len() as int) =~= rs);
        assert(rs.subrange(0, rs.len() - 1) =~= rs.drop_last());
        lemma_records_offsets_bound(rs.drop_last(), start);
        assert(records_size(rs.drop_last()) >= 0) by {
            lemma_records_size_prefix(rs, 0, rs.len() - 1);
        }
        let m0 = records_offsets(rs.drop_last(), start);
        let v = (start + records_size(rs.drop_last())) as u64;
        assert(records_offsets(rs, start) == m0.insert(be64(rs.last().oid), v));
        assert forall|k: u64| #[trigger] records_offsets(rs, start).contains_key(k) implies start
            <= records_offsets(rs, start)[k] < start + records_size(rs) by {
            if k != be64(rs.last().oid) {
                assert(m0.contains_key(k));
            }
        }
    }
}

/// Changing a back pointer leaves the sizes as they were.
proof fn lemma_records_size_update(rs: Seq<RecordView>, i: int, previous: u64)
    requires
        0 <= i < rs.len(),
    ensures
        records_size(rs.update(i, RecordView { previous, ..rs[i] })) == records_size(rs),
    decreases rs.len(),
{
    let t = rs.update(i, RecordView { previous, ..rs[i] });
    if i < rs.len() - 1 {
        assert(t.drop_last() =~= rs.drop_last().update(i, RecordView { previous, ..rs[i] }));
        lemma_records_size_update(rs.drop_last(), i, previous);
    } else {
        assert(t.drop_last() =~= rs.drop_last());
    }
}

} // verus!
