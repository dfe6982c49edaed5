//! The position index: an ordered map from object identifier to the byte
//! offset of the object's most recent data record, and its sidecar encoding.

use vstd::prelude::*;

use crate::errors::POSError;
use crate::util::{be64, check_magic, lemma_be64_p64s, p64s, push_bytes, push_u64, id_at, read_u64_at, Tid};

verus! {

/// Keys strictly increasing along `s`.
pub open spec fn sorted_keys(s: Seq<(u64, u64)>) -> bool {
    forall|i: int, j: int| 0 <= i < j < s.len() ==> s[i].0 < s[j].0
}

/// Some entry of `s` has key `k`.
pub open spec fn has_key(s: Seq<(u64, u64)>, k: u64) -> bool {
    exists|i: int| 0 <= i < s.len() && s[i].0 == k
}

/// The map that a sequence of entries with distinct keys stands for.
pub open spec fn entries_map(s: Seq<(u64, u64)>) -> Map<u64, u64> {
    Map::new(|k: u64| has_key(s, k), |k: u64| s[choose|i: int| 0 <= i < s.len() && s[i].0 == k].1)
}

/// An entry of a sorted sequence is what the map holds for its key.
pub proof fn lemma_entries_map_at(s: Seq<(u64, u64)>, i: int)
    requires
        sorted_keys(s),
        0 <= i < s.len(),
    ensures
        entries_map(s).contains_key(s[i].0),
        entries_map(s)[s[i].0] == s[i].1,
{
    let k = s[i].0;
    assert(has_key(s, k));
    let j = choose|j: int| 0 <= j < s.len() && s[j].0 == k;
    if j < i {
        assert(s[j].0 < s[i].0);
    } else if i < j {
        assert(s[i].0 < s[j].0);
    }
}

/// Replacing the value of the entry with key `k` sets `k` in the map.
proof fn lemma_replace_entry(s: Seq<(u64, u64)>, i: int, k: u64, v: u64)
    requires
        sorted_keys(s),
        0 <= i < s.len(),
        s[i].0 == k,
    ensures
        sorted_keys(s.update(i, (k, v))),
        entries_map(s.update(i, (k, v))) == entries_map(s).insert(k, v),
{
    let t = s.update(i, (k, v));
    assert(sorted_keys(t));
    lemma_entries_map_at(s, i);
    assert forall|q: u64| #[trigger] has_key(t, q) == has_key(s, q) by {
        if has_key(s, q) {
            let j = choose|j: int| 0 <= j < s.len() && s[j].0 == q;
            assert(t[j].0 == q);
        }
        if has_key(t, q) {
            let j = choose|j: int| 0 <= j < t.len() && t[j].0 == q;
            assert(s[j].0 == q);
        }
    }
    assert forall|q: u64| #[trigger] has_key(t, q) implies entries_map(t)[q] == entries_map(
        s,
    ).insert(k, v)[q] by {
        let j = choose|j: int| 0 <= j < t.len() && t[j].0 == q;
        lemma_entries_map_at(t, j);
        if q != k {
            lemma_entries_map_at(s, j);
        }
    }
    assert(entries_map(t) =~= entries_map(s).insert(k, v));
}

/// Inserting an entry for a new key `k` at its place in key order keeps the
/// keys sorted and adds `k` to the map.
proof fn lemma_insert_entry(s: Seq<(u64, u64)>, i: int, k: u64, v: u64)
    requires
        sorted_keys(s),
        0 <= i <= s.len(),
        forall|j: int| 0 <= j < i ==> s[j].0 < k,
        i < s.len() ==> s[i].0 > k,
    ensures
        sorted_keys(s.insert(i, (k, v))),
        !has_key(s, k),
        entries_map(s.insert(i, (k, v))) == entries_map(s).insert(k, v),
{
    let t = s.insert(i, (k, v));
    assert(sorted_keys(t)) by {
        assert forall|a: int, b: int| 0 <= a < b < t.len() implies t[a].0 < t[b].0 by {
            if b < i {
            } else if b == i {
            } else if a < i {
                assert(t[b] == s[b - 1]);
            } else if a == i {
                assert(t[b] == s[b - 1]);
                if b - 1 > i {
                    assert(s[i].0 < s[b - 1].0);
                }
            } else {
                assert(t[a] == s[a - 1] && t[b] == s[b - 1]);
            }
        }
    }
    assert(!has_key(s, k)) by {
        if has_key(s, k) {
            let j = choose|j: int| 0 <= j < s.len() && s[j].0 == k;
            if j > i {
                assert(s[i].0 < s[j].0);
            }
        }
    }
    assert forall|q: u64| #[trigger] has_key(t, q) == (has_key(s, q) || q == k) by {
        if has_key(s, q) {
            let j = choose|j: int| 0 <= j < s.len() && s[j].0 == q;
            if j < i {
                assert(t[j].0 == q);
            } else {
                assert(t[j + 1].0 == q);
            }
        }
        if q == k {
            assert(t[i].0 == k);
        }
        if has_key(t, q) && q != k {
            let j = choose|j: int| 0 <= j < t.len() && t[j].0 == q;
            if j < i {
                assert(s[j].0 == q);
            } else {
                assert(s[j - 1].0 == q);
            }
        }
    }
    assert forall|q: u64| #[trigger] has_key(t, q) implies entries_map(t)[q] == entries_map(
        s,
    ).insert(k, v)[q] by {
        let j = choose|j: int| 0 <= j < t.len() && t[j].0 == q;
        lemma_entries_map_at(t, j);
        if j < i {
            lemma_entries_map_at(s, j);
        } else if j > i {
            lemma_entries_map_at(s, j - 1);
        }
    }
    assert(entries_map(t) =~= entries_map(s).insert(k, v));
}

/// Ordered map from object identifier (as a big-endian integer) to a byte offset.
pub struct Index {
    entries: Vec<(u64, u64)>,
}

impl View for Index {
    type V = Map<u64, u64>;

    open spec fn view(&self) -> Map<u64, u64> {
        entries_map(self.entries())
    }
}

impl Index {
    /// The entries in increasing key order.
    pub closed spec fn entries(&self) -> Seq<(u64, u64)> {
        self.entries@
    }

    /// Keys are kept strictly increasing.
    pub open spec fn wf(&self) -> bool {
        sorted_keys(self.entries())
    }

    /// An empty index.
    pub fn new() -> (r: Index)
        ensures
            r.wf(),
            r.entries() == Seq::<(u64, u64)>::empty(),
            r@ == Map::<u64, u64>::empty(),
    {
        let r = Index { entries: Vec::new() };
        assert(r@ =~= Map::<u64, u64>::empty());
        r
    }

    /// Number of entries.
    pub fn len(&self) -> (r: usize)
        requires
            self.wf(),
        ensures
            r == self.entries().len(),
            r == self@.dom().len(),
    {
        proof {
            self.lemma_dom_len();
        }
        self.entries.len()
    }

    /// Key and value of the `i`-th entry in key order.
    pub fn entry(&self, i: usize) -> (r: (u64, u64))
        requires
            i < self.entries().len(),
        ensures
            r == self.entries()[i as int],
    {
        self.entries[i]
    }

    /// Every entry is in the map, and every key of the map has an entry.
    pub proof fn lemma_entries(&self)
        requires
            self.wf(),
        ensures
            forall|i: int|
                0 <= i < self.entries().len() ==> #[trigger] self@.contains_key(
                    self.entries()[i].0,
                ) && self@[self.entries()[i].0] == self.entries()[i].1,
            forall|k: u64|
                #[trigger] self@.contains_key(k) ==> exists|i: int|
                    0 <= i < self.entries().len() && self.entries()[i].0 == k,
    {
        assert forall|i: int| 0 <= i < self.entries().len() implies #[trigger] self@.contains_key(
            self.entries()[i].0,
        ) && self@[self.entries()[i].0] == self.entries()[i].1 by {
            lemma_entries_map_at(self.entries(), i);
        }
    }

    proof fn lemma_dom_len(&self)
        requires
            self.wf(),
        ensures
            self@.dom().len() == self.entries().len(),
        decreases self.entries().len(),
    {
        let s = self.entries();
        let keys = s.map_values(|e: (u64, u64)| e.0);
        assert(keys.no_duplicates()) by {
            assert forall|i: int, j: int| 0 <= i < keys.len() && 0 <= j < keys.len() && i != j
                implies keys[i] != keys[j] by {
                if i < j {
                    assert(s[i].0 < s[j].0);
                } else {
                    assert(s[j].0 < s[i].0);
                }
            }
        }
        assert(self@.dom() =~= keys.to_set()) by {
            assert forall|k: u64| self@.dom().contains(k) implies keys.to_set().contains(k) by {
                let i = choose|i: int| 0 <= i < s.len() && s[i].0 == k;
                assert(keys[i] == k);
            }
            assert forall|k: u64| keys.to_set().contains(k) implies self@.dom().contains(k) by {
                let i = choose|i: int| 0 <= i < keys.len() && keys[i] == k;
                assert(s[i].0 == k);
            }
        }
        keys.unique_seq_to_set();
    }

    /// The offset stored for `k`, if any.
    pub fn get(&self, k: u64) -> (r: Option<u64>)
        requires
            self.wf(),
        ensures
            r == (if self@.contains_key(k) {
                Some(self@[k])
            } else {
                None::<u64>
            }),
    {
        let mut i: usize = 0;
        while i < self.entries.len()
            invariant
                self.wf(),
                i <= self.entries@.len(),
                forall|j: int| 0 <= j < i ==> self.entries@[j].0 != k,
            decreases self.entries@.len() - i,
        {
            if self.entries[i].0 == k {
                proof {
                    lemma_entries_map_at(self.entries@, i as int);
                }
                return Some(self.entries[i].1);
            }
            i = i + 1;
        }
        None
    }

    /// Sets the offset for `k`, returning the one it replaced.
    pub fn insert(&mut self, k: u64, v: u64) -> (r: Option<u64>)
        requires
            old(self).wf(),
        ensures
            final(self).wf(),
            final(self)@ == old(self)@.insert(k, v),
            r == (if old(self)@.contains_key(k) {
                Some(old(self)@[k])
            } else {
                None::<u64>
            }),
    {
        let ghost s = self.entries@;
        let mut i: usize = 0;
        while i < self.entries.len() && self.entries[i].0 < k
            invariant
                self.entries@ == s,
                sorted_keys(s),
                i <= s.len(),
                forall|j: int| 0 <= j < i ==> s[j].0 < k,
            decreases s.len() - i,
        {
            i = i + 1;
        }
        proof {
            old(self).lemma_entries();
        }
        if i < self.entries.len() && self.entries[i].0 == k {
            let prev = self.entries[i].1;
            self.entries.set(i, (k, v));
            proof {
                lemma_replace_entry(s, i as int, k, v);
            }
            Some(prev)
        } else {
            self.entries.insert(i, (k, v));
            proof {
                lemma_insert_entry(s, i as int, k, v);
            }
            None
        }
    }

    /// The keys in increasing order.
    pub fn keys(&self) -> (r: Vec<u64>)
        ensures
            r@ == self.entries().map_values(|e: (u64, u64)| e.0),
    {
        let mut r: Vec<u64> = Vec::new();
        let mut i: usize = 0;
        while i < self.entries.len()
            invariant
                i <= self.entries@.len(),
                r@ == self.entries@.subrange(0, i as int).map_values(|e: (u64, u64)| e.0),
            decreases self.entries@.len() - i,
        {
            r.push(self.entries[i].0);
            i = i + 1;
            assert(r@ =~= self.entries@.subrange(0, i as int).map_values(|e: (u64, u64)| e.0));
        }
        assert(self.entries@.subrange(0, i as int) =~= self.entries@);
        r
    }
}

/// Magic at the start of the index sidecar: `fs2i`.
pub const INDEX_MAGIC: [u8; 4] = [0x66, 0x73, 0x32, 0x69];

/// The bytes `fs2i`.
pub open spec fn index_magic() -> Seq<u8> {
    seq![0x66u8, 0x73u8, 0x32u8, 0x69u8]
}

/// Each entry as its key and value, big-endian, one after another.
pub open spec fn entries_bytes(s: Seq<(u64, u64)>) -> Seq<u8>
    decreases s.len(),
{
    if s.len() == 0 {
        Seq::empty()
    } else {
        entries_bytes(s.drop_last()) + p64s(s.last().0) + p64s(s.last().1)
    }
}

/// The sidecar file for an index with entries `s`, captured at log length
/// `segment_size`, whose records run from TID `start` to TID `end`.
pub open spec fn sidecar_bytes(s: Seq<(u64, u64)>, segment_size: u64, start: Seq<u8>, end: Seq<u8>) -> Seq<u8> {
    index_magic() + p64s(s.len() as u64) + p64s(segment_size) + start + end + entries_bytes(s)
}

/// The `n` entries stored from `pos` of `b`.
pub open spec fn decode_entries(b: Seq<u8>, pos: int, n: nat) -> Seq<(u64, u64)>
    decreases n,
{
    if n == 0 {
        Seq::empty()
    } else {
        decode_entries(b, pos, (n - 1) as nat).push(
            (
                be64(b.subrange(pos + 16 * (n - 1), pos + 16 * (n - 1) + 8)),
                be64(b.subrange(pos + 16 * (n - 1) + 8, pos + 16 * n)),
            ),
        )
    }
}

/// `m` after inserting the entries of `s` in order.
pub open spec fn insert_all(m: Map<u64, u64>, s: Seq<(u64, u64)>) -> Map<u64, u64>
    decreases s.len(),
{
    if s.len() == 0 {
        m
    } else {
        insert_all(m, s.drop_last()).insert(s.last().0, s.last().1)
    }
}

/// What a sidecar holds: its entries in order, the segment size and the
/// start and end TIDs; `None` where the magic is wrong or it is too short.
pub open spec fn sidecar_decode(b: Seq<u8>) -> Option<(Seq<(u64, u64)>, u64, Seq<u8>, Seq<u8>)> {
    if b.len() < 36 || b.subrange(0, 4) != index_magic() {
        None
    } else {
        let n = be64(b.subrange(4, 12)) as int;
        if b.len() < 36 + 16 * n {
            None
        } else {
            Some(
                (
                    decode_entries(b, 36, n as nat),
                    be64(b.subrange(12, 20)),
                    b.subrange(20, 28),
                    b.subrange(28, 36),
                ),
            )
        }
    }
}

/// The bytes of the sidecar for `index`.
pub fn save_index(index: &Index, segment_size: u64, start: &Tid, end: &Tid) -> (r: Vec<u8>)
    requires
        index.wf(),
    ensures
        r@ == sidecar_bytes(index.entries(), segment_size, start@, end@),
{
    let mut r: Vec<u8> = Vec::new();
    push_bytes(&mut r, &INDEX_MAGIC);
    let n = index.len();
    push_u64(&mut r, n as u64);
    push_u64(&mut r, segment_size);
    push_bytes(&mut r, start);
    push_bytes(&mut r, end);
    let ghost head = r@;
    let mut i: usize = 0;
    proof {
        assert(index.entries().subrange(0, 0) =~= Seq::<(u64, u64)>::empty());
        assert(head + entries_bytes(index.entries().subrange(0, 0)) =~= head);
    }
    while i < n
        invariant
            index.wf(),
            n == index.entries().len(),
            i <= n,
            r@ == head + entries_bytes(index.entries().subrange(0, i as int)),
        decreases n - i,
    {
        let (k, v) = index.entry(i);
        push_u64(&mut r, k);
        push_u64(&mut r, v);
        proof {
            let s = index.entries().subrange(0, i + 1);
            assert(s.drop_last() =~= index.entries().subrange(0, i as int));
            assert(s.last() == (k, v));
        }
        i = i + 1;
        assert(r@ =~= head + entries_bytes(index.entries().subrange(0, i as int)));
    }
    proof {
        assert(index.entries().subrange(0, n as int) =~= index.entries());
        assert(INDEX_MAGIC@ =~= index_magic());
    }
    assert(r@ =~= sidecar_bytes(index.entries(), segment_size, start@, end@));
    r
}

/// Reads a sidecar: its index, segment size and start and end TIDs, as
/// `sidecar_decode` says. Entries are inserted in the order stored.
pub fn load_index(b: &Vec<u8>) -> (r: Result<(Index, u64, Tid, Tid), POSError>)
    ensures
        sidecar_decode(b@) is None ==> r == Err::<(Index, u64, Tid, Tid), POSError>(
            POSError::Format,
        ),
        sidecar_decode(b@) matches Some((es, seg, st, en)) ==> (r matches Ok((i, s2, t1, t2))
            && i.wf() && i@ == insert_all(Map::empty(), es) && s2 == seg && t1@ == st && t2@
            == en),
{
    let len = b.len();
    if len < 36 {
        return Err(POSError::Format);
    }
    if !check_magic(b, 0, &INDEX_MAGIC) {
        assert(INDEX_MAGIC@ =~= index_magic());
        return Err(POSError::Format);
    }
    assert(INDEX_MAGIC@ =~= index_magic());
    let n = read_u64_at(b, 4);
    if n > ((len - 36) / 16) as u64 {
        return Err(POSError::Format);
    }
    let segment_size = read_u64_at(b, 12);
    let start = id_at(b, 20);
    let end = id_at(b, 28);
    let mut index = Index::new();
    let mut i: u64 = 0;
    proof {
        assert(insert_all(Map::empty(), decode_entries(b@, 36, 0)) =~= Map::<u64, u64>::empty());
    }
    while i < n
        invariant
            len == b@.len(),
            36 + 16 * n <= len,
            i <= n,
            index.wf(),
            index@ == insert_all(Map::empty(), decode_entries(b@, 36, i as nat)),
        decreases n - i,
    {
        let p = (36 + 16 * i) as usize;
        let k = read_u64_at(b, p);
        let v = read_u64_at(b, p + 8);
        index.insert(k, v);
        proof {
            let d = decode_entries(b@, 36, (i + 1) as nat);
            assert(d.drop_last() =~= decode_entries(b@, 36, i as nat));
            assert(d.last() == (k, v));
        }
        i = i + 1;
    }
    Ok((index, segment_size, start, end))
}

/// Encoding then decoding the entries gives them back.
pub proof fn lemma_decode_entries(s: Seq<(u64, u64)>, pre: Seq<u8>, post: Seq<u8>)
    ensures
        decode_entries(pre + entries_bytes(s) + post, pre.len() as int, s.len()) == s,
        entries_bytes(s).len() == 16 * s.len(),
    decreases s.len(),
{
    if s.len() > 0 {
        let t = s.drop_last();
        let (k, v) = s.last();
        let tail = p64s(k) + p64s(v) + post;
        lemma_decode_entries(t, pre, tail);
        let b = pre + entries_bytes(s) + post;
        assert(b =~= pre + entries_bytes(t) + tail);
        let base: int = (pre.len() + 16 * t.len()) as int;
        assert(b.subrange(base, base + 8) =~= p64s(k));
        assert(b.subrange(base + 8, base + 16) =~= p64s(v));
        lemma_be64_p64s(k);
        lemma_be64_p64s(v);
        assert(decode_entries(b, pre.len() as int, s.len()) =~= t.push((k, v)));
    }
}

/// Inserting entries with increasing keys, in order, gives the map they
/// stand for.
pub proof fn lemma_insert_all_sorted(s: Seq<(u64, u64)>)
    requires
        sorted_keys(s),
    ensures
        insert_all(Map::empty(), s) == entries_map(s),
    decreases s.len(),
{
    if s.len() > 0 {
        let t = s.drop_last();
        assert(sorted_keys(t));
        lemma_insert_all_sorted(t);
        let (k, v) = s.last();
        assert forall|q: u64| #[trigger] has_key(s, q) == (has_key(t, q) || q == k) by {
            if has_key(s, q) && q != k {
                let j = choose|j: int| 0 <= j < s.len() && s[j].0 == q;
                assert(t[j].0 == q);
            }
            if has_key(t, q) {
                let j = choose|j: int| 0 <= j < t.len() && t[j].0 == q;
                assert(s[j].0 == q);
            }
            if q == k {
                assert(s[s.len() - 1].0 == q);
            }
        }
        assert forall|q: u64| #[trigger] has_key(s, q) implies entries_map(s)[q] == entries_map(
            t,
        ).insert(k, v)[q] by {
            let j = choose|j: int| 0 <= j < s.len() && s[j].0 == q;
            lemma_entries_map_at(s, j);
            if j < s.len() - 1 {
                assert(t[j] == s[j]);
                lemma_entries_map_at(t, j);
            }
        }
        assert(entries_map(s) =~= entries_map(t).insert(k, v));
    }
}

/// Writing an index to its sidecar and reading it back gives the same
/// index, segment size and TIDs.
pub proof fn lemma_sidecar_round_trip(index: &Index, segment_size: u64, start: Tid, end: Tid)
    requires
        index.wf(),
        index.entries().len() <= u64::MAX,
    ensures
        sidecar_decode(sidecar_bytes(index.entries(), segment_size, start@, end@)) matches Some(
            (es, seg, st, en),
        ) && insert_all(Map::empty(), es) == index@ && seg == segment_size && st == start@ && en
            == end@,
{
    let s = index.entries();
    let head = index_magic() + p64s(s.len() as u64) + p64s(segment_size) + start@ + end@;
    let b = sidecar_bytes(s, segment_size, start@, end@);
    lemma_decode_entries(s, head, Seq::empty());
    assert(b =~= head + entries_bytes(s) + Seq::empty());
    assert(b.subrange(0, 4) =~= index_magic());
    assert(b.subrange(4, 12) =~= p64s(s.len() as u64));
    assert(b.subrange(12, 20) =~= p64s(segment_size));
    assert(b.subrange(20, 28) =~= start@);
    assert(b.subrange(28, 36) =~= end@);
    lemma_be64_p64s(s.len() as u64);
    lemma_be64_p64s(segment_size);
    lemma_insert_all_sorted(s);
    let d = sidecar_decode(b);
    assert(be64(b.subrange(4, 12)) == s.len());
    assert(d == Some((decode_entries(b, 36, s.len()), segment_size, start@, end@)));
}

} // verus!
