//! Per-object exclusive locks, granted to transactions in first-come order.

use std::collections::{HashMap, HashSet};

use vstd::prelude::*;

use crate::util::{be64, p64, u64_of, Oid, Tid};

verus! {

broadcast use vstd::std_specs::hash::group_hash_axioms;

/// A transaction's lock request: objects still wanted (taken from the end)
/// and objects held.
#[derive(Debug)]
pub struct Locking {
    pub id: u64,
    pub want: Vec<u64>,
    pub got: Vec<u64>,
}

/// Takes objects from the end of `want` while they are free, moving them
/// to `got`: the locks held, what is still wanted and what is held after.
pub open spec fn acquire(locks: Set<u64>, want: Seq<u64>, got: Seq<u64>) -> (
    Set<u64>,
    Seq<u64>,
    Seq<u64>,
)
    decreases want.len(),
{
    if want.len() == 0 || locks.contains(want.last()) {
        (locks, want, got)
    } else {
        acquire(locks.insert(want.last()), want.drop_last(), got.push(want.last()))
    }
}

/// What `acquire` takes: the held objects grow only by objects that were
/// free, each of which is then locked, and nothing else gets locked.
pub proof fn lemma_acquire(locks: Set<u64>, want: Seq<u64>, got: Seq<u64>)
    ensures
        ({
            let (l2, w2, g2) = acquire(locks, want, got);
            &&& g2.len() >= got.len()
            &&& g2.subrange(0, got.len() as int) == got
            &&& forall|k: int|
                got.len() <= k < g2.len() ==> !locks.contains(#[trigger] g2[k]) && l2.contains(
                    g2[k],
                )
            &&& forall|o: u64|
                #[trigger] l2.contains(o) ==> locks.contains(o) || exists|k: int|
                    got.len() <= k < g2.len() && g2[k] == o
            &&& locks.subset_of(l2)
            &&& w2.len() <= want.len()
            &&& w2 == want.subrange(0, w2.len() as int)
            &&& w2.len() > 0 ==> l2.contains(w2.last())
            &&& (got.no_duplicates() && forall|k: int|
                0 <= k < got.len() ==> locks.contains(#[trigger] got[k])) ==> g2.no_duplicates()
        }),
    decreases want.len(),
{
    if want.len() == 0 || locks.contains(want.last()) {
        assert(got.subrange(0, got.len() as int) =~= got);
        assert(want.subrange(0, want.len() as int) =~= want);
    } else {
        let o = want.last();
        lemma_acquire(locks.insert(o), want.drop_last(), got.push(o));
        let (l2, w2, g2) = acquire(locks, want, got);
        assert(g2.subrange(0, got.len() + 1 as int) == got.push(o));
        assert(g2.subrange(0, got.len() as int) =~= got.push(o).subrange(0, got.len() as int));
        assert(got.push(o).subrange(0, got.len() as int) =~= got);
        assert(g2[got.len() as int] == got.push(o)[got.len() as int]);
        assert forall|o2: u64| #[trigger] l2.contains(o2) implies locks.contains(o2) || exists|k: int|
            got.len() <= k < g2.len() && g2[k] == o2 by {
            if !locks.contains(o2) && o2 == o {
                assert(g2[got.len() as int] == o);
            }
        }
        assert(w2 =~= want.subrange(0, w2.len() as int));
        if got.no_duplicates() && forall|k: int| 0 <= k < got.len() ==> locks.contains(#[trigger] got[k]) {
            let g1 = got.push(o);
            assert forall|k: int| 0 <= k < g1.len() implies locks.insert(o).contains(#[trigger] g1[k]) by {
                if k < got.len() {
                    assert(g1[k] == got[k]);
                }
            }
            assert(g1.no_duplicates()) by {
                assert forall|a: int, b: int| 0 <= a < g1.len() && 0 <= b < g1.len() && a != b implies g1[a] != g1[b] by {
                    if a < got.len() && b < got.len() {
                        assert(g1[a] == got[a] && g1[b] == got[b]);
                    } else if a < got.len() {
                        assert(locks.contains(got[a]));
                    } else {
                        assert(locks.contains(got[b]));
                    }
                }
            }
        }
    }
}

/// `b` starts with what is left of `a` after some waiters left its front:
/// waiters leave a queue only at its head and join only at its tail.
pub open spec fn fifo_after(a: Seq<u64>, b: Seq<u64>) -> bool {
    exists|k: int| 0 <= k <= a.len() && a.len() - k <= b.len() && #[trigger] a.subrange(k, a.len() as int) == b.subrange(0, a.len() - k)
}

proof fn lemma_fifo_refl(a: Seq<u64>)
    ensures
        fifo_after(a, a),
{
    assert(a.subrange(0, a.len() as int) == a.subrange(0, a.len() - 0));
}

proof fn lemma_fifo_trans(a: Seq<u64>, b: Seq<u64>, c: Seq<u64>)
    requires
        fifo_after(a, b),
        fifo_after(b, c),
    ensures
        fifo_after(a, c),
{
    let k1 = choose|k: int| 0 <= k <= a.len() && a.len() - k <= b.len() && #[trigger] a.subrange(k, a.len() as int) == b.subrange(0, a.len() - k);
    let k2 = choose|k: int| 0 <= k <= b.len() && b.len() - k <= c.len() && #[trigger] b.subrange(k, b.len() as int) == c.subrange(0, b.len() - k);
    let n = a.len() - k1;
    if k2 <= n {
        let k = k1 + k2;
        assert(a.subrange(k, a.len() as int) =~= c.subrange(0, a.len() - k)) by {
            assert forall|i: int| 0 <= i < a.len() - k implies a.subrange(k, a.len() as int)[i] == c.subrange(0, a.len() - k)[i] by {
                assert(a.subrange(k1, a.len() as int)[k2 + i] == b.subrange(0, n)[k2 + i]);
                assert(b.subrange(k2, b.len() as int)[i] == c.subrange(0, b.len() - k2)[i]);
            }
        }
    } else {
        let k = a.len() as int;
        assert(a.subrange(k, a.len() as int) =~= c.subrange(0, a.len() - k));
    }
}

proof fn lemma_fifo_pop(a: Seq<u64>, b: Seq<u64>)
    requires
        fifo_after(a, b),
        b.len() > 0,
    ensures
        fifo_after(a, b.drop_first()),
{
    let c = b.drop_first();
    assert(b.subrange(1, b.len() as int) == c.subrange(0, b.len() - 1));
    lemma_fifo_trans(a, b, c);
}

proof fn lemma_fifo_push(a: Seq<u64>, b: Seq<u64>, x: u64)
    requires
        fifo_after(a, b),
    ensures
        fifo_after(a, b.push(x)),
{
    let c = b.push(x);
    assert(b.subrange(0, b.len() as int) =~= c.subrange(0, b.len() - 0));
    lemma_fifo_trans(a, b, c);
}

/// `b` starts with what is left of `a` after at least its head left it.
pub open spec fn fifo_popped(a: Seq<u64>, b: Seq<u64>) -> bool {
    a.len() > 0 ==> exists|k: int|
        1 <= k <= a.len() && a.len() - k <= b.len() && #[trigger] a.subrange(k, a.len() as int)
            == b.subrange(0, a.len() - k)
}

proof fn lemma_fifo_after_popped(a: Seq<u64>, b: Seq<u64>, c: Seq<u64>)
    requires
        fifo_after(a, b),
        fifo_popped(b, c),
        fifo_after(b, c),
    ensures
        fifo_popped(a, c),
{
    if a.len() > 0 {
        let k1 = choose|k: int| 0 <= k <= a.len() && a.len() - k <= b.len() && #[trigger] a.subrange(k, a.len() as int) == b.subrange(0, a.len() - k);
        if k1 >= 1 {
            lemma_fifo_popped_trans(a, b, c);
        } else {
            assert(b.len() > 0);
            let k2 = choose|k: int| 1 <= k <= b.len() && b.len() - k <= c.len() && #[trigger] b.subrange(k, b.len() as int) == c.subrange(0, b.len() - k);
            if k2 <= a.len() {
                assert(a.subrange(k2, a.len() as int) =~= c.subrange(0, a.len() - k2)) by {
                    assert forall|i: int| 0 <= i < a.len() - k2 implies a.subrange(k2, a.len() as int)[i] == c.subrange(0, a.len() - k2)[i] by {
                        assert(a.subrange(0, a.len() as int)[k2 + i] == b.subrange(0, a.len() as int)[k2 + i]);
                        assert(b.subrange(k2, b.len() as int)[i] == c.subrange(0, b.len() - k2)[i]);
                    }
                }
            } else {
                let k = a.len() as int;
                assert(a.subrange(k, a.len() as int) =~= c.subrange(0, a.len() - k));
            }
        }
    }
}

proof fn lemma_fifo_popped_trans(a: Seq<u64>, b: Seq<u64>, c: Seq<u64>)
    requires
        fifo_popped(a, b),
        fifo_after(a, b),
        fifo_after(b, c),
    ensures
        fifo_popped(a, c),
        fifo_after(a, c),
{
    lemma_fifo_trans(a, b, c);
    if a.len() > 0 {
        let k1 = choose|k: int| 1 <= k <= a.len() && a.len() - k <= b.len() && #[trigger] a.subrange(k, a.len() as int) == b.subrange(0, a.len() - k);
        let k2 = choose|k: int| 0 <= k <= b.len() && b.len() - k <= c.len() && #[trigger] b.subrange(k, b.len() as int) == c.subrange(0, b.len() - k);
        let n = a.len() - k1;
        if k2 <= n {
            let k = k1 + k2;
            assert(a.subrange(k, a.len() as int) =~= c.subrange(0, a.len() - k)) by {
                assert forall|i: int| 0 <= i < a.len() - k implies a.subrange(k, a.len() as int)[i] == c.subrange(0, a.len() - k)[i] by {
                    assert(a.subrange(k1, a.len() as int)[k2 + i] == b.subrange(0, n)[k2 + i]);
                    assert(b.subrange(k2, b.len() as int)[i] == c.subrange(0, b.len() - k2)[i]);
                }
            }
        } else {
            let k = a.len() as int;
            assert(a.subrange(k, a.len() as int) =~= c.subrange(0, a.len() - k));
        }
    }
}

/// The lock table: held objects, the queue of transactions waiting on each
/// object, and each transaction's request.
pub struct LockManager {
    locks: HashSet<u64>,
    waiting: HashMap<u64, Vec<u64>>,
    locking: HashMap<u64, Locking>,
}

/// Some transaction with a request holds `o`.
pub open spec fn owned(lm: LockManager, o: u64) -> bool {
    exists|t: u64, k: int|
        lm.requests().contains(t) && 0 <= k < lm.holds(t).len() && #[trigger] lm.holds(t)[k] == o
}

/// `o` is free, or held by a transaction with a request: not left locked by
/// a request that is gone.
pub open spec fn free_or_owned(lm: LockManager, o: u64) -> bool {
    !lm.held().contains(o) || owned(lm, o)
}

impl LockManager {
    /// Objects currently locked.
    pub closed spec fn held(&self) -> Set<u64> {
        self.locks@
    }

    /// Transactions waiting on `o`, first come first.
    pub closed spec fn queue(&self, o: u64) -> Seq<u64> {
        if self.waiting@.contains_key(o) {
            self.waiting@[o]@
        } else {
            Seq::empty()
        }
    }

    /// Transactions with a request.
    pub closed spec fn requests(&self) -> Set<u64> {
        self.locking@.dom()
    }

    /// Objects transaction `t` still wants.
    pub closed spec fn wanted(&self, t: u64) -> Seq<u64> {
        self.locking@[t].want@
    }

    /// Objects transaction `t` holds.
    pub closed spec fn holds(&self, t: u64) -> Seq<u64> {
        self.locking@[t].got@
    }

    /// The identifier a request carries.
    pub closed spec fn request_id(&self, t: u64) -> u64 {
        self.locking@[t].id
    }

    /// What each transaction holds is locked, held once, and no object is
    /// held by two transactions.
    pub open spec fn wf(&self) -> bool {
        &&& forall|t: u64| #[trigger] self.requests().contains(t) ==> self.request_id(t) == t
            && self.holds(t).no_duplicates()
        &&& forall|t: u64, k: int|
            #![trigger self.holds(t)[k]]
            self.requests().contains(t) && 0 <= k < self.holds(t).len() ==> self.held().contains(
                self.holds(t)[k],
            )
        &&& forall|t1: u64, t2: u64, k1: int, k2: int|
            #![trigger self.holds(t1)[k1], self.holds(t2)[k2]]
            self.requests().contains(t1) && self.requests().contains(t2) && t1 != t2 && 0 <= k1
                < self.holds(t1).len() && 0 <= k2 < self.holds(t2).len() ==> self.holds(t1)[k1]
                != self.holds(t2)[k2]
    }

    /// An empty lock table.
    pub fn new() -> (r: LockManager)
        ensures
            r.wf(),
            r.held() == Set::<u64>::empty(),
            r.requests() == Set::<u64>::empty(),
            forall|o: u64| r.queue(o) == Seq::<u64>::empty(),
    {
        LockManager { locks: HashSet::new(), waiting: HashMap::new(), locking: HashMap::new() }
    }
}


impl LockManager {
    /// Files `locking` and takes what it wants as far as the objects are
    /// free; on the first object that is locked, queues the transaction
    /// behind it. Whether everything wanted is now held.
    fn lock_waiting(&mut self, locking: Locking) -> (granted: bool)
        requires
            old(self).wf(),
            !old(self).requests().contains(locking.id),
            locking.got@.no_duplicates(),
            forall|k: int|
                0 <= k < locking.got@.len() ==> old(self).held().contains(#[trigger] locking.got@[k]),
            forall|t: u64, k1: int, k2: int|
                #![trigger old(self).holds(t)[k1], locking.got@[k2]]
                old(self).requests().contains(t) && 0 <= k1 < old(self).holds(t).len() && 0 <= k2
                    < locking.got@.len() ==> old(self).holds(t)[k1] != locking.got@[k2],
        ensures
            final(self).wf(),
            ({
                let (l2, w2, g2) = acquire(old(self).held(), locking.want@, locking.got@);
                &&& final(self).held() == l2
                &&& final(self).requests() == old(self).requests().insert(locking.id)
                &&& final(self).wanted(locking.id) == w2
                &&& final(self).holds(locking.id) == g2
                &&& granted == (w2.len() == 0)
                &&& forall|o: u64|
                    #[trigger] final(self).queue(o) == if w2.len() > 0 && o == w2.last() {
                        old(self).queue(o).push(locking.id)
                    } else {
                        old(self).queue(o)
                    }
            }),
            forall|t: u64|
                t != locking.id && old(self).requests().contains(t) ==> final(self).wanted(t) == old(
                    self,
                ).wanted(t) && #[trigger] final(self).holds(t) == old(self).holds(t),
    {
        let id = locking.id;
        let mut want = locking.want;
        let mut got = locking.got;
        let ghost start = acquire(old(self).held(), want@, got@);
        proof {
            lemma_acquire(old(self).held(), want@, got@);
        }
        let mut done = false;
        while !done && want.len() > 0
            invariant
                acquire(self.locks@, want@, got@) == start,
                self.locking@ == old(self).locking@,
                !done ==> self.waiting@ == old(self).waiting@,
                done ==> want@.len() > 0 && self.locks@.contains(want@.last()) && forall|o: u64|
                    #[trigger] self.queue(o) == if o == want@.last() {
                        old(self).queue(o).push(id)
                    } else {
                        old(self).queue(o)
                    },
            decreases want@.len(), if done { 0int } else { 1int },
        {
            let oid = want[want.len() - 1];
            if self.locks.contains(&oid) {
                let mut q = match self.waiting.remove(&oid) {
                    Some(q) => q,
                    None => Vec::new(),
                };
                let ghost before = q@;
                q.push(id);
                self.waiting.insert(oid, q);
                assert forall|o: u64| #[trigger] self.queue(o) == if o == want@.last() {
                    old(self).queue(o).push(id)
                } else {
                    old(self).queue(o)
                } by {
                    if o == oid {
                        assert(old(self).queue(o) == before);
                    }
                }
                done = true;
            } else {
                self.locks.insert(oid);
                want.pop();
                got.push(oid);
            }
        }
        proof {
            if !done {
                assert forall|o: u64| #[trigger] self.queue(o) == old(self).queue(o) by {}
            }
        }
        let granted = want.len() == 0;
        let ghost q_before = Map::new(|o: u64| true, |o: u64| self.queue(o));
        let ghost w2 = want@;
        let ghost g2 = got@;
        self.locking.insert(id, Locking { id, want, got });
        proof {
            let h0 = old(self).held();
            let (l2, _w, _g) = acquire(h0, locking.want@, locking.got@);
            assert(self.held() == l2);
            assert forall|t: u64, k: int|
                #![trigger self.holds(t)[k]]
                self.requests().contains(t) && 0 <= k < self.holds(t).len() implies self.held().contains(
                self.holds(t)[k]) by {
                if t != id {
                    assert(old(self).holds(t)[k] == self.holds(t)[k]);
                    assert(h0.contains(self.holds(t)[k]));
                } else if k < locking.got@.len() {
                    assert(g2.subrange(0, locking.got@.len() as int)[k] == g2[k]);
                    assert(h0.contains(locking.got@[k]));
                }
            }
            assert forall|t1: u64, t2: u64, k1: int, k2: int|
                #![trigger self.holds(t1)[k1], self.holds(t2)[k2]]
                self.requests().contains(t1) && self.requests().contains(t2) && t1 != t2 && 0 <= k1
                    < self.holds(t1).len() && 0 <= k2 < self.holds(t2).len() implies self.holds(t1)[k1]
                != self.holds(t2)[k2] by {
                if t1 != id && t2 != id {
                    assert(old(self).holds(t1)[k1] == self.holds(t1)[k1]);
                    assert(old(self).holds(t2)[k2] == self.holds(t2)[k2]);
                } else if t1 == id {
                    assert(old(self).holds(t2)[k2] == self.holds(t2)[k2]);
                    assert(h0.contains(self.holds(t2)[k2]));
                    if k1 < locking.got@.len() {
                        assert(g2.subrange(0, locking.got@.len() as int)[k1] == g2[k1]);
                    }
                } else {
                    assert(old(self).holds(t1)[k1] == self.holds(t1)[k1]);
                    assert(h0.contains(self.holds(t1)[k1]));
                    if k2 < locking.got@.len() {
                        assert(g2.subrange(0, locking.got@.len() as int)[k2] == g2[k2]);
                    }
                }
            }
            assert forall|t: u64| #[trigger] self.requests().contains(t) implies self.request_id(t) == t
                && self.holds(t).no_duplicates() by {
                if t != id {
                    assert(old(self).requests().contains(t));
                }
            }
            assert forall|o: u64| #[trigger] self.queue(o) == if w2.len() > 0 && o == w2.last() {
                old(self).queue(o).push(id)
            } else {
                old(self).queue(o)
            } by {
                assert(self.queue(o) == q_before[o]);
                if done {
                    assert(w2.len() > 0);
                }
            }
        }
        granted
    }
}

impl LockManager {
    /// Requests locks on `want` for transaction `id`. Objects are taken from
    /// the end of `want`; on the first that another transaction holds, `id`
    /// joins the tail of that object's queue. Whether every object wanted is
    /// now held (the request is granted).
    pub fn lock(&mut self, id: Tid, want: Vec<Oid>) -> (granted: bool)
        requires
            old(self).wf(),
        ensures
            final(self).wf(),
            ({
                let t = be64(id@);
                let w = want@.map_values(|o: Oid| be64(o@));
                let (l2, w2, g2) = acquire(old(self).held(), w, Seq::empty());
                &&& final(self).held() == l2
                &&& final(self).requests() == old(self).requests().insert(t)
                &&& final(self).wanted(t) == w2
                &&& final(self).holds(t) == g2
                &&& granted == (w2.len() == 0)
                &&& forall|o: u64|
                    #[trigger] final(self).queue(o) == if w2.len() > 0 && o == w2.last() {
                        old(self).queue(o).push(t)
                    } else {
                        old(self).queue(o)
                    }
            }),
    {
        let t = u64_of(&id);
        let mut w: Vec<u64> = Vec::new();
        let mut i: usize = 0;
        while i < want.len()
            invariant
                i <= want@.len(),
                w@ == want@.subrange(0, i as int).map_values(|o: Oid| be64(o@)),
            decreases want@.len() - i,
        {
            w.push(u64_of(&want[i]));
            i = i + 1;
            assert(w@ =~= want@.subrange(0, i as int).map_values(|o: Oid| be64(o@)));
        }
        assert(want@.subrange(0, want@.len() as int) =~= want@);
        let _ = self.locking.remove(&t);
        proof {
            assert(old(self).held() == self.held());
            assert forall|o: u64| #[trigger] self.queue(o) == old(self).queue(o) by {}
            assert forall|t2: u64, k: int|
                #![trigger self.holds(t2)[k]]
                self.requests().contains(t2) && 0 <= k < self.holds(t2).len() implies self.held().contains(
                self.holds(t2)[k]) by {
                assert(old(self).requests().contains(t2));
                assert(old(self).holds(t2)[k] == self.holds(t2)[k]);
            }
            assert forall|t1: u64, t2: u64, k1: int, k2: int|
                #![trigger self.holds(t1)[k1], self.holds(t2)[k2]]
                self.requests().contains(t1) && self.requests().contains(t2) && t1 != t2 && 0 <= k1
                    < self.holds(t1).len() && 0 <= k2 < self.holds(t2).len() implies self.holds(t1)[k1]
                != self.holds(t2)[k2] by {
                assert(old(self).holds(t1)[k1] == self.holds(t1)[k1]);
                assert(old(self).holds(t2)[k2] == self.holds(t2)[k2]);
            }
            assert forall|t2: u64| #[trigger] self.requests().contains(t2) implies self.request_id(t2) == t2
                && self.holds(t2).no_duplicates() by {
                assert(old(self).requests().contains(t2));
            }
        }
        let ghost mid = Map::new(|o: u64| true, |o: u64| self.queue(o));
        let ghost reqs = self.requests();
        let granted = self.lock_waiting(Locking { id: t, want: w, got: Vec::new() });
        proof {
            assert(reqs.insert(t) =~= old(self).requests().insert(t));
            let (l2, w2, g2) = acquire(old(self).held(), want@.map_values(|o: Oid| be64(o@)), Seq::empty());
            assert forall|o: u64| #[trigger] self.queue(o) == if w2.len() > 0 && o == w2.last() {
                old(self).queue(o).push(t)
            } else {
                old(self).queue(o)
            } by {
                assert(mid[o] == old(self).queue(o));
            }
        }
        granted
    }

    /// Releases every lock transaction `id` holds and drops its request.
    /// For each object freed, the transaction at the head of its queue, if
    /// any, leaves the queue and takes what it still wants as far as it can
    /// (a request that was already granted is not granted again). Returns
    /// the transactions whose requests became granted, in order: exactly the
    /// other requests that were incomplete and now are complete.
    pub fn release(&mut self, id: &Tid) -> (granted: Vec<Tid>)
        requires
            old(self).wf(),
        ensures
            final(self).wf(),
            final(self).requests() == old(self).requests().remove(be64(id@)),
            !old(self).requests().contains(be64(id@)) ==> final(self).held() == old(self).held()
                && granted@.len() == 0 && forall|o: u64| #[trigger] final(self).queue(o) == old(self).queue(o),
            forall|k: int|
                0 <= k < granted@.len() ==> final(self).requests().contains(be64(#[trigger] granted@[k]@))
                    && final(self).wanted(be64(granted@[k]@)).len() == 0,
            forall|o: u64| fifo_after(old(self).queue(o), #[trigger] final(self).queue(o)),
            old(self).requests().contains(be64(id@)) ==> forall|k: int|
                0 <= k < old(self).holds(be64(id@)).len() ==> free_or_owned(
                    *final(self),
                    #[trigger] old(self).holds(be64(id@))[k],
                ) && fifo_popped(
                    old(self).queue(old(self).holds(be64(id@))[k]),
                    final(self).queue(old(self).holds(be64(id@))[k]),
                ),
            forall|o: u64| free_or_owned(*old(self), o) ==> #[trigger] free_or_owned(*final(self), o),
            forall|k: int|
                0 <= k < granted@.len() ==> old(self).requests().contains(be64(#[trigger] granted@[k]@))
                    && old(self).wanted(be64(granted@[k]@)).len() > 0,
            forall|t: u64|
                old(self).requests().contains(t) && t != be64(id@) && old(self).wanted(t).len() > 0
                    && #[trigger] final(self).wanted(t).len() == 0 ==> exists|k: int|
                    0 <= k < granted@.len() && be64(granted@[k]@) == t,
    {
        let t = u64_of(id);
        let mut granted: Vec<Tid> = Vec::new();
        proof {
            assert forall|o: u64| fifo_after(old(self).queue(o), #[trigger] self.queue(o)) by {
                lemma_fifo_refl(old(self).queue(o));
            }
        }
        match self.locking.remove(&t) {
            None => {
                proof {
                    assert(self.requests() =~= old(self).requests().remove(t));
                    assert(self.locking@ =~= old(self).locking@);
                    Self::lemma_owned_frame(*old(self), *self);
                }
                granted
            },
            Some(locking) => {
                let mut got = locking.got;
                let ghost g0 = got@;
                proof {
                    assert forall|o: u64| free_or_owned(*old(self), o) && !g0.contains(o) implies #[trigger] free_or_owned(
                        *self,
                        o,
                    ) by {
                        if self.held().contains(o) {
                            let (t2, k) = choose|t2: u64, k: int|
                                old(self).requests().contains(t2) && 0 <= k < old(self).holds(t2).len()
                                    && #[trigger] old(self).holds(t2)[k] == o;
                            if t2 == t {
                                assert(g0[k] == o);
                            } else {
                                assert(self.holds(t2)[k] == o);
                            }
                        }
                    }
                }
                proof {
                    assert(self.requests() =~= old(self).requests().remove(t));
                    assert(got@ == old(self).holds(t));
                    assert forall|t2: u64, k: int|
                        #![trigger self.holds(t2)[k]]
                        self.requests().contains(t2) && 0 <= k < self.holds(t2).len() implies self.held().contains(
                        self.holds(t2)[k]) by {
                        assert(old(self).holds(t2)[k] == self.holds(t2)[k]);
                    }
                    assert forall|t1: u64, t2: u64, k1: int, k2: int|
                        #![trigger self.holds(t1)[k1], self.holds(t2)[k2]]
                        self.requests().contains(t1) && self.requests().contains(t2) && t1 != t2 && 0 <= k1
                            < self.holds(t1).len() && 0 <= k2 < self.holds(t2).len() implies self.holds(t1)[k1]
                        != self.holds(t2)[k2] by {
                        assert(old(self).holds(t1)[k1] == self.holds(t1)[k1]);
                        assert(old(self).holds(t2)[k2] == self.holds(t2)[k2]);
                    }
                    assert forall|t2: u64, k1: int, k2: int|
                        #![trigger self.holds(t2)[k1], got@[k2]]
                        self.requests().contains(t2) && 0 <= k1 < self.holds(t2).len() && 0 <= k2 < got@.len()
                        implies self.holds(t2)[k1] != got@[k2] by {
                        assert(old(self).holds(t2)[k1] == self.holds(t2)[k1]);
                        assert(old(self).holds(t)[k2] == got@[k2]);
                    }
                }
                while got.len() > 0
                    invariant
                        self.wf(),
                        !self.requests().contains(t),
                        self.requests() == old(self).requests().remove(t),
                        got@.no_duplicates(),
                        forall|k: int| 0 <= k < got@.len() ==> self.held().contains(#[trigger] got@[k]),
                        forall|t2: u64, k1: int, k2: int|
                            #![trigger self.holds(t2)[k1], got@[k2]]
                            self.requests().contains(t2) && 0 <= k1 < self.holds(t2).len() && 0 <= k2
                                < got@.len() ==> self.holds(t2)[k1] != got@[k2],
                        forall|k: int|
                            0 <= k < granted@.len() ==> self.requests().contains(be64(#[trigger] granted@[k]@))
                                && self.wanted(be64(granted@[k]@)).len() == 0,
                        forall|o: u64| fifo_after(old(self).queue(o), #[trigger] self.queue(o)),
                        g0 == old(self).holds(t),
                        old(self).requests().contains(t),
                        got@.len() <= g0.len(),
                        got@ == g0.subrange(0, got@.len() as int),
                        forall|o: u64| free_or_owned(*old(self), o) && !got@.contains(o) ==> #[trigger] free_or_owned(
                            *self,
                            o,
                        ),
                        forall|j: int| got@.len() <= j < g0.len() ==> fifo_popped(
                            old(self).queue(#[trigger] g0[j]),
                            self.queue(g0[j]),
                        ) && free_or_owned(*self, g0[j]),
                        forall|t2: u64|
                            self.requests().contains(t2) && #[trigger] self.wanted(t2).len() > 0
                                ==> old(self).wanted(t2).len() > 0,
                        forall|k: int|
                            0 <= k < granted@.len() ==> old(self).requests().contains(be64(#[trigger] granted@[k]@))
                                && old(self).wanted(be64(granted@[k]@)).len() > 0,
                        forall|t2: u64|
                            old(self).requests().contains(t2) && t2 != t && old(self).wanted(t2).len() > 0
                                && #[trigger] self.wanted(t2).len() == 0 ==> exists|k: int|
                                0 <= k < granted@.len() && be64(granted@[k]@) == t2,
                    decreases got@.len(),
                {
                    let ghost pre = *self;
                    let ghost got0 = got@;
                    let oid = got.pop().unwrap();
                    proof {
                        assert(got@ =~= got0.drop_last());
                        assert(oid == got0[got0.len() - 1]);
                        assert forall|t2: u64, k1: int|
                            #![trigger self.holds(t2)[k1]]
                            self.requests().contains(t2) && 0 <= k1 < self.holds(t2).len() implies self.holds(t2)[k1] != oid by {
                            assert(self.holds(t2)[k1] != got0[got0.len() - 1]);
                        }
                        assert forall|t2: u64, k1: int, k2: int|
                            #![trigger self.holds(t2)[k1], got@[k2]]
                            self.requests().contains(t2) && 0 <= k1 < self.holds(t2).len() && 0 <= k2
                                < got@.len() implies self.holds(t2)[k1] != got@[k2] by {
                            assert(got@[k2] == got0[k2]);
                        }
                        assert forall|k: int| 0 <= k < got@.len() implies self.held().contains(#[trigger] got@[k]) by {
                            assert(got@[k] == got0[k]);
                        }
                        assert(!got@.contains(oid)) by {
                            if got@.contains(oid) {
                                let k = choose|k: int| 0 <= k < got@.len() && got@[k] == oid;
                                assert(got0[k] == got0[got0.len() - 1]);
                            }
                        }
                        assert(self.held().contains(oid)) by {
                            assert(self.held().contains(got0[got0.len() - 1]));
                        }
                    }
                    let ghost gr0 = granted@;
                    proof {
                        assert(got0[got0.len() - 1] == g0[got0.len() - 1]);
                        assert(oid == g0[got@.len() as int]);
                    }
                    self.release_one(oid, &got, &mut granted);
                    proof {
                        assert forall|o: u64| fifo_after(old(self).queue(o), #[trigger] self.queue(o)) by {
                            lemma_fifo_trans(old(self).queue(o), pre.queue(o), self.queue(o));
                        }
                        assert(got@ =~= g0.subrange(0, got@.len() as int));
                        assert forall|t2: u64|
                            self.requests().contains(t2) && #[trigger] self.wanted(t2).len() > 0
                                implies old(self).wanted(t2).len() > 0 by {
                            assert(pre.wanted(t2).len() > 0);
                        }
                        assert forall|k: int|
                            0 <= k < granted@.len() implies old(self).requests().contains(be64(#[trigger] granted@[k]@))
                                && old(self).wanted(be64(granted@[k]@)).len() > 0 by {
                            if k < gr0.len() {
                                assert(granted@.subrange(0, gr0.len() as int)[k] == gr0[k]);
                            } else {
                                let tk = be64(granted@[k]@);
                                assert(pre.requests().contains(tk) && pre.wanted(tk).len() > 0);
                            }
                        }
                        assert forall|t2: u64|
                            old(self).requests().contains(t2) && t2 != t && old(self).wanted(t2).len() > 0
                                && #[trigger] self.wanted(t2).len() == 0 implies exists|k: int|
                                0 <= k < granted@.len() && be64(granted@[k]@) == t2 by {
                            if pre.wanted(t2).len() == 0 {
                                let k = choose|k: int| 0 <= k < gr0.len() && be64(gr0[k]@) == t2;
                                assert(granted@.subrange(0, gr0.len() as int)[k] == gr0[k]);
                            } else {
                                assert(pre.requests().contains(t2));
                            }
                        }
                        assert forall|o: u64| free_or_owned(*old(self), o) && !got@.contains(o) implies #[trigger] free_or_owned(
                            *self,
                            o,
                        ) by {
                            if o == oid {
                            } else {
                                assert(!got0.contains(o)) by {
                                    if got0.contains(o) {
                                        let k = choose|k: int| 0 <= k < got0.len() && got0[k] == o;
                                        if k < got@.len() {
                                            assert(got@[k] == o);
                                        }
                                    }
                                }
                                assert(free_or_owned(pre, o));
                            }
                        }
                        assert forall|j: int| got@.len() <= j < g0.len() implies fifo_popped(
                            old(self).queue(#[trigger] g0[j]),
                            self.queue(g0[j]),
                        ) && free_or_owned(*self, g0[j]) by {
                            if j == got@.len() {
                                assert(g0[j] == oid);
                                lemma_fifo_after_popped(old(self).queue(oid), pre.queue(oid), self.queue(oid));
                            } else {
                                assert(fifo_popped(old(self).queue(g0[j]), pre.queue(g0[j])));
                                assert(free_or_owned(pre, g0[j]));
                                lemma_fifo_popped_trans(old(self).queue(g0[j]), pre.queue(g0[j]), self.queue(g0[j]));
                            }
                        }
                    }
                }
                granted
            },
        }
    }

    proof fn lemma_owned_frame(a: LockManager, b: LockManager)
        requires
            b.locking@ == a.locking@,
            b.locks@.subset_of(a.locks@),
        ensures
            forall|o: u64| free_or_owned(a, o) ==> #[trigger] free_or_owned(b, o),
    {
        assert forall|o: u64| free_or_owned(a, o) implies #[trigger] free_or_owned(b, o) by {
            if b.held().contains(o) {
                let (t, k) = choose|t: u64, k: int|
                    a.requests().contains(t) && 0 <= k < a.holds(t).len() && #[trigger] a.holds(t)[k] == o;
                assert(b.holds(t)[k] == o);
            }
        }
    }

    proof fn lemma_wf_frame(a: &LockManager, b: &LockManager)
        requires
            a.wf(),
            b.locking@ == a.locking@,
            b.locks@ == a.locks@,
        ensures
            b.wf(),
    {
        assert forall|t: u64, k: int|
            #![trigger b.holds(t)[k]]
            b.requests().contains(t) && 0 <= k < b.holds(t).len() implies b.held().contains(
            b.holds(t)[k]) by {
            assert(a.holds(t)[k] == b.holds(t)[k]);
        }
        assert forall|t1: u64, t2: u64, k1: int, k2: int|
            #![trigger b.holds(t1)[k1], b.holds(t2)[k2]]
            b.requests().contains(t1) && b.requests().contains(t2) && t1 != t2 && 0 <= k1
                < b.holds(t1).len() && 0 <= k2 < b.holds(t2).len() implies b.holds(t1)[k1]
            != b.holds(t2)[k2] by {
            assert(a.holds(t1)[k1] == b.holds(t1)[k1]);
            assert(a.holds(t2)[k2] == b.holds(t2)[k2]);
        }
        assert forall|t2: u64| #[trigger] b.requests().contains(t2) implies b.request_id(t2) == t2
            && b.holds(t2).no_duplicates() by {
            assert(a.requests().contains(t2));
        }
    }

    /// Frees `oid`, which the releasing transaction held, and lets the head
    /// of its queue, if any, go on acquiring.
    #[verifier::spinoff_prover]
    #[verifier::rlimit(60)]
    fn release_one(&mut self, oid: u64, got: &Vec<u64>, granted: &mut Vec<Tid>)
        requires
            old(self).wf(),
            old(self).held().contains(oid),
            got@.no_duplicates(),
            !got@.contains(oid),
            forall|k: int| 0 <= k < got@.len() ==> old(self).held().contains(#[trigger] got@[k]),
            forall|t2: u64, k1: int|
                #![trigger old(self).holds(t2)[k1]]
                old(self).requests().contains(t2) && 0 <= k1 < old(self).holds(t2).len() ==> old(self).holds(t2)[k1] != oid,
            forall|t2: u64, k1: int, k2: int|
                #![trigger old(self).holds(t2)[k1], got@[k2]]
                old(self).requests().contains(t2) && 0 <= k1 < old(self).holds(t2).len() && 0 <= k2
                    < got@.len() ==> old(self).holds(t2)[k1] != got@[k2],
            forall|k: int|
                0 <= k < old(granted)@.len() ==> old(self).requests().contains(be64(#[trigger] old(granted)@[k]@))
                    && old(self).wanted(be64(old(granted)@[k]@)).len() == 0,
        ensures
            final(self).wf(),
            final(self).requests() == old(self).requests(),
            forall|k: int| 0 <= k < got@.len() ==> final(self).held().contains(#[trigger] got@[k]),
            forall|t2: u64, k1: int, k2: int|
                #![trigger final(self).holds(t2)[k1], got@[k2]]
                final(self).requests().contains(t2) && 0 <= k1 < final(self).holds(t2).len() && 0 <= k2
                    < got@.len() ==> final(self).holds(t2)[k1] != got@[k2],
            forall|k: int|
                0 <= k < final(granted)@.len() ==> final(self).requests().contains(be64(#[trigger] final(granted)@[k]@))
                    && final(self).wanted(be64(final(granted)@[k]@)).len() == 0,
            forall|o: u64| fifo_after(old(self).queue(o), #[trigger] final(self).queue(o)),
            fifo_popped(old(self).queue(oid), final(self).queue(oid)),
            free_or_owned(*final(self), oid),
            forall|t: u64|
                final(self).requests().contains(t) && #[trigger] final(self).wanted(t).len() > 0
                    ==> old(self).wanted(t).len() > 0,
            forall|t: u64|
                old(self).requests().contains(t) && old(self).wanted(t).len() > 0
                    && #[trigger] final(self).wanted(t).len() == 0 ==> exists|k: int|
                    0 <= k < final(granted)@.len() && be64(final(granted)@[k]@) == t,
            final(granted)@.len() >= old(granted)@.len(),
            final(granted)@.subrange(0, old(granted)@.len() as int) == old(granted)@,
            forall|k: int|
                old(granted)@.len() <= k < final(granted)@.len() ==> old(self).requests().contains(
                    be64(#[trigger] final(granted)@[k]@),
                ) && old(self).wanted(be64(final(granted)@[k]@)).len() > 0,
            forall|o: u64| free_or_owned(*old(self), o) ==> #[trigger] free_or_owned(*final(self), o),
    {
        self.locks.remove(&oid);
        proof {
            assert forall|o: u64| fifo_after(old(self).queue(o), #[trigger] self.queue(o)) by {
                lemma_fifo_refl(old(self).queue(o));
            }
            assert forall|t2: u64, k: int|
                #![trigger self.holds(t2)[k]]
                self.requests().contains(t2) && 0 <= k < self.holds(t2).len() implies self.held().contains(
                self.holds(t2)[k]) by {
                assert(old(self).held().contains(old(self).holds(t2)[k]));
            }
            assert forall|t1: u64, t2: u64, k1: int, k2: int|
                #![trigger self.holds(t1)[k1], self.holds(t2)[k2]]
                self.requests().contains(t1) && self.requests().contains(t2) && t1 != t2 && 0 <= k1
                    < self.holds(t1).len() && 0 <= k2 < self.holds(t2).len() implies self.holds(t1)[k1]
                != self.holds(t2)[k2] by {
                assert(old(self).holds(t1)[k1] == self.holds(t1)[k1]);
                assert(old(self).holds(t2)[k2] == self.holds(t2)[k2]);
            }
            assert forall|t2: u64| #[trigger] self.requests().contains(t2) implies self.request_id(t2) == t2
                && self.holds(t2).no_duplicates() by {
                assert(old(self).requests().contains(t2));
            }
            assert(self.wf());
            Self::lemma_owned_frame(*old(self), *self);
            assert(!self.held().contains(oid));
        }
        let ghost s_wf = *self;
        let ghost before_q = Map::new(|o: u64| true, |o: u64| self.queue(o));
        match self.waiting.remove(&oid) {
            None => {
                proof {
                    assert forall|o: u64| fifo_after(old(self).queue(o), #[trigger] self.queue(o)) by {
                        assert(self.queue(o) == before_q[o]);
                    }
                    Self::lemma_wf_frame(&s_wf, self);
                    Self::lemma_owned_frame(s_wf, *self);
                    assert(self.locking@ == old(self).locking@);
                    assert forall|t2: u64, k1: int, k2: int|
                        #![trigger self.holds(t2)[k1], got@[k2]]
                        self.requests().contains(t2) && 0 <= k1 < self.holds(t2).len() && 0 <= k2
                            < got@.len() implies self.holds(t2)[k1] != got@[k2] by {
                        assert(self.holds(t2) == old(self).holds(t2));
                    }
                    assert forall|t: u64|
                        old(self).requests().contains(t) && old(self).wanted(t).len() > 0
                            && #[trigger] self.wanted(t).len() == 0 implies exists|k: int|
                            0 <= k < granted@.len() && be64(granted@[k]@) == t by {
                        assert(self.wanted(t) == old(self).wanted(t));
                    }
                    assert(old(self).queue(oid).len() == 0);
                }
            },
            Some(mut q) => {
                if q.len() > 0 {
                    let ghost q0 = q@;
                    let w = q.remove(0);
                    if q.len() > 0 {
                        self.waiting.insert(oid, q);
                    }
                    proof {
                        assert forall|o: u64| fifo_after(old(self).queue(o), #[trigger] self.queue(o)) by {
                            if o == oid {
                                assert(before_q[o] == q0);
                                assert(q0.remove(0) =~= q0.drop_first());
                                lemma_fifo_pop(old(self).queue(o), q0);
                                if q@.len() == 0 {
                                    assert(self.queue(o) =~= q0.drop_first());
                                }
                            } else {
                                assert(self.queue(o) == before_q[o]);
                            }
                        }
                    }
                    let ghost s1 = Map::new(|o: u64| true, |o: u64| self.queue(o));
                    proof {
                        assert forall|o: u64| fifo_after(old(self).queue(o), #[trigger] s1[o]) by {
                            assert(fifo_after(old(self).queue(o), self.queue(o)));
                        }
                        assert(before_q[oid] == q0);
                        assert(old(self).queue(oid) == q0);
                        assert(q0.subrange(1, q0.len() as int) =~= s1[oid].subrange(0, q0.len() - 1));
                        assert(fifo_popped(old(self).queue(oid), s1[oid]));
                        Self::lemma_owned_frame(s_wf, *self);
                        assert(self.locking@ == old(self).locking@);
                        assert forall|t2: u64, k1: int, k2: int|
                            #![trigger self.holds(t2)[k1], got@[k2]]
                            self.requests().contains(t2) && 0 <= k1 < self.holds(t2).len() && 0 <= k2
                                < got@.len() implies self.holds(t2)[k1] != got@[k2] by {
                            assert(self.holds(t2) == old(self).holds(t2));
                        }
                        assert forall|t: u64|
                            old(self).requests().contains(t) && old(self).wanted(t).len() > 0
                                && #[trigger] self.wanted(t).len() == 0 implies exists|k: int|
                                0 <= k < granted@.len() && be64(granted@[k]@) == t by {
                            assert(self.wanted(t) == old(self).wanted(t));
                        }
                    }
                    let ghost s_b = *self;
                    let ghost had_w = self.requests().contains(w);
                    let ghost w_entry = self.locking@[w];
                    match self.locking.remove(&w) {
                        None => {
                            proof {
                                assert forall|o: u64| fifo_after(old(self).queue(o), #[trigger] self.queue(o)) by {
                                    assert(self.queue(o) == s1[o]);
                                }
                                assert(self.locking@ =~= s_wf.locking@);
                                Self::lemma_wf_frame(&s_wf, self);
                                Self::lemma_owned_frame(s_b, *self);
                                assert(self.queue(oid) == s1[oid]);
                                assert(self.locking@ == old(self).locking@);
                                assert forall|t2: u64, k1: int, k2: int|
                                    #![trigger self.holds(t2)[k1], got@[k2]]
                                    self.requests().contains(t2) && 0 <= k1 < self.holds(t2).len() && 0 <= k2
                                        < got@.len() implies self.holds(t2)[k1] != got@[k2] by {
                                    assert(self.holds(t2) == old(self).holds(t2));
                                }
                                assert forall|t: u64|
                                    old(self).requests().contains(t) && old(self).wanted(t).len() > 0
                                        && #[trigger] self.wanted(t).len() == 0 implies exists|k: int|
                                        0 <= k < granted@.len() && be64(granted@[k]@) == t by {
                                    assert(self.wanted(t) == old(self).wanted(t));
                                }
                            }
                        },
                        Some(wl) => {
                            if wl.want.len() == 0 {
                                // A request already granted is not granted again.
                                self.locking.insert(w, wl);
                                proof {
                                    assert(had_w);
                                    assert(old(self).requests().contains(w));
                                    assert(wl == w_entry);
                                    assert(self.locking@ =~= s_wf.locking@);
                                    assert(self.locking@ == old(self).locking@);
                                    Self::lemma_wf_frame(&s_wf, self);
                                    Self::lemma_owned_frame(s_b, *self);
                                    assert forall|t2: u64, k1: int, k2: int|
                                        #![trigger self.holds(t2)[k1], got@[k2]]
                                        self.requests().contains(t2) && 0 <= k1 < self.holds(t2).len() && 0 <= k2
                                            < got@.len() implies self.holds(t2)[k1] != got@[k2] by {
                                        assert(self.holds(t2) == old(self).holds(t2));
                                    }
                                    assert forall|t: u64|
                                        old(self).requests().contains(t) && old(self).wanted(t).len() > 0
                                            && #[trigger] self.wanted(t).len() == 0 implies exists|k: int|
                                            0 <= k < granted@.len() && be64(granted@[k]@) == t by {
                                        assert(self.wanted(t) == old(self).wanted(t));
                                    }
                                    assert forall|o: u64| fifo_after(old(self).queue(o), #[trigger] self.queue(o)) by {
                                        assert(self.queue(o) == s1[o]);
                                    }
                                    assert(self.queue(oid) == s1[oid]);
                                }
                            } else {
                                let ghost h1 = self.held();
                                proof {
                                    assert(had_w);
                                    assert(old(self).requests().contains(w));
                                    assert(old(self).request_id(w) == w);
                                    assert(wl == w_entry);
                                    assert(wl.id == w);
                                    assert forall|t2: u64, k: int|
                                        #![trigger self.holds(t2)[k]]
                                        self.requests().contains(t2) && 0 <= k < self.holds(t2).len() implies self.held().contains(
                                        self.holds(t2)[k]) by {
                                        assert(old(self).holds(t2)[k] == self.holds(t2)[k]);
                                    }
                                    assert forall|t1: u64, t2: u64, k1: int, k2: int|
                                        #![trigger self.holds(t1)[k1], self.holds(t2)[k2]]
                                        self.requests().contains(t1) && self.requests().contains(t2) && t1 != t2 && 0 <= k1
                                            < self.holds(t1).len() && 0 <= k2 < self.holds(t2).len() implies self.holds(t1)[k1]
                                        != self.holds(t2)[k2] by {
                                        assert(old(self).holds(t1)[k1] == self.holds(t1)[k1]);
                                        assert(old(self).holds(t2)[k2] == self.holds(t2)[k2]);
                                    }
                                    assert forall|k: int| 0 <= k < wl.got@.len() implies self.held().contains(#[trigger] wl.got@[k]) by {
                                        assert(old(self).holds(w)[k] == wl.got@[k]);
                                    }
                                    assert forall|t2: u64, k1: int, k2: int|
                                        #![trigger self.holds(t2)[k1], wl.got@[k2]]
                                        self.requests().contains(t2) && 0 <= k1 < self.holds(t2).len() && 0 <= k2
                                            < wl.got@.len() implies self.holds(t2)[k1] != wl.got@[k2] by {
                                        assert(old(self).holds(t2)[k1] == self.holds(t2)[k1]);
                                        assert(old(self).holds(w)[k2] == wl.got@[k2]);
                                    }
                                    lemma_acquire(h1, wl.want@, wl.got@);
                                }
                                let ghost reqs = self.requests();
                                let ghost mid = *self;
                                let ghost wl_got = wl.got@;
                                let ghost wl_want = wl.want@;
                                let ok = self.lock_waiting(wl);
                                proof {
                                    assert(self.requests() =~= old(self).requests());
                                    let (l2, w2, g2) = acquire(h1, wl.want@, wl_got);
                                    assert forall|k: int| 0 <= k < got@.len() implies self.held().contains(#[trigger] got@[k]) by {
                                        assert(h1.contains(got@[k]));
                                    }
                                    assert forall|t2: u64, k1: int, k2: int|
                                        #![trigger self.holds(t2)[k1], got@[k2]]
                                        self.requests().contains(t2) && 0 <= k1 < self.holds(t2).len() && 0 <= k2
                                            < got@.len() implies self.holds(t2)[k1] != got@[k2] by {
                                        if t2 != w {
                                            assert(mid.holds(t2)[k1] == self.holds(t2)[k1]);
                                            assert(old(self).holds(t2)[k1] == self.holds(t2)[k1]);
                                        } else if k1 < wl_got.len() {
                                            assert(g2.subrange(0, wl_got.len() as int)[k1] == g2[k1]);
                                            assert(old(self).holds(w)[k1] == wl_got[k1]);
                                        } else {
                                            assert(!h1.contains(g2[k1]));
                                            assert(h1.contains(got@[k2]));
                                        }
                                    }
                                    assert forall|o: u64| fifo_after(old(self).queue(o), #[trigger] self.queue(o)) by {
                                        assert(fifo_after(old(self).queue(o), s1[o]));
                                        assert(mid.queue(o) == s1[o]);
                                        if w2.len() > 0 && o == w2.last() {
                                            lemma_fifo_push(old(self).queue(o), s1[o], w);
                                        }
                                    }
                                    assert(mid.queue(oid) == s1[oid]);
                                    if w2.len() > 0 && oid == w2.last() {
                                        lemma_fifo_refl(s1[oid]);
                                        lemma_fifo_push(s1[oid], s1[oid], w);
                                        lemma_fifo_popped_trans(old(self).queue(oid), s1[oid], self.queue(oid));
                                    } else {
                                        lemma_fifo_refl(s1[oid]);
                                        lemma_fifo_popped_trans(old(self).queue(oid), s1[oid], self.queue(oid));
                                    }
                                    assert forall|o: u64| free_or_owned(s_b, o) implies #[trigger] free_or_owned(
                                        *self,
                                        o,
                                    ) by {
                                        if self.held().contains(o) {
                                            if h1.contains(o) {
                                                let (t, k) = choose|t: u64, k: int|
                                                    s_b.requests().contains(t) && 0 <= k < s_b.holds(t).len()
                                                        && #[trigger] s_b.holds(t)[k] == o;
                                                if t != w {
                                                    assert(mid.holds(t) == s_b.holds(t));
                                                    assert(self.holds(t)[k] == o);
                                                } else {
                                                    assert(s_b.holds(w) == wl_got);
                                                    assert(g2.subrange(0, wl_got.len() as int)[k] == g2[k]);
                                                    assert(self.holds(w)[k] == o);
                                                }
                                            } else {
                                                let k = choose|k: int|
                                                    wl_got.len() <= k < g2.len() && g2[k] == o;
                                                assert(self.holds(w)[k] == o);
                                            }
                                        }
                                    }
                                    assert(free_or_owned(*self, oid)) by {
                                        if self.held().contains(oid) {
                                            assert(!h1.contains(oid));
                                            let k = choose|k: int|
                                                wl_got.len() <= k < g2.len() && g2[k] == oid;
                                            assert(self.holds(w)[k] == oid);
                                        }
                                    }
                                }
                                if ok {
                                    let ghost g0 = granted@;
                                    granted.push(p64(w));
                                    proof {
                                        assert forall|k: int|
                                            0 <= k < granted@.len() implies self.requests().contains(be64(#[trigger] granted@[k]@))
                                                && self.wanted(be64(granted@[k]@)).len() == 0 by {
                                            if k < g0.len() {
                                                assert(granted@[k] == g0[k]);
                                                let tk = be64(g0[k]@);
                                                if tk != w {
                                                    assert(mid.wanted(tk) == old(self).wanted(tk));
                                                }
                                            } else {
                                                crate::util::lemma_be64_p64s(w);
                                            }
                                        }
                                        crate::util::lemma_be64_p64s(w);
                                        assert(be64(granted@[granted@.len() - 1]@) == w);
                                        assert forall|t: u64|
                                            old(self).requests().contains(t) && old(self).wanted(t).len() > 0
                                                && #[trigger] self.wanted(t).len() == 0 implies exists|k: int|
                                                0 <= k < granted@.len() && be64(granted@[k]@) == t by {
                                            if t != w {
                                                assert(mid.wanted(t) == old(self).wanted(t));
                                            } else {
                                                assert(be64(granted@[granted@.len() - 1]@) == t);
                                            }
                                        }
                                        assert(granted@.subrange(0, g0.len() as int) =~= g0);
                                        assert(old(self).wanted(w) == wl_want);
                                        assert(wl_want.len() > 0);
                                    }
                                } else {
                                    proof {
                                        assert forall|k: int|
                                            0 <= k < granted@.len() implies self.requests().contains(be64(#[trigger] granted@[k]@))
                                                && self.wanted(be64(granted@[k]@)).len() == 0 by {
                                            let tk = be64(granted@[k]@);
                                            if tk != w {
                                                assert(mid.wanted(tk) == old(self).wanted(tk));
                                            }
                                        }
                                        assert forall|t: u64|
                                            old(self).requests().contains(t) && old(self).wanted(t).len() > 0
                                                && #[trigger] self.wanted(t).len() == 0 implies exists|k: int|
                                                0 <= k < granted@.len() && be64(granted@[k]@) == t by {
                                            if t != w {
                                                assert(mid.wanted(t) == old(self).wanted(t));
                                            }
                                        }
                                    }
                                }
                            }
                        },
                    }
                } else {
                    proof {
                        assert forall|o: u64| fifo_after(old(self).queue(o), #[trigger] self.queue(o)) by {
                            if o == oid {
                                assert(self.queue(o) =~= before_q[o]);
                            } else {
                                assert(self.queue(o) == before_q[o]);
                            }
                        }
                        Self::lemma_wf_frame(&s_wf, self);
                        Self::lemma_owned_frame(s_wf, *self);
                        assert(self.locking@ == old(self).locking@);
                        assert forall|t2: u64, k1: int, k2: int|
                            #![trigger self.holds(t2)[k1], got@[k2]]
                            self.requests().contains(t2) && 0 <= k1 < self.holds(t2).len() && 0 <= k2
                                < got@.len() implies self.holds(t2)[k1] != got@[k2] by {
                            assert(self.holds(t2) == old(self).holds(t2));
                        }
                        assert forall|t: u64|
                            old(self).requests().contains(t) && old(self).wanted(t).len() > 0
                                && #[trigger] self.wanted(t).len() == 0 implies exists|k: int|
                                0 <= k < granted@.len() && be64(granted@[k]@) == t by {
                            assert(self.wanted(t) == old(self).wanted(t));
                        }
                        assert(old(self).queue(oid).len() == 0);
                    }
                }
            },
        }
    }
}

} // verus!
