//! The lock manager: per-page shared/exclusive locks for transactions under
//! the WAIT-DIE deadlock-avoidance policy.
//!
//! WAIT-DIE: when a request conflicts, the requester dies (its transaction
//! is aborted) if any holder of the page is strictly older (smaller id);
//! otherwise the requester is the oldest and waits. Older transactions never
//! abort and wait only on strictly younger ones, so the wait-for relation is
//! acyclic by id order.

use vstd::prelude::*;

verus! {

use crate::heap_page::HeapPageId;
use crate::heap_page::Permission;
use crate::transaction::TransactionId;

/// One granted lock: a transaction, a page, and whether the lock is
/// exclusive (shared otherwise).
#[derive(Debug, PartialEq, Eq, Clone, Hash, Copy, Structural)]
pub struct Lock {
    pub tid: TransactionId,
    pub pid: HeapPageId,
    pub exclusive: bool,
}

/// What one (non-blocking) lock request decides under WAIT-DIE.
///
/// `Granted` means the lock is now held. `Wait` means the page is held by
/// strictly younger transactions only: the caller should retry after a
/// bounded pause. `Die` means a strictly older transaction holds the page:
/// the requester's transaction must abort.
#[derive(Debug, PartialEq, Eq, Clone, Copy, Structural)]
pub enum AcquireOutcome {
    Granted,
    Wait,
    Die,
}

/// The transaction holds a lock of exactly this mode on the page.
pub open spec fn spec_holds_lock(
    locks: Seq<Lock>,
    tid: TransactionId,
    pid: HeapPageId,
    exclusive: bool,
) -> bool {
    locks.contains(Lock { tid, pid, exclusive })
}

/// The request is already satisfied: a shared request by any held lock on
/// the page, an exclusive request only by a held exclusive lock.
pub open spec fn spec_satisfied(
    locks: Seq<Lock>,
    tid: TransactionId,
    pid: HeapPageId,
    exclusive: bool,
) -> bool {
    spec_holds_lock(locks, tid, pid, true) || (!exclusive && spec_holds_lock(
        locks,
        tid,
        pid,
        false,
    ))
}

/// Every lock on the page belongs to this transaction.
pub open spec fn spec_only_holder(locks: Seq<Lock>, tid: TransactionId, pid: HeapPageId) -> bool {
    forall|i: int|
        0 <= i < locks.len() && (#[trigger] locks[i]).pid == pid ==> locks[i].tid == tid
}

/// The request conflicts with a lock held by another transaction: any other
/// holder blocks an exclusive request, an exclusive other holder blocks any
/// request.
pub open spec fn spec_conflicts(
    locks: Seq<Lock>,
    tid: TransactionId,
    pid: HeapPageId,
    exclusive: bool,
) -> bool {
    exists|i: int|
        0 <= i < locks.len() && (#[trigger] locks[i]).pid == pid && locks[i].tid != tid && (
        exclusive || locks[i].exclusive)
}

/// Some holder of the page is strictly older (smaller id) than `tid`.
pub open spec fn spec_has_older_holder(
    locks: Seq<Lock>,
    tid: TransactionId,
    pid: HeapPageId,
) -> bool {
    exists|i: int|
        0 <= i < locks.len() && (#[trigger] locks[i]).pid == pid && locks[i].tid.tid < tid.tid
}

/// The lock table is consistent: two different locks on the same page always
/// belong to different transactions and are both shared. In particular a
/// transaction holds at most one lock per page, and no two conflicting locks
/// coexist.
pub open spec fn locks_wf(locks: Seq<Lock>) -> bool {
    forall|a: int, b: int|
        0 <= a < locks.len() && 0 <= b < locks.len() && a != b && (#[trigger] locks[a]).pid == (
        #[trigger] locks[b]).pid ==> locks[a].tid != locks[b].tid && !locks[a].exclusive
            && !locks[b].exclusive
}

/// Per-page shared/exclusive lock table with WAIT-DIE deadlock avoidance.
pub struct LockManager {
    pub locks: Vec<Lock>,
}

/// No two conflicting locks are ever held simultaneously: two different
/// locks of a well-formed table on the same page belong to different
/// transactions and are both shared.
pub proof fn lemma_no_conflicting_locks(lm: LockManager, a: int, b: int)
    requires
        lm.wf(),
        0 <= a < lm.locks@.len(),
        0 <= b < lm.locks@.len(),
        a != b,
        lm.locks@[a].pid == lm.locks@[b].pid,
    ensures
        lm.locks@[a].tid != lm.locks@[b].tid,
        !lm.locks@[a].exclusive,
        !lm.locks@[b].exclusive,
{
}

impl LockManager {
    /// The lock table is consistent.
    pub open spec fn wf(self) -> bool {
        locks_wf(self.locks@)
    }

    /// An empty lock table.
    pub fn new() -> (lm: Self)
        ensures
            lm.wf(),
            lm.locks@.len() == 0,
    {
        LockManager { locks: Vec::new() }
    }

    /// One non-blocking step of lock acquisition for `tid` on `pid`:
    ///
    /// - returns `Granted` and leaves the table unchanged when the request
    ///   is already satisfied;
    /// - upgrades in place and returns `Granted` when `tid` holds the only
    ///   lock on the page and asks for exclusive access;
    /// - on a conflict applies WAIT-DIE: `Die` when any holder of the page
    ///   is strictly older than `tid`, else `Wait`; the table is unchanged
    ///   either way, and on `Wait` every conflicting holder is strictly
    ///   younger than `tid`;
    /// - otherwise inserts the lock and returns `Granted`.
    pub fn acquire_lock(&mut self, tid: TransactionId, pid: HeapPageId, exclusive: bool) -> (r:
        AcquireOutcome)
        requires
            old(self).wf(),
        ensures
            final(self).wf(),
            ({
                let locks = old(self).locks@;
                let new = final(self).locks@;
                if spec_satisfied(locks, tid, pid, exclusive) {
                    r == AcquireOutcome::Granted && new == locks
                } else if exclusive && spec_holds_lock(locks, tid, pid, false) && spec_only_holder(
                    locks,
                    tid,
                    pid,
                ) {
                    r == AcquireOutcome::Granted && (forall|l: Lock|
                        new.contains(l) <==> (l == (Lock { tid, pid, exclusive: true }) || (
                        locks.contains(l) && l.pid != pid)))
                } else if spec_conflicts(locks, tid, pid, exclusive) {
                    if spec_has_older_holder(locks, tid, pid) {
                        r == AcquireOutcome::Die && new == locks
                    } else {
                        r == AcquireOutcome::Wait && new == locks && (forall|l: Lock|
                            #[trigger] locks.contains(l) && l.pid == pid && l.tid != tid
                                ==> l.tid.tid > tid.tid)
                    }
                } else {
                    r == AcquireOutcome::Granted && (forall|l: Lock|
                        new.contains(l) <==> (locks.contains(l) || l == (Lock {
                            tid,
                            pid,
                            exclusive,
                        })))
                }
            }),
            r == AcquireOutcome::Granted ==> spec_satisfied(final(self).locks@, tid, pid, exclusive),
    {
        let ghost locks0 = self.locks@;
        let n = self.locks.len();

        // Fast path: the transaction already holds an adequate lock.
        let mut i: usize = 0;
        while i < n
            invariant
                i <= n,
                n == self.locks@.len(),
                locks0 == self.locks@,
                locks_wf(locks0),
                forall|j: int|
                    0 <= j < i ==> !((#[trigger] locks0[j]).tid == tid && locks0[j].pid == pid && (
                    locks0[j].exclusive || !exclusive)),
            decreases n - i,
        {
            let l = self.locks[i];
            if l.tid == tid && l.pid == pid && (l.exclusive || !exclusive) {
                proof {
                    assert(locks0.contains(locks0[i as int]));
                    assert(spec_satisfied(locks0, tid, pid, exclusive));
                }
                return AcquireOutcome::Granted;
            }
            i = i + 1;
        }
        proof {
            if spec_satisfied(locks0, tid, pid, exclusive) {
                if spec_holds_lock(locks0, tid, pid, true) {
                    let j = choose|j: int| 0 <= j < locks0.len() && locks0[j] == (Lock {
                        tid,
                        pid,
                        exclusive: true,
                    });
                    assert(false);
                } else {
                    let j = choose|j: int| 0 <= j < locks0.len() && locks0[j] == (Lock {
                        tid,
                        pid,
                        exclusive: false,
                    });
                    assert(false);
                }
            }
        }

        // Survey the holders of the page.
        let mut own: bool = false;
        let mut any_other: bool = false;
        let mut other_exclusive: bool = false;
        let mut older: bool = false;
        let mut j: usize = 0;
        while j < n
            invariant
                j <= n,
                n == self.locks@.len(),
                locks0 == self.locks@,
                own == exists|k: int|
                    0 <= k < j && (#[trigger] locks0[k]).pid == pid && locks0[k].tid == tid,
                any_other == exists|k: int|
                    0 <= k < j && (#[trigger] locks0[k]).pid == pid && locks0[k].tid != tid,
                other_exclusive == exists|k: int|
                    0 <= k < j && (#[trigger] locks0[k]).pid == pid && locks0[k].tid != tid
                        && locks0[k].exclusive,
                older == exists|k: int|
                    0 <= k < j && (#[trigger] locks0[k]).pid == pid && locks0[k].tid.tid < tid.tid,
            decreases n - j,
        {
            let l = self.locks[j];
            if l.pid == pid {
                if l.tid == tid {
                    own = true;
                } else {
                    any_other = true;
                    if l.exclusive {
                        other_exclusive = true;
                    }
                }
                if l.tid.get_tid() < tid.get_tid() {
                    older = true;
                }
            }
            j = j + 1;
        }

        if own && !any_other {
            // The only holder is this transaction; after the fast path the
            // held lock is shared and the request is exclusive: upgrade it.
            proof {
                let k = choose|k: int|
                    0 <= k < locks0.len() && (#[trigger] locks0[k]).pid == pid && locks0[k].tid
                        == tid;
                assert(locks0.contains(locks0[k]));
                if !exclusive || locks0[k].exclusive {
                    assert(spec_satisfied(locks0, tid, pid, exclusive));
                    assert(false);
                }
                assert(spec_holds_lock(locks0, tid, pid, false));
                assert(spec_only_holder(locks0, tid, pid));
            }
            let mut k: usize = 0;
            while k < n
                invariant
                    k <= n,
                    n == self.locks@.len(),
                    locks0 == self.locks@,
                    locks0 == old(self).locks@,
                    locks_wf(locks0),
                    exclusive,
                    !spec_satisfied(locks0, tid, pid, exclusive),
                    spec_holds_lock(locks0, tid, pid, false),
                    spec_only_holder(locks0, tid, pid),
                    exists|m: int|
                        k <= m < locks0.len() && (#[trigger] locks0[m]).pid == pid && locks0[m].tid
                            == tid,
                decreases n - k,
            {
                let l = self.locks[k];
                if l.tid == tid && l.pid == pid {
                    self.locks.set(k, Lock { tid, pid, exclusive: true });
                    proof {
                        let new = self.locks@;
                        assert(new[k as int] == (Lock { tid, pid, exclusive: true }));
                        assert forall|l2: Lock| new.contains(l2) implies (l2 == (Lock {
                            tid,
                            pid,
                            exclusive: true,
                        }) || (locks0.contains(l2) && l2.pid != pid)) by {
                            let m = choose|m: int| 0 <= m < new.len() && new[m] == l2;
                            if m != k as int {
                                assert(locks0[m] == l2);
                                assert(locks0.contains(l2));
                                if l2.pid == pid {
                                    assert(locks0[k as int].pid == pid);
                                    assert(locks0[m].tid == tid);
                                    assert(false);
                                }
                            }
                        }
                        assert forall|l2: Lock| (l2 == (Lock { tid, pid, exclusive: true }) || (
                        locks0.contains(l2) && l2.pid != pid)) implies new.contains(l2) by {
                            if l2 == (Lock { tid, pid, exclusive: true }) {
                                assert(new[k as int] == l2);
                            } else {
                                let m = choose|m: int|
                                    0 <= m < locks0.len() && locks0[m] == l2;
                                assert(new[m] == l2);
                            }
                        }
                        assert(spec_satisfied(new, tid, pid, exclusive)) by {
                            assert(new.contains(new[k as int]));
                        }
                        assert forall|a: int, b: int|
                            0 <= a < new.len() && 0 <= b < new.len() && a != b && (
                            #[trigger] new[a]).pid == (#[trigger] new[b]).pid implies new[a].tid
                            != new[b].tid && !new[a].exclusive && !new[b].exclusive by {
                            if a != k as int && b != k as int {
                                assert(locks0[a] == new[a] && locks0[b] == new[b]);
                            } else {
                                let o = if a == k as int {
                                    b
                                } else {
                                    a
                                };
                                assert(new[o] == locks0[o]);
                                assert(locks0[o].pid == pid);
                                assert(locks0[o].tid == tid);
                                assert(locks0[k as int].pid == pid && locks0[k as int].tid == tid);
                                assert(false);
                            }
                        }
                    }
                    return AcquireOutcome::Granted;
                }
                k = k + 1;
            }
            proof {
                assert(false);
            }
            return vstd::pervasive::unreached();
        }

        let conflict = (exclusive && any_other) || other_exclusive;
        proof {
            assert(conflict == spec_conflicts(locks0, tid, pid, exclusive));
            assert(older == spec_has_older_holder(locks0, tid, pid));
        }
        if conflict {
            if older {
                return AcquireOutcome::Die;
            }
            proof {
                assert forall|l: Lock|
                    #[trigger] locks0.contains(l) && l.pid == pid && l.tid != tid implies l.tid.tid
                    > tid.tid by {
                    let m = choose|m: int| 0 <= m < locks0.len() && locks0[m] == l;
                }
            }
            return AcquireOutcome::Wait;
        }

        // No conflict and no satisfying lock: grant a fresh lock.
        let new_lock = Lock { tid, pid, exclusive };
        self.locks.push(new_lock);
        proof {
            let new = self.locks@;
            assert forall|l2: Lock| new.contains(l2) implies (locks0.contains(l2) || l2
                == new_lock) by {
                let m = choose|m: int| 0 <= m < new.len() && new[m] == l2;
                if m < locks0.len() {
                    assert(locks0[m] == l2);
                }
            }
            assert forall|l2: Lock| (locks0.contains(l2) || l2 == new_lock) implies new.contains(
                l2,
            ) by {
                if locks0.contains(l2) {
                    let m = choose|m: int| 0 <= m < locks0.len() && locks0[m] == l2;
                    assert(new[m] == l2);
                } else {
                    assert(new[locks0.len() as int] == l2);
                }
            }
            assert(new.contains(new[locks0.len() as int]));
            assert(spec_satisfied(new, tid, pid, exclusive));
            assert forall|a: int, b: int|
                0 <= a < new.len() && 0 <= b < new.len() && a != b && (#[trigger] new[a]).pid == (
                #[trigger] new[b]).pid implies new[a].tid != new[b].tid && !new[a].exclusive
                && !new[b].exclusive by {
                if a < locks0.len() && b < locks0.len() {
                } else if a < locks0.len() {
                    assert(new[b] == new_lock);
                    if new[a].pid == pid {
                        assert(locks0.contains(locks0[a]));
                        if locks0[a].tid == tid {
                            assert(spec_satisfied(locks0, tid, pid, exclusive) || (exclusive
                                && spec_holds_lock(locks0, tid, pid, false)));
                            if !spec_satisfied(locks0, tid, pid, exclusive) {
                                assert(own);
                            }
                            assert(false);
                        }
                        assert(locks0[a].tid != tid);
                        assert(!(exclusive || locks0[a].exclusive));
                    }
                } else if b < locks0.len() {
                    assert(new[a] == new_lock);
                    if new[b].pid == pid {
                        assert(locks0.contains(locks0[b]));
                        if locks0[b].tid == tid {
                            if !spec_satisfied(locks0, tid, pid, exclusive) {
                                assert(own);
                            }
                            assert(false);
                        }
                        assert(!(exclusive || locks0[b].exclusive));
                    }
                }
            }
        }
        AcquireOutcome::Granted
    }

    /// Removes every lock the transaction holds. Idempotent.
    pub fn release_locks(&mut self, tid: TransactionId)
        requires
            old(self).wf(),
        ensures
            final(self).wf(),
            forall|l: Lock|
                final(self).locks@.contains(l) <==> (old(self).locks@.contains(l) && l.tid != tid),
    {
        let ghost locks0 = self.locks@;
        let n = self.locks.len();
        let mut kept: Vec<Lock> = Vec::new();
        let mut i: usize = 0;
        while i < n
            invariant
                i <= n,
                n == locks0.len(),
                locks0 == self.locks@,
                old(self).wf(),
                forall|l: Lock|
                    kept@.contains(l) <==> (locks0.take(i as int).contains(l) && l.tid != tid),
                forall|a: int, b: int| 0 <= a < b < kept@.len() ==> kept@[a] != kept@[b],
            decreases n - i,
        {
            let l = self.locks[i];
            let ghost pre = kept@;
            if l.tid != tid {
                proof {
                    // The pushed value is not already kept: a well-formed
                    // table never holds two equal lock values.
                    if kept@.contains(l) {
                        let m = choose|m: int|
                            0 <= m < locks0.take(i as int).len() && locks0.take(i as int)[m] == l;
                        assert(locks0[m] == l && locks0[i as int] == l && m != i as int);
                        assert(false);
                    }
                }
                kept.push(l);
            }
            proof {
                let prefix_old = locks0.take(i as int);
                let prefix_new = locks0.take(i as int + 1);
                assert(prefix_new.drop_last() =~= prefix_old);
                assert(prefix_new.last() == locks0[i as int]);
                assert forall|l2: Lock| kept@.contains(l2) implies (prefix_new.contains(l2)
                    && l2.tid != tid) by {
                    let m = choose|m: int| 0 <= m < kept@.len() && kept@[m] == l2;
                    if m < pre.len() {
                        assert(pre[m] == l2);
                        assert(pre.contains(l2));
                        let m2 = choose|m2: int|
                            0 <= m2 < prefix_old.len() && prefix_old[m2] == l2;
                        assert(prefix_new[m2] == l2);
                    } else {
                        assert(l2 == l);
                        assert(prefix_new[i as int] == l2);
                    }
                }
                assert forall|l2: Lock| prefix_new.contains(l2) && l2.tid != tid implies
                    kept@.contains(l2) by {
                    let m = choose|m: int| 0 <= m < prefix_new.len() && prefix_new[m] == l2;
                    if m < i as int {
                        assert(prefix_old[m] == l2);
                        assert(prefix_old.contains(l2));
                        assert(pre.contains(l2));
                        let m2 = choose|m2: int| 0 <= m2 < pre.len() && pre[m2] == l2;
                        assert(kept@[m2] == l2);
                    } else {
                        assert(l2 == l);
                        assert(kept@[kept@.len() - 1] == l2);
                    }
                }
            }
            i = i + 1;
        }
        proof {
            assert(locks0.take(n as int) =~= locks0);
        }
        self.locks = kept;
        proof {
            let new = self.locks@;
            assert forall|a: int, b: int|
                0 <= a < new.len() && 0 <= b < new.len() && a != b && (#[trigger] new[a]).pid == (
                #[trigger] new[b]).pid implies new[a].tid != new[b].tid && !new[a].exclusive
                && !new[b].exclusive by {
                assert(new.contains(new[a]));
                assert(new.contains(new[b]));
                if a < b {
                    assert(new[a] != new[b]);
                } else {
                    assert(new[b] != new[a]);
                }
                assert(locks0.contains(new[a]) && locks0.contains(new[b]));
                let ia = choose|m: int| 0 <= m < locks0.len() && locks0[m] == new[a];
                let ib = choose|m: int| 0 <= m < locks0.len() && locks0[m] == new[b];
                assert(ia != ib);
            }
        }
    }

    /// The mode of the lock `tid` holds on `pid`, if any.
    pub fn holds_lock(&self, tid: TransactionId, pid: HeapPageId) -> (r: Option<Permission>)
        requires
            self.wf(),
        ensures
            r == Some(Permission::Write) <==> spec_holds_lock(self.locks@, tid, pid, true),
            r == Some(Permission::Read) <==> spec_holds_lock(self.locks@, tid, pid, false),
            r is None <==> (!spec_holds_lock(self.locks@, tid, pid, true) && !spec_holds_lock(
                self.locks@,
                tid,
                pid,
                false,
            )),
    {
        let n = self.locks.len();
        let mut i: usize = 0;
        while i < n
            invariant
                i <= n,
                n == self.locks@.len(),
                self.wf(),
                forall|j: int|
                    0 <= j < i ==> !((#[trigger] self.locks@[j]).tid == tid && self.locks@[j].pid
                        == pid),
            decreases n - i,
        {
            let l = self.locks[i];
            if l.tid == tid && l.pid == pid {
                proof {
                    assert(self.locks@.contains(self.locks@[i as int]));
                    if l.exclusive {
                        if spec_holds_lock(self.locks@, tid, pid, false) {
                            let m = choose|m: int|
                                0 <= m < self.locks@.len() && self.locks@[m] == (Lock {
                                    tid,
                                    pid,
                                    exclusive: false,
                                });
                            assert(false);
                        }
                    } else {
                        if spec_holds_lock(self.locks@, tid, pid, true) {
                            let m = choose|m: int|
                                0 <= m < self.locks@.len() && self.locks@[m] == (Lock {
                                    tid,
                                    pid,
                                    exclusive: true,
                                });
                            assert(false);
                        }
                    }
                }
                if l.exclusive {
                    return Some(Permission::Write);
                } else {
                    return Some(Permission::Read);
                }
            }
            i = i + 1;
        }
        proof {
            if spec_holds_lock(self.locks@, tid, pid, true) {
                let m = choose|m: int|
                    0 <= m < self.locks@.len() && self.locks@[m] == (Lock {
                        tid,
                        pid,
                        exclusive: true,
                    });
                assert(false);
            }
            if spec_holds_lock(self.locks@, tid, pid, false) {
                let m = choose|m: int|
                    0 <= m < self.locks@.len() && self.locks@[m] == (Lock {
                        tid,
                        pid,
                        exclusive: false,
                    });
                assert(false);
            }
        }
        None
    }

    /// The pages on which the transaction holds a lock, without duplicates.
    pub fn get_locked_pages(&self, tid: TransactionId) -> (r: Vec<HeapPageId>)
        requires
            self.wf(),
        ensures
            forall|p: HeapPageId|
                r@.contains(p) <==> exists|i: int|
                    0 <= i < self.locks@.len() && (#[trigger] self.locks@[i]).tid == tid
                        && self.locks@[i].pid == p,
            forall|a: int, b: int| 0 <= a < b < r@.len() ==> r@[a] != r@[b],
    {
        let n = self.locks.len();
        let mut out: Vec<HeapPageId> = Vec::new();
        let mut i: usize = 0;
        while i < n
            invariant
                i <= n,
                n == self.locks@.len(),
                self.wf(),
                forall|p: HeapPageId|
                    out@.contains(p) <==> exists|k: int|
                        0 <= k < i && (#[trigger] self.locks@[k]).tid == tid && self.locks@[k].pid
                            == p,
                forall|a: int, b: int| 0 <= a < b < out@.len() ==> out@[a] != out@[b],
            decreases n - i,
        {
            let l = self.locks[i];
            let ghost pre = out@;
            if l.tid == tid && !contains_pid(&out, l.pid) {
                out.push(l.pid);
            }
            proof {
                assert forall|p: HeapPageId| out@.contains(p) implies (exists|k: int|
                    0 <= k < i + 1 && (#[trigger] self.locks@[k]).tid == tid
                        && self.locks@[k].pid == p) by {
                    let m = choose|m: int| 0 <= m < out@.len() && out@[m] == p;
                    if m < pre.len() {
                        assert(pre[m] == p);
                        assert(pre.contains(p));
                    } else {
                        assert(self.locks@[i as int].tid == tid && self.locks@[i as int].pid == p);
                    }
                }
                assert forall|p: HeapPageId|
                    (exists|k: int|
                        0 <= k < i + 1 && (#[trigger] self.locks@[k]).tid == tid
                            && self.locks@[k].pid == p) implies out@.contains(p) by {
                    let k = choose|k: int|
                        0 <= k < i + 1 && (#[trigger] self.locks@[k]).tid == tid
                            && self.locks@[k].pid == p;
                    if k < i as int {
                        assert(pre.contains(p));
                        let m = choose|m: int| 0 <= m < pre.len() && pre[m] == p;
                        assert(out@[m] == p);
                    } else {
                        if pre.contains(p) {
                            let m = choose|m: int| 0 <= m < pre.len() && pre[m] == p;
                            assert(out@[m] == p);
                        } else {
                            assert(out@[out@.len() - 1] == p);
                        }
                    }
                }
            }
            i = i + 1;
        }
        out
    }
}

/// True exactly when the vector holds the page id.
fn contains_pid(v: &Vec<HeapPageId>, p: HeapPageId) -> (b: bool)
    ensures
        b == v@.contains(p),
{
    let n = v.len();
    let mut i: usize = 0;
    while i < n
        invariant
            i <= n,
            n == v@.len(),
            forall|j: int| 0 <= j < i ==> v@[j] != p,
        decreases n - i,
    {
        if v[i] == p {
            proof {
                assert(v@.contains(v@[i as int]));
            }
            return true;
        }
        i = i + 1;
    }
    proof {
        if v@.contains(p) {
            let m = choose|m: int| 0 <= m < v@.len() && v@[m] == p;
            assert(false);
        }
    }
    false
}

} // verus!
