//! The buffer pool: the in-memory cache of pages, the point of integration
//! for transactional locking, dirty tracking, and commit/abort.
//!
//! Every page access goes through the lock manager. On commit, the dirty
//! pages of the transaction are written through their heap files, cleaned,
//! and their before-images refreshed; on abort, they are restored in place
//! from their before-images. Either way all the transaction's locks are
//! released afterwards.

use vstd::prelude::*;

verus! {

use crate::Error;
use crate::catalog::Catalog;
use crate::catalog::spec_id_index;
use crate::catalog::lemma_id_index_props;
use crate::catalog::lemma_id_index_same;
use crate::heap_page::HeapPage;
use crate::heap_page::HeapPageId;
use crate::heap_page::Permission;
use crate::heap_page::spec_decode_page;
use crate::heap_page::spec_encode_page;
use crate::lock_manager::AcquireOutcome;
use crate::lock_manager::Lock;
use crate::lock_manager::LockManager;
use crate::lock_manager::spec_conflicts;
use crate::lock_manager::spec_has_older_holder;
use crate::lock_manager::spec_holds_lock;
use crate::lock_manager::spec_only_holder;
use crate::lock_manager::spec_satisfied;
use crate::transaction::TransactionId;
use crate::tuple::Tuple;
use crate::tuple::RecordId;
use crate::heap_page::spec_slot_used;

/// Fixed size, in bytes, of every page on disk.
pub const PAGE_SIZE: usize = 4096;

/// Declared capacity of the buffer pool, in pages. The cache does not evict,
/// so the capacity is advisory.
pub const DEFAULT_PAGES: usize = 50;

/// The index of the first cached page with the given id, or the cache size.
pub open spec fn spec_cache_index_from(cache: Seq<HeapPage>, pid: HeapPageId, i: int) -> int
    decreases cache.len() - i,
{
    if i < 0 || i >= cache.len() {
        cache.len() as int
    } else if cache[i].pid == pid {
        i
    } else {
        spec_cache_index_from(cache, pid, i + 1)
    }
}

/// The index of the cached page with the given id, or the cache size.
pub open spec fn spec_cache_index(cache: Seq<HeapPage>, pid: HeapPageId) -> int {
    spec_cache_index_from(cache, pid, 0)
}

pub proof fn lemma_cache_index_props(cache: Seq<HeapPage>, pid: HeapPageId, i: int)
    requires
        0 <= i <= cache.len(),
    ensures
        i <= spec_cache_index_from(cache, pid, i) <= cache.len(),
        spec_cache_index_from(cache, pid, i) < cache.len() ==> cache[spec_cache_index_from(
            cache,
            pid,
            i,
        )].pid == pid,
        forall|j: int| i <= j < spec_cache_index_from(cache, pid, i) ==> cache[j].pid != pid,
        spec_cache_index_from(cache, pid, i) == cache.len() ==> forall|j: int|
            i <= j < cache.len() ==> cache[j].pid != pid,
    decreases cache.len() - i,
{
    if i < cache.len() && cache[i].pid != pid {
        lemma_cache_index_props(cache, pid, i + 1);
    }
}

/// Cache lookup is unchanged when every cached page keeps its id.
pub proof fn lemma_cache_index_same(
    cache0: Seq<HeapPage>,
    cache1: Seq<HeapPage>,
    pid: HeapPageId,
    i: int,
)
    requires
        0 <= i <= cache0.len(),
        cache1.len() == cache0.len(),
        forall|j: int| 0 <= j < cache0.len() ==> cache1[j].pid == cache0[j].pid,
    ensures
        spec_cache_index_from(cache1, pid, i) == spec_cache_index_from(cache0, pid, i),
    decreases cache0.len() - i,
{
    if i < cache0.len() && cache0[i].pid != pid {
        lemma_cache_index_same(cache0, cache1, pid, i + 1);
    }
}

/// Two pages agree on everything the contracts speak of: id, schema,
/// content, record ids, before-image and dirty mark.
pub open spec fn page_eqv(a: HeapPage, b: HeapPage) -> bool {
    &&& a.pid == b.pid
    &&& a.td.types@ == b.td.types@
    &&& a.td.fields@ == b.td.fields@
    &&& a.header@ == b.header@
    &&& a.tuples@.len() == b.tuples@.len()
    &&& (forall|i: int|
        0 <= i < a.tuples@.len() ==> (#[trigger] a.tuples@[i]).spec_fields()
            == b.tuples@[i].spec_fields() && a.tuples@[i].rid == b.tuples@[i].rid)
    &&& a.spec_content() == b.spec_content()
    &&& a.old_data@ == b.old_data@
    &&& a.dirtied_by == b.dirtied_by
}

/// The request will be granted at once: it is already satisfied, or it is
/// an in-place upgrade, or nothing conflicts with it.
pub open spec fn spec_lock_grantable(
    locks: Seq<Lock>,
    tid: TransactionId,
    pid: HeapPageId,
    exclusive: bool,
) -> bool {
    ||| spec_satisfied(locks, tid, pid, exclusive)
    ||| (exclusive && spec_holds_lock(locks, tid, pid, false) && spec_only_holder(
        locks,
        tid,
        pid,
    ))
    ||| !spec_conflicts(locks, tid, pid, exclusive)
}

/// What aborting `tid` does to the pool: every cached page the transaction
/// dirtied is restored in place from its before-image and cleaned, every
/// other cached page is untouched, and every lock of the transaction is
/// released.
pub open spec fn abort_effects(pre: BufferPool, post: BufferPool, tid: TransactionId) -> bool {
    &&& post.cache@.len() == pre.cache@.len()
    &&& (forall|i: int|
        0 <= i < pre.cache@.len() ==> {
            let p0 = (#[trigger] pre.cache@[i]);
            let p1 = post.cache@[i];
            if p0.dirtied_by == Some(tid) {
                &&& p1.pid == p0.pid
                &&& p1.td == p0.td
                &&& p1.old_data == p0.old_data
                &&& p1.dirtied_by is None
                &&& p1.spec_content() == spec_decode_page(p0.old_data@, p0.td.types@).unwrap()
            } else {
                p1 == p0
            }
        })
    &&& (forall|l: Lock|
        post.lock_manager.locks@.contains(l) <==> (pre.lock_manager.locks@.contains(l) && l.tid
            != tid))
    &&& post.num_pages == pre.num_pages
}

/// One cached page after its dirtying transaction committed: the contents
/// are kept, the dirty mark is cleared, and the fresh encoding became the
/// before-image.
pub open spec fn committed_entry(p0: HeapPage, p1: HeapPage) -> bool {
    &&& p1.pid == p0.pid
    &&& p1.td == p0.td
    &&& p1.header == p0.header
    &&& p1.tuples == p0.tuples
    &&& p1.dirtied_by is None
    &&& p1.old_data@ == spec_encode_page(p0.spec_content(), p0.td.types@)
}

/// What committing `tid` does to the cached pages: every page the
/// transaction dirtied keeps its contents, is cleaned, and gets the fresh
/// encoding as its before-image; every other cached page is untouched.
pub open spec fn commit_cache_effects(pre: BufferPool, post: BufferPool, tid: TransactionId) -> bool {
    &&& post.cache@.len() == pre.cache@.len()
    &&& (forall|i: int|
        0 <= i < pre.cache@.len() ==> {
            let p0 = (#[trigger] pre.cache@[i]);
            let p1 = post.cache@[i];
            if p0.dirtied_by == Some(tid) {
                committed_entry(p0, p1)
            } else {
                p1 == p0
            }
        })
}

/// Two different pages occupy disjoint byte ranges of a file image.
pub proof fn lemma_page_ranges_disjoint(pn1: int, pn2: int)
    requires
        pn1 != pn2,
        pn1 >= 0,
        pn2 >= 0,
    ensures
        (pn1 + 1) * PAGE_SIZE <= pn2 * PAGE_SIZE || (pn2 + 1) * PAGE_SIZE <= pn1 * PAGE_SIZE,
{
    if pn1 < pn2 {
        assert((pn1 + 1) * PAGE_SIZE <= pn2 * PAGE_SIZE) by (nonlinear_arith)
            requires
                pn1 + 1 <= pn2,
        ;
    } else {
        assert((pn2 + 1) * PAGE_SIZE <= pn1 * PAGE_SIZE) by (nonlinear_arith)
            requires
                pn2 + 1 <= pn1,
        ;
    }
}

/// One cached page lies within its table's file image and carries the
/// table's schema, whenever its table is registered.
pub open spec fn consistent_entry(p: HeapPage, catalog: Catalog) -> bool {
    let j = spec_id_index(catalog.files@, p.pid.table_id);
    j < catalog.files@.len() ==> {
        &&& (p.pid.page_number + 1) * PAGE_SIZE <= catalog.files@[j].data@.len()
        &&& p.td.types@ == catalog.files@[j].td.types@
    }
}

/// How a catalog relates to its old self after page reads: the same tables
/// under the same names with the same schemas and ids, each file image
/// intact except possibly extended.
pub open spec fn catalog_growth_preserved(c0: Catalog, c1: Catalog) -> bool {
    &&& c1.names@ == c0.names@
    &&& c1.files@.len() == c0.files@.len()
    &&& (forall|j: int|
        0 <= j < c0.files@.len() ==> {
            let f0 = (#[trigger] c0.files@[j]);
            let f1 = c1.files@[j];
            &&& f1.id == f0.id
            &&& f1.td == f0.td
            &&& f1.data@.len() >= f0.data@.len()
            &&& f1.data@.take(f0.data@.len() as int) == f0.data@
        })
}

/// When a page request fails with `LockWait` or `TransactionAborted`, the
/// blocking lock is still held afterwards: a lock of another transaction on
/// the same page (strictly older, in the aborted case).
pub proof fn lemma_err_witness(
    pre: BufferPool,
    post: BufferPool,
    tid: TransactionId,
    pid: HeapPageId,
    exclusive: bool,
    e: Error,
)
    requires
        pre.wf(),
        ({
            let locks = pre.lock_manager.locks@;
            if spec_lock_grantable(locks, tid, pid, exclusive) {
                e == Error::DecodeError
            } else if spec_conflicts(locks, tid, pid, exclusive) && spec_has_older_holder(
                locks,
                tid,
                pid,
            ) {
                e == Error::TransactionAborted(tid.tid) && (forall|l: Lock|
                    post.lock_manager.locks@.contains(l) <==> (
                    pre.lock_manager.locks@.contains(l) && l.tid != tid))
            } else {
                e == Error::LockWait && post.lock_manager.locks@ == pre.lock_manager.locks@
            }
        }),
    ensures
        e == Error::LockWait ==> exists|l: Lock|
            #[trigger] post.lock_manager.locks@.contains(l) && l.tid != tid && l.pid.table_id
                == pid.table_id,
        e == Error::TransactionAborted(tid.tid) ==> exists|l: Lock|
            #[trigger] post.lock_manager.locks@.contains(l) && l.tid.tid < tid.tid
                && l.pid.table_id == pid.table_id,
{
    let locks = pre.lock_manager.locks@;
    if e == Error::LockWait && !spec_lock_grantable(locks, tid, pid, exclusive) {
        assert(spec_conflicts(locks, tid, pid, exclusive));
        let m = choose|m: int|
            0 <= m < locks.len() && (#[trigger] locks[m]).pid == pid && locks[m].tid != tid && (
            exclusive || locks[m].exclusive);
        assert(locks.contains(locks[m]));
        assert(post.lock_manager.locks@.contains(locks[m]));
    }
    if e == Error::TransactionAborted(tid.tid) && !spec_lock_grantable(
        locks,
        tid,
        pid,
        exclusive,
    ) && spec_has_older_holder(locks, tid, pid) {
        let m = choose|m: int|
            0 <= m < locks.len() && (#[trigger] locks[m]).pid == pid && locks[m].tid.tid
                < tid.tid;
        assert(locks.contains(locks[m]));
        assert(post.lock_manager.locks@.contains(locks[m]));
    }
}

/// A catalog preserves itself.
pub proof fn lemma_growth_preserved_refl(c: Catalog)
    ensures
        catalog_growth_preserved(c, c),
{
    assert forall|j: int|
        0 <= j < c.files@.len() implies (#[trigger] c.files@[j]).data@.take(
        c.files@[j].data@.len() as int,
    ) == c.files@[j].data@ by {
        assert(c.files@[j].data@.take(c.files@[j].data@.len() as int) =~= c.files@[j].data@);
    }
}

/// Growth-preservation composes.
pub proof fn lemma_growth_preserved_trans(a: Catalog, b: Catalog, c: Catalog)
    requires
        catalog_growth_preserved(a, b),
        catalog_growth_preserved(b, c),
    ensures
        catalog_growth_preserved(a, c),
{
    assert forall|j: int|
        0 <= j < a.files@.len() implies (#[trigger] c.files@[j]).data@.take(
        a.files@[j].data@.len() as int,
    ) == a.files@[j].data@ by {
        assert(b.files@[j].data@.take(a.files@[j].data@.len() as int) == a.files@[j].data@);
        assert(c.files@[j].data@.take(b.files@[j].data@.len() as int) == b.files@[j].data@);
        assert forall|m: int| 0 <= m < a.files@[j].data@.len() implies c.files@[j].data@[m]
            == a.files@[j].data@[m] by {
            assert(b.files@[j].data@.take(a.files@[j].data@.len() as int)[m]
                == a.files@[j].data@[m]);
            assert(c.files@[j].data@.take(b.files@[j].data@.len() as int)[m]
                == b.files@[j].data@[m]);
        }
        assert(c.files@[j].data@.take(a.files@[j].data@.len() as int) =~= a.files@[j].data@);
    }
}

/// Cache of pages kept in memory, with the lock manager that mediates every
/// access.
pub struct BufferPool {
    pub cache: Vec<HeapPage>,
    pub lock_manager: LockManager,
    pub num_pages: usize,
}

impl BufferPool {
    /// The lock table is consistent, cached pages are well formed with
    /// distinct ids, and a dirty page is always exclusively locked by the
    /// transaction that dirtied it.
    pub open spec fn wf(self) -> bool {
        &&& self.lock_manager.wf()
        &&& (forall|i: int| 0 <= i < self.cache@.len() ==> (#[trigger] self.cache@[i]).wf())
        &&& (forall|a: int, b: int|
            0 <= a < b < self.cache@.len() ==> self.cache@[a].pid != self.cache@[b].pid)
        &&& (forall|i: int|
            0 <= i < self.cache@.len() ==> ((#[trigger] self.cache@[i]).dirtied_by matches Some(t)
                ==> spec_holds_lock(self.lock_manager.locks@, t, self.cache@[i].pid, true)))
    }

    /// Every cached page of a registered table lies within its table's file
    /// image and carries the table's schema.
    pub open spec fn consistent_with(self, catalog: Catalog) -> bool {
        forall|i: int|
            0 <= i < self.cache@.len() ==> consistent_entry(#[trigger] self.cache@[i], catalog)
    }

    /// An empty pool with the advisory default capacity.
    pub fn new() -> (bp: Self)
        ensures
            bp.wf(),
            bp.cache@.len() == 0,
            bp.lock_manager.locks@.len() == 0,
            bp.num_pages == DEFAULT_PAGES,
    {
        BufferPool { cache: Vec::new(), lock_manager: LockManager::new(), num_pages: DEFAULT_PAGES }
    }

    /// The declared capacity of the pool, in pages.
    pub fn get_num_pages(&self) -> (n: usize)
        ensures
            n == self.num_pages,
    {
        self.num_pages
    }

    /// The cache index of the page, if it is cached.
    fn cache_index_of(&self, pid: HeapPageId) -> (r: Option<usize>)
        ensures
            ({
                let idx = spec_cache_index(self.cache@, pid);
                &&& (r is Some <==> idx < self.cache@.len())
                &&& (r matches Some(x) ==> x as int == idx)
            }),
    {
        let n = self.cache.len();
        let mut i: usize = 0;
        while i < n
            invariant
                i <= n,
                n == self.cache@.len(),
                spec_cache_index_from(self.cache@, pid, 0) == spec_cache_index_from(
                    self.cache@,
                    pid,
                    i as int,
                ),
            decreases n - i,
        {
            if self.cache[i].get_id() == pid {
                return Some(i);
            }
            i = i + 1;
        }
        None
    }

    /// Acquires the appropriate lock through the lock manager and returns a
    /// copy of the page: the cached page when present, else the page read
    /// from the owning table's file (growing the file if needed) and
    /// installed in the cache.
    ///
    /// WAIT-DIE failures surface as errors: when a strictly older
    /// transaction holds a conflicting lock, this transaction is aborted
    /// first and `TransactionAborted` returned; when every conflicting
    /// holder is strictly younger, `LockWait` asks the caller to retry
    /// after the holders release. `DecodeError` reports malformed stored
    /// bytes; the lock stays held in that case.
    #[verifier::rlimit(100)]
    pub fn get_page(
        &mut self,
        catalog: &mut Catalog,
        tid: TransactionId,
        pid: HeapPageId,
        perm: Permission,
    ) -> (r: Result<HeapPage, Error>)
        requires
            old(self).wf(),
            old(catalog).wf(),
            old(self).consistent_with(*old(catalog)),
            (pid.page_number + 1) * PAGE_SIZE <= usize::MAX,
            spec_cache_index(old(self).cache@, pid) < old(self).cache@.len() || spec_id_index(
                old(catalog).files@,
                pid.table_id,
            ) < old(catalog).files@.len(),
        ensures
            final(self).wf(),
            final(catalog).wf(),
            final(self).consistent_with(*final(catalog)),
            final(self).num_pages == old(self).num_pages,
            r matches Ok(p) ==> p.wf(),
            ({
                let locks = old(self).lock_manager.locks@;
                let exclusive = (perm == Permission::Write);
                if spec_lock_grantable(locks, tid, pid, exclusive) {
                    &&& spec_satisfied(final(self).lock_manager.locks@, tid, pid, exclusive)
                    &&& (forall|l: Lock|
                        l.pid != pid || l.tid != tid ==> (
                        final(self).lock_manager.locks@.contains(l) <==> locks.contains(l)))
                    &&& catalog_growth_preserved(*old(catalog), *final(catalog))
                    &&& ({
                        let ci0 = spec_cache_index(old(self).cache@, pid);
                        if ci0 < old(self).cache@.len() {
                            &&& (r matches Ok(p) && page_eqv(p, old(self).cache@[ci0]))
                            &&& final(self).cache@ == old(self).cache@
                            &&& *final(catalog) == *old(catalog)
                        } else {
                            let j = spec_id_index(old(catalog).files@, pid.table_id);
                            let f1 = final(catalog).files@[j];
                            let slice = f1.data@.subrange(
                                pid.page_number as int * PAGE_SIZE,
                                (pid.page_number + 1) as int * PAGE_SIZE,
                            );
                            &&& j < old(catalog).files@.len()
                            &&& crate::heap_file::file_grown(
                                old(catalog).files@[j],
                                f1,
                                pid.page_number as int,
                            )
                            &&& (forall|j2: int|
                                0 <= j2 < old(catalog).files@.len() && j2 != j
                                    ==> final(catalog).files@[j2] == old(catalog).files@[j2])
                            &&& (if spec_decode_page(slice, f1.td.types@) is Some {
                                &&& (r matches Ok(p) && {
                                    &&& page_eqv(p, final(self).cache@.last())
                                    &&& p.pid == pid
                                    &&& p.td.types@ == f1.td.types@
                                    &&& p.spec_content() == spec_decode_page(
                                        slice,
                                        f1.td.types@,
                                    ).unwrap()
                                    &&& p.old_data@ == slice
                                    &&& p.dirtied_by is None
                                })
                                &&& final(self).cache@.len() == old(self).cache@.len() + 1
                                &&& final(self).cache@.take(old(self).cache@.len() as int) == old(
                                    self,
                                ).cache@
                            } else {
                                &&& r == Err::<HeapPage, Error>(Error::DecodeError)
                                &&& final(self).cache@ == old(self).cache@
                            })
                        }
                    })
                    &&& (r is Ok ==> {
                        let ci = spec_cache_index(final(self).cache@, pid);
                        &&& ci < final(self).cache@.len()
                        &&& (r matches Ok(p) ==> page_eqv(p, final(self).cache@[ci]))
                    })
                } else if spec_conflicts(locks, tid, pid, exclusive) && spec_has_older_holder(
                    locks,
                    tid,
                    pid,
                ) {
                    &&& r == Err::<HeapPage, Error>(Error::TransactionAborted(tid.tid))
                    &&& abort_effects(*old(self), *final(self), tid)
                    &&& *final(catalog) == *old(catalog)
                    &&& (forall|i: int|
                        0 <= i < final(self).cache@.len() ==> (
                        #[trigger] final(self).cache@[i]).dirtied_by != Some(tid))
                } else {
                    &&& r == Err::<HeapPage, Error>(Error::LockWait)
                    &&& final(self).cache@ == old(self).cache@
                    &&& final(self).lock_manager.locks@ == locks
                    &&& *final(catalog) == *old(catalog)
                    &&& (forall|l: Lock|
                        #[trigger] locks.contains(l) && l.pid == pid && l.tid != tid ==> l.tid.tid
                            > tid.tid)
                }
            }),
    {
        let ghost locks0 = self.lock_manager.locks@;
        let exclusive = perm == Permission::Write;
        let outcome = self.lock_manager.acquire_lock(tid, pid, exclusive);
        match outcome {
            AcquireOutcome::Die => {
                self.abort_transaction(tid);
                proof {
                    assert forall|i: int| 0 <= i < self.cache@.len() implies consistent_entry(
                        #[trigger] self.cache@[i],
                        *catalog,
                    ) by {
                        let p0 = old(self).cache@[i];
                        assert(consistent_entry(p0, *old(catalog)));
                        if p0.dirtied_by == Some(tid) {
                            assert(self.cache@[i].pid == p0.pid && self.cache@[i].td == p0.td);
                        } else {
                            assert(self.cache@[i] == p0);
                        }
                    }
                }
                return Err(Error::TransactionAborted(tid.get_tid()));
            },
            AcquireOutcome::Wait => {
                return Err(Error::LockWait);
            },
            AcquireOutcome::Granted => {},
        }
        proof {
            assert(spec_lock_grantable(locks0, tid, pid, exclusive));
            if !spec_satisfied(locks0, tid, pid, exclusive) && !(exclusive && spec_holds_lock(
                locks0,
                tid,
                pid,
                false,
            ) && spec_only_holder(locks0, tid, pid)) {
                assert forall|l: Lock| l.pid != pid || l.tid != tid implies (
                self.lock_manager.locks@.contains(l) <==> locks0.contains(l)) by {
                    if l == (Lock { tid, pid, exclusive }) {
                    }
                }
            } else if !spec_satisfied(locks0, tid, pid, exclusive) {
                assert forall|l: Lock| l.pid != pid || l.tid != tid implies (
                self.lock_manager.locks@.contains(l) <==> locks0.contains(l)) by {
                    if l.pid == pid {
                        if locks0.contains(l) {
                            let m = choose|m: int| 0 <= m < locks0.len() && locks0[m] == l;
                            assert(l.tid == tid);
                            assert(false);
                        }
                        if self.lock_manager.locks@.contains(l) {
                            assert(l == (Lock { tid, pid, exclusive: true }) || (locks0.contains(l)
                                && l.pid != pid));
                            assert(false);
                        }
                    }
                }
            }
        }
        match self.cache_index_of(pid) {
            Some(i) => {
                proof {
                    lemma_cache_index_props(self.cache@, pid, 0);
                    assert forall|j: int|
                        0 <= j < old(catalog).files@.len() implies (
                    #[trigger] old(catalog).files@[j]).data@.take(
                        old(catalog).files@[j].data@.len() as int,
                    ) == old(catalog).files@[j].data@ by {
                        assert(old(catalog).files@[j].data@.take(
                            old(catalog).files@[j].data@.len() as int,
                        ) =~= old(catalog).files@[j].data@);
                    }
                }
                let p = self.cache[i].clone();
                Ok(p)
            },
            None => {
                proof {
                    lemma_cache_index_props(self.cache@, pid, 0);
                }
                self.load_and_cache(catalog, pid)
            },
        }
    }

    /// Reads the page from its table's file image (growing the image when
    /// the page lies past the end) and installs it in the cache. The lock
    /// manager is untouched.
    fn load_and_cache(&mut self, catalog: &mut Catalog, pid: HeapPageId) -> (r: Result<
        HeapPage,
        Error,
    >)
        requires
            old(self).wf(),
            old(catalog).wf(),
            old(self).consistent_with(*old(catalog)),
            (pid.page_number + 1) * PAGE_SIZE <= usize::MAX,
            spec_cache_index(old(self).cache@, pid) >= old(self).cache@.len(),
            spec_id_index(old(catalog).files@, pid.table_id) < old(catalog).files@.len(),
        ensures
            final(self).wf(),
            final(catalog).wf(),
            final(self).consistent_with(*final(catalog)),
            final(self).num_pages == old(self).num_pages,
            final(self).lock_manager == old(self).lock_manager,
            catalog_growth_preserved(*old(catalog), *final(catalog)),
            r matches Ok(p) ==> p.wf(),
            ({
                let j = spec_id_index(old(catalog).files@, pid.table_id);
                let f1 = final(catalog).files@[j];
                let slice = f1.data@.subrange(
                    pid.page_number as int * PAGE_SIZE,
                    (pid.page_number + 1) as int * PAGE_SIZE,
                );
                &&& crate::heap_file::file_grown(
                    old(catalog).files@[j],
                    f1,
                    pid.page_number as int,
                )
                &&& (forall|j2: int|
                    0 <= j2 < old(catalog).files@.len() && j2 != j ==> final(catalog).files@[j2]
                        == old(catalog).files@[j2])
                &&& (if spec_decode_page(slice, f1.td.types@) is Some {
                    &&& (r matches Ok(p) && {
                        &&& page_eqv(p, final(self).cache@.last())
                        &&& p.pid == pid
                        &&& p.td.types@ == f1.td.types@
                        &&& p.spec_content() == spec_decode_page(slice, f1.td.types@).unwrap()
                        &&& p.old_data@ == slice
                        &&& p.dirtied_by is None
                    })
                    &&& final(self).cache@.len() == old(self).cache@.len() + 1
                    &&& final(self).cache@.take(old(self).cache@.len() as int) == old(self).cache@
                } else {
                    &&& r == Err::<HeapPage, Error>(Error::DecodeError)
                    &&& final(self).cache@ == old(self).cache@
                })
            }),
            (r is Ok ==> {
                let ci = spec_cache_index(final(self).cache@, pid);
                &&& ci < final(self).cache@.len()
                &&& (r matches Ok(p) ==> page_eqv(p, final(self).cache@[ci]))
            }),
    {
                proof {
                    lemma_cache_index_props(self.cache@, pid, 0);
                    lemma_id_index_props(catalog.files@, pid.table_id, 0);
                }
                let ti = match catalog.table_index_of(pid.get_table_id()) {
                    Some(ti) => ti,
                    None => {
                        proof {
                            assert(false);
                        }
                        vstd::pervasive::unreached()
                    },
                };
                let ghost files0 = catalog.files@;
                let file = catalog.file_at_mut(ti);
                let res = file.read_page(&pid);
                proof {
                    assert(files0 == old(catalog).files@);
                    assert(ti as int == spec_id_index(files0, pid.table_id));
                    assert(catalog.files@.len() == files0.len());
                    assert(catalog.files@[ti as int].id == files0[ti as int].id);
                    crate::catalog::lemma_id_index_same(
                        files0,
                        catalog.files@,
                        pid.table_id,
                        0,
                    );
                    assert(spec_id_index(catalog.files@, pid.table_id) == ti as int);
                    assert forall|j2: int|
                        0 <= j2 < files0.len() && j2 != ti as int implies catalog.files@[j2]
                        == files0[j2] by {}
                    assert forall|k: int| 0 <= k < catalog.files@.len() implies (
                    #[trigger] catalog.files@[k]).wf() by {
                        if k != ti as int {
                            assert(catalog.files@[k] == files0[k]);
                        }
                    }
                    assert(catalog.spec_names() =~= old(catalog).spec_names());
                    assert forall|a: int, b: int|
                        0 <= a < b < catalog.names@.len() implies catalog.spec_names()[a]
                        != catalog.spec_names()[b] by {
                        assert(old(catalog).spec_names()[a] != old(catalog).spec_names()[b]);
                    }
                    assert forall|j: int|
                        0 <= j < files0.len() implies (#[trigger] catalog.files@[j]).id
                        == files0[j].id && catalog.files@[j].td == files0[j].td
                        && catalog.files@[j].data@.len() >= files0[j].data@.len() by {
                        if j != ti as int {
                            assert(catalog.files@[j] == files0[j]);
                        }
                    }
                    assert forall|j: int|
                        0 <= j < files0.len() implies {
                            let f0 = (#[trigger] old(catalog).files@[j]);
                            let f1 = catalog.files@[j];
                            &&& f1.id == f0.id
                            &&& f1.td == f0.td
                            &&& f1.data@.len() >= f0.data@.len()
                            &&& f1.data@.take(f0.data@.len() as int) == f0.data@
                        } by {
                        if j != ti as int {
                            assert(catalog.files@[j] == files0[j]);
                            assert(catalog.files@[j].data@.take(files0[j].data@.len() as int)
                                =~= files0[j].data@);
                        } else {
                            assert(catalog.files@[j].data@.take(files0[j].data@.len() as int)
                                =~= files0[j].data@);
                        }
                    }
                }
                match res {
                    Ok(page) => {
                        let p = page.clone();
                        let ghost cache0 = self.cache@;
                        let ghost gpage = page;
                        self.cache.push(page);
                        proof {
                            assert(self.cache@.take(cache0.len() as int) =~= cache0);
                            assert(self.cache@[cache0.len() as int] == gpage);
                            assert(gpage.pid == pid);
                            lemma_cache_index_props(self.cache@, pid, 0);
                            let ci = spec_cache_index(self.cache@, pid);
                            assert forall|j: int| 0 <= j < cache0.len() implies self.cache@[j].pid
                                != pid by {
                                assert(self.cache@[j] == cache0[j]);
                            }
                            if ci < cache0.len() {
                                assert(self.cache@[ci].pid == pid);
                                assert(false);
                            }
                            if ci == self.cache@.len() {
                                assert(self.cache@[cache0.len() as int].pid != pid);
                                assert(false);
                            }
                            assert(ci == cache0.len() as int);
                            assert forall|a: int, b: int|
                                0 <= a < b < self.cache@.len() implies self.cache@[a].pid
                                != self.cache@[b].pid by {
                                if b < cache0.len() {
                                    assert(self.cache@[a] == cache0[a] && self.cache@[b]
                                        == cache0[b]);
                                } else {
                                    assert(self.cache@[b].pid == pid);
                                    if a < cache0.len() {
                                        assert(self.cache@[a] == cache0[a]);
                                    }
                                }
                            }
                            assert forall|k: int| 0 <= k < self.cache@.len() implies (
                            #[trigger] self.cache@[k]).wf() by {
                                if k < cache0.len() {
                                    assert(self.cache@[k] == cache0[k]);
                                }
                            }
                            assert forall|k: int|
                                0 <= k < self.cache@.len() && (
                                #[trigger] self.cache@[k]).dirtied_by is Some implies
                                spec_holds_lock(
                                self.lock_manager.locks@,
                                self.cache@[k].dirtied_by.unwrap(),
                                self.cache@[k].pid,
                                true,
                            ) by {
                                if k < cache0.len() {
                                    assert(self.cache@[k] == cache0[k]);
                                }
                            }
                            assert forall|k: int|
                                0 <= k < self.cache@.len() implies consistent_entry(
                                self.cache@[k],
                                *catalog,
                            ) by {
                                if k < cache0.len() {
                                    assert(self.cache@[k] == cache0[k]);
                                    let p2 = cache0[k];
                                    assert(consistent_entry(p2, *old(catalog)));
                                    lemma_id_index_props(files0, p2.pid.table_id, 0);
                                    lemma_id_index_same(
                                        files0,
                                        catalog.files@,
                                        p2.pid.table_id,
                                        0,
                                    );
                                    let j2 = spec_id_index(files0, p2.pid.table_id);
                                    if 0 <= j2 < files0.len() {
                                        assert(catalog.files@[j2].td == files0[j2].td);
                                        assert(catalog.files@[j2].data@.len()
                                            >= files0[j2].data@.len());
                                    }
                                } else {
                                    assert(self.cache@[k] == gpage);
                                    lemma_id_index_same(files0, catalog.files@, pid.table_id, 0);
                                    let j = spec_id_index(catalog.files@, pid.table_id);
                                    assert(j == ti as int);
                                    assert((pid.page_number + 1) * PAGE_SIZE
                                        <= catalog.files@[j].data@.len());
                                    assert(gpage.td.types@ == catalog.files@[j].td.types@);
                                }
                            }
                        }
                        Ok(p)
                    },
                    Err(e) => {
                        proof {
                            assert forall|k: int|
                                0 <= k < self.cache@.len() implies consistent_entry(
                                self.cache@[k],
                                *catalog,
                            ) by {
                                let p2 = self.cache@[k];
                                assert(consistent_entry(p2, *old(catalog)));
                                lemma_id_index_props(files0, p2.pid.table_id, 0);
                                lemma_id_index_same(files0, catalog.files@, p2.pid.table_id, 0);
                                let j2 = spec_id_index(files0, p2.pid.table_id);
                                if 0 <= j2 < files0.len() {
                                    assert(catalog.files@[j2].td == files0[j2].td);
                                    assert(catalog.files@[j2].data@.len()
                                        >= files0[j2].data@.len());
                                }
                            }
                        }
                        Err(e)
                    },
                }
    }

    /// Reverts the transaction: every cached page it dirtied is restored in
    /// place from its before-image and cleaned, and all its locks are
    /// released.
    pub fn abort_transaction(&mut self, tid: TransactionId)
        requires
            old(self).wf(),
        ensures
            final(self).wf(),
            abort_effects(*old(self), *final(self), tid),
            forall|i: int|
                0 <= i < final(self).cache@.len() ==> (#[trigger] final(self).cache@[i]).dirtied_by
                    != Some(tid),
    {
        let n = self.cache.len();
        let mut i: usize = 0;
        while i < n
            invariant
                i <= n,
                n == old(self).cache@.len(),
                old(self).wf(),
                self.lock_manager == old(self).lock_manager,
                self.num_pages == old(self).num_pages,
                self.cache@.len() == n,
                forall|k: int|
                    0 <= k < n ==> {
                        let p0 = (#[trigger] old(self).cache@[k]);
                        let p1 = self.cache@[k];
                        if k < i && p0.dirtied_by == Some(tid) {
                            &&& p1.pid == p0.pid
                            &&& p1.td == p0.td
                            &&& p1.old_data == p0.old_data
                            &&& p1.dirtied_by is None
                            &&& p1.spec_content() == spec_decode_page(
                                p0.old_data@,
                                p0.td.types@,
                            ).unwrap()
                            &&& p1.wf()
                        } else {
                            p1 == p0
                        }
                    },
            decreases n - i,
        {
            let is_mine = match self.cache[i].dirtied_by {
                Some(t) => t.get_tid() == tid.get_tid(),
                None => false,
            };
            if is_mine {
                proof {
                    assert(self.cache@[i as int] == old(self).cache@[i as int]);
                    assert(old(self).cache@[i as int].wf());
                }
                let page = &mut self.cache[i];
                page.restore_before_image();
                page.mark_dirty(false, tid);
            }
            i = i + 1;
        }
        self.lock_manager.release_locks(tid);
        proof {
            assert forall|k: int| 0 <= k < self.cache@.len() implies (#[trigger] self.cache@[k]).pid
                == old(self).cache@[k].pid by {
                if !(old(self).cache@[k].dirtied_by == Some(tid)) {
                    assert(self.cache@[k] == old(self).cache@[k]);
                }
            }
            assert forall|a: int, b: int|
                0 <= a < b < self.cache@.len() implies self.cache@[a].pid != self.cache@[b].pid by {
                assert(old(self).cache@[a].pid != old(self).cache@[b].pid);
            }
            assert forall|k: int| 0 <= k < self.cache@.len() implies (
            #[trigger] self.cache@[k]).wf() by {
                if !(old(self).cache@[k].dirtied_by == Some(tid)) {
                    assert(self.cache@[k] == old(self).cache@[k]);
                }
            }
            assert forall|k: int|
                0 <= k < self.cache@.len() && (#[trigger] self.cache@[k]).dirtied_by is Some
                implies spec_holds_lock(
                self.lock_manager.locks@,
                self.cache@[k].dirtied_by.unwrap(),
                self.cache@[k].pid,
                true,
            ) by {
                let p0 = old(self).cache@[k];
                if p0.dirtied_by == Some(tid) {
                    assert(false);
                } else {
                    assert(self.cache@[k] == p0);
                    let t = self.cache@[k].dirtied_by.unwrap();
                    assert(spec_holds_lock(old(self).lock_manager.locks@, t, p0.pid, true));
                    assert(t != tid);
                    assert(self.lock_manager.locks@.contains(
                        Lock { tid: t, pid: p0.pid, exclusive: true },
                    ));
                }
            }
        }
    }

    /// Commits the transaction: every cached page it dirtied is written
    /// through its table's heap file, cleaned, and given the fresh encoding
    /// as its before-image; then all the transaction's locks are released.
    #[verifier::rlimit(100)]
    pub fn commit_transaction(&mut self, catalog: &mut Catalog, tid: TransactionId)
        requires
            old(self).wf(),
            old(catalog).wf(),
            old(self).consistent_with(*old(catalog)),
            forall|i: int|
                0 <= i < old(self).cache@.len() ==> ((#[trigger] old(self).cache@[i]).dirtied_by
                    == Some(tid) ==> spec_id_index(
                    old(catalog).files@,
                    old(self).cache@[i].pid.table_id,
                ) < old(catalog).files@.len()),
        ensures
            final(self).wf(),
            final(catalog).wf(),
            final(self).consistent_with(*final(catalog)),
            final(self).num_pages == old(self).num_pages,
            commit_cache_effects(*old(self), *final(self), tid),
            forall|l: Lock|
                final(self).lock_manager.locks@.contains(l) <==> (
                old(self).lock_manager.locks@.contains(l) && l.tid != tid),
            forall|i: int|
                0 <= i < final(self).cache@.len() ==> (#[trigger] final(self).cache@[i]).dirtied_by
                    != Some(tid),
            final(catalog).names@ == old(catalog).names@,
            final(catalog).files@.len() == old(catalog).files@.len(),
            forall|j: int|
                0 <= j < old(catalog).files@.len() ==> (#[trigger] final(catalog).files@[j]).id
                    == old(catalog).files@[j].id && final(catalog).files@[j].td == old(
                    catalog,
                ).files@[j].td && final(catalog).files@[j].data@.len() >= old(
                    catalog,
                ).files@[j].data@.len(),
            forall|i: int|
                0 <= i < old(self).cache@.len() && (#[trigger] old(self).cache@[i]).dirtied_by
                    == Some(tid) ==> ({
                    let p0 = old(self).cache@[i];
                    let j = spec_id_index(old(catalog).files@, p0.pid.table_id);
                    &&& 0 <= j < final(catalog).files@.len()
                    &&& final(catalog).files@[j].data@.subrange(
                        p0.pid.page_number as int * PAGE_SIZE,
                        (p0.pid.page_number + 1) as int * PAGE_SIZE,
                    ) == spec_encode_page(p0.spec_content(), p0.td.types@)
                }),
    {
        let ghost locks1 = self.lock_manager.locks@;
        let ghost cache0 = self.cache@;
        let ghost cat0 = *catalog;
        let pids = self.lock_manager.get_locked_pages(tid);
        let n = pids.len();
        let mut k: usize = 0;
        while k < n
            invariant
                k <= n,
                n == pids@.len(),
                locks1 == old(self).lock_manager.locks@,
                cache0 == old(self).cache@,
                cat0 == *old(catalog),
                old(self).wf(),
                old(catalog).wf(),
                old(self).consistent_with(*old(catalog)),
                forall|i: int|
                    0 <= i < cache0.len() ==> ((#[trigger] cache0[i]).dirtied_by == Some(tid)
                        ==> spec_id_index(cat0.files@, cache0[i].pid.table_id)
                        < cat0.files@.len()),
                forall|p: HeapPageId|
                    pids@.contains(p) <==> exists|m: int|
                        0 <= m < locks1.len() && (#[trigger] locks1[m]).tid == tid
                            && locks1[m].pid == p,
                forall|a: int, b: int| 0 <= a < b < pids@.len() ==> pids@[a] != pids@[b],
                self.lock_manager == old(self).lock_manager,
                self.num_pages == old(self).num_pages,
                self.cache@.len() == cache0.len(),
                catalog.wf(),
                catalog.names@ == cat0.names@,
                catalog.files@.len() == cat0.files@.len(),
                forall|j: int|
                    0 <= j < cat0.files@.len() ==> (#[trigger] catalog.files@[j]).id
                        == cat0.files@[j].id && catalog.files@[j].td == cat0.files@[j].td
                        && catalog.files@[j].data@.len() >= cat0.files@[j].data@.len(),
                forall|i: int|
                    0 <= i < cache0.len() ==> {
                        let p0 = (#[trigger] cache0[i]);
                        if p0.dirtied_by == Some(tid) && pids@.take(k as int).contains(p0.pid) {
                            &&& committed_entry(p0, self.cache@[i])
                            &&& self.cache@[i].wf()
                            &&& ({
                                let j = spec_id_index(cat0.files@, p0.pid.table_id);
                                &&& 0 <= j < catalog.files@.len()
                                &&& catalog.files@[j].data@.subrange(
                                    p0.pid.page_number as int * PAGE_SIZE,
                                    (p0.pid.page_number + 1) as int * PAGE_SIZE,
                                ) == spec_encode_page(p0.spec_content(), p0.td.types@)
                            })
                        } else {
                            self.cache@[i] == p0
                        }
                    },
                self.consistent_with(*catalog),
            decreases n - k,
        {
            let pid_k = pids[k];
            proof {
                assert(pids@.take(k + 1) =~= pids@.take(k as int).push(pid_k));
                assert(pids@.take(k + 1)[k as int] == pid_k);
                assert(pids@.take(k + 1).contains(pid_k));
                lemma_cache_index_same(self.cache@, cache0, pid_k, 0);
                lemma_cache_index_props(self.cache@, pid_k, 0);
                lemma_cache_index_props(cache0, pid_k, 0);
            }
            let found = self.cache_index_of(pid_k);
            match found {
                None => {
                    proof {
                        assert forall|i: int|
                            0 <= i < cache0.len() && (#[trigger] cache0[i]).dirtied_by == Some(tid)
                                && pids@.take(k + 1).contains(cache0[i].pid) implies pids@.take(
                            k as int,
                        ).contains(cache0[i].pid) by {
                            if cache0[i].pid == pid_k {
                                assert(false);
                            }
                        }
                    }
                },
                Some(idx) => {
                    let ghost kset = pids@.take(k as int);
                    proof {
                        if kset.contains(pid_k) {
                            let m = choose|m: int| 0 <= m < kset.len() && kset[m] == pid_k;
                            assert(pids@[m] == pid_k && pids@[k as int] == pid_k);
                            assert(false);
                        }
                        assert(self.cache@[idx as int] == cache0[idx as int]) by {
                            let p0 = cache0[idx as int];
                            if p0.dirtied_by == Some(tid) && kset.contains(p0.pid) {
                                assert(false);
                            }
                        }
                    }
                    if self.cache[idx].is_dirty() {
                        let ghost p0 = cache0[idx as int];
                        proof {
                            // The dirtying transaction is `tid` itself: it holds an
                            // exclusive lock, `tid` holds a lock on the same page,
                            // and the lock table admits no such conflict.
                            let t = p0.dirtied_by.unwrap();
                            assert(spec_holds_lock(locks1, t, p0.pid, true));
                            if t != tid {
                                let le = Lock { tid: t, pid: p0.pid, exclusive: true };
                                let m1 = choose|m: int|
                                    0 <= m < locks1.len() && locks1[m] == le;
                                assert(pids@.contains(pid_k));
                                let m2 = choose|m: int|
                                    0 <= m < locks1.len() && (#[trigger] locks1[m]).tid == tid
                                        && locks1[m].pid == pid_k;
                                assert(locks1[m1].pid == locks1[m2].pid);
                                assert(false);
                            }
                            assert(p0.dirtied_by == Some(tid));
                            lemma_id_index_props(cat0.files@, p0.pid.table_id, 0);
                            lemma_id_index_same(cat0.files@, catalog.files@, p0.pid.table_id, 0);
                            lemma_id_index_props(catalog.files@, p0.pid.table_id, 0);
                        }
                        let ti = match catalog.table_index_of(pid_k.get_table_id()) {
                            Some(x) => x,
                            None => {
                                proof {
                                    assert(false);
                                }
                                vstd::pervasive::unreached()
                            },
                        };
                        let ghost files1 = catalog.files@;
                        let ghost catk = *catalog;
                        proof {
                            assert(consistent_entry(self.cache@[idx as int], *catalog));
                        }
                        let flen = catalog.files[ti].data.len();
                        proof {
                            assert((pid_k.page_number + 1) * PAGE_SIZE <= flen as int);
                        }
                        let file = catalog.file_at_mut(ti);
                        file.write_page(&self.cache[idx]);
                        proof {
                            lemma_id_index_same(files1, catalog.files@, pid_k.table_id, 0);
                            assert(catalog.spec_names() =~= cat0.spec_names());
                            assert forall|a: int, b: int|
                                0 <= a < b < catalog.names@.len() implies catalog.spec_names()[a]
                                != catalog.spec_names()[b] by {
                                assert(cat0.spec_names()[a] != cat0.spec_names()[b]);
                            }
                            assert forall|j: int| 0 <= j < catalog.files@.len() implies (
                            #[trigger] catalog.files@[j]).wf() by {
                                if j != ti as int {
                                    assert(catalog.files@[j] == files1[j]);
                                }
                            }
                        }
                        let ghost cachek = self.cache@;
                        let page = &mut self.cache[idx];
                        page.mark_dirty(false, tid);
                        page.set_before_image();
                        proof {
                            assert(self.cache@ == cachek.update(
                                idx as int,
                                self.cache@[idx as int],
                            )) by {
                                assert(self.cache@ =~= cachek.update(
                                    idx as int,
                                    self.cache@[idx as int],
                                ));
                            }
                            assert(committed_entry(p0, self.cache@[idx as int]));
                            // Entries other than `idx` are untouched this round,
                            // and only entry `idx` can hold `pid_k`.
                            assert forall|i: int|
                                0 <= i < cache0.len() && i != idx as int && (
                                #[trigger] cache0[i]).dirtied_by == Some(tid) && pids@.take(
                                k + 1,
                            ).contains(cache0[i].pid) implies pids@.take(k as int).contains(
                                cache0[i].pid,
                            ) by {
                                let q0 = cache0[i];
                                assert(q0.pid != pid_k) by {
                                    if q0.pid == pid_k {
                                        assert(self.cache@[i].pid == q0.pid);
                                        assert(self.cache@[idx as int].pid == pid_k);
                                    }
                                }
                                let m = choose|m: int|
                                    0 <= m < k + 1 && #[trigger] pids@.take(k + 1)[m] == q0.pid;
                                assert(pids@.take(k as int)[m] == q0.pid);
                            }
                            // Everything already flushed stays flushed: this
                            // write landed in another file or a disjoint range.
                            assert forall|i: int|
                                0 <= i < cache0.len() && (#[trigger] cache0[i]).dirtied_by
                                    == Some(tid) && pids@.take(k as int).contains(cache0[i].pid)
                                implies ({
                                let q0 = cache0[i];
                                let j = spec_id_index(cat0.files@, q0.pid.table_id);
                                &&& 0 <= j < catalog.files@.len()
                                &&& catalog.files@[j].data@.subrange(
                                    q0.pid.page_number as int * PAGE_SIZE,
                                    (q0.pid.page_number + 1) as int * PAGE_SIZE,
                                ) == spec_encode_page(q0.spec_content(), q0.td.types@)
                            }) by {
                                let q0 = cache0[i];
                                assert(q0.pid != pid_k) by {
                                    if q0.pid == pid_k {
                                        let m = choose|m: int|
                                            0 <= m < k && #[trigger] pids@.take(k as int)[m]
                                                == q0.pid;
                                        assert(pids@[m] == pid_k && pids@[k as int] == pid_k);
                                    }
                                }
                                let j = spec_id_index(cat0.files@, q0.pid.table_id);
                                lemma_id_index_props(cat0.files@, q0.pid.table_id, 0);
                                if j == ti as int {
                                    assert(cat0.files@[j].id == q0.pid.table_id);
                                    assert(cat0.files@[ti as int].id == pid_k.table_id);
                                    assert(q0.pid.page_number != pid_k.page_number);
                                    lemma_page_ranges_disjoint(
                                        q0.pid.page_number as int,
                                        pid_k.page_number as int,
                                    );
                                    assert(catalog.files@[j].data@.subrange(
                                        q0.pid.page_number as int * PAGE_SIZE,
                                        (q0.pid.page_number + 1) as int * PAGE_SIZE,
                                    ) =~= files1[j].data@.subrange(
                                        q0.pid.page_number as int * PAGE_SIZE,
                                        (q0.pid.page_number + 1) as int * PAGE_SIZE,
                                    ));
                                } else {
                                    assert(catalog.files@[j] == files1[j]);
                                }
                            }
                            assert forall|i: int|
                                0 <= i < self.cache@.len() implies consistent_entry(
                                #[trigger] self.cache@[i],
                                *catalog,
                            ) by {
                                let pcur = self.cache@[i];
                                if i == idx as int {
                                    assert(cachek[i].pid == pcur.pid && cachek[i].td == pcur.td);
                                } else {
                                    assert(pcur == cachek[i]);
                                }
                                assert(consistent_entry(cachek[i], catk));
                                assert(catk.files@ == files1);
                                lemma_id_index_props(files1, pcur.pid.table_id, 0);
                                lemma_id_index_same(files1, catalog.files@, pcur.pid.table_id, 0);
                                let j = spec_id_index(files1, pcur.pid.table_id);
                                if 0 <= j < files1.len() {
                                    assert(catalog.files@[j].td == files1[j].td);
                                    assert(catalog.files@[j].data@.len()
                                        >= files1[j].data@.len());
                                }
                            }
                            assert(spec_id_index(cat0.files@, p0.pid.table_id) == ti as int);
                            assert(catalog.files@[ti as int].data@.subrange(
                                pid_k.page_number as int * PAGE_SIZE,
                                (pid_k.page_number + 1) as int * PAGE_SIZE,
                            ) == spec_encode_page(p0.spec_content(), p0.td.types@));
                        }
                    } else {
                        proof {
                            assert forall|i: int|
                                0 <= i < cache0.len() && (#[trigger] cache0[i]).dirtied_by
                                    == Some(tid) && pids@.take(k + 1).contains(cache0[i].pid)
                                implies pids@.take(k as int).contains(cache0[i].pid) by {
                                if cache0[i].pid == pid_k {
                                    assert(i == idx as int) by {
                                        assert(cache0[idx as int].pid == pid_k);
                                    }
                                    assert(cache0[i].dirtied_by is None);
                                    assert(false);
                                } else {
                                    let m = choose|m: int|
                                        0 <= m < k + 1 && #[trigger] pids@.take(k + 1)[m]
                                            == cache0[i].pid;
                                    assert(pids@.take(k as int)[m] == cache0[i].pid);
                                }
                            }
                        }
                    }
                },
            }
            k = k + 1;
        }
        proof {
            assert(pids@.take(n as int) =~= pids@);
        }
        self.lock_manager.release_locks(tid);
        proof {
            assert forall|i: int|
                0 <= i < cache0.len() && (#[trigger] cache0[i]).dirtied_by == Some(tid) implies
                pids@.contains(cache0[i].pid) by {
                let t = cache0[i].dirtied_by.unwrap();
                assert(spec_holds_lock(locks1, t, cache0[i].pid, true));
                let le = Lock { tid, pid: cache0[i].pid, exclusive: true };
                let m = choose|m: int| 0 <= m < locks1.len() && locks1[m] == le;
            }
            assert forall|k2: int|
                0 <= k2 < self.cache@.len() && (#[trigger] self.cache@[k2]).dirtied_by is Some
                implies spec_holds_lock(
                self.lock_manager.locks@,
                self.cache@[k2].dirtied_by.unwrap(),
                self.cache@[k2].pid,
                true,
            ) && self.cache@[k2].dirtied_by != Some(tid) by {
                let p0 = cache0[k2];
                if p0.dirtied_by == Some(tid) && pids@.contains(p0.pid) {
                    assert(self.cache@[k2].dirtied_by is None);
                    assert(false);
                } else {
                    assert(self.cache@[k2] == p0);
                    let t = p0.dirtied_by.unwrap();
                    assert(spec_holds_lock(locks1, t, p0.pid, true));
                    assert(t != tid) by {
                        if t == tid {
                            assert(pids@.contains(p0.pid));
                            assert(false);
                        }
                    }
                    assert(self.lock_manager.locks@.contains(
                        Lock { tid: t, pid: p0.pid, exclusive: true },
                    ));
                }
            }
            assert forall|a: int, b: int|
                0 <= a < b < self.cache@.len() implies self.cache@[a].pid != self.cache@[b].pid by {
                assert(self.cache@[a].pid == cache0[a].pid && self.cache@[b].pid
                    == cache0[b].pid) by {
                    assert(cache0[a].dirtied_by == Some(tid) && pids@.contains(cache0[a].pid)
                        ==> committed_entry(cache0[a], self.cache@[a]));
                    assert(cache0[b].dirtied_by == Some(tid) && pids@.contains(cache0[b].pid)
                        ==> committed_entry(cache0[b], self.cache@[b]));
                }
            }
            assert forall|i: int| 0 <= i < self.cache@.len() implies (
            #[trigger] self.cache@[i]).wf() by {
                let p0 = cache0[i];
                if !(p0.dirtied_by == Some(tid) && pids@.contains(p0.pid)) {
                    assert(self.cache@[i] == p0);
                }
            }
        }
    }

    /// Deletes the tuple from the page its record id names: acquires an
    /// exclusive lock on that page through `get_page`, clears the slot, and
    /// marks the page dirty. `NotOnPage` reports a record id whose slot is
    /// out of range or free; the other errors are those of `get_page`.
    pub fn delete_tuple(
        &mut self,
        catalog: &mut Catalog,
        tid: TransactionId,
        table_id: usize,
        t: Tuple,
    ) -> (r: Result<(), Error>)
        requires
            old(self).wf(),
            old(catalog).wf(),
            old(self).consistent_with(*old(catalog)),
            (t.rid.pid.page_number + 1) * PAGE_SIZE <= usize::MAX,
            spec_cache_index(old(self).cache@, t.rid.pid) < old(self).cache@.len()
                || spec_id_index(old(catalog).files@, t.rid.pid.table_id) < old(
                catalog,
            ).files@.len(),
        ensures
            final(self).wf(),
            final(catalog).wf(),
            final(self).consistent_with(*final(catalog)),
            final(self).num_pages == old(self).num_pages,
            ({
                let locks = old(self).lock_manager.locks@;
                let pid = t.rid.pid;
                if spec_lock_grantable(locks, tid, pid, true) {
                    &&& catalog_growth_preserved(*old(catalog), *final(catalog))
                    &&& spec_satisfied(final(self).lock_manager.locks@, tid, pid, true)
                    &&& (r is Ok || r == Err::<(), Error>(Error::NotOnPage) || r == Err::<
                        (),
                        Error,
                    >(Error::DecodeError))
                    &&& (r is Ok ==> {
                        let ci = spec_cache_index(final(self).cache@, pid);
                        let pg = final(self).cache@[ci];
                        &&& ci < final(self).cache@.len()
                        &&& pg.dirtied_by == Some(tid)
                        &&& !spec_slot_used(pg.header@, t.rid.tuple_no as int)
                        &&& t.rid.tuple_no < pg.tuples@.len() && pg.tuples@[t.rid.tuple_no as int].spec_fields()
                            == Seq::<crate::fields::FieldModel>::empty()
                    })
                    &&& (r == Err::<(), Error>(Error::NotOnPage) ==> {
                        let ci = spec_cache_index(final(self).cache@, pid);
                        let pg = final(self).cache@[ci];
                        &&& ci < final(self).cache@.len()
                        &&& (t.rid.tuple_no as int >= crate::heap_page::spec_num_slots(
                            pg.td.types@,
                        ) || !spec_slot_used(pg.header@, t.rid.tuple_no as int))
                    })
                    &&& (r == Err::<(), Error>(Error::DecodeError) ==> {
                        let j = spec_id_index(old(catalog).files@, pid.table_id);
                        let f1 = final(catalog).files@[j];
                        let slice = f1.data@.subrange(
                            pid.page_number as int * PAGE_SIZE,
                            (pid.page_number + 1) as int * PAGE_SIZE,
                        );
                        &&& spec_cache_index(old(self).cache@, pid) >= old(self).cache@.len()
                        &&& spec_decode_page(slice, f1.td.types@) is None
                    })
                } else if spec_conflicts(locks, tid, pid, true) && spec_has_older_holder(
                    locks,
                    tid,
                    pid,
                ) {
                    &&& r == Err::<(), Error>(Error::TransactionAborted(tid.tid))
                    &&& abort_effects(*old(self), *final(self), tid)
                    &&& *final(catalog) == *old(catalog)
                } else {
                    &&& r == Err::<(), Error>(Error::LockWait)
                    &&& final(self).cache@ == old(self).cache@
                    &&& final(self).lock_manager.locks@ == locks
                    &&& *final(catalog) == *old(catalog)
                }
            }),
    {
        let pid = t.get_record_id().get_page_id();
        let got = self.get_page(catalog, tid, pid, Permission::Write);
        match got {
            Err(e) => Err(e),
            Ok(_) => {
                let idx = match self.cache_index_of(pid) {
                    Some(i) => i,
                    None => {
                        proof {
                            assert(false);
                        }
                        vstd::pervasive::unreached()
                    },
                };
                let ghost cache1 = self.cache@;
                let ghost locks1 = self.lock_manager.locks@;
                proof {
                    lemma_cache_index_props(cache1, pid, 0);
                    assert(cache1[idx as int].pid == pid);
                }
                let page = &mut self.cache[idx];
                let res = page.delete_tuple(t);
                match res {
                    Ok(()) => {
                        page.mark_dirty(true, tid);
                        proof {
                            assert(self.cache@ =~= cache1.update(
                                idx as int,
                                self.cache@[idx as int],
                            ));
                            lemma_cache_index_same(cache1, self.cache@, pid, 0);
                            assert forall|i: int|
                                0 <= i < self.cache@.len() && (
                                #[trigger] self.cache@[i]).dirtied_by is Some implies
                                spec_holds_lock(
                                self.lock_manager.locks@,
                                self.cache@[i].dirtied_by.unwrap(),
                                self.cache@[i].pid,
                                true,
                            ) by {
                                if i != idx as int {
                                    assert(self.cache@[i] == cache1[i]);
                                }
                            }
                            assert forall|i: int|
                                0 <= i < self.cache@.len() implies consistent_entry(
                                #[trigger] self.cache@[i],
                                *catalog,
                            ) by {
                                if i != idx as int {
                                    assert(self.cache@[i] == cache1[i]);
                                } else {
                                    assert(consistent_entry(cache1[i], *catalog));
                                    assert(self.cache@[i].pid == cache1[i].pid
                                        && self.cache@[i].td == cache1[i].td);
                                }
                            }
                            assert forall|a: int, b: int|
                                0 <= a < b < self.cache@.len() implies self.cache@[a].pid
                                != self.cache@[b].pid by {
                                assert(cache1[a].pid != cache1[b].pid);
                            }
                        }
                        Ok(())
                    },
                    Err(e) => {
                        proof {
                            assert(self.cache@ =~= cache1);
                        }
                        Err(e)
                    },
                }
            },
        }
    }

    /// Finds a page of the table with a free slot, holding an exclusive
    /// lock on it: pages are probed in order under shared locks; the first
    /// page with room is re-acquired exclusively. When every existing page
    /// is full, the scan reaches one page past the end of the file, which
    /// the read grows into a fresh (hence free) page. Returns the cache
    /// index of the chosen page. Never dirties a page.
    fn locate_insert_slot(
        &mut self,
        catalog: &mut Catalog,
        tid: TransactionId,
        table_id: usize,
    ) -> (r: Result<usize, Error>)
        requires
            old(self).wf(),
            old(catalog).wf(),
            old(self).consistent_with(*old(catalog)),
            spec_id_index(old(catalog).files@, table_id) < old(catalog).files@.len(),
            old(catalog).files@[spec_id_index(old(catalog).files@, table_id)].data@.len()
                + PAGE_SIZE <= usize::MAX,
        ensures
            final(self).wf(),
            final(catalog).wf(),
            final(self).consistent_with(*final(catalog)),
            final(self).num_pages == old(self).num_pages,
            catalog_growth_preserved(*old(catalog), *final(catalog)),
            r matches Ok(ci) ==> ({
                let pg = final(self).cache@[ci as int];
                &&& (ci as int) < final(self).cache@.len()
                &&& pg.wf()
                &&& pg.pid.table_id == table_id
                &&& spec_holds_lock(final(self).lock_manager.locks@, tid, pg.pid, true)
                &&& crate::heap_page::spec_first_free(
                    pg.header@,
                    crate::heap_page::spec_num_slots(pg.td.types@),
                ) < crate::heap_page::spec_num_slots(pg.td.types@)
                &&& pg.td.types@ == old(catalog).files@[spec_id_index(
                    old(catalog).files@,
                    table_id,
                )].td.types@
            }),
            r is Err ==> (r == Err::<usize, Error>(Error::DecodeError) || r == Err::<
                usize,
                Error,
            >(Error::LockWait) || r == Err::<usize, Error>(Error::TransactionAborted(tid.tid))),
            forall|i: int|
                0 <= i < final(self).cache@.len() ==> ((
                #[trigger] final(self).cache@[i]).dirtied_by == Some(tid) ==> exists|i0: int|
                    0 <= i0 < old(self).cache@.len() && (#[trigger] old(self).cache@[i0]).pid
                        == final(self).cache@[i].pid && old(self).cache@[i0].dirtied_by == Some(
                        tid,
                    )),
            r == Err::<usize, Error>(Error::TransactionAborted(tid.tid)) ==> (forall|l: Lock|
                final(self).lock_manager.locks@.contains(l) ==> l.tid != tid),
            r == Err::<usize, Error>(Error::LockWait) ==> exists|l: Lock|
                #[trigger] final(self).lock_manager.locks@.contains(l) && l.tid != tid
                    && l.pid.table_id == table_id,
            r == Err::<usize, Error>(Error::TransactionAborted(tid.tid)) ==> exists|l: Lock|
                #[trigger] final(self).lock_manager.locks@.contains(l) && l.tid.tid < tid.tid
                    && l.pid.table_id == table_id,
            r == Err::<usize, Error>(Error::DecodeError)
                ==> crate::heap_file::has_undecodable_page(
                old(catalog).files@[spec_id_index(old(catalog).files@, table_id)],
            ),
    {
        let ghost tix = spec_id_index(old(catalog).files@, table_id);
        let ghost n0 = old(catalog).files@[tix].data@.len() as int / (PAGE_SIZE as int);
        proof {
            lemma_id_index_props(old(catalog).files@, table_id, 0);
            assert(old(catalog).files@[tix].wf());
            vstd::arithmetic::div_mod::lemma_fundamental_div_mod(
                old(catalog).files@[tix].data@.len() as int,
                PAGE_SIZE as int,
            );
            assert(n0 * PAGE_SIZE == old(catalog).files@[tix].data@.len());
            let dlen = old(catalog).files@[tix].data@.len() as int;
            assert(n0 >= 0) by (nonlinear_arith)
                requires
                    n0 * PAGE_SIZE == dlen,
                    dlen >= 0,
            ;
        }
        proof {
            lemma_growth_preserved_refl(*catalog);
        }
        let mut page_no: usize = 0;
        loop
            invariant
                0 <= page_no <= n0,
                tix == spec_id_index(old(catalog).files@, table_id),
                0 <= tix < old(catalog).files@.len(),
                n0 * PAGE_SIZE == old(catalog).files@[tix].data@.len(),
                n0 * PAGE_SIZE + PAGE_SIZE <= usize::MAX,
                self.wf(),
                catalog.wf(),
                self.consistent_with(*catalog),
                self.num_pages == old(self).num_pages,
                catalog_growth_preserved(*old(catalog), *catalog),
                catalog.files@[tix].data@.len() == n0 * PAGE_SIZE,
                catalog.files@[tix].td == old(catalog).files@[tix].td,
                spec_id_index(catalog.files@, table_id) == tix,
                forall|i: int|
                    0 <= i < self.cache@.len() ==> ((#[trigger] self.cache@[i]).dirtied_by == Some(
                        tid,
                    ) ==> exists|i0: int|
                        0 <= i0 < old(self).cache@.len() && (#[trigger] old(self).cache@[i0]).pid
                            == self.cache@[i].pid && old(self).cache@[i0].dirtied_by == Some(tid)),
            decreases n0 - page_no,
        {
            let pid = HeapPageId::new(table_id, page_no);
            let ghost catpre = *catalog;
            let ghost selfpre = *self;
            proof {
                assert((pid.page_number + 1) * PAGE_SIZE <= usize::MAX) by (nonlinear_arith)
                    requires
                        pid.page_number <= n0,
                        n0 * PAGE_SIZE + PAGE_SIZE <= usize::MAX,
                        PAGE_SIZE >= 1,
                        n0 >= 0,
                        pid.page_number >= 0,
                ;
            }
            let probe_res = self.get_page(catalog, tid, pid, Permission::Read);
            proof {
                if *catalog == catpre {
                    lemma_growth_preserved_refl(catpre);
                }
                lemma_growth_preserved_trans(*old(catalog), catpre, *catalog);
                lemma_id_index_same(catpre.files@, catalog.files@, table_id, 0);
                lemma_cache_index_props(self.cache@, pid, 0);
                assert forall|i: int|
                    0 <= i < self.cache@.len() && (#[trigger] self.cache@[i]).dirtied_by == Some(
                        tid,
                    ) implies exists|i0: int|
                    0 <= i0 < old(self).cache@.len() && (#[trigger] old(self).cache@[i0]).pid
                        == self.cache@[i].pid && old(self).cache@[i0].dirtied_by == Some(tid) by {
                    if i < selfpre.cache@.len() {
                        if self.cache@.len() == selfpre.cache@.len() {
                        } else {
                            assert(self.cache@.take(selfpre.cache@.len() as int)[i]
                                == self.cache@[i]);
                        }
                        assert(self.cache@[i] == selfpre.cache@[i]);
                    } else {
                        assert(self.cache@[i] == self.cache@.last());
                    }
                }
            }
            let probe = match probe_res {
                Ok(p) => p,
                Err(e) => {
                    proof {
                        lemma_err_witness(selfpre, *self, tid, pid, false, e);
                        if e == Error::DecodeError {
                            // Only the grantable branch with a cache miss can
                            // fail to decode, and then the failing image is
                            // one of the file's original pages: page `n0` is
                            // freshly grown, hence all zero and decodable.
                            if !spec_lock_grantable(
                                selfpre.lock_manager.locks@,
                                tid,
                                pid,
                                false,
                            ) {
                                assert(false);
                            }
                            if spec_cache_index(selfpre.cache@, pid) < selfpre.cache@.len() {
                                assert(false);
                            }
                            let j = spec_id_index(catpre.files@, pid.table_id);
                            assert(j == tix);
                            let f0 = old(catalog).files@[tix];
                            let f1 = catalog.files@[tix];
                            let oi = page_no as int;
                            assert(spec_decode_page(
                                f1.data@.subrange(oi * PAGE_SIZE, (oi + 1) * PAGE_SIZE),
                                f1.td.types@,
                            ) is None);
                            assert(f1.td == catpre.files@[tix].td);
                            assert(catpre.files@[tix].td == f0.td);
                            if oi == n0 {
                                assert((n0 + 1) * PAGE_SIZE == n0 * PAGE_SIZE + PAGE_SIZE)
                                    by (nonlinear_arith);
                                assert(f1.data@.subrange(oi * PAGE_SIZE, (oi + 1) * PAGE_SIZE)
                                    =~= crate::codec::zero_bytes(PAGE_SIZE as int));
                                crate::heap_page::lemma_zero_page_decodes(f1.td.types@);
                                assert(false);
                            } else {
                                assert((oi + 1) * PAGE_SIZE <= n0 * PAGE_SIZE)
                                    by (nonlinear_arith)
                                    requires
                                        oi + 1 <= n0,
                                        PAGE_SIZE >= 1,
                                ;
                                assert(f1.data@ == catpre.files@[tix].data@);
                                assert(catpre.files@[tix].data@.take(f0.data@.len() as int)
                                    == f0.data@);
                                assert(catpre.files@[tix].data@ =~= catpre.files@[tix].data@.take(
                                    f0.data@.len() as int,
                                ));
                                assert(spec_decode_page(
                                    f0.data@.subrange(oi * PAGE_SIZE, (oi + 1) * PAGE_SIZE),
                                    f0.td.types@,
                                ) is None);
                                assert(0 <= oi < f0.spec_num_pages());
                                assert(crate::heap_file::has_undecodable_page(f0));
                            }
                        }
                    }
                    return Err(e);
                },
            };
            if probe.get_num_empty_slots() > 0 {
                let ghost catmid = *catalog;
                let ghost selfmid = *self;
                let got_res = self.get_page(catalog, tid, pid, Permission::Write);
                proof {
                    if *catalog == catmid {
                        lemma_growth_preserved_refl(catmid);
                    }
                    lemma_growth_preserved_trans(*old(catalog), catmid, *catalog);
                    assert forall|i: int|
                        0 <= i < self.cache@.len() && (#[trigger] self.cache@[i]).dirtied_by
                            == Some(tid) implies exists|i0: int|
                        0 <= i0 < old(self).cache@.len() && (#[trigger] old(self).cache@[i0]).pid
                            == self.cache@[i].pid && old(self).cache@[i0].dirtied_by == Some(
                            tid,
                        ) by {
                        if i < selfmid.cache@.len() {
                            if self.cache@.len() == selfmid.cache@.len() {
                            } else {
                                assert(self.cache@.take(selfmid.cache@.len() as int)[i]
                                    == self.cache@[i]);
                            }
                            assert(self.cache@[i] == selfmid.cache@[i]);
                        } else {
                            assert(self.cache@[i] == self.cache@.last());
                        }
                    }
                }
                let got = match got_res {
                    Ok(p) => p,
                    Err(e) => {
                        proof {
                            lemma_err_witness(selfmid, *self, tid, pid, true, e);
                            if e == Error::DecodeError {
                                // The probe just cached this page, and a
                                // cache hit never decodes.
                                if spec_lock_grantable(
                                    selfmid.lock_manager.locks@,
                                    tid,
                                    pid,
                                    true,
                                ) {
                                    assert(spec_cache_index(selfmid.cache@, pid)
                                        < selfmid.cache@.len());
                                    assert(false);
                                }
                                assert(false);
                            }
                        }
                        return Err(e);
                    },
                };
                let ci = match self.cache_index_of(pid) {
                    Some(x) => x,
                    None => {
                        proof {
                            assert(false);
                        }
                        vstd::pervasive::unreached()
                    },
                };
                proof {
                    lemma_cache_index_props(self.cache@, pid, 0);
                    let pg = self.cache@[ci as int];
                    assert(pg.header@ == probe.header@);
                    crate::heap_page::lemma_free_count_pos(
                        pg.header@,
                        crate::heap_page::spec_num_slots(pg.td.types@),
                    );
                    crate::heap_page::lemma_first_free_props(
                        pg.header@,
                        0,
                        crate::heap_page::spec_num_slots(pg.td.types@),
                    );
                    let ff = crate::heap_page::spec_first_free(
                        pg.header@,
                        crate::heap_page::spec_num_slots(pg.td.types@),
                    );
                    if ff == crate::heap_page::spec_num_slots(pg.td.types@) {
                        assert(false);
                    }
                    assert(consistent_entry(pg, *catalog));
                    lemma_id_index_props(catalog.files@, table_id, 0);
                    assert(pg.td.types@ == catalog.files@[tix].td.types@);
                }
                return Ok(ci);
            }
            proof {
                // A freshly grown page is all free, so a full probe means the
                // scan is still below the end of the file.
                if page_no as int == n0 {
                    assert(spec_cache_index(selfpre.cache@, pid) >= selfpre.cache@.len()) by {
                        lemma_cache_index_props(selfpre.cache@, pid, 0);
                        let c = spec_cache_index(selfpre.cache@, pid);
                        if c < selfpre.cache@.len() {
                            assert(consistent_entry(selfpre.cache@[c], catpre));
                            assert(selfpre.cache@[c].pid == pid);
                            assert((pid.page_number + 1) * PAGE_SIZE
                                <= catpre.files@[tix].data@.len());
                            assert((n0 + 1) * PAGE_SIZE == n0 * PAGE_SIZE + PAGE_SIZE)
                                by (nonlinear_arith);
                            assert(false);
                        }
                    }
                    let f1 = catalog.files@[tix];
                    let slice = f1.data@.subrange(
                        pid.page_number as int * PAGE_SIZE,
                        (pid.page_number + 1) as int * PAGE_SIZE,
                    );
                    assert((n0 + 1) * PAGE_SIZE == n0 * PAGE_SIZE + PAGE_SIZE)
                        by (nonlinear_arith);
                    assert(slice =~= crate::codec::zero_bytes(PAGE_SIZE as int));
                    crate::heap_page::lemma_zero_page_decodes(f1.td.types@);
                    let c = spec_decode_page(
                        crate::codec::zero_bytes(PAGE_SIZE as int),
                        f1.td.types@,
                    ).unwrap();
                    assert(spec_decode_page(slice, f1.td.types@) is Some);
                    assert(probe.header@ == c.header);
                    assert(forall|j: int| 0 <= j ==> !spec_slot_used(probe.header@, j));
                    crate::heap_page::lemma_free_count_all(
                        probe.header@,
                        crate::heap_page::spec_num_slots(probe.td.types@),
                    );
                    assert(probe.td.types@ == f1.td.types@);
                    assert(crate::heap_page::spec_num_slots(probe.td.types@) >= 1);
                    assert(false);
                }
                // Probing an existing page never grows the file.
                assert(catalog.files@[tix].data@.len() == n0 * PAGE_SIZE) by {
                    if catalog.files@[tix].data@.len() != catpre.files@[tix].data@.len() {
                        assert((pid.page_number + 1) * PAGE_SIZE <= n0 * PAGE_SIZE)
                            by (nonlinear_arith)
                            requires
                                pid.page_number + 1 <= n0,
                                PAGE_SIZE >= 1,
                        ;
                    }
                }
                assert(catalog_growth_preserved(*old(catalog), *catalog)) by {
                    assert forall|j: int|
                        0 <= j < old(catalog).files@.len() implies {
                            let f0 = (#[trigger] old(catalog).files@[j]);
                            let f1 = catalog.files@[j];
                            &&& f1.id == f0.id
                            &&& f1.td == f0.td
                            &&& f1.data@.len() >= f0.data@.len()
                            &&& f1.data@.take(f0.data@.len() as int) == f0.data@
                        } by {
                        assert(catpre.files@[j].data@.take(
                            old(catalog).files@[j].data@.len() as int,
                        ) == old(catalog).files@[j].data@);
                        assert(catalog.files@[j].data@.take(
                            catpre.files@[j].data@.len() as int,
                        ) == catpre.files@[j].data@);
                        assert(catalog.files@[j].data@.take(
                            old(catalog).files@[j].data@.len() as int,
                        ) =~= catpre.files@[j].data@.take(
                            old(catalog).files@[j].data@.len() as int,
                        ));
                    }
                }
            }
            page_no = page_no + 1;
        }
    }

    /// Adds the tuple to the table: rejects a tuple that does not match the
    /// table's schema with `DecodeError`; otherwise scans the table's pages
    /// for the first free slot (growing the file by one fresh page when all
    /// are full), places the tuple in it under an exclusive lock, stamps it
    /// with the slot's record id, and marks that page dirty. Lock trouble
    /// surfaces as `LockWait` (retry later) or `TransactionAborted`
    /// (WAIT-DIE died; the transaction has been rolled back).
    pub fn insert_tuple(
        &mut self,
        catalog: &mut Catalog,
        tid: TransactionId,
        table_id: usize,
        t: Tuple,
    ) -> (r: Result<(), Error>)
        requires
            old(self).wf(),
            old(catalog).wf(),
            old(self).consistent_with(*old(catalog)),
            spec_id_index(old(catalog).files@, table_id) < old(catalog).files@.len(),
            old(catalog).files@[spec_id_index(old(catalog).files@, table_id)].data@.len()
                + PAGE_SIZE <= usize::MAX,
        ensures
            final(self).wf(),
            final(catalog).wf(),
            final(self).consistent_with(*final(catalog)),
            final(self).num_pages == old(self).num_pages,
            catalog_growth_preserved(*old(catalog), *final(catalog)),
            !crate::tuple::spec_tuple_matches(
                t.spec_fields(),
                old(catalog).files@[spec_id_index(old(catalog).files@, table_id)].td.types@,
            ) ==> r == Err::<(), Error>(Error::DecodeError) && *final(self) == *old(self)
                && *final(catalog) == *old(catalog),
            r is Ok ==> crate::tuple::spec_tuple_matches(
                t.spec_fields(),
                old(catalog).files@[spec_id_index(old(catalog).files@, table_id)].td.types@,
            ),
            r is Ok ==> exists|ci: int|
                {
                    &&& 0 <= ci < final(self).cache@.len()
                    &&& (#[trigger] final(self).cache@[ci]).pid.table_id == table_id
                    &&& final(self).cache@[ci].dirtied_by == Some(tid)
                    &&& spec_holds_lock(
                        final(self).lock_manager.locks@,
                        tid,
                        final(self).cache@[ci].pid,
                        true,
                    )
                    &&& exists|slot: int|
                        {
                            &&& 0 <= slot < final(self).cache@[ci].tuples@.len()
                            &&& (#[trigger] final(self).cache@[ci].tuples@[slot]).fields
                                == t.fields
                            &&& final(self).cache@[ci].tuples@[slot].rid == (RecordId {
                                pid: final(self).cache@[ci].pid,
                                tuple_no: slot as usize,
                            })
                            &&& spec_slot_used(final(self).cache@[ci].header@, slot)
                        }
                },
            r is Err ==> (r == Err::<(), Error>(Error::DecodeError) || r == Err::<(), Error>(
                Error::LockWait,
            ) || r == Err::<(), Error>(Error::TransactionAborted(tid.tid))),
            (r == Err::<(), Error>(Error::DecodeError) || r == Err::<(), Error>(Error::LockWait))
                ==> forall|i: int|
                0 <= i < final(self).cache@.len() ==> ((
                #[trigger] final(self).cache@[i]).dirtied_by == Some(tid) ==> exists|i0: int|
                    0 <= i0 < old(self).cache@.len() && (#[trigger] old(self).cache@[i0]).pid
                        == final(self).cache@[i].pid && old(self).cache@[i0].dirtied_by == Some(
                        tid,
                    )),
            r == Err::<(), Error>(Error::TransactionAborted(tid.tid)) ==> (forall|l: Lock|
                final(self).lock_manager.locks@.contains(l) ==> l.tid != tid),
            r == Err::<(), Error>(Error::LockWait) ==> exists|l: Lock|
                #[trigger] final(self).lock_manager.locks@.contains(l) && l.tid != tid
                    && l.pid.table_id == table_id,
            r == Err::<(), Error>(Error::TransactionAborted(tid.tid)) ==> exists|l: Lock|
                #[trigger] final(self).lock_manager.locks@.contains(l) && l.tid.tid < tid.tid
                    && l.pid.table_id == table_id,
            r == Err::<(), Error>(Error::DecodeError) ==> (!crate::tuple::spec_tuple_matches(
                t.spec_fields(),
                old(catalog).files@[spec_id_index(old(catalog).files@, table_id)].td.types@,
            ) || crate::heap_file::has_undecodable_page(
                old(catalog).files@[spec_id_index(old(catalog).files@, table_id)],
            )),
    {
        let td = match catalog.get_tuple_desc(table_id) {
            Some(td) => td,
            None => {
                proof {
                    lemma_id_index_props(catalog.files@, table_id, 0);
                    assert(false);
                }
                vstd::pervasive::unreached()
            },
        };
        if !t.matches_desc(&td) {
            proof {
                lemma_growth_preserved_refl(*catalog);
            }
            return Err(Error::DecodeError);
        }
        let ci = match self.locate_insert_slot(catalog, tid, table_id) {
            Ok(ci) => ci,
            Err(e) => {
                return Err(e);
            },
        };
        let ghost cache1 = self.cache@;
        let ghost pid = self.cache@[ci as int].pid;
        let page = &mut self.cache[ci];
        let res = page.add_tuple(t);
        match res {
            Ok(()) => {
                page.mark_dirty(true, tid);
                proof {
                    assert(self.cache@ =~= cache1.update(ci as int, self.cache@[ci as int]));
                    assert forall|i: int|
                        0 <= i < self.cache@.len() && (
                        #[trigger] self.cache@[i]).dirtied_by is Some implies spec_holds_lock(
                        self.lock_manager.locks@,
                        self.cache@[i].dirtied_by.unwrap(),
                        self.cache@[i].pid,
                        true,
                    ) by {
                        if i != ci as int {
                            assert(self.cache@[i] == cache1[i]);
                        }
                    }
                    assert forall|i: int|
                        0 <= i < self.cache@.len() implies consistent_entry(
                        #[trigger] self.cache@[i],
                        *catalog,
                    ) by {
                        if i != ci as int {
                            assert(self.cache@[i] == cache1[i]);
                        } else {
                            assert(consistent_entry(cache1[i], *catalog));
                            assert(self.cache@[i].pid == cache1[i].pid && self.cache@[i].td
                                == cache1[i].td);
                        }
                    }
                    assert forall|a: int, b: int|
                        0 <= a < b < self.cache@.len() implies self.cache@[a].pid
                        != self.cache@[b].pid by {
                        assert(cache1[a].pid != cache1[b].pid);
                    }
                    crate::heap_page::lemma_first_free_props(
                        cache1[ci as int].header@,
                        0,
                        crate::heap_page::spec_num_slots(cache1[ci as int].td.types@),
                    );
                    let ff = crate::heap_page::spec_first_free(
                        cache1[ci as int].header@,
                        crate::heap_page::spec_num_slots(cache1[ci as int].td.types@),
                    );
                    assert(0 <= ff < self.cache@[ci as int].tuples@.len());
                    assert(self.cache@[ci as int].tuples@[ff].fields == t.fields);
                    assert(spec_slot_used(self.cache@[ci as int].header@, ff));
                }
                Ok(())
            },
            Err(_) => {
                proof {
                    assert(false);
                }
                vstd::pervasive::unreached()
            },
        }
    }
}

} // verus!
