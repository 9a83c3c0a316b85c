//! Heap files: the durable, seekable store of pages for one table, modelled
//! as an in-memory byte image. The image is always a whole number of pages;
//! reading a page past the end first grows the image with zero-filled pages
//! (the sole mechanism by which a file grows). Callers that persist tables
//! read and write the image as a unit.

use vstd::prelude::*;

verus! {

use crate::Error;
use crate::buffer_pool::PAGE_SIZE;
use crate::codec::push_zero_bytes;
use crate::codec::zero_bytes;
use crate::heap_page::HeapPage;
use crate::heap_page::HeapPageId;
use crate::heap_page::Permission;
use crate::heap_page::spec_decode_page;
use crate::heap_page::spec_encode_page;
use crate::heap_page::spec_num_slots;
use crate::heap_page::td_fits;
use crate::transaction::TransactionId;
use crate::tuple::TupleDesc;

/// Relies on `uuid::Uuid::new_v4` and `Uuid::as_u128`: a freshly generated
/// random version-4 identifier, truncated to the pointer width. Nothing is
/// assumed of the value; distinct tables get distinct ids only with high
/// probability.
#[verifier::external_body]
fn fresh_table_id() -> usize {
    uuid::Uuid::new_v4().as_u128() as usize
}

/// A table's backing store: its schema, its stable table id, and the file
/// image, a raw sequence of `PAGE_SIZE`-aligned pages.
pub struct HeapFile {
    pub data: Vec<u8>,
    pub td: TupleDesc,
    pub id: usize,
}

impl HeapFile {
    /// The file image is a whole number of pages and the schema both fits
    /// the slot arithmetic and allows at least one slot per page.
    pub open spec fn wf(self) -> bool {
        &&& td_fits(self.td.types@)
        &&& spec_num_slots(self.td.types@) >= 1
        &&& self.data@.len() as int % (PAGE_SIZE as int) == 0
    }

    /// Number of pages of this file.
    pub open spec fn spec_num_pages(self) -> int {
        self.data@.len() as int / (PAGE_SIZE as int)
    }

    /// An empty heap file for rows of schema `td`, under a freshly
    /// generated table id.
    pub fn new(td: TupleDesc) -> (f: Self)
        requires
            td_fits(td.types@),
            spec_num_slots(td.types@) >= 1,
        ensures
            f.wf(),
            f.td == td,
            f.data@.len() == 0,
    {
        HeapFile { data: Vec::new(), td, id: fresh_table_id() }
    }

    /// The stable id of this table.
    pub fn get_id(&self) -> (id: usize)
        ensures
            id == self.id,
    {
        self.id
    }

    /// The schema of this table's rows.
    pub fn get_tuple_desc(&self) -> (td: &TupleDesc)
        ensures
            *td == self.td,
    {
        &self.td
    }

    /// Number of pages of this file.
    pub fn num_pages(&self) -> (n: usize)
        requires
            self.wf(),
        ensures
            n == self.spec_num_pages(),
    {
        self.data.len() / PAGE_SIZE
    }

    /// Reads one page from the image, growing the image with zero-filled
    /// pages first when the page lies past the end. The decoded page is
    /// stamped with the requested id. Fails with `DecodeError` exactly when
    /// some occupied slot of the stored bytes is malformed.
    pub fn read_page(&mut self, pid: &HeapPageId) -> (r: Result<HeapPage, Error>)
        requires
            old(self).wf(),
            (pid.page_number + 1) * PAGE_SIZE <= usize::MAX,
        ensures
            final(self).wf(),
            final(self).td == old(self).td,
            final(self).id == old(self).id,
            file_grown(*old(self), *final(self), pid.page_number as int),
            ({
                let slice = final(self).data@.subrange(
                    pid.page_number as int * PAGE_SIZE,
                    (pid.page_number + 1) as int * PAGE_SIZE,
                );
                &&& (r is Ok <==> spec_decode_page(slice, old(self).td.types@) is Some)
                &&& (r matches Ok(p) ==> {
                    &&& p.wf()
                    &&& p.pid == *pid
                    &&& p.td.types@ == old(self).td.types@
                    &&& p.td.fields@ == old(self).td.fields@
                    &&& p.spec_content() == spec_decode_page(slice, old(self).td.types@).unwrap()
                    &&& p.old_data@ == slice
                    &&& p.dirtied_by is None
                })
                &&& (r matches Err(e) ==> e == Error::DecodeError)
            }),
    {
        let pn = pid.get_page_number();
        let needed = (pn + 1) * PAGE_SIZE;
        if self.data.len() < needed {
            let cur = self.data.len();
            push_zero_bytes(&mut self.data, needed - cur);
            proof {
                assert(self.data@ =~= old(self).data@ + zero_bytes(
                    needed - old(self).data@.len(),
                ));
            }
        }
        let page_data = vstd::slice::slice_to_vec(
            vstd::slice::slice_subrange(self.data.as_slice(), pn * PAGE_SIZE, needed),
        );
        proof {
            assert(page_data@ =~= self.data@.subrange(
                pid.page_number as int * PAGE_SIZE,
                (pid.page_number + 1) as int * PAGE_SIZE,
            ));
            if old(self).data@.len() < needed {
                vstd::arithmetic::div_mod::lemma_mod_multiples_basic(
                    (pid.page_number + 1) as int,
                    PAGE_SIZE as int,
                );
            }
        }
        HeapPage::new(*pid, page_data, self.td.clone())
    }

    /// Writes one page's encoding into the image at the page's offset,
    /// growing the image with zero-filled pages first when the page lies
    /// past the end.
    pub fn write_page(&mut self, page: &HeapPage)
        requires
            old(self).wf(),
            page.wf(),
            (page.pid.page_number + 1) * PAGE_SIZE <= usize::MAX,
        ensures
            final(self).wf(),
            final(self).td == old(self).td,
            final(self).id == old(self).id,
            final(self).data@.len() as int == (if old(self).data@.len() >= (page.pid.page_number
                + 1) as int * PAGE_SIZE {
                old(self).data@.len() as int
            } else {
                (page.pid.page_number + 1) as int * PAGE_SIZE
            }),
            final(self).data@.subrange(
                page.pid.page_number as int * PAGE_SIZE,
                (page.pid.page_number + 1) as int * PAGE_SIZE,
            ) == spec_encode_page(page.spec_content(), page.td.types@),
            forall|k: int|
                0 <= k < final(self).data@.len() && !(page.pid.page_number as int * PAGE_SIZE <= k
                    < (page.pid.page_number + 1) as int * PAGE_SIZE) ==> final(self).data@[k] == (
                if k < old(self).data@.len() {
                    old(self).data@[k]
                } else {
                    0u8
                }),
    {
        let pn = page.get_id().get_page_number();
        let needed = (pn + 1) * PAGE_SIZE;
        if self.data.len() < needed {
            let cur = self.data.len();
            push_zero_bytes(&mut self.data, needed - cur);
            proof {
                vstd::arithmetic::div_mod::lemma_mod_multiples_basic(
                    (page.pid.page_number + 1) as int,
                    PAGE_SIZE as int,
                );
            }
        }
        let ghost grown = self.data@;
        let enc = page.get_page_data();
        let off = pn * PAGE_SIZE;
        let mut i: usize = 0;
        while i < PAGE_SIZE
            invariant
                i <= PAGE_SIZE,
                off == pn * PAGE_SIZE,
                off + PAGE_SIZE <= self.data@.len(),
                self.td == old(self).td,
                self.id == old(self).id,
                old(self).wf(),
                grown.len() as int % (PAGE_SIZE as int) == 0,
                enc@.len() == PAGE_SIZE,
                enc@ == spec_encode_page(page.spec_content(), page.td.types@),
                self.data@.len() == grown.len(),
                forall|k: int| 0 <= k < off ==> self.data@[k] == grown[k],
                forall|k: int| off + PAGE_SIZE <= k < grown.len() ==> self.data@[k] == grown[k],
                forall|k: int| 0 <= k < i ==> self.data@[off + k] == enc@[k],
            decreases PAGE_SIZE - i,
        {
            self.data.set(off + i, enc[i]);
            i = i + 1;
        }
        proof {
            assert(self.data@.subrange(
                page.pid.page_number as int * PAGE_SIZE,
                (page.pid.page_number + 1) as int * PAGE_SIZE,
            ) =~= enc@);
            assert forall|k: int|
                0 <= k < self.data@.len() && !(page.pid.page_number as int * PAGE_SIZE <= k < (
                page.pid.page_number + 1) as int * PAGE_SIZE) implies self.data@[k] == (if k < old(self).data@.len() {
                old(self).data@[k]
            } else {
                0u8
            }) by {
                assert(self.data@[k] == grown[k]);
            }
        }
    }
}

/// Some page image stored in the file fails to decode.
pub open spec fn has_undecodable_page(f: HeapFile) -> bool {
    exists|p: int|
        0 <= p < f.spec_num_pages() && spec_decode_page(
            #[trigger] f.data@.subrange(p * PAGE_SIZE, (p + 1) * PAGE_SIZE),
            f.td.types@,
        ) is None
}

/// How a file image relates to its old self after a read of page `pn`: the
/// image is unchanged when the page already existed, and zero-extended up to
/// and including that page otherwise.
pub open spec fn file_grown(f0: HeapFile, f1: HeapFile, pn: int) -> bool {
    &&& f1.id == f0.id
    &&& f1.td == f0.td
    &&& (if f0.data@.len() >= (pn + 1) * PAGE_SIZE {
        f1.data@ == f0.data@
    } else {
        f1.data@ == f0.data@ + zero_bytes((pn + 1) * PAGE_SIZE - f0.data@.len())
    })
}


impl HeapFile {
    /// An iterator over this file's pages under shared locks.
    pub fn iter(&self, tid: TransactionId) -> (it: HeapFileIterator)
        ensures
            it.table_id == self.id,
            it.current_page_index == 0,
            it.tid == tid,
    {
        HeapFileIterator { table_id: self.id, current_page_index: 0, tid }
    }

    /// An iterator over this file's pages under exclusive locks.
    pub fn iter_mut(&self, tid: TransactionId) -> (it: HeapFileIteratorMut)
        ensures
            it.table_id == self.id,
            it.current_page_index == 0,
            it.tid == tid,
    {
        HeapFileIteratorMut { table_id: self.id, current_page_index: 0, tid }
    }
}

/// Iterator over the pages of one table, in page order, acquiring a shared
/// lock on each page before yielding it. The page count is observed afresh
/// at every step, so pages appended meanwhile are still visited.
pub struct HeapFileIterator {
    pub table_id: usize,
    pub current_page_index: usize,
    pub tid: TransactionId,
}

/// Iterator over the pages of one table, in page order, acquiring an
/// exclusive lock on each page before yielding it.
pub struct HeapFileIteratorMut {
    pub table_id: usize,
    pub current_page_index: usize,
    pub tid: TransactionId,
}

impl HeapFileIterator {
    /// The next page of the table under a shared lock, or `None` when the
    /// iterator has passed the last page. Lock failures surface as the
    /// errors of `BufferPool::get_page`.
    pub fn next(
        &mut self,
        bp: &mut crate::buffer_pool::BufferPool,
        catalog: &mut crate::catalog::Catalog,
    ) -> (r: Result<Option<HeapPage>, crate::Error>)
        requires
            old(bp).wf(),
            old(catalog).wf(),
            old(bp).consistent_with(*old(catalog)),
            crate::catalog::spec_id_index(old(catalog).files@, old(self).table_id) < old(catalog).files@.len(),
        ensures
            final(bp).wf(),
            final(catalog).wf(),
            final(bp).consistent_with(*final(catalog)),
            crate::buffer_pool::catalog_growth_preserved(*old(catalog), *final(catalog)),
            final(self).table_id == old(self).table_id,
            final(self).tid == old(self).tid,
            r matches Ok(po) ==> (po matches Some(p) ==> p.wf() && p.pid.table_id == old(self).table_id && p.pid.page_number == old(self).current_page_index && final(self).current_page_index == old(self).current_page_index + 1),
            (r matches Ok(po) && po is None) ==> *final(self) == *old(self) && old(self).current_page_index >= old(catalog).files@[crate::catalog::spec_id_index(
                old(catalog).files@,
                old(self).table_id,
            )].spec_num_pages(),
            r is Err ==> *final(self) == *old(self),
            r is Err ==> (r == Err::<Option<HeapPage>, crate::Error>(crate::Error::DecodeError)
                || r == Err::<Option<HeapPage>, crate::Error>(crate::Error::LockWait) || r
                == Err::<Option<HeapPage>, crate::Error>(
                crate::Error::TransactionAborted(old(self).tid.tid),
            )),
            r == Err::<Option<HeapPage>, crate::Error>(crate::Error::LockWait) ==> exists|
                l: crate::lock_manager::Lock,
            |
                #[trigger] final(bp).lock_manager.locks@.contains(l) && l.tid != old(self).tid
                    && l.pid.table_id == old(self).table_id,
            r == Err::<Option<HeapPage>, crate::Error>(
                crate::Error::TransactionAborted(old(self).tid.tid),
            ) ==> exists|l: crate::lock_manager::Lock|
                #[trigger] final(bp).lock_manager.locks@.contains(l) && l.tid.tid < old(
                    self,
                ).tid.tid && l.pid.table_id == old(self).table_id,
            r == Err::<Option<HeapPage>, crate::Error>(crate::Error::DecodeError) ==> ({
                let j = crate::catalog::spec_id_index(old(catalog).files@, old(self).table_id);
                let f1 = final(catalog).files@[j];
                let oi = old(self).current_page_index as int;
                let slice = f1.data@.subrange(oi * PAGE_SIZE, (oi + 1) * PAGE_SIZE);
                &&& spec_decode_page(slice, f1.td.types@) is None
            }),
    {
        next_step(self.table_id, self.tid, &mut self.current_page_index, bp, catalog, false)
    }
}

impl HeapFileIteratorMut {
    /// The next page of the table under an exclusive lock, or `None` when
    /// the iterator has passed the last page.
    pub fn next(
        &mut self,
        bp: &mut crate::buffer_pool::BufferPool,
        catalog: &mut crate::catalog::Catalog,
    ) -> (r: Result<Option<HeapPage>, crate::Error>)
        requires
            old(bp).wf(),
            old(catalog).wf(),
            old(bp).consistent_with(*old(catalog)),
            crate::catalog::spec_id_index(old(catalog).files@, old(self).table_id) < old(catalog).files@.len(),
        ensures
            final(bp).wf(),
            final(catalog).wf(),
            final(bp).consistent_with(*final(catalog)),
            crate::buffer_pool::catalog_growth_preserved(*old(catalog), *final(catalog)),
            final(self).table_id == old(self).table_id,
            final(self).tid == old(self).tid,
            r matches Ok(po) ==> (po matches Some(p) ==> p.wf() && p.pid.table_id == old(self).table_id && p.pid.page_number == old(self).current_page_index && final(self).current_page_index == old(self).current_page_index + 1),
            (r matches Ok(po) && po is None) ==> *final(self) == *old(self) && old(self).current_page_index >= old(catalog).files@[crate::catalog::spec_id_index(
                old(catalog).files@,
                old(self).table_id,
            )].spec_num_pages(),
            r is Err ==> *final(self) == *old(self),
            r is Err ==> (r == Err::<Option<HeapPage>, crate::Error>(crate::Error::DecodeError)
                || r == Err::<Option<HeapPage>, crate::Error>(crate::Error::LockWait) || r
                == Err::<Option<HeapPage>, crate::Error>(
                crate::Error::TransactionAborted(old(self).tid.tid),
            )),
            r == Err::<Option<HeapPage>, crate::Error>(crate::Error::LockWait) ==> exists|
                l: crate::lock_manager::Lock,
            |
                #[trigger] final(bp).lock_manager.locks@.contains(l) && l.tid != old(self).tid
                    && l.pid.table_id == old(self).table_id,
            r == Err::<Option<HeapPage>, crate::Error>(
                crate::Error::TransactionAborted(old(self).tid.tid),
            ) ==> exists|l: crate::lock_manager::Lock|
                #[trigger] final(bp).lock_manager.locks@.contains(l) && l.tid.tid < old(
                    self,
                ).tid.tid && l.pid.table_id == old(self).table_id,
            r == Err::<Option<HeapPage>, crate::Error>(crate::Error::DecodeError) ==> ({
                let j = crate::catalog::spec_id_index(old(catalog).files@, old(self).table_id);
                let f1 = final(catalog).files@[j];
                let oi = old(self).current_page_index as int;
                let slice = f1.data@.subrange(oi * PAGE_SIZE, (oi + 1) * PAGE_SIZE);
                &&& spec_decode_page(slice, f1.td.types@) is None
            }),
    {
        next_step(self.table_id, self.tid, &mut self.current_page_index, bp, catalog, true)
    }
}

/// One step of a page iterator: observes the table's current page count,
/// stops past the end, else fetches the next page under the requested lock
/// mode and advances.
fn next_step(
    table_id: usize,
    tid: TransactionId,
    index: &mut usize,
    bp: &mut crate::buffer_pool::BufferPool,
    catalog: &mut crate::catalog::Catalog,
    exclusive: bool,
) -> (r: Result<Option<HeapPage>, crate::Error>)
    requires
        old(bp).wf(),
        old(catalog).wf(),
        old(bp).consistent_with(*old(catalog)),
        crate::catalog::spec_id_index(old(catalog).files@, table_id) < old(catalog).files@.len(),
    ensures
        final(bp).wf(),
        final(catalog).wf(),
        final(bp).consistent_with(*final(catalog)),
        crate::buffer_pool::catalog_growth_preserved(*old(catalog), *final(catalog)),
        r matches Ok(po) ==> (po matches Some(p) ==> p.wf() && p.pid.table_id == table_id
            && p.pid.page_number == *old(index) && *final(index) == *old(index) + 1),
        (r matches Ok(po) && po is None) ==> *final(index) == *old(index) && *old(index) >= old(catalog).files@[crate::catalog::spec_id_index(
            old(catalog).files@,
            table_id,
        )].spec_num_pages() && *final(bp) == *old(bp) && *final(catalog) == *old(catalog),
        r is Err ==> *final(index) == *old(index),
        r is Err ==> (r == Err::<Option<HeapPage>, crate::Error>(crate::Error::DecodeError) || r
            == Err::<Option<HeapPage>, crate::Error>(crate::Error::LockWait) || r == Err::<
            Option<HeapPage>,
            crate::Error,
        >(crate::Error::TransactionAborted(tid.tid))),
        r == Err::<Option<HeapPage>, crate::Error>(crate::Error::LockWait) ==> exists|
            l: crate::lock_manager::Lock,
        |
            #[trigger] final(bp).lock_manager.locks@.contains(l) && l.tid != tid
                && l.pid.table_id == table_id,
        r == Err::<Option<HeapPage>, crate::Error>(crate::Error::TransactionAborted(tid.tid))
            ==> exists|l: crate::lock_manager::Lock|
            #[trigger] final(bp).lock_manager.locks@.contains(l) && l.tid.tid < tid.tid
                && l.pid.table_id == table_id,
        r == Err::<Option<HeapPage>, crate::Error>(crate::Error::DecodeError) ==> ({
            let j = crate::catalog::spec_id_index(old(catalog).files@, table_id);
            let f1 = final(catalog).files@[j];
            let oi = *old(index) as int;
            let slice = f1.data@.subrange(oi * PAGE_SIZE, (oi + 1) * PAGE_SIZE);
            &&& crate::buffer_pool::spec_cache_index(
                old(bp).cache@,
                (HeapPageId { table_id, page_number: *old(index) }),
            ) >= old(bp).cache@.len()
            &&& spec_decode_page(slice, f1.td.types@) is None
        }),
{
    proof {
        crate::catalog::lemma_id_index_props(catalog.files@, table_id, 0);
    }
    let ti = match catalog.table_index_of(table_id) {
        Some(x) => x,
        None => {
            proof {
                assert(false);
            }
            vstd::pervasive::unreached()
        },
    };
    let dl = catalog.files[ti].data.len();
    let np = catalog.files[ti].num_pages();
    if *index >= np {
        proof {
            crate::buffer_pool::lemma_growth_preserved_refl(*catalog);
        }
        return Ok(None);
    }
    let pid = HeapPageId::new(table_id, *index);
    proof {
        vstd::arithmetic::div_mod::lemma_fundamental_div_mod(dl as int, PAGE_SIZE as int);
        assert((pid.page_number + 1) * PAGE_SIZE <= np as int * PAGE_SIZE) by (nonlinear_arith)
            requires
                pid.page_number + 1 <= np,
                PAGE_SIZE >= 1,
        ;
        assert(np as int * PAGE_SIZE == dl as int);
    }
    let perm = if exclusive {
        Permission::Write
    } else {
        Permission::Read
    };
    let ghost cat1 = *catalog;
    let ghost bp1 = *bp;
    let got = bp.get_page(catalog, tid, pid, perm);
    proof {
        if *catalog == cat1 {
            crate::buffer_pool::lemma_growth_preserved_refl(cat1);
        }
    }
    match got {
        Ok(p) => {
            proof {
                crate::buffer_pool::lemma_cache_index_props(bp.cache@, pid, 0);
            }
            *index = *index + 1;
            Ok(Some(p))
        },
        Err(e) => {
            proof {
                crate::buffer_pool::lemma_err_witness(
                    bp1,
                    *bp,
                    tid,
                    pid,
                    perm == Permission::Write,
                    e,
                );
            }
            Err(e)
        },
    }
}

} // verus!
