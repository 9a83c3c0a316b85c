use heapstore::buffer_pool::BufferPool;
use heapstore::buffer_pool::PAGE_SIZE;
use heapstore::catalog::Catalog;
use heapstore::fields::FieldVal;
use heapstore::fields::IntField;
use heapstore::fields::StringField;
use heapstore::heap_file::HeapFile;
use heapstore::heap_page::HeapPageId;
use heapstore::heap_page::Permission;
use heapstore::transaction::TransactionId;
use heapstore::tuple::RecordId;
use heapstore::tuple::Tuple;
use heapstore::tuple::TupleDesc;
use heapstore::types::Type;
use heapstore::Error;

fn sample_td() -> TupleDesc {
    TupleDesc::new(
        vec![Type::IntType, Type::StringType],
        vec!["id".to_string(), "name".to_string()],
    )
}

fn row(td: &TupleDesc, n: i32, s: &str) -> Tuple {
    Tuple::new(
        vec![
            FieldVal::IntField(IntField::new(n)),
            FieldVal::StringField(StringField::new(s.to_string(), s.len() as u32)),
        ],
        td,
    )
}

fn fresh_table(catalog: &mut Catalog, name: &str) -> usize {
    let file = HeapFile::new(sample_td());
    let id = file.get_id();
    catalog.add_table(file, name.to_string());
    id
}

#[test]
fn test_insert_commit_read_back() {
    let mut catalog = Catalog::new();
    let mut bp = BufferPool::new();
    let table_id = fresh_table(&mut catalog, "people");
    let td = sample_td();
    let mut counter: u64 = 0;
    let tid0 = TransactionId::new(&mut counter);

    for i in 0..3 {
        bp.insert_tuple(&mut catalog, tid0, table_id, row(&td, i, "v"))
            .unwrap();
    }
    bp.commit_transaction(&mut catalog, tid0);
    assert_eq!(bp.lock_manager.get_locked_pages(tid0).len(), 0);

    // The table now has exactly one page, holding the three rows in
    // insertion order.
    let tid1 = TransactionId::new(&mut counter);
    let file = catalog.get_table_from_name("people").unwrap();
    assert_eq!(file.num_pages(), 1);
    let mut pages = file.iter(tid1);
    let mut values: Vec<i32> = Vec::new();
    let mut page_count = 0;
    while let Some(page) = pages.next(&mut bp, &mut catalog).unwrap() {
        page_count += 1;
        assert_eq!(page.get_num_empty_slots(), page.num_tuples() - 3);
        let mut it = page.iter();
        let mut slot = 0;
        while let Some(t) = it.next() {
            assert_eq!(t.get_record_id(), RecordId::new(page.get_id(), slot));
            match t.get_field(0).unwrap() {
                FieldVal::IntField(f) => values.push(f.get_value()),
                FieldVal::StringField(_) => panic!("wrong field kind"),
            }
            slot += 1;
        }
    }
    assert_eq!(page_count, 1);
    assert_eq!(values, vec![0, 1, 2]);
    bp.commit_transaction(&mut catalog, tid1);
}

#[test]
fn test_younger_transaction_dies() {
    let mut catalog = Catalog::new();
    let mut bp = BufferPool::new();
    let table_id = fresh_table(&mut catalog, "t");
    let mut counter: u64 = 0;
    let tid0 = TransactionId::new(&mut counter);
    let tid1 = TransactionId::new(&mut counter);
    let pid = HeapPageId::new(table_id, 0);

    bp.get_page(&mut catalog, tid0, pid, Permission::Write).unwrap();
    // The younger transaction conflicts with an older holder: WAIT-DIE
    // aborts it, and the older holder keeps its lock.
    let r = bp.get_page(&mut catalog, tid1, pid, Permission::Read);
    assert_eq!(r.unwrap_err(), Error::TransactionAborted(1));
    assert_eq!(
        bp.lock_manager.holds_lock(tid0, pid),
        Some(Permission::Write)
    );
    assert_eq!(bp.lock_manager.holds_lock(tid1, pid), None);
    assert_eq!(bp.lock_manager.get_locked_pages(tid1).len(), 0);
}

#[test]
fn test_older_transaction_waits() {
    let mut catalog = Catalog::new();
    let mut bp = BufferPool::new();
    let table_id = fresh_table(&mut catalog, "t");
    let mut counter: u64 = 0;
    let tid0 = TransactionId::new(&mut counter);
    let tid1 = TransactionId::new(&mut counter);
    let pid = HeapPageId::new(table_id, 0);

    bp.get_page(&mut catalog, tid1, pid, Permission::Write).unwrap();
    // The older transaction must wait, not die.
    let r = bp.get_page(&mut catalog, tid0, pid, Permission::Read);
    assert_eq!(r.unwrap_err(), Error::LockWait);
    // After the younger holder commits, the retry succeeds.
    bp.commit_transaction(&mut catalog, tid1);
    bp.get_page(&mut catalog, tid0, pid, Permission::Read).unwrap();
    assert_eq!(bp.lock_manager.holds_lock(tid0, pid), Some(Permission::Read));
}

#[test]
fn test_abort_restores_page() {
    let mut catalog = Catalog::new();
    let mut bp = BufferPool::new();
    let table_id = fresh_table(&mut catalog, "t");
    let td = sample_td();
    let mut counter: u64 = 0;

    // Install one committed row so the before-image is not empty.
    let setup = TransactionId::new(&mut counter);
    bp.insert_tuple(&mut catalog, setup, table_id, row(&td, 1, "keep"))
        .unwrap();
    bp.commit_transaction(&mut catalog, setup);

    let pid = HeapPageId::new(table_id, 0);
    let tid = TransactionId::new(&mut counter);
    let before = bp
        .get_page(&mut catalog, tid, pid, Permission::Read)
        .unwrap()
        .get_page_data();

    bp.insert_tuple(&mut catalog, tid, table_id, row(&td, 2, "drop"))
        .unwrap();
    let dirty = bp.get_page(&mut catalog, tid, pid, Permission::Write).unwrap();
    assert!(dirty.is_dirty());
    assert_ne!(dirty.get_page_data(), before);

    bp.abort_transaction(tid);
    assert_eq!(bp.lock_manager.get_locked_pages(tid).len(), 0);

    let probe = TransactionId::new(&mut counter);
    let after = bp.get_page(&mut catalog, probe, pid, Permission::Read).unwrap();
    assert!(!after.is_dirty());
    assert_eq!(after.get_page_data(), before);
}

#[test]
fn test_read_page_grows_file() {
    let mut file = HeapFile::new(sample_td());
    let pid = HeapPageId::new(file.get_id(), 3);
    let page = file.read_page(&pid).unwrap();
    assert_eq!(file.num_pages(), 4);
    assert_eq!(file.data.len(), 4 * PAGE_SIZE);
    assert_eq!(page.get_num_empty_slots(), page.num_tuples());
}

#[test]
fn test_insert_rejects_mismatched_tuple() {
    let mut catalog = Catalog::new();
    let mut bp = BufferPool::new();
    let table_id = fresh_table(&mut catalog, "t");
    let mut counter: u64 = 0;
    let tid = TransactionId::new(&mut counter);
    // Wrong arity for the schema.
    let bad_td = TupleDesc::new(vec![Type::IntType], vec!["id".to_string()]);
    let bad = Tuple::new(vec![FieldVal::IntField(IntField::new(1))], &bad_td);
    assert_eq!(
        bp.insert_tuple(&mut catalog, tid, table_id, bad),
        Err(Error::DecodeError)
    );
    // A declared string length that disagrees with the payload is rejected
    // too, since such a row would not survive the disk round trip.
    let skewed = Tuple::new(
        vec![
            FieldVal::IntField(IntField::new(1)),
            FieldVal::StringField(StringField::new("hello".to_string(), 3)),
        ],
        &sample_td(),
    );
    assert_eq!(
        bp.insert_tuple(&mut catalog, tid, table_id, skewed),
        Err(Error::DecodeError)
    );
}

#[test]
fn test_delete_through_pool() {
    let mut catalog = Catalog::new();
    let mut bp = BufferPool::new();
    let table_id = fresh_table(&mut catalog, "t");
    let td = sample_td();
    let mut counter: u64 = 0;
    let tid = TransactionId::new(&mut counter);
    bp.insert_tuple(&mut catalog, tid, table_id, row(&td, 4, "gone"))
        .unwrap();
    let pid = HeapPageId::new(table_id, 0);

    let mut target = row(&td, 4, "gone");
    target.set_record_id(RecordId::new(pid, 0));
    bp.delete_tuple(&mut catalog, tid, table_id, target).unwrap();

    let page = bp.get_page(&mut catalog, tid, pid, Permission::Read).unwrap();
    assert_eq!(page.get_num_empty_slots(), page.num_tuples());

    let mut missing = row(&td, 4, "gone");
    missing.set_record_id(RecordId::new(pid, 0));
    assert_eq!(
        bp.delete_tuple(&mut catalog, tid, table_id, missing),
        Err(Error::NotOnPage)
    );
    bp.commit_transaction(&mut catalog, tid);
}

#[test]
fn test_insert_fills_pages_in_order() {
    let mut catalog = Catalog::new();
    let mut bp = BufferPool::new();
    let table_id = fresh_table(&mut catalog, "t");
    let td = sample_td();
    let mut counter: u64 = 0;
    let tid = TransactionId::new(&mut counter);
    // A page holds 15 rows of this schema; the 16th must open page 1.
    for i in 0..16 {
        bp.insert_tuple(&mut catalog, tid, table_id, row(&td, i, "r"))
            .unwrap();
    }
    bp.commit_transaction(&mut catalog, tid);
    let file = catalog.get_table_from_id(table_id).unwrap();
    assert_eq!(file.num_pages(), 2);

    let tid2 = TransactionId::new(&mut counter);
    let p0 = bp
        .get_page(&mut catalog, tid2, HeapPageId::new(table_id, 0), Permission::Read)
        .unwrap();
    let p1 = bp
        .get_page(&mut catalog, tid2, HeapPageId::new(table_id, 1), Permission::Read)
        .unwrap();
    assert_eq!(p0.get_num_empty_slots(), 0);
    assert_eq!(p1.get_num_empty_slots(), p1.num_tuples() - 1);
    bp.commit_transaction(&mut catalog, tid2);
}

#[test]
fn test_shared_locks_coexist() {
    let mut catalog = Catalog::new();
    let mut bp = BufferPool::new();
    let table_id = fresh_table(&mut catalog, "t");
    let mut counter: u64 = 0;
    let tid0 = TransactionId::new(&mut counter);
    let tid1 = TransactionId::new(&mut counter);
    let pid = HeapPageId::new(table_id, 0);
    bp.get_page(&mut catalog, tid0, pid, Permission::Read).unwrap();
    bp.get_page(&mut catalog, tid1, pid, Permission::Read).unwrap();
    assert_eq!(bp.lock_manager.holds_lock(tid0, pid), Some(Permission::Read));
    assert_eq!(bp.lock_manager.holds_lock(tid1, pid), Some(Permission::Read));
}

#[test]
fn test_lock_upgrade_in_place() {
    let mut catalog = Catalog::new();
    let mut bp = BufferPool::new();
    let table_id = fresh_table(&mut catalog, "t");
    let mut counter: u64 = 0;
    let tid = TransactionId::new(&mut counter);
    let pid = HeapPageId::new(table_id, 0);
    bp.get_page(&mut catalog, tid, pid, Permission::Read).unwrap();
    assert_eq!(bp.lock_manager.holds_lock(tid, pid), Some(Permission::Read));
    // The sole holder may upgrade to exclusive; the upgrade replaces the
    // shared lock rather than adding a second one.
    bp.get_page(&mut catalog, tid, pid, Permission::Write).unwrap();
    assert_eq!(bp.lock_manager.holds_lock(tid, pid), Some(Permission::Write));
    assert_eq!(bp.lock_manager.get_locked_pages(tid), vec![pid]);
}

#[test]
fn test_catalog_lookup_and_replace() {
    let mut catalog = Catalog::new();
    let first = HeapFile::new(sample_td());
    let first_id = first.get_id();
    catalog.add_table(first, "t".to_string());
    assert!(catalog.get_table_from_name("t").is_some());
    assert!(catalog.get_table_from_name("u").is_none());
    assert_eq!(catalog.get_table_from_id(first_id).unwrap().get_id(), first_id);
    let td = catalog.get_tuple_desc(first_id).unwrap();
    assert_eq!(td.get_size(), 264);

    // Adding under the same name replaces the table silently.
    let second = HeapFile::new(sample_td());
    let second_id = second.get_id();
    catalog.add_table(second, "t".to_string());
    assert_eq!(catalog.get_table_from_name("t").unwrap().get_id(), second_id);
}

#[test]
fn test_buffer_pool_capacity() {
    let bp = BufferPool::new();
    assert_eq!(bp.get_num_pages(), 50);
}

#[test]
fn test_abort_spans_two_tables() {
    let mut catalog = Catalog::new();
    let mut bp = BufferPool::new();
    let t1 = fresh_table(&mut catalog, "first");
    let t2 = fresh_table(&mut catalog, "second");
    let td = sample_td();
    let mut counter: u64 = 0;

    let keeper = TransactionId::new(&mut counter);
    bp.insert_tuple(&mut catalog, keeper, t1, row(&td, 1, "keep")).unwrap();
    bp.commit_transaction(&mut catalog, keeper);

    let loser = TransactionId::new(&mut counter);
    bp.insert_tuple(&mut catalog, loser, t1, row(&td, 2, "drop")).unwrap();
    bp.insert_tuple(&mut catalog, loser, t2, row(&td, 3, "drop")).unwrap();
    bp.abort_transaction(loser);

    let probe = TransactionId::new(&mut counter);
    let p1 = bp
        .get_page(&mut catalog, probe, HeapPageId::new(t1, 0), Permission::Read)
        .unwrap();
    let p2 = bp
        .get_page(&mut catalog, probe, HeapPageId::new(t2, 0), Permission::Read)
        .unwrap();
    assert_eq!(p1.get_num_empty_slots(), p1.num_tuples() - 1);
    assert_eq!(p2.get_num_empty_slots(), p2.num_tuples());
    assert!(!p1.is_dirty());
    assert!(!p2.is_dirty());
}

#[test]
fn test_loaded_page_keeps_its_image_as_before_image() {
    // Commit rows, then start over with an empty cache, as a new process
    // would: the page is loaded from the file image. A transaction that
    // dirties the loaded page and aborts must get the loaded rows back,
    // not an empty page.
    let mut catalog = Catalog::new();
    let mut bp = BufferPool::new();
    let table_id = fresh_table(&mut catalog, "t");
    let td = sample_td();
    let mut counter: u64 = 0;

    let writer = TransactionId::new(&mut counter);
    bp.insert_tuple(&mut catalog, writer, table_id, row(&td, 7, "kept"))
        .unwrap();
    bp.commit_transaction(&mut catalog, writer);

    // Fresh pool over the same catalog: nothing cached.
    let mut bp = BufferPool::new();
    let pid = HeapPageId::new(table_id, 0);
    let tid = TransactionId::new(&mut counter);
    let loaded = bp.get_page(&mut catalog, tid, pid, Permission::Read).unwrap();
    assert_eq!(loaded.get_num_empty_slots(), loaded.num_tuples() - 1);
    let image = loaded.get_page_data();

    bp.insert_tuple(&mut catalog, tid, table_id, row(&td, 8, "dropped"))
        .unwrap();
    bp.abort_transaction(tid);

    let probe = TransactionId::new(&mut counter);
    let after = bp.get_page(&mut catalog, probe, pid, Permission::Read).unwrap();
    assert_eq!(after.get_page_data(), image);
    assert_eq!(after.get_num_empty_slots(), after.num_tuples() - 1);
}

#[test]
fn test_corrupt_stored_page_surfaces_decode_error() {
    // A stored image whose occupied slot holds invalid UTF-8 must surface
    // as DecodeError from every reading path, with the lock still held.
    let mut catalog = Catalog::new();
    let mut bp = BufferPool::new();
    let mut file = HeapFile::new(sample_td());
    let table_id = file.get_id();
    let mut bytes = vec![0u8; PAGE_SIZE];
    bytes[0] = 0x01; // slot 0 occupied
    bytes[6..10].copy_from_slice(&[0, 0, 0, 2]); // string length 2...
    bytes[10] = 0xff; // ...but not UTF-8
    bytes[11] = 0xff;
    file.data = bytes;
    catalog.add_table(file, "t".to_string());

    let mut counter: u64 = 0;
    let tid = TransactionId::new(&mut counter);
    let pid = HeapPageId::new(table_id, 0);
    assert_eq!(
        bp.get_page(&mut catalog, tid, pid, Permission::Read).unwrap_err(),
        Error::DecodeError
    );
    assert_eq!(bp.lock_manager.holds_lock(tid, pid), Some(Permission::Read));
    bp.abort_transaction(tid);

    let tid2 = TransactionId::new(&mut counter);
    let mut bp = BufferPool::new();
    assert_eq!(
        bp.insert_tuple(&mut catalog, tid2, table_id, row(&sample_td(), 1, "x")),
        Err(Error::DecodeError)
    );

    let mut bp = BufferPool::new();
    let tid3 = TransactionId::new(&mut counter);
    let file = catalog.get_table_from_id(table_id).unwrap();
    let mut pages = file.iter(tid3);
    assert_eq!(
        pages.next(&mut bp, &mut catalog).unwrap_err(),
        Error::DecodeError
    );
}
