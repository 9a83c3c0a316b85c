use heapstore::buffer_pool::PAGE_SIZE;
use heapstore::fields::FieldVal;
use heapstore::fields::IntField;
use heapstore::fields::StringField;
use heapstore::heap_page::HeapPage;
use heapstore::heap_page::HeapPageId;
use heapstore::tuple::RecordId;
use heapstore::tuple::Tuple;
use heapstore::tuple::TupleDesc;
use heapstore::types::Type;
use heapstore::Error;

fn sample_td() -> TupleDesc {
    TupleDesc::new(
        vec![Type::IntType, Type::StringType],
        vec!["a".to_string(), "b".to_string()],
    )
}

fn row(td: &TupleDesc, n: i32, s: &str) -> Tuple {
    Tuple::new(
        vec![
            FieldVal::IntField(IntField::new(n)),
            FieldVal::StringField(StringField::new(s.to_string(), s.len() as u32)),
        ],
        td,
    )
}

fn empty_page(pid: HeapPageId) -> HeapPage {
    HeapPage::new(pid, vec![0u8; PAGE_SIZE], sample_td()).unwrap()
}

#[test]
fn test_page_layout_constants() {
    let td = sample_td();
    assert_eq!(td.get_size(), 264);
    let page = empty_page(HeapPageId::new(1, 0));
    // 4096 * 8 bits / (264 * 8 + 1) bits per slot.
    assert_eq!(page.num_tuples(), 15);
    assert_eq!(page.get_num_empty_slots(), 15);
}

#[test]
fn test_page_round_trip() {
    let pid = HeapPageId::new(1, 0);
    let td = sample_td();
    let mut page = empty_page(pid);
    page.add_tuple(row(&td, 0, "x")).unwrap();
    page.add_tuple(row(&td, 1, "y")).unwrap();

    let data = page.get_page_data();
    assert_eq!(data.len(), PAGE_SIZE);
    // Header bitmap: slots 0 and 1 occupied.
    assert_eq!(data[0], 0x03);
    assert_eq!(data[1], 0x00);
    // Slot 0: int 0, then length 1, then 'x', zero-padded.
    assert_eq!(&data[2..6], &[0, 0, 0, 0]);
    assert_eq!(&data[6..10], &[0, 0, 0, 1]);
    assert_eq!(data[10], b'x');
    assert!(data[11..266].iter().all(|&b| b == 0));
    // Slot 1: int 1, then length 1, then 'y'.
    assert_eq!(&data[266..270], &[0, 0, 0, 1]);
    assert_eq!(&data[270..274], &[0, 0, 0, 1]);
    assert_eq!(data[274], b'y');
    // Free slots and trailing padding are all zero.
    assert!(data[275..].iter().all(|&b| b == 0));

    let page2 = HeapPage::new(pid, data, sample_td()).unwrap();
    assert_eq!(page2.get_num_empty_slots(), 13);
    assert_eq!(page2.get_tuple(0).get_fields(), row(&td, 0, "x").get_fields());
    assert_eq!(page2.get_tuple(1).get_fields(), row(&td, 1, "y").get_fields());
    // Decoded tuples carry the record id of their own slot.
    assert_eq!(page2.get_tuple(0).get_record_id(), RecordId::new(pid, 0));
    assert_eq!(page2.get_tuple(1).get_record_id(), RecordId::new(pid, 1));
    // The bitmap survives the round trip bit for bit.
    assert_eq!(page2.get_page_data(), page.get_page_data());
}

#[test]
fn test_page_full() {
    let pid = HeapPageId::new(1, 0);
    let td = sample_td();
    let mut page = empty_page(pid);
    for i in 0..15 {
        page.add_tuple(row(&td, i, "v")).unwrap();
    }
    assert_eq!(page.get_num_empty_slots(), 0);
    assert_eq!(page.add_tuple(row(&td, 99, "w")), Err(Error::PageFull));
}

#[test]
fn test_delete_not_on_page() {
    let pid = HeapPageId::new(1, 0);
    let td = sample_td();
    let mut page = empty_page(pid);
    page.add_tuple(row(&td, 0, "x")).unwrap();

    // A record id naming another page is rejected.
    let mut stray = row(&td, 0, "x");
    stray.set_record_id(RecordId::new(HeapPageId::new(2, 0), 0));
    assert_eq!(page.delete_tuple(stray), Err(Error::NotOnPage));

    // A free slot is rejected.
    let mut free = row(&td, 0, "x");
    free.set_record_id(RecordId::new(pid, 7));
    assert_eq!(page.delete_tuple(free), Err(Error::NotOnPage));

    // The occupied slot is deleted.
    let mut there = row(&td, 0, "x");
    there.set_record_id(RecordId::new(pid, 0));
    assert_eq!(page.delete_tuple(there), Ok(()));
    assert_eq!(page.get_num_empty_slots(), 15);
}

#[test]
fn test_before_image_restores_page() {
    let pid = HeapPageId::new(1, 0);
    let td = sample_td();
    let mut page = empty_page(pid);
    page.add_tuple(row(&td, 0, "x")).unwrap();
    page.set_before_image();
    let snapshot = page.get_page_data();

    page.add_tuple(row(&td, 1, "y")).unwrap();
    assert_ne!(page.get_page_data(), snapshot);

    page.restore_before_image();
    assert_eq!(page.get_page_data(), snapshot);
    assert_eq!(page.get_num_empty_slots(), 14);
}

#[test]
fn test_page_iterator_skips_free_slots() {
    let pid = HeapPageId::new(1, 0);
    let td = sample_td();
    let mut page = empty_page(pid);
    page.add_tuple(row(&td, 10, "p")).unwrap();
    page.add_tuple(row(&td, 11, "q")).unwrap();
    page.add_tuple(row(&td, 12, "r")).unwrap();
    let mut mid = row(&td, 11, "q");
    mid.set_record_id(RecordId::new(pid, 1));
    page.delete_tuple(mid).unwrap();

    let mut it = page.iter();
    let mut seen: Vec<i32> = Vec::new();
    while let Some(t) = it.next() {
        match t.get_field(0).unwrap() {
            FieldVal::IntField(f) => seen.push(f.get_value()),
            FieldVal::StringField(_) => panic!("wrong field kind"),
        }
    }
    assert_eq!(seen, vec![10, 12]);
}

#[test]
fn test_mark_dirty() {
    let pid = HeapPageId::new(1, 0);
    let mut page = empty_page(pid);
    assert!(!page.is_dirty());
    let mut counter: u64 = 0;
    let tid = heapstore::transaction::TransactionId::new(&mut counter);
    page.mark_dirty(true, tid);
    assert!(page.is_dirty());
    page.mark_dirty(false, tid);
    assert!(!page.is_dirty());
}

#[test]
fn test_page_id_serialize() {
    let pid = HeapPageId::new(5, 9);
    assert_eq!(pid.get_table_id(), 5);
    assert_eq!(pid.get_page_number(), 9);
    assert_eq!(pid.serialize(), vec![5, 9]);
}
