use heapstore::transaction::TransactionId;

#[test]
fn test_transaction_id_increments() {
    let mut counter: u64 = 0;
    let tid1 = TransactionId::new(&mut counter);
    let tid2 = TransactionId::new(&mut counter);
    assert_ne!(tid1, tid2);
}

#[test]
fn test_transaction_id_get_tid() {
    let mut counter: u64 = 0;
    let tid1 = TransactionId::new(&mut counter);
    let tid2 = TransactionId::new(&mut counter);
    assert_eq!(tid1.get_tid(), 0);
    assert_eq!(tid2.get_tid(), 1);
}
