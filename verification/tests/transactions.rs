//! End-to-end transactional behaviour: the canonical walk-through plus one
//! test per isolation guarantee.

use mvcc::{KVEngine, MvccError, Transaction, MVCC};

fn fresh() -> MVCC {
    MVCC::new(KVEngine::new())
}

fn pairs(expected: &[(&[u8], &[u8])]) -> Vec<(Vec<u8>, Vec<u8>)> {
    expected.iter().map(|(k, v)| (k.to_vec(), v.to_vec())).collect()
}

/// T0 sets a..e and commits.
fn stage_t0(m: &mut MVCC) {
    let mut t0 = m.begin_transaction();
    t0.set(m, b"a", b"a1".to_vec()).unwrap();
    t0.set(m, b"b", b"b1".to_vec()).unwrap();
    t0.set(m, b"c", b"c1".to_vec()).unwrap();
    t0.set(m, b"d", b"d1".to_vec()).unwrap();
    t0.set(m, b"e", b"e1".to_vec()).unwrap();
    t0.commit(m).unwrap();
}

/// T1 begins after T0's commit, sets a=a2 and e=e2, stays uncommitted.
fn stage_t1(m: &mut MVCC) -> Transaction {
    let t1 = m.begin_transaction();
    t1.set(m, b"a", b"a2".to_vec()).unwrap();
    t1.set(m, b"e", b"e2".to_vec()).unwrap();
    t1
}

/// T2 begins while T1 is active and deletes b.
fn stage_t2(m: &mut MVCC) -> Transaction {
    let t2 = m.begin_transaction();
    t2.delete(m, b"b").unwrap();
    t2
}

#[test]
fn committed_base_is_fully_visible() {
    let mut m = fresh();
    stage_t0(&mut m);
    let later = m.begin_transaction();
    let scan = later.scan_visible(&m).unwrap();
    assert_eq!(
        scan,
        pairs(&[(b"a", b"a1"), (b"b", b"b1"), (b"c", b"c1"), (b"d", b"d1"), (b"e", b"e1")])
    );
}

#[test]
fn uncommitted_writer_sees_its_own_writes_in_scan() {
    let mut m = fresh();
    stage_t0(&mut m);
    let t1 = stage_t1(&mut m);
    let scan = t1.scan_visible(&m).unwrap();
    assert_eq!(
        scan,
        pairs(&[(b"a", b"a2"), (b"b", b"b1"), (b"c", b"c1"), (b"d", b"d1"), (b"e", b"e2")])
    );
}

#[test]
fn concurrent_transaction_does_not_see_uncommitted_writes() {
    let mut m = fresh();
    stage_t0(&mut m);
    let _t1 = stage_t1(&mut m);
    let t2 = stage_t2(&mut m);
    let scan = t2.scan_visible(&m).unwrap();
    assert_eq!(scan, pairs(&[(b"a", b"a1"), (b"c", b"c1"), (b"d", b"d1"), (b"e", b"e1")]));
}

#[test]
fn repeatable_read_survives_concurrent_commit() {
    let mut m = fresh();
    stage_t0(&mut m);
    let mut t1 = stage_t1(&mut m);
    let t2 = stage_t2(&mut m);
    let before = t2.scan_visible(&m).unwrap();
    t1.commit(&mut m).unwrap();
    let after = t2.scan_visible(&m).unwrap();
    assert_eq!(before, after);
    assert_eq!(after, pairs(&[(b"a", b"a1"), (b"c", b"c1"), (b"d", b"d1"), (b"e", b"e1")]));
}

#[test]
fn later_transaction_sees_commit_but_not_concurrent_delete() {
    let mut m = fresh();
    stage_t0(&mut m);
    let mut t1 = stage_t1(&mut m);
    let _t2 = stage_t2(&mut m);
    t1.commit(&mut m).unwrap();
    let t3 = m.begin_transaction();
    let scan = t3.scan_visible(&m).unwrap();
    assert_eq!(
        scan,
        pairs(&[(b"a", b"a2"), (b"b", b"b1"), (b"c", b"c1"), (b"d", b"d1"), (b"e", b"e2")])
    );
}

#[test]
fn uncommitted_writes_of_distinct_versions_coexist() {
    let mut m = fresh();
    stage_t0(&mut m);
    let mut t1 = stage_t1(&mut m);
    let t2 = stage_t2(&mut m);
    t1.commit(&mut m).unwrap();
    let t3 = m.begin_transaction();
    // T3 writes a fresh key; T2 cannot see that uncommitted write, so its
    // own write of the same key also succeeds.
    t3.set(&mut m, b"f", b"f1".to_vec()).unwrap();
    assert_eq!(t2.set(&mut m, b"f", b"f1".to_vec()), Ok(()));
}

#[test]
fn committed_write_conflicts_with_older_snapshot() {
    let mut m = fresh();
    stage_t0(&mut m);
    let mut t1 = stage_t1(&mut m);
    let t2 = stage_t2(&mut m);
    t1.commit(&mut m).unwrap();
    let mut t3 = m.begin_transaction();
    t3.set(&mut m, b"f", b"f1".to_vec()).unwrap();
    t3.commit(&mut m).unwrap();
    // T3 committed after T2 began: its write of f is invisible to T2, so
    // T2's write of f must fail.
    assert_eq!(t2.set(&mut m, b"f", b"f1".to_vec()), Err(MvccError::SerializationConflict));
}

#[test]
fn read_your_own_writes() {
    let mut m = fresh();
    let t = m.begin_transaction();
    t.set(&mut m, b"k", b"v".to_vec()).unwrap();
    assert_eq!(t.get(&m, b"k").unwrap(), Some(b"v".to_vec()));
    // overwriting within the same transaction reads back the newest value
    t.set(&mut m, b"k", b"v2".to_vec()).unwrap();
    assert_eq!(t.get(&m, b"k").unwrap(), Some(b"v2".to_vec()));
}

#[test]
fn repeatable_read_of_single_key() {
    let mut m = fresh();
    let mut setter = m.begin_transaction();
    setter.set(&mut m, b"k", b"old".to_vec()).unwrap();
    setter.commit(&mut m).unwrap();
    let reader = m.begin_transaction();
    let mut writer = m.begin_transaction();
    assert_eq!(reader.get(&m, b"k").unwrap(), Some(b"old".to_vec()));
    writer.set(&mut m, b"k", b"new".to_vec()).unwrap();
    writer.commit(&mut m).unwrap();
    // the writer was active when the reader began: still the old value
    assert_eq!(reader.get(&m, b"k").unwrap(), Some(b"old".to_vec()));
}

#[test]
fn visibility_after_commit() {
    let mut m = fresh();
    let before = m.begin_transaction();
    let mut t = m.begin_transaction();
    t.set(&mut m, b"k", b"v".to_vec()).unwrap();
    t.commit(&mut m).unwrap();
    let after = m.begin_transaction();
    assert_eq!(after.get(&m, b"k").unwrap(), Some(b"v".to_vec()));
    // begun before the commit: does not see it
    assert_eq!(before.get(&m, b"k").unwrap(), None);
}

#[test]
fn write_write_conflict_is_detected() {
    let mut m = fresh();
    let t1 = m.begin_transaction();
    let t2 = m.begin_transaction();
    t1.set(&mut m, b"k", b"v1".to_vec()).unwrap();
    assert_eq!(t2.set(&mut m, b"k", b"v2".to_vec()), Err(MvccError::SerializationConflict));
    assert_eq!(t2.delete(&mut m, b"k"), Err(MvccError::SerializationConflict));
}

#[test]
fn rollback_removes_every_write() {
    let mut m = fresh();
    let mut t = m.begin_transaction();
    t.set(&mut m, b"x", b"1".to_vec()).unwrap();
    t.set(&mut m, b"y", b"2".to_vec()).unwrap();
    t.set(&mut m, b"x", b"3".to_vec()).unwrap();
    t.rollback(&mut m).unwrap();
    let later = m.begin_transaction();
    assert_eq!(later.get(&m, b"x").unwrap(), None);
    assert_eq!(later.get(&m, b"y").unwrap(), None);
    assert_eq!(later.scan_visible(&m).unwrap(), pairs(&[]));
}

#[test]
fn rollback_frees_the_key_for_other_writers() {
    let mut m = fresh();
    let mut t1 = m.begin_transaction();
    t1.set(&mut m, b"k", b"v1".to_vec()).unwrap();
    let t2 = m.begin_transaction();
    assert_eq!(t2.set(&mut m, b"k", b"v2".to_vec()), Err(MvccError::SerializationConflict));
    t1.rollback(&mut m).unwrap();
    assert_eq!(t2.set(&mut m, b"k", b"v2".to_vec()), Ok(()));
    assert_eq!(t2.get(&m, b"k").unwrap(), Some(b"v2".to_vec()));
}

#[test]
fn tombstone_reads_as_absent() {
    let mut m = fresh();
    let mut w = m.begin_transaction();
    w.set(&mut m, b"k", b"v".to_vec()).unwrap();
    w.commit(&mut m).unwrap();
    let mut d = m.begin_transaction();
    d.delete(&mut m, b"k").unwrap();
    // within the deleting transaction
    assert_eq!(d.get(&m, b"k").unwrap(), None);
    assert!(d.scan_visible(&m).unwrap().is_empty());
    d.commit(&mut m).unwrap();
    // and for any later transaction
    let later = m.begin_transaction();
    assert_eq!(later.get(&m, b"k").unwrap(), None);
    assert!(later.scan_visible(&m).unwrap().is_empty());
}

#[test]
fn operations_on_terminal_transactions_are_rejected() {
    let mut m = fresh();
    let mut t = m.begin_transaction();
    t.set(&mut m, b"k", b"v".to_vec()).unwrap();
    t.commit(&mut m).unwrap();
    assert_eq!(t.set(&mut m, b"k", b"w".to_vec()), Err(MvccError::InvalidTransactionState));
    assert_eq!(t.delete(&mut m, b"k"), Err(MvccError::InvalidTransactionState));
    assert_eq!(t.get(&m, b"k"), Err(MvccError::InvalidTransactionState));
    assert_eq!(t.scan_visible(&m), Err(MvccError::InvalidTransactionState));
    assert_eq!(t.commit(&mut m), Err(MvccError::InvalidTransactionState));
    assert_eq!(t.rollback(&mut m), Err(MvccError::InvalidTransactionState));
    let mut r = m.begin_transaction();
    r.rollback(&mut m).unwrap();
    assert_eq!(r.commit(&mut m), Err(MvccError::InvalidTransactionState));
}

#[test]
fn empty_store_reads_and_scans_as_empty() {
    let mut m = fresh();
    let t = m.begin_transaction();
    assert_eq!(t.get(&m, b"missing").unwrap(), None);
    assert!(t.scan_visible(&m).unwrap().is_empty());
}

#[test]
fn versions_increase_one_by_one() {
    let mut m = fresh();
    let a = m.begin_transaction();
    let b = m.begin_transaction();
    let c = m.begin_transaction();
    assert_eq!(a.version, 1);
    assert_eq!(b.version, 2);
    assert_eq!(c.version, 3);
}
