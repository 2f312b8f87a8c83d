use britt_marie::group::{DELETED, EMPTY, GROUP_WIDTH, MODIFIED, SAFE};
use britt_marie::table::RawTable;

#[test]
fn growth_left_and_deleted_accounting() {
    // four keys sharing one probe group; a table this small keeps every
    // probe inside a single window
    let mut table: RawTable<u64, u64> = RawTable::with_capacity(8, 5);
    let hash = 0x0123_4567_89ab_cdefu64;
    for k in 0..4u64 {
        table.insert(hash, k, k + 100);
    }
    assert_eq!(table.len(), 4);
    // make the entries clean so the middle one may be erased
    let drained = table.drain_modified();
    assert_eq!(drained.len(), 4);
    let middle = table.find(hash, &1).unwrap();
    let capacity_before = table.capacity();
    table.erase_by_index(middle.index);
    // the runs around the victim fall short of a full group, so the slot
    // returns to EMPTY and the growth budget grows back
    assert_eq!(table.ctrl_byte(middle.index), EMPTY);
    assert_eq!(table.capacity(), capacity_before);
    assert_eq!(table.len(), 3);
    for k in [0u64, 2, 3] {
        let b = table.find(hash, &k).unwrap();
        assert_eq!(table.bucket_pair(b.index).unwrap().1, k + 100);
    }
}

#[test]
fn deleted_inside_full_probe_run() {
    // a full group of colliding keys: erasing inside the run must leave
    // DELETED so later probes keep walking past it
    let mut table: RawTable<u64, u64> = RawTable::with_capacity(28, 5);
    let hash = 0u64;
    let n = (GROUP_WIDTH + 1) as u64;
    for k in 0..n {
        table.insert(hash, k, k);
    }
    let drained = table.drain_modified();
    assert_eq!(drained.len(), n as usize);
    let middle = table.find(hash, &5).unwrap();
    let capacity_before = table.capacity();
    table.erase_by_index(middle.index);
    assert_eq!(table.ctrl_byte(middle.index), DELETED);
    // a DELETED slot keeps the budget spent
    assert_eq!(table.capacity(), capacity_before - 1);
    for k in 0..n {
        if k == 5 {
            assert!(table.find(hash, &k).is_none());
        } else {
            assert!(table.find(hash, &k).is_some());
        }
    }
}

#[test]
fn insert_sets_modified_and_counters() {
    let mut table: RawTable<u64, u64> = RawTable::with_capacity(8, 5);
    assert_eq!(table.len(), 0);
    assert_eq!(table.mod_counter(), 0);
    let b = table.insert(7, 1, 2);
    assert_eq!(table.meta_byte(b.index), MODIFIED);
    assert_eq!(table.len(), 1);
    assert_eq!(table.mod_counter(), 1);
    let drained = table.drain_modified();
    assert_eq!(drained, vec![(1u64, 2u64)]);
    assert_eq!(table.mod_counter(), 0);
    assert_eq!(table.meta_byte(b.index), SAFE);
}

#[test]
fn safe_eviction_keeps_table_at_capacity() {
    // fill the clean pool, then keep inserting: each insertion past the
    // ceiling erases exactly one clean victim
    let mut table: RawTable<u64, u64> = RawTable::with_capacity(4, 4);
    let capacity = table.capacity();
    for k in 0..32u64 {
        table.insert(k.wrapping_mul(0x9e37_79b9_7f4a_7c15), k, k);
        let _ = table.drain_modified();
        assert!(table.len() <= capacity);
    }
}
