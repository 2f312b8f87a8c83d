use britt_marie::data::{Key, Value};
use britt_marie::group::{MODIFIED, SAFE, SAFE_TOUCHED};
use britt_marie::hash_index::HashIndex;
use britt_marie::store::RawStore;
use britt_marie::value_index::ValueIndex;

#[test]
fn simple_test() {}

#[test]
fn mod_simple_test() {}

#[test]
fn construction_rejects_bad_factor() {
    assert!(HashIndex::<u64, u64>::new(4, 0).is_err());
    assert!(HashIndex::<u64, u64>::new(4, 10).is_err());
    assert!(HashIndex::<u64, u64>::new(0, 4).is_err());
    assert!(HashIndex::<u64, u64>::new(4, 4).is_ok());
    assert!(HashIndex::<u64, u64>::cow(4, 9).is_ok());
}

#[test]
fn simple_round_trip() {
    let mut store = RawStore::new();
    let mut index: HashIndex<u64, u64> = HashIndex::new(4, 4).unwrap();
    index.put(1, 10, &mut store).unwrap();
    assert_eq!(index.get(&1, &mut store), Some(&10));
    assert_eq!(index.get(&5, &mut store), None);
    assert_eq!(index.rmw(&1, |v| v + 5, &mut store), Ok(true));
    assert_eq!(index.get(&1, &mut store), Some(&15));
    assert_eq!(index.rmw(&5, |v| v + 5, &mut store), Ok(false));
}

#[test]
fn mod_basic_test() {
    // keys spill through the modification ceiling into the store and come
    // back on lookup
    let mut store = RawStore::new();
    let capacity = 4;
    let mut hash_index: HashIndex<u64, u64> = HashIndex::new(capacity, 4).unwrap();
    for i in 0..1024u64 {
        hash_index.put(i, i, &mut store).unwrap();
        let key: u64 = i;
        assert_eq!(hash_index.get(&key, &mut store), Some(&key));
    }
    assert_eq!(hash_index.persist(&mut store).is_ok(), true);
    assert_eq!(store.checkpoint().is_ok(), true);
}

#[test]
fn touched_bit_promotion() {
    let mut store = RawStore::new();
    let mut index: HashIndex<u64, u64> = HashIndex::new(16, 5).unwrap();
    let k = 7u64;
    index.put(k, 42, &mut store).unwrap();
    assert_eq!(index.key_meta(&k), Some(MODIFIED));
    assert_eq!(index.get(&k, &mut store), Some(&42));
    assert_eq!(index.key_meta(&k), Some(MODIFIED));
    index.persist(&mut store).unwrap();
    assert_eq!(index.key_meta(&k), Some(SAFE));
    assert_eq!(index.get(&k, &mut store), Some(&42));
    assert_eq!(index.key_meta(&k), Some(SAFE_TOUCHED));
}

#[test]
fn value_index_cow_replay() {
    let mut store = RawStore::new();
    let mut value_index: ValueIndex<u64> = ValueIndex::cow(b"_c".to_vec(), &store).unwrap();
    value_index.put(10, &mut store).unwrap();
    let replayed: ValueIndex<u64> = ValueIndex::cow(b"_c".to_vec(), &store).unwrap();
    assert_eq!(replayed.get(), Some(&10));
    let lazy_view: ValueIndex<u64> = ValueIndex::new(b"_c".to_vec(), &store).unwrap();
    assert_eq!(lazy_view.get(), Some(&10));
}

#[test]
fn basic_test() {
    // one value index, updated twice through put and rmw
    let mut store = RawStore::new();
    let mut value_index: ValueIndex<u64> = ValueIndex::new(b"_myvaluekey".to_vec(), &store).unwrap();
    value_index.put(10, &mut store).unwrap();
    assert_eq!(value_index.get(), Some(&10));
    assert_eq!(
        value_index.rmw(
            |v| {
                v + 10
            },
            &mut store,
        ),
        true
    );
    assert_eq!(value_index.get(), Some(&20));
}

#[test]
fn streaming_state_test() {
    let mut store = RawStore::new();
    let mut watermark: ValueIndex<u64> = ValueIndex::new(b"_watermark".to_vec(), &store).unwrap();
    let mut epoch: ValueIndex<u64> = ValueIndex::new(b"_epoch".to_vec(), &store).unwrap();
    let mut counters: HashIndex<u64, u64> = HashIndex::new(128, 6).unwrap();

    watermark.put(100, &mut store).unwrap();
    epoch.put(1, &mut store).unwrap();
    counters.put(10, 1, &mut store).unwrap();

    assert_eq!(watermark.get(), Some(&100));
    assert_eq!(epoch.get(), Some(&1));
    assert_eq!(counters.get(&10, &mut store), Some(&1));

    // the aggregate checkpoint: persist each field in declaration order,
    // then snapshot the store
    watermark.persist(&mut store).unwrap();
    epoch.persist(&mut store).unwrap();
    counters.persist(&mut store).unwrap();
    assert!(store.checkpoint().is_ok());

    // reconstruct against the checkpoint
    let reopened = store.from_checkpoint(store.checkpoint_counter() - 1);
    let watermark2: ValueIndex<u64> = ValueIndex::new(b"_watermark".to_vec(), &reopened).unwrap();
    let epoch2: ValueIndex<u64> = ValueIndex::new(b"_epoch".to_vec(), &reopened).unwrap();
    let mut reopened = reopened;
    let mut counters2: HashIndex<u64, u64> = HashIndex::new(128, 6).unwrap();
    assert_eq!(watermark2.get(), Some(&100));
    assert_eq!(epoch2.get(), Some(&1));
    assert_eq!(counters2.get(&10, &mut reopened), Some(&1));
}

#[test]
fn checkpoint_reopen_round_trip() {
    let mut store = RawStore::new();
    let mut index: HashIndex<u64, u64> = HashIndex::new(8, 5).unwrap();
    index.put(3, 33, &mut store).unwrap();
    index.persist(&mut store).unwrap();
    store.checkpoint().unwrap();
    index.put(3, 99, &mut store).unwrap();

    let reopened = store.from_checkpoint(store.checkpoint_counter() - 1);
    let mut reopened = reopened;
    let mut fresh: HashIndex<u64, u64> = HashIndex::new(8, 5).unwrap();
    assert_eq!(fresh.get(&3, &mut reopened), Some(&33));
}

#[test]
fn persist_twice_is_one_persist() {
    let mut store = RawStore::new();
    let mut index: HashIndex<u64, u64> = HashIndex::new(8, 5).unwrap();
    index.put(1, 2, &mut store).unwrap();
    assert!(index.persist(&mut store).is_ok());
    assert_eq!(index.key_meta(&1), Some(SAFE));
    assert!(index.persist(&mut store).is_ok());
    assert_eq!(index.key_meta(&1), Some(SAFE));
    assert_eq!(index.get(&1, &mut store), Some(&2));
}

#[test]
fn encoding_is_the_protobuf_wrapper() {
    // nonzero values carry the field-one tag and a varint; zero encodes
    // to nothing and decodes back to zero
    let one = Value::into_raw(&1u64).unwrap();
    assert_eq!(one, vec![0x08, 0x01]);
    let zero = Value::into_raw(&0u64).unwrap();
    assert_eq!(zero, Vec::<u8>::new());
    let big = Value::into_raw(&300u64).unwrap();
    assert_eq!(big, vec![0x08, 0xac, 0x02]);
    let back: u64 = Value::from_raw(&big).unwrap();
    assert_eq!(back, 300);
    let kb = Key::into_raw(&300u64).unwrap();
    assert_eq!(kb, vec![0x08, 0xac, 0x02]);
}

#[test]
fn snapshot_export_round_trip() {
    let mut store = RawStore::new();
    let mut index: HashIndex<u64, u64> = HashIndex::new(8, 5).unwrap();
    index.put(7, 70, &mut store).unwrap();
    index.persist(&mut store).unwrap();
    store.checkpoint().unwrap();
    let pairs = store.snapshot_pairs(store.checkpoint_counter() - 1);
    let mut replayed = RawStore::from_pairs(pairs);
    let mut fresh: HashIndex<u64, u64> = HashIndex::new(8, 5).unwrap();
    assert_eq!(fresh.get(&7, &mut replayed), Some(&70));
}

#[test]
fn rmw_spills_after_crossing() {
    // in-place rewrites alone drive the dirty counter to the ceiling and
    // each further rewrite spills one dirty bucket
    let mut store = RawStore::new();
    let mut index: HashIndex<u64, u64> = HashIndex::new(8, 1).unwrap();
    for k in 0..4u64 {
        index.put(k, k, &mut store).unwrap();
    }
    index.persist(&mut store).unwrap();
    for k in 0..4u64 {
        assert_eq!(index.rmw(&k, |v| v + 1, &mut store), Ok(true));
    }
    let limit = index.mod_limit();
    for k in 0..4u64 {
        assert_eq!(index.get(&k, &mut store), Some(&(k + 1)));
    }
    // the counter sits at most one past the ceiling after a hit
    assert!(index.mod_limit() == limit);
}
