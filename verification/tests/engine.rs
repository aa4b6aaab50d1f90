use dharma_persistence::codec::encode_then_decode;
use dharma_persistence::persistence::{DharmaOpts, Errors, Persistence};
use dharma_persistence::table::{TableFile, TableStore};

fn opts(rate: usize) -> DharmaOpts {
    DharmaOpts { block_size_in_bytes: 4096, sparse_index_sampling_rate: rate }
}

fn open_empty(rate: usize) -> Persistence {
    Persistence::create(opts(rate), TableStore::new()).unwrap()
}

fn k(s: &[u8]) -> Vec<u8> {
    s.to_vec()
}

#[test]
fn round_trip_preserves_key_and_value() {
    let (key, value) = encode_then_decode(&k(b"alpha"), &k(b"first value"));
    assert_eq!(key, k(b"alpha"));
    assert_eq!(value, k(b"first value"));
}

#[test]
fn round_trip_preserves_empty_key_and_value() {
    let (key, value) = encode_then_decode(&k(b""), &k(b""));
    assert_eq!(key, k(b""));
    assert_eq!(value, k(b""));
}

#[test]
fn get_on_fresh_engine_is_absent() {
    let mut engine = open_empty(1);
    assert_eq!(engine.get(&k(b"missing")).unwrap(), None);
}

#[test]
fn insert_then_get_without_flush_is_absent() {
    let mut engine = open_empty(1);
    engine.insert(k(b"a"), k(b"1")).unwrap();
    // the log now holds the pending write, but get never consults the log
    assert_eq!(engine.log.entries.len(), 1);
    assert_eq!(engine.get(&k(b"a")).unwrap(), None);
}

#[test]
fn delete_appends_tombstone_and_leaves_lookups_alone() {
    let mut engine = open_empty(1);
    engine.insert(k(b"a"), k(b"1")).unwrap();
    engine.delete(&k(b"a")).unwrap();
    assert_eq!(engine.log.entries.len(), 2);
    assert_eq!(engine.log.entries[1], (k(b"a"), None));
    assert_eq!(engine.get(&k(b"a")).unwrap(), None);
}

#[test]
fn flush_makes_both_records_discoverable() {
    let mut engine = open_empty(1);
    engine.flush(&vec![(k(b"k1"), k(b"v1")), (k(b"k2"), k(b"v2"))]).unwrap();
    assert_eq!(engine.get(&k(b"k1")).unwrap(), Some(k(b"v1")));
    assert_eq!(engine.get(&k(b"k2")).unwrap(), Some(k(b"v2")));
}

#[test]
fn flush_overwrite_newest_generation_wins() {
    let mut engine = open_empty(1);
    engine.flush(&vec![(k(b"a"), k(b"old"))]).unwrap();
    engine.flush(&vec![(k(b"a"), k(b"new"))]).unwrap();
    assert_eq!(engine.store.tables.len(), 2);
    assert_eq!(engine.get(&k(b"a")).unwrap(), Some(k(b"new")));
}

#[test]
fn dense_sampling_indexes_every_record() {
    let mut engine = open_empty(1);
    let batch: Vec<(Vec<u8>, Vec<u8>)> =
        (0u8..10).map(|i| (vec![b'a' + i], vec![i])).collect();
    engine.flush(&batch).unwrap();
    assert_eq!(engine.index.len(), 10);
    for i in 0u8..10 {
        assert_eq!(engine.get(&vec![b'a' + i]).unwrap(), Some(vec![i]));
    }
}

#[test]
fn floor_then_scan_retrieves_all_23_records_at_rate_5() {
    let mut engine = open_empty(5);
    let batch: Vec<(Vec<u8>, Vec<u8>)> =
        (0u8..23).map(|i| (vec![b'a' + i], vec![i])).collect();
    engine.flush(&batch).unwrap();
    // positions 0, 5, 10, 15 and 20 are sampled
    assert_eq!(engine.index.len(), 5);
    for i in 0u8..23 {
        assert_eq!(engine.get(&vec![b'a' + i]).unwrap(), Some(vec![i]));
    }
}

#[test]
fn unsorted_batch_makes_lookups_incorrect() {
    // the caller is responsible for pre-sorting; an out-of-order batch at a
    // sparse rate loses records to the floor lookup, pinned here as the
    // regression baseline that exposes the lower-layer contract
    let mut engine = open_empty(2);
    engine.flush(&vec![(k(b"b"), k(b"2")), (k(b"a"), k(b"1"))]).unwrap();
    assert_eq!(engine.get(&k(b"b")).unwrap(), Some(k(b"2")));
    // "a" is on disk, but the only indexed key "b" is above it
    assert_eq!(engine.get(&k(b"a")).unwrap(), None);
}

#[test]
fn older_sampled_key_survives_newer_table_file() {
    // file 1 samples "a"; file 2 samples only "y": the index entry for "a"
    // is not overwritten, so "a" is still found in the older file
    let mut engine = open_empty(2);
    engine.flush(&vec![(k(b"a"), k(b"1")), (k(b"b"), k(b"2"))]).unwrap();
    engine.flush(&vec![(k(b"y"), k(b"8")), (k(b"z"), k(b"9"))]).unwrap();
    assert_eq!(engine.get(&k(b"a")).unwrap(), Some(k(b"1")));
    assert_eq!(engine.get(&k(b"y")).unwrap(), Some(k(b"8")));
}

#[test]
fn newer_table_sample_shadows_older_unsampled_key() {
    // the known structural gap: "c" lives only in file 1, but the floor
    // for "c" is file 2's sampled "b", and only that one file is scanned
    let mut engine = open_empty(2);
    engine.flush(&vec![(k(b"a"), k(b"1")), (k(b"c"), k(b"3"))]).unwrap();
    engine.flush(&vec![(k(b"b"), k(b"2")), (k(b"z"), k(b"9"))]).unwrap();
    assert_eq!(engine.get(&k(b"b")).unwrap(), Some(k(b"2")));
    assert_eq!(engine.get(&k(b"c")).unwrap(), None);
}

#[test]
fn reopening_over_same_tables_answers_identically() {
    let mut engine = open_empty(2);
    engine
        .flush(&vec![(k(b"a"), k(b"1")), (k(b"b"), k(b"2")), (k(b"c"), k(b"3"))])
        .unwrap();
    engine.flush(&vec![(k(b"b"), k(b"20")), (k(b"d"), k(b"4"))]).unwrap();
    let mut reopened = Persistence::create(opts(2), engine.store.clone()).unwrap();
    for key in [&b"a"[..], b"b", b"c", b"d", b"e"] {
        assert_eq!(
            engine.get(&k(key)).unwrap(),
            reopened.get(&k(key)).unwrap(),
            "lookup diverged after reopening"
        );
    }
}

#[test]
fn create_fails_on_table_with_undecodable_sampled_record() {
    let store = TableStore { tables: vec![TableFile { records: vec![vec![1, 2, 3]] }] };
    let result = Persistence::create(opts(1), store);
    assert!(matches!(result, Err(Errors::DB_INDEX_INITIALIZATION_FAILED)));
}

#[test]
fn create_tolerates_undecodable_record_between_samples() {
    // only sampled positions are decoded during bootstrap; a corrupt record
    // at an unsampled position passes bootstrap and later ends a scan early
    let mut donor = open_empty(2);
    donor.flush(&vec![(k(b"a"), k(b"1")), (k(b"b"), k(b"2"))]).unwrap();
    let good = donor.store.tables[0].records[0].clone();
    let store = TableStore { tables: vec![TableFile { records: vec![good, vec![7, 7]] }] };
    let mut engine = Persistence::create(opts(2), store).unwrap();
    assert_eq!(engine.get(&k(b"a")).unwrap(), Some(k(b"1")));
    assert_eq!(engine.get(&k(b"b")).unwrap(), None);
}

#[test]
fn flush_of_empty_batch_adds_empty_table() {
    let mut engine = open_empty(1);
    engine.flush(&vec![]).unwrap();
    assert_eq!(engine.store.tables.len(), 1);
    assert_eq!(engine.store.tables[0].records.len(), 0);
    assert_eq!(engine.index.len(), 0);
    assert_eq!(engine.get(&k(b"a")).unwrap(), None);
}

#[test]
fn duplicate_key_in_batch_last_occurrence_wins_at_rate_one() {
    let mut engine = open_empty(1);
    engine.flush(&vec![(k(b"a"), k(b"1")), (k(b"a"), k(b"2"))]).unwrap();
    assert_eq!(engine.get(&k(b"a")).unwrap(), Some(k(b"2")));
}

#[test]
fn flush_leaves_log_untouched() {
    // the log is not truncated by a flush: the known open gap
    let mut engine = open_empty(1);
    engine.insert(k(b"a"), k(b"1")).unwrap();
    engine.flush(&vec![(k(b"a"), k(b"1"))]).unwrap();
    assert_eq!(engine.log.entries.len(), 1);
    assert_eq!(engine.log.entries[0], (k(b"a"), Some(k(b"1"))));
}
