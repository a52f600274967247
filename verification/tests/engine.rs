use kvs::codec::{encode_command, Command};
use kvs::error::KvsError;
use kvs::log::Segment;
use kvs::store::KvStore;

fn reopen(kv: &KvStore) -> KvStore {
    let mut segs: Vec<Segment> = Vec::new();
    for s in kv.segments() {
        segs.push(Segment { gen: s.gen, data: s.data.clone() });
    }
    KvStore::open(segs).expect("reopen failed")
}

fn total_log_bytes(kv: &KvStore) -> usize {
    let mut total: usize = 0;
    for s in kv.segments() {
        total += s.data.len();
    }
    total
}

#[test]
fn empty_open_get_absent() {
    let kv = KvStore::open(Vec::new()).unwrap();
    assert_eq!(kv.get("x".to_string()).unwrap(), None);
    assert_eq!(kv.current_gen(), 1);
    assert_eq!(kv.segments().len(), 1);
}

#[test]
fn basic_set_get() {
    let mut kv = KvStore::open(Vec::new()).unwrap();
    kv.set("k".to_string(), "v".to_string()).unwrap();
    assert_eq!(kv.get("k".to_string()).unwrap(), Some("v".to_string()));
}

#[test]
fn overwrite() {
    let mut kv = KvStore::open(Vec::new()).unwrap();
    kv.set("k".to_string(), "1".to_string()).unwrap();
    kv.set("k".to_string(), "2".to_string()).unwrap();
    assert_eq!(kv.get("k".to_string()).unwrap(), Some("2".to_string()));
}

#[test]
fn remove_then_get() {
    let mut kv = KvStore::open(Vec::new()).unwrap();
    kv.set("k".to_string(), "v".to_string()).unwrap();
    kv.remove("k".to_string()).unwrap();
    assert_eq!(kv.get("k".to_string()).unwrap(), None);
    assert_eq!(kv.remove("k".to_string()), Err(KvsError::KeyNotFound));
}

#[test]
fn remove_absent_writes_nothing() {
    let mut kv = KvStore::open(Vec::new()).unwrap();
    kv.set("a".to_string(), "1".to_string()).unwrap();
    let before = total_log_bytes(&kv);
    let n_segments = kv.segments().len();
    assert_eq!(kv.remove("missing".to_string()), Err(KvsError::KeyNotFound));
    assert_eq!(total_log_bytes(&kv), before);
    assert_eq!(kv.segments().len(), n_segments);
    assert_eq!(kv.get("a".to_string()).unwrap(), Some("1".to_string()));
}

#[test]
fn unicode_values_round_trip() {
    let mut kv = KvStore::open(Vec::new()).unwrap();
    kv.set("clé".to_string(), "värde ☃ 値".to_string()).unwrap();
    assert_eq!(
        kv.get("clé".to_string()).unwrap(),
        Some("värde ☃ 値".to_string())
    );
}

#[test]
fn persistence_across_reopen() {
    let mut kv = KvStore::open(Vec::new()).unwrap();
    for i in 0..10 {
        kv.set(format!("key{}", i), format!("value{}", i)).unwrap();
    }
    let kv2 = reopen(&kv);
    for i in 0..10 {
        assert_eq!(kv2.get(format!("key{}", i)).unwrap(), Some(format!("value{}", i)));
    }
}

#[test]
fn reopen_matches_single_session() {
    let mut kv = KvStore::open(Vec::new()).unwrap();
    kv.set("a".to_string(), "1".to_string()).unwrap();
    kv.set("b".to_string(), "2".to_string()).unwrap();
    kv.set("a".to_string(), "3".to_string()).unwrap();
    kv.remove("b".to_string()).unwrap();
    kv.set("c".to_string(), "4".to_string()).unwrap();
    let kv2 = reopen(&kv);
    for key in ["a", "b", "c", "d"] {
        assert_eq!(
            kv2.get(key.to_string()).unwrap(),
            kv.get(key.to_string()).unwrap()
        );
    }
    assert_eq!(kv2.get("a".to_string()).unwrap(), Some("3".to_string()));
    assert_eq!(kv2.get("b".to_string()).unwrap(), None);
}

#[test]
fn reopen_twice_after_compaction() {
    let mut kv = KvStore::open(Vec::new()).unwrap();
    kv.set("a".to_string(), "1".to_string()).unwrap();
    kv.set("b".to_string(), "2".to_string()).unwrap();
    kv.compact().unwrap();
    kv.remove("a".to_string()).unwrap();
    let kv2 = reopen(&kv);
    let kv3 = reopen(&kv2);
    assert_eq!(kv3.get("a".to_string()).unwrap(), None);
    assert_eq!(kv3.get("b".to_string()).unwrap(), Some("2".to_string()));
}

#[test]
fn explicit_compaction_keeps_contents() {
    let mut kv = KvStore::open(Vec::new()).unwrap();
    for i in 0..50 {
        kv.set(format!("key{}", i), format!("value{}", i)).unwrap();
    }
    for i in 0..25 {
        kv.remove(format!("key{}", i)).unwrap();
    }
    let gen_before = kv.current_gen();
    kv.compact().unwrap();
    assert_eq!(kv.current_gen(), gen_before + 2);
    assert_eq!(kv.segments().len(), 2);
    assert_eq!(kv.uncompacted(), 0);
    for i in 0..25 {
        assert_eq!(kv.get(format!("key{}", i)).unwrap(), None);
    }
    for i in 25..50 {
        assert_eq!(kv.get(format!("key{}", i)).unwrap(), Some(format!("value{}", i)));
    }
}

#[test]
fn compaction_trigger_bounds_log_size() {
    let mut kv = KvStore::open(Vec::new()).unwrap();
    let padding = "x".repeat(15000);
    let iterations = 2000;
    for iter in 0..iterations {
        let key = format!("key{:03}", iter % 100);
        let value = format!("{:08}{}", iter, padding);
        kv.set(key, value).unwrap();
    }
    // The threshold was crossed many times, so compaction must have kept
    // the segment count at two and the on-disk bytes within twice the live
    // data.
    assert!(kv.segments().len() <= 2);
    let mut live: usize = 0;
    for i in 0..100 {
        let got = kv.get(format!("key{:03}", i)).unwrap().unwrap();
        let last_iter = iterations - 100 + i;
        assert_eq!(got, format!("{:08}{}", last_iter, padding));
        live += got.len();
    }
    let total = total_log_bytes(&kv);
    assert!(total < 2 * live, "total {} not under twice live {}", total, live);
}

#[test]
fn set_appends_exactly_one_record() {
    let mut kv = KvStore::open(Vec::new()).unwrap();
    let rec1 = encode_command(&Command::set("k".to_string(), "v1".to_string()));
    kv.set("k".to_string(), "v1".to_string()).unwrap();
    assert_eq!(kv.segments().len(), 1);
    assert_eq!(kv.segments()[0].data, rec1);
    let rec2 = encode_command(&Command::set("k".to_string(), "v2".to_string()));
    kv.set("k".to_string(), "v2".to_string()).unwrap();
    let mut both = rec1.clone();
    both.extend_from_slice(&rec2);
    assert_eq!(kv.segments().len(), 1);
    assert_eq!(kv.segments()[0].data, both);
}

#[test]
fn stale_counter_tracks_displaced_records() {
    let mut kv = KvStore::open(Vec::new()).unwrap();
    kv.set("k".to_string(), "v1".to_string()).unwrap();
    assert_eq!(kv.uncompacted(), 0);
    let rec1_len = encode_command(&Command::set("k".to_string(), "v1".to_string())).len() as u64;
    kv.set("k".to_string(), "v2".to_string()).unwrap();
    assert_eq!(kv.uncompacted(), rec1_len);
    let rec2_len = encode_command(&Command::set("k".to_string(), "v2".to_string())).len() as u64;
    kv.remove("k".to_string()).unwrap();
    assert_eq!(kv.uncompacted(), rec1_len + rec2_len);
}

#[test]
fn reopen_recounts_stale_bytes() {
    // Replay counts overwritten records, deleted records, and the Remove
    // records' own bytes.
    let mut kv = KvStore::open(Vec::new()).unwrap();
    kv.set("a".to_string(), "1".to_string()).unwrap();
    kv.set("a".to_string(), "2".to_string()).unwrap();
    kv.remove("a".to_string()).unwrap();
    let set_len = encode_command(&Command::set("a".to_string(), "1".to_string())).len() as u64;
    let rm_len = encode_command(&Command::remove("a".to_string())).len() as u64;
    let kv2 = reopen(&kv);
    assert_eq!(kv2.uncompacted(), set_len + set_len + rm_len);
}

#[test]
fn open_rejects_corrupt_segment() {
    let segs = vec![Segment { gen: 1, data: vec![9, 9, 9] }];
    match KvStore::open(segs) {
        Err(KvsError::Serialization) => {}
        other => panic!("expected serialization failure, got {:?}", other.is_ok()),
    }
}

#[test]
fn open_rejects_truncated_record() {
    // A valid store whose active segment loses its last byte must fail to
    // reopen: the trailing record no longer decodes.
    let mut kv = KvStore::open(Vec::new()).unwrap();
    kv.set("k".to_string(), "v".to_string()).unwrap();
    let mut segs: Vec<Segment> = Vec::new();
    for s in kv.segments() {
        let mut data = s.data.clone();
        if !data.is_empty() {
            data.pop();
        }
        segs.push(Segment { gen: s.gen, data });
    }
    match KvStore::open(segs) {
        Err(KvsError::Serialization) => {}
        other => panic!("expected serialization failure, got {:?}", other.is_ok()),
    }
}
