use kvs::Command;
use kvs::ErrorKind;
use kvs::KvStore;
use kvs::KvsError;
use kvs::Segment;

fn fresh() -> KvStore {
    KvStore::open(Vec::new()).expect("open on an empty directory must succeed")
}

fn snapshot(store: &KvStore) -> Vec<Segment> {
    let mut out = Vec::new();
    for seg in store.segments() {
        out.push(Segment { id: seg.id, data: seg.data.clone() });
    }
    out
}

fn reopen(store: KvStore) -> KvStore {
    let segs = snapshot(&store);
    drop(store);
    KvStore::open(segs).expect("reopen must succeed")
}

fn disk_bytes(store: &KvStore) -> usize {
    store.segments().iter().map(|s| s.data.len()).sum()
}

fn encoded_len(key: &str, value: &str) -> usize {
    let cmd = Command::SetCmd { key: key.to_string(), value: value.to_string() };
    kvs::codec::encode_command(&cmd).len()
}

#[test]
fn basic_set_get() {
    let mut store = fresh();
    store.set("k1".to_string(), "v1".to_string()).unwrap();
    assert_eq!(store.get("k1".to_string()).unwrap(), Some("v1".to_string()));
    assert_eq!(store.get("k2".to_string()).unwrap(), None);
}

#[test]
fn overwrite() {
    let mut store = fresh();
    store.set("k".to_string(), "a".to_string()).unwrap();
    store.set("k".to_string(), "b".to_string()).unwrap();
    store.set("k".to_string(), "c".to_string()).unwrap();
    assert_eq!(store.get("k".to_string()).unwrap(), Some("c".to_string()));
}

#[test]
fn read_your_writes_unicode() {
    let mut store = fresh();
    let key = "k\u{e9}y \"quoted\"\n".to_string();
    let value = "va\\lue \u{1f600} \u{0}".to_string();
    store.set(key.clone(), value.clone()).unwrap();
    assert_eq!(store.get(key).unwrap(), Some(value));
}

#[test]
fn remove_invalidates() {
    let mut store = fresh();
    store.set("k".to_string(), "v".to_string()).unwrap();
    store.remove("k".to_string()).unwrap();
    assert_eq!(store.get("k".to_string()).unwrap(), None);
}

#[test]
fn remove_absent_fails() {
    let mut store = fresh();
    let r = store.remove("never".to_string());
    assert_eq!(r, Err(KvsError::Store(ErrorKind::NotFound)));
    store.set("once".to_string(), "v".to_string()).unwrap();
    store.remove("once".to_string()).unwrap();
    let r2 = store.remove("once".to_string());
    assert_eq!(r2, Err(KvsError::Store(ErrorKind::NotFound)));
}

#[test]
fn remove_then_reopen() {
    let mut store = fresh();
    store.set("x".to_string(), "1".to_string()).unwrap();
    store.remove("x".to_string()).unwrap();
    let mut store = reopen(store);
    assert_eq!(store.get("x".to_string()).unwrap(), None);
    assert_eq!(
        store.remove("x".to_string()),
        Err(KvsError::Store(ErrorKind::NotFound))
    );
}

#[test]
fn persistence_across_reopen() {
    let mut store = fresh();
    store.set("a".to_string(), "1".to_string()).unwrap();
    store.set("b".to_string(), "2".to_string()).unwrap();
    store.remove("a".to_string()).unwrap();
    store.set("c".to_string(), "3".to_string()).unwrap();
    let mut store = reopen(store);
    assert_eq!(store.get("a".to_string()).unwrap(), None);
    assert_eq!(store.get("b".to_string()).unwrap(), Some("2".to_string()));
    assert_eq!(store.get("c".to_string()).unwrap(), Some("3".to_string()));
    assert_eq!(store.get("d".to_string()).unwrap(), None);
}

#[test]
fn crash_free_reopen_thousand_keys() {
    let mut store = fresh();
    for i in 0..1000u32 {
        store.set(format!("key{}", i), format!("value{}", i)).unwrap();
    }
    let store = reopen(store);
    let mut store = store;
    for i in 0..1000u32 {
        assert_eq!(
            store.get(format!("key{}", i)).unwrap(),
            Some(format!("value{}", i))
        );
    }
    assert_eq!(store.total_size(), disk_bytes(&store));
}

#[test]
fn compaction_preserves_semantics() {
    let mut store = fresh();
    for i in 0..10u32 {
        store.set(format!("k{}", i), format!("v{}", i)).unwrap();
    }
    store.remove("k3".to_string()).unwrap();
    store.compact().unwrap();
    for i in 0..10u32 {
        let expected = if i == 3 { None } else { Some(format!("v{}", i)) };
        assert_eq!(store.get(format!("k{}", i)).unwrap(), expected);
    }
}

#[test]
fn single_segment_after_compaction() {
    let mut store = fresh();
    for i in 0..50u32 {
        store.set(format!("k{}", i), format!("v{}", i)).unwrap();
    }
    let before = store.active_segment_id();
    store.compact().unwrap();
    assert_eq!(store.num_segments(), 1);
    assert_eq!(store.active_segment_id(), before + 1);
}

#[test]
fn compaction_trigger_bounds_space() {
    let mut store = fresh();
    let n = 500u32;
    for i in 0..n {
        store.set(format!("key{}", i), format!("value{}", i)).unwrap();
    }
    for i in 0..n {
        store.set(format!("key{}", i), format!("newvalue{}", i)).unwrap();
    }
    let mut live = 0usize;
    for i in 0..n {
        live += encoded_len(&format!("key{}", i), &format!("newvalue{}", i));
    }
    assert!(disk_bytes(&store) <= 2 * live);
    for i in 0..n {
        assert_eq!(
            store.get(format!("key{}", i)).unwrap(),
            Some(format!("newvalue{}", i))
        );
    }
}

#[test]
fn threshold_forces_compaction() {
    let mut store = fresh();
    let first = store.active_segment_id();
    // one record is far below the threshold, so no compaction yet
    store.set("a".to_string(), "b".to_string()).unwrap();
    assert_eq!(store.active_segment_id(), first);
    // a value larger than the threshold compacts on the spot
    store.set("big".to_string(), "x".repeat(3000)).unwrap();
    assert!(store.active_segment_id() > first);
    assert_eq!(store.num_segments(), 1);
}

#[test]
fn large_value() {
    let mut store = fresh();
    let value: String = "ab\u{10348}".repeat(25000);
    assert!(value.chars().count() >= 75000);
    store.set("k".to_string(), value.clone()).unwrap();
    assert_eq!(store.get("k".to_string()).unwrap(), Some(value));
}

#[test]
fn total_size_tracks_disk() {
    let mut store = fresh();
    store.set("one".to_string(), "1".to_string()).unwrap();
    store.set("two".to_string(), "2".to_string()).unwrap();
    assert_eq!(store.total_size(), disk_bytes(&store));
    let store = reopen(store);
    assert_eq!(store.total_size(), disk_bytes(&store));
}

#[test]
fn open_ignores_order_of_segments() {
    let mut store = fresh();
    for i in 0..200u32 {
        store.set(format!("k{}", i), "x".repeat(20)).unwrap();
    }
    let mut segs = snapshot(&store);
    segs.reverse();
    let mut reopened = KvStore::open(segs).expect("open must sort the segments itself");
    for i in 0..200u32 {
        assert_eq!(
            reopened.get(format!("k{}", i)).unwrap(),
            Some("x".repeat(20))
        );
    }
}

fn record_set(key: &str, value: &str) -> Vec<u8> {
    kvs::codec::encode_command(&Command::SetCmd {
        key: key.to_string(),
        value: value.to_string(),
    })
}

fn record_rm(key: &str) -> Vec<u8> {
    kvs::codec::encode_command(&Command::Rm { key: key.to_string() })
}

#[test]
fn replay_supersedes_across_segments() {
    // two sealed-looking segments, handed to open out of order: records of
    // the higher identifier win
    let mut d0 = record_set("a", "1");
    d0.extend(record_set("b", "2"));
    let mut d7 = record_set("a", "9");
    d7.extend(record_rm("b"));
    let segs = vec![
        Segment { id: 7, data: d7 },
        Segment { id: 0, data: d0 },
    ];
    let mut store = KvStore::open(segs).unwrap();
    assert_eq!(store.num_segments(), 2);
    assert_eq!(store.active_segment_id(), 7);
    assert_eq!(store.get("a".to_string()).unwrap(), Some("9".to_string()));
    assert_eq!(store.get("b".to_string()).unwrap(), None);
    store.compact().unwrap();
    assert_eq!(store.num_segments(), 1);
    assert_eq!(store.active_segment_id(), 8);
    assert_eq!(store.get("a".to_string()).unwrap(), Some("9".to_string()));
    assert_eq!(store.get("b".to_string()).unwrap(), None);
}

#[test]
fn corrupt_entry_reports_unsupported_command() {
    // an index entry whose bytes decode as a Remove record marks corruption;
    // such a store cannot arise through the public operations
    let data = record_rm("k");
    let sz = data.len();
    let store = KvStore {
        idx: vec![("k".to_string(), kvs::CmdPos { f_id: 0, pos: 0, sz })],
        segs: vec![Segment { id: 0, data }],
        active_id: 0,
        total_sz: sz,
    };
    let mut store = store;
    assert_eq!(
        store.get("k".to_string()),
        Err(KvsError::Store(ErrorKind::UnsupportedCommand))
    );
}

#[test]
fn open_rejects_garbage() {
    let seg = Segment { id: 0, data: b"not a record".to_vec() };
    let r = KvStore::open(vec![seg]);
    assert_eq!(r.err(), Some(KvsError::Serde));
}

#[test]
fn open_rejects_torn_tail() {
    let mut store = fresh();
    store.set("k".to_string(), "v".to_string()).unwrap();
    let mut segs = snapshot(&store);
    // drop the final byte of the active segment: a torn record aborts open
    let seg = segs.last_mut().unwrap();
    seg.data.pop();
    let r = KvStore::open(segs);
    assert_eq!(r.err(), Some(KvsError::Serde));
}

#[test]
fn error_messages() {
    assert_eq!(ErrorKind::NotFound.as_str(), "Key not found");
    assert_eq!(ErrorKind::UnsupportedCommand.as_str(), "command is not supported");
    assert_eq!(KvsError::Store(ErrorKind::NotFound).message(), "Key not found");
    assert_eq!(KvsError::Serde.message(), "serde error");
}
