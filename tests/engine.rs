use kvs::error::Error;
use kvs::kvs::{KvStore, COMPACTION_THRESHOLD};
use kvs::log::{FileOp, LogReader};
use kvs::record::{decode_at, encode, Decoded, LogCommand};

fn fresh() -> KvStore {
    KvStore::open(Vec::new()).expect("an empty directory opens")
}

fn reopen(store: KvStore) -> KvStore {
    KvStore::open(store.close()).expect("the store's own logs reopen")
}

#[test]
fn test_client() {
    assert_eq!(1, 1);
}

#[test]
fn set_then_get_returns_value() {
    let mut store = fresh();
    store.set("a".to_owned(), "1".to_owned()).unwrap();
    assert_eq!(store.get("a".to_owned()), Ok(Some("1".to_owned())));
}

#[test]
fn second_set_wins() {
    let mut store = fresh();
    store.set("k".to_owned(), "v1".to_owned()).unwrap();
    store.set("k".to_owned(), "v2".to_owned()).unwrap();
    assert_eq!(store.get("k".to_owned()), Ok(Some("v2".to_owned())));
}

#[test]
fn set_then_remove_clears() {
    let mut store = fresh();
    store.set("k".to_owned(), "v".to_owned()).unwrap();
    store.remove("k".to_owned()).unwrap();
    assert_eq!(store.get("k".to_owned()), Ok(None));
}

#[test]
fn remove_absent_key_writes_nothing() {
    let mut store = fresh();
    store.take_file_ops();
    assert_eq!(store.remove("nope".to_owned()), Err(Error::KeyNotFound));
    assert!(store.take_file_ops().is_empty());
    let logs = store.close();
    assert!(logs.iter().all(|l| l.data.is_empty()));
}

#[test]
fn empty_value_is_not_absence() {
    let mut store = fresh();
    store.set("e".to_owned(), String::new()).unwrap();
    assert_eq!(store.get("e".to_owned()), Ok(Some(String::new())));
    assert_eq!(store.get("f".to_owned()), Ok(None));
    let store = reopen(store);
    assert_eq!(store.get("e".to_owned()), Ok(Some(String::new())));
}

#[test]
fn reopen_keeps_value() {
    let mut store = fresh();
    store.set("a".to_owned(), "1".to_owned()).unwrap();
    assert_eq!(store.get("a".to_owned()), Ok(Some("1".to_owned())));
    let store = reopen(store);
    assert_eq!(store.get("a".to_owned()), Ok(Some("1".to_owned())));
}

#[test]
fn reopen_keeps_removal() {
    let mut store = fresh();
    store.set("k".to_owned(), "v1".to_owned()).unwrap();
    store.set("k".to_owned(), "v2".to_owned()).unwrap();
    store.remove("k".to_owned()).unwrap();
    assert_eq!(store.get("k".to_owned()), Ok(None));
    let store = reopen(store);
    assert_eq!(store.get("k".to_owned()), Ok(None));
}

#[test]
fn reopen_after_every_prefix_matches() {
    let ops: Vec<(&str, Option<&str>)> = vec![
        ("a", Some("1")),
        ("b", Some("2")),
        ("a", Some("3")),
        ("b", None),
        ("c", Some("")),
        ("a", None),
        ("b", Some("quote \" and \\ backslash")),
    ];
    for n in 0..=ops.len() {
        let mut store = fresh();
        let mut model = std::collections::BTreeMap::new();
        for (k, v) in &ops[..n] {
            match v {
                Some(v) => {
                    store.set(k.to_string(), v.to_string()).unwrap();
                    model.insert(k.to_string(), v.to_string());
                }
                None => {
                    store.remove(k.to_string()).unwrap();
                    model.remove(*k);
                }
            }
        }
        let store = reopen(store);
        for k in ["a", "b", "c", "d"] {
            assert_eq!(store.get(k.to_owned()), Ok(model.get(k).cloned()));
        }
    }
}

#[test]
fn large_value_round_trips_and_compacts() {
    let mut store = fresh();
    let big = "x".repeat(1 << 20);
    store.set("big".to_owned(), big.clone()).unwrap();
    store.set("big".to_owned(), big.clone()).unwrap();
    assert_eq!(store.get("big".to_owned()), Ok(Some(big.clone())));
    assert_eq!(store.generation_ids(), vec![2, 3]);
    assert_eq!(store.uncompacted(), 0);
    let store = reopen(store);
    assert_eq!(store.get("big".to_owned()), Ok(Some(big)));
}

#[test]
fn many_overwrites_stay_compact() {
    let mut store = fresh();
    let value = "v".repeat(1024);
    for i in 0..2000 {
        let key = format!("key{}", i % 10);
        store.set(key, value.clone()).unwrap();
    }
    assert_eq!(store.len(), 10);
    let ids = store.generation_ids();
    assert!(ids[0] > 1, "the first generation has been retired");
    let live = 10 * (value.len() as u64 + 64);
    assert!(store.log_size() <= live + COMPACTION_THRESHOLD as u64 + 2048);
    for i in 0..10 {
        assert_eq!(store.get(format!("key{}", i)), Ok(Some(value.clone())));
    }
}

#[test]
fn compaction_keeps_two_generations() {
    let mut store = fresh();
    store.set("a".to_owned(), "1".to_owned()).unwrap();
    store.set("b".to_owned(), "2".to_owned()).unwrap();
    store.set("a".to_owned(), "3".to_owned()).unwrap();
    store.compact();
    assert_eq!(store.generation_ids(), vec![2, 3]);
    assert_eq!(store.get("a".to_owned()), Ok(Some("3".to_owned())));
    assert_eq!(store.get("b".to_owned()), Ok(Some("2".to_owned())));
    let logs = store.close();
    assert_eq!(logs.len(), 2);
    assert!(logs[1].data.is_empty());
}

#[test]
fn compaction_file_ops_retire_old_generations() {
    let mut store = fresh();
    store.set("a".to_owned(), "1".to_owned()).unwrap();
    store.take_file_ops();
    store.compact();
    let ops = store.take_file_ops();
    assert_eq!(ops.len(), 3);
    assert!(matches!(&ops[0], FileOp::Append { gen: 2, bytes } if !bytes.is_empty()));
    assert!(matches!(&ops[1], FileOp::Append { gen: 3, bytes } if bytes.is_empty()));
    assert!(matches!(&ops[2], FileOp::Retire { gen: 1 }));
}

#[test]
fn set_queues_the_record_for_the_disk() {
    let mut store = fresh();
    let ops = store.take_file_ops();
    assert!(matches!(&ops[..], [FileOp::Append { gen: 1, bytes }] if bytes.is_empty()));
    store.set("k".to_owned(), "v".to_owned()).unwrap();
    let ops = store.take_file_ops();
    match &ops[..] {
        [FileOp::Append { gen: 1, bytes }] => {
            assert_eq!(bytes.as_slice(), br#"{"Insert":{"key":"k","value":"v"}}"#);
        }
        _ => panic!("one append expected"),
    }
}

#[test]
fn encoding_matches_json_form() {
    let insert = LogCommand::Insert { key: "a\"b".to_owned(), value: "c\\d".to_owned() };
    assert_eq!(encode(&insert), br#"{"Insert":{"key":"a\"b","value":"c\\d"}}"#.to_vec());
    let remove = LogCommand::Remove { key: "k".to_owned() };
    assert_eq!(encode(&remove), br#"{"Remove":{"key":"k"}}"#.to_vec());
}

#[test]
fn decode_reads_back_encoding() {
    let cmd = LogCommand::Insert { key: "ключ".to_owned(), value: "\"\\".to_owned() };
    let mut buf = b"junk".to_vec();
    let bytes = encode(&cmd);
    buf.extend_from_slice(&bytes);
    buf.extend_from_slice(b"{\"Rem");
    match decode_at(&buf, 4) {
        Decoded::Record(LogCommand::Insert { key, value }, end) => {
            assert_eq!(key, "ключ");
            assert_eq!(value, "\"\\");
            assert_eq!(end, 4 + bytes.len());
            assert!(matches!(decode_at(&buf, end), Decoded::Incomplete));
        }
        _ => panic!("a record expected"),
    }
    assert!(matches!(decode_at(&buf, 0), Decoded::Malformed));
}

#[test]
fn truncated_tail_is_dropped() {
    let mut data = encode(&LogCommand::Insert { key: "a".to_owned(), value: "1".to_owned() });
    let second = encode(&LogCommand::Insert { key: "b".to_owned(), value: "2".to_owned() });
    data.extend_from_slice(&second[..second.len() - 3]);
    let store = KvStore::open(vec![LogReader::new(1, data)]).unwrap();
    assert_eq!(store.get("a".to_owned()), Ok(Some("1".to_owned())));
    assert_eq!(store.get("b".to_owned()), Ok(None));
    assert_eq!(store.generation_ids(), vec![1, 2]);
}

#[test]
fn truncated_tail_of_sealed_log_is_dropped() {
    let first = encode(&LogCommand::Insert { key: "a".to_owned(), value: "1".to_owned() });
    let mut cut = encode(&LogCommand::Insert { key: "b".to_owned(), value: "2".to_owned() });
    cut.extend_from_slice(&first[..first.len() - 1]);
    let logs = vec![LogReader::new(1, cut), LogReader::new(2, first)];
    let store = KvStore::open(logs).unwrap();
    assert_eq!(store.get("a".to_owned()), Ok(Some("1".to_owned())));
    assert_eq!(store.get("b".to_owned()), Ok(Some("2".to_owned())));
    let store = reopen(store);
    assert_eq!(store.get("a".to_owned()), Ok(Some("1".to_owned())));
}

#[test]
fn corruption_before_the_tail_is_reported() {
    let mut data = encode(&LogCommand::Insert { key: "a".to_owned(), value: "1".to_owned() });
    data.extend_from_slice(b"{\"Insert\":{\"key\":\"b\",\"valu\"");
    data.extend_from_slice(&encode(&LogCommand::Remove { key: "a".to_owned() }));
    let logs = vec![LogReader::new(1, data)];
    assert!(matches!(KvStore::open(logs), Err(Error::Corrupt)));
}

#[test]
fn garbage_is_corrupt() {
    let logs = vec![LogReader::new(1, b"not a record".to_vec())];
    assert!(matches!(KvStore::open(logs), Err(Error::Corrupt)));
}

#[test]
fn unordered_generations_are_refused() {
    let logs = vec![LogReader::new(3, Vec::new()), LogReader::new(2, Vec::new())];
    assert!(matches!(KvStore::open(logs), Err(Error::Corrupt)));
}

#[test]
fn reader_slices_ranges() {
    let reader = LogReader::new(7, b"hello world".to_vec());
    assert_eq!(reader.read_at(6, 5), Some(b"world".to_vec()));
    assert_eq!(reader.read_at(6, 6), None);
}

#[test]
fn invalid_utf8_record_is_malformed() {
    let mut bytes = br#"{"Remove":{"key":"#.to_vec();
    bytes.push(b'"');
    bytes.push(0xff);
    bytes.extend_from_slice(br#""}}"#);
    assert!(matches!(decode_at(&bytes, 0), Decoded::Malformed));
}

#[test]
fn new_store_is_empty_with_generation_one() {
    let store = KvStore::new();
    assert_eq!(store.len(), 0);
    assert_eq!(store.generation_ids(), vec![1]);
    assert_eq!(store.get("a".to_owned()), Ok(None));
}

#[test]
fn file_ops_rebuild_the_logs() {
    let mut files: std::collections::BTreeMap<u64, Vec<u8>> = std::collections::BTreeMap::new();
    let mut apply = |ops: Vec<FileOp>| {
        for op in ops {
            match op {
                FileOp::Append { gen, bytes } => files.entry(gen).or_default().extend(bytes),
                FileOp::Retire { gen } => {
                    files.remove(&gen);
                }
            }
        }
    };
    let mut store = fresh();
    apply(store.take_file_ops());
    let big = "y".repeat(600 * 1024);
    for i in 0..6 {
        store.set(format!("k{}", i % 2), big.clone()).unwrap();
        apply(store.take_file_ops());
    }
    store.remove("k0".to_owned()).unwrap();
    apply(store.take_file_ops());
    let logs = store.close();
    assert!(logs[0].id > 1);
    let expected: std::collections::BTreeMap<u64, Vec<u8>> =
        logs.into_iter().map(|l| (l.id, l.data)).collect();
    assert_eq!(files, expected);
}

#[test]
fn stale_count_tracks_replaced_and_removed_bytes() {
    let mut store = fresh();
    let first = encode(&LogCommand::Insert { key: "k".to_owned(), value: "v1".to_owned() });
    let second = encode(&LogCommand::Insert { key: "k".to_owned(), value: "v2".to_owned() });
    let removal = encode(&LogCommand::Remove { key: "k".to_owned() });
    store.set("k".to_owned(), "v1".to_owned()).unwrap();
    assert_eq!(store.uncompacted(), 0);
    store.set("k".to_owned(), "v2".to_owned()).unwrap();
    assert_eq!(store.uncompacted(), first.len());
    assert_eq!(store.log_size(), (first.len() + second.len()) as u64);
    store.remove("k".to_owned()).unwrap();
    assert_eq!(store.uncompacted(), first.len() + second.len() + removal.len());
    assert_eq!(store.log_size(), store.uncompacted() as u64);
    assert_eq!(store.generation_ids(), vec![1]);
}

#[test]
fn recovery_counts_stale_bytes() {
    let mut data = encode(&LogCommand::Insert { key: "a".to_owned(), value: "1".to_owned() });
    let live = encode(&LogCommand::Insert { key: "a".to_owned(), value: "2".to_owned() });
    data.extend_from_slice(&live);
    data.extend_from_slice(&encode(&LogCommand::Remove { key: "zz".to_owned() }));
    data.extend_from_slice(b"{\"Ins");
    let total = data.len();
    let store = KvStore::open(vec![LogReader::new(1, data)]).unwrap();
    assert_eq!(store.uncompacted(), total - live.len());
    assert_eq!(store.log_size(), total as u64);
}
