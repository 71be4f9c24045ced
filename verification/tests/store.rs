use kvs::codec::encode;
use kvs::keydir::Pointer;
use kvs::replay::{decode_table, replay_command, replay_log, replay_table};
use kvs::segment::SegmentLog;
use kvs::{Command, KvStore, KvsError};

fn put(key: &str, value: &str) -> Command {
    Command::Put { key: key.to_string(), value: value.to_string() }
}

fn remove(key: &str) -> Command {
    Command::Remove { key: key.to_string() }
}

fn fresh() -> KvStore {
    KvStore::open(SegmentLog::new()).unwrap()
}

fn get(store: &mut KvStore, key: &str) -> Option<String> {
    store.get(key.to_string()).unwrap()
}

fn log_bytes(store: &KvStore) -> Vec<Vec<u8>> {
    (0..store.log().len()).map(|i| store.log().bytes_at(i).clone()).collect()
}

fn total(store: &KvStore) -> usize {
    log_bytes(store).iter().map(|bytes| bytes.len()).sum()
}

fn reopen(store: KvStore) -> KvStore {
    KvStore::open(store.into_log()).unwrap()
}

fn decode_all(bytes: &[u8]) -> Result<Vec<Command>, KvsError> {
    decode_table(0, bytes).map(|table| table.records.into_iter().map(|r| r.command).collect())
}

fn open_text(text: &str) -> Result<KvStore, KvsError> {
    let mut log = SegmentLog::new();
    log.add_segment(0, text.as_bytes().to_vec());
    KvStore::open(log)
}

fn stream(commands: &[Command]) -> Vec<u8> {
    let mut bytes = Vec::new();
    for command in commands {
        bytes.extend_from_slice(&encode(command).unwrap());
    }
    bytes
}

#[test]
fn open_empty_then_get_is_nothing() {
    let mut store = fresh();
    assert_eq!(store.get("a".to_string()), Ok(None));
    assert_eq!(store.log().len(), 1);
    assert_eq!(store.log().generation_at(0), 0);
    assert_eq!(store.index().len(), 0);
}

#[test]
fn set_then_get() {
    let mut store = fresh();
    assert_eq!(store.set("a".to_string(), "1".to_string()), Ok(()));
    assert_eq!(store.get("a".to_string()), Ok(Some("1".to_string())));
}

#[test]
fn second_set_wins_and_both_records_stay() {
    let mut store = fresh();
    store.set("a".to_string(), "1".to_string()).unwrap();
    store.set("a".to_string(), "2".to_string()).unwrap();
    assert_eq!(get(&mut store, "a"), Some("2".to_string()));
    let bytes = log_bytes(&store);
    assert_eq!(decode_all(&bytes[0]), Ok(vec![put("a", "1"), put("a", "2")]));
    assert_eq!(store.index().len(), 1);
    assert_eq!(store.index().get("a"), Some(Pointer { generation: 0, offset: 31, length: 31 }));
    assert_eq!(
        bytes[0],
        b"{\"Set\":{\"key\":\"a\",\"value\":\"1\"}}{\"Set\":{\"key\":\"a\",\"value\":\"2\"}}".to_vec()
    );
}

#[test]
fn remove_of_a_key_never_set_is_key_not_found() {
    let mut store = fresh();
    store.set("b".to_string(), "2".to_string()).unwrap();
    let before = log_bytes(&store);
    assert_eq!(store.remove("a".to_string()), Err(KvsError::KeyNotFound));
    assert_eq!(log_bytes(&store), before);
    assert_eq!(store.index().len(), 1);
    assert_eq!(get(&mut store, "b"), Some("2".to_string()));
}

#[test]
fn remove_appends_a_record_and_drops_the_key() {
    let mut store = fresh();
    store.set("a".to_string(), "1".to_string()).unwrap();
    assert_eq!(store.remove("a".to_string()), Ok(()));
    assert_eq!(get(&mut store, "a"), None);
    assert_eq!(decode_all(&log_bytes(&store)[0]), Ok(vec![put("a", "1"), remove("a")]));
    assert_eq!(store.index().len(), 0);
    assert_eq!(store.remove("a".to_string()), Err(KvsError::KeyNotFound));
}

#[test]
fn compact_close_reopen() {
    let mut store = fresh();
    store.set("a".to_string(), "1".to_string()).unwrap();
    store.set("b".to_string(), "2".to_string()).unwrap();
    store.remove("a".to_string()).unwrap();
    assert_eq!(store.compact(), Ok(()));
    let mut store = reopen(store);
    assert_eq!(get(&mut store, "a"), None);
    assert_eq!(get(&mut store, "b"), Some("2".to_string()));
}

#[test]
fn a_log_cut_inside_its_last_record_does_not_open() {
    let mut store = fresh();
    store.set("a".to_string(), "1".to_string()).unwrap();
    store.set("b".to_string(), "2".to_string()).unwrap();
    let whole = log_bytes(&store)[0].clone();
    assert_eq!(whole.len(), 62);
    for cut in 1..31 {
        let mut log = SegmentLog::new();
        log.add_segment(0, whole[..whole.len() - cut].to_vec());
        assert!(matches!(KvStore::open(log), Err(KvsError::Serialization { .. })));
    }
    let mut log = SegmentLog::new();
    log.add_segment(0, whole[..31].to_vec());
    let mut store = KvStore::open(log).unwrap();
    assert_eq!(get(&mut store, "a"), Some("1".to_string()));
    assert_eq!(get(&mut store, "b"), None);
}

#[test]
fn a_log_with_an_unknown_tag_does_not_open() {
    let mut bytes = stream(&[put("a", "1")]);
    bytes.extend_from_slice(b"{\"Get\":{\"key\":\"a\"}}");
    let mut log = SegmentLog::new();
    log.add_segment(0, bytes);
    assert!(matches!(KvStore::open(log), Err(KvsError::UnexpectedCommandType)));
}

#[test]
fn the_first_bad_segment_decides_the_error() {
    let mut log = SegmentLog::new();
    log.add_segment(2, b"{\"Put\":{\"key\":\"a\"}}".to_vec());
    log.add_segment(1, b"{\"Set\":".to_vec());
    log.add_segment(3, vec![]);
    assert!(matches!(KvStore::open(log), Err(KvsError::Serialization { .. })));
    let mut log = SegmentLog::new();
    log.add_segment(1, b"{\"Put\":{\"key\":\"a\"}}".to_vec());
    log.add_segment(2, b"{\"Set\":".to_vec());
    assert!(matches!(KvStore::open(log), Err(KvsError::UnexpectedCommandType)));
}

#[test]
fn get_twice_gives_the_same() {
    let mut store = fresh();
    store.set("a".to_string(), "1".to_string()).unwrap();
    let before = log_bytes(&store);
    let first = store.get("a".to_string());
    let second = store.get("a".to_string());
    assert_eq!(first, second);
    assert_eq!(first, Ok(Some("1".to_string())));
    assert_eq!(store.get("zz".to_string()), store.get("zz".to_string()));
    assert_eq!(log_bytes(&store), before);
}

#[test]
fn replay_agrees_with_the_memory_store() {
    let commands = vec![
        put("a", "1"),
        put("b", "2"),
        remove("a"),
        put("c", "3"),
        put("b", "22"),
        remove("zz"),
        put("a", "4"),
        remove("c"),
        put("", "empty"),
    ];
    let mut memory = kvs::memory::KvStore::new();
    for command in &commands {
        match command {
            Command::Put { key, value } => memory.set(key.clone(), value.clone()),
            Command::Remove { key } => {
                memory.remove(key.clone());
            }
        }
    }
    let mut log = SegmentLog::new();
    log.add_segment(0, stream(&commands));
    let mut store = KvStore::open(log).unwrap();
    for key in ["a", "b", "c", "zz", "", "other"] {
        assert_eq!(store.get(key.to_string()).unwrap(), memory.get(key.to_string()));
    }
    assert_eq!(get(&mut store, "a"), Some("4".to_string()));
    assert_eq!(get(&mut store, "b"), Some("22".to_string()));
    assert_eq!(get(&mut store, "c"), None);
    assert_eq!(store.index().len(), 3);
}

#[test]
fn replay_over_several_segments_goes_by_generation() {
    let mut log = SegmentLog::new();
    log.add_segment(7, stream(&[put("a", "new"), remove("b")]));
    log.add_segment(3, stream(&[put("a", "old"), put("b", "2"), put("c", "3")]));
    let (tables, index) = replay_log(&log).unwrap();
    assert_eq!(tables.len(), 2);
    assert_eq!(tables[0].generation, 3);
    assert_eq!(tables[0].records.len(), 3);
    assert_eq!(tables[1].generation, 7);
    assert_eq!(tables[1].records[1].command, remove("b"));
    assert_eq!(tables[1].records[1].offset, 33);
    assert_eq!(tables[1].records[1].length, 22);
    assert_eq!(index.len(), 2);
    assert_eq!(index.get("a"), Some(Pointer { generation: 7, offset: 0, length: 33 }));
    assert_eq!(index.get("b"), None);
    assert_eq!(index.get("c"), Some(Pointer { generation: 3, offset: 64, length: 31 }));
    let mut store = KvStore::open(log).unwrap();
    assert_eq!(get(&mut store, "a"), Some("new".to_string()));
    assert_eq!(get(&mut store, "c"), Some("3".to_string()));
    store.set("d".to_string(), "4".to_string()).unwrap();
    assert_eq!(store.index().get("d"), Some(Pointer { generation: 7, offset: 55, length: 31 }));
}

#[test]
fn replay_command_puts_and_removes() {
    let mut index = kvs::keydir::KeyDir::new();
    let first = Pointer { generation: 0, offset: 0, length: 31 };
    let second = Pointer { generation: 0, offset: 31, length: 31 };
    replay_command(&put("a", "1"), first, &mut index);
    assert_eq!(index.get("a"), Some(first));
    replay_command(&put("a", "2"), second, &mut index);
    assert_eq!(index.get("a"), Some(second));
    replay_command(&remove("b"), first, &mut index);
    assert_eq!(index.len(), 1);
    replay_command(&remove("a"), first, &mut index);
    assert_eq!(index.len(), 0);
}

#[test]
fn replay_table_points_at_each_last_record() {
    let mut index = kvs::keydir::KeyDir::new();
    let bytes = stream(&[put("a", "1"), put("bb", "22"), put("a", "333"), remove("bb")]);
    let table = decode_table(5, &bytes).unwrap();
    assert_eq!(table.generation, 5);
    let places: Vec<(usize, usize)> = table.records.iter().map(|r| (r.offset, r.length)).collect();
    assert_eq!(places, vec![(0, 31), (31, 33), (64, 33), (97, 23)]);
    replay_table(&table, &mut index);
    assert_eq!(index.len(), 1);
    assert_eq!(index.get("a"), Some(Pointer { generation: 5, offset: 64, length: 33 }));
    let mut broken = bytes.clone();
    broken.push(0);
    assert!(matches!(decode_table(5, &broken), Err(KvsError::Serialization { .. })));
}

#[test]
fn reopen_reproduces_the_mapping() {
    let mut store = fresh();
    for i in 0..50 {
        store.set(format!("k{}", i % 17), format!("v{}", i)).unwrap();
        if i % 5 == 0 {
            store.remove(format!("k{}", i % 17)).unwrap();
        }
    }
    let mut expected = Vec::new();
    for i in 0..20 {
        let key = format!("k{}", i);
        expected.push((key.clone(), store.get(key).unwrap()));
    }
    let bytes = log_bytes(&store);
    let mut store = reopen(store);
    assert_eq!(log_bytes(&store), bytes);
    for (key, value) in expected {
        assert_eq!(store.get(key).unwrap(), value);
    }
}

#[test]
fn compact_keeps_values_and_leaves_one_record_per_key() {
    let mut store = fresh();
    store.set("b".to_string(), "1".to_string()).unwrap();
    store.set("a".to_string(), "2".to_string()).unwrap();
    store.set("b".to_string(), "3".to_string()).unwrap();
    store.set("c".to_string(), "4".to_string()).unwrap();
    store.remove("c".to_string()).unwrap();
    let before = total(&store);
    assert_eq!(store.compact(), Ok(()));
    assert_eq!(store.log().len(), 1);
    assert_eq!(store.log().generation_at(0), 1);
    assert_eq!(decode_all(&log_bytes(&store)[0]), Ok(vec![put("a", "2"), put("b", "3")]));
    assert!(total(&store) <= before);
    assert_eq!(total(&store), 62);
    assert_eq!(before, 146);
    assert_eq!(get(&mut store, "a"), Some("2".to_string()));
    assert_eq!(get(&mut store, "b"), Some("3".to_string()));
    assert_eq!(get(&mut store, "c"), None);
    assert_eq!(store.index().get("a"), Some(Pointer { generation: 1, offset: 0, length: 31 }));
    assert_eq!(store.index().get("b"), Some(Pointer { generation: 1, offset: 31, length: 31 }));
}

#[test]
fn compact_of_an_empty_store_leaves_an_empty_segment() {
    let mut store = fresh();
    assert_eq!(store.compact(), Ok(()));
    assert_eq!(store.log().len(), 1);
    assert_eq!(store.log().generation_at(0), 1);
    assert_eq!(total(&store), 0);
    store.set("a".to_string(), "1".to_string()).unwrap();
    assert_eq!(store.index().get("a"), Some(Pointer { generation: 1, offset: 0, length: 31 }));
}

#[test]
fn compact_without_garbage_keeps_the_size() {
    let mut store = fresh();
    store.set("b".to_string(), "1".to_string()).unwrap();
    store.set("a".to_string(), "2".to_string()).unwrap();
    let before = total(&store);
    store.compact().unwrap();
    assert_eq!(total(&store), before);
}

#[test]
fn compact_drops_all_earlier_segments() {
    let mut log = SegmentLog::new();
    log.add_segment(2, stream(&[put("a", "1"), put("b", "2")]));
    log.add_segment(5, stream(&[put("a", "3")]));
    log.add_segment(9, stream(&[remove("b"), put("c", "4")]));
    let mut store = KvStore::open(log).unwrap();
    store.compact().unwrap();
    assert_eq!(store.log().len(), 1);
    assert_eq!(store.log().generation_at(0), 10);
    assert_eq!(decode_all(&log_bytes(&store)[0]), Ok(vec![put("a", "3"), put("c", "4")]));
    store.set("d".to_string(), "5".to_string()).unwrap();
    store.compact().unwrap();
    assert_eq!(store.log().generation_at(0), 11);
    assert_eq!(get(&mut store, "d"), Some("5".to_string()));
}

#[test]
fn compact_fails_when_generations_are_used_up() {
    let mut log = SegmentLog::new();
    log.add_segment(u64::MAX, stream(&[put("a", "1"), put("a", "2")]));
    let mut store = KvStore::open(log).unwrap();
    let before = log_bytes(&store);
    let result = store.compact();
    assert!(matches!(result, Err(KvsError::Io { .. })));
    assert_eq!(log_bytes(&store), before);
    assert_eq!(store.log().generation_at(0), u64::MAX);
    assert_eq!(get(&mut store, "a"), Some("2".to_string()));
}

#[test]
fn stale_segments_beside_a_compacted_one_do_no_harm() {
    let mut store = fresh();
    store.set("a".to_string(), "1".to_string()).unwrap();
    store.set("b".to_string(), "2".to_string()).unwrap();
    store.remove("a".to_string()).unwrap();
    let old = log_bytes(&store)[0].clone();
    store.compact().unwrap();
    let new = log_bytes(&store)[0].clone();
    let mut log = SegmentLog::new();
    log.add_segment(0, old);
    log.add_segment(1, new);
    let mut both = KvStore::open(log).unwrap();
    for key in ["a", "b", "c"] {
        assert_eq!(both.get(key.to_string()), store.get(key.to_string()));
    }
    assert_eq!(both.index().get("b"), Some(Pointer { generation: 1, offset: 0, length: 31 }));
}

#[test]
fn values_outside_ascii_come_back() {
    let mut store = fresh();
    store.set("ключ".to_string(), "значение".to_string()).unwrap();
    store.set("鍵".to_string(), "\u{1F511}".to_string()).unwrap();
    let mut store = reopen(store);
    assert_eq!(get(&mut store, "ключ"), Some("значение".to_string()));
    assert_eq!(get(&mut store, "鍵"), Some("\u{1F511}".to_string()));
    store.compact().unwrap();
    assert_eq!(get(&mut store, "ключ"), Some("значение".to_string()));
}

#[test]
fn a_log_of_three_sets_opens_with_the_last_of_each_key() {
    let mut store = open_text(
        "{\"Set\":{\"key\":\"a\",\"value\":\"1\"}}{\"Set\":{\"key\":\"a\",\"value\":\"2\"}}{\"Set\":{\"key\":\"b\",\"value\":\"3\"}}",
    )
    .unwrap();
    assert_eq!(store.index().len(), 2);
    assert_eq!(get(&mut store, "a"), Some("2".to_string()));
    assert_eq!(get(&mut store, "b"), Some("3".to_string()));
    assert_eq!(store.index().get("a"), Some(Pointer { generation: 0, offset: 31, length: 31 }));
    assert_eq!(store.index().get("b"), Some(Pointer { generation: 0, offset: 62, length: 31 }));
}

#[test]
fn a_remove_of_an_unknown_key_in_the_log_is_passed_over() {
    let mut store =
        open_text("{\"Remove\":{\"key\":\"a\"}}{\"Set\":{\"key\":\"b\",\"value\":\"2\"}}").unwrap();
    assert_eq!(store.index().len(), 1);
    assert_eq!(get(&mut store, "a"), None);
    assert_eq!(get(&mut store, "b"), Some("2".to_string()));
}

#[test]
fn a_record_of_an_unknown_variant_does_not_open() {
    assert!(matches!(
        open_text("{\"Put\":{\"key\":\"a\"}}"),
        Err(KvsError::UnexpectedCommandType)
    ));
}

#[test]
fn white_space_round_records_is_taken() {
    let text = " {\"Set\": {\"key\": \"a\", \"value\": \"1\"}}\n{\"Set\":{\"value\":\"2\",\"key\":\"b\"}}\n";
    let mut store = open_text(text).unwrap();
    assert_eq!(get(&mut store, "a"), Some("1".to_string()));
    assert_eq!(get(&mut store, "b"), Some("2".to_string()));
    assert_eq!(store.index().get("a"), Some(Pointer { generation: 0, offset: 0, length: 36 }));
    assert_eq!(store.index().get("b"), Some(Pointer { generation: 0, offset: 36, length: 32 }));
    store.set("c".to_string(), "3".to_string()).unwrap();
    assert_eq!(store.index().get("c"), Some(Pointer { generation: 0, offset: 69, length: 31 }));
    store.compact().unwrap();
    assert_eq!(total(&store), 36 + 32 + 31);
    let mut store = reopen(store);
    assert_eq!(get(&mut store, "a"), Some("1".to_string()));
    assert_eq!(get(&mut store, "b"), Some("2".to_string()));
    assert_eq!(get(&mut store, "c"), Some("3".to_string()));
}

#[test]
fn strings_that_need_escapes_come_back() {
    let mut store = fresh();
    let key = "a\"b\\c\n\u{1}".to_string();
    let value = "{\"Set\":{\"key\":\"x\"}}".to_string();
    store.set(key.clone(), value.clone()).unwrap();
    assert_eq!(store.get(key.clone()), Ok(Some(value.clone())));
    let mut store = reopen(store);
    assert_eq!(store.get(key.clone()), Ok(Some(value.clone())));
    store.compact().unwrap();
    let mut store = reopen(store);
    assert_eq!(store.get(key), Ok(Some(value)));
}

#[test]
fn log_command_takes_the_record_as_given() {
    let mut store = fresh();
    let text = b" {\"Set\":{\"value\":\"1\",\"key\":\"a\"}}";
    assert_eq!(store.log_command(put("a", "1"), text), Ok(()));
    assert_eq!(store.index().get("a"), Some(Pointer { generation: 0, offset: 0, length: 32 }));
    assert_eq!(log_bytes(&store), vec![text.to_vec()]);
    assert_eq!(
        store.log_command(remove("a"), b""),
        Err(KvsError::Serialization { cause: "empty record".to_string() })
    );
    assert_eq!(get(&mut store, "a"), Some("1".to_string()));
    let mut store = reopen(store);
    assert_eq!(get(&mut store, "a"), Some("1".to_string()));
}
