use std::collections::BTreeMap;

use kv_store::database::{Database, NotUtf8};
use kv_store::kv::{KVCommand, KVSnapshot, KeyValue};
use kv_store::store::Write;
use kv_store::transfer::Row;

type Bytes = BTreeMap<Vec<u8>, Vec<u8>>;

fn run(store: &mut Bytes, writes: Vec<Write>) {
    for w in writes {
        match w {
            Write::Put { key, value } => {
                store.insert(key, value);
            }
            Write::Delete { key } => {
                store.remove(&key);
            }
        }
    }
}

fn scan(store: &Bytes) -> Vec<Row> {
    store.iter().map(|(k, v)| Some((k.clone(), v.clone()))).collect()
}

fn put(key: &str, value: &str) -> KVCommand {
    KVCommand::Put(KeyValue { key: key.to_string(), value: value.to_string() })
}

fn delete(key: &str) -> KVCommand {
    KVCommand::Delete(key.to_string())
}

fn get(db: &Database, store: &Bytes, key: &str) -> Option<String> {
    let out = db.handle_command(
        KVCommand::Get(key.to_string()),
        store.get(key.as_bytes()).cloned(),
    );
    assert!(out.writes.is_empty());
    out.value
}

fn pairs(list: &[(&str, &str)]) -> Vec<(String, String)> {
    list.iter().map(|(k, v)| (k.to_string(), v.to_string())).collect()
}

fn db() -> Database {
    Database::new("/data/db_1")
}

fn store_of(list: &[(&str, &str)]) -> Bytes {
    list.iter().map(|(k, v)| (k.as_bytes().to_vec(), v.as_bytes().to_vec())).collect()
}

#[test]
fn a_database_keeps_its_directory() {
    assert_eq!(db().path, "/data/db_1");
}

#[test]
fn what_is_put_is_read_back() {
    let db = db();
    let mut store = Bytes::new();
    assert_eq!(get(&db, &store, "k\u{e9}y"), None);
    let out = db.handle_command(put("k\u{e9}y", "\u{1f980}"), None);
    assert_eq!(out.value, None);
    assert_eq!(
        out.writes,
        vec![Write::Put {
            key: vec![b'k', 0xc3, 0xa9, b'y'],
            value: vec![0xf0, 0x9f, 0xa6, 0x80],
        }]
    );
    run(&mut store, out.writes);
    assert_eq!(get(&db, &store, "k\u{e9}y"), Some("\u{1f980}".to_string()));
    run(&mut store, db.handle_command(put("k\u{e9}y", "2"), None).writes);
    assert_eq!(get(&db, &store, "k\u{e9}y"), Some("2".to_string()));
    assert_eq!(get(&db, &store, "key"), None);
}

#[test]
fn what_is_deleted_is_gone() {
    let db = db();
    let mut store = store_of(&[("a", "1"), ("b", "2")]);
    let out = db.handle_command(delete("a"), None);
    assert_eq!(out.writes, vec![Write::Delete { key: b"a".to_vec() }]);
    assert_eq!(out.value, None);
    run(&mut store, out.writes);
    assert_eq!(get(&db, &store, "a"), None);
    assert_eq!(get(&db, &store, "b"), Some("2".to_string()));
    run(&mut store, db.handle_command(delete("a"), None).writes);
    assert_eq!(store, store_of(&[("b", "2")]));
}

#[test]
fn all_pairs_in_the_order_of_the_scan() {
    let rows = vec![
        Some((b"a".to_vec(), b"1".to_vec())),
        None,
        Some((b"b".to_vec(), vec![0xc3, 0xa9])),
    ];
    assert_eq!(db().get_all_key_values(rows), Ok(pairs(&[("a", "1"), ("b", "\u{e9}")])));
    assert_eq!(db().get_all_key_values(vec![]), Ok(vec![]));
}

#[test]
fn a_row_that_is_no_text_fails_the_scan() {
    let good = Some((b"a".to_vec(), b"1".to_vec()));
    for bad in [(vec![0xff], b"1".to_vec()), (b"k".to_vec(), vec![0xc3]), (vec![0xc0, 0x80], vec![])] {
        let rows = vec![good.clone(), Some(bad), good.clone()];
        assert_eq!(db().get_all_key_values(rows), Err(NotUtf8));
    }
}

#[test]
fn a_state_transfer_copies_the_store() {
    let sender = store_of(&[("a", "1"), ("b", "2"), ("d", "4")]);
    let mut receiver = store_of(&[("b", "old"), ("c", "3")]);
    let list = db().get_all_key_values(scan(&sender)).unwrap();
    let rows = scan(&receiver);
    let writes = db().handle_kv(list.clone(), rows);
    assert_eq!(
        writes,
        vec![
            Write::Put { key: b"a".to_vec(), value: b"1".to_vec() },
            Write::Put { key: b"b".to_vec(), value: b"2".to_vec() },
            Write::Put { key: b"d".to_vec(), value: b"4".to_vec() },
            Write::Delete { key: b"c".to_vec() },
        ]
    );
    run(&mut receiver, writes);
    assert_eq!(receiver, sender);
    let again = db().handle_kv(list, scan(&receiver));
    run(&mut receiver, again);
    assert_eq!(receiver, sender);
}

#[test]
fn of_two_values_for_a_key_the_later_counts() {
    let mut store = Bytes::new();
    let writes = db().handle_kv(pairs(&[("a", "1"), ("b", "2"), ("a", "3")]), vec![]);
    assert_eq!(writes.len(), 2);
    run(&mut store, writes);
    assert_eq!(store, store_of(&[("a", "3"), ("b", "2")]));
}

#[test]
fn a_key_that_is_no_text_or_was_not_read_stays() {
    let rows = vec![Some((vec![0xff], b"x".to_vec())), None, Some((b"c".to_vec(), vec![0xff]))];
    assert_eq!(db().handle_kv(vec![], rows), vec![Write::Delete { key: b"c".to_vec() }]);
}

#[test]
fn an_empty_state_clears_the_store() {
    let mut store = store_of(&[("a", "1"), ("b", "2")]);
    let rows = scan(&store);
    run(&mut store, db().handle_kv(vec![], rows));
    assert!(store.is_empty());
}

#[test]
fn a_snapshot_puts_and_then_deletes() {
    let snapshot = KVSnapshot {
        snapshotted: pairs(&[("a", "1"), ("b", "2")]),
        deleted_keys: vec!["b".to_string(), "c".to_string()],
    };
    let writes = db().handle_snapshot(snapshot.clone());
    assert_eq!(
        writes,
        vec![
            Write::Put { key: b"a".to_vec(), value: b"1".to_vec() },
            Write::Put { key: b"b".to_vec(), value: b"2".to_vec() },
            Write::Delete { key: b"b".to_vec() },
            Write::Delete { key: b"c".to_vec() },
        ]
    );
    let mut store = store_of(&[("c", "3"), ("d", "4")]);
    run(&mut store, writes);
    assert_eq!(store, store_of(&[("a", "1"), ("d", "4")]));
    run(&mut store, db().handle_snapshot(snapshot));
    assert_eq!(store, store_of(&[("a", "1"), ("d", "4")]));
}

fn history() -> Vec<KVCommand> {
    vec![
        put("a", "1"),
        put("b", "2"),
        delete("a"),
        KVCommand::Get("b".to_string()),
        delete("x"),
        put("x", "9"),
        put("b", "3"),
        delete("c"),
    ]
}

#[test]
fn a_snapshot_of_a_log_does_what_the_log_does() {
    let mut one_by_one = store_of(&[("a", "0"), ("c", "0"), ("e", "0")]);
    let mut at_once = one_by_one.clone();
    for c in history() {
        run(&mut one_by_one, db().handle_command(c, None).writes);
    }
    let snapshot = KVSnapshot::create(&history());
    run(&mut at_once, db().handle_snapshot(snapshot));
    assert_eq!(at_once, one_by_one);
    assert_eq!(at_once, store_of(&[("b", "3"), ("e", "0"), ("x", "9")]));
}

#[test]
fn a_snapshot_names_each_key_once() {
    let snapshot = KVSnapshot::create(&history());
    let mut keys: Vec<String> = snapshot.snapshotted.iter().map(|p| p.0.clone()).collect();
    keys.extend(snapshot.deleted_keys.iter().cloned());
    keys.sort();
    assert_eq!(keys, vec!["a", "b", "c", "x"]);
}

#[test]
fn merged_snapshots_do_what_the_two_do() {
    for cut in 0..=history().len() {
        let (early, late) = (history()[..cut].to_vec(), history()[cut..].to_vec());
        let mut merged = KVSnapshot::create(&early);
        merged.merge(KVSnapshot::create(&late));
        let mut a = store_of(&[("a", "0"), ("c", "0"), ("e", "0")]);
        let mut b = a.clone();
        run(&mut a, db().handle_snapshot(merged));
        run(&mut b, db().handle_snapshot(KVSnapshot::create(&history())));
        assert_eq!(a, b);
    }
}
