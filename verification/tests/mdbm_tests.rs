//! Tests for the persistent chunked store.

use manga_rs::{AsciiTester, Chunk, Mdbm, SimpleAdapter, Store, Tester};

#[test]
fn mdbm_smoke_test() {
    let mut db = Mdbm::new(10, 200000);
    assert_eq!(db.n_chunks(), 0);
    for i in 0..5 {
        let key = format!("key {}", i);
        let value = format!("value {}", i);
        db.insert(key, value);
    }
    assert_eq!(db.n_chunks(), 1);
    let item = db.get_item(&String::from("key 1"));
    assert_eq!(item, Some("value 1".to_string()));

    // flush, hand the chunks over, and reopen from them
    db.flush();
    let chunks = db.into_chunks();
    let mut db = Mdbm::from_chunks(chunks, 10, 200000);
    assert_eq!(db.n_chunks(), 1);
    let item = db.get_item(&String::from("key 2"));
    assert_eq!(item, Some("value 2".to_string()));
}

#[test]
fn reopen_after_restart() {
    // five entries, chunk size ten: after a flush and a reopen exactly
    // one chunk exists and every entry is retrievable
    let mut db = Mdbm::new(10, 100);
    for i in 0..5 {
        db.insert(format!("entry {}", i), format!("payload {}", i));
    }
    db.flush();
    let chunks = db.into_chunks();
    assert_eq!(chunks.len(), 1);
    assert_eq!(chunks[0].len(), 5);

    let mut db = Mdbm::from_chunks(chunks, 10, 100);
    assert_eq!(db.n_chunks(), 1);
    for i in 0..5 {
        let got = db.get_item(&format!("entry {}", i));
        assert_eq!(got, Some(format!("payload {}", i)));
    }
}

#[test]
fn last_writer_wins_in_mdbm() {
    let mut db = Mdbm::new(100, 100);
    db.insert("key".to_string(), "x".to_string());
    db.insert("key".to_string(), "y".to_string());
    assert_eq!(db.get_item(&"key".to_string()), Some("y".to_string()));
    db.remove(&"key".to_string());
    assert_eq!(db.get_item(&"key".to_string()), None);
}

#[test]
fn eviction_writes_back_to_the_chunk() {
    // capacity 10: the tenth insert crosses the 90% mark, so the next
    // health check writes the least-recently-used entry into the chunk
    let mut db = Mdbm::new(1000, 10);
    for i in 0..12 {
        db.insert(format!("k{}", i), format!("v{}", i));
    }
    // everything is still retrievable: evicted entries come back from
    // the chunk, and a cache promotion writes the entry it displaces
    // back before dropping it
    for i in 0..12 {
        assert_eq!(db.get_item(&format!("k{}", i)), Some(format!("v{}", i)));
    }
    let chunks = db.into_chunks();
    assert_eq!(chunks.len(), 1);
    assert!(chunks[0].len() > 0);
}

#[test]
fn overwrites_survive_eviction_and_flush() {
    // "key 0" is evicted into the chunk, then overwritten through the
    // cache: after a flush and a reopen the store yields the overwrite,
    // never the stale chunk copy
    let mut db = Mdbm::new(1000, 10);
    for i in 0..12 {
        db.insert(format!("key {}", i), format!("old {}", i));
    }
    db.insert("key 0".to_string(), "new 0".to_string());
    db.flush();
    let chunks = db.into_chunks();
    let mut db = Mdbm::from_chunks(chunks, 1000, 10);
    assert_eq!(db.get_item(&"key 0".to_string()), Some("new 0".to_string()));
    for i in 1..12 {
        assert_eq!(db.get_item(&format!("key {}", i)), Some(format!("old {}", i)));
    }
}

#[test]
fn chunk_rotation_by_size() {
    // chunk size 2, tiny cache: evictions fill chunks, which rotate
    // once they reach two entries each
    let mut db = Mdbm::new(2, 10);
    for i in 0..30 {
        db.insert(format!("key number {}", i), format!("value {}", i));
    }
    db.flush();
    let chunks = db.into_chunks();
    assert!(chunks.len() > 1);
    for c in chunks.iter().take(chunks.len() - 1) {
        assert!(c.len() >= 2);
    }
}

#[test]
fn chunks_reopen_in_creation_order() {
    // chunks handed over out of order are sorted by their embedded
    // timestamps on reopen, not by the order they arrive in
    let mut newer = Chunk::new(2000);
    newer.store(b"k".to_vec(), "newer".to_string());
    let mut older = Chunk::new(1000);
    older.store(b"k".to_vec(), "older".to_string());

    let mut db = Mdbm::from_chunks(vec![newer, older], 10, 10);
    // ascending creation order, first hit wins: the older chunk shadows
    assert_eq!(db.get_item(&String::from_utf8(b"k".to_vec()).unwrap()), Some("older".to_string()));

    let chunks = db.into_chunks();
    assert_eq!(chunks[0].created_at(), 1000);
    assert_eq!(chunks[1].created_at(), 2000);
}

#[test]
fn chunk_rejects_malformed_entries() {
    let entries = vec![(b"a".to_vec(), "one".to_string()), (b"a".to_vec(), "two".to_string())];
    assert!(Chunk::from_entries(5, entries).is_none());
    let entries = vec![(b"a".to_vec(), "one".to_string()), (b"b".to_vec(), "two".to_string())];
    let chunk = Chunk::from_entries(5, entries).unwrap();
    assert_eq!(chunk.created_at(), 5);
    assert_eq!(chunk.len(), 2);
    assert_eq!(chunk.get(&b"b".to_vec()), Some("two".to_string()));
    assert_eq!(chunk.get(&b"c".to_vec()), None);
}

#[test]
fn pipeline_over_the_persistent_store() {
    let mut tester = AsciiTester::default();
    let mut adapter = SimpleAdapter::new();
    let mut store = Mdbm::new(100, 100);

    manga_rs::process_item(
        "mine istomorrow".to_string(),
        &mut store,
        &mut adapter,
        &mut tester,
    );
    manga_rs::process_item(
        "tomorrow is mine".to_string(),
        &mut store,
        &mut adapter,
        &mut tester,
    );

    assert_eq!(adapter.seen, 2);
    assert_eq!(adapter.tested, 1);
    assert_eq!(adapter.hits.len(), 1);
    let f = tester.fingerprint(&"tomorrow is mine".to_string());
    assert_eq!(store.get_item(&f), None);
}
