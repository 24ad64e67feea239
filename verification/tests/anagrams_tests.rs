//! Tests for the fingerprinting, word-sorting and matching engine.

use manga_rs::anagrams::lowercase_filtered;
use manga_rs::{
    check_item, process_item, word_split_sort, AsciiTester, MemoryStore, SimpleAdapter, Store,
    Tester,
};

#[test]
fn cleverness() {
    let inp = "aabbccddeefffffghiz";
    let mut tester = AsciiTester::default();
    let h = tester.fingerprint(&inp);

    assert_eq!(h.to_string(), inp)
}

#[test]
fn word_split() {
    let one = "twenty six\n\n#MissUniverse #Philippines";
    let two = "#MissUniverse #Philippines\n\ntwenty six";
    assert_eq!(word_split_sort(one), word_split_sort(two));
}

// Note the threshold's direction in the second stage: a pair is
// confirmed only when the distance of the word-sorted forms stays HIGH,
// so true word-order shuffles (whose sorted forms coincide, as in the
// cases below) are rejected rather than confirmed.
#[test]
fn distance() {
    let one = "twenty six\n\n#MissUniverse #Philippines";
    let two = "#MissUniverse #Philippines\n\ntwenty six";
    let mut tester = AsciiTester::default();

    assert!(!tester.test_distance(one, two));
    assert!(!tester.is_match(&one, &two));

    let one = "joji // will he";
    let two = "willhe//joji";
    println!("{} / {}", word_split_sort(one), word_split_sort(two));

    assert!(!tester.test_distance(one, two));
    assert!(!tester.is_match(&one, &two));
}

#[test]
fn integration() {
    let mut adapter = SimpleAdapter::new();
    let mut tester = AsciiTester::default();
    let mut store = MemoryStore::new();
    let one = "twenty six\n\n#MissUniverse #Philippines";
    let two = "#MissUniverse #Philippines\n\ntwenty six";

    process_item(one, &mut store, &mut adapter, &mut tester);
    process_item(two, &mut store, &mut adapter, &mut tester);

    process_item("joji // will he", &mut store, &mut adapter, &mut tester);
    process_item("willhe//joji", &mut store, &mut adapter, &mut tester);

    assert_eq!(adapter.hits.len(), 0);
}

#[test]
fn fingerprint_ignores_order() {
    let mut tester = AsciiTester::default();
    let a = tester.fingerprint(&"The eyes!");
    let b = tester.fingerprint(&"they see...");
    assert_eq!(a, b);

    let c = tester.fingerprint(&"they sees");
    assert_ne!(a, c);
}

#[test]
fn fingerprint_of_letterless_text() {
    let mut tester = AsciiTester::default();
    let a = tester.fingerprint(&"1234 !!");
    let b = tester.fingerprint(&"...");
    assert_eq!(a, b);
    assert_eq!(a.to_string(), "");
}

#[test]
fn fingerprint_key_bytes() {
    let mut tester = AsciiTester::default();
    let h = tester.fingerprint(&"aab");
    let bytes = h.key_bytes();
    assert_eq!(bytes.len(), 26 * 8);
    // 'a' counted twice, 'b' once, little endian
    assert_eq!(bytes[0], 2);
    assert_eq!(bytes[8], 1);
    assert_eq!(bytes[16], 0);
    // the same text in another arrangement serializes identically
    let h2 = tester.fingerprint(&"aba");
    assert_eq!(h2.key_bytes(), bytes);
}

#[test]
fn trivial_duplicates_are_rejected() {
    let mut tester = AsciiTester::default();
    assert!(!tester.test_distance("same text", "same text"));
    assert!(!tester.test_distance("Hello, World", "hello world!!"));
}

#[test]
fn anagram_hash_sorts_letters() {
    let h = manga_rs::anagram_hash("cab Cab!");
    assert_eq!(h, vec!['a', 'a', 'b', 'b', 'c', 'c']);
}

#[test]
fn word_split_sorts_and_folds() {
    assert_eq!(word_split_sort("Beta alpha, gamma"), "alpha beta gamma");
    assert_eq!(word_split_sort(""), "");
    assert_eq!(word_split_sort("  ??  "), "");
}

#[test]
fn last_writer_wins_in_memory() {
    let mut tester = AsciiTester::default();
    let mut store: MemoryStore<manga_rs::AsciiFingerprint, &str> = MemoryStore::new();
    let f = tester.fingerprint(&"abc");
    store.insert(tester.fingerprint(&"abc"), "first");
    store.insert(tester.fingerprint(&"abc"), "second");
    assert_eq!(store.get_item(&f), Some("second"));
    store.remove(&f);
    assert_eq!(store.get_item(&f), None);
}

#[test]
fn end_to_end_confirmed_pair() {
    // Both items share a fingerprint; the five-step verdict decides what
    // the store and the sink hold afterwards.
    let one = "mine istomorrow";
    let two = "tomorrow is mine";

    let mut tester = AsciiTester::default();
    let f1 = tester.fingerprint(&one);
    let f2 = tester.fingerprint(&two);
    assert_eq!(f1, f2);

    // the verdict follows the five steps exactly
    let mut ed = manga_rs::EditDistance::default();
    let expected = if one == two {
        false
    } else if lowercase_filtered(one) == lowercase_filtered(two)
    {
        false
    } else {
        let a1 = lowercase_filtered(one);
        let b1 = lowercase_filtered(two);
        let d1 = ed.distance(&a1, &b1);
        if (d1 as f64) / (two.chars().count() as f64) < 0.5 {
            false
        } else {
            let sa = word_split_sort(one);
            let sb = word_split_sort(two);
            let d2 = ed.distance(&sa, &sb);
            (d2 as f64) / (sb.chars().count() as f64) > 0.5
        }
    };
    assert_eq!(tester.is_match(&one, &two), expected);
    assert!(expected);

    let mut adapter = SimpleAdapter::new();
    let mut store = MemoryStore::new();
    process_item(one, &mut store, &mut adapter, &mut tester);
    process_item(two, &mut store, &mut adapter, &mut tester);

    assert_eq!(adapter.seen, 2);
    assert_eq!(adapter.tested, 1);
    assert_eq!(adapter.hits.len(), 1);
    assert_eq!(adapter.hits[0], (two, one));
    // the confirmed pair was consumed: the bucket is empty again
    assert_eq!(store.get_item(&f1), None);
}

#[test]
fn unconfirmed_pair_overwrites_bucket() {
    // Same fingerprint, but the pair is rejected (word-sorted forms are
    // equal): the newcomer still replaces the occupant.
    let one = "twenty six\n\n#MissUniverse #Philippines";
    let two = "#MissUniverse #Philippines\n\ntwenty six";

    let mut tester = AsciiTester::default();
    let mut adapter = SimpleAdapter::new();
    let mut store = MemoryStore::new();
    let f = tester.fingerprint(&one);

    process_item(one, &mut store, &mut adapter, &mut tester);
    process_item(two, &mut store, &mut adapter, &mut tester);

    assert_eq!(adapter.seen, 2);
    assert_eq!(adapter.tested, 1);
    assert_eq!(adapter.hits.len(), 0);
    assert_eq!(store.get_item(&f), Some(two));
}

#[test]
fn check_item_skips_the_insert() {
    let mut tester = AsciiTester::default();
    let mut adapter = SimpleAdapter::new();
    let mut store: MemoryStore<manga_rs::AsciiFingerprint, &str> = MemoryStore::new();
    let f = tester.fingerprint(&"fresh item");

    check_item("fresh item", &mut store, &mut adapter, &mut tester);
    assert_eq!(adapter.seen, 1);
    assert_eq!(store.get_item(&f), None);
}
