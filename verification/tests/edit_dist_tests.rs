//! Tests for the edit-distance engine.

use manga_rs::EditDistance;

#[test]
fn edit_dist_smoke_test() {
    let mut ed = EditDistance::default();
    // manually calculated from a reference implementation
    let tests = [
        ("hello", "bellow", 2),
        ("my friend", "remains", 7),
        ("this", "that", 2),
        ("heaven", "is a place on earth", 16),
        ("a fundamentally", "non-creative person", 17),
        ("is writing", "these test cases", 13),
    ];

    for &(a, b, exp) in tests.iter() {
        assert_eq!(ed.distance(a, b), exp);
    }
}

#[test]
fn distance_of_empty_texts() {
    let mut ed = EditDistance::default();
    assert_eq!(ed.distance("", "abc"), 3);
    assert_eq!(ed.distance("abc", ""), 3);
    assert_eq!(ed.distance("", ""), 0);
}

#[test]
fn distance_to_itself_is_zero() {
    let mut ed = EditDistance::default();
    for s in ["", "a", "hello", "heaven is a place on earth", "ünïcödé"] {
        assert_eq!(ed.distance(s, s), 0);
    }
}

#[test]
fn distance_reuses_the_engine() {
    // repeated calls on one engine must not leak state between pairs
    let mut ed = EditDistance::default();
    assert_eq!(ed.distance("heaven", "is a place on earth"), 16);
    assert_eq!(ed.distance("hello", "bellow"), 2);
    assert_eq!(ed.distance("hello", "bellow"), 2);
    assert_eq!(ed.distance("", "abc"), 3);
}
