//! Online detection of anagram-like near-duplicate pairs in a stream of
//! short texts: items are bucketed by an order-independent letter-frequency
//! fingerprint, candidate pairs are confirmed by a two-stage edit-distance
//! test, and candidates are kept either in memory or in a chunked,
//! cache-fronted persistent store.

pub mod anagrams;
pub mod edit_dist;
pub mod filters;
pub mod mdbm;
pub mod text;
pub mod tweet;

pub use anagrams::{
    anagram_hash, check_item, process_item, word_split_sort, Adapter, AsStr, AsciiFingerprint,
    AsciiTester, MemoryStore, SimpleAdapter, Store, Tester,
};
pub use edit_dist::EditDistance;
pub use filters::{
    en_filter, filter_all, is_ascii_letter, letterish, manual_url_filter, mention_filter,
    url_filter,
};
pub use mdbm::{Chunk, Mdbm};
pub use tweet::{Credential, Entities, Hashtag, MinimalTweet, Tweet, Url, User, UserMention};
