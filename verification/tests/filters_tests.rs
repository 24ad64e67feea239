//! Tests for the stream-level filters and the item model.

use manga_rs::{
    en_filter, filter_all, is_ascii_letter, letterish, manual_url_filter, mention_filter,
    url_filter, Entities, MinimalTweet, Tweet, Url, User, UserMention,
};

fn plain_tweet(text: &str) -> Tweet {
    Tweet {
        text: text.to_string(),
        lang: "en".to_string(),
        link: "https://twitter.com/someone/statuses/1".to_string(),
        posted_time: 1503500000,
        user: User {
            id: "1".to_string(),
            link: String::new(),
            display_name: String::new(),
            image: String::new(),
            preferred_username: String::new(),
            verified: false,
            followers_count: 0,
        },
        entities: Entities { hashtags: Vec::new(), urls: Vec::new(), user_mentions: Vec::new() },
    }
}

#[test]
fn test_ascii_letter() {
    assert!(!is_ascii_letter(&'@'));
    assert!(!is_ascii_letter(&'['));
    assert!(!is_ascii_letter(&'`'));
    assert!(!is_ascii_letter(&'{'));
    assert!(is_ascii_letter(&'A'));
    assert!(is_ascii_letter(&'Z'));
    assert!(is_ascii_letter(&'a'));
    assert!(is_ascii_letter(&'z'));
}

#[test]
fn tweet_id() {
    let t = MinimalTweet {
        text: "hello".into(),
        link: "http://twitter.com/jas_leigh/statuses/899903730065264640".into(),
    };
    assert_eq!(t.id(), 899903730065264640);
}

#[test]
fn url_filters() {
    let t = plain_tweet("all the letters here");
    assert!(url_filter(&t));
    assert!(manual_url_filter(&t));

    let mut with_url = plain_tweet("see https://t.co/abc123");
    assert!(!manual_url_filter(&with_url));
    with_url.entities.urls.push(Url {
        url: "https://t.co/abc123".to_string(),
        expanded_url: "https://example.com".to_string(),
        indices: (4, 23),
    });
    assert!(!url_filter(&with_url));
}

#[test]
fn mention_and_language_filters() {
    let t = plain_tweet("no mentions here");
    assert!(mention_filter(&t));
    assert!(en_filter(&t));

    let mut t2 = plain_tweet("cc someone");
    t2.entities.user_mentions.push(UserMention {
        screen_name: "someone".to_string(),
        name: None,
        id: None,
        id_str: None,
        indices: (3, 10),
    });
    assert!(!mention_filter(&t2));

    let mut t3 = plain_tweet("bonjour tout le monde");
    t3.lang = "fr".to_string();
    assert!(!en_filter(&t3));
}

#[test]
fn letterish_counts_letters() {
    assert!(letterish(&plain_tweet("all the letters here")));
    assert!(!letterish(&plain_tweet("1234 5678 !!! ???")));
    // an empty text never passes
    assert!(!letterish(&plain_tweet("")));
    // boundary: 13 letters out of 20 characters is accepted
    assert!(letterish(&plain_tweet("abcdefghijklm !!!???")));
    // one letter fewer is not
    assert!(!letterish(&plain_tweet("abcdefghijkl !!!????")));
}

#[test]
fn filter_all_requires_every_filter() {
    assert!(filter_all(&plain_tweet("all the letters here")));
    assert!(!filter_all(&plain_tweet("look https://t.co/abc")));
    let mut t = plain_tweet("all the letters here");
    t.lang = "de".to_string();
    assert!(!filter_all(&t));
}
