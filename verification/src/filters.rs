//! Stream-level filters that decide whether an incoming item is worth
//! feeding to the anagram pipeline at all.

use vstd::prelude::*;
use vstd::string::StrSliceExecFns;

use crate::text::chars_vec;
use crate::tweet::Tweet;

verus! {

/// A character counts as a letter exactly when it is an ASCII letter,
/// upper or lower case.
pub open spec fn is_letter(c: char) -> bool {
    ('a' <= c && c <= 'z') || ('A' <= c && c <= 'Z')
}

/// Whether a character is an ASCII letter.
pub fn is_ascii_letter(chr: &char) -> (r: bool)
    ensures
        r == is_letter(*chr),
{
    let c = *chr;
    ('a' <= c && c <= 'z') || ('A' <= c && c <= 'Z')
}

/// Whether `needle` occurs contiguously inside `hay`.
pub open spec fn contains_seq(hay: Seq<char>, needle: Seq<char>) -> bool {
    exists|k: int|
        0 <= k && k + needle.len() <= hay.len() && #[trigger] hay.subrange(k, k + needle.len())
            == needle
}

/// Whether the pattern matches at position `k` of the text.
fn match_at(hc: &Vec<char>, nc: &Vec<char>, k: usize) -> (r: bool)
    requires
        k + nc@.len() <= hc@.len(),
    ensures
        r == (hc@.subrange(k as int, k + nc@.len()) == nc@),
{
    let hn = hc.len();
    let mut j: usize = 0;
    while j < nc.len()
        invariant
            j <= nc@.len(),
            k + nc@.len() <= hc@.len(),
            hc@.len() == hn,
            forall|q: int| 0 <= q < j ==> hc@[k + q] == nc@[q],
        decreases nc@.len() - j,
    {
        if hc[k + j] != nc[j] {
            proof {
                assert(hc@.subrange(k as int, k + nc@.len())[j as int] == hc@[k + j]);
            }
            return false;
        }
        j = j + 1;
    }
    proof {
        assert(hc@.subrange(k as int, k + nc@.len()) =~= nc@);
    }
    true
}

/// Whether the string holds the other as a substring.
pub fn str_contains(hay: &str, needle: &str) -> (r: bool)
    ensures
        r == contains_seq(hay@, needle@),
{
    let hc = chars_vec(hay);
    let nc = chars_vec(needle);
    if nc.len() > hc.len() {
        return false;
    }
    if nc.len() == 0 {
        proof {
            assert(hay@.subrange(0, 0 + needle@.len() as int) =~= needle@);
        }
        return true;
    }
    let mut k: usize = 0;
    while k <= hc.len() - nc.len()
        invariant
            hc@ == hay@,
            nc@ == needle@,
            1 <= nc@.len() <= hc@.len(),
            k <= hc@.len() - nc@.len() + 1,
            forall|p: int|
                0 <= p < k ==> #[trigger] hay@.subrange(p, p + needle@.len()) != needle@,
        decreases hc.len() - nc.len() + 1 - k,
    {
        if match_at(&hc, &nc, k) {
            return true;
        }
        k = k + 1;
    }
    proof {
        assert forall|p: int| 0 <= p && p + needle@.len() <= hay@.len() implies #[trigger]
        hay@.subrange(p, p + needle@.len()) != needle@ by {}
    }
    false
}

/// An item passes when it carries no recognised link entity.
pub fn url_filter(tweet: &Tweet) -> (r: bool)
    ensures
        r == (tweet.entities.urls@.len() == 0),
{
    tweet.entities.urls.is_empty()
}

/// An item passes when its text carries no shortened link.
pub fn manual_url_filter(tweet: &Tweet) -> (r: bool)
    ensures
        r == !contains_seq(tweet.text@, "https://t.co"@),
{
    !str_contains(tweet.text.as_str(), "https://t.co")
}

/// An item passes when it mentions no other account.
pub fn mention_filter(tweet: &Tweet) -> (r: bool)
    ensures
        r == (tweet.entities.user_mentions@.len() == 0),
{
    tweet.entities.user_mentions.is_empty()
}

/// An item passes when it is marked as English.
pub fn en_filter(tweet: &Tweet) -> (r: bool)
    ensures
        r == (tweet.lang@ == "en"@),
{
    crate::text::str_eq(tweet.lang.as_str(), "en")
}

/// Whether a text is letter-heavy: it is non-empty and at least 65 of
/// every 100 characters are ASCII letters. An empty text does not pass.
pub open spec fn letterish_spec(t: Seq<char>) -> bool {
    t.len() > 0 && 100 * crate::text::norm(t).len() >= 65 * t.len()
}

/// Whether or not some percentage of characters are letters.
pub fn letterish(tweet: &Tweet) -> (r: bool)
    ensures
        r == letterish_spec(tweet.text@),
{
    let text = tweet.text.as_str();
    let total_chars = text.unicode_len();
    let nc = crate::text::norm_chars(text);
    let letter_chars = nc.len();
    if total_chars == 0 {
        return false;
    }
    100 * (letter_chars as u128) >= 65 * (total_chars as u128)
}

/// An item passes when every filter accepts it.
pub fn filter_all(tweet: &Tweet) -> (r: bool)
    ensures
        r == (tweet.entities.user_mentions@.len() == 0 && tweet.entities.urls@.len() == 0
            && tweet.lang@ == "en"@ && !contains_seq(tweet.text@, "https://t.co"@)
            && letterish_spec(tweet.text@)),
{
    mention_filter(tweet) && url_filter(tweet) && en_filter(tweet) && manual_url_filter(tweet)
        && letterish(tweet)
}

} // verus!
