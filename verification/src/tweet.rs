//! The item model: incoming posts with their entities, the slimmed-down
//! form kept by the pipeline, and the credential handed to the stream
//! producer. Timestamps are plain epoch seconds; the network client that
//! fills these values lives outside the library.

use vstd::prelude::*;

use crate::anagrams::AsStr;
use vstd::string::StrSliceExecFns;

verus! {

/// A hashtag with the character range it occupies.
pub struct Hashtag {
    pub text: String,
    pub indices: (u64, u64),
}

/// A link with the character range it occupies.
pub struct Url {
    pub url: String,
    pub expanded_url: String,
    pub indices: (u64, u64),
}

/// A mentioned account with the character range it occupies.
pub struct UserMention {
    pub screen_name: String,
    pub name: Option<String>,
    pub id: Option<u64>,
    pub id_str: Option<String>,
    pub indices: (u64, u64),
}

/// The entities attached to a post.
pub struct Entities {
    pub hashtags: Vec<Hashtag>,
    pub urls: Vec<Url>,
    pub user_mentions: Vec<UserMention>,
}

/// The author of a post.
#[derive(Debug, Clone)]
pub struct User {
    pub id: String,
    pub link: String,
    pub display_name: String,
    pub image: String,
    pub preferred_username: String,
    pub verified: bool,
    pub followers_count: u64,
}

/// An incoming post, with its posting time as epoch seconds.
pub struct Tweet {
    pub text: String,
    pub lang: String,
    pub link: String,
    pub posted_time: i64,
    pub user: User,
    pub entities: Entities,
}

/// The slimmed-down form of a post that the pipeline retains.
#[derive(Debug, Clone)]
pub struct MinimalTweet {
    pub text: String,
    pub link: String,
}

/// A credential for the stream producer.
#[derive(Debug, Clone)]
pub struct Credential {
    pub user: String,
    pub pw: String,
}

impl View for Tweet {
    type V = Seq<char>;

    open spec fn view(&self) -> Seq<char> {
        self.text@
    }
}

impl AsStr for Tweet {
    open spec fn text_of(v: Seq<char>) -> Seq<char> {
        v
    }

    fn as_str(&self) -> (r: &str) {
        self.text.as_str()
    }

    fn dup(&self) -> (r: Self) {
        Tweet {
            text: self.text.clone(),
            lang: self.lang.clone(),
            link: self.link.clone(),
            posted_time: self.posted_time,
            user: self.user.clone(),
            entities: copy_entities(&self.entities),
        }
    }
}

impl View for MinimalTweet {
    type V = (Seq<char>, Seq<char>);

    open spec fn view(&self) -> (Seq<char>, Seq<char>) {
        (self.text@, self.link@)
    }
}

impl AsStr for MinimalTweet {
    open spec fn text_of(v: (Seq<char>, Seq<char>)) -> Seq<char> {
        v.0
    }

    fn as_str(&self) -> (r: &str) {
        self.text.as_str()
    }

    fn dup(&self) -> (r: Self) {
        MinimalTweet { text: self.text.clone(), link: self.link.clone() }
    }
}

/// A fresh copy of an item's entities.
fn copy_entities(e: &Entities) -> (r: Entities)
    ensures
        r.hashtags@.len() == e.hashtags@.len(),
        r.urls@.len() == e.urls@.len(),
        r.user_mentions@.len() == e.user_mentions@.len(),
{
    let mut hashtags: Vec<Hashtag> = Vec::new();
    let mut i: usize = 0;
    while i < e.hashtags.len()
        invariant
            i <= e.hashtags@.len(),
            hashtags@.len() == i,
        decreases e.hashtags@.len() - i,
    {
        let h = &e.hashtags[i];
        hashtags.push(Hashtag { text: h.text.clone(), indices: h.indices });
        i = i + 1;
    }
    let mut urls: Vec<Url> = Vec::new();
    let mut i: usize = 0;
    while i < e.urls.len()
        invariant
            i <= e.urls@.len(),
            urls@.len() == i,
        decreases e.urls@.len() - i,
    {
        let u = &e.urls[i];
        urls.push(Url {
            url: u.url.clone(),
            expanded_url: u.expanded_url.clone(),
            indices: u.indices,
        });
        i = i + 1;
    }
    let mut user_mentions: Vec<UserMention> = Vec::new();
    let mut i: usize = 0;
    while i < e.user_mentions.len()
        invariant
            i <= e.user_mentions@.len(),
            user_mentions@.len() == i,
        decreases e.user_mentions@.len() - i,
    {
        let m = &e.user_mentions[i];
        user_mentions.push(UserMention {
            screen_name: m.screen_name.clone(),
            name: match &m.name {
                Some(n) => Some(n.clone()),
                None => None,
            },
            id: m.id,
            id_str: match &m.id_str {
                Some(n) => Some(n.clone()),
                None => None,
            },
            indices: m.indices,
        });
        i = i + 1;
    }
    Entities { hashtags, urls, user_mentions }
}

/// Where the status identifier starts in a link: just after the last
/// slash, or at the start when there is none.
pub open spec fn id_start(s: Seq<char>) -> int
    decreases s.len(),
{
    if s.len() == 0 {
        0
    } else if s.last() == '/' {
        s.len() as int
    } else {
        id_start(s.drop_last())
    }
}

/// The trailing segment of a link that carries the status identifier.
pub open spec fn id_segment(s: Seq<char>) -> Seq<char> {
    s.subrange(id_start(s), s.len() as int)
}

/// Whether every character is a decimal digit.
pub open spec fn all_digits(s: Seq<char>) -> bool {
    forall|i: int| 0 <= i < s.len() ==> '0' <= #[trigger] s[i] && s[i] <= '9'
}

/// The number written in decimal digits.
pub open spec fn digits_val(s: Seq<char>) -> nat
    decreases s.len(),
{
    if s.len() == 0 {
        0
    } else {
        (digits_val(s.drop_last()) * 10 + (s.last() as u32 - 48)) as nat
    }
}

/// The identifier segment never starts before the start of the link.
proof fn lemma_id_start_range(s: Seq<char>)
    ensures
        0 <= id_start(s) <= s.len(),
    decreases s.len(),
{
    if s.len() > 0 && s.last() != '/' {
        lemma_id_start_range(s.drop_last());
    }
}

/// A longer run of digits never encodes a smaller number.
proof fn lemma_digits_prefix(s: Seq<char>, i: int)
    requires
        0 <= i <= s.len(),
        all_digits(s),
    ensures
        digits_val(s.take(i)) <= digits_val(s),
    decreases s.len() - i,
{
    if i < s.len() {
        lemma_digits_prefix(s, i + 1);
        assert(s.take(i + 1).drop_last() =~= s.take(i));
        assert(digits_val(s.take(i + 1)) == digits_val(s.take(i)) * 10 + (s.take(i + 1).last()
            as u32 - 48));
        assert(s.take(s.len() as int) =~= s);
    } else {
        assert(s.take(i) =~= s);
    }
}

impl MinimalTweet {
    /// The numeric status identifier at the end of the post's link.
    pub fn id(&self) -> (r: u64)
        requires
            id_segment(self.link@).len() > 0,
            all_digits(id_segment(self.link@)),
            digits_val(id_segment(self.link@)) <= u64::MAX,
        ensures
            r as nat == digits_val(id_segment(self.link@)),
    {
        let link = self.link.as_str();
        let n = link.unicode_len();
        proof {
            lemma_id_start_range(self.link@);
            assert(self.link@.take(0) =~= Seq::<char>::empty());
        }

        // find where the identifier segment starts
        let mut start: usize = 0;
        let mut i: usize = 0;
        while i < n
            invariant
                i <= n,
                n == self.link@.len(),
                link@ == self.link@,
                start <= i,
                start as int == id_start(self.link@.take(i as int)),
            decreases n - i,
        {
            let c = link.get_char(i);
            proof {
                assert(self.link@.take(i + 1 as int).drop_last() =~= self.link@.take(i as int));
                assert(self.link@.take(i + 1 as int).last() == self.link@[i as int]);
            }
            if c == '/' {
                start = i + 1;
            }
            i = i + 1;
        }
        proof {
            assert(self.link@.take(n as int) =~= self.link@);
        }

        // parse the decimal digits of the segment
        let ghost seg = id_segment(self.link@);
        let mut acc: u64 = 0;
        let mut j: usize = start;
        proof {
            assert(seg.take(0) =~= Seq::<char>::empty());
        }
        while j < n
            invariant
                start <= j <= n,
                n == self.link@.len(),
                link@ == self.link@,
                start as int == id_start(self.link@),
                seg == id_segment(self.link@),
                all_digits(seg),
                digits_val(seg) <= u64::MAX,
                acc as nat == digits_val(seg.take(j - start)),
            decreases n - j,
        {
            let c = link.get_char(j);
            proof {
                assert(seg[j - start] == self.link@[j as int]);
                assert(seg.take(j - start + 1).drop_last() =~= seg.take(j - start));
                assert(seg.take(j - start + 1).last() == seg[j - start]);
                lemma_digits_prefix(seg, j - start + 1);
            }
            let d = (c as u32 - 48) as u64;
            acc = acc * 10 + d;
            j = j + 1;
        }
        proof {
            assert(seg.take(n - start) =~= seg);
        }
        acc
    }
}

} // verus!
