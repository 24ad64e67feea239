//! The candidate-matching engine: letter-frequency fingerprints, the
//! word-order-insensitive normal forms, the two-stage distance test, and
//! the per-item processing protocol over a candidate store and a result
//! sink.

use vstd::prelude::*;

use crate::edit_dist::{lev, EditDistance};
use crate::filters::is_ascii_letter;
use crate::text::{
    chars_vec, fold_ascii, join_words, lemma_insert_sorted_at, lemma_join_words_len,
    lemma_norm_shape, lemma_sort_words_shape, lemma_words_of_bound, lemma_words_of_last_letter,
    lex_leq, lex_leq_exec, norm, norm_chars, sort_words, str_eq, string_from_chars, words_of,
};

verus! {

/// Longest text, in characters, that the matching pipeline accepts for a
/// single item. It keeps every distance matrix within address space.
pub const MAX_TEXT_LEN: usize = 65000;

/// Index of a folded letter in the fingerprint: 0 for 'a' up to 25 for 'z'.
pub open spec fn letter_idx(c: char) -> int {
    c as u32 - 97
}

/// How many characters of `s` carry the letter index `i`.
pub open spec fn count_idx(s: Seq<char>, i: int) -> nat
    decreases s.len(),
{
    if s.len() == 0 {
        0
    } else {
        count_idx(s.drop_last(), i) + if letter_idx(s.last()) == i {
            1nat
        } else {
            0nat
        }
    }
}

/// The fingerprint of a text: for each of the 26 letters, how often it
/// occurs in the text's normal form.
pub open spec fn fp_of(t: Seq<char>) -> Seq<nat> {
    Seq::new(26, |i: int| count_idx(norm(t), i))
}

/// Removing one character takes away exactly its own contribution to a
/// letter's count.
proof fn lemma_count_idx_remove(t: Seq<char>, j: int, i: int)
    requires
        0 <= j < t.len(),
    ensures
        count_idx(t, i) == count_idx(t.remove(j), i) + if letter_idx(t[j]) == i {
            1nat
        } else {
            0nat
        },
    decreases t.len(),
{
    if j == t.len() - 1 {
        assert(t.remove(j) =~= t.drop_last());
    } else {
        lemma_count_idx_remove(t.drop_last(), j, i);
        assert(t.remove(j).drop_last() =~= t.drop_last().remove(j));
        assert(t.remove(j).last() == t.last());
    }
}

/// Letter counts depend only on the multiset of characters: any
/// permutation leaves every count unchanged.
proof fn lemma_count_idx_permutation(s: Seq<char>, t: Seq<char>, i: int)
    requires
        s.to_multiset() == t.to_multiset(),
    ensures
        count_idx(s, i) == count_idx(t, i),
    decreases s.len(),
{
    broadcast use vstd::seq_lib::group_to_multiset_ensures;

    if s.len() == 0 {
        assert(t.to_multiset().len() == 0);
        assert(t.len() == 0);
    } else {
        let c = s.last();
        assert(s.drop_last().push(c) =~= s);
        assert(s.to_multiset() == s.drop_last().to_multiset().insert(c));
        assert(t.to_multiset().count(c) > 0);
        assert(t.contains(c));
        let j = choose|j: int| 0 <= j < t.len() && t[j] == c;
        lemma_count_idx_remove(t, j, i);
        assert(t.remove(j).to_multiset() =~= t.to_multiset().remove(c));
        assert(s.drop_last().to_multiset() =~= s.to_multiset().remove(c));
        lemma_count_idx_permutation(s.drop_last(), t.remove(j), i);
    }
}

/// The fingerprint never sees order: two texts whose folded letters form
/// the same multiset share one fingerprint, whatever the arrangement of
/// their characters.
pub proof fn lemma_fingerprint_permutation(a: Seq<char>, b: Seq<char>)
    requires
        norm(a).to_multiset() == norm(b).to_multiset(),
    ensures
        fp_of(a) == fp_of(b),
{
    assert forall|i: int| 0 <= i < 26 implies count_idx(norm(a), i) == count_idx(
        norm(b),
        i,
    ) by {
        lemma_count_idx_permutation(norm(a), norm(b), i);
    }
    assert(fp_of(a) =~= fp_of(b));
}

/// Any permutation of a text's characters leaves its fingerprint
/// unchanged.
pub proof fn lemma_fingerprint_of_permutation(a: Seq<char>, b: Seq<char>)
    requires
        a.to_multiset() == b.to_multiset(),
    ensures
        fp_of(a) == fp_of(b),
{
    crate::text::lemma_norm_permutation(a, b);
    lemma_fingerprint_permutation(a, b);
}

/// Stores a count for each ASCII letter, in order.
#[derive(Debug, Clone, Eq, Hash)]
pub struct AsciiFingerprint {
    counts: Vec<usize>,
}

impl View for AsciiFingerprint {
    type V = Seq<nat>;

    closed spec fn view(&self) -> Seq<nat> {
        self.counts@.map_values(|x: usize| x as nat)
    }
}

impl PartialEq for AsciiFingerprint {
    fn eq(&self, other: &Self) -> (r: bool) {
        proof {
            assert(self@.len() == self.counts@.len());
            assert(other@.len() == other.counts@.len());
        }
        if self.counts.len() != other.counts.len() {
            return false;
        }
        let mut i: usize = 0;
        while i < self.counts.len()
            invariant
                i <= self.counts.len(),
                self.counts.len() == other.counts.len(),
                forall|k: int| 0 <= k < i ==> self.counts@[k] == other.counts@[k],
            decreases self.counts.len() - i,
        {
            if self.counts[i] != other.counts[i] {
                proof {
                    assert(self@[i as int] == self.counts@[i as int] as nat);
                    assert(other@[i as int] == other.counts@[i as int] as nat);
                }
                return false;
            }
            i = i + 1;
        }
        proof {
            assert(self.counts@ =~= other.counts@);
            assert(self@ =~= other@);
        }
        true
    }
}

/// The letter with the given fingerprint index: 0 is 'a', 25 is 'z'.
pub open spec fn letter_char(i: int) -> char {
    ((97 + i) as u32) as char
}

/// The counts of the first `upto` letters rendered as text: each letter
/// repeated as often as it was counted, in alphabetical order.
pub open spec fn render_counts(counts: Seq<nat>, upto: int) -> Seq<char>
    decreases upto,
{
    if upto <= 0 {
        Seq::empty()
    } else {
        render_counts(counts, upto - 1) + Seq::new(counts[upto - 1], |k: int| letter_char(upto - 1))
    }
}

/// One count encoded as eight little-endian bytes.
pub open spec fn le8(x: nat) -> Seq<u8> {
    seq![
        (x % 256) as u8,
        ((x / 256) % 256) as u8,
        ((x / 65536) % 256) as u8,
        ((x / 16777216) % 256) as u8,
        ((x / 4294967296) % 256) as u8,
        ((x / 1099511627776) % 256) as u8,
        ((x / 281474976710656) % 256) as u8,
        ((x / 72057594037927936) % 256) as u8,
    ]
}

/// A fingerprint serialized to raw bytes: each count in turn, little
/// endian.
pub open spec fn fp_bytes(counts: Seq<nat>) -> Seq<u8>
    decreases counts.len(),
{
    if counts.len() == 0 {
        Seq::empty()
    } else {
        fp_bytes(counts.drop_last()) + le8(counts.last())
    }
}

/// Counts that fit the serialized form: each below two to the 64.
pub open spec fn counts_bounded(counts: Seq<nat>) -> bool {
    forall|i: int| 0 <= i < counts.len() ==> #[trigger] counts[i] < 0x1_0000_0000_0000_0000
}

/// Eight little-endian bytes determine their word.
proof fn lemma_le8_word_injective(x: u64, y: u64)
    by (bit_vector)
    requires
        x % 256 == y % 256,
        (x / 256) % 256 == (y / 256) % 256,
        (x / 65536) % 256 == (y / 65536) % 256,
        (x / 16777216) % 256 == (y / 16777216) % 256,
        (x / 4294967296) % 256 == (y / 4294967296) % 256,
        (x / 1099511627776) % 256 == (y / 1099511627776) % 256,
        (x / 281474976710656) % 256 == (y / 281474976710656) % 256,
        (x / 72057594037927936) % 256 == (y / 72057594037927936) % 256,
    ensures
        x == y,
{
}

/// The little-endian encoding of a bounded count is one to one.
proof fn lemma_le8_injective(x: nat, y: nat)
    requires
        x < 0x1_0000_0000_0000_0000,
        y < 0x1_0000_0000_0000_0000,
        le8(x) == le8(y),
    ensures
        x == y,
{
    let xu = x as u64;
    let yu = y as u64;
    assert(le8(x)[0] == le8(y)[0]);
    assert(le8(x)[1] == le8(y)[1]);
    assert(le8(x)[2] == le8(y)[2]);
    assert(le8(x)[3] == le8(y)[3]);
    assert(le8(x)[4] == le8(y)[4]);
    assert(le8(x)[5] == le8(y)[5]);
    assert(le8(x)[6] == le8(y)[6]);
    assert(le8(x)[7] == le8(y)[7]);
    lemma_le8_word_injective(xu, yu);
}

/// The serialized form is eight bytes per count.
proof fn lemma_fp_bytes_len(counts: Seq<nat>)
    ensures
        fp_bytes(counts).len() == 8 * counts.len(),
    decreases counts.len(),
{
    if counts.len() > 0 {
        lemma_fp_bytes_len(counts.drop_last());
    }
}

/// Serialization of bounded counts is one to one: distinct fingerprints
/// have distinct byte keys.
pub proof fn lemma_fp_bytes_injective(a: Seq<nat>, b: Seq<nat>)
    requires
        counts_bounded(a),
        counts_bounded(b),
        fp_bytes(a) == fp_bytes(b),
    ensures
        a == b,
    decreases a.len(),
{
    lemma_fp_bytes_len(a);
    lemma_fp_bytes_len(b);
    assert(a.len() == b.len());
    if a.len() > 0 {
        let fa = fp_bytes(a);
        let pa = fp_bytes(a.drop_last());
        let pb = fp_bytes(b.drop_last());
        lemma_fp_bytes_len(a.drop_last());
        lemma_fp_bytes_len(b.drop_last());
        assert forall|j: int| 0 <= j < 8 implies le8(a.last())[j] == le8(b.last())[j] by {
            assert(fp_bytes(a)[pa.len() + j] == le8(a.last())[j]);
            assert(fp_bytes(b)[pb.len() + j] == le8(b.last())[j]);
        }
        assert(le8(a.last()) =~= le8(b.last()));
        lemma_le8_injective(a.last(), b.last());
        assert forall|j: int| 0 <= j < pa.len() implies pa[j] == pb[j] by {
            assert(fp_bytes(a)[j] == pa[j]);
            assert(fp_bytes(b)[j] == pb[j]);
        }
        assert(pa =~= pb);
        assert(counts_bounded(a.drop_last())) by {
            assert(forall|i: int|
                0 <= i < a.drop_last().len() ==> #[trigger] a.drop_last()[i] == a[i]);
        }
        assert(counts_bounded(b.drop_last())) by {
            assert(forall|i: int|
                0 <= i < b.drop_last().len() ==> #[trigger] b.drop_last()[i] == b[i]);
        }
        lemma_fp_bytes_injective(a.drop_last(), b.drop_last());
        assert(a =~= a.drop_last().push(a.last()));
        assert(b =~= b.drop_last().push(b.last()));
    } else {
        assert(a =~= b);
    }
}

/// A real fingerprint's counts always fit the serialized form.
pub proof fn lemma_fp_view_bounded(fp: &AsciiFingerprint)
    ensures
        counts_bounded(fp@),
{
    assert(forall|i: int| 0 <= i < fp@.len() ==> #[trigger] fp@[i] == fp.counts@[i] as nat);
}

impl AsciiFingerprint {
    /// The fingerprint rendered as text: each letter repeated as often
    /// as it was counted, in alphabetical order.
    pub fn to_string(&self) -> (r: String)
        requires
            self@.len() == 26,
        ensures
            r@ == render_counts(self@, 26),
    {
        let mut out: Vec<char> = Vec::new();
        let mut idx: usize = 0;
        while idx < 26
            invariant
                idx <= 26,
                self@.len() == 26,
                self.counts@.len() == 26,
                out@ == render_counts(self@, idx as int),
            decreases 26 - idx,
        {
            let ch = ((idx as u8) + 97) as char;
            proof {
                assert(ch == letter_char(idx as int));
            }
            let cnt = self.counts[idx];
            proof {
                assert(self@[idx as int] == self.counts@[idx as int] as nat);
            }
            let mut j: usize = 0;
            while j < cnt
                invariant
                    j <= cnt,
                    idx < 26,
                    self@.len() == 26,
                    self.counts@.len() == 26,
                    cnt as nat == self@[idx as int],
                    ch == letter_char(idx as int),
                    out@ == render_counts(self@, idx as int) + Seq::new(
                        j as nat,
                        |k: int| letter_char(idx as int),
                    ),
                decreases cnt - j,
            {
                out.push(ch);
                proof {
                    assert(out@ =~= render_counts(self@, idx as int) + Seq::new(
                        (j + 1) as nat,
                        |k: int| letter_char(idx as int),
                    ));
                }
                j = j + 1;
            }
            proof {
                assert(out@ =~= render_counts(self@, idx + 1 as int));
            }
            idx = idx + 1;
        }
        string_from_chars(&out)
    }

    /// The fingerprint serialized to raw bytes, deterministically: each
    /// count as eight little-endian bytes, in letter order.
    pub fn key_bytes(&self) -> (r: Vec<u8>)
        ensures
            r@ == fp_bytes(self@),
    {
        let mut out: Vec<u8> = Vec::new();
        let mut i: usize = 0;
        proof {
            assert(self@.take(0) =~= Seq::<nat>::empty());
            assert(out@ =~= fp_bytes(self@.take(0)));
        }
        while i < self.counts.len()
            invariant
                i <= self.counts@.len(),
                self@.len() == self.counts@.len(),
                out@ == fp_bytes(self@.take(i as int)),
            decreases self.counts@.len() - i,
        {
            proof {
                assert(self@[i as int] == self.counts@[i as int] as nat);
            }
            let x = self.counts[i] as u64;
            out.push((x % 256) as u8);
            out.push(((x / 256) % 256) as u8);
            out.push(((x / 65536) % 256) as u8);
            out.push(((x / 16777216) % 256) as u8);
            out.push(((x / 4294967296) % 256) as u8);
            out.push(((x / 1099511627776) % 256) as u8);
            out.push(((x / 281474976710656) % 256) as u8);
            out.push(((x / 72057594037927936) % 256) as u8);
            proof {
                assert(self@.take(i + 1 as int).drop_last() =~= self@.take(i as int));
                assert(self@.take(i + 1 as int).last() == self@[i as int]);
                assert(out@ =~= fp_bytes(self@.take(i as int)) + le8(self@[i as int]));
            }
            i = i + 1;
        }
        proof {
            assert(self@.take(self@.len() as int) =~= self@);
        }
        out
    }
}

impl vstd::std_specs::cmp::PartialEqSpecImpl for AsciiFingerprint {
    open spec fn obeys_eq_spec() -> bool {
        true
    }

    open spec fn eq_spec(&self, other: &Self) -> bool {
        self@ == other@
    }
}

/// The fingerprint of the text behind `s`, as a 26-slot histogram.
pub fn fingerprint_str(s: &str) -> (r: AsciiFingerprint)
    ensures
        r@ == fp_of(s@),
{
    let nc = norm_chars(s);
    let mut h: Vec<usize> = Vec::new();
    let mut k: usize = 0;
    while k < 26
        invariant
            k <= 26,
            h@.len() == k,
            forall|t: int| 0 <= t < k ==> h@[t] == 0,
        decreases 26 - k,
    {
        h.push(0);
        k = k + 1;
    }
    proof {
        lemma_norm_shape(s@);
        assert(nc@.take(0) =~= Seq::<char>::empty());
    }
    let mut i: usize = 0;
    while i < nc.len()
        invariant
            i <= nc.len(),
            nc@ == norm(s@),
            h@.len() == 26,
            forall|t: int|
                0 <= t < nc@.len() ==> crate::text::is_lower_letter(#[trigger] nc@[t]),
            forall|t: int| 0 <= t < 26 ==> #[trigger] h@[t] <= i,
            forall|t: int| 0 <= t < 26 ==> #[trigger] h@[t] as nat == count_idx(
                nc@.take(i as int),
                t,
            ),
        decreases nc.len() - i,
    {
        let c = nc[i];
        let li = (c as u8 - 97) as usize;
        proof {
            assert(crate::text::is_lower_letter(c));
            assert(li < 26);
            assert(letter_idx(c) == li as int);
            assert(nc@.take(i + 1 as int).drop_last() =~= nc@.take(i as int));
            assert(nc@.take(i + 1 as int).last() == nc@[i as int]);
        }
        let cur = h[li];
        h[li] = cur + 1;
        i = i + 1;
    }
    proof {
        assert(nc@.take(nc@.len() as int) =~= nc@);
        assert(h@.map_values(|x: usize| x as nat) =~= fp_of(s@));
    }
    AsciiFingerprint { counts: h }
}

/// Letters of the text, folded to lower case, with everything else
/// dropped; word order is preserved.
pub fn lowercase_filtered(s: &str) -> (r: String)
    ensures
        r@ == norm(s@),
{
    let nc = norm_chars(s);
    string_from_chars(&nc)
}

/// The words of a text, sorted.
pub open spec fn word_sorted(s: Seq<char>) -> Seq<char> {
    join_words(sort_words(words_of(s)))
}

/// The views of a list of word vectors.
pub open spec fn views_of(ws: Seq<Vec<char>>) -> Seq<Seq<char>> {
    ws.map_values(|w: Vec<char>| w@)
}

/// A fresh vector holding the same characters.
fn copy_chars(v: &Vec<char>) -> (r: Vec<char>)
    ensures
        r@ == v@,
{
    let mut out: Vec<char> = Vec::new();
    let mut i: usize = 0;
    while i < v.len()
        invariant
            i <= v.len(),
            out@ == v@.take(i as int),
        decreases v.len() - i,
    {
        out.push(v[i]);
        proof {
            assert(out@ =~= v@.take(i + 1 as int));
        }
        i = i + 1;
    }
    proof {
        assert(out@ =~= v@);
    }
    out
}

/// The first position in the sorted word list whose entry the word does
/// not come after.
fn find_word_pos(w: &Vec<char>, sorted: &Vec<Vec<char>>) -> (pos: usize)
    ensures
        pos <= sorted@.len(),
        forall|k: int| 0 <= k < pos ==> !lex_leq(w@, #[trigger] views_of(sorted@)[k]),
        pos < sorted@.len() ==> lex_leq(w@, views_of(sorted@)[pos as int]),
{
    let mut pos: usize = 0;
    while pos < sorted.len()
        invariant
            pos <= sorted@.len(),
            forall|k: int| 0 <= k < pos ==> !lex_leq(w@, #[trigger] views_of(sorted@)[k]),
        decreases sorted@.len() - pos,
    {
        proof {
            assert(views_of(sorted@)[pos as int] == sorted@[pos as int]@);
        }
        if lex_leq_exec(w, &sorted[pos]) {
            return pos;
        }
        pos = pos + 1;
    }
    pos
}

/// Given a string, removes ignored characters, lowercases, and sorts by
/// word: the words are split on non-letters, sorted lexicographically,
/// and joined with single spaces.
pub fn word_split_sort(s: &str) -> (r: String)
    ensures
        r@ == word_sorted(s@),
{
    let sc = chars_vec(s);

    // split into folded words
    let mut words: Vec<Vec<char>> = Vec::new();
    let mut i: usize = 0;
    proof {
        assert(s@.take(0) =~= Seq::<char>::empty());
        assert(views_of(words@) =~= words_of(s@.take(0)));
    }
    while i < sc.len()
        invariant
            i <= sc.len(),
            sc@ == s@,
            views_of(words@) == words_of(s@.take(i as int)),
        decreases sc.len() - i,
    {
        let c = sc[i];
        proof {
            assert(s@.take(i + 1 as int).drop_last() =~= s@.take(i as int));
            assert(s@.take(i + 1 as int).last() == s@[i as int]);
        }
        if is_ascii_letter(&c) {
            let f = fold_ascii(c);
            if i > 0 && is_ascii_letter(&sc[i - 1]) {
                proof {
                    assert(s@.take(i as int).last() == s@[i - 1]);
                    lemma_words_of_last_letter(s@.take(i as int));
                    assert(views_of(words@).len() == words@.len());
                }
                let mut w = match words.pop() {
                    Some(w) => w,
                    None => Vec::new(),
                };
                w.push(f);
                words.push(w);
                proof {
                    let prev = words_of(s@.take(i as int));
                    assert(s@.take(i + 1 as int)[i - 1] == s@[i - 1]);
                    assert(views_of(words@) =~= prev.update(
                        prev.len() - 1,
                        prev.last().push(f),
                    ));
                }
            } else {
                let mut w: Vec<char> = Vec::new();
                w.push(f);
                words.push(w);
                proof {
                    let prev = words_of(s@.take(i as int));
                    if i > 0 {
                        assert(s@.take(i + 1 as int)[i - 1] == s@[i - 1]);
                    }
                    assert(views_of(words@) =~= prev.push(seq![f]));
                }
            }
        }
        i = i + 1;
    }
    proof {
        assert(s@.take(sc@.len() as int) =~= s@);
    }

    // insertion sort by lexicographic order
    let mut sorted: Vec<Vec<char>> = Vec::new();
    let mut i: usize = 0;
    proof {
        assert(views_of(words@).take(0) =~= Seq::<Seq<char>>::empty());
        assert(views_of(sorted@) =~= sort_words(views_of(words@).take(0)));
    }
    while i < words.len()
        invariant
            i <= words.len(),
            views_of(words@) == words_of(s@),
            views_of(sorted@) == sort_words(views_of(words@).take(i as int)),
        decreases words.len() - i,
    {
        let w = copy_chars(&words[i]);
        proof {
            assert(views_of(words@)[i as int] == words@[i as int]@);
        }
        let pos = find_word_pos(&w, &sorted);
        let ghost old_sorted = views_of(sorted@);
        sorted.insert(pos, w);
        proof {
            lemma_insert_sorted_at(w@, old_sorted, pos as int);
            assert(views_of(sorted@) =~= old_sorted.insert(pos as int, w@));
            let ws = views_of(words@);
            assert(ws.take(i + 1 as int).drop_last() =~= ws.take(i as int));
            assert(ws.take(i + 1 as int).last() == ws[i as int]);
            assert(views_of(sorted@) =~= sort_words(ws.take(i + 1 as int)));
        }
        i = i + 1;
    }
    proof {
        assert(views_of(words@).take(words@.len() as int) =~= views_of(words@));
    }

    // join with single spaces
    let mut out: Vec<char> = Vec::new();
    let mut i: usize = 0;
    proof {
        assert(views_of(sorted@).take(0) =~= Seq::<Seq<char>>::empty());
        assert(out@ =~= join_words(views_of(sorted@).take(0)));
    }
    while i < sorted.len()
        invariant
            i <= sorted.len(),
            views_of(sorted@) == sort_words(words_of(s@)),
            out@ == join_words(views_of(sorted@).take(i as int)),
        decreases sorted.len() - i,
    {
        if i > 0 {
            out.push(' ');
        }
        let mut k: usize = 0;
        let ghost base = out@;
        while k < sorted[i].len()
            invariant
                i < sorted.len(),
                k <= sorted@[i as int]@.len(),
                out@ == base + sorted@[i as int]@.take(k as int),
            decreases sorted@[i as int]@.len() - k,
        {
            let c = sorted[i][k];
            out.push(c);
            proof {
                assert(out@ =~= base + sorted@[i as int]@.take(k + 1 as int));
            }
            k = k + 1;
        }
        proof {
            let sv = views_of(sorted@);
            assert(sorted@[i as int]@.take(sorted@[i as int]@.len() as int) =~= sorted@[i as int]@);
            assert(sv.take(i + 1 as int).drop_last() =~= sv.take(i as int));
            assert(sv.take(i + 1 as int).last() == sv[i as int]);
            assert(sv[i as int] == sorted@[i as int]@);
            assert(out@ =~= join_words(sv.take(i + 1 as int)));
        }
        i = i + 1;
    }
    proof {
        assert(views_of(sorted@).take(sorted@.len() as int) =~= views_of(sorted@));
    }
    string_from_chars(&out)
}

/// A character sequence sorted ascending by scalar value, built by
/// repeated insertion.
pub open spec fn insert_char_sorted(c: char, s: Seq<char>) -> Seq<char>
    decreases s.len(),
{
    if s.len() == 0 {
        seq![c]
    } else if c <= s[0] {
        seq![c] + s
    } else {
        seq![s[0]] + insert_char_sorted(c, s.drop_first())
    }
}

/// The characters of `s`, sorted ascending.
pub open spec fn sort_chars(s: Seq<char>) -> Seq<char>
    decreases s.len(),
{
    if s.len() == 0 {
        Seq::empty()
    } else {
        insert_char_sorted(s.last(), sort_chars(s.drop_last()))
    }
}

/// Inserting at the first position whose entry is at least `c` agrees
/// with [`insert_char_sorted`].
proof fn lemma_insert_char_at(c: char, s: Seq<char>, pos: int)
    requires
        0 <= pos <= s.len(),
        forall|k: int| 0 <= k < pos ==> !(c <= #[trigger] s[k]),
        pos < s.len() ==> c <= s[pos],
    ensures
        insert_char_sorted(c, s) == s.insert(pos, c),
    decreases s.len(),
{
    if s.len() == 0 || pos == 0 {
        assert(insert_char_sorted(c, s) =~= s.insert(pos, c));
    } else {
        lemma_insert_char_at(c, s.drop_first(), pos - 1);
        assert(seq![s[0]] + s.drop_first().insert(pos - 1, c) =~= s.insert(pos, c));
    }
}

/// A trait for store keys: equality of values decides equality of views.
pub trait StoreKey: View + Sized {
    /// Whether two keys address the same bucket.
    fn key_eq(&self, other: &Self) -> (r: bool)
        ensures
            r == (self@ == other@),
    ;
}

impl StoreKey for AsciiFingerprint {
    fn key_eq(&self, other: &Self) -> (r: bool) {
        *self == *other
    }
}

impl StoreKey for String {
    fn key_eq(&self, other: &Self) -> (r: bool) {
        *self == *other
    }
}

/// A trait for types which store anagram candidates: each bucket,
/// addressed by a key, holds at most one candidate at a time.
pub trait Store<K: View, V: AsStr> {
    /// The store's internal invariant.
    spec fn valid(&self) -> bool;

    /// The candidate a lookup of the key would find.
    spec fn lookup_spec(&self, k: <K as View>::V) -> Option<<V as View>::V>;

    /// Every stored candidate's text stays within the pipeline bound.
    proof fn lemma_stored_text_bounded(&self, k: <K as View>::V)
        requires
            self.valid(),
            self.lookup_spec(k) is Some,
        ensures
            V::text_of(self.lookup_spec(k)->Some_0).len() <= MAX_TEXT_LEN,
    ;

    /// Delete the bucket's entry if present; no error if absent.
    fn remove(&mut self, key: &K)
        requires
            old(self).valid(),
        ensures
            final(self).valid(),
            final(self).lookup_spec(key@) is None,
    ;

    /// Read the bucket without removing its occupant; no bucket's
    /// occupant changes.
    fn get_item(&mut self, key: &K) -> (r: Option<V>)
        requires
            old(self).valid(),
        ensures
            final(self).valid(),
            r matches Some(v) ==> old(self).lookup_spec(key@) == Some(v@),
            r is None ==> old(self).lookup_spec(key@) is None,
            forall|k2: <K as View>::V| #[trigger]
                final(self).lookup_spec(k2) == old(self).lookup_spec(k2),
    ;

    /// Set the bucket's occupant, replacing any prior value: buckets are
    /// last-writer-wins.
    fn insert(&mut self, key: K, value: V)
        requires
            old(self).valid(),
            V::text_of(value@).len() <= MAX_TEXT_LEN,
        ensures
            final(self).valid(),
            final(self).lookup_spec(key@) == Some(value@),
    ;
}

/// The value stored under the first entry whose key has the given view.
pub open spec fn assoc_lookup<K: View, V: View>(s: Seq<(K, V)>, k: <K as View>::V) -> Option<
    <V as View>::V,
>
    decreases s.len(),
{
    if s.len() == 0 {
        None
    } else if s[0].0@ == k {
        Some(s[0].1@)
    } else {
        assoc_lookup(s.drop_first(), k)
    }
}

/// With no matching key in front of it, an updated entry is what the
/// scan finds.
pub(crate) proof fn lemma_assoc_update<K: View, V: View>(s: Seq<(K, V)>, i: int, kv: (K, V))
    requires
        0 <= i < s.len(),
        forall|j: int| 0 <= j < i ==> #[trigger] s[j].0@ != kv.0@,
    ensures
        assoc_lookup(s.update(i, kv), kv.0@) == Some(kv.1@),
    decreases i,
{
    let out = s.update(i, kv);
    if i == 0 {
        assert(out[0] == kv);
    } else {
        assert(out[0] == s[0]);
        assert(out.drop_first() =~= s.drop_first().update(i - 1, kv));
        lemma_assoc_update(s.drop_first(), i - 1, kv);
    }
}

/// A key absent from the list is found after it is appended.
pub(crate) proof fn lemma_assoc_push<K: View, V: View>(s: Seq<(K, V)>, kv: (K, V))
    requires
        forall|j: int| 0 <= j < s.len() ==> #[trigger] s[j].0@ != kv.0@,
    ensures
        assoc_lookup(s.push(kv), kv.0@) == Some(kv.1@),
    decreases s.len(),
{
    let out = s.push(kv);
    if s.len() == 0 {
        assert(out[0] == kv);
    } else {
        assert(out[0] == s[0]);
        assert(out.drop_first() =~= s.drop_first().push(kv));
        lemma_assoc_push(s.drop_first(), kv);
    }
}

/// Removing the only entry with a key leaves the key unbound.
pub(crate) proof fn lemma_assoc_remove<K: View, V: View>(s: Seq<(K, V)>, i: int, k: <K as View>::V)
    requires
        0 <= i < s.len(),
        forall|j: int| 0 <= j < s.len() && j != i ==> #[trigger] s[j].0@ != k,
    ensures
        assoc_lookup(s.remove(i), k) is None,
    decreases s.len(),
{
    let out = s.remove(i);
    if i == 0 {
        assert(out =~= s.drop_first());
        lemma_assoc_none(s.drop_first(), k);
    } else {
        assert(out[0] == s[0]);
        assert(out.drop_first() =~= s.drop_first().remove(i - 1));
        lemma_assoc_remove(s.drop_first(), i - 1, k);
    }
}

/// A key matching no entry is not found.
pub(crate) proof fn lemma_assoc_none<K: View, V: View>(s: Seq<(K, V)>, k: <K as View>::V)
    requires
        forall|j: int| 0 <= j < s.len() ==> #[trigger] s[j].0@ != k,
    ensures
        assoc_lookup(s, k) is None,
    decreases s.len(),
{
    if s.len() > 0 {
        lemma_assoc_none(s.drop_first(), k);
    }
}

/// A found entry behind an unmatched prefix is what the scan finds.
pub(crate) proof fn lemma_assoc_found<K: View, V: View>(s: Seq<(K, V)>, i: int)
    requires
        0 <= i < s.len(),
        forall|j: int| 0 <= j < i ==> #[trigger] s[j].0@ != s[i].0@,
    ensures
        assoc_lookup(s, s[i].0@) == Some(s[i].1@),
    decreases i,
{
    if i > 0 {
        assert(s.drop_first()[i - 1] == s[i]);
        lemma_assoc_found(s.drop_first(), i - 1);
    }
}

/// Updating an entry in place leaves every other key's scan unchanged.
pub(crate) proof fn lemma_assoc_update_other<K: View, V: View>(
    s: Seq<(K, V)>,
    i: int,
    kv: (K, V),
    k2: <K as View>::V,
)
    requires
        0 <= i < s.len(),
        s[i].0@ == kv.0@,
        k2 != kv.0@,
    ensures
        assoc_lookup(s.update(i, kv), k2) == assoc_lookup(s, k2),
    decreases s.len(),
{
    let out = s.update(i, kv);
    if i == 0 {
        assert(out[0] == kv);
        assert(out.drop_first() =~= s.drop_first());
    } else {
        assert(out[0] == s[0]);
        assert(out.drop_first() =~= s.drop_first().update(i - 1, kv));
        lemma_assoc_update_other(s.drop_first(), i - 1, kv, k2);
    }
}

/// Appending an entry leaves every other key's scan unchanged.
pub(crate) proof fn lemma_assoc_push_other<K: View, V: View>(
    s: Seq<(K, V)>,
    kv: (K, V),
    k2: <K as View>::V,
)
    requires
        k2 != kv.0@,
    ensures
        assoc_lookup(s.push(kv), k2) == assoc_lookup(s, k2),
    decreases s.len(),
{
    let out = s.push(kv);
    if s.len() == 0 {
        assert(out[0] == kv);
        assert(out.drop_first() =~= Seq::<(K, V)>::empty());
        assert(assoc_lookup(out.drop_first(), k2) is None);
        assert(assoc_lookup(out, k2) is None);
    } else {
        assert(out[0] == s[0]);
        assert(out.drop_first() =~= s.drop_first().push(kv));
        lemma_assoc_push_other(s.drop_first(), kv, k2);
        assert(assoc_lookup(out, k2) == assoc_lookup(s, k2));
    }
}

/// Removing an entry leaves every other key's scan unchanged, provided
/// keys are unique.
pub(crate) proof fn lemma_assoc_remove_other<K: View, V: View>(
    s: Seq<(K, V)>,
    i: int,
    k2: <K as View>::V,
)
    requires
        0 <= i < s.len(),
        k2 != s[i].0@,
    ensures
        assoc_lookup(s.remove(i), k2) == assoc_lookup(s, k2),
    decreases s.len(),
{
    let out = s.remove(i);
    if i == 0 {
        assert(out =~= s.drop_first());
    } else {
        assert(out[0] == s[0]);
        assert(out.drop_first() =~= s.drop_first().remove(i - 1));
        lemma_assoc_remove_other(s.drop_first(), i - 1, k2);
    }
}

/// A (vector backed) in memory store, with one entry per bucket.
pub struct MemoryStore<K, V>(Vec<(K, V)>);

impl<K: StoreKey, V: AsStr> MemoryStore<K, V> {
    /// An empty store.
    pub fn new() -> (r: Self)
        ensures
            r.valid(),
            forall|k: <K as View>::V| #[trigger] r.lookup_spec(k) is None,
    {
        let r = MemoryStore(Vec::new());
        proof {
            assert(forall|k: <K as View>::V| #[trigger]
                assoc_lookup(r.0@, k) is None);
        }
        r
    }

    /// Position of the entry holding the key, if any.
    fn find(&self, key: &K) -> (r: Option<usize>)
        ensures
            r matches Some(i) ==> i < self.0@.len() && self.0@[i as int].0@ == key@ && forall|
                j: int,
            |
                0 <= j < i ==> #[trigger] self.0@[j].0@ != key@,
            r is None ==> forall|j: int| 0 <= j < self.0@.len() ==> #[trigger] self.0@[j].0@
                != key@,
    {
        let mut i: usize = 0;
        while i < self.0.len()
            invariant
                i <= self.0@.len(),
                forall|j: int| 0 <= j < i ==> #[trigger] self.0@[j].0@ != key@,
            decreases self.0@.len() - i,
        {
            if self.0[i].0.key_eq(key) {
                return Some(i);
            }
            i = i + 1;
        }
        None
    }
}

impl<K: StoreKey, V: AsStr> Store<K, V> for MemoryStore<K, V> {
    closed spec fn valid(&self) -> bool {
        &&& forall|i: int, j: int|
            0 <= i < j < self.0@.len() ==> #[trigger] self.0@[i].0@ != #[trigger] self.0@[j].0@
        &&& forall|i: int|
            0 <= i < self.0@.len() ==> V::text_of(#[trigger] self.0@[i].1@).len() <= MAX_TEXT_LEN
    }

    closed spec fn lookup_spec(&self, k: <K as View>::V) -> Option<<V as View>::V> {
        assoc_lookup(self.0@, k)
    }

    proof fn lemma_stored_text_bounded(&self, k: <K as View>::V) {
        lemma_assoc_in_list(self.0@, k);
    }

    fn remove(&mut self, key: &K)
        ensures
            forall|k2: <K as View>::V|
                k2 != key@ ==> #[trigger] final(self).lookup_spec(k2) == old(self).lookup_spec(k2),
    {
        match self.find(key) {
            Some(i) => {
                let ghost s0 = self.0@;
                self.0.remove(i);
                proof {
                    lemma_assoc_remove(s0, i as int, key@);
                    assert forall|k2: <K as View>::V| k2 != key@ implies #[trigger] assoc_lookup(
                        self.0@,
                        k2,
                    ) == assoc_lookup(s0, k2) by {
                        lemma_assoc_remove_other(s0, i as int, k2);
                    }
                    assert forall|p: int, q: int| 0 <= p < q < self.0@.len() implies #[trigger]
                        self.0@[p].0@ != #[trigger] self.0@[q].0@ by {
                        assert(self.0@[p] == if p < i as int {
                            s0[p]
                        } else {
                            s0[p + 1]
                        });
                        assert(self.0@[q] == if q < i as int {
                            s0[q]
                        } else {
                            s0[q + 1]
                        });
                    }
                }
            }
            None => {
                proof {
                    lemma_assoc_none(self.0@, key@);
                }
            }
        }
    }

    fn get_item(&mut self, key: &K) -> (r: Option<V>)
        ensures
            *final(self) == *old(self),
    {
        match self.find(key) {
            Some(i) => {
                proof {
                    lemma_assoc_found(self.0@, i as int);
                }
                Some(self.0[i].1.dup())
            }
            None => {
                proof {
                    lemma_assoc_none(self.0@, key@);
                }
                None
            }
        }
    }

    fn insert(&mut self, key: K, value: V)
        ensures
            forall|k2: <K as View>::V|
                k2 != key@ ==> #[trigger] final(self).lookup_spec(k2) == old(self).lookup_spec(k2),
    {
        match self.find(&key) {
            Some(i) => {
                let ghost s0 = self.0@;
                let ghost kview = key@;
                self.0[i] = (key, value);
                proof {
                    assert(self.0@ == s0.update(i as int, self.0@[i as int]));
                    lemma_assoc_update(s0, i as int, self.0@[i as int]);
                    assert forall|k2: <K as View>::V| k2 != kview implies #[trigger] assoc_lookup(
                        self.0@,
                        k2,
                    ) == assoc_lookup(s0, k2) by {
                        lemma_assoc_update_other(s0, i as int, self.0@[i as int], k2);
                    }
                    assert forall|p: int, q: int| 0 <= p < q < self.0@.len() implies #[trigger]
                        self.0@[p].0@ != #[trigger] self.0@[q].0@ by {}
                }
            }
            None => {
                let ghost s0 = self.0@;
                let ghost kview = key@;
                self.0.push((key, value));
                proof {
                    lemma_assoc_push(s0, self.0@[s0.len() as int]);
                    assert forall|k2: <K as View>::V| k2 != kview implies #[trigger] assoc_lookup(
                        self.0@,
                        k2,
                    ) == assoc_lookup(s0, k2) by {
                        lemma_assoc_push_other(s0, self.0@[s0.len() as int], k2);
                    }
                    assert forall|p: int, q: int| 0 <= p < q < self.0@.len() implies #[trigger]
                        self.0@[p].0@ != #[trigger] self.0@[q].0@ by {}
                }
            }
        }
    }
}

/// A trait for types which handle results of anagram search: a sink for
/// per-item telemetry and confirmed hits.
pub trait Adapter<T: AsStr, TE: Tester<T>>: Sized {
    /// How many items the sink has seen.
    spec fn seen_spec(&self) -> nat;

    /// How many candidate pairs have been tested.
    spec fn tested_spec(&self) -> nat;

    /// The texts of the confirmed pairs, in order of confirmation.
    spec fn hits_spec(&self) -> Seq<(Seq<char>, Seq<char>)>;

    /// Note one incoming item.
    fn will_check(&mut self, item: &T)
        requires
            old(self).seen_spec() < usize::MAX,
        ensures
            final(self).seen_spec() == old(self).seen_spec() + 1,
            final(self).tested_spec() == old(self).tested_spec(),
            final(self).hits_spec() == old(self).hits_spec(),
    ;

    /// Note one candidate pair about to be verified.
    fn possible_match(&mut self, p1: &T, p2: &T)
        requires
            old(self).tested_spec() < usize::MAX,
        ensures
            final(self).seen_spec() == old(self).seen_spec(),
            final(self).tested_spec() == old(self).tested_spec() + 1,
            final(self).hits_spec() == old(self).hits_spec(),
    ;

    /// Consume one confirmed pair together with its bucket key.
    fn handle_match(&mut self, p1: &T, p2: &T, hash: &TE::Fingerprint)
        ensures
            final(self).seen_spec() == old(self).seen_spec(),
            final(self).tested_spec() == old(self).tested_spec(),
            final(self).hits_spec() == old(self).hits_spec().push(
                (T::text_of(p1@), T::text_of(p2@)),
            ),
    ;
}

/// A sink that accumulates counts and the confirmed pairs in memory.
pub struct SimpleAdapter<T> {
    /// The confirmed pairs, in order of confirmation.
    pub hits: Vec<(T, T)>,
    /// How many items have been seen.
    pub seen: usize,
    /// How many candidate pairs have been tested.
    pub tested: usize,
}

/// The pair of texts carried by a stored hit.
pub open spec fn hit_texts<T: AsStr>(p: (T, T)) -> (Seq<char>, Seq<char>) {
    (T::text_of(p.0@), T::text_of(p.1@))
}

impl<T: AsStr> SimpleAdapter<T> {
    /// An empty sink.
    pub fn new() -> (r: Self)
        ensures
            r.hits@.len() == 0,
            r.seen == 0,
            r.tested == 0,
    {
        SimpleAdapter { hits: Vec::new(), seen: 0, tested: 0 }
    }

    /// How many pairs have been confirmed.
    pub fn hit_count(&self) -> (r: usize)
        ensures
            r == self.hits@.len(),
    {
        self.hits.len()
    }
}

impl<T: AsStr, TE: Tester<T>> Adapter<T, TE> for SimpleAdapter<T> {
    open spec fn seen_spec(&self) -> nat {
        self.seen as nat
    }

    open spec fn tested_spec(&self) -> nat {
        self.tested as nat
    }

    open spec fn hits_spec(&self) -> Seq<(Seq<char>, Seq<char>)> {
        self.hits@.map_values(|p: (T, T)| hit_texts(p))
    }

    fn will_check(&mut self, item: &T) {
        self.seen = self.seen + 1;
    }

    fn possible_match(&mut self, p1: &T, p2: &T) {
        self.tested = self.tested + 1;
    }

    fn handle_match(&mut self, p1: &T, p2: &T, hash: &TE::Fingerprint) {
        let ghost before = self.hits@;
        self.hits.push((p1.dup(), p2.dup()));
        proof {
            assert(self.hits@.map_values(|p: (T, T)| hit_texts(p)) =~= before.map_values(
                |p: (T, T)| hit_texts(p),
            ).push((T::text_of(p1@), T::text_of(p2@))));
        }
    }
}

/// What one processed item does to the store and the sink: the sink
/// counts the item; if the bucket held an occupant the pair is counted
/// as tested; a confirmed match empties the bucket and appends the pair
/// to the sink's hits; otherwise the item takes the bucket over exactly
/// when `store_new` is set, and with `store_new` unset no bucket at all
/// changes its occupant on the no-match paths.
pub open spec fn process_effect<T: AsStr, S: Store<TE::Fingerprint, T>, A: Adapter<T, TE>, TE: Tester<T>>(
    item_view: <T as View>::V,
    store0: S,
    store1: S,
    adapter0: A,
    adapter1: A,
    tester0: TE,
    store_new: bool,
) -> bool {
    let t = T::text_of(item_view);
    let f = tester0.fp_spec(t);
    &&& adapter1.seen_spec() == adapter0.seen_spec() + 1
    &&& match store0.lookup_spec(f) {
        Some(occ) => {
            let u = T::text_of(occ);
            &&& adapter1.tested_spec() == adapter0.tested_spec() + 1
            &&& if tester0.match_spec(t, u) {
                &&& store1.lookup_spec(f) is None
                &&& adapter1.hits_spec() == adapter0.hits_spec().push((t, u))
            } else {
                &&& store1.lookup_spec(f) == if store_new {
                    Some(item_view)
                } else {
                    Some(occ)
                }
                &&& !store_new ==> forall|k2: <TE::Fingerprint as View>::V| #[trigger]
                    store1.lookup_spec(k2) == store0.lookup_spec(k2)
                &&& adapter1.hits_spec() == adapter0.hits_spec()
            }
        },
        None => {
            &&& adapter1.tested_spec() == adapter0.tested_spec()
            &&& store1.lookup_spec(f) == if store_new {
                Some(item_view)
            } else {
                Option::<<T as View>::V>::None
            }
            &&& !store_new ==> forall|k2: <TE::Fingerprint as View>::V| #[trigger]
                store1.lookup_spec(k2) == store0.lookup_spec(k2)
            &&& adapter1.hits_spec() == adapter0.hits_spec()
        },
    }
}

/// Handles a single item: fingerprint it, test it against the bucket's
/// occupant, report a confirmed pair, and store the item.
pub fn process_item<T, S, A, TE>(item: T, store: &mut S, adapter: &mut A, tester: &mut TE)
    where T: AsStr, S: Store<TE::Fingerprint, T>, A: Adapter<T, TE>, TE: Tester<T>,
    requires
        old(store).valid(),
        T::text_of(item@).len() <= MAX_TEXT_LEN,
        old(adapter).seen_spec() < usize::MAX,
        old(adapter).tested_spec() < usize::MAX,
    ensures
        final(store).valid(),
        process_effect(
            item@,
            *old(store),
            *final(store),
            *old(adapter),
            *final(adapter),
            *old(tester),
            true,
        ),
{
    process_item_impl(item, store, adapter, tester, true)
}

/// Checks a new item against stored items, without storing the item on
/// the no-match path. Mostly exposed for benchmarking.
pub fn check_item<T, S, A, TE>(item: T, store: &mut S, adapter: &mut A, tester: &mut TE)
    where T: AsStr, S: Store<TE::Fingerprint, T>, A: Adapter<T, TE>, TE: Tester<T>,
    requires
        old(store).valid(),
        T::text_of(item@).len() <= MAX_TEXT_LEN,
        old(adapter).seen_spec() < usize::MAX,
        old(adapter).tested_spec() < usize::MAX,
    ensures
        final(store).valid(),
        process_effect(
            item@,
            *old(store),
            *final(store),
            *old(adapter),
            *final(adapter),
            *old(tester),
            false,
        ),
{
    process_item_impl(item, store, adapter, tester, false)
}

fn process_item_impl<T, S, A, TE>(
    item: T,
    store: &mut S,
    adapter: &mut A,
    tester: &mut TE,
    store_new: bool,
)
    where T: AsStr, S: Store<TE::Fingerprint, T>, A: Adapter<T, TE>, TE: Tester<T>,
    requires
        old(store).valid(),
        T::text_of(item@).len() <= MAX_TEXT_LEN,
        old(adapter).seen_spec() < usize::MAX,
        old(adapter).tested_spec() < usize::MAX,
    ensures
        final(store).valid(),
        process_effect(
            item@,
            *old(store),
            *final(store),
            *old(adapter),
            *final(adapter),
            *old(tester),
            store_new,
        ),
{
    let ident = tester.fingerprint(&item);
    adapter.will_check(&item);
    let hit = store.get_item(&ident);
    match hit {
        Some(h) => {
            adapter.possible_match(&item, &h);
            proof {
                let ghost s0 = *old(store);
                s0.lemma_stored_text_bounded(ident@);
            }
            if tester.is_match(&item, &h) {
                store.remove(&ident);
                adapter.handle_match(&item, &h, &ident);
                return ;
            }
        },
        None => {},
    }
    if store_new {
        store.insert(ident, item);
    }
}

/// Each value an association list can yield keeps the text bound of the
/// store it came from.
pub(crate) proof fn lemma_assoc_in_list<K: View, V: AsStr>(s: Seq<(K, V)>, k: <K as View>::V)
    requires
        forall|i: int| 0 <= i < s.len() ==> V::text_of(#[trigger] s[i].1@).len() <= MAX_TEXT_LEN,
        assoc_lookup(s, k) is Some,
    ensures
        V::text_of(assoc_lookup(s, k)->Some_0).len() <= MAX_TEXT_LEN,
    decreases s.len(),
{
    if s.len() > 0 && s[0].0@ != k {
        assert(forall|i: int|
            0 <= i < s.drop_first().len() ==> V::text_of(#[trigger] s.drop_first()[i].1@).len()
                <= MAX_TEXT_LEN);
        lemma_assoc_in_list(s.drop_first(), k);
    }
}

/// The first position in the sorted character list whose entry is not
/// below `c`.
fn find_char_pos(c: char, out: &Vec<char>) -> (pos: usize)
    ensures
        pos <= out@.len(),
        forall|k: int| 0 <= k < pos ==> !(c <= #[trigger] out@[k]),
        pos < out@.len() ==> c <= out@[pos as int],
{
    let mut pos: usize = 0;
    while pos < out.len()
        invariant
            pos <= out@.len(),
            forall|k: int| 0 <= k < pos ==> !(c <= #[trigger] out@[k]),
        decreases out@.len() - pos,
    {
        if c <= out[pos] {
            return pos;
        }
        pos = pos + 1;
    }
    pos
}

/// The sorted word form is never longer than the text it came from.
pub proof fn lemma_word_sorted_len(s: Seq<char>)
    ensures
        word_sorted(s).len() <= s.len(),
{
    let ws = words_of(s);
    lemma_words_of_bound(s);
    lemma_sort_words_shape(ws);
    lemma_join_words_len(sort_words(ws));
}

/// A trait for types that have some string representation suitable for
/// anagram comparisons.
pub trait AsStr: View + Sized {
    /// The comparison text determined by a value's view.
    spec fn text_of(v: <Self as View>::V) -> Seq<char>;

    /// The comparison text of this value.
    fn as_str(&self) -> (r: &str)
        ensures
            r@ == Self::text_of(self@),
    ;

    /// An owned value equal to this one.
    fn dup(&self) -> (r: Self)
        ensures
            r@ == self@,
    ;
}

impl AsStr for String {
    open spec fn text_of(v: Seq<char>) -> Seq<char> {
        v
    }

    fn as_str(&self) -> (r: &str) {
        String::as_str(self)
    }

    fn dup(&self) -> (r: Self) {
        self.clone()
    }
}

impl<'a> AsStr for &'a str {
    open spec fn text_of(v: Seq<char>) -> Seq<char> {
        v
    }

    fn as_str(&self) -> (r: &str) {
        *self
    }

    fn dup(&self) -> (r: Self) {
        *self
    }
}

/// A trait for types which validate potential anagrams.
///
/// A large number of anagrams are overly similar or otherwise
/// dissatisfying. A tester buckets items by a fingerprint and then
/// decides whether two items sharing a bucket make a genuine match.
pub trait Tester<T: AsStr>: Sized {
    /// The bucket key type.
    type Fingerprint: View;

    /// The fingerprint this tester assigns to a text.
    spec fn fp_spec(&self, t: Seq<char>) -> <Self::Fingerprint as View>::V;

    /// The verdict this tester reaches on a pair of texts.
    spec fn match_spec(&self, a: Seq<char>, b: Seq<char>) -> bool;

    /// The fingerprint of one item.
    fn fingerprint(&mut self, s: &T) -> (r: Self::Fingerprint)
        ensures
            r@ == old(self).fp_spec(T::text_of(s@)),
            forall|t: Seq<char>| #[trigger]
                final(self).fp_spec(t) == old(self).fp_spec(t),
            forall|x: Seq<char>, y: Seq<char>| #[trigger]
                final(self).match_spec(x, y) == old(self).match_spec(x, y),
    ;

    /// Whether two items whose fingerprints collided are a real match.
    fn is_match(&mut self, p1: &T, p2: &T) -> (r: bool)
        requires
            T::text_of(p1@).len() <= MAX_TEXT_LEN,
            T::text_of(p2@).len() <= MAX_TEXT_LEN,
        ensures
            r == old(self).match_spec(T::text_of(p1@), T::text_of(p2@)),
            forall|t: Seq<char>| #[trigger]
                final(self).fp_spec(t) == old(self).fp_spec(t),
            forall|x: Seq<char>, y: Seq<char>| #[trigger]
                final(self).match_spec(x, y) == old(self).match_spec(x, y),
    ;
}

/// The two-stage distance verdict on a pair of texts, against a match
/// threshold given as the ratio `num / den`.
///
/// A pair is rejected when the raw texts are equal, when their normal
/// forms are equal, or when the distance of the normal forms stays below
/// the threshold share of the second text's length; it is confirmed when
/// the distance of the sorted word forms still exceeds the threshold
/// share of the second text's length. The second stage deliberately
/// measures against the length of the second text's *sorted word form*,
/// not of the raw text: the migrated tests pin this reading down, and it
/// must not be changed to the raw length without new product guidance.
/// Note also the second stage's direction: a pair is confirmed only when
/// the sorted forms stay *far apart*, so texts that are pure word-order
/// shuffles of each other (whose sorted forms coincide) are rejected.
pub open spec fn ascii_match(a: Seq<char>, b: Seq<char>, num: nat, den: nat) -> bool {
    if a == b {
        false
    } else if norm(a) == norm(b) {
        false
    } else if lev(norm(a), norm(b)) * den < num * b.len() {
        false
    } else {
        lev(word_sorted(a), word_sorted(b)) * den > num * word_sorted(b).len()
    }
}

/// Texts that are equal, or that differ only in case and in characters
/// other than letters, are never a match.
pub proof fn lemma_trivial_duplicates_rejected(a: Seq<char>, b: Seq<char>, num: nat, den: nat)
    ensures
        a == b ==> !ascii_match(a, b, num, den),
        norm(a) == norm(b) ==> !ascii_match(a, b, num, den),
{
}

/// The distance matrix of two bounded texts fits in the address space.
proof fn lemma_matrix_fits(an: nat, bn: nat)
    requires
        an <= MAX_TEXT_LEN,
        bn <= MAX_TEXT_LEN,
    ensures
        (an + 1) * (bn + 1) <= usize::MAX,
{
    assert((an + 1) * (bn + 1) <= 65001 * 65001) by (nonlinear_arith)
        requires
            an <= 65000,
            bn <= 65000,
    ;
}

/// The product of two word-sized factors fits in a double-width word.
proof fn lemma_mul_u128_bound(x: u128, y: u128)
    requires
        x < 0x1_0000_0000_0000_0000,
        y < 0x1_0000_0000_0000_0000,
    ensures
        x * y <= u128::MAX,
{
    assert(x * y < 0x1_0000_0000_0000_0000_0000_0000_0000_0000) by (nonlinear_arith)
        requires
            x < 0x1_0000_0000_0000_0000,
            y < 0x1_0000_0000_0000_0000,
    ;
}

/// A simple tester for ASCII text: fingerprints by letter counts and
/// confirms matches with the two-stage distance test. The threshold is
/// one tunable ratio used by both stages.
#[derive(Debug, Clone)]
pub struct AsciiTester {
    edit_dist: EditDistance,
    threshold_num: u64,
    threshold_den: u64,
}

impl Default for AsciiTester {
    /// A tester with the standard threshold of one half.
    fn default() -> (r: Self)
        ensures
            r.num_spec() == 1,
            r.den_spec() == 2,
    {
        AsciiTester {
            edit_dist: EditDistance::default(),
            threshold_num: 1,
            threshold_den: 2,
        }
    }
}

impl AsciiTester {
    /// Numerator of the match threshold.
    pub closed spec fn num_spec(&self) -> nat {
        self.threshold_num as nat
    }

    /// Denominator of the match threshold.
    pub closed spec fn den_spec(&self) -> nat {
        self.threshold_den as nat
    }

    /// A tester with the given match threshold `num / den`.
    pub fn with_threshold(num: u64, den: u64) -> (r: Self)
        ensures
            r.num_spec() == num,
            r.den_spec() == den,
    {
        AsciiTester { edit_dist: EditDistance::default(), threshold_num: num, threshold_den: den }
    }

    /// The two-stage distance test: reject equal or trivially
    /// equivalent texts, reject pairs whose normal forms are too close,
    /// and confirm only pairs whose sorted word forms stay far apart.
    pub fn test_distance(&mut self, a: &str, b: &str) -> (r: bool)
        requires
            a@.len() <= MAX_TEXT_LEN,
            b@.len() <= MAX_TEXT_LEN,
        ensures
            r == ascii_match(a@, b@, old(self).num_spec(), old(self).den_spec()),
            final(self).num_spec() == old(self).num_spec(),
            final(self).den_spec() == old(self).den_spec(),
    {
        if str_eq(a, b) {
            return false;
        }
        let a1 = lowercase_filtered(a);
        let b1 = lowercase_filtered(b);
        if a1 == b1 {
            return false;
        }
        proof {
            lemma_norm_shape(a@);
            lemma_norm_shape(b@);
            lemma_matrix_fits(a1@.len(), b1@.len());
        }
        let dist = self.edit_dist.distance(a1.as_str(), b1.as_str());
        let b_chars = b.unicode_len();
        proof {
            lemma_mul_u128_bound(dist as u128, self.threshold_den as u128);
            lemma_mul_u128_bound(self.threshold_num as u128, b_chars as u128);
        }
        if (dist as u128) * (self.threshold_den as u128) < (self.threshold_num as u128) * (b_chars
            as u128) {
            return false;
        }
        let sa = word_split_sort(a);
        let sb = word_split_sort(b);
        proof {
            lemma_word_sorted_len(a@);
            lemma_word_sorted_len(b@);
            lemma_matrix_fits(sa@.len(), sb@.len());
        }
        let dist2 = self.edit_dist.distance(sa.as_str(), sb.as_str());
        let sb_chars = sb.as_str().unicode_len();
        proof {
            lemma_mul_u128_bound(dist2 as u128, self.threshold_den as u128);
            lemma_mul_u128_bound(self.threshold_num as u128, sb_chars as u128);
        }
        (dist2 as u128) * (self.threshold_den as u128) > (self.threshold_num as u128) * (sb_chars
            as u128)
    }
}

impl<T: AsStr> Tester<T> for AsciiTester {
    type Fingerprint = AsciiFingerprint;

    open spec fn fp_spec(&self, t: Seq<char>) -> Seq<nat> {
        fp_of(t)
    }

    open spec fn match_spec(&self, a: Seq<char>, b: Seq<char>) -> bool {
        ascii_match(a, b, self.num_spec(), self.den_spec())
    }

    fn fingerprint(&mut self, s: &T) -> (r: AsciiFingerprint) {
        fingerprint_str(s.as_str())
    }

    fn is_match(&mut self, p1: &T, p2: &T) -> (r: bool) {
        self.test_distance(p1.as_str(), p2.as_str())
    }
}

/// The letters of the text, folded to lower case and sorted: equal
/// exactly for texts whose letter multisets agree.
pub fn anagram_hash(s: &str) -> (r: Vec<char>)
    ensures
        r@ == sort_chars(norm(s@)),
{
    let nc = norm_chars(s);
    let mut out: Vec<char> = Vec::new();
    let mut i: usize = 0;
    proof {
        assert(nc@.take(0) =~= Seq::<char>::empty());
        assert(out@ =~= sort_chars(nc@.take(0)));
    }
    while i < nc.len()
        invariant
            i <= nc.len(),
            nc@ == norm(s@),
            out@ == sort_chars(nc@.take(i as int)),
        decreases nc.len() - i,
    {
        let c = nc[i];
        let pos = find_char_pos(c, &out);
        let ghost old_out = out@;
        out.insert(pos, c);
        proof {
            lemma_insert_char_at(c, old_out, pos as int);
            assert(nc@.take(i + 1 as int).drop_last() =~= nc@.take(i as int));
            assert(nc@.take(i + 1 as int).last() == nc@[i as int]);
        }
        i = i + 1;
    }
    proof {
        assert(nc@.take(nc@.len() as int) =~= nc@);
    }
    out
}

} // verus!
