//! Character-level groundwork shared by the fingerprinter and the verifier:
//! case folding of ASCII letters, the letters-only normal form of a text,
//! and executable helpers that realise those spec functions.

use vstd::prelude::*;
use vstd::string::StrSliceExecFns;

use crate::filters::{is_ascii_letter, is_letter};

verus! {

/// Relies on std's `String::push`: appends one character to the end of
/// the string. vstd gives this method no specification.
pub assume_specification[ String::push ](s: &mut String, c: char)
    ensures
        final(s)@ == old(s)@.push(c),
;

/// Case-fold a single character: ASCII upper-case letters map to their
/// lower-case counterpart, everything else is unchanged.
pub open spec fn fold_char(c: char) -> char {
    if 'A' <= c && c <= 'Z' {
        ((c as u32 + 32) as u32) as char
    } else {
        c
    }
}

/// A folded ASCII letter: one of 'a' ..= 'z'.
pub open spec fn is_lower_letter(c: char) -> bool {
    'a' <= c && c <= 'z'
}

/// The normal form of a text: every non-letter dropped, every letter
/// folded to lower case, order preserved.
pub open spec fn norm(s: Seq<char>) -> Seq<char>
    decreases s.len(),
{
    if s.len() == 0 {
        Seq::empty()
    } else if is_letter(s.last()) {
        norm(s.drop_last()).push(fold_char(s.last()))
    } else {
        norm(s.drop_last())
    }
}

/// The normal form consists of lower-case letters only and is never
/// longer than the text it came from.
pub proof fn lemma_norm_shape(s: Seq<char>)
    ensures
        norm(s).len() <= s.len(),
        forall|i: int| 0 <= i < norm(s).len() ==> is_lower_letter(#[trigger] norm(s)[i]),
    decreases s.len(),
{
    if s.len() > 0 {
        lemma_norm_shape(s.drop_last());
    }
}

/// Case-fold one character, executable counterpart of [`fold_char`].
pub fn fold_ascii(c: char) -> (r: char)
    ensures
        r == fold_char(c),
{
    if 'A' <= c && c <= 'Z' {
        ((c as u8) + 32) as char
    } else {
        c
    }
}

/// Collect the characters of a string into a vector.
pub fn chars_vec(s: &str) -> (r: Vec<char>)
    ensures
        r@ == s@,
{
    let n = s.unicode_len();
    let mut out: Vec<char> = Vec::new();
    let mut i: usize = 0;
    while i < n
        invariant
            i <= n,
            n == s@.len(),
            out@ == s@.take(i as int),
        decreases n - i,
    {
        let c = s.get_char(i);
        out.push(c);
        i = i + 1;
        proof {
            assert(out@ =~= s@.take(i as int));
        }
    }
    proof {
        assert(out@ =~= s@);
    }
    out
}

/// Whether two strings hold the same characters.
pub fn str_eq(a: &str, b: &str) -> (r: bool)
    ensures
        r == (a@ == b@),
{
    let an = a.unicode_len();
    let bn = b.unicode_len();
    if an != bn {
        return false;
    }
    let mut i: usize = 0;
    while i < an
        invariant
            i <= an,
            an == a@.len(),
            an == b@.len(),
            forall|k: int| 0 <= k < i ==> a@[k] == b@[k],
        decreases an - i,
    {
        if a.get_char(i) != b.get_char(i) {
            return false;
        }
        i = i + 1;
    }
    proof {
        assert(a@ =~= b@);
    }
    true
}

/// Build a string from a vector of characters.
pub fn string_from_chars(v: &Vec<char>) -> (r: String)
    ensures
        r@ == v@,
{
    let mut out = String::new();
    let mut i: usize = 0;
    while i < v.len()
        invariant
            i <= v.len(),
            out@ == v@.take(i as int),
        decreases v.len() - i,
    {
        out.push(v[i]);
        i = i + 1;
        proof {
            assert(out@ =~= v@.take(i as int));
        }
    }
    proof {
        assert(out@ =~= v@);
    }
    out
}

/// Removing one character takes away exactly its own contribution to
/// the normal form's letters.
proof fn lemma_norm_remove(t: Seq<char>, j: int)
    requires
        0 <= j < t.len(),
    ensures
        is_letter(t[j]) ==> norm(t).to_multiset().count(fold_char(t[j])) > 0 && norm(
            t.remove(j),
        ).to_multiset() == norm(t).to_multiset().remove(fold_char(t[j])),
        !is_letter(t[j]) ==> norm(t.remove(j)).to_multiset() == norm(t).to_multiset(),
    decreases t.len(),
{
    broadcast use vstd::seq_lib::group_to_multiset_ensures;

    if j == t.len() - 1 {
        assert(t.remove(j) =~= t.drop_last());
        if is_letter(t.last()) {
            let f = fold_char(t.last());
            assert(norm(t) == norm(t.drop_last()).push(f));
            assert(norm(t).to_multiset() == norm(t.drop_last()).to_multiset().insert(f));
            assert(norm(t.drop_last()).to_multiset() =~= norm(t).to_multiset().remove(f));
        }
    } else {
        lemma_norm_remove(t.drop_last(), j);
        let tr = t.remove(j);
        assert(tr.drop_last() =~= t.drop_last().remove(j));
        assert(tr.last() == t.last());
        let md = norm(t.drop_last()).to_multiset();
        let mdr = norm(t.drop_last().remove(j)).to_multiset();
        if is_letter(t.last()) {
            let fl = fold_char(t.last());
            assert(norm(t) == norm(t.drop_last()).push(fl));
            assert(norm(t).to_multiset() == md.insert(fl));
            assert(norm(tr) == norm(tr.drop_last()).push(fl));
            assert(norm(tr).to_multiset() == mdr.insert(fl));
            if is_letter(t[j]) {
                let fj = fold_char(t[j]);
                assert(mdr == md.remove(fj));
                assert(md.remove(fj).insert(fl) =~= md.insert(fl).remove(fj));
            }
        } else {
            assert(norm(t) == norm(t.drop_last()));
            assert(norm(tr) == norm(tr.drop_last()));
        }
    }
}

/// The normal form's letters depend only on the multiset of the text's
/// characters: any permutation of a text leaves them unchanged.
pub proof fn lemma_norm_permutation(s: Seq<char>, t: Seq<char>)
    requires
        s.to_multiset() == t.to_multiset(),
    ensures
        norm(s).to_multiset() == norm(t).to_multiset(),
    decreases s.len(),
{
    broadcast use vstd::seq_lib::group_to_multiset_ensures;

    if s.len() == 0 {
        assert(t.to_multiset().len() == 0);
        assert(t.len() == 0);
    } else {
        let c = s.last();
        assert(s.drop_last().push(c) =~= s);
        assert(s.to_multiset() == s.drop_last().to_multiset().insert(c));
        assert(t.to_multiset().count(c) > 0);
        assert(t.contains(c));
        let j = choose|j: int| 0 <= j < t.len() && t[j] == c;
        assert(t.remove(j).to_multiset() =~= t.to_multiset().remove(c));
        assert(s.drop_last().to_multiset() =~= s.to_multiset().remove(c));
        lemma_norm_permutation(s.drop_last(), t.remove(j));
        lemma_norm_remove(t, j);
        if is_letter(c) {
            let f = fold_char(c);
            assert(norm(s) == norm(s.drop_last()).push(f));
            assert(norm(s).to_multiset() == norm(s.drop_last()).to_multiset().insert(f));
            assert(norm(t).to_multiset().remove(f).insert(f) =~= norm(t).to_multiset());
        } else {
            assert(norm(s) == norm(s.drop_last()));
        }
    }
}

/// Lexicographic order on character sequences: `a` comes no later than `b`.
pub open spec fn lex_leq(a: Seq<char>, b: Seq<char>) -> bool
    decreases a.len(),
{
    if a.len() == 0 {
        true
    } else if b.len() == 0 {
        false
    } else if a[0] != b[0] {
        a[0] < b[0]
    } else {
        lex_leq(a.drop_first(), b.drop_first())
    }
}

/// Whether `a` comes no later than `b` in lexicographic order.
pub fn lex_leq_exec(a: &Vec<char>, b: &Vec<char>) -> (r: bool)
    ensures
        r == lex_leq(a@, b@),
{
    let mut i: usize = 0;
    proof {
        assert(a@.skip(0) =~= a@);
        assert(b@.skip(0) =~= b@);
    }
    loop
        invariant
            i <= a.len(),
            i <= b.len(),
            lex_leq(a@, b@) == lex_leq(a@.skip(i as int), b@.skip(i as int)),
        decreases a.len() - i,
    {
        if i == a.len() {
            proof {
                assert(a@.skip(i as int).len() == 0);
            }
            return true;
        }
        if i == b.len() {
            proof {
                assert(b@.skip(i as int).len() == 0);
                assert(a@.skip(i as int).len() > 0);
            }
            return false;
        }
        let ca = a[i];
        let cb = b[i];
        proof {
            assert(a@.skip(i as int)[0] == a@[i as int]);
            assert(b@.skip(i as int)[0] == b@[i as int]);
            assert(a@.skip(i as int).drop_first() =~= a@.skip(i + 1));
            assert(b@.skip(i as int).drop_first() =~= b@.skip(i + 1));
        }
        if ca != cb {
            return ca < cb;
        }
        i = i + 1;
    }
}

/// The words of a text: maximal runs of letters, each letter folded to
/// lower case, in their original order. Every non-letter character acts
/// as a word separator, not only whitespace — punctuation between
/// letters starts a new word, as the migrated tests pin down.
pub open spec fn words_of(s: Seq<char>) -> Seq<Seq<char>>
    decreases s.len(),
{
    if s.len() == 0 {
        Seq::empty()
    } else if !is_letter(s.last()) {
        words_of(s.drop_last())
    } else {
        let w = words_of(s.drop_last());
        if s.len() > 1 && is_letter(s[s.len() - 2]) {
            w.update(w.len() - 1, w.last().push(fold_char(s.last())))
        } else {
            w.push(seq![fold_char(s.last())])
        }
    }
}

/// A text ending in a letter has at least one word.
pub proof fn lemma_words_of_last_letter(s: Seq<char>)
    requires
        s.len() > 0,
        is_letter(s.last()),
    ensures
        words_of(s).len() > 0,
    decreases s.len(),
{
    if s.len() > 1 && is_letter(s[s.len() - 2]) {
        assert(s.drop_last().last() == s[s.len() - 2]);
        lemma_words_of_last_letter(s.drop_last());
    }
}

/// A word inserted into a word list just before the first entry that it
/// precedes, keeping everything else in place.
pub open spec fn insert_sorted(w: Seq<char>, ws: Seq<Seq<char>>) -> Seq<Seq<char>>
    decreases ws.len(),
{
    if ws.len() == 0 {
        seq![w]
    } else if lex_leq(w, ws[0]) {
        seq![w] + ws
    } else {
        seq![ws[0]] + insert_sorted(w, ws.drop_first())
    }
}

/// A word list sorted by inserting each word, in order, into the sorted
/// list of the words before it.
pub open spec fn sort_words(ws: Seq<Seq<char>>) -> Seq<Seq<char>>
    decreases ws.len(),
{
    if ws.len() == 0 {
        Seq::empty()
    } else {
        insert_sorted(ws.last(), sort_words(ws.drop_last()))
    }
}

/// Inserting at the first position whose entry the word precedes agrees
/// with [`insert_sorted`].
pub proof fn lemma_insert_sorted_at(w: Seq<char>, ws: Seq<Seq<char>>, pos: int)
    requires
        0 <= pos <= ws.len(),
        forall|k: int| 0 <= k < pos ==> !lex_leq(w, #[trigger] ws[k]),
        pos < ws.len() ==> lex_leq(w, ws[pos]),
    ensures
        insert_sorted(w, ws) == ws.insert(pos, w),
    decreases ws.len(),
{
    if ws.len() == 0 {
        assert(insert_sorted(w, ws) =~= ws.insert(0, w));
    } else if pos == 0 {
        assert(insert_sorted(w, ws) =~= ws.insert(0, w));
    } else {
        assert(!lex_leq(w, ws[0]));
        lemma_insert_sorted_at(w, ws.drop_first(), pos - 1);
        assert(seq![ws[0]] + ws.drop_first().insert(pos - 1, w) =~= ws.insert(pos, w));
    }
}

/// The words joined into one text, separated by single spaces.
pub open spec fn join_words(ws: Seq<Seq<char>>) -> Seq<char>
    decreases ws.len(),
{
    if ws.len() == 0 {
        Seq::empty()
    } else if ws.len() == 1 {
        ws[0]
    } else {
        join_words(ws.drop_last()) + seq![' '] + ws.last()
    }
}

/// The combined length of all words in a list.
pub open spec fn total_len(ws: Seq<Seq<char>>) -> nat
    decreases ws.len(),
{
    if ws.len() == 0 {
        0
    } else {
        ws.first().len() + total_len(ws.drop_first())
    }
}

/// The combined length splits off the last word as well as the first.
proof fn lemma_total_len_last(ws: Seq<Seq<char>>)
    requires
        ws.len() > 0,
    ensures
        total_len(ws) == total_len(ws.drop_last()) + ws.last().len(),
    decreases ws.len(),
{
    if ws.len() > 1 {
        lemma_total_len_last(ws.drop_first());
        assert(ws.drop_first().drop_last() =~= ws.drop_last().drop_first());
        assert(ws.drop_last().first() == ws.first());
        assert(ws.drop_first().last() == ws.last());
        assert(total_len(ws) == ws.first().len() + total_len(ws.drop_first()));
        assert(total_len(ws.drop_last()) == ws.drop_last().first().len() + total_len(
            ws.drop_last().drop_first(),
        ));
    } else {
        assert(ws.drop_last() =~= Seq::<Seq<char>>::empty());
        assert(total_len(ws) == ws.first().len() + total_len(ws.drop_first()));
        assert(ws.drop_first() =~= Seq::<Seq<char>>::empty());
        assert(ws.first() == ws.last());
    }
}

/// Inserting a word grows the list by one entry and the combined length
/// by the word's length.
proof fn lemma_insert_sorted_shape(w: Seq<char>, ws: Seq<Seq<char>>)
    ensures
        insert_sorted(w, ws).len() == ws.len() + 1,
        total_len(insert_sorted(w, ws)) == total_len(ws) + w.len(),
    decreases ws.len(),
{
    if ws.len() == 0 {
        let out = insert_sorted(w, ws);
        assert(out.drop_first() =~= Seq::<Seq<char>>::empty());
        assert(total_len(out) == out.first().len() + total_len(out.drop_first()));
        assert(out.first() == w);
    } else if lex_leq(w, ws[0]) {
        let out = seq![w] + ws;
        assert(out.first() == w);
        assert(out.drop_first() =~= ws);
        assert(total_len(out) == out.first().len() + total_len(out.drop_first()));
    } else {
        lemma_insert_sorted_shape(w, ws.drop_first());
        let out = seq![ws[0]] + insert_sorted(w, ws.drop_first());
        assert(out.first() == ws[0]);
        assert(out.drop_first() =~= insert_sorted(w, ws.drop_first()));
        assert(total_len(out) == out.first().len() + total_len(out.drop_first()));
        assert(total_len(ws) == ws.first().len() + total_len(ws.drop_first()));
    }
}

/// Sorting keeps the number of words and their combined length.
pub proof fn lemma_sort_words_shape(ws: Seq<Seq<char>>)
    ensures
        sort_words(ws).len() == ws.len(),
        total_len(sort_words(ws)) == total_len(ws),
    decreases ws.len(),
{
    if ws.len() > 0 {
        lemma_sort_words_shape(ws.drop_last());
        lemma_insert_sorted_shape(ws.last(), sort_words(ws.drop_last()));
        lemma_total_len_last(ws);
    }
}

/// The joined text holds every word plus one separator between each
/// neighbouring pair.
pub proof fn lemma_join_words_len(ws: Seq<Seq<char>>)
    ensures
        ws.len() == 0 ==> join_words(ws).len() == 0,
        ws.len() > 0 ==> join_words(ws).len() + 1 == total_len(ws) + ws.len(),
    decreases ws.len(),
{
    if ws.len() == 1 {
        assert(total_len(ws) == ws.first().len() + total_len(ws.drop_first()));
        assert(ws.drop_first() =~= Seq::<Seq<char>>::empty());
        assert(ws.first() == ws[0]);
    } else if ws.len() > 1 {
        lemma_join_words_len(ws.drop_last());
        lemma_total_len_last(ws);
    }
}

/// The words of a text are, together with their separators, no longer
/// than the text itself.
pub proof fn lemma_words_of_bound(s: Seq<char>)
    ensures
        total_len(words_of(s)) + words_of(s).len() <= s.len() + if s.len() > 0 && is_letter(
            s.last(),
        ) {
            1int
        } else {
            0int
        },
    decreases s.len(),
{
    if s.len() > 0 {
        lemma_words_of_bound(s.drop_last());
        if is_letter(s.last()) {
            let prev = words_of(s.drop_last());
            if s.len() > 1 && is_letter(s[s.len() - 2]) {
                assert(s.drop_last().last() == s[s.len() - 2]);
                lemma_words_of_last_letter(s.drop_last());
                let updated = prev.update(prev.len() - 1, prev.last().push(fold_char(s.last())));
                lemma_total_len_last(prev);
                lemma_total_len_last(updated);
                assert(updated.drop_last() =~= prev.drop_last());
                assert(updated.last() == prev.last().push(fold_char(s.last())));
            } else {
                let pushed = prev.push(seq![fold_char(s.last())]);
                lemma_total_len_last(pushed);
                assert(pushed.drop_last() =~= prev);
            }
        }
    }
}

/// The normal form of a string, as a vector of characters: letters only,
/// lower case, order kept.
pub fn norm_chars(s: &str) -> (r: Vec<char>)
    ensures
        r@ == norm(s@),
{
    let n = s.unicode_len();
    let mut out: Vec<char> = Vec::new();
    let mut i: usize = 0;
    while i < n
        invariant
            i <= n,
            n == s@.len(),
            out@ == norm(s@.take(i as int)),
        decreases n - i,
    {
        let c = s.get_char(i);
        proof {
            assert(s@.take(i + 1 as int).drop_last() =~= s@.take(i as int));
            assert(s@.take(i + 1 as int).last() == s@[i as int]);
        }
        if is_ascii_letter(&c) {
            out.push(fold_ascii(c));
        }
        i = i + 1;
    }
    proof {
        assert(s@.take(n as int) =~= s@);
    }
    out
}

} // verus!
