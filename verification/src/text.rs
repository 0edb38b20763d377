//! Helpers for the strings that name grammar symbols.

use vstd::prelude::*;

verus! {

/// The characters of every string of a list, in order.
pub open spec fn texts(v: Seq<String>) -> Seq<Seq<char>> {
    v.map_values(|s: String| s@)
}

/// The characters of every string slice of a list, in order.
pub open spec fn slices(v: Seq<&str>) -> Seq<Seq<char>> {
    v.map_values(|s: &str| s@)
}

/// The strings of a list of string slices.
pub fn owned_texts(words: &Vec<&str>) -> (out: Vec<String>)
    ensures
        texts(out@) == slices(words@),
{
    let mut out: Vec<String> = Vec::new();
    let mut i: usize = 0;
    while i < words.len()
        invariant
            i <= words@.len(),
            out@.len() == i,
            forall|j: int| 0 <= j < i ==> #[trigger] out@[j]@ == words@[j]@,
        decreases words@.len() - i,
    {
        out.push(words[i].to_owned());
        i += 1;
    }
    assert(texts(out@) =~= slices(words@));
    out
}

/// Element-wise equality of two lists of strings.
pub fn same_texts(a: &Vec<String>, b: &Vec<String>) -> (r: bool)
    ensures
        r == (texts(a@) == texts(b@)),
{
    if a.len() != b.len() {
        assert(texts(a@).len() != texts(b@).len());
        return false;
    }
    let mut i: usize = 0;
    while i < a.len()
        invariant
            a.len() == b.len(),
            i <= a.len(),
            forall|j: int| 0 <= j < i ==> a@[j]@ == b@[j]@,
        decreases a.len() - i,
    {
        if a[i] != b[i] {
            assert(texts(a@)[i as int] != texts(b@)[i as int]);
            return false;
        }
        i += 1;
    }
    assert(texts(a@) =~= texts(b@));
    true
}

/// A copy of a list of strings.
pub fn clone_texts(a: &Vec<String>) -> (r: Vec<String>)
    ensures
        texts(r@) == texts(a@),
        r@.len() == a@.len(),
{
    let mut out: Vec<String> = Vec::new();
    let mut i: usize = 0;
    while i < a.len()
        invariant
            i <= a.len(),
            out@.len() == i,
            forall|j: int| 0 <= j < i ==> out@[j]@ == a@[j]@,
        decreases a.len() - i,
    {
        out.push(a[i].clone());
        i += 1;
    }
    assert(texts(out@) =~= texts(a@));
    out
}

/// The pieces of `s` from position `start` on, where `i` is how far `s`
/// has been read: a piece ends before each space and at the end of `s`.
pub open spec fn pieces_from(s: Seq<char>, start: int, i: int) -> Seq<Seq<char>>
    decreases s.len() - i,
{
    if i >= s.len() {
        seq![s.subrange(start, s.len() as int)]
    } else if s[i] == ' ' {
        seq![s.subrange(start, i)] + pieces_from(s, i + 1, i + 1)
    } else {
        pieces_from(s, start, i + 1)
    }
}

/// The pieces of `s` between its spaces: one more than `s` has spaces,
/// empty where two spaces follow each other or a space stands at an end.
pub open spec fn split_spaces(s: Seq<char>) -> Seq<Seq<char>> {
    pieces_from(s, 0, 0)
}

/// A text has at least one piece.
pub proof fn lemma_pieces_nonempty(s: Seq<char>, start: int, i: int)
    ensures
        pieces_from(s, start, i).len() > 0,
    decreases s.len() - i,
{
    if i >= s.len() {
    } else if s[i] == ' ' {
    } else {
        lemma_pieces_nonempty(s, start, i + 1);
    }
}

/// Splits a text at its spaces.
pub fn split_words(text: &str) -> (words: Vec<String>)
    ensures
        texts(words@) == split_spaces(text@),
        words@.len() > 0,
{
    let n = text.unicode_len();
    let mut words: Vec<String> = Vec::new();
    let mut start: usize = 0;
    let mut i: usize = 0;
    while i < n
        invariant
            n == text@.len(),
            start <= i <= n,
            texts(words@) + pieces_from(text@, start as int, i as int) == split_spaces(text@),
        decreases n - i,
    {
        if text.get_char(i) == ' ' {
            let ghost before = texts(words@);
            let word = text.substring_char(start, i).to_owned();
            words.push(word);
            proof {
                assert(texts(words@) =~= before.push(text@.subrange(start as int, i as int)));
                assert(texts(words@) + pieces_from(text@, i + 1, i + 1) =~= before + pieces_from(
                    text@,
                    start as int,
                    i as int,
                ));
            }
            start = i + 1;
        }
        i += 1;
    }
    let ghost before = texts(words@);
    let word = text.substring_char(start, n).to_owned();
    words.push(word);
    proof {
        assert(texts(words@) =~= before.push(text@.subrange(start as int, n as int)));
        assert(texts(words@) =~= before + pieces_from(text@, start as int, n as int));
    }
    words
}

} // verus!
