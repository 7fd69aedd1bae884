//! The words of a text, which white space parts.

use vstd::prelude::*;

use crate::keys::string_views;
use crate::text::{
    char_is_whitespace, chars_of, first_text, is_whitespace, lemma_first_text, string_of,
};

verus! {

/// The end of the word that starts at `i`.
pub open spec fn word_end(s: Seq<char>, i: int) -> int
    decreases s.len() - i,
{
    if i >= s.len() || is_whitespace(s[i]) {
        i
    } else {
        word_end(s, i + 1)
    }
}

pub proof fn lemma_word_end(s: Seq<char>, i: int)
    ensures
        i <= word_end(s, i),
        i <= s.len() ==> word_end(s, i) <= s.len(),
        i < s.len() && !is_whitespace(s[i]) ==> i < word_end(s, i),
        forall|k: int| i <= k < word_end(s, i) ==> !is_whitespace(#[trigger] s[k]),
    decreases s.len() - i,
{
    if i < s.len() && !is_whitespace(s[i]) {
        lemma_word_end(s, i + 1);
    }
}

/// The words from `i` on, where a word may start.
pub open spec fn words_from(s: Seq<char>, i: int) -> Seq<Seq<char>>
    decreases s.len() - i,
{
    if i < 0 || i >= s.len() {
        Seq::empty()
    } else {
        let a = first_text(s, i, s.len() as int);
        proof {
            lemma_first_text(s, i, s.len() as int);
            lemma_word_end(s, a);
        }
        if a >= s.len() {
            Seq::empty()
        } else {
            seq![s.subrange(a, word_end(s, a))] + words_from(s, word_end(s, a))
        }
    }
}

/// The words of a text.
pub open spec fn words(s: Seq<char>) -> Seq<Seq<char>> {
    words_from(s, 0)
}

/// A word is not empty and holds no white space.
pub proof fn law_words_hold_no_space(s: Seq<char>, i: int, k: int)
    requires
        0 <= i,
        0 <= k < words_from(s, i).len(),
    ensures
        words_from(s, i)[k].len() > 0,
        forall|j: int|
            0 <= j < words_from(s, i)[k].len() ==> !is_whitespace(
                #[trigger] words_from(s, i)[k][j],
            ),
    decreases s.len() - i,
{
    let a = first_text(s, i, s.len() as int);
    lemma_first_text(s, i, s.len() as int);
    lemma_word_end(s, a);
    if k > 0 {
        law_words_hold_no_space(s, word_end(s, a), k - 1);
        assert(words_from(s, i)[k] == words_from(s, word_end(s, a))[k - 1]);
    } else {
        assert(words_from(s, i)[0] == s.subrange(a, word_end(s, a)));
    }
}

/// Whether characters other than white space stand from `a` to before `b`, and
/// none on either side.
pub open spec fn is_word(s: Seq<char>, a: int, b: int) -> bool {
    &&& 0 <= a < b <= s.len()
    &&& forall|k: int| a <= k < b ==> !is_whitespace(#[trigger] s[k])
    &&& a > 0 ==> is_whitespace(s[a - 1])
    &&& b < s.len() ==> is_whitespace(s[b])
}

pub proof fn lemma_word_stops(s: Seq<char>, i: int)
    requires
        0 <= i <= s.len(),
    ensures
        word_end(s, i) < s.len() ==> is_whitespace(s[word_end(s, i)]),
    decreases s.len() - i,
{
    if i < s.len() && !is_whitespace(s[i]) {
        lemma_word_stops(s, i + 1);
    }
}

/// Every stretch without white space is a word.
pub proof fn law_every_stretch_is_a_word(s: Seq<char>, i: int, a: int, b: int)
    requires
        0 <= i <= a,
        is_word(s, a, b),
        i > 0 ==> is_whitespace(s[i - 1]) || is_whitespace(s[i]),
    ensures
        words_from(s, i).contains(s.subrange(a, b)),
    decreases s.len() - i,
{
    let x = first_text(s, i, s.len() as int);
    lemma_first_text(s, i, s.len() as int);
    lemma_word_end(s, x);
    if x > a {
        assert(is_whitespace(s[a]));
    }
    let end = word_end(s, x);
    lemma_word_stops(s, x);
    let rest = words_from(s, end);
    if x == a {
        if end < b {
            assert(!is_whitespace(s[end]));
        }
        if end > b {
            assert(!is_whitespace(s[b]));
        }
        assert(words_from(s, i)[0] == s.subrange(a, b));
    } else {
        if a < end {
            assert(!is_whitespace(s[a - 1]));
        }
        law_every_stretch_is_a_word(s, end, a, b);
        let k = choose|k: int| 0 <= k < rest.len() && rest[k] == s.subrange(a, b);
        assert(words_from(s, i)[k + 1] == rest[k]);
    }
}

/// Every word is a stretch without white space.
pub proof fn law_every_word_is_a_stretch(s: Seq<char>, i: int, k: int) -> (r: (int, int))
    requires
        0 <= i,
        0 <= k < words_from(s, i).len(),
        0 < i < s.len() ==> is_whitespace(s[i - 1]) || is_whitespace(s[i]),
    ensures
        is_word(s, r.0, r.1),
        words_from(s, i)[k] == s.subrange(r.0, r.1),
    decreases s.len() - i,
{
    let x = first_text(s, i, s.len() as int);
    lemma_first_text(s, i, s.len() as int);
    lemma_word_end(s, x);
    lemma_word_stops(s, x);
    if k == 0 {
        (x, word_end(s, x))
    } else {
        assert(words_from(s, i)[k] == words_from(s, word_end(s, x))[k - 1]);
        law_every_word_is_a_stretch(s, word_end(s, x), k - 1)
    }
}

/// The words of a text.
pub fn split_words(s: &str) -> (r: Vec<String>)
    ensures
        string_views(r@) == words(s@),
{
    let chars: Vec<char> = chars_of(s);
    let len: usize = chars.len();
    let mut out: Vec<String> = Vec::new();
    let mut i: usize = 0;
    assert(string_views(out@) + words(s@) =~= words(s@));
    while i < len
        invariant
            i <= len == chars@.len(),
            chars@ == s@,
            string_views(out@) + words_from(s@, i as int) == words(s@),
        decreases len - i,
    {
        let mut a: usize = i;
        while a < len && char_is_whitespace(chars[a])
            invariant
                i <= a <= len == chars@.len(),
                chars@ == s@,
                first_text(s@, i as int, len as int) == first_text(s@, a as int, len as int),
            decreases len - a,
        {
            a += 1;
        }
        if a >= len {
            assert(string_views(out@) + words_from(s@, i as int) =~= string_views(out@));
            return out;
        }
        let mut b: usize = a + 1;
        proof {
            assert(word_end(s@, a as int) == word_end(s@, a + 1));
        }
        while b < len && !char_is_whitespace(chars[b])
            invariant
                a < b <= len == chars@.len(),
                chars@ == s@,
                word_end(s@, a as int) == word_end(s@, b as int),
            decreases len - b,
        {
            b += 1;
        }
        let word: String = string_of(&chars, a, b);
        let ghost before = string_views(out@);
        out.push(word);
        proof {
            assert(string_views(out@) =~= before.push(word@));
            assert(string_views(out@) + words_from(s@, b as int) =~= before + words_from(
                s@,
                i as int,
            ));
        }
        i = b;
    }
    assert(string_views(out@) + words_from(s@, len as int) =~= string_views(out@));
    out
}

} // verus!
