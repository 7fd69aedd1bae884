//! The words of a query that the query grammar does not take.

use vstd::prelude::*;

use super::matching::{lower_text, lowercase};
use crate::keys::string_views;
use crate::recall::trigrams::{alphanumeric, char_is_alphanumeric};
use crate::text::{chars_of, string_of};

verus! {

/// The end of the run of letters and numbers that starts at `i`.
pub open spec fn run_end(s: Seq<char>, i: int) -> int
    decreases s.len() - i,
{
    if i >= s.len() || !alphanumeric(s[i]) {
        i
    } else {
        run_end(s, i + 1)
    }
}

/// The runs of letters and numbers from `i` on, where a run may start.
pub open spec fn runs(s: Seq<char>, i: int) -> Seq<Seq<char>>
    decreases s.len() - i,
{
    if i >= s.len() {
        Seq::empty()
    } else if !alphanumeric(s[i]) {
        runs(s, i + 1)
    } else {
        let end = run_end(s, i + 1);
        proof {
            lemma_run_end(s, i + 1);
        }
        seq![s.subrange(i, end)] + runs(s, end)
    }
}

pub proof fn lemma_run_end(s: Seq<char>, i: int)
    ensures
        i <= run_end(s, i),
        i <= s.len() ==> run_end(s, i) <= s.len(),
        forall|k: int| i <= k < run_end(s, i) ==> alphanumeric(#[trigger] s[k]),
    decreases s.len() - i,
{
    if i < s.len() && alphanumeric(s[i]) {
        lemma_run_end(s, i + 1);
    }
}

/// Each word is a run of letters and numbers, and is not empty.
pub proof fn law_words_are_alphanumeric(s: Seq<char>, i: int, k: int)
    requires
        0 <= i,
        0 <= k < runs(s, i).len(),
    ensures
        runs(s, i)[k].len() > 0,
        forall|j: int| 0 <= j < runs(s, i)[k].len() ==> alphanumeric(#[trigger] runs(s, i)[k][j]),
    decreases s.len() - i,
{
    if i < s.len() {
        if !alphanumeric(s[i]) {
            law_words_are_alphanumeric(s, i + 1, k);
        } else {
            let end = run_end(s, i + 1);
            lemma_run_end(s, i + 1);
            if k == 0 {
                assert(runs(s, i)[0] == s.subrange(i, end));
            } else {
                assert(runs(s, i)[k] == runs(s, end)[k - 1]);
                law_words_are_alphanumeric(s, end, k - 1);
            }
        }
    }
}

/// Whether letters and numbers stand from `a` to before `b`, and none on either
/// side.
pub open spec fn is_run(s: Seq<char>, a: int, b: int) -> bool {
    &&& 0 <= a < b <= s.len()
    &&& forall|k: int| a <= k < b ==> alphanumeric(#[trigger] s[k])
    &&& a > 0 ==> !alphanumeric(s[a - 1])
    &&& b < s.len() ==> !alphanumeric(s[b])
}

proof fn lemma_run_end_is(s: Seq<char>, i: int, b: int)
    requires
        0 <= i <= b <= s.len(),
        forall|k: int| i <= k < b ==> alphanumeric(#[trigger] s[k]),
        b < s.len() ==> !alphanumeric(s[b]),
    ensures
        run_end(s, i) == b,
    decreases b - i,
{
    if i < b {
        assert(alphanumeric(s[i]));
        lemma_run_end_is(s, i + 1, b);
    }
}

/// Every run of letters and numbers is a word.
pub proof fn law_every_run_is_a_word(s: Seq<char>, i: int, a: int, b: int)
    requires
        0 <= i <= a,
        is_run(s, a, b),
        i > 0 ==> !alphanumeric(s[i - 1]) || !alphanumeric(s[i]),
    ensures
        runs(s, i).contains(s.subrange(a, b)),
    decreases s.len() - i,
{
    if !alphanumeric(s[i]) {
        law_every_run_is_a_word(s, i + 1, a, b);
    } else {
        let end = run_end(s, i + 1);
        lemma_run_end(s, i + 1);
        lemma_run_stops(s, i + 1);
        let rest = runs(s, end);
        if i == a {
            lemma_run_end_is(s, a + 1, b);
            assert(runs(s, i)[0] == s.subrange(a, b));
        } else {
            if a < end {
                assert(alphanumeric(s[a - 1])) by {
                    if a - 1 > i {
                        assert(i + 1 <= a - 1 < end);
                    }
                }
            }
            law_every_run_is_a_word(s, end, a, b);
            let k = choose|k: int| 0 <= k < rest.len() && rest[k] == s.subrange(a, b);
            assert(runs(s, i)[k + 1] == rest[k]);
        }
    }
}

proof fn lemma_run_stops(s: Seq<char>, i: int)
    requires
        0 <= i <= s.len(),
    ensures
        run_end(s, i) < s.len() ==> !alphanumeric(s[run_end(s, i)]),
    decreases s.len() - i,
{
    if i < s.len() && alphanumeric(s[i]) {
        lemma_run_stops(s, i + 1);
    }
}

/// Every word is a run of letters and numbers.
pub proof fn law_every_word_is_a_run(s: Seq<char>, i: int, k: int) -> (r: (int, int))
    requires
        0 <= i,
        0 <= k < runs(s, i).len(),
        0 < i < s.len() ==> !alphanumeric(s[i - 1]) || !alphanumeric(s[i]),
    ensures
        is_run(s, r.0, r.1),
        runs(s, i)[k] == s.subrange(r.0, r.1),
    decreases s.len() - i,
{
    if !alphanumeric(s[i]) {
        law_every_word_is_a_run(s, i + 1, k)
    } else {
        let end = run_end(s, i + 1);
        lemma_run_end(s, i + 1);
        lemma_run_stops(s, i + 1);
        if k == 0 {
            (i, end)
        } else {
            assert(runs(s, i)[k] == runs(s, end)[k - 1]);
            law_every_word_is_a_run(s, end, k - 1)
        }
    }
}

/// The runs of letters and numbers of characters.
pub fn split_runs(s: &Vec<char>) -> (r: Vec<String>)
    ensures
        string_views(r@) == runs(s@, 0),
{
    let len: usize = s.len();
    let mut out: Vec<String> = Vec::new();
    let mut i: usize = 0;
    assert(string_views(out@) + runs(s@, 0) =~= runs(s@, 0));
    while i < len
        invariant
            i <= len == s@.len(),
            string_views(out@) + runs(s@, i as int) == runs(s@, 0),
        decreases len - i,
    {
        if !char_is_alphanumeric(s[i]) {
            i += 1;
        } else {
            let mut end: usize = i + 1;
            while end < len && char_is_alphanumeric(s[end])
                invariant
                    i < end <= len == s@.len(),
                    run_end(s@, i + 1) == run_end(s@, end as int),
                decreases len - end,
            {
                end += 1;
            }
            let word: String = string_of(s, i, end);
            let ghost before = string_views(out@);
            out.push(word);
            proof {
                assert(string_views(out@) =~= before.push(word@));
                assert(string_views(out@) + runs(s@, end as int) =~= before + runs(s@, i as int));
            }
            i = end;
        }
    }
    assert(string_views(out@) + runs(s@, len as int) =~= string_views(out@));
    out
}

/// The words of a query in lower case.
pub fn query_words(query: &str) -> (r: Vec<String>)
    ensures
        string_views(r@) == runs(lowercase(query@), 0),
{
    let lower: String = lower_text(query);
    let chars: Vec<char> = chars_of(lower.as_str());
    split_runs(&chars)
}

} // verus!
