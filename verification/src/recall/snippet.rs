//! The excerpt that a recalled document is shown with.

use vstd::prelude::*;

use crate::shadow::matching::{
    ceil_index, find, find_chars, law_find_is_first, lemma_ceil_index, lower_text, lowercase,
    occurs_at,
};
use crate::shadow::memory::find_byte;
use crate::text::{
    byte_len, byte_off, char_offsets, chars_of, lemma_byte_off_mono, string_of, str_byte_len, trim,
    trim_string,
};

verus! {

/// The most characters of an excerpt.
pub const MAX_SNIPPET_CHARS: usize = 180;

/// The character that starts at byte `at`, or the end.
pub open spec fn char_at_byte(s: Seq<char>, at: nat) -> Option<int> {
    let i = ceil_index(s, 0, at as int);
    if byte_off(s, i) == at {
        Some(i)
    } else {
        None
    }
}

/// The byte round which the excerpt lies: where the query stands in the lower
/// case of the body, as far as the body reaches, and the start if nowhere.
pub open spec fn snippet_center(
    body: Seq<char>,
    body_lower: Seq<char>,
    query_lower: Seq<char>,
) -> nat {
    match find_byte(body_lower, trim(query_lower)) {
        Some(at) => if at < byte_len(body) {
            at
        } else {
            byte_len(body)
        },
        None => 0,
    }
}

/// The characters from sixty before `center` on, no more than 180.
pub open spec fn snippet_from(body: Seq<char>, center: int) -> Seq<char> {
    let start = if center < 60 {
        0
    } else {
        center - 60
    };
    let end = if start + MAX_SNIPPET_CHARS < body.len() {
        start + MAX_SNIPPET_CHARS
    } else {
        body.len() as int
    };
    body.subrange(start, end)
}

/// The excerpt of a body, from the lower case of the body and of the query.
/// There is none where the byte in the lower case is inside of a character of
/// the body.
pub open spec fn snippet_for(
    body: Seq<char>,
    body_lower: Seq<char>,
    query_lower: Seq<char>,
) -> Option<Seq<char>> {
    match char_at_byte(body, snippet_center(body, body_lower, query_lower)) {
        Some(i) => Some(snippet_from(body, i)),
        None => None,
    }
}

/// The excerpt of a body, from the lower case of the body and of the query.
pub fn snippet_of(body: &str, body_lower: &str, query_lower: &str) -> (r: Option<String>)
    ensures
        match r {
            Some(t) => snippet_for(body@, body_lower@, query_lower@) == Some(t@),
            None => snippet_for(body@, body_lower@, query_lower@) is None,
        },
{
    let lower: Vec<char> = chars_of(body_lower);
    let trimmed: String = trim_string(query_lower);
    let query: Vec<char> = chars_of(trimmed.as_str());
    let total: usize = str_byte_len(body);
    let center: usize = match find_chars(&lower, &query) {
        Some(i) => {
            let offs: Vec<usize> = char_offsets(body_lower, &lower);
            if offs[i] < total {
                offs[i]
            } else {
                total
            }
        },
        None => 0,
    };
    assert(center == snippet_center(body@, body_lower@, query_lower@));
    let chars: Vec<char> = chars_of(body);
    let offs: Vec<usize> = char_offsets(body, &chars);
    let len: usize = chars.len();
    let mut i: usize = 0;
    while i < len && offs[i] < center
        invariant
            chars@ == body@,
            len == chars@.len(),
            offs@.len() == len + 1,
            forall|k: int| 0 <= k <= len ==> #[trigger] offs@[k] == byte_off(body@, k),
            i <= len,
            ceil_index(body@, 0, center as int) == ceil_index(body@, i as int, center as int),
        decreases len - i,
    {
        i += 1;
    }
    if offs[i] != center {
        return None;
    }
    let start: usize = if i < 60 {
        0
    } else {
        i - 60
    };
    let end: usize = if len - start > MAX_SNIPPET_CHARS {
        start + MAX_SNIPPET_CHARS
    } else {
        len
    };
    Some(string_of(&chars, start, end))
}

/// The excerpt of a body for a query.
pub fn snippet(body: &str, query: &str) -> (r: Option<String>)
    ensures
        match r {
            Some(t) => snippet_for(body@, lowercase(body@), lowercase(query@)) == Some(t@),
            None => snippet_for(body@, lowercase(body@), lowercase(query@)) is None,
        },
{
    let body_lower: String = lower_text(body);
    let query_lower: String = lower_text(query);
    snippet_of(body, body_lower.as_str(), query_lower.as_str())
}

/// A text whose lower case has the same byte offsets up to the match always
/// has an excerpt, at most 180 characters long.
pub proof fn law_same_offsets_have_a_snippet(
    body: Seq<char>,
    body_lower: Seq<char>,
    query_lower: Seq<char>,
)
    requires
        find(body_lower, trim(query_lower)) matches Some(i) ==> i <= body.len() && byte_off(
            body,
            i,
        ) == byte_off(body_lower, i),
    ensures
        snippet_for(body, body_lower, query_lower) matches Some(t) && t.len() <= MAX_SNIPPET_CHARS,
{
    let c = snippet_center(body, body_lower, query_lower);
    lemma_ceil_index(body, 0, c as int);
    let k = ceil_index(body, 0, c as int);
    match find(body_lower, trim(query_lower)) {
        Some(i) => {
            crate::shadow::matching::lemma_find_from(body_lower, trim(query_lower), 0);
            lemma_byte_off_mono(body, i, body.len() as int);
            if k < i {
                lemma_byte_off_mono(body, k, i);
                assert(byte_off(body, k) >= c);
            } else if i < k {
                assert(byte_off(body, i) < c);
            }
        },
        None => {},
    }
}

/// An excerpt shows where the query stands: it is the part of the body from sixty
/// characters before that place on, 180 characters of it as far as the body reaches.
/// The lower case of the body must have the same byte offsets up to the place.
pub proof fn law_snippet_shows_the_query(
    body: Seq<char>,
    body_lower: Seq<char>,
    query_lower: Seq<char>,
    i: int,
)
    requires
        occurs_at(body_lower, trim(query_lower), i),
        forall|j: int| 0 <= j < i ==> !#[trigger] occurs_at(body_lower, trim(query_lower), j),
        i <= body.len(),
        byte_off(body, i) == byte_off(body_lower, i),
    ensures
        ({
            let start = if i < 60 {
                0
            } else {
                i - 60
            };
            let end = if start + 180 < body.len() {
                start + 180
            } else {
                body.len() as int
            };
            snippet_for(body, body_lower, query_lower) == Some(body.subrange(start, end))
        }),
{
    let q = trim(query_lower);
    law_find_is_first(body_lower, q);
    let k = find(body_lower, q)->0;
    if k < i {
        assert(occurs_at(body_lower, q, k));
    }
    if i < k {
        assert(!occurs_at(body_lower, q, i));
    }
    let c = snippet_center(body, body_lower, query_lower);
    lemma_ceil_index(body, 0, c as int);
    let at = ceil_index(body, 0, c as int);
    lemma_byte_off_mono(body, i, body.len() as int);
    if at < i {
        lemma_byte_off_mono(body, at, i);
        assert(byte_off(body, at) >= c);
    } else if i < at {
        assert(byte_off(body, i) < c);
    }
}

/// Where the query does not stand in the body, the excerpt is the start of it.
pub proof fn law_snippet_is_the_start_without_the_query(
    body: Seq<char>,
    body_lower: Seq<char>,
    query_lower: Seq<char>,
)
    requires
        forall|j: int| 0 <= j ==> !#[trigger] occurs_at(body_lower, trim(query_lower), j),
    ensures
        snippet_for(body, body_lower, query_lower) == Some(
            body.subrange(
                0,
                if 180 < body.len() {
                    180
                } else {
                    body.len() as int
                },
            ),
        ),
{
    law_find_is_first(body_lower, trim(query_lower));
    lemma_ceil_index(body, 0, 0);
}

} // verus!
