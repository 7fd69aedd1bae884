//! Texts inside texts: lower case, the first occurrence, whole words, and the
//! excerpt round a match.

use vstd::prelude::*;

use crate::semantic::blocks::{floor_index, lemma_floor_index};
use crate::text::{
    byte_len, byte_off, char_is_whitespace, char_offsets, chars_of, is_whitespace,
    lemma_byte_off_mono, string_of, str_byte_len,
};

verus! {

/// The lower case of a text, after Unicode's tables.
pub uninterp spec fn lowercase(s: Seq<char>) -> Seq<char>;

/// `str::to_lowercase`, whose result is called `lowercase` of the text. It
/// depends on the text alone. The empty text stays empty; what the lower case
/// of given characters is is not stated.
#[verifier::external_body]
pub(crate) fn lower_text(s: &str) -> (r: String)
    ensures
        r@ == lowercase(s@),
        s@.len() == 0 ==> r@.len() == 0,
{
    s.to_lowercase()
}

/// Whether `q` stands in `s` from character `i` on.
pub open spec fn occurs_at(s: Seq<char>, q: Seq<char>, i: int) -> bool {
    0 <= i && i + q.len() <= s.len() && s.subrange(i, i + q.len()) == q
}

/// The first character from `i` on at which `q` stands in `s`.
pub open spec fn find_from(s: Seq<char>, q: Seq<char>, i: int) -> Option<int>
    decreases s.len() + 1 - i,
{
    if i + q.len() > s.len() {
        None
    } else if occurs_at(s, q, i) {
        Some(i)
    } else {
        find_from(s, q, i + 1)
    }
}

/// The first character at which `q` stands in `s`.
pub open spec fn find(s: Seq<char>, q: Seq<char>) -> Option<int> {
    find_from(s, q, 0)
}

/// The first occurrence is one, and there is none before it.
pub proof fn lemma_find_from(s: Seq<char>, q: Seq<char>, i: int)
    requires
        0 <= i,
    ensures
        match find_from(s, q, i) {
            Some(k) => i <= k && occurs_at(s, q, k) && forall|j: int|
                i <= j < k ==> !#[trigger] occurs_at(s, q, j),
            None => forall|j: int| i <= j ==> !#[trigger] occurs_at(s, q, j),
        },
    decreases s.len() + 1 - i,
{
    if i + q.len() <= s.len() && !occurs_at(s, q, i) {
        lemma_find_from(s, q, i + 1);
    }
}

/// A text holds another exactly where there is a first occurrence.
pub proof fn law_find_is_first(s: Seq<char>, q: Seq<char>)
    ensures
        find(s, q) is Some <==> exists|i: int| occurs_at(s, q, i),
        find(s, q) matches Some(k) ==> occurs_at(s, q, k) && forall|j: int|
            0 <= j < k ==> !#[trigger] occurs_at(s, q, j),
{
    lemma_find_from(s, q, 0);
    if find(s, q) is Some {
        assert(occurs_at(s, q, find(s, q)->0));
    }
}

fn stands_at(s: &Vec<char>, q: &Vec<char>, i: usize) -> (r: bool)
    requires
        i + q@.len() <= s@.len(),
    ensures
        r == occurs_at(s@, q@, i as int),
{
    let len: usize = s.len();
    let mut k: usize = 0;
    while k < q.len()
        invariant
            len == s@.len(),
            k <= q@.len(),
            i + q@.len() <= s@.len(),
            forall|j: int| 0 <= j < k ==> s@[i + j] == q@[j],
        decreases q@.len() - k,
    {
        if s[i + k] != q[k] {
            assert(s@.subrange(i as int, i + q@.len())[k as int] != q@[k as int]);
            return false;
        }
        k += 1;
    }
    assert(s@.subrange(i as int, i + q@.len()) =~= q@);
    true
}

/// The first character at which one text stands in another.
pub fn find_chars(s: &Vec<char>, q: &Vec<char>) -> (r: Option<usize>)
    ensures
        match r {
            Some(i) => find(s@, q@) == Some(i as int) && i + q@.len() <= s@.len(),
            None => find(s@, q@) is None,
        },
{
    let mut i: usize = 0;
    while i <= s.len() && q.len() <= s.len() - i
        invariant
            i <= s@.len() + 1,
            find(s@, q@) == find_from(s@, q@, i as int),
        decreases s@.len() + 1 - i,
    {
        if stands_at(s, q, i) {
            return Some(i);
        }
        if i == s.len() {
            assert(find_from(s@, q@, i + 1) is None);
            return None;
        }
        i += 1;
    }
    None
}

/// Whether `q` is one of the words of `s`, which white space parts.
pub open spec fn has_word(s: Seq<char>, q: Seq<char>) -> bool {
    &&& q.len() > 0
    &&& forall|k: int| 0 <= k < q.len() ==> !is_whitespace(#[trigger] q[k])
    &&& exists|i: int| is_word_at(s, q, i)
}

/// Whether `q` stands in `s` at `i` between white space or ends.
pub open spec fn is_word_at(s: Seq<char>, q: Seq<char>, i: int) -> bool {
    &&& occurs_at(s, q, i)
    &&& i == 0 || is_whitespace(s[i - 1])
    &&& i + q.len() == s.len() || is_whitespace(s[i + q.len()])
}

/// Whether one text is a word of another.
pub fn contains_word(s: &Vec<char>, q: &Vec<char>) -> (r: bool)
    ensures
        r == has_word(s@, q@),
{
    if q.len() == 0 || q.len() > s.len() {
        proof {
            if has_word(s@, q@) {
                let i = choose|i: int| is_word_at(s@, q@, i);
                assert(occurs_at(s@, q@, i));
            }
        }
        return false;
    }
    let mut k: usize = 0;
    while k < q.len()
        invariant
            k <= q@.len(),
            forall|j: int| 0 <= j < k ==> !is_whitespace(#[trigger] q@[j]),
        decreases q@.len() - k,
    {
        if char_is_whitespace(q[k]) {
            assert(is_whitespace(q@[k as int]));
            return false;
        }
        k += 1;
    }
    let len: usize = s.len();
    let last: usize = len - q.len();
    let mut i: usize = 0;
    while i <= last
        invariant
            len == s@.len(),
            last + q@.len() == s@.len(),
            0 < q@.len(),
            i <= last + 1,
            forall|j: int| 0 <= j < q@.len() ==> !is_whitespace(#[trigger] q@[j]),
            forall|j: int| 0 <= j < i ==> !#[trigger] is_word_at(s@, q@, j),
        decreases last + 1 - i,
    {
        if stands_at(s, q, i) && (i == 0 || char_is_whitespace(s[i - 1])) && (i == last
            || char_is_whitespace(s[i + q.len()])) {
            assert(is_word_at(s@, q@, i as int));
            return true;
        }
        assert(!is_word_at(s@, q@, i as int));
        i += 1;
    }
    proof {
        assert forall|j: int| !is_word_at(s@, q@, j) by {
            if is_word_at(s@, q@, j) {
                assert(occurs_at(s@, q@, j));
            }
        }
    }
    false
}

/// The most bytes of an excerpt.
pub const MAX_EXCERPT_BYTES: usize = 160;

/// The first character from `i` on that starts at byte `at` or behind it, and
/// the end if there is none.
pub open spec fn ceil_index(s: Seq<char>, i: int, at: int) -> int
    decreases s.len() - i,
{
    if i >= s.len() || byte_off(s, i) >= at {
        i
    } else {
        ceil_index(s, i + 1, at)
    }
}

pub proof fn lemma_ceil_index(s: Seq<char>, i: int, at: int)
    requires
        0 <= i <= s.len(),
    ensures
        i <= ceil_index(s, i, at) <= s.len(),
        ceil_index(s, i, at) < s.len() ==> byte_off(s, ceil_index(s, i, at)) >= at,
        forall|k: int| i <= k < ceil_index(s, i, at) ==> #[trigger] byte_off(s, k) < at,
    decreases s.len() - i,
{
    if i < s.len() && byte_off(s, i) < at {
        lemma_ceil_index(s, i + 1, at);
    }
}

/// The byte at which the excerpt round byte `center` is to start.
pub open spec fn excerpt_start(center: nat) -> int {
    if center < 80 {
        0
    } else {
        center - 80
    }
}

/// The byte at which the excerpt of a body round byte `center` is to end.
pub open spec fn excerpt_end(body: Seq<char>, center: nat) -> int {
    if excerpt_start(center) + MAX_EXCERPT_BYTES < byte_len(body) {
        excerpt_start(center) + MAX_EXCERPT_BYTES
    } else {
        byte_len(body) as int
    }
}

/// A short body is its own excerpt. Of a longer one the excerpt is 160 bytes
/// round the byte `center`, widened to whole characters.
pub open spec fn excerpt(body: Seq<char>, center: nat) -> Seq<char> {
    if byte_len(body) <= MAX_EXCERPT_BYTES {
        body
    } else {
        body.subrange(
            floor_index(body, 0, body.len() as int, excerpt_start(center)),
            ceil_index(body, 0, excerpt_end(body, center)),
        )
    }
}

/// The bounds of an excerpt are in order.
pub proof fn lemma_excerpt_bounds(body: Seq<char>, center: nat)
    ensures
        0 <= floor_index(body, 0, body.len() as int, excerpt_start(center)) <= ceil_index(
            body,
            0,
            excerpt_end(body, center),
        ) <= body.len(),
{
    let a = floor_index(body, 0, body.len() as int, excerpt_start(center));
    let b = ceil_index(body, 0, excerpt_end(body, center));
    lemma_floor_index(body, 0, body.len() as int, excerpt_start(center));
    lemma_ceil_index(body, 0, excerpt_end(body, center));
    if b < a {
        lemma_byte_off_mono(body, b, a);
        if excerpt_start(center) > byte_len(body) {
            lemma_byte_off_mono(body, b, body.len() as int);
        }
    }
}

/// The excerpt of a body round a byte.
pub fn excerpt_of(body: &str, center: usize) -> (r: String)
    ensures
        r@ == excerpt(body@, center as nat),
{
    let total: usize = str_byte_len(body);
    if total <= MAX_EXCERPT_BYTES {
        return body.to_owned();
    }
    let chars: Vec<char> = chars_of(body);
    let offs: Vec<usize> = char_offsets(body, &chars);
    let start: usize = if center < 80 {
        0
    } else {
        center - 80
    };
    let end: usize = if start < total - MAX_EXCERPT_BYTES {
        start + MAX_EXCERPT_BYTES
    } else {
        total
    };
    let mut a: usize = chars.len();
    while a > 0 && offs[a] > start
        invariant
            chars@ == body@,
            offs@.len() == chars@.len() + 1,
            forall|i: int| 0 <= i <= chars@.len() ==> #[trigger] offs@[i] == byte_off(body@, i),
            a <= chars@.len(),
            floor_index(body@, 0, body@.len() as int, start as int) == floor_index(
                body@,
                0,
                a as int,
                start as int,
            ),
        decreases a,
    {
        a -= 1;
    }
    let mut b: usize = 0;
    while b < chars.len() && offs[b] < end
        invariant
            chars@ == body@,
            offs@.len() == chars@.len() + 1,
            forall|i: int| 0 <= i <= chars@.len() ==> #[trigger] offs@[i] == byte_off(body@, i),
            b <= chars@.len(),
            ceil_index(body@, 0, end as int) == ceil_index(body@, b as int, end as int),
        decreases chars@.len() - b,
    {
        b += 1;
    }
    proof {
        lemma_excerpt_bounds(body@, center as nat);
    }
    string_of(&chars, a, b)
}

/// An excerpt is a part of its body, at most 160 bytes and the rest of two
/// characters long.
pub proof fn law_excerpt_is_bounded(body: Seq<char>, center: nat)
    ensures
        byte_len(excerpt(body, center)) <= MAX_EXCERPT_BYTES + 6,
        exists|i: int| occurs_at(body, excerpt(body, center), i),
{
    if byte_len(body) <= MAX_EXCERPT_BYTES {
        assert(body.subrange(0, body.len() as int) =~= body);
        assert(occurs_at(body, body, 0));
    } else {
        let lo = excerpt_start(center);
        let hi = excerpt_end(body, center);
        let a = floor_index(body, 0, body.len() as int, lo);
        let b = ceil_index(body, 0, hi);
        lemma_excerpt_bounds(body, center);
        lemma_floor_index(body, 0, body.len() as int, lo);
        lemma_ceil_index(body, 0, hi);
        crate::text::lemma_byte_off_subrange(body, a, b, b - a);
        assert(body.subrange(a, a + (b - a)) =~= excerpt(body, center));
        assert(occurs_at(body, excerpt(body, center), a));
        if a < body.len() {
            assert(byte_off(body, a + 1) > lo);
        }
        if b > 0 {
            assert(byte_off(body, b - 1) < hi);
        }
    }
}

} // verus!
