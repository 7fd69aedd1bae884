//! Hashed character trigrams: how often, with a sign, the trigrams of a text
//! fall into each of 1024 buckets.

use vstd::prelude::*;

use crate::hashing::{hash_chars, hash_three};
use crate::shadow::matching::{lower_text, lowercase};
use crate::single::{add_singles, sum_bits, MINUS_ONE, ONE};
use crate::text::{char_is_whitespace, chars_of, is_whitespace};

verus! {

/// The number of buckets.
pub const VECTOR_DIM: usize = 1024;

/// The value that a trigram's hash starts with.
pub const TRIGRAM_BASIS: u64 = 1469598103934665603;

/// Whether a character is a letter or a number, after Unicode's tables.
pub uninterp spec fn alphanumeric(c: char) -> bool;

/// `char::is_alphanumeric`, whose result is called `alphanumeric` of the
/// character. It depends on the character alone. Which characters it holds of
/// is not stated.
#[verifier::external_body]
pub(crate) fn char_is_alphanumeric(c: char) -> (r: bool)
    ensures
        r == alphanumeric(c),
{
    c.is_alphanumeric()
}

/// The letters, numbers and white space of a text.
pub open spec fn kept(s: Seq<char>) -> Seq<char>
    decreases s.len(),
{
    if s.len() == 0 {
        s
    } else {
        let before = kept(s.drop_last());
        let c = s.last();
        if alphanumeric(c) || is_whitespace(c) {
            before.push(c)
        } else {
            before
        }
    }
}

/// The hash of the trigram that ends a text of three characters or more.
pub open spec fn last_trigram(s: Seq<char>) -> u64 {
    hash_chars(TRIGRAM_BASIS, s.subrange(s.len() - 3, s.len() as int))
}

/// The bucket of a hash.
pub open spec fn bucket(h: u64) -> int {
    (h % 1024) as int
}

/// The counts of the trigrams of a text, as bits of singles: a trigram with an
/// even hash counts up in its bucket, one with an odd hash counts down.
pub open spec fn trigram_counts(s: Seq<char>) -> Seq<u32>
    decreases s.len(),
{
    if s.len() < 3 {
        Seq::new(1024, |i: int| 0)
    } else {
        let before = trigram_counts(s.drop_last());
        let h = last_trigram(s);
        before.update(
            bucket(h),
            sum_bits(
                before[bucket(h)],
                if h % 2 == 0 {
                    ONE
                } else {
                    MINUS_ONE
                },
            ),
        )
    }
}

/// The letters, numbers and white space of a text.
pub fn keep_chars(s: &str) -> (r: Vec<char>)
    ensures
        r@ == kept(s@),
{
    let chars: Vec<char> = chars_of(s);
    let mut out: Vec<char> = Vec::new();
    let mut i: usize = 0;
    assert(s@.take(0) =~= Seq::<char>::empty());
    while i < chars.len()
        invariant
            chars@ == s@,
            i <= chars@.len(),
            out@ == kept(s@.take(i as int)),
        decreases chars@.len() - i,
    {
        assert(s@.take(i + 1).drop_last() =~= s@.take(i as int));
        let c: char = chars[i];
        assert(s@.take(i + 1).last() == c);
        if char_is_alphanumeric(c) || char_is_whitespace(c) {
            out.push(c);
        }
        i += 1;
    }
    assert(s@.take(s@.len() as int) =~= s@);
    out
}

/// The counts of the trigrams of characters.
pub fn count_trigrams(chars: &Vec<char>) -> (r: Vec<u32>)
    ensures
        r@ == trigram_counts(chars@),
        r@.len() == 1024,
{
    let mut out: Vec<u32> = Vec::new();
    out.resize(VECTOR_DIM, 0);
    assert(out@ =~= Seq::new(1024, |i: int| 0u32));
    let len: usize = chars.len();
    if len < 3 {
        return out;
    }
    assert(trigram_counts(chars@.take(2)) =~= Seq::new(1024, |i: int| 0u32));
    let mut end: usize = 2;
    while end < len
        invariant
            2 <= end <= len == chars@.len(),
            out@.len() == 1024,
            out@ == trigram_counts(chars@.take(end as int)),
        decreases len - end,
    {
        let ghost next = chars@.take(end + 1);
        proof {
            assert(next.drop_last() =~= chars@.take(end as int));
            assert(next.subrange(next.len() - 3, next.len() as int) =~= seq![
                chars@[end - 2],
                chars@[end - 1],
                chars@[end as int],
            ]);
        }
        let h: u64 = hash_three(TRIGRAM_BASIS, chars[end - 2], chars[end - 1], chars[end]);
        let at: usize = (h % 1024) as usize;
        let ghost before = out@;
        let step: u32 = if h % 2 == 0 {
            ONE
        } else {
            MINUS_ONE
        };
        let after: u32 = add_singles(out[at], step);
        out[at] = after;
        assert(out@ =~= before.update(at as int, after));
        end += 1;
    }
    assert(chars@.take(len as int) =~= chars@);
    out
}

/// The counts of the trigrams of a text, whatever the case of its letters and
/// whatever stands between letters, numbers and white space.
pub fn text_trigrams(text: &str) -> (r: Vec<u32>)
    ensures
        r@ == trigram_counts(kept(lowercase(text@))),
        r@.len() == 1024,
{
    let lower: String = lower_text(text);
    let chars: Vec<char> = keep_chars(lower.as_str());
    count_trigrams(&chars)
}

/// A text with fewer than three letters, numbers or white-space characters has
/// no trigram.
pub proof fn law_short_text_has_no_trigrams(s: Seq<char>)
    requires
        kept(s).len() < 3,
    ensures
        forall|i: int| 0 <= i < 1024 ==> #[trigger] trigram_counts(kept(s))[i] == 0,
{
}

} // verus!
