//! Where the weights of a text fall.

use vstd::prelude::*;
use vstd::utf8::encode_utf8;

use super::embedder::{
    added, char_weights, embedded, text_weights, trigram_before, trigram_weights, word_hash,
    word_weights,
};
use crate::float::{lemma_pow2_values, sum};
use crate::hashing::{hash_bytes, hash_chars};
use crate::rounding::lemma_sum_grows;
use crate::single::{
    bits_for, is_zero, lemma_is_number, number_of, sum_bits, HALF, INFINITY, ONE, TWO,
};
use crate::text::{first_text, lemma_first_text};
use crate::words::{is_word, lemma_word_end, lemma_word_stops, word_end};

verus! {

/// The FNV-1a hash of three characters of a text.
pub open spec fn trigram_hash(s: Seq<char>, k: int) -> u64 {
    ((((((14695981039346656037u64 ^ (s[k] as u64)).wrapping_mul(1099511628211)) ^ (s[k
        + 1] as u64)).wrapping_mul(1099511628211)) ^ (s[k + 2] as u64))).wrapping_mul(1099511628211)
}

/// Whether a trigram of a text falls into a component: by its hash, or by its hash
/// times a constant.
pub open spec fn trigram_falls(s: Seq<char>, dim: nat, c: int, k: int) -> bool {
    ||| (trigram_hash(s, k) as usize) as int % dim as int == c
    ||| (trigram_hash(s, k).wrapping_mul(2654435761) as usize) as int % dim as int == c
}

/// Whether the word from `a` to before `b` falls into a component.
pub open spec fn word_falls(s: Seq<char>, dim: nat, c: int, a: int, b: int) -> bool {
    (hash_bytes(14695981039346656037, encode_utf8(s.subrange(a, b))) as usize) as int % dim as int
        == c
}

proof fn lemma_trigram_hash(s: Seq<char>, end: int)
    requires
        3 <= end <= s.len(),
    ensures
        trigram_before(s, end) == trigram_hash(s, end - 3),
{
    let t = s.subrange(end - 3, end);
    reveal_with_fuel(hash_chars, 4);
    assert(t.drop_last().drop_last().drop_last() =~= Seq::<char>::empty());
    assert(t[0] == s[end - 3] && t[1] == s[end - 2] && t[2] == s[end - 1]);
    assert(t.last() == t[2]);
    assert(t.drop_last().last() == t[1]);
    assert(t.drop_last().drop_last().last() == t[0]);
}

/// Adding a half, one or two to what is not negative gives something positive.
proof fn lemma_sum_is_positive(a: u32, w: u32)
    requires
        a <= INFINITY,
        w == HALF || w == ONE || w == TWO,
    ensures
        0 < sum_bits(a, w) <= INFINITY,
{
    if a < INFINITY {
        lemma_pow2_values();
        vstd::arithmetic::power2::lemma2_to64();
        lemma_is_number(a);
        lemma_is_number(w);
        let x = number_of(a);
        let y = number_of(w);
        assert(x.m >= 0);
        let k = crate::rounding::lemma_kept_integer(24, 0x80_0000);
        assert(0x80_0000 * 1 == 0x80_0000);
        assert(y.m > 0 && y.e >= -24);
        lemma_sum_grows(24, y, x);
        crate::single::law_order_does_not_matter(a, w);
        assert(sum_bits(w, a) == bits_for(sum(24, y, x)));
    }
}

proof fn lemma_added(w: Seq<u32>, h: u64, x: u32, c: int)
    requires
        0 <= c < w.len(),
        forall|i: int| 0 <= i < w.len() ==> #[trigger] w[i] <= INFINITY,
        x == HALF || x == ONE || x == TWO,
    ensures
        added(w, h, x).len() == w.len(),
        forall|i: int| 0 <= i < w.len() ==> #[trigger] added(w, h, x)[i] <= INFINITY,
        added(w, h, x)[c] > 0 <==> w[c] > 0 || (h as usize) as int % w.len() as int == c,
{
    let at = (h as usize) as int % w.len() as int;
    assert(0 <= at < w.len());
    lemma_sum_is_positive(w[at], x);
}

proof fn lemma_trigram_weights(s: Seq<char>, dim: nat, end: int, c: int)
    requires
        0 <= c < dim,
        end <= s.len(),
    ensures
        trigram_weights(s, dim, end).len() == dim,
        forall|i: int| 0 <= i < dim ==> #[trigger] trigram_weights(s, dim, end)[i] <= INFINITY,
        trigram_weights(s, dim, end)[c] > 0 <==> exists|k: int|
            0 <= k <= end - 3 && #[trigger] trigram_falls(s, dim, c, k),
    decreases end,
{
    if end >= 3 {
        lemma_trigram_weights(s, dim, end - 1, c);
        let before = trigram_weights(s, dim, end - 1);
        let h = trigram_before(s, end);
        lemma_trigram_hash(s, end);
        lemma_added(before, h, ONE, c);
        let next = added(before, h, ONE);
        lemma_added(next, h.wrapping_mul(2654435761), HALF, c);
        let after = trigram_weights(s, dim, end);
        if before[c] > 0 {
            let k = choose|k: int| 0 <= k <= end - 4 && #[trigger] trigram_falls(s, dim, c, k);
            assert(0 <= k <= end - 3 && trigram_falls(s, dim, c, k));
        }
        if trigram_falls(s, dim, c, end - 3) {
            assert(after[c] > 0);
        }
        if exists|k: int| 0 <= k <= end - 3 && #[trigger] trigram_falls(s, dim, c, k) {
            let k = choose|k: int| 0 <= k <= end - 3 && #[trigger] trigram_falls(s, dim, c, k);
            if k <= end - 4 {
                assert(before[c] > 0);
            }
        }
    }
}

/// Whether a word of a text from a place on falls into a component.
spec fn some_word_falls(s: Seq<char>, dim: nat, c: int, i: int) -> bool {
    exists|a: int, b: int|
        i <= a && #[trigger] is_word(s, a, b) && word_falls(s, dim, c, a, b)
}

proof fn lemma_word_weights(w: Seq<u32>, s: Seq<char>, i: int, c: int)
    requires
        0 <= c < w.len(),
        0 <= i,
        0 < i < s.len() ==> crate::text::is_whitespace(s[i - 1]) || crate::text::is_whitespace(
            s[i],
        ),
        forall|k: int| 0 <= k < w.len() ==> #[trigger] w[k] <= INFINITY,
    ensures
        word_weights(w, s, i).len() == w.len(),
        forall|k: int| 0 <= k < w.len() ==> #[trigger] word_weights(w, s, i)[k] <= INFINITY,
        word_weights(w, s, i)[c] > 0 <==> w[c] > 0 || some_word_falls(s, w.len(), c, i),
    decreases s.len() - i,
{
    let dim = w.len();
    if i < s.len() {
        let a = first_text(s, i, s.len() as int);
        lemma_first_text(s, i, s.len() as int);
        lemma_word_end(s, a);
        if a < s.len() {
            let e = word_end(s, a);
            lemma_word_stops(s, a);
            let h = word_hash(s, a, e);
            lemma_added(w, h, TWO, c);
            let next = added(w, h, TWO);
            lemma_word_weights(next, s, e, c);
            assert(is_word(s, a, e));
            if some_word_falls(s, dim, c, e) {
                let (x, y) = choose|x: int, y: int|
                    e <= x && #[trigger] is_word(s, x, y) && word_falls(s, dim, c, x, y);
                assert(i <= x && is_word(s, x, y));
            }
            if word_falls(s, dim, c, a, e) {
                assert(some_word_falls(s, dim, c, i));
            }
            if some_word_falls(s, dim, c, i) {
                let (x, y) = choose|x: int, y: int|
                    i <= x && #[trigger] is_word(s, x, y) && word_falls(s, dim, c, x, y);
                if x < a {
                    assert(crate::text::is_whitespace(s[x]));
                }
                if a < x < e {
                    assert(!crate::text::is_whitespace(s[x - 1]));
                }
                if x == a {
                    if y < e {
                        assert(!crate::text::is_whitespace(s[y]));
                    }
                    if e < y {
                        assert(!crate::text::is_whitespace(s[e]));
                    }
                } else {
                    assert(e <= x && is_word(s, x, y));
                }
            }
        } else if some_word_falls(s, dim, c, i) {
            let (x, y) = choose|x: int, y: int|
                i <= x && #[trigger] is_word(s, x, y) && word_falls(s, dim, c, x, y);
            assert(crate::text::is_whitespace(s[x]));
        }
    } else if some_word_falls(s, dim, c, i) {
        let (x, y) = choose|x: int, y: int|
            i <= x && #[trigger] is_word(s, x, y) && word_falls(s, dim, c, x, y);
    }
}

/// A text of three characters or more weighs exactly in the components that one of
/// its trigrams or words falls into, and nowhere less than nothing.
pub proof fn law_weights_fall_where_hashes_do(s: Seq<char>, dim: nat, c: int)
    requires
        s.len() >= 3,
        0 <= c < dim,
    ensures
        text_weights(s, dim).len() == dim,
        text_weights(s, dim)[c] <= 0x7f80_0000,
        text_weights(s, dim)[c] > 0 <==> (exists|k: int|
            0 <= k <= s.len() - 3 && #[trigger] trigram_falls(s, dim, c, k)) || exists|
            a: int,
            b: int,
        | #[trigger]
            is_word(s, a, b) && word_falls(s, dim, c, a, b),
{
    let w = trigram_weights(s, dim, s.len() as int);
    lemma_trigram_weights(s, dim, s.len() as int, c);
    lemma_word_weights(w, s, 0, c);
    if exists|a: int, b: int| #[trigger] is_word(s, a, b) && word_falls(s, dim, c, a, b) {
        let (a, b) = choose|a: int, b: int| #[trigger]
            is_word(s, a, b) && word_falls(s, dim, c, a, b);
        assert(0 <= a && is_word(s, a, b) && word_falls(s, dim, c, a, b));
        assert(some_word_falls(s, dim, c, 0));
    }
    if some_word_falls(s, dim, c, 0) {
        let (a, b) = choose|a: int, b: int|
            0 <= a && #[trigger] is_word(s, a, b) && word_falls(s, dim, c, a, b);
    }
}

/// Where a text weighs nothing, its embedding is zero.
pub proof fn law_embedding_is_zero_without_weight(s: Seq<char>, dim: nat, c: int)
    requires
        0 <= c < dim,
        text_weights(s, dim).len() == dim,
        text_weights(s, dim)[c] == 0,
    ensures
        is_zero(embedded(s, dim)[c]),
{
}

/// One more trigram weighs one in the component of its hash, and a half in that of
/// its hash times a constant.
pub proof fn law_trigram_weighs_one_and_a_half(s: Seq<char>, dim: nat, end: int)
    requires
        3 <= end <= s.len(),
        dim > 0,
    ensures
        ({
            let h = trigram_hash(s, end - 3);
            let i = (h as usize) as int % dim as int;
            let j = (h.wrapping_mul(2654435761) as usize) as int % dim as int;
            let w = trigram_weights(s, dim, end - 1);
            let x = w.update(i, sum_bits(w[i], 0x3f80_0000));
            trigram_weights(s, dim, end) == x.update(j, sum_bits(x[j], 0x3f00_0000))
        }),
{
    lemma_trigram_hash(s, end);
    lemma_trigram_weights(s, dim, end - 1, 0);
}

/// A word weighs two in the component of its hash. Behind it stand the weights of the
/// words that follow.
pub proof fn law_word_weighs_two(w: Seq<u32>, s: Seq<char>, i: int, a: int, b: int)
    requires
        w.len() > 0,
        0 <= i <= a,
        is_word(s, a, b),
        forall|k: int| i <= k < a ==> crate::text::is_whitespace(#[trigger] s[k]),
    ensures
        ({
            let c = (hash_bytes(14695981039346656037, encode_utf8(s.subrange(a, b))) as usize) as int
                % w.len() as int;
            word_weights(w, s, i) == word_weights(
                w.update(c, sum_bits(w[c], 0x4000_0000)),
                s,
                b,
            )
        }),
{
    lemma_first_text(s, i, s.len() as int);
    let x = first_text(s, i, s.len() as int);
    if x < a {
        assert(crate::text::is_whitespace(s[x]));
    }
    if a < x {
        assert(crate::text::is_whitespace(s[a]));
    }
    lemma_word_end(s, a);
    lemma_word_stops(s, a);
    let e = word_end(s, a);
    if e < b {
        assert(!crate::text::is_whitespace(s[e]));
    }
    if b < e {
        assert(!crate::text::is_whitespace(s[b]));
    }
}

/// A text weighs what its trigrams and then its words weigh; one of fewer than three
/// characters what each character weighs at its place.
pub proof fn law_text_weighs_its_trigrams_and_words(s: Seq<char>, dim: nat, n: int)
    requires
        dim > 0,
    ensures
        s.len() >= 3 ==> text_weights(s, dim) == word_weights(
            trigram_weights(s, dim, s.len() as int),
            s,
            0,
        ),
        trigram_weights(s, dim, 2) == Seq::new(dim, |i: int| 0u32),
        s.len() < 3 ==> text_weights(s, dim) == char_weights(s, dim, s.len() as int),
        0 < n <= s.len() < 3 ==> ({
            let h = (((14695981039346656037u64 ^ (s[n - 1] as u64)).wrapping_mul(
                1099511628211,
            )) ^ ((n - 1) as u64)).wrapping_mul(1099511628211);
            let c = (h as usize) as int % dim as int;
            let w = char_weights(s, dim, n - 1);
            char_weights(s, dim, n) == w.update(c, sum_bits(w[c], 0x3f80_0000))
        }),
{
    if 0 < n <= s.len() && s.len() < 3 {
        lemma_char_len(s, dim, n - 1);
    }
}

proof fn lemma_char_len(s: Seq<char>, dim: nat, n: int)
    requires
        dim > 0,
    ensures
        char_weights(s, dim, n).len() == dim,
    decreases n,
{
    if n > 0 {
        lemma_char_len(s, dim, n - 1);
    }
}

} // verus!
