//! Text as a vector: hashed trigrams and words, folded into a fixed number of
//! components.
//!
//! Components are bits of singles.

use vstd::prelude::*;
use vstd::utf8::encode_utf8;

use crate::hashing::{fnv_step, hash_bytes, hash_chars, hash_of_bytes, hash_three, mix};
use crate::quant::products::{normalize, normalized};
use crate::shadow::matching::{lower_text, lowercase};
use crate::single::{add_singles, sum_bits, HALF, ONE, TWO};
use crate::text::{char_is_whitespace, chars_of, first_text, lemma_first_text, string_of};
use crate::words::{lemma_word_end, word_end};

verus! {

/// The value that a hash starts with.
pub const FNV_BASIS: u64 = 14695981039346656037;

/// The component that a hash falls into.
pub open spec fn component(h: u64, dim: nat) -> int {
    (h as usize) as int % dim as int
}

/// Weights after one was added to the component of a hash.
pub open spec fn added(w: Seq<u32>, h: u64, weight: u32) -> Seq<u32> {
    let at = component(h, w.len());
    w.update(at, sum_bits(w[at], weight))
}

/// No weight at all.
pub open spec fn no_weights(dim: nat) -> Seq<u32> {
    Seq::new(dim, |i: int| 0u32)
}

/// The hash of a character at a place.
pub open spec fn hash_placed(c: char, place: u64) -> u64 {
    fnv_step(fnv_step(FNV_BASIS, c as u64), place)
}

/// The weights of the first `n` characters, each with its place: one for each.
pub open spec fn char_weights(s: Seq<char>, dim: nat, n: int) -> Seq<u32>
    decreases n,
{
    if n <= 0 {
        no_weights(dim)
    } else {
        added(char_weights(s, dim, n - 1), hash_placed(s[n - 1], (n - 1) as u64), ONE)
    }
}

/// The hash of the trigram that ends before `end`.
pub open spec fn trigram_before(s: Seq<char>, end: int) -> u64 {
    hash_chars(FNV_BASIS, s.subrange(end - 3, end))
}

/// The weights of the trigrams that end no later than `end`: one in the
/// component of the hash, and a half in that of the hash times a constant.
pub open spec fn trigram_weights(s: Seq<char>, dim: nat, end: int) -> Seq<u32>
    decreases end,
{
    if end < 3 {
        no_weights(dim)
    } else {
        let h = trigram_before(s, end);
        added(
            added(trigram_weights(s, dim, end - 1), h, ONE),
            h.wrapping_mul(2654435761),
            HALF,
        )
    }
}

/// The hash of a word: of its bytes.
pub open spec fn word_hash(s: Seq<char>, start: int, end: int) -> u64 {
    hash_bytes(FNV_BASIS, encode_utf8(s.subrange(start, end)))
}

/// Weights after two were added for each word from `i` on.
pub open spec fn word_weights(w: Seq<u32>, s: Seq<char>, i: int) -> Seq<u32>
    decreases s.len() - i,
{
    if i < 0 || i >= s.len() {
        w
    } else {
        let a = first_text(s, i, s.len() as int);
        proof {
            lemma_first_text(s, i, s.len() as int);
            lemma_word_end(s, a);
        }
        if a >= s.len() {
            w
        } else {
            word_weights(added(w, word_hash(s, a, word_end(s, a)), TWO), s, word_end(s, a))
        }
    }
}

/// The weights of a text in lower case. A text of fewer than three characters
/// is weighed by its characters, a longer one by its trigrams and words.
pub open spec fn text_weights(s: Seq<char>, dim: nat) -> Seq<u32> {
    if s.len() < 3 {
        char_weights(s, dim, s.len() as int)
    } else {
        word_weights(trigram_weights(s, dim, s.len() as int), s, 0)
    }
}

/// The embedding of a text in lower case: the vector of length one in the
/// direction of its weights.
pub open spec fn embedded(s: Seq<char>, dim: nat) -> Seq<u32> {
    normalized(text_weights(s, dim))
}

fn add_weight(w: &mut Vec<u32>, h: u64, weight: u32)
    requires
        old(w)@.len() > 0,
    ensures
        final(w)@ == added(old(w)@, h, weight),
        final(w)@.len() == old(w)@.len(),
{
    let len: usize = w.len();
    let at: usize = (h as usize) % len;
    let ghost before = w@;
    let x: u32 = add_singles(w[at], weight);
    w[at] = x;
    assert(w@ =~= before.update(at as int, x));
}

/// The trigram embedder: the same text always gives the same vector.
#[derive(Clone, Copy, Debug, PartialEq, Eq, Structural)]
pub struct TrigramEmbedder {
    dimension: usize,
}

impl TrigramEmbedder {
    /// The number of components.
    pub closed spec fn size(&self) -> nat {
        self.dimension as nat
    }

    pub fn new(dimension: usize) -> (r: Self)
        ensures
            r.size() == dimension,
    {
        TrigramEmbedder { dimension }
    }

    pub fn dimension(&self) -> (r: usize)
        ensures
            r == self.size(),
    {
        self.dimension
    }

    fn weigh(&self, lower: &str) -> (r: Vec<u32>)
        requires
            self.size() > 0 || lower@.len() == 0,
        ensures
            r@ == text_weights(lower@, self.size()),
            r@.len() == self.size(),
    {
        let chars: Vec<char> = chars_of(lower);
        let len: usize = chars.len();
        let ghost dim = self.size();
        let mut w: Vec<u32> = Vec::new();
        w.resize(self.dimension, 0);
        assert(w@ =~= no_weights(dim));
        if len < 3 {
            let mut i: usize = 0;
            while i < len
                invariant
                    i <= len == chars@.len(),
                    chars@ == lower@,
                    dim > 0 || len == 0,
                    w@.len() == dim,
                    w@ == char_weights(lower@, dim, i as int),
                decreases len - i,
            {
                let h: u64 = mix(mix(FNV_BASIS, chars[i] as u64), i as u64);
                add_weight(&mut w, h, ONE);
                i += 1;
            }
            return w;
        }
        let mut end: usize = 2;
        while end < len
            invariant
                2 <= end <= len == chars@.len(),
                chars@ == lower@,
                dim > 0,
                w@.len() == dim,
                w@ == trigram_weights(lower@, dim, end as int),
            decreases len - end,
        {
            proof {
                assert(lower@.subrange(end + 1 - 3, end + 1) =~= seq![
                    chars@[end - 2],
                    chars@[end - 1],
                    chars@[end as int],
                ]);
            }
            let h: u64 = hash_three(FNV_BASIS, chars[end - 2], chars[end - 1], chars[end]);
            add_weight(&mut w, h, ONE);
            add_weight(&mut w, h.wrapping_mul(2654435761), HALF);
            end += 1;
        }
        let ghost all = text_weights(lower@, dim);
        let mut i: usize = 0;
        while i < len
            invariant
                i <= len == chars@.len(),
                chars@ == lower@,
                dim > 0,
                w@.len() == dim,
                dim == self.size(),
                all == text_weights(lower@, dim),
                word_weights(w@, lower@, i as int) == all,
            decreases len - i,
        {
            let mut a: usize = i;
            while a < len && char_is_whitespace(chars[a])
                invariant
                    i <= a <= len == chars@.len(),
                    chars@ == lower@,
                    first_text(lower@, i as int, len as int) == first_text(
                        lower@,
                        a as int,
                        len as int,
                    ),
                decreases len - a,
            {
                a += 1;
            }
            if a >= len {
                return w;
            }
            let mut b: usize = a + 1;
            proof {
                assert(word_end(lower@, a as int) == word_end(lower@, a + 1));
            }
            while b < len && !char_is_whitespace(chars[b])
                invariant
                    a < b <= len == chars@.len(),
                    chars@ == lower@,
                    word_end(lower@, a as int) == word_end(lower@, b as int),
                decreases len - b,
            {
                b += 1;
            }
            let word: String = string_of(&chars, a, b);
            let h: u64 = hash_of_bytes(FNV_BASIS, word.as_str().as_bytes());
            add_weight(&mut w, h, TWO);
            i = b;
        }
        w
    }

    /// The embedding of a text, whatever the case of its letters. Only the empty
    /// text has one without components.
    pub fn encode(&self, text: &str) -> (r: Vec<u32>)
        requires
            self.size() > 0 || text@.len() == 0,
        ensures
            r@ == embedded(lowercase(text@), self.size()),
            r@.len() == self.size(),
    {
        let lower: String = lower_text(text);
        let mut w: Vec<u32> = self.weigh(lower.as_str());
        normalize(&mut w);
        w
    }
}

/// The text without characters weighs nothing.
pub proof fn law_empty_text_weighs_nothing(dim: nat, i: int)
    requires
        0 <= i < dim,
    ensures
        text_weights(Seq::empty(), dim)[i] == 0,
{
}

} // verus!
