//! The similarity of texts: the cosine of the angle between the vectors of
//! their trigram counts.
//!
//! Components are bits of singles.

use vstd::prelude::*;

use super::trigrams::{kept, text_trigrams, trigram_counts};
use crate::bits::{bits_less, less_bits};
use crate::quant::products::{dot, dot_product, length};
use crate::shadow::matching::lowercase;
use crate::single::{divide_singles, quotient_bits, root_single};

verus! {

/// A vector divided by its length, unless that is zero.
pub open spec fn unit_vector(v: Seq<u32>) -> Seq<u32> {
    if less_bits(0, length(v)) {
        v.map_values(|x: u32| quotient_bits(x, length(v)))
    } else {
        v
    }
}

/// The vector of a text.
pub open spec fn text_vector(text: Seq<char>) -> Seq<u32> {
    unit_vector(trigram_counts(kept(lowercase(text))))
}

/// The similarity of two vectors: zero where it would be negative.
pub open spec fn similarity_bits(a: Seq<u32>, b: Seq<u32>) -> u32 {
    if less_bits(0, dot(a, b)) {
        dot(a, b)
    } else {
        0
    }
}

/// The vector of a text: as many components as there are buckets, and of
/// length one unless it is zero.
pub fn vectorize(text: &str) -> (r: Vec<u32>)
    ensures
        r@ == text_vector(text@),
        r@.len() == 1024,
{
    let mut v: Vec<u32> = text_trigrams(text);
    let norm: u32 = root_single(dot_product(&v, &v));
    if !bits_less(0, norm) {
        return v;
    }
    let ghost start = v@;
    let ghost goal = text_vector(text@);
    let mut i: usize = 0;
    while i < 1024
        invariant
            i <= 1024 == v@.len() == start.len(),
            norm == length(start),
            less_bits(0, norm),
            goal == unit_vector(start),
            forall|k: int| 0 <= k < i ==> #[trigger] v@[k] == goal[k],
            forall|k: int| i <= k < 1024 ==> #[trigger] v@[k] == start[k],
        decreases 1024 - i,
    {
        assert(v@[i as int] == start[i as int]);
        let x: u32 = divide_singles(v[i], norm);
        v[i] = x;
        i += 1;
    }
    assert(v@ =~= goal);
    v
}

/// The similarity of two vectors.
pub fn cosine(a: &Vec<u32>, b: &Vec<u32>) -> (r: u32)
    ensures
        r == similarity_bits(a@, b@),
{
    let d: u32 = dot_product(a, b);
    if bits_less(0, d) {
        d
    } else {
        0
    }
}

} // verus!
