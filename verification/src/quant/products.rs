//! Products of vectors, and vectors of length one.
//!
//! Components are bits of singles.

use vstd::prelude::*;

use super::grid::CLOSE;
use crate::bits::{bits_less, less_bits};
use crate::single::{
    add_singles, divide_singles, multiply_singles, product_bits, quotient_bits, root_bits,
    root_single, sum_bits, NEGATIVE_ZERO,
};

verus! {

/// The products of the first `n` components of two vectors, added up in their
/// order to a start.
pub open spec fn products(start: u32, a: Seq<u32>, b: Seq<u32>, n: int) -> u32
    decreases n,
{
    if n <= 0 {
        start
    } else {
        sum_bits(products(start, a, b, n - 1), product_bits(a[n - 1], b[n - 1]))
    }
}

/// The lesser of two lengths.
pub open spec fn shorter(a: nat, b: nat) -> int {
    if a < b {
        a as int
    } else {
        b as int
    }
}

/// The product of two vectors, as far as both have components. No component
/// adds up to the negative zero.
pub open spec fn dot(a: Seq<u32>, b: Seq<u32>) -> u32 {
    products(NEGATIVE_ZERO, a, b, shorter(a.len(), b.len()))
}

/// The products of the first components of two vectors, added up to a start.
pub fn multiply_up(start: u32, a: &Vec<u32>, b: &Vec<u32>, n: usize) -> (r: u32)
    requires
        n <= a@.len(),
        n <= b@.len(),
    ensures
        r == products(start, a@, b@, n as int),
{
    let mut t: u32 = start;
    let mut i: usize = 0;
    while i < n
        invariant
            i <= n,
            n <= a@.len(),
            n <= b@.len(),
            t == products(start, a@, b@, i as int),
        decreases n - i,
    {
        t = add_singles(t, multiply_singles(a[i], b[i]));
        i += 1;
    }
    t
}

/// The product of two vectors, as far as both have components.
pub fn dot_product(a: &Vec<u32>, b: &Vec<u32>) -> (r: u32)
    ensures
        r == dot(a@, b@),
{
    let n: usize = if a.len() < b.len() {
        a.len()
    } else {
        b.len()
    };
    multiply_up(NEGATIVE_ZERO, a, b, n)
}

/// The length of a vector.
pub open spec fn length(v: Seq<u32>) -> u32 {
    root_bits(dot(v, v))
}

/// A vector divided by its length, unless that is close to zero.
pub open spec fn normalized(v: Seq<u32>) -> Seq<u32> {
    if less_bits(CLOSE, length(v)) {
        v.map_values(|x: u32| quotient_bits(x, length(v)))
    } else {
        v
    }
}

/// Brings a vector to length one, in place.
pub fn normalize(v: &mut Vec<u32>)
    ensures
        final(v)@ == normalized(old(v)@),
{
    let ghost start = v@;
    let norm: u32 = root_single(dot_product(v, v));
    if !bits_less(CLOSE, norm) {
        return;
    }
    let ghost goal = normalized(start);
    let len: usize = v.len();
    let mut i: usize = 0;
    while i < len
        invariant
            i <= len == v@.len() == start.len(),
            norm == length(start),
            less_bits(CLOSE, norm),
            goal == normalized(start),
            forall|k: int| 0 <= k < i ==> #[trigger] v@[k] == goal[k],
            forall|k: int| i <= k < len ==> #[trigger] v@[k] == start[k],
        decreases len - i,
    {
        assert(v@[i as int] == start[i as int]);
        let x: u32 = divide_singles(v[i], norm);
        v[i] = x;
        i += 1;
    }
    assert(v@ =~= goal);
}

} // verus!
