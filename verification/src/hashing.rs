//! Hashes of characters and bytes.

use vstd::prelude::*;

verus! {

/// One step of the FNV-1a hash: the next value is mixed in.
pub open spec fn fnv_step(h: u64, x: u64) -> u64 {
    (h ^ x).wrapping_mul(1099511628211)
}

pub fn mix(h: u64, x: u64) -> (r: u64)
    ensures
        r == fnv_step(h, x),
{
    (h ^ x).wrapping_mul(1099511628211)
}

/// The hash of characters, from a start value on.
pub open spec fn hash_chars(start: u64, s: Seq<char>) -> u64
    decreases s.len(),
{
    if s.len() == 0 {
        start
    } else {
        fnv_step(hash_chars(start, s.drop_last()), s.last() as u64)
    }
}

/// The hash of bytes, from a start value on.
pub open spec fn hash_bytes(start: u64, s: Seq<u8>) -> u64
    decreases s.len(),
{
    if s.len() == 0 {
        start
    } else {
        fnv_step(hash_bytes(start, s.drop_last()), s.last() as u64)
    }
}

/// The hash of three characters.
pub fn hash_three(start: u64, a: char, b: char, c: char) -> (r: u64)
    ensures
        r == hash_chars(start, seq![a, b, c]),
{
    proof {
        let s = seq![a, b, c];
        assert(s.drop_last() =~= seq![a, b]);
        assert(s.drop_last().drop_last() =~= seq![a]);
        assert(seq![a].drop_last() =~= Seq::<char>::empty());
        reveal_with_fuel(hash_chars, 4);
    }
    mix(mix(mix(start, a as u64), b as u64), c as u64)
}

/// The hash of bytes.
pub fn hash_of_bytes(start: u64, bytes: &[u8]) -> (r: u64)
    ensures
        r == hash_bytes(start, bytes@),
{
    let mut h: u64 = start;
    let mut i: usize = 0;
    assert(bytes@.take(0) =~= Seq::<u8>::empty());
    while i < bytes.len()
        invariant
            i <= bytes@.len(),
            h == hash_bytes(start, bytes@.take(i as int)),
        decreases bytes@.len() - i,
    {
        assert(bytes@.take(i + 1).drop_last() =~= bytes@.take(i as int));
        assert(bytes@.take(i + 1).last() == bytes@[i as int]);
        h = mix(h, bytes[i] as u64);
        i += 1;
    }
    assert(bytes@.take(bytes@.len() as int) =~= bytes@);
    h
}

} // verus!
