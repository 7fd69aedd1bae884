//! What the buckets of a text count, and which texts are not similar.

use vstd::arithmetic::power2::pow2;
use vstd::prelude::*;

use super::similarity::{similarity_bits, text_vector, unit_vector};
use super::trigrams::{alphanumeric, kept, last_trigram, trigram_counts};
use crate::bits::{is_nan_bits, less_bits};
use crate::float::{aligned, lemma_pow2_values, rounded, sum, two_to};
use crate::hashing::hash_chars;
use crate::quant::binary::tally;
use crate::quant::products::products;
use crate::rounding::{lemma_integer_range, lemma_kept_integer, lemma_rounding_scales};
use crate::shadow::matching::lowercase;
use crate::single::{
    integer_bits, is_zero, law_opposite_is_negated, law_order_does_not_matter,
    lemma_number_is_kept, number_of, opposite, product_bits, quotient_bits, root_bits, sum_bits,
    MINUS_ONE, NEGATIVE_ZERO, ONE,
};
use crate::text::is_whitespace;

verus! {

/// The FNV-1a hash of the three characters of a text from one on.
pub open spec fn hash_at(s: Seq<char>, k: int) -> u64 {
    ((((((1469598103934665603u64 ^ (s[k] as u64)).wrapping_mul(1099511628211)) ^ (s[k
        + 1] as u64)).wrapping_mul(1099511628211)) ^ (s[k + 2] as u64))).wrapping_mul(1099511628211)
}

/// The number of trigrams of a text.
pub open spec fn trigram_count(s: Seq<char>) -> nat {
    if s.len() < 3 {
        0
    } else {
        (s.len() - 2) as nat
    }
}

/// The trigrams that fall into a bucket.
pub open spec fn falls_into(s: Seq<char>, b: int) -> spec_fn(int) -> bool {
    |k: int| hash_at(s, k) % 1024 == b
}

proof fn lemma_last_hash(s: Seq<char>)
    requires
        s.len() >= 3,
    ensures
        last_trigram(s) == hash_at(s, s.len() - 3),
{
    let t = s.subrange(s.len() - 3, s.len() as int);
    reveal_with_fuel(hash_chars, 4);
    assert(t.drop_last().drop_last().drop_last() =~= Seq::<char>::empty());
    assert(t[0] == s[s.len() - 3] && t[1] == s[s.len() - 2] && t[2] == s[s.len() - 1]);
    assert(t.last() == t[2]);
    assert(t.drop_last().last() == t[1]);
    assert(t.drop_last().drop_last().last() == t[0]);
}

proof fn lemma_counted_before(s: Seq<char>, n: nat, b: int)
    requires
        s.len() > 0,
        n + 2 < s.len(),
    ensures
        tally(n, falls_into(s.drop_last(), b)) == tally(n, falls_into(s, b)),
    decreases n,
{
    if n > 0 {
        lemma_counted_before(s, (n - 1) as nat, b);
        let f = falls_into(s.drop_last(), b);
        let g = falls_into(s, b);
        assert(f(n - 1) == g(n - 1));
    }
}

/// One more makes an integer the next one.
proof fn lemma_one_more(n: nat)
    requires
        n < 0x100_0000,
    ensures
        sum_bits(integer_bits(n), ONE) == integer_bits(n + 1),
        n > 0 ==> sum_bits(opposite(integer_bits(n)), MINUS_ONE) == opposite(integer_bits(n + 1)),
        sum_bits(0, MINUS_ONE) == opposite(integer_bits(1)),
{
    lemma_pow2_values();
    let one = rounded(24, 1, 1);
    let k1 = lemma_kept_integer(24, 1);
    lemma_integer_range(24, 1);
    lemma_number_is_kept(one);
    vstd::arithmetic::power2::lemma2_to64();
    assert(number_of(ONE) == two_to(24, 0));
    assert(number_of(MINUS_ONE).m == -number_of(ONE).m);
    assert(one.m == pow2(k1) && one.e == -k1);
    if k1 > 23 {
        crate::float::lemma_pow2_mono(24, k1);
    }
    if k1 < 23 {
        crate::float::lemma_pow2_mono(k1, 22);
    }
    assert(one == two_to(24, 0));
    let next = rounded(24, (n + 1) as int, 1);
    lemma_integer_range(24, n + 1);
    lemma_number_is_kept(next);
    if n > 0 {
        let a = rounded(24, n as int, 1);
        let k = lemma_kept_integer(24, n);
        lemma_integer_range(24, n);
        lemma_number_is_kept(a);
        assert(k <= 23);
        law_opposite_is_negated(integer_bits(n));
        vstd::arithmetic::power2::lemma_pow2_adds(k, (23 - k) as nat);
        assert((n * pow2(k)) * pow2((23 - k) as nat) == n * pow2(23)) by (nonlinear_arith)
            requires
                pow2(23) == pow2(k) * pow2((23 - k) as nat),
        ;
        assert(aligned(a, -23) == n * pow2(23));
        assert(aligned(one, -23) == pow2(23)) by {
            assert(pow2(23) * 1 == pow2(23));
        }
        assert(n * pow2(23) + pow2(23) == (n + 1) * pow2(23)) by (nonlinear_arith);
        lemma_rounding_scales(24, n + 1, 23);
        let e = if a.e <= one.e {
            a.e
        } else {
            one.e
        };
        assert(e == -23);
        assert(sum(24, a, one) == next);
        let x = crate::float::negated(a);
        let y = crate::float::negated(one);
        assert(aligned(x, -23) == -(n * pow2(23))) by {
            assert((-(n * pow2(k))) * pow2((23 - k) as nat) == -((n * pow2(k)) * pow2(
                (23 - k) as nat,
            ))) by (nonlinear_arith);
        }
        assert(aligned(y, -23) == -pow2(23)) by {
            assert((-pow2(23)) * 1 == -pow2(23));
        }
        assert(sum(24, x, y) == crate::float::negated(next));
    }
}

/// Each bucket counts the trigrams whose hashes leave its number modulo 1024: up
/// where that is even, as the hashes then are, and down where it is odd. A text
/// that long that a single cannot count its trigrams is left out.
pub proof fn law_buckets_count_trigrams(s: Seq<char>, b: int)
    requires
        0 <= b < 1024,
        s.len() <= 0x100_0000,
    ensures
        ({
            let n = tally(trigram_count(s), |k: int| hash_at(s, k) % 1024 == b);
            trigram_counts(s)[b] == if b % 2 == 0 || n == 0 {
                integer_bits(n)
            } else {
                opposite(integer_bits(n))
            }
        }),
{
    let f = falls_into(s, b);
    lemma_tally_is(trigram_count(s), f, |k: int| hash_at(s, k) % 1024 == b);
    lemma_counted(s, b);
}

/// What a bucket holds after so many trigrams.
spec fn signed(n: nat, b: int) -> u32 {
    if b % 2 == 0 || n == 0 {
        integer_bits(n)
    } else {
        opposite(integer_bits(n))
    }
}

proof fn lemma_one_more_signed(n: nat, b: int)
    requires
        n < 0x100_0000,
    ensures
        sum_bits(
            signed(n, b),
            if b % 2 == 0 {
                ONE
            } else {
                MINUS_ONE
            },
        ) == signed(n + 1, b),
{
    lemma_one_more(n);
}

proof fn lemma_count_step(s: Seq<char>, b: int)
    requires
        0 <= b < 1024,
        s.len() >= 3,
    ensures
        trigram_counts(s)[b] == if hash_at(s, s.len() - 3) % 1024 == b {
            sum_bits(
                trigram_counts(s.drop_last())[b],
                if b % 2 == 0 {
                    ONE
                } else {
                    MINUS_ONE
                },
            )
        } else {
            trigram_counts(s.drop_last())[b]
        },
{
    lemma_counts_len(s.drop_last());
    lemma_last_hash(s);
    let h = hash_at(s, s.len() - 3);
    assert(h % 1024 == b ==> h % 2 == b % 2);
}

proof fn lemma_counted(s: Seq<char>, b: int)
    requires
        0 <= b < 1024,
        s.len() <= 0x100_0000,
    ensures
        trigram_counts(s)[b] == signed(tally(trigram_count(s), falls_into(s, b)), b),
    decreases s.len(),
{
    if s.len() >= 3 {
        let front = s.drop_last();
        lemma_counted(front, b);
        let n = trigram_count(front);
        lemma_counted_before(s, n, b);
        lemma_tally_bound(n, falls_into(front, b));
        lemma_count_step(s, b);
        let f = falls_into(s, b);
        assert(f(n as int) == (hash_at(s, n as int) % 1024 == b));
        if f(n as int) {
            lemma_one_more_signed(tally(n, falls_into(front, b)), b);
        }
    }
}

proof fn lemma_tally_is(n: nat, f: spec_fn(int) -> bool, g: spec_fn(int) -> bool)
    requires
        forall|i: int| 0 <= i < n ==> #[trigger] f(i) == g(i),
    ensures
        tally(n, f) == tally(n, g),
    decreases n,
{
    if n > 0 {
        lemma_tally_is((n - 1) as nat, f, g);
        assert(f(n - 1) == g(n - 1));
    }
}

proof fn lemma_tally_bound(n: nat, f: spec_fn(int) -> bool)
    ensures
        tally(n, f) <= n,
    decreases n,
{
    if n > 0 {
        lemma_tally_bound((n - 1) as nat, f);
    }
}

proof fn lemma_counts_len(s: Seq<char>)
    ensures
        trigram_counts(s).len() == 1024,
    decreases s.len(),
{
    if s.len() >= 3 {
        lemma_counts_len(s.drop_last());
    }
}

/// A bucket that no trigram of a text falls into counts nothing.
pub proof fn law_other_buckets_are_empty(s: Seq<char>, b: int)
    requires
        0 <= b < 1024,
        forall|k: int| 0 <= k < s.len() - 2 ==> #[trigger] hash_at(s, k) % 1024 != b,
    ensures
        trigram_counts(s)[b] == 0,
    decreases s.len(),
{
    if s.len() >= 3 {
        let front = s.drop_last();
        assert forall|k: int| 0 <= k < front.len() - 2 implies #[trigger] hash_at(front, k) % 1024
            != b by {
            assert(hash_at(front, k) == hash_at(s, k));
        }
        law_other_buckets_are_empty(front, b);
        lemma_counts_len(front);
        lemma_last_hash(s);
        assert(hash_at(s, s.len() - 3) % 1024 != b);
    }
}

/// Whether bits are those of a zero or of no number.
spec fn is_nothing(bits: u32) -> bool {
    is_zero(bits) || is_nan_bits(bits)
}

proof fn lemma_nothing_adds_up(a: Seq<u32>, b: Seq<u32>, n: int)
    requires
        0 <= n,
        forall|i: int| 0 <= i < n ==> is_zero(#[trigger] a[i]) || is_zero(b[i]),
    ensures
        is_nothing(products(NEGATIVE_ZERO, a, b, n)),
    decreases n,
{
    if n > 0 {
        lemma_nothing_adds_up(a, b, n - 1);
        let p = product_bits(a[n - 1], b[n - 1]);
        assert(is_zero(a[n - 1]) || is_zero(b[n - 1]));
        assert(is_nothing(p));
        let t = products(NEGATIVE_ZERO, a, b, n - 1);
        if is_zero(t) && is_zero(p) {
            assert(number_of(t).m == 0);
            assert(number_of(p).m == 0);
        }
    }
}

/// Texts none of whose trigrams have hashes that leave the same modulo 1024 are
/// not similar.
pub proof fn law_unlike_texts_are_not_similar(a: Seq<char>, b: Seq<char>)
    requires
        forall|i: int, j: int|
            0 <= i < kept(lowercase(a)).len() - 2 && 0 <= j < kept(lowercase(b)).len() - 2
                ==> #[trigger] hash_at(kept(lowercase(a)), i) % 1024 != #[trigger] hash_at(
                kept(lowercase(b)),
                j,
            ) % 1024,
    ensures
        similarity_bits(text_vector(a), text_vector(b)) == 0,
{
    let s = kept(lowercase(a));
    let t = kept(lowercase(b));
    let u = text_vector(a);
    let v = text_vector(b);
    lemma_counts_len(s);
    lemma_counts_len(t);
    assert forall|i: int| 0 <= i < 1024 implies is_zero(#[trigger] u[i]) || is_zero(v[i]) by {
        if forall|k: int| 0 <= k < s.len() - 2 ==> #[trigger] hash_at(s, k) % 1024 != i {
            law_other_buckets_are_empty(s, i);
            lemma_zero_stays(trigram_counts(s), i);
        } else {
            let k = choose|k: int| 0 <= k < s.len() - 2 && #[trigger] hash_at(s, k) % 1024 == i;
            assert forall|j: int| 0 <= j < t.len() - 2 implies #[trigger] hash_at(t, j) % 1024
                != i by {
                assert(hash_at(s, k) % 1024 != hash_at(t, j) % 1024);
            }
            law_other_buckets_are_empty(t, i);
            lemma_zero_stays(trigram_counts(t), i);
        }
    }
    lemma_nothing_adds_up(u, v, 1024);
}

proof fn lemma_zero_stays(v: Seq<u32>, i: int)
    requires
        0 <= i < v.len(),
        v[i] == 0,
    ensures
        is_zero(unit_vector(v)[i]),
{
}

/// What is kept of a text are its letters, numbers and white space, in their order.
pub proof fn law_letters_numbers_and_space_are_kept(s: Seq<char>)
    ensures
        kept(s) == s.filter(|c: char| alphanumeric(c) || is_whitespace(c)),
    decreases s.len(),
{
    reveal(Seq::filter);
    if s.len() > 0 {
        law_letters_numbers_and_space_are_kept(s.drop_last());
    } else {
        assert(kept(s) =~= s.filter(|c: char| alphanumeric(c) || is_whitespace(c)));
    }
}

/// The vector of a text holds the count of each bucket, divided by the length of all
/// counts: the root of the sum of their squares. Without trigrams it holds zeros.
pub proof fn law_vector_is_the_counts_over_their_length(text: Seq<char>, b: int)
    requires
        0 <= b < 1024,
    ensures
        ({
            let counts = trigram_counts(kept(lowercase(text)));
            let long = root_bits(products(0x8000_0000, counts, counts, 1024));
            &&& text_vector(text).len() == 1024
            &&& less_bits(0, long) ==> text_vector(text)[b] == quotient_bits(counts[b], long)
            &&& !less_bits(0, long) ==> text_vector(text)[b] == counts[b]
        }),
{
    lemma_counts_len(kept(lowercase(text)));
}

/// The similarity of two vectors is their product, the sum of the products of their
/// components, where that is greater than zero, and zero where it is not. It does
/// not depend on which is which.
pub proof fn law_similarity_is_the_product(a: Seq<u32>, b: Seq<u32>)
    requires
        a.len() == 1024,
        b.len() == 1024,
    ensures
        less_bits(0, products(0x8000_0000, a, b, 1024)) ==> similarity_bits(a, b) == products(
            0x8000_0000,
            a,
            b,
            1024,
        ),
        !less_bits(0, products(0x8000_0000, a, b, 1024)) ==> similarity_bits(a, b) == 0,
        similarity_bits(a, b) == similarity_bits(b, a),
{
    lemma_products_symmetric(a, b, 1024);
}

proof fn lemma_products_symmetric(a: Seq<u32>, b: Seq<u32>, n: int)
    ensures
        products(NEGATIVE_ZERO, a, b, n) == products(NEGATIVE_ZERO, b, a, n),
    decreases n,
{
    if n > 0 {
        lemma_products_symmetric(a, b, n - 1);
        law_order_does_not_matter(a[n - 1], b[n - 1]);
    }
}

/// One more component of two vectors adds its product to theirs, and none add up to
/// zero.
pub proof fn law_products_add_up(a: Seq<u32>, b: Seq<u32>, n: int)
    requires
        0 <= n,
    ensures
        products(0x8000_0000, a, b, 0) == 0x8000_0000,
        products(0x8000_0000, a, b, n + 1) == sum_bits(
            products(0x8000_0000, a, b, n),
            product_bits(a[n], b[n]),
        ),
{
}

} // verus!
