//! Text as a sequence of characters: classes of characters, trimming, byte
//! offsets, order and decimal numbers.

use vstd::prelude::*;
use vstd::string::StringExecFns;
use vstd::utf8::{encode_scalar, encode_utf8};

verus! {

/// A letter from A to Z as the small letter, every other character as it is.
pub open spec fn ascii_lower(c: char) -> char {
    if 'A' <= c <= 'Z' {
        (c as u32 + 32) as char
    } else {
        c
    }
}

pub open spec fn ascii_lowercase(s: Seq<char>) -> Seq<char> {
    s.map_values(|c: char| ascii_lower(c))
}

/// The characters with Unicode's `White_Space` property.
pub open spec fn is_whitespace(c: char) -> bool {
    let v = c as u32;
    ||| 0x09 <= v <= 0x0d
    ||| v == 0x20
    ||| v == 0x85
    ||| v == 0xa0
    ||| v == 0x1680
    ||| 0x2000 <= v <= 0x200a
    ||| v == 0x2028
    ||| v == 0x2029
    ||| v == 0x202f
    ||| v == 0x205f
    ||| v == 0x3000
}

/// The characters of Unicode's general category `Cc`.
pub open spec fn is_control(c: char) -> bool {
    let v = c as u32;
    v <= 0x1f || 0x7f <= v <= 0x9f
}

pub fn char_is_whitespace(c: char) -> (r: bool)
    ensures
        r == is_whitespace(c),
{
    let v: u32 = c as u32;
    (0x09 <= v && v <= 0x0d) || v == 0x20 || v == 0x85 || v == 0xa0 || v == 0x1680 || (0x2000 <= v
        && v <= 0x200a) || v == 0x2028 || v == 0x2029 || v == 0x202f || v == 0x205f || v == 0x3000
}

pub fn char_is_control(c: char) -> (r: bool)
    ensures
        r == is_control(c),
{
    let v: u32 = c as u32;
    v <= 0x1f || (0x7f <= v && v <= 0x9f)
}

/// `String::push` appends one character.
pub assume_specification[ String::push ](s: &mut String, c: char)
    ensures
        final(s)@ == old(s)@.push(c),
;

/// The characters of a text, in order.
pub fn chars_of(s: &str) -> (r: Vec<char>)
    ensures
        r@ == s@,
{
    let mut out: Vec<char> = Vec::new();
    for c in it: s.chars()
        invariant
            it.seq() == s@,
            out@ =~= s@.take(it.index() as int),
    {
        out.push(c);
    }
    assert(s@.take(s@.len() as int) =~= s@);
    out
}

/// The text made of the characters from `start` up to `end`.
pub fn string_of(chars: &Vec<char>, start: usize, end: usize) -> (r: String)
    requires
        start <= end <= chars@.len(),
    ensures
        r@ == chars@.subrange(start as int, end as int),
{
    let mut out: String = String::new();
    let mut i: usize = start;
    while i < end
        invariant
            start <= i <= end <= chars@.len(),
            out@ =~= chars@.subrange(start as int, i as int),
        decreases end - i,
    {
        out.push(chars[i]);
        i += 1;
    }
    out
}

/// The number of bytes of a character in UTF-8.
pub open spec fn utf8_len(c: char) -> nat {
    let v = c as u32;
    if v <= 0x7f {
        1
    } else if v <= 0x7ff {
        2
    } else if v <= 0xffff {
        3
    } else {
        4
    }
}

/// The byte at which character `i` of `s` starts: the bytes of all before it.
pub open spec fn byte_off(s: Seq<char>, i: int) -> nat
    decreases i,
{
    if i <= 0 {
        0
    } else {
        byte_off(s, i - 1) + utf8_len(s[i - 1])
    }
}

/// The length of a text in bytes.
pub open spec fn byte_len(s: Seq<char>) -> nat {
    byte_off(s, s.len() as int)
}

pub proof fn lemma_byte_off_mono(s: Seq<char>, i: int, j: int)
    requires
        0 <= i <= j,
    ensures
        byte_off(s, i) + (j - i) <= byte_off(s, j) <= byte_off(s, i) + 4 * (j - i),
    decreases j - i,
{
    if i < j {
        lemma_byte_off_mono(s, i, j - 1);
    }
}

pub proof fn lemma_byte_off_subrange(s: Seq<char>, a: int, b: int, i: int)
    requires
        0 <= a <= b <= s.len(),
        0 <= i <= b - a,
    ensures
        byte_off(s.subrange(a, b), i) == byte_off(s, a + i) - byte_off(s, a),
    decreases i,
{
    if i > 0 {
        lemma_byte_off_subrange(s, a, b, i - 1);
    }
}

/// Two texts that agree on their first `i` characters agree on the offset.
pub proof fn lemma_byte_off_prefix(s: Seq<char>, t: Seq<char>, i: int)
    requires
        0 <= i <= s.len(),
        i <= t.len(),
        forall|k: int| 0 <= k < i ==> s[k] == t[k],
    ensures
        byte_off(s, i) == byte_off(t, i),
    decreases i,
{
    if i > 0 {
        lemma_byte_off_prefix(s, t, i - 1);
    }
}

pub proof fn lemma_byte_len_concat(a: Seq<char>, b: Seq<char>)
    ensures
        byte_len(a + b) == byte_len(a) + byte_len(b),
{
    let t = a + b;
    lemma_byte_off_prefix(a, t, a.len() as int);
    lemma_byte_off_subrange(t, a.len() as int, t.len() as int, b.len() as int);
    assert(t.subrange(a.len() as int, t.len() as int) =~= b);
}

proof fn lemma_encode_scalar_len(c: char)
    ensures
        encode_scalar(c as u32).len() == utf8_len(c),
{
}

/// UTF-8 encodes a concatenation as the concatenation of the encodings.
pub proof fn lemma_encode_concat(a: Seq<char>, b: Seq<char>)
    ensures
        encode_utf8(a + b) == encode_utf8(a) + encode_utf8(b),
    decreases a.len(),
{
    if a.len() == 0 {
        assert(a + b =~= b);
        assert(encode_utf8(a) + encode_utf8(b) =~= encode_utf8(b));
    } else {
        lemma_encode_concat(a.drop_first(), b);
        assert((a + b).drop_first() =~= a.drop_first() + b);
        assert(encode_utf8(a + b) =~= encode_utf8(a) + encode_utf8(b));
    }
}

/// `byte_len` is the length of the UTF-8 encoding.
pub proof fn lemma_byte_len_is_encoded_len(s: Seq<char>)
    ensures
        byte_len(s) == encode_utf8(s).len(),
    decreases s.len(),
{
    if s.len() > 0 {
        let front = s.drop_last();
        let tail = seq![s.last()];
        assert(front + tail =~= s);
        lemma_byte_len_is_encoded_len(front);
        lemma_byte_off_prefix(s, front, front.len() as int);
        lemma_encode_concat(front, tail);
        lemma_encode_scalar_len(s.last());
        assert(tail.drop_first() =~= Seq::<char>::empty());
        assert(encode_utf8(tail) =~= encode_scalar(s.last() as u32)) by {
            reveal_with_fuel(encode_utf8, 2);
        }
    }
}

/// The bytes of a part of a text are the part of its bytes between the two
/// offsets.
pub proof fn lemma_encoded_subrange(s: Seq<char>, a: int, b: int)
    requires
        0 <= a <= b <= s.len(),
    ensures
        byte_off(s, a) <= byte_off(s, b) <= encode_utf8(s).len(),
        encode_utf8(s.subrange(a, b)) == encode_utf8(s).subrange(
            byte_off(s, a) as int,
            byte_off(s, b) as int,
        ),
{
    let x = s.subrange(0, a);
    let y = s.subrange(a, b);
    let z = s.subrange(b, s.len() as int);
    assert(x + y + z =~= s);
    lemma_encode_concat(x + y, z);
    lemma_encode_concat(x, y);
    lemma_byte_len_is_encoded_len(x);
    lemma_byte_len_is_encoded_len(y);
    lemma_byte_len_is_encoded_len(s);
    lemma_byte_off_prefix(s, x, a);
    lemma_byte_off_subrange(s, a, b, b - a);
    lemma_byte_off_mono(s, a, b);
    lemma_byte_off_mono(s, b, s.len() as int);
    assert(encode_utf8(y) =~= encode_utf8(s).subrange(
        byte_off(s, a) as int,
        byte_off(s, b) as int,
    ));
}

pub fn char_utf8_len(c: char) -> (r: usize)
    ensures
        r == utf8_len(c),
{
    let v: u32 = c as u32;
    if v <= 0x7f {
        1
    } else if v <= 0x7ff {
        2
    } else if v <= 0xffff {
        3
    } else {
        4
    }
}

/// The length of a text in bytes.
pub fn str_byte_len(s: &str) -> (r: usize)
    ensures
        r == byte_len(s@),
{
    proof {
        lemma_byte_len_is_encoded_len(s@);
    }
    s.as_bytes().len()
}

/// The byte at which each character starts, and the length at the end.
pub fn char_offsets(s: &str, chars: &Vec<char>) -> (r: Vec<usize>)
    requires
        chars@ == s@,
    ensures
        r@.len() == s@.len() + 1,
        forall|i: int| 0 <= i <= s@.len() ==> #[trigger] r@[i] == byte_off(s@, i),
{
    let total: usize = str_byte_len(s);
    let mut out: Vec<usize> = Vec::new();
    let mut at: usize = 0;
    out.push(0);
    let mut i: usize = 0;
    while i < chars.len()
        invariant
            chars@ == s@,
            0 <= i <= chars@.len(),
            at == byte_off(s@, i as int),
            total == byte_len(s@),
            out@.len() == i + 1,
            forall|k: int| 0 <= k <= i ==> #[trigger] out@[k] == byte_off(s@, k),
        decreases chars@.len() - i,
    {
        proof {
            lemma_byte_off_mono(s@, i + 1, s@.len() as int);
        }
        at += char_utf8_len(chars[i]);
        out.push(at);
        i += 1;
    }
    out
}

/// The first index from `a` on, below `b`, that is no white space, else `b`.
pub open spec fn first_text(s: Seq<char>, a: int, b: int) -> int
    decreases b - a,
{
    if a >= b || !is_whitespace(s[a]) {
        a
    } else {
        first_text(s, a + 1, b)
    }
}

/// The end of `s[a..b]` without its trailing white space.
pub open spec fn last_text(s: Seq<char>, a: int, b: int) -> int
    decreases b - a,
{
    if a >= b || !is_whitespace(s[b - 1]) {
        b
    } else {
        last_text(s, a, b - 1)
    }
}

pub proof fn lemma_first_text(s: Seq<char>, a: int, b: int)
    requires
        0 <= a <= b <= s.len(),
    ensures
        a <= first_text(s, a, b) <= b,
        forall|k: int| a <= k < first_text(s, a, b) ==> is_whitespace(#[trigger] s[k]),
        first_text(s, a, b) < b ==> !is_whitespace(s[first_text(s, a, b)]),
    decreases b - a,
{
    if a < b && is_whitespace(s[a]) {
        lemma_first_text(s, a + 1, b);
    }
}

pub proof fn lemma_last_text(s: Seq<char>, a: int, b: int)
    requires
        0 <= a <= b <= s.len(),
    ensures
        a <= last_text(s, a, b) <= b,
        forall|k: int| last_text(s, a, b) <= k < b ==> is_whitespace(#[trigger] s[k]),
        a < last_text(s, a, b) ==> !is_whitespace(s[last_text(s, a, b) - 1]),
    decreases b - a,
{
    if a < b && is_whitespace(s[b - 1]) {
        lemma_last_text(s, a, b - 1);
    }
}

/// A text without its leading and trailing white space.
pub open spec fn trim(s: Seq<char>) -> Seq<char> {
    let lo = first_text(s, 0, s.len() as int);
    s.subrange(lo, last_text(s, lo, s.len() as int))
}

/// Trimming takes the white space at both ends off a text, and nothing else.
pub proof fn law_trim_takes_white_space_off(before: Seq<char>, t: Seq<char>, after: Seq<char>)
    requires
        forall|i: int| 0 <= i < before.len() ==> is_whitespace(#[trigger] before[i]),
        forall|i: int| 0 <= i < after.len() ==> is_whitespace(#[trigger] after[i]),
        t.len() > 0 ==> !is_whitespace(t[0]) && !is_whitespace(t.last()),
    ensures
        trim(before + t + after) == t,
{
    let s = before + t + after;
    let n = s.len() as int;
    let lo = first_text(s, 0, n);
    lemma_first_text(s, 0, n);
    lemma_last_text(s, lo, n);
    let hi = last_text(s, lo, n);
    if t.len() > 0 {
        let a = before.len() as int;
        let b = a + t.len();
        assert(s[a] == t[0]);
        assert(s[b - 1] == t.last());
        if lo < a {
            assert(s[lo] == before[lo]);
        }
        assert(lo == a);
        if hi > b {
            assert(s[hi - 1] == after[hi - 1 - b]);
        }
        assert(hi == b);
        assert(s.subrange(a, b) =~= t);
    } else {
        if lo < n {
            if lo < before.len() {
                assert(s[lo] == before[lo]);
            } else {
                assert(s[lo] == after[lo - before.len()]);
            }
        }
        assert(trim(s) =~= t);
    }
}

/// The bounds of `chars[start..end]` without white space at its ends.
pub fn trim_range(chars: &Vec<char>, start: usize, end: usize) -> (r: (usize, usize))
    requires
        start <= end <= chars@.len(),
    ensures
        start <= r.0 <= r.1 <= end,
        r.0 == first_text(chars@, start as int, end as int),
        r.1 == last_text(chars@, r.0 as int, end as int),
{
    let mut lo: usize = start;
    while lo < end && char_is_whitespace(chars[lo])
        invariant
            start <= lo <= end <= chars@.len(),
            first_text(chars@, start as int, end as int) == first_text(
                chars@,
                lo as int,
                end as int,
            ),
        decreases end - lo,
    {
        lo += 1;
    }
    let mut hi: usize = end;
    while hi > lo && char_is_whitespace(chars[hi - 1])
        invariant
            lo <= hi <= end <= chars@.len(),
            last_text(chars@, lo as int, end as int) == last_text(chars@, lo as int, hi as int),
        decreases hi - lo,
    {
        hi -= 1;
    }
    (lo, hi)
}

/// The trimmed text.
pub fn trim_string(s: &str) -> (r: String)
    ensures
        r@ == trim(s@),
{
    let chars: Vec<char> = chars_of(s);
    let (lo, hi) = trim_range(&chars, 0, chars.len());
    string_of(&chars, lo, hi)
}

/// Whether the text holds a character.
pub fn contains_char(s: &str, c: char) -> (r: bool)
    ensures
        r == s@.contains(c),
{
    let chars: Vec<char> = chars_of(s);
    let mut i: usize = 0;
    while i < chars.len()
        invariant
            chars@ == s@,
            i <= chars@.len(),
            forall|k: int| 0 <= k < i ==> chars@[k] != c,
        decreases chars@.len() - i,
    {
        if chars[i] == c {
            assert(s@[i as int] == c);
            return true;
        }
        i += 1;
    }
    false
}

/// Whether any character is a control character.
pub open spec fn has_control(s: Seq<char>) -> bool {
    exists|i: int| 0 <= i < s.len() && is_control(#[trigger] s[i])
}

pub fn contains_control(s: &str) -> (r: bool)
    ensures
        r == has_control(s@),
{
    let chars: Vec<char> = chars_of(s);
    let mut i: usize = 0;
    while i < chars.len()
        invariant
            chars@ == s@,
            i <= chars@.len(),
            forall|k: int| 0 <= k < i ==> !is_control(#[trigger] chars@[k]),
        decreases chars@.len() - i,
    {
        if char_is_control(chars[i]) {
            assert(is_control(s@[i as int]));
            return true;
        }
        i += 1;
    }
    false
}

/// Equality of two texts.
pub fn text_eq(a: &str, b: &str) -> (r: bool)
    ensures
        r == (a@ == b@),
{
    let x: Vec<char> = chars_of(a);
    let y: Vec<char> = chars_of(b);
    if x.len() != y.len() {
        return false;
    }
    let mut i: usize = 0;
    while i < x.len()
        invariant
            x@ == a@,
            y@ == b@,
            x@.len() == y@.len(),
            i <= x@.len(),
            forall|k: int| 0 <= k < i ==> x@[k] == y@[k],
        decreases x@.len() - i,
    {
        if x[i] != y[i] {
            assert(a@[i as int] != b@[i as int]);
            return false;
        }
        i += 1;
    }
    assert(x@ =~= y@);
    true
}

/// Code points compared from the first character on; a prefix comes first.
pub open spec fn text_lt(a: Seq<char>, b: Seq<char>) -> bool
    decreases a.len(),
{
    if b.len() == 0 {
        false
    } else if a.len() == 0 {
        true
    } else if a[0] != b[0] {
        a[0] < b[0]
    } else {
        text_lt(a.drop_first(), b.drop_first())
    }
}

pub proof fn lemma_text_lt_irreflexive(a: Seq<char>)
    ensures
        !text_lt(a, a),
    decreases a.len(),
{
    if a.len() > 0 {
        lemma_text_lt_irreflexive(a.drop_first());
    }
}

pub proof fn lemma_text_lt_transitive(a: Seq<char>, b: Seq<char>, c: Seq<char>)
    requires
        text_lt(a, b),
        text_lt(b, c),
    ensures
        text_lt(a, c),
    decreases a.len(),
{
    if a.len() > 0 && a[0] == b[0] && b[0] == c[0] {
        lemma_text_lt_transitive(a.drop_first(), b.drop_first(), c.drop_first());
    }
}

pub proof fn lemma_text_lt_total(a: Seq<char>, b: Seq<char>)
    ensures
        a == b || text_lt(a, b) || text_lt(b, a),
    decreases a.len(),
{
    if a.len() == 0 || b.len() == 0 {
        if a.len() == b.len() {
            assert(a =~= b);
        }
    } else if a[0] == b[0] {
        lemma_text_lt_total(a.drop_first(), b.drop_first());
        if a.drop_first() == b.drop_first() {
            assert(a =~= seq![a[0]] + a.drop_first());
            assert(b =~= seq![b[0]] + b.drop_first());
            assert(a =~= b);
        }
    }
}

/// How one text stands to another in the order of `text_lt`.
#[derive(Clone, Copy, Debug, PartialEq, Eq, Structural)]
pub enum TextOrder {
    Before,
    Same,
    After,
}

pub fn order_text(a: &str, b: &str) -> (r: TextOrder)
    ensures
        r == TextOrder::Before <==> text_lt(a@, b@),
        r == TextOrder::Same <==> a@ == b@,
        r == TextOrder::After <==> text_lt(b@, a@),
{
    let x: Vec<char> = chars_of(a);
    let y: Vec<char> = chars_of(b);
    let mut i: usize = 0;
    proof {
        assert(a@.skip(0) =~= a@);
        assert(b@.skip(0) =~= b@);
        lemma_text_lt_irreflexive(a@);
        lemma_text_lt_total(a@, b@);
        if text_lt(a@, b@) && text_lt(b@, a@) {
            lemma_text_lt_transitive(a@, b@, a@);
        }
    }
    while i < x.len() && i < y.len()
        invariant
            x@ == a@,
            y@ == b@,
            i <= x@.len(),
            i <= y@.len(),
            a@.take(i as int) =~= b@.take(i as int),
            text_lt(a@, b@) == text_lt(a@.skip(i as int), b@.skip(i as int)),
            text_lt(b@, a@) == text_lt(b@.skip(i as int), a@.skip(i as int)),
            a@ == b@ || text_lt(a@, b@) || text_lt(b@, a@),
            !(text_lt(a@, b@) && text_lt(b@, a@)),
            a@ == b@ ==> !text_lt(a@, b@) && !text_lt(b@, a@),
        decreases x@.len() - i,
    {
        assert(a@.skip(i as int).drop_first() =~= a@.skip(i + 1));
        assert(b@.skip(i as int).drop_first() =~= b@.skip(i + 1));
        let p: char = x[i];
        let q: char = y[i];
        if p < q {
            return TextOrder::Before;
        }
        if q < p {
            return TextOrder::After;
        }
        i += 1;
    }
    if i < y.len() {
        TextOrder::Before
    } else if i < x.len() {
        TextOrder::After
    } else {
        assert(a@ =~= b@);
        TextOrder::Same
    }
}

/// The digit of a number below ten.
pub open spec fn digit(d: nat) -> char {
    (48 + d) as char
}

/// A number in decimal, without leading zeros.
pub open spec fn decimal(n: nat) -> Seq<char>
    decreases n,
{
    if n < 10 {
        seq![digit(n)]
    } else {
        decimal(n / 10).push(digit(n % 10))
    }
}

/// Different numbers have different decimals.
pub proof fn lemma_decimal_injective(m: nat, n: nat)
    requires
        decimal(m) == decimal(n),
    ensures
        m == n,
    decreases m,
{
    lemma_decimal_nonempty(m / 10);
    lemma_decimal_nonempty(n / 10);
    if m < 10 && n < 10 {
        assert(decimal(m)[0] == digit(m));
        assert(decimal(n)[0] == digit(n));
    } else if m >= 10 && n >= 10 {
        assert(decimal(m).last() == digit(m % 10));
        assert(decimal(n).last() == digit(n % 10));
        assert(decimal(m).drop_last() =~= decimal(m / 10));
        assert(decimal(n).drop_last() =~= decimal(n / 10));
        lemma_decimal_injective(m / 10, n / 10);
    }
}

pub proof fn lemma_decimal_nonempty(n: nat)
    ensures
        decimal(n).len() >= 1,
{
}

/// The decimal text of a number.
pub fn decimal_string(n: u64) -> (r: String)
    ensures
        r@ == decimal(n as nat),
    decreases n,
{
    if n < 10 {
        let mut out: String = String::new();
        let d: u8 = n as u8;
        out.push((48 + d) as char);
        assert(out@ =~= decimal(n as nat));
        out
    } else {
        let mut out: String = decimal_string(n / 10);
        let d: u8 = (n % 10) as u8;
        out.push((48 + d) as char);
        out
    }
}

/// Two texts, one after the other.
pub fn concat2(a: &str, b: &str) -> (r: String)
    ensures
        r@ == a@ + b@,
{
    let mut out: String = a.to_owned();
    out.append(b);
    out
}

/// The characters of an optional text.
pub open spec fn opt_text(s: Option<String>) -> Option<Seq<char>> {
    match s {
        Some(t) => Some(t@),
        None => None,
    }
}

pub fn clone_opt_text(s: &Option<String>) -> (r: Option<String>)
    ensures
        opt_text(r) == opt_text(*s),
{
    match s {
        Some(t) => Some(t.clone()),
        None => None,
    }
}

} // verus!
