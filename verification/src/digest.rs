//! Domain-separated, length-framed SHA-256 digests and their textual form.

use sha2::{Digest, Sha256};
use vstd::prelude::*;
use vstd::string::StringExecFns;
use vstd::utf8::encode_utf8;

use crate::text::{byte_len, chars_of, lemma_byte_len_is_encoded_len, lemma_byte_off_mono};

verus! {

/// The SHA-256 hash of a message: what `sha2::Sha256::digest` computes.
pub uninterp spec fn sha256(message: Seq<u8>) -> Seq<u8>;

/// `sha2::Sha256::digest` hashes the whole message in one go. Its output is a
/// function of the message alone and always 32 bytes long; which bytes, is
/// left to the name `sha256`.
#[verifier::external_body]
fn sha256_bytes(message: &[u8]) -> (r: Vec<u8>)
    ensures
        r@ == sha256(message@),
        r@.len() == 32,
{
    Sha256::digest(message).to_vec()
}

/// The last `k` bytes of a number, most significant first.
pub open spec fn be_bytes(n: nat, k: nat) -> Seq<u8>
    decreases k,
{
    if k == 0 {
        Seq::empty()
    } else {
        be_bytes(n / 256, (k - 1) as nat).push((n % 256) as u8)
    }
}

/// A field with its length in bytes, as 8 bytes, in front of it.
pub open spec fn framed(field: Seq<u8>) -> Seq<u8> {
    be_bytes(field.len(), 8) + field
}

/// The framed UTF-8 fields, one after the other.
pub open spec fn frames(fields: Seq<Seq<char>>) -> Seq<u8>
    decreases fields.len(),
{
    if fields.len() == 0 {
        Seq::empty()
    } else {
        framed(encode_utf8(fields[0])) + frames(fields.drop_first())
    }
}

/// The message that is hashed for a domain and its fields.
pub open spec fn message(domain: Seq<char>, fields: Seq<Seq<char>>) -> Seq<u8> {
    encode_utf8("epistemos-free-semantic\0"@) + framed(encode_utf8(domain)) + frames(fields)
}

/// A hexadecimal digit in lower case.
pub open spec fn hex_digit(d: int) -> char {
    if d < 10 {
        (48 + d) as char
    } else {
        (87 + d) as char
    }
}

/// Two hexadecimal digits for each byte.
pub open spec fn hex(bytes: Seq<u8>) -> Seq<char>
    decreases bytes.len(),
{
    if bytes.len() == 0 {
        Seq::empty()
    } else {
        hex(bytes.drop_last()).push(hex_digit(bytes.last() as int / 16)).push(
            hex_digit(bytes.last() as int % 16),
        )
    }
}

/// The digest of a domain and its fields: `sha256:` and the hash in
/// hexadecimal.
pub open spec fn digest(domain: Seq<char>, fields: Seq<Seq<char>>) -> Seq<char> {
    "sha256:"@ + hex(sha256(message(domain, fields)))
}

pub open spec fn is_lower_hex(c: char) -> bool {
    '0' <= c <= '9' || 'a' <= c <= 'f'
}

/// The texts that have the form of a digest.
pub open spec fn is_digest(s: Seq<char>) -> bool {
    &&& s.len() == 71
    &&& s.take(7) == "sha256:"@
    &&& forall|i: int| 7 <= i < 71 ==> is_lower_hex(#[trigger] s[i])
}

/// The characters of each text.
pub open spec fn texts(fields: Seq<&str>) -> Seq<Seq<char>> {
    fields.map_values(|f: &str| f@)
}

proof fn lemma_be_bytes_len(n: nat, k: nat)
    ensures
        be_bytes(n, k).len() == k,
    decreases k,
{
    if k > 0 {
        lemma_be_bytes_len(n / 256, (k - 1) as nat);
    }
}

/// Numbers that agree on their last `k` bytes agree modulo `256^k`.
proof fn lemma_be_bytes_injective(m: nat, n: nat, k: nat)
    requires
        be_bytes(m, k) == be_bytes(n, k),
        m < vstd::arithmetic::power::pow(256, k),
        n < vstd::arithmetic::power::pow(256, k),
    ensures
        m == n,
    decreases k,
{
    reveal(vstd::arithmetic::power::pow);
    if k > 0 {
        let j = (k - 1) as nat;
        lemma_be_bytes_len(m / 256, j);
        lemma_be_bytes_len(n / 256, j);
        assert(be_bytes(m, k).last() == (m % 256) as u8);
        assert(be_bytes(n, k).last() == (n % 256) as u8);
        assert(be_bytes(m, k).drop_last() =~= be_bytes(m / 256, j));
        assert(be_bytes(n, k).drop_last() =~= be_bytes(n / 256, j));
        lemma_be_bytes_injective(m / 256, n / 256, j);
    }
}

proof fn lemma_frames_push(fields: Seq<Seq<char>>, last: Seq<char>)
    ensures
        frames(fields.push(last)) == frames(fields) + framed(encode_utf8(last)),
    decreases fields.len(),
{
    if fields.len() == 0 {
        assert(fields.push(last).drop_first() =~= Seq::<Seq<char>>::empty());
        assert(frames(fields.push(last)) =~= frames(fields) + framed(encode_utf8(last))) by {
            reveal_with_fuel(frames, 2);
        }
    } else {
        lemma_frames_push(fields.drop_first(), last);
        assert(fields.push(last).drop_first() =~= fields.drop_first().push(last));
        assert(frames(fields.push(last)) =~= frames(fields) + framed(encode_utf8(last)));
    }
}

/// A framed field can be read back from the front of a longer message.
proof fn lemma_framed_prefix(x: Seq<u8>, y: Seq<u8>, p: Seq<u8>, q: Seq<u8>)
    requires
        framed(x) + p == framed(y) + q,
        x.len() <= u64::MAX,
        y.len() <= u64::MAX,
    ensures
        x == y,
        p == q,
{
    let lhs = framed(x) + p;
    let rhs = framed(y) + q;
    lemma_be_bytes_len(x.len(), 8);
    lemma_be_bytes_len(y.len(), 8);
    assert(lhs.take(8) =~= be_bytes(x.len(), 8));
    assert(rhs.take(8) =~= be_bytes(y.len(), 8));
    assert(vstd::arithmetic::power::pow(256, 8) == 0x1_0000_0000_0000_0000) by {
        reveal_with_fuel(vstd::arithmetic::power::pow, 9);
    }
    lemma_be_bytes_injective(x.len(), y.len(), 8);
    assert(lhs.subrange(8, 8 + x.len() as int) =~= x);
    assert(rhs.subrange(8, 8 + x.len() as int) =~= y);
    assert(lhs.skip(8 + x.len() as int) =~= p);
    assert(rhs.skip(8 + x.len() as int) =~= q);
}

proof fn lemma_encode_injective(a: Seq<char>, b: Seq<char>)
    requires
        encode_utf8(a) == encode_utf8(b),
    ensures
        a == b,
{
    vstd::utf8::encode_utf8_decode_utf8(a);
    vstd::utf8::encode_utf8_decode_utf8(b);
}

proof fn lemma_frames_injective(a: Seq<Seq<char>>, b: Seq<Seq<char>>)
    requires
        frames(a) == frames(b),
        forall|i: int| 0 <= i < a.len() ==> encode_utf8(#[trigger] a[i]).len() <= u64::MAX,
        forall|i: int| 0 <= i < b.len() ==> encode_utf8(#[trigger] b[i]).len() <= u64::MAX,
    ensures
        a == b,
    decreases a.len(),
{
    if a.len() == 0 || b.len() == 0 {
        if a.len() > 0 {
            lemma_be_bytes_len(encode_utf8(a[0]).len(), 8);
            assert(frames(a).len() >= 8);
        }
        if b.len() > 0 {
            lemma_be_bytes_len(encode_utf8(b[0]).len(), 8);
            assert(frames(b).len() >= 8);
        }
        assert(a =~= b);
    } else {
        lemma_framed_prefix(
            encode_utf8(a[0]),
            encode_utf8(b[0]),
            frames(a.drop_first()),
            frames(b.drop_first()),
        );
        lemma_encode_injective(a[0], b[0]);
        lemma_frames_injective(a.drop_first(), b.drop_first());
        assert(a =~= seq![a[0]] + a.drop_first());
        assert(b =~= seq![b[0]] + b.drop_first());
        assert(a =~= b);
    }
}

/// Domain separation and length framing leave no ambiguous concatenation: two
/// requests for a digest hash the same message only if they have the same
/// domain and the same fields.
pub proof fn law_framing_is_unambiguous(
    domain1: Seq<char>,
    fields1: Seq<Seq<char>>,
    domain2: Seq<char>,
    fields2: Seq<Seq<char>>,
)
    requires
        message(domain1, fields1) == message(domain2, fields2),
        encode_utf8(domain1).len() <= u64::MAX,
        encode_utf8(domain2).len() <= u64::MAX,
        forall|i: int| 0 <= i < fields1.len() ==> encode_utf8(#[trigger] fields1[i]).len() <= u64::MAX,
        forall|i: int| 0 <= i < fields2.len() ==> encode_utf8(#[trigger] fields2[i]).len() <= u64::MAX,
    ensures
        domain1 == domain2,
        fields1 == fields2,
{
    let tag = encode_utf8("epistemos-free-semantic\0"@);
    let x = message(domain1, fields1);
    let y = message(domain2, fields2);
    assert(x.skip(tag.len() as int) =~= framed(encode_utf8(domain1)) + frames(fields1));
    assert(y.skip(tag.len() as int) =~= framed(encode_utf8(domain2)) + frames(fields2));
    lemma_framed_prefix(
        encode_utf8(domain1),
        encode_utf8(domain2),
        frames(fields1),
        frames(fields2),
    );
    lemma_encode_injective(domain1, domain2);
    lemma_frames_injective(fields1, fields2);
}

proof fn lemma_hex_form(bytes: Seq<u8>)
    ensures
        hex(bytes).len() == 2 * bytes.len(),
        forall|i: int| 0 <= i < hex(bytes).len() ==> is_lower_hex(#[trigger] hex(bytes)[i]),
    decreases bytes.len(),
{
    if bytes.len() > 0 {
        lemma_hex_form(bytes.drop_last());
        let b = bytes.last() as int;
        assert(is_lower_hex(hex_digit(b / 16)));
        assert(is_lower_hex(hex_digit(b % 16)));
    }
}

/// Equal hexadecimal texts come from equal bytes.
proof fn lemma_hex_injective(a: Seq<u8>, b: Seq<u8>)
    requires
        hex(a) == hex(b),
    ensures
        a == b,
    decreases a.len(),
{
    lemma_hex_form(a);
    lemma_hex_form(b);
    if a.len() > 0 {
        let x = a.last() as int;
        let y = b.last() as int;
        lemma_hex_form(a.drop_last());
        lemma_hex_form(b.drop_last());
        let n = hex(a).len() as int;
        assert(hex(a)[n - 1] == hex_digit(x % 16));
        assert(hex(b)[n - 1] == hex_digit(y % 16));
        assert(hex(a)[n - 2] == hex_digit(x / 16));
        assert(hex(b)[n - 2] == hex_digit(y / 16));
        assert(hex(a).take(n - 2) =~= hex(a.drop_last()));
        assert(hex(b).take(n - 2) =~= hex(b.drop_last()));
        lemma_hex_injective(a.drop_last(), b.drop_last());
        assert(x == y);
        assert(a =~= a.drop_last().push(a.last()));
        assert(b =~= b.drop_last().push(b.last()));
        assert(a =~= b);
    } else {
        assert(a =~= b);
    }
}

/// Two digests are the same text only if the two messages have the same
/// SHA-256 hash: the textual form loses nothing.
pub proof fn law_digest_text_keeps_the_hash(
    domain1: Seq<char>,
    fields1: Seq<Seq<char>>,
    domain2: Seq<char>,
    fields2: Seq<Seq<char>>,
)
    requires
        digest(domain1, fields1) == digest(domain2, fields2),
    ensures
        sha256(message(domain1, fields1)) == sha256(message(domain2, fields2)),
{
    let a = hex(sha256(message(domain1, fields1)));
    let b = hex(sha256(message(domain2, fields2)));
    let p = "sha256:"@;
    assert((p + a).skip(p.len() as int) =~= a);
    assert((p + b).skip(p.len() as int) =~= b);
    lemma_hex_injective(
        sha256(message(domain1, fields1)),
        sha256(message(domain2, fields2)),
    );
}

/// Two different messages with the same SHA-256 hash.
pub open spec fn collides(m1: Seq<u8>, m2: Seq<u8>) -> bool {
    m1 != m2 && sha256(m1) == sha256(m2)
}

/// A hash of SHA-256 has 32 bytes.
pub open spec fn sha256_has_32_bytes() -> bool {
    forall|m: Seq<u8>| (#[trigger] sha256(m)).len() == 32
}

/// Whether the bytes of each text can be counted in 64 bits.
pub open spec fn are_countable(fields: Seq<Seq<char>>) -> bool {
    forall|i: int| 0 <= i < fields.len() ==> byte_len(#[trigger] fields[i]) <= u64::MAX
}

/// A digest binds its domain and its fields: two digests are the same text only
/// if both are the same, unless SHA-256 gives their two messages the same hash.
pub proof fn law_digest_binds_its_fields(
    domain1: Seq<char>,
    fields1: Seq<Seq<char>>,
    domain2: Seq<char>,
    fields2: Seq<Seq<char>>,
)
    requires
        digest(domain1, fields1) == digest(domain2, fields2),
        byte_len(domain1) <= u64::MAX,
        byte_len(domain2) <= u64::MAX,
        are_countable(fields1),
        are_countable(fields2),
    ensures
        (domain1 == domain2 && fields1 == fields2) || collides(
            message(domain1, fields1),
            message(domain2, fields2),
        ),
{
    law_digest_text_keeps_the_hash(domain1, fields1, domain2, fields2);
    if message(domain1, fields1) == message(domain2, fields2) {
        lemma_byte_len_is_encoded_len(domain1);
        lemma_byte_len_is_encoded_len(domain2);
        lemma_countable(fields1);
        lemma_countable(fields2);
        law_framing_is_unambiguous(domain1, fields1, domain2, fields2);
    }
}

proof fn lemma_countable(fields: Seq<Seq<char>>)
    requires
        are_countable(fields),
    ensures
        forall|i: int|
            0 <= i < fields.len() ==> encode_utf8(#[trigger] fields[i]).len() <= u64::MAX,
{
    assert forall|i: int| 0 <= i < fields.len() implies encode_utf8(#[trigger] fields[i]).len()
        <= u64::MAX by {
        lemma_byte_len_is_encoded_len(fields[i]);
    }
}

/// The bytes of a short text can be counted.
pub proof fn lemma_text_bytes(s: Seq<char>)
    ensures
        byte_len(s) <= 4 * s.len(),
{
    lemma_byte_off_mono(s, 0, s.len() as int);
}

/// A digest is a short text.
pub proof fn lemma_digest_bytes(domain: Seq<char>, fields: Seq<Seq<char>>)
    requires
        sha256_has_32_bytes(),
    ensures
        byte_len(digest(domain, fields)) <= 284,
{
    reveal_strlit("sha256:");
    lemma_hex_form(sha256(message(domain, fields)));
    lemma_text_bytes(digest(domain, fields));
}

fn push_be(out: &mut Vec<u8>, n: u64, k: u8)
    ensures
        final(out)@ == old(out)@ + be_bytes(n as nat, k as nat),
    decreases k,
{
    if k == 0 {
        assert(out@ =~= old(out)@ + be_bytes(n as nat, k as nat));
    } else {
        push_be(out, n / 256, k - 1);
        out.push((n % 256) as u8);
        assert(out@ =~= old(out)@ + be_bytes(n as nat, k as nat));
    }
}

fn push_framed(out: &mut Vec<u8>, field: &str)
    ensures
        final(out)@ == old(out)@ + framed(encode_utf8(field@)),
{
    let bytes: &[u8] = field.as_bytes();
    push_be(out, bytes.len() as u64, 8);
    let mut i: usize = 0;
    while i < bytes.len()
        invariant
            bytes@ == encode_utf8(field@),
            i <= bytes@.len(),
            out@ =~= old(out)@ + be_bytes(bytes@.len(), 8) + bytes@.take(i as int),
        decreases bytes@.len() - i,
    {
        out.push(bytes[i]);
        i += 1;
    }
    assert(bytes@.take(bytes@.len() as int) =~= bytes@);
    assert(out@ =~= old(out)@ + framed(encode_utf8(field@)));
}

fn hex_char(d: u8) -> (r: char)
    requires
        d < 16,
    ensures
        r == hex_digit(d as int),
{
    if d < 10 {
        (48 + d) as char
    } else {
        (87 + d) as char
    }
}

/// SHA-256 with domain separation and length framing, which prevents an
/// ambiguous concatenation of fields.
pub fn sha256_digest(domain: &str, fields: &[&str]) -> (r: String)
    ensures
        r@ == digest(domain@, texts(fields@)),
        is_digest(r@),
{
    let mut input: Vec<u8> = Vec::new();
    let tag: &[u8] = "epistemos-free-semantic\0".as_bytes();
    let mut i: usize = 0;
    while i < tag.len()
        invariant
            i <= tag@.len(),
            input@ =~= tag@.take(i as int),
        decreases tag@.len() - i,
    {
        input.push(tag[i]);
        i += 1;
    }
    assert(input@ =~= tag@);
    push_framed(&mut input, domain);
    let ghost head = input@;
    let mut j: usize = 0;
    assert(texts(fields@).take(0) =~= Seq::empty());
    assert(input@ =~= head + frames(texts(fields@).take(0)));
    while j < fields.len()
        invariant
            j <= fields@.len(),
            input@ == head + frames(texts(fields@).take(j as int)),
        decreases fields@.len() - j,
    {
        push_framed(&mut input, fields[j]);
        proof {
            let done = texts(fields@).take(j as int);
            lemma_frames_push(done, fields@[j as int]@);
            assert(texts(fields@).take(j + 1) =~= done.push(fields@[j as int]@));
            assert(input@ =~= head + frames(texts(fields@).take(j + 1)));
        }
        j += 1;
    }
    assert(texts(fields@).take(fields@.len() as int) =~= texts(fields@));
    assert(input@ == message(domain@, texts(fields@)));
    let hash: Vec<u8> = sha256_bytes(input.as_slice());
    let mut out: String = "sha256:".to_owned();
    let mut k: usize = 0;
    while k < hash.len()
        invariant
            k <= hash@.len(),
            out@ =~= "sha256:"@ + hex(hash@.take(k as int)),
        decreases hash@.len() - k,
    {
        let b: u8 = hash[k];
        out.push(hex_char(b / 16));
        out.push(hex_char(b % 16));
        assert(hash@.take(k + 1).drop_last() =~= hash@.take(k as int));
        k += 1;
    }
    assert(hash@.take(hash@.len() as int) =~= hash@);
    proof {
        lemma_hex_form(hash@);
        reveal_strlit("sha256:");
        assert(out@.take(7) =~= "sha256:"@);
    }
    out
}

/// Whether the characters of `chars` start with those of `prefix`.
pub fn has_prefix(chars: &Vec<char>, prefix: &str) -> (r: bool)
    ensures
        r == (prefix@.len() <= chars@.len() && chars@.take(prefix@.len() as int) == prefix@),
{
    let p: Vec<char> = chars_of(prefix);
    if p.len() > chars.len() {
        return false;
    }
    let mut i: usize = 0;
    while i < p.len()
        invariant
            p@ == prefix@,
            i <= p@.len() <= chars@.len(),
            forall|k: int| 0 <= k < i ==> p@[k] == chars@[k],
        decreases p@.len() - i,
    {
        if p[i] != chars[i] {
            assert(chars@.take(prefix@.len() as int)[i as int] != prefix@[i as int]);
            return false;
        }
        i += 1;
    }
    assert(chars@.take(prefix@.len() as int) =~= prefix@);
    true
}

fn is_digest_from(chars: &Vec<char>, start: usize) -> (r: bool)
    requires
        start <= chars@.len(),
    ensures
        r == is_digest(chars@.skip(start as int)),
{
    let rest: Vec<char> = copy_from(chars, start);
    proof {
        reveal_strlit("sha256:");
    }
    if rest.len() != 71 || !has_prefix(&rest, "sha256:") {
        return false;
    }
    let mut i: usize = 7;
    while i < 71
        invariant
            rest@.len() == 71,
            rest@ == chars@.skip(start as int),
            7 <= i <= 71,
            forall|k: int| 7 <= k < i ==> is_lower_hex(#[trigger] rest@[k]),
        decreases 71 - i,
    {
        let c: char = rest[i];
        if !(('0' <= c && c <= '9') || ('a' <= c && c <= 'f')) {
            assert(!is_lower_hex(rest@[i as int]));
            return false;
        }
        i += 1;
    }
    true
}

fn copy_from(chars: &Vec<char>, start: usize) -> (r: Vec<char>)
    requires
        start <= chars@.len(),
    ensures
        r@ == chars@.skip(start as int),
{
    let mut out: Vec<char> = Vec::new();
    let mut i: usize = start;
    while i < chars.len()
        invariant
            start <= i <= chars@.len(),
            out@ =~= chars@.subrange(start as int, i as int),
        decreases chars@.len() - i,
    {
        out.push(chars[i]);
        i += 1;
    }
    assert(out@ =~= chars@.skip(start as int));
    out
}

/// Whether a text has the form of a digest.
pub fn is_sha256_digest(value: &str) -> (r: bool)
    ensures
        r == is_digest(value@),
{
    let chars: Vec<char> = chars_of(value);
    assert(chars@.skip(0) =~= chars@);
    is_digest_from(&chars, 0)
}

/// The form of a chunk identity: the prefix of the chunk format and a digest.
pub open spec fn is_chunk_id(s: Seq<char>) -> bool {
    &&& s.len() >= 4
    &&& s.take(4) == "pc2:"@
    &&& is_digest(s.skip(4))
}

/// Whether a text has the form of a chunk identity. The form leaves no room
/// for a control character or for more than 256 bytes.
pub fn is_canonical_chunk_id(value: &str) -> (r: bool)
    ensures
        r == is_chunk_id(value@),
{
    let chars: Vec<char> = chars_of(value);
    proof {
        reveal_strlit("pc2:");
    }
    has_prefix(&chars, "pc2:") && is_digest_from(&chars, 4)
}

} // verus!
