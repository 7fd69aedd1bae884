//! How deep a query is nested: the brackets and the words `NOT` that are open at
//! once, whichever way its quotations are read.

use vstd::prelude::*;

use crate::quant::binary::tally;

verus! {

/// The most brackets that may be open at once in a query that is parsed. Each
/// doubles the work of the parser, which beyond these would not come to an end in
/// any useful time.
pub const MAX_NESTING: usize = 30;

/// The most words `NOT` that may wait at once, in a query that is parsed, for
/// what they deny. Each takes a call of the parser on the stack of a thread.
pub const MAX_NEGATIONS: usize = 256;

/// Whether a character is a letter of ASCII.
pub open spec fn is_ascii_letter(c: char) -> bool {
    'a' <= c <= 'z' || 'A' <= c <= 'Z'
}

/// The most brackets that may be open behind some characters of a query, for
/// each place that a parser may be at: outside of quotations, behind a quotation
/// mark, or behind an apostrophe that opened one. Nothing stands for a place where
/// it cannot be.
#[verifier::ext_equal]
pub struct Depths {
    pub plain: Option<int>,
    pub double: Option<int>,
    pub single: Option<int>,
}

/// The greater of two depths.
pub open spec fn deeper(a: Option<int>, b: Option<int>) -> Option<int> {
    match (a, b) {
        (Some(x), Some(y)) => if x < y {
            b
        } else {
            a
        },
        (Some(_), None) => a,
        (None, _) => b,
    }
}

pub open spec fn depth_if(possible: bool, d: Option<int>) -> Option<int> {
    if possible {
        d
    } else {
        None
    }
}

/// The depth outside of quotations behind one more character.
pub open spec fn plain_depth(d: Option<int>, escaped: bool, c: char) -> Option<int> {
    match d {
        None => None,
        Some(x) => if c == '(' {
            Some(x + 1)
        } else if escaped {
            d
        } else if c == ')' {
            Some(x - 1)
        } else {
            depth_if(c != '"', d)
        },
    }
}

/// The depths behind one more character. Behind a backslash it may have lost its
/// meaning, and an apostrophe opens a quotation or belongs to a word, as it does
/// behind a letter.
pub open spec fn stepped(d: Depths, before: char, c: char) -> Depths {
    let escaped = before == '\\';
    Depths {
        plain: deeper(
            plain_depth(d.plain, escaped, c),
            deeper(depth_if(c == '"', d.double), depth_if(c == '\'', d.single)),
        ),
        double: deeper(
            depth_if(c == '"', d.plain),
            depth_if(c != '"' || escaped, d.double),
        ),
        single: deeper(
            depth_if(c == '\'' && !is_ascii_letter(before), d.plain),
            depth_if(c != '\'' || escaped, d.single),
        ),
    }
}

/// The character before the `n`th, or space.
pub open spec fn char_before(query: Seq<char>, n: int) -> char {
    if n > 0 {
        query[n - 1]
    } else {
        ' '
    }
}

/// The depths behind the first `n` characters.
pub open spec fn depths(query: Seq<char>, n: int) -> Depths
    decreases n,
{
    if n <= 0 {
        Depths { plain: Some(0), double: None, single: None }
    } else {
        stepped(depths(query, n - 1), char_before(query, n - 1), query[n - 1])
    }
}

/// Whether a depth is no more than `most`.
pub open spec fn is_within(d: Option<int>, most: int) -> bool {
    match d {
        Some(x) => x <= most,
        None => true,
    }
}

/// Whether no bracket can be open.
pub open spec fn is_closed(d: Depths) -> bool {
    is_within(d.plain, 0) && is_within(d.double, 0) && is_within(d.single, 0)
}

/// Whether the word `NOT` ends with the first `n` characters.
pub open spec fn ends_not(query: Seq<char>, n: int) -> bool {
    n >= 3 && query[n - 1] == 'T' && query[n - 2] == 'O' && query[n - 3] == 'N'
}

/// Whether a character is one of `NOT`, or space.
pub open spec fn is_not_char(c: char) -> bool {
    c == 'N' || c == 'O' || c == 'T' || c == ' ' || c == '\t' || c == '\r' || c == '\n'
}

/// How often `NOT` stands in the last stretch of the first `n` characters that
/// holds nothing but its letters and space and may be outside of quotations.
pub open spec fn negated(query: Seq<char>, n: int) -> int
    decreases n,
{
    if n <= 0 || depths(query, n - 1).plain is None || !is_not_char(query[n - 1]) {
        0
    } else if ends_not(query, n) {
        negated(query, n - 1) + 1
    } else {
        negated(query, n - 1)
    }
}

/// How often `NOT` stands right before a bracket among the first `n` characters,
/// since no bracket was open.
pub open spec fn held(query: Seq<char>, n: int) -> int
    decreases n,
{
    if n <= 0 || is_closed(depths(query, n)) {
        0
    } else if query[n - 1] == '(' {
        held(query, n - 1) + negated(query, n - 1)
    } else {
        held(query, n - 1)
    }
}

/// Whether no more is open behind the first `n` characters than a parser can
/// follow.
pub open spec fn is_followed(query: Seq<char>, n: int) -> bool {
    is_within(depths(query, n).plain, MAX_NESTING as int) && held(query, n) + negated(query, n)
        <= MAX_NEGATIONS
}

/// Whether a query is nested no deeper than a parser can follow.
pub open spec fn is_shallow(query: Seq<char>) -> bool {
    forall|n: int| 0 <= n <= query.len() ==> #[trigger] is_followed(query, n)
}

/// The depths behind some characters of a query.
struct Levels {
    plain: Option<i128>,
    double: Option<i128>,
    single: Option<i128>,
}

spec fn as_depth(d: Option<i128>) -> Option<int> {
    match d {
        Some(x) => Some(x as int),
        None => None,
    }
}

spec fn is_between(d: Option<i128>, low: int, high: int) -> bool {
    match d {
        Some(x) => low <= x <= high,
        None => true,
    }
}

impl Levels {
    spec fn depths(self) -> Depths {
        Depths {
            plain: as_depth(self.plain),
            double: as_depth(self.double),
            single: as_depth(self.single),
        }
    }

    spec fn are_between(self, low: int, high: int) -> bool {
        is_between(self.plain, low, high) && is_between(self.double, low, high) && is_between(
            self.single,
            low,
            high,
        )
    }

    fn closed(&self) -> (r: bool)
        ensures
            r == is_closed(self.depths()),
    {
        within(self.plain, 0) && within(self.double, 0) && within(self.single, 0)
    }

    fn step(&self, before: char, c: char, Ghost(low): Ghost<int>, Ghost(high): Ghost<int>) -> (r:
        Levels)
        requires
            self.are_between(low, high),
            i128::MIN < low <= high < i128::MAX,
        ensures
            r.depths() == stepped(self.depths(), before, c),
            r.are_between(low - 1, high + 1),
    {
        let escaped: bool = before == '\\';
        let lettered: bool = ('a' <= before && before <= 'z') || ('A' <= before && before <= 'Z');
        let plain: Option<i128> = match self.plain {
            None => None,
            Some(x) => if c == '(' {
                Some(x + 1)
            } else if escaped {
                Some(x)
            } else if c == ')' {
                Some(x - 1)
            } else if c == '"' {
                None
            } else {
                Some(x)
            },
        };
        Levels {
            plain: deeper_of(
                plain,
                deeper_of(if_possible(c == '"', self.double), if_possible(c == '\'', self.single)),
            ),
            double: deeper_of(
                if_possible(c == '"', self.plain),
                if_possible(c != '"' || escaped, self.double),
            ),
            single: deeper_of(
                if_possible(c == '\'' && !lettered, self.plain),
                if_possible(c != '\'' || escaped, self.single),
            ),
        }
    }
}

fn deeper_of(a: Option<i128>, b: Option<i128>) -> (r: Option<i128>)
    ensures
        as_depth(r) == deeper(as_depth(a), as_depth(b)),
        r == a || r == b,
{
    match (a, b) {
        (Some(x), Some(y)) => if x < y {
            b
        } else {
            a
        },
        (Some(_), None) => a,
        (None, _) => b,
    }
}

fn if_possible(possible: bool, d: Option<i128>) -> (r: Option<i128>)
    ensures
        r == if possible {
            d
        } else {
            None
        },
{
    if possible {
        d
    } else {
        None
    }
}

fn within(d: Option<i128>, most: i128) -> (r: bool)
    ensures
        r == is_within(as_depth(d), most as int),
{
    match d {
        Some(x) => x <= most,
        None => true,
    }
}

/// Whether a query is nested no deeper than a parser can follow.
pub fn shallow(chars: &Vec<char>) -> (r: bool)
    ensures
        r == is_shallow(chars@),
{
    let mut now: Levels = Levels { plain: Some(0), double: None, single: None };
    let mut before: char = ' ';
    let mut nots: usize = 0;
    let mut waiting: usize = 0;
    let mut i: usize = 0;
    while i < chars.len()
        invariant
            i <= chars@.len(),
            now.depths() == depths(chars@, i as int),
            now.are_between(-i, i as int),
            before == char_before(chars@, i as int),
            nots == negated(chars@, i as int),
            waiting == held(chars@, i as int),
            nots + waiting <= MAX_NEGATIONS,
            forall|n: int| 0 <= n <= i ==> #[trigger] is_followed(chars@, n),
        decreases chars@.len() - i,
    {
        let c: char = chars[i];
        let quoted: bool = now.plain.is_none();
        now = now.step(before, c, Ghost(-i), Ghost(i as int));
        if now.closed() {
            waiting = 0;
        } else if c == '(' {
            waiting += nots;
        }
        if quoted || !(c == 'N' || c == 'O' || c == 'T' || c == ' ' || c == '\t' || c == '\r' || c
            == '\n') {
            nots = 0;
        } else if i >= 2 && c == 'T' && chars[i - 1] == 'O' && chars[i - 2] == 'N' {
            nots += 1;
        }
        before = c;
        i += 1;
        assert(now.depths() == depths(chars@, i as int));
        assert(nots == negated(chars@, i as int));
        assert(waiting == held(chars@, i as int));
        if !within(now.plain, MAX_NESTING as i128) || nots + waiting > MAX_NEGATIONS {
            assert(!is_followed(chars@, i as int));
            return false;
        }
        assert(is_followed(chars@, i as int));
    }
    true
}

/// What is open is no more than what was opened.
spec fn is_opened(d: Option<int>, most: nat) -> bool {
    d matches Some(x) ==> x <= most
}

proof fn lemma_opened(query: Seq<char>, n: nat)
    requires
        n <= query.len(),
    ensures
        ({
            let opened = tally(n, |i: int| query[i] == '(');
            let d = depths(query, n as int);
            &&& is_opened(d.plain, opened)
            &&& is_opened(d.double, opened)
            &&& is_opened(d.single, opened)
        }),
    decreases n,
{
    if n > 0 {
        lemma_opened(query, (n - 1) as nat);
    }
}

proof fn lemma_waiting(query: Seq<char>, n: nat)
    requires
        n <= query.len(),
    ensures
        0 <= held(query, n as int),
        0 <= negated(query, n as int),
        held(query, n as int) + negated(query, n as int) <= tally(
            n,
            |i: int| i >= 2 && query[i] == 'T' && query[i - 1] == 'O' && query[i - 2] == 'N',
        ),
    decreases n,
{
    if n > 0 {
        lemma_waiting(query, (n - 1) as nat);
    }
}

proof fn lemma_tally_grows(n: nat, m: nat, holds: spec_fn(int) -> bool)
    requires
        n <= m,
    ensures
        tally(n, holds) <= tally(m, holds),
    decreases m,
{
    if n < m {
        lemma_tally_grows(n, (m - 1) as nat, holds);
    }
}

/// A query that opens no more than 30 brackets and holds no more than 256 times `NOT`
/// is nested no deeper than a parser can follow.
pub proof fn law_query_with_few_brackets_is_shallow(query: Seq<char>)
    requires
        tally(query.len(), |i: int| query[i] == '(') <= 30,
        tally(
            query.len(),
            |i: int| i >= 2 && query[i] == 'T' && query[i - 1] == 'O' && query[i - 2] == 'N',
        ) <= 256,
    ensures
        is_shallow(query),
{
    assert forall|n: int| 0 <= n <= query.len() implies #[trigger] is_followed(query, n) by {
        lemma_opened(query, n as nat);
        lemma_waiting(query, n as nat);
        lemma_tally_grows(n as nat, query.len(), |i: int| query[i] == '(');
        lemma_tally_grows(
            n as nat,
            query.len(),
            |i: int| i >= 2 && query[i] == 'T' && query[i - 1] == 'O' && query[i - 2] == 'N',
        );
    }
}

/// A query that starts with more than 30 brackets is nested too deep.
pub proof fn law_query_with_many_brackets_is_deep(query: Seq<char>)
    requires
        query.len() > 30,
        forall|i: int| 0 <= i < 31 ==> #[trigger] query[i] == '(',
    ensures
        !is_shallow(query),
{
    lemma_brackets_open(query, 31);
    assert(!is_followed(query, 31));
}

proof fn lemma_brackets_open(query: Seq<char>, n: int)
    requires
        0 <= n <= 31,
        query.len() > 30,
        forall|i: int| 0 <= i < 31 ==> #[trigger] query[i] == '(',
    ensures
        depths(query, n) == (Depths { plain: Some(n), double: None, single: None }),
    decreases n,
{
    if n > 0 {
        lemma_brackets_open(query, n - 1);
        assert(query[n - 1] == '(');
    }
}

} // verus!
