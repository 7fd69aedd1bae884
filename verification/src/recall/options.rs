//! The words of a command line.

use vstd::prelude::*;
use vstd::string::StringExecFns;

use crate::keys::string_views;
use crate::text::text_eq;

verus! {

/// The first place of a word.
pub open spec fn place_of(words: Seq<Seq<char>>, name: Seq<char>) -> int
    decreases words.len(),
{
    if words.len() == 0 || words[0] == name {
        0
    } else {
        1 + place_of(words.drop_first(), name)
    }
}

/// The words without an option and the word behind it.
pub open spec fn without_option(words: Seq<Seq<char>>, name: Seq<char>) -> Seq<Seq<char>> {
    let at = place_of(words, name);
    if at >= words.len() {
        words
    } else if at + 1 < words.len() {
        words.remove(at).remove(at)
    } else {
        words.remove(at)
    }
}

/// The word behind an option.
pub open spec fn option_value(words: Seq<Seq<char>>, name: Seq<char>) -> Option<Seq<char>> {
    let at = place_of(words, name);
    if at + 1 < words.len() {
        Some(words[at + 1])
    } else {
        None
    }
}

proof fn lemma_place_of(words: Seq<Seq<char>>, name: Seq<char>, i: int)
    requires
        0 <= i <= words.len(),
        forall|k: int| 0 <= k < i ==> #[trigger] words[k] != name,
        i < words.len() ==> words[i] == name,
    ensures
        place_of(words, name) == i,
    decreases words.len(),
{
    if i > 0 {
        let rest = words.drop_first();
        assert forall|k: int| 0 <= k < i - 1 implies #[trigger] rest[k] != name by {
            assert(rest[k] == words[k + 1]);
        }
        assert(words[0] != name);
        lemma_place_of(rest, name, i - 1);
    }
}

/// Takes an option and the word behind it out of the words. An option that is
/// the last word is taken out and has no value.
pub fn take_option(args: &mut Vec<String>, name: &str) -> (r: Option<String>)
    ensures
        string_views(final(args)@) == without_option(string_views(old(args)@), name@),
        match r {
            Some(v) => option_value(string_views(old(args)@), name@) == Some(v@),
            None => option_value(string_views(old(args)@), name@) is None,
        },
{
    let ghost words = string_views(args@);
    let ghost before = args@;
    let mut at: usize = 0;
    while at < args.len() && !text_eq(args[at].as_str(), name)
        invariant
            at <= args@.len(),
            args@ == before,
            words == string_views(before),
            forall|k: int| 0 <= k < at ==> #[trigger] words[k] != name@,
        decreases args@.len() - at,
    {
        assert(words[at as int] == args@[at as int]@);
        at += 1;
    }
    proof {
        if at < args@.len() {
            assert(words[at as int] == args@[at as int]@);
        }
        lemma_place_of(words, name@, at as int);
    }
    if at >= args.len() {
        return None;
    }
    let _ = args.remove(at);
    assert(string_views(args@) =~= words.remove(at as int));
    if at < args.len() {
        let value: String = args.remove(at);
        assert(string_views(args@) =~= words.remove(at as int).remove(at as int));
        assert(value@ == words[at + 1]);
        Some(value)
    } else {
        None
    }
}

/// Words with a space between them.
pub open spec fn joined(words: Seq<Seq<char>>) -> Seq<char>
    decreases words.len(),
{
    if words.len() == 0 {
        Seq::empty()
    } else if words.len() == 1 {
        words[0]
    } else {
        joined(words.drop_last()) + " "@ + words.last()
    }
}

/// The words from a place on, with a space between them.
pub fn join_from(args: &Vec<String>, from: usize) -> (r: String)
    requires
        from <= args@.len(),
    ensures
        r@ == joined(string_views(args@).skip(from as int)),
{
    let ghost words = string_views(args@).skip(from as int);
    let len: usize = args.len();
    let mut out: String = String::new();
    let mut i: usize = from;
    assert(words.take(0) =~= Seq::empty());
    assert(out@ =~= Seq::empty());
    while i < len
        invariant
            from <= i <= len == args@.len(),
            words == string_views(args@).skip(from as int),
            out@ == joined(words.take(i - from)),
        decreases len - i,
    {
        let ghost next = words.take(i - from + 1);
        assert(next.drop_last() =~= words.take(i - from));
        assert(next.last() == args@[i as int]@);
        if i > from {
            out.append(" ");
            out.append(args[i].as_str());
        } else {
            out.append(args[i].as_str());
            assert(out@ =~= next[0]);
        }
        i += 1;
    }
    assert(words.take(len - from) =~= words);
    out
}

/// The value of an option is the word behind its first place, and both are taken out
/// of the words.
pub proof fn law_option_is_taken_out(
    before: Seq<Seq<char>>,
    name: Seq<char>,
    value: Seq<char>,
    after: Seq<Seq<char>>,
)
    requires
        !before.contains(name),
    ensures
        option_value(before + seq![name, value] + after, name) == Some(value),
        without_option(before + seq![name, value] + after, name) == before + after,
        option_value(before + seq![name], name) is None,
        without_option(before + seq![name], name) == before,
        option_value(before, name) is None,
        without_option(before, name) == before,
{
    let all = before + seq![name, value] + after;
    let n = before.len() as int;
    assert forall|k: int| 0 <= k < n implies #[trigger] before[k] != name by {
        assert(before.contains(before[k]));
    }
    assert forall|k: int| 0 <= k < n implies #[trigger] all[k] != name by {
        assert(all[k] == before[k]);
    }
    lemma_place_of(all, name, n);
    assert(all.remove(n).remove(n) =~= before + after);
    let short = before + seq![name];
    assert forall|k: int| 0 <= k < n implies #[trigger] short[k] != name by {
        assert(short[k] == before[k]);
    }
    lemma_place_of(short, name, n);
    assert(short.remove(n) =~= before);
    lemma_place_of(before, name, n);
}

/// Joined words stand behind each other with a space between them.
pub proof fn law_joined_words_have_a_space_between(words: Seq<Seq<char>>, w: Seq<char>)
    ensures
        joined(Seq::empty()) == Seq::<char>::empty(),
        joined(seq![w]) == w,
        words.len() > 0 ==> joined(words.push(w)) == joined(words) + " "@ + w,
{
    assert(words.push(w).drop_last() =~= words);
}

} // verus!
