//! Ordered maps with texts as keys, kept as sequences sorted by key.

use vstd::prelude::*;

use crate::text::{
    lemma_text_lt_irreflexive, lemma_text_lt_total, lemma_text_lt_transitive, order_text, text_lt,
    TextOrder,
};

verus! {

/// Keys in strictly ascending order.
pub open spec fn ascending(keys: Seq<Seq<char>>) -> bool {
    forall|i: int, j: int|
        0 <= i < j < keys.len() ==> text_lt(#[trigger] keys[i], #[trigger] keys[j])
}

/// The place of the first key that is not before `key`.
pub open spec fn place(keys: Seq<Seq<char>>, key: Seq<char>) -> int
    decreases keys.len(),
{
    if keys.len() == 0 || !text_lt(keys[0], key) {
        0
    } else {
        1 + place(keys.drop_first(), key)
    }
}

/// Whether the key is among the ascending keys.
pub open spec fn has_key(keys: Seq<Seq<char>>, key: Seq<char>) -> bool {
    place(keys, key) < keys.len() && keys[place(keys, key)] == key
}

pub proof fn lemma_place(keys: Seq<Seq<char>>, key: Seq<char>)
    ensures
        0 <= place(keys, key) <= keys.len(),
        forall|i: int| 0 <= i < place(keys, key) ==> text_lt(#[trigger] keys[i], key),
        place(keys, key) < keys.len() ==> !text_lt(keys[place(keys, key)], key),
    decreases keys.len(),
{
    if keys.len() > 0 && text_lt(keys[0], key) {
        let rest = keys.drop_first();
        lemma_place(rest, key);
        assert forall|i: int| 0 <= i < place(keys, key) implies text_lt(#[trigger] keys[i], key) by {
            if i > 0 {
                assert(keys[i] == rest[i - 1]);
            }
        }
    }
}

/// What decides the place in ascending keys.
pub proof fn lemma_place_unique(keys: Seq<Seq<char>>, key: Seq<char>, at: int)
    requires
        0 <= at <= keys.len(),
        forall|i: int| 0 <= i < at ==> text_lt(#[trigger] keys[i], key),
        at < keys.len() ==> !text_lt(keys[at], key),
    ensures
        place(keys, key) == at,
{
    lemma_place(keys, key);
    let p = place(keys, key);
    if p < at {
        assert(text_lt(keys[p], key));
    }
    if at < p {
        assert(text_lt(keys[at], key));
    }
}

/// A key is found exactly if it occurs.
pub proof fn lemma_has_key(keys: Seq<Seq<char>>, key: Seq<char>)
    requires
        ascending(keys),
    ensures
        has_key(keys, key) <==> keys.contains(key),
        forall|i: int| 0 <= i < keys.len() && #[trigger] keys[i] == key ==> i == place(keys, key),
{
    lemma_place(keys, key);
    assert forall|i: int| 0 <= i < keys.len() && #[trigger] keys[i] == key implies i == place(
        keys,
        key,
    ) by {
        lemma_text_lt_irreflexive(key);
        let p = place(keys, key);
        if p < i {
            assert(text_lt(keys[p], keys[i]));
            lemma_text_lt_total(keys[p], key);
            assert(text_lt(keys[p], key));
        }
    }
}

/// The keys behind the place of a key are after it.
pub proof fn lemma_after_place(keys: Seq<Seq<char>>, key: Seq<char>)
    requires
        ascending(keys),
        !has_key(keys, key),
    ensures
        forall|i: int| place(keys, key) <= i < keys.len() ==> text_lt(key, #[trigger] keys[i]),
{
    lemma_place(keys, key);
    let p = place(keys, key);
    assert forall|i: int| p <= i < keys.len() implies text_lt(key, #[trigger] keys[i]) by {
        lemma_text_lt_total(key, keys[p]);
        if p < i {
            lemma_text_lt_transitive(key, keys[p], keys[i]);
        }
    }
}

/// The keys with one more.
pub open spec fn with_key(keys: Seq<Seq<char>>, key: Seq<char>) -> Seq<Seq<char>> {
    if has_key(keys, key) {
        keys
    } else {
        keys.insert(place(keys, key), key)
    }
}

pub proof fn lemma_with_key(keys: Seq<Seq<char>>, key: Seq<char>)
    requires
        ascending(keys),
    ensures
        ascending(with_key(keys, key)),
        forall|k: Seq<char>| #[trigger] with_key(keys, key).contains(k) <==> keys.contains(k) || k
            == key,
{
    lemma_place(keys, key);
    let p = place(keys, key);
    if !has_key(keys, key) {
        lemma_after_place(keys, key);
        let after = keys.insert(p, key);
        assert forall|i: int, j: int| 0 <= i < j < after.len() implies text_lt(
            #[trigger] after[i],
            #[trigger] after[j],
        ) by {
            let x = if i < p {
                keys[i]
            } else if i == p {
                key
            } else {
                keys[i - 1]
            };
            let y = if j < p {
                keys[j]
            } else if j == p {
                key
            } else {
                keys[j - 1]
            };
            assert(after[i] == x);
            assert(after[j] == y);
        }
        assert forall|k: Seq<char>| #[trigger] after.contains(k) <==> keys.contains(k) || k
            == key by {
            if keys.contains(k) {
                let i = choose|i: int| 0 <= i < keys.len() && keys[i] == k;
                if i < p {
                    assert(after[i] == k);
                } else {
                    assert(after[i + 1] == k);
                }
            }
            assert(after[p] == key);
            if after.contains(k) && k != key {
                let i = choose|i: int| 0 <= i < after.len() && after[i] == k;
                if i < p {
                    assert(keys[i] == k);
                } else {
                    assert(keys[i - 1] == k);
                }
            }
        }
    } else {
        assert(keys.contains(key));
    }
}

pub proof fn lemma_without_place(keys: Seq<Seq<char>>, key: Seq<char>)
    requires
        ascending(keys),
        has_key(keys, key),
    ensures
        ascending(keys.remove(place(keys, key))),
        forall|k: Seq<char>| #[trigger]
            keys.remove(place(keys, key)).contains(k) <==> keys.contains(k) && k != key,
{
    lemma_place(keys, key);
    lemma_has_key(keys, key);
    let p = place(keys, key);
    let after = keys.remove(p);
    assert forall|i: int, j: int| 0 <= i < j < after.len() implies text_lt(
        #[trigger] after[i],
        #[trigger] after[j],
    ) by {
        let x = if i < p {
            i
        } else {
            i + 1
        };
        let y = if j < p {
            j
        } else {
            j + 1
        };
        assert(after[i] == keys[x]);
        assert(after[j] == keys[y]);
    }
    assert forall|k: Seq<char>| #[trigger] after.contains(k) <==> keys.contains(k) && k != key by {
        if keys.contains(k) && k != key {
            let i = choose|i: int| 0 <= i < keys.len() && keys[i] == k;
            if i < p {
                assert(after[i] == k);
            } else {
                assert(after[i - 1] == k);
            }
        }
        if after.contains(k) {
            let i = choose|i: int| 0 <= i < after.len() && after[i] == k;
            let x = if i < p {
                i
            } else {
                i + 1
            };
            assert(keys[x] == k);
            if k == key {
                assert(x == p);
            }
        }
    }
}

/// Two ascending sequences of the same keys are the same.
pub proof fn lemma_ascending_unique(a: Seq<Seq<char>>, b: Seq<Seq<char>>)
    requires
        ascending(a),
        ascending(b),
        forall|k: Seq<char>| a.contains(k) <==> #[trigger] b.contains(k),
    ensures
        a == b,
    decreases a.len(),
{
    if a.len() == 0 {
        if b.len() > 0 {
            assert(b.contains(b[0]));
        }
        assert(a =~= b);
    } else {
        assert(a.contains(a[0]));
        assert(b.contains(a[0]));
        assert(b.contains(b[0]));
        assert(a.contains(b[0]));
        let i = choose|i: int| 0 <= i < b.len() && b[i] == a[0];
        let j = choose|j: int| 0 <= j < a.len() && a[j] == b[0];
        if a[0] != b[0] {
            assert(text_lt(b[0], b[i]));
            assert(text_lt(a[0], a[j]));
            lemma_text_lt_transitive(a[0], b[0], a[0]);
            lemma_text_lt_irreflexive(a[0]);
        }
        let x = a.drop_first();
        let y = b.drop_first();
        assert forall|k: Seq<char>| x.contains(k) <==> #[trigger] y.contains(k) by {
            lemma_text_lt_irreflexive(a[0]);
            if x.contains(k) {
                let m = choose|m: int| 0 <= m < x.len() && x[m] == k;
                assert(a[m + 1] == k);
                assert(a.contains(k));
                assert(b.contains(k));
                let q = choose|q: int| 0 <= q < b.len() && b[q] == k;
                assert(text_lt(a[0], a[m + 1]));
                assert(q != 0);
                assert(y[q - 1] == k);
            }
            if y.contains(k) {
                let m = choose|m: int| 0 <= m < y.len() && y[m] == k;
                assert(b[m + 1] == k);
                assert(b.contains(k));
                assert(a.contains(k));
                let q = choose|q: int| 0 <= q < a.len() && a[q] == k;
                assert(text_lt(b[0], b[m + 1]));
                assert(q != 0);
                assert(x[q - 1] == k);
            }
        }
        lemma_ascending_unique(x, y);
        assert(a =~= seq![a[0]] + x);
        assert(b =~= seq![b[0]] + y);
        assert(a =~= b);
    }
}

/// What one comparison tells of all keys on one side.
pub proof fn lemma_search_step(keys: Seq<Seq<char>>, key: Seq<char>, mid: int)
    requires
        ascending(keys),
        0 <= mid < keys.len(),
    ensures
        text_lt(keys[mid], key) ==> forall|i: int|
            0 <= i <= mid ==> text_lt(#[trigger] keys[i], key),
        !text_lt(keys[mid], key) ==> forall|i: int|
            mid <= i < keys.len() ==> !text_lt(#[trigger] keys[i], key),
{
    if text_lt(keys[mid], key) {
        assert forall|i: int| 0 <= i <= mid implies text_lt(#[trigger] keys[i], key) by {
            if i < mid {
                lemma_text_lt_transitive(keys[i], keys[mid], key);
            }
        }
    } else {
        assert forall|i: int| mid <= i < keys.len() implies !text_lt(#[trigger] keys[i], key) by {
            if mid < i && text_lt(keys[i], key) {
                lemma_text_lt_transitive(keys[mid], keys[i], key);
            }
        }
    }
}

/// The characters of each text.
pub open spec fn string_views(v: Seq<String>) -> Seq<Seq<char>> {
    v.map_values(|s: String| s@)
}

/// The place of a key among ascending texts.
pub fn find_text(keys: &Vec<String>, key: &str) -> (r: usize)
    requires
        ascending(string_views(keys@)),
    ensures
        r == place(string_views(keys@), key@),
        r <= keys@.len(),
{
    let ghost views = string_views(keys@);
    let mut lo: usize = 0;
    let mut hi: usize = keys.len();
    while lo < hi
        invariant
            views == string_views(keys@),
            ascending(views),
            lo <= hi <= keys@.len(),
            forall|i: int| 0 <= i < lo ==> text_lt(#[trigger] views[i], key@),
            forall|i: int| hi <= i < views.len() ==> !text_lt(#[trigger] views[i], key@),
        decreases hi - lo,
    {
        let mid: usize = lo + (hi - lo) / 2;
        proof {
            lemma_search_step(views, key@, mid as int);
        }
        assert(views[mid as int] == keys@[mid as int]@);
        match order_text(keys[mid].as_str(), key) {
            TextOrder::Before => {
                lo = mid + 1;
            },
            _ => {
                hi = mid;
            },
        }
    }
    proof {
        lemma_place_unique(views, key@, lo as int);
    }
    lo
}

/// Adds a key unless it is there; says whether it was not.
pub fn insert_text(keys: &mut Vec<String>, key: &str) -> (r: bool)
    requires
        ascending(string_views(old(keys)@)),
    ensures
        string_views(final(keys)@) == with_key(string_views(old(keys)@), key@),
        ascending(string_views(final(keys)@)),
        r == !string_views(old(keys)@).contains(key@),
{
    let ghost before = string_views(keys@);
    let at: usize = find_text(keys, key);
    proof {
        lemma_has_key(before, key@);
        lemma_with_key(before, key@);
    }
    if at < keys.len() {
        assert(before[at as int] == keys@[at as int]@);
        match order_text(keys[at].as_str(), key) {
            TextOrder::Same => {
                return false;
            },
            _ => {},
        }
    }
    keys.insert(at, key.to_owned());
    assert(string_views(keys@) =~= before.insert(at as int, key@));
    true
}

} // verus!
