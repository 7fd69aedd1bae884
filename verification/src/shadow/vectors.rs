//! Rows of a vector index: which numeric key stands for which document.

use rustc_hash::FxHashMap;
use vstd::prelude::*;

use super::error::{ErrorModel, ShadowError};
use crate::bits::{bits_less, is_nan_bits, less_bits};
use crate::single::{
    difference_bits, law_numbers_have_a_sum, opposite, subtract_singles, MINUS_ONE, ONE,
};
use crate::text::{concat2, decimal, decimal_string};

verus! {

/// The capacity that a vector index starts with.
pub const INITIAL_RESERVE: usize = 1024;

/// By how much the capacity grows.
pub const RESERVE_GROWTH_FACTOR: usize = 2;

/// The build hasher of `rustc_hash`, which its maps carry.
#[verifier::external_type_specification]
#[verifier::external_body]
pub struct ExFxBuildHasher(rustc_hash::FxBuildHasher);

/// What a `FxHashMap` from texts to numbers holds.
pub uninterp spec fn numbers_by_text(m: FxHashMap<String, u64>) -> Map<Seq<char>, u64>;

/// What a `FxHashMap` from numbers to texts holds.
pub uninterp spec fn texts_by_number(m: FxHashMap<u64, String>) -> Map<u64, Seq<char>>;

/// `FxHashMap::default` of texts: it holds nothing.
#[verifier::external_body]
fn empty_by_text() -> (r: FxHashMap<String, u64>)
    ensures
        numbers_by_text(r) == (Map::<Seq<char>, u64>::empty()),
{
    FxHashMap::default()
}

/// `FxHashMap::get` by text: the number under the text, if there is one.
#[verifier::external_body]
fn get_by_text(m: &FxHashMap<String, u64>, text: &str) -> (r: Option<u64>)
    ensures
        r == if numbers_by_text(*m).contains_key(text@) {
            Some(numbers_by_text(*m)[text@])
        } else {
            None
        },
{
    m.get(text).copied()
}

/// `FxHashMap::insert` by text: the text leads to the number from then on.
#[verifier::external_body]
fn insert_by_text(m: &mut FxHashMap<String, u64>, text: String, number: u64)
    ensures
        numbers_by_text(*final(m)) == numbers_by_text(*old(m)).insert(text@, number),
{
    m.insert(text, number);
}

/// `FxHashMap::remove` by text: what the text led to is handed out, and it
/// leads nowhere from then on.
#[verifier::external_body]
fn remove_by_text(m: &mut FxHashMap<String, u64>, text: &str) -> (r: Option<u64>)
    ensures
        numbers_by_text(*final(m)) == numbers_by_text(*old(m)).remove(text@),
        r == if numbers_by_text(*old(m)).contains_key(text@) {
            Some(numbers_by_text(*old(m))[text@])
        } else {
            None
        },
{
    m.remove(text)
}

/// Whether a map has so many keys.
pub open spec fn has_size(m: Map<Seq<char>, u64>, n: nat) -> bool {
    m.dom().finite() && m.dom().len() == n
}

/// `FxHashMap::len` of texts: how many texts lead to a number.
#[verifier::external_body]
fn len_by_text(m: &FxHashMap<String, u64>) -> (r: usize)
    ensures
        has_size(numbers_by_text(*m), r as nat),
{
    m.len()
}

/// Whether pairs list a map: each of its texts once, with its number. Nothing
/// is said of their order.
pub open spec fn lists(pairs: Seq<(String, u64)>, m: Map<Seq<char>, u64>) -> bool {
    &&& forall|i: int|
        0 <= i < pairs.len() ==> m.contains_key((#[trigger] pairs[i]).0@) && m[pairs[i].0@]
            == pairs[i].1
    &&& forall|d: Seq<char>| #[trigger]
        m.contains_key(d) ==> exists|i: int| 0 <= i < pairs.len() && (#[trigger] pairs[i]).0@ == d
    &&& forall|i: int, j: int|
        0 <= i < j < pairs.len() ==> (#[trigger] pairs[i]).0@ != (#[trigger] pairs[j]).0@
}

/// `FxHashMap::iter` of texts, collected: each text with its number, in an
/// order that is left open.
#[verifier::external_body]
fn pairs_by_text(m: &FxHashMap<String, u64>) -> (r: Vec<(String, u64)>)
    ensures
        lists(r@, numbers_by_text(*m)),
{
    m.iter().map(|(text, number)| (text.clone(), *number)).collect()
}

/// `FxHashMap::default` of numbers: it holds nothing.
#[verifier::external_body]
fn empty_by_number() -> (r: FxHashMap<u64, String>)
    ensures
        texts_by_number(r) == (Map::<u64, Seq<char>>::empty()),
{
    FxHashMap::default()
}

/// `FxHashMap::get` by number: a copy of the text under the number, if there
/// is one.
#[verifier::external_body]
fn get_by_number(m: &FxHashMap<u64, String>, number: u64) -> (r: Option<String>)
    ensures
        match r {
            Some(t) => texts_by_number(*m).contains_key(number) && texts_by_number(*m)[number]
                == t@,
            None => !texts_by_number(*m).contains_key(number),
        },
{
    m.get(&number).cloned()
}

/// `FxHashMap::insert` by number: the number leads to the text from then on.
#[verifier::external_body]
fn insert_by_number(m: &mut FxHashMap<u64, String>, number: u64, text: String)
    ensures
        texts_by_number(*final(m)) == texts_by_number(*old(m)).insert(number, text@),
{
    m.insert(number, text);
}

/// `FxHashMap::remove` by number: it leads nowhere from then on.
#[verifier::external_body]
fn remove_by_number(m: &mut FxHashMap<u64, String>, number: u64)
    ensures
        texts_by_number(*final(m)) == texts_by_number(*old(m)).remove(number),
{
    m.remove(&number);
}

/// Which key stands for which document.
#[verifier::ext_equal]
pub struct RowsModel {
    /// The key of each document.
    pub keys: Map<Seq<char>, u64>,
    /// The document of each key.
    pub docs: Map<u64, Seq<char>>,
    /// The keys that were given back, the last one on top.
    pub free: Seq<u64>,
    /// The next key that was never used.
    pub next: u64,
    /// The capacity that the index was told to reserve.
    pub reserved: usize,
}

/// Whether keys and documents stand for one another one to one, and every key
/// below the next one is either used or free, and no more than once free.
pub open spec fn rows_ok(m: RowsModel) -> bool {
    &&& forall|d: Seq<char>| #[trigger]
        m.keys.contains_key(d) ==> m.docs.contains_key(m.keys[d]) && m.docs[m.keys[d]] == d
    &&& forall|k: u64| #[trigger]
        m.docs.contains_key(k) ==> m.keys.contains_key(m.docs[k]) && m.keys[m.docs[k]] == k
    &&& forall|k: u64| #[trigger] m.docs.contains_key(k) ==> k < m.next
    &&& forall|i: int|
        0 <= i < m.free.len() ==> #[trigger] m.free[i] < m.next && !m.docs.contains_key(m.free[i])
    &&& forall|i: int, j: int|
        0 <= i < j < m.free.len() ==> #[trigger] m.free[i] != #[trigger] m.free[j]
    &&& forall|k: u64| k < m.next ==> #[trigger] m.docs.contains_key(k) || m.free.contains(k)
}

/// The key that a document has or would get.
pub open spec fn key_for(m: RowsModel, doc_id: Seq<char>) -> u64 {
    if m.keys.contains_key(doc_id) {
        m.keys[doc_id]
    } else if m.free.len() > 0 {
        m.free.last()
    } else {
        m.next
    }
}

/// The rows once a document has a key: its own, else the key given back last,
/// else a new one.
pub open spec fn with_row(m: RowsModel, doc_id: Seq<char>) -> RowsModel {
    if m.keys.contains_key(doc_id) {
        m
    } else {
        let k = key_for(m, doc_id);
        RowsModel {
            keys: m.keys.insert(doc_id, k),
            docs: m.docs.insert(k, doc_id),
            free: if m.free.len() > 0 {
                m.free.drop_last()
            } else {
                m.free
            },
            next: if m.free.len() > 0 {
                m.next
            } else {
                (m.next + 1) as u64
            },
            reserved: m.reserved,
        }
    }
}

/// The rows once a document has given its key back.
pub open spec fn without_row(m: RowsModel, doc_id: Seq<char>) -> RowsModel {
    if !m.keys.contains_key(doc_id) {
        m
    } else {
        RowsModel {
            keys: m.keys.remove(doc_id),
            docs: m.docs.remove(m.keys[doc_id]),
            free: m.free.push(m.keys[doc_id]),
            next: m.next,
            reserved: m.reserved,
        }
    }
}

/// A vector's place in the index, and what the index is to be told.
#[derive(Clone, Copy, Debug, PartialEq, Eq, Structural)]
pub struct RowPlan {
    pub key: u64,
    /// The key already holds a vector, which is to be removed first.
    pub replace: bool,
    /// The capacity that is to be reserved first.
    pub grow: Option<usize>,
}

/// The capacity to reserve before a key is used, if it is beyond the reserved
/// one.
pub open spec fn growth(m: RowsModel, key: u64) -> Option<usize> {
    if (key as usize) < m.reserved {
        None
    } else {
        Some((m.reserved * RESERVE_GROWTH_FACTOR) as usize)
    }
}

/// The rows as they are written to disk.
pub struct MappingSnapshot {
    pub doc_to_key: Vec<(String, u64)>,
    pub free_keys: Vec<u64>,
    pub next_key: u64,
    pub reserved_capacity: usize,
}

/// The keys that pairs give, a later pair before an earlier one.
pub open spec fn read_keys(pairs: Seq<(String, u64)>) -> Map<Seq<char>, u64>
    decreases pairs.len(),
{
    if pairs.len() == 0 {
        Map::empty()
    } else {
        read_keys(pairs.drop_last()).insert(pairs.last().0@, pairs.last().1)
    }
}

/// The documents that pairs give, a later pair before an earlier one.
pub open spec fn read_docs(pairs: Seq<(String, u64)>) -> Map<u64, Seq<char>>
    decreases pairs.len(),
{
    if pairs.len() == 0 {
        Map::empty()
    } else {
        read_docs(pairs.drop_last()).insert(pairs.last().1, pairs.last().0@)
    }
}

/// The rows of a snapshot.
pub open spec fn read_rows(s: MappingSnapshot) -> RowsModel {
    RowsModel {
        keys: read_keys(s.doc_to_key@),
        docs: read_docs(s.doc_to_key@),
        free: s.free_keys@,
        next: s.next_key,
        reserved: s.reserved_capacity,
    }
}

/// A similarity from the cosine distance: one less the distance, kept between
/// minus one and one. Both are bits of singles.
pub open spec fn similarity_at(distance: u32) -> u32 {
    let s = difference_bits(ONE, distance);
    if less_bits(s, MINUS_ONE) {
        MINUS_ONE
    } else if less_bits(ONE, s) {
        ONE
    } else {
        s
    }
}

/// The documents that the first `n` keys stand for, with their similarities; a
/// key that stands for none is passed over.
pub open spec fn resolved(m: RowsModel, keys: Seq<u64>, distances: Seq<u32>, n: int) -> Seq<
    (Seq<char>, u32),
>
    decreases n,
{
    if n <= 0 {
        Seq::empty()
    } else {
        let before = resolved(m, keys, distances, n - 1);
        if m.docs.contains_key(keys[n - 1]) {
            before.push((m.docs[keys[n - 1]], similarity_at(distances[n - 1])))
        } else {
            before
        }
    }
}

pub open spec fn resolved_views(v: Seq<(String, u32)>) -> Seq<(Seq<char>, u32)> {
    v.map_values(|p: (String, u32)| (p.0@, p.1))
}

fn to_similarity(distance: u32) -> (r: u32)
    ensures
        r == similarity_at(distance),
{
    let s: u32 = subtract_singles(ONE, distance);
    if bits_less(s, MINUS_ONE) {
        MINUS_ONE
    } else if bits_less(ONE, s) {
        ONE
    } else {
        s
    }
}

/// The rows of a vector index of one dimension.
pub struct VectorIndex {
    dimension: usize,
    doc_to_key: FxHashMap<String, u64>,
    key_to_doc: FxHashMap<u64, String>,
    free_keys: Vec<u64>,
    next_key: u64,
    reserved_capacity: usize,
}

impl View for VectorIndex {
    type V = RowsModel;

    closed spec fn view(&self) -> RowsModel {
        RowsModel {
            keys: numbers_by_text(self.doc_to_key),
            docs: texts_by_number(self.key_to_doc),
            free: self.free_keys@,
            next: self.next_key,
            reserved: self.reserved_capacity,
        }
    }
}

impl VectorIndex {
    /// The number of components of a vector.
    pub closed spec fn size(&self) -> usize {
        self.dimension
    }

    /// An index without rows.
    pub fn new(dimension: usize) -> (r: Result<Self, ShadowError>)
        ensures
            match r {
                Ok(x) => dimension > 0 && x.size() == dimension && x@ == (RowsModel {
                    keys: Map::empty(),
                    docs: Map::empty(),
                    free: Seq::empty(),
                    next: 0,
                    reserved: INITIAL_RESERVE,
                }),
                Err(e) => dimension == 0 && e@ == (ErrorModel::Backend {
                    detail: "VectorIndex dimension must be > 0"@,
                }),
            },
    {
        if dimension == 0 {
            return Err(
                ShadowError::Backend { detail: "VectorIndex dimension must be > 0".to_owned() },
            );
        }
        Ok(
            VectorIndex {
                dimension,
                doc_to_key: empty_by_text(),
                key_to_doc: empty_by_number(),
                free_keys: Vec::new(),
                next_key: 0,
                reserved_capacity: INITIAL_RESERVE,
            },
        )
    }

    pub fn dimension(&self) -> (r: usize)
        ensures
            r == self.size(),
    {
        self.dimension
    }

    /// The number of documents with a row.
    pub fn len(&self) -> (r: usize)
        ensures
            has_size(self@.keys, r as nat),
    {
        len_by_text(&self.doc_to_key)
    }

    pub fn is_empty(&self) -> (r: bool)
        ensures
            r == (self@.keys.dom() == Set::<Seq<char>>::empty()),
    {
        let n: usize = self.len();
        proof {
            if n == 0 {
                assert(self@.keys.dom() =~= Set::<Seq<char>>::empty()) by {
                    assert(self@.keys.dom().finite());
                    assert(self@.keys.dom().len() == 0);
                    self@.keys.dom().lemma_len0_is_empty();
                }
            }
        }
        n == 0
    }

    /// The key of a document.
    pub fn key_of(&self, doc_id: &str) -> (r: Option<u64>)
        ensures
            r == if self@.keys.contains_key(doc_id@) {
                Some(self@.keys[doc_id@])
            } else {
                None
            },
    {
        get_by_text(&self.doc_to_key, doc_id)
    }

    /// The next key that was never used.
    pub fn next_key(&self) -> (r: u64)
        ensures
            r == self@.next,
    {
        self.next_key
    }

    /// Gives a document a row for a vector of `len` components: the row it
    /// has, else one given back, else a new one.
    pub fn add(&mut self, doc_id: &str, len: usize) -> (r: Result<RowPlan, ShadowError>)
        requires
            old(self)@.keys.contains_key(doc_id@) || old(self)@.free.len() > 0 || old(self)@.next
                < u64::MAX,
            old(self)@.reserved * RESERVE_GROWTH_FACTOR <= usize::MAX,
        ensures
            final(self).size() == old(self).size(),
            match r {
                Ok(plan) => len == old(self).size() && final(self)@ == with_row(
                    old(self)@,
                    doc_id@,
                ) && plan == (RowPlan {
                    key: key_for(old(self)@, doc_id@),
                    replace: old(self)@.keys.contains_key(doc_id@),
                    grow: growth(old(self)@, key_for(old(self)@, doc_id@)),
                }),
                Err(e) => len != old(self).size() && final(self)@ == old(self)@ && e@ == (
                ErrorModel::Backend {
                    detail: "vector dim "@ + decimal(len as nat) + " does not match index dim "@
                        + decimal(old(self).size() as nat),
                }),
            },
    {
        if len != self.dimension {
            let a: String = concat2("vector dim ", decimal_string(len as u64).as_str());
            let b: String = concat2(a.as_str(), " does not match index dim ");
            let c: String = concat2(b.as_str(), decimal_string(self.dimension as u64).as_str());
            return Err(ShadowError::Backend { detail: c });
        }
        let (key, replace): (u64, bool) = match get_by_text(&self.doc_to_key, doc_id) {
            Some(k) => (k, true),
            None => {
                let k: u64 = match self.free_keys.pop() {
                    Some(k) => k,
                    None => {
                        let k: u64 = self.next_key;
                        self.next_key = k + 1;
                        k
                    },
                };
                insert_by_text(&mut self.doc_to_key, doc_id.to_owned(), k);
                insert_by_number(&mut self.key_to_doc, k, doc_id.to_owned());
                (k, false)
            },
        };
        let grow: Option<usize> = if (key as usize) < self.reserved_capacity {
            None
        } else {
            Some(self.reserved_capacity * RESERVE_GROWTH_FACTOR)
        };
        Ok(RowPlan { key, replace, grow })
    }

    /// Notes that the index has reserved a capacity.
    pub fn note_reserved(&mut self, capacity: usize)
        ensures
            final(self).size() == old(self).size(),
            final(self)@ == (RowsModel { reserved: capacity, ..old(self)@ }),
    {
        self.reserved_capacity = capacity;
    }

    /// Takes a document's row back. The key, if it had one, is that of the
    /// vector that the index is to remove.
    pub fn remove(&mut self, doc_id: &str) -> (r: Option<u64>)
        ensures
            final(self).size() == old(self).size(),
            final(self)@ == without_row(old(self)@, doc_id@),
            r == if old(self)@.keys.contains_key(doc_id@) {
                Some(old(self)@.keys[doc_id@])
            } else {
                None
            },
    {
        match remove_by_text(&mut self.doc_to_key, doc_id) {
            None => {
                assert(old(self)@.keys.remove(doc_id@) =~= old(self)@.keys);
                None
            },
            Some(key) => {
                remove_by_number(&mut self.key_to_doc, key);
                self.free_keys.push(key);
                Some(key)
            },
        }
    }

    /// Whether a query of so many components, for so many matches, is put to
    /// the index at all.
    pub fn may_search(&self, len: usize, limit: usize) -> (r: bool)
        ensures
            r == (len == self.size() && limit > 0),
    {
        len == self.dimension && limit > 0
    }

    /// The documents that the keys of matches stand for, with their similarities.
    pub fn resolve(&self, keys: &Vec<u64>, distances: &Vec<u32>) -> (r: Vec<(String, u32)>)
        ensures
            resolved_views(r@) == resolved(
                self@,
                keys@,
                distances@,
                if keys@.len() <= distances@.len() {
                    keys@.len() as int
                } else {
                    distances@.len() as int
                },
            ),
    {
        let ghost m = self@;
        let len: usize = if keys.len() <= distances.len() {
            keys.len()
        } else {
            distances.len()
        };
        let mut out: Vec<(String, u32)> = Vec::new();
        let mut i: usize = 0;
        assert(resolved_views(out@) =~= Seq::empty());
        while i < len
            invariant
                i <= len,
                len <= keys@.len(),
                len <= distances@.len(),
                m == self@,
                m.docs == texts_by_number(self.key_to_doc),
                resolved_views(out@) == resolved(m, keys@, distances@, i as int),
            decreases len - i,
        {
            if let Some(doc) = get_by_number(&self.key_to_doc, keys[i]) {
                let ghost before = resolved_views(out@);
                let similarity: u32 = to_similarity(distances[i]);
                out.push((doc, similarity));
                assert(resolved_views(out@) =~= before.push((doc@, similarity)));
            }
            i += 1;
        }
        out
    }

    /// The rows, to be written to disk.
    pub fn snapshot(&self) -> (r: MappingSnapshot)
        ensures
            lists(r.doc_to_key@, self@.keys),
            r.free_keys@ == self@.free,
            r.next_key == self@.next,
            r.reserved_capacity == self@.reserved,
    {
        MappingSnapshot {
            doc_to_key: pairs_by_text(&self.doc_to_key),
            free_keys: self.free_keys.clone(),
            next_key: self.next_key,
            reserved_capacity: self.reserved_capacity,
        }
    }

    /// Takes over the rows of a snapshot.
    pub fn restore(&mut self, s: MappingSnapshot)
        ensures
            final(self).size() == old(self).size(),
            final(self)@ == read_rows(s),
    {
        let ghost pairs = s.doc_to_key@;
        let len: usize = s.doc_to_key.len();
        let mut keys: FxHashMap<String, u64> = empty_by_text();
        let mut docs: FxHashMap<u64, String> = empty_by_number();
        let mut i: usize = 0;
        assert(pairs.take(0) =~= Seq::empty());
        while i < len
            invariant
                i <= len == pairs.len(),
                pairs == s.doc_to_key@,
                numbers_by_text(keys) == read_keys(pairs.take(i as int)),
                texts_by_number(docs) == read_docs(pairs.take(i as int)),
            decreases len - i,
        {
            assert(pairs.take(i + 1).drop_last() =~= pairs.take(i as int));
            assert(pairs.take(i + 1).last() == pairs[i as int]);
            let doc: String = s.doc_to_key[i].0.clone();
            let key: u64 = s.doc_to_key[i].1;
            insert_by_text(&mut keys, doc.clone(), key);
            insert_by_number(&mut docs, key, doc);
            i += 1;
        }
        assert(pairs.take(len as int) =~= pairs);
        self.doc_to_key = keys;
        self.key_to_doc = docs;
        self.free_keys = s.free_keys;
        self.next_key = s.next_key;
        self.reserved_capacity = s.reserved_capacity;
    }
}

/// An index without rows is in order.
pub proof fn law_new_rows_are_in_order(m: RowsModel)
    requires
        m.keys == Map::<Seq<char>, u64>::empty(),
        m.docs == Map::<u64, Seq<char>>::empty(),
        m.free == Seq::<u64>::empty(),
        m.next == 0,
    ensures
        rows_ok(m),
{
}

/// Giving a document a row keeps rows in order, leaves every other document
/// its key, and gives the document a key that stands for it alone.
pub proof fn law_added_row_is_its_own(m: RowsModel, doc_id: Seq<char>, other: Seq<char>)
    requires
        rows_ok(m),
        m.next < u64::MAX,
    ensures
        rows_ok(with_row(m, doc_id)),
        with_row(m, doc_id).keys.contains_key(doc_id),
        with_row(m, doc_id).docs[with_row(m, doc_id).keys[doc_id]] == doc_id,
        other != doc_id && m.keys.contains_key(other) ==> with_row(m, doc_id).keys[other]
            == m.keys[other],
        with_row(m, doc_id).keys.contains_key(other) && other != doc_id ==> with_row(
            m,
            doc_id,
        ).keys[other] != with_row(m, doc_id).keys[doc_id],
{
    let n = with_row(m, doc_id);
    if !m.keys.contains_key(doc_id) {
        let k = key_for(m, doc_id);
        assert(!m.docs.contains_key(k)) by {
            if m.free.len() > 0 {
                assert(m.free[m.free.len() - 1] == k);
            }
        }
        assert forall|d: Seq<char>| #[trigger] n.keys.contains_key(d) implies n.docs.contains_key(
            n.keys[d],
        ) && n.docs[n.keys[d]] == d by {
            if d != doc_id {
                assert(m.keys.contains_key(d));
            }
        }
        assert forall|x: u64| #[trigger] n.docs.contains_key(x) implies n.keys.contains_key(
            n.docs[x],
        ) && n.keys[n.docs[x]] == x && x < n.next by {
            if x != k {
                assert(m.docs.contains_key(x));
            } else if m.free.len() > 0 {
                assert(m.free[m.free.len() - 1] < m.next);
            }
        }
        assert forall|i: int| 0 <= i < n.free.len() implies #[trigger] n.free[i] < n.next
            && !n.docs.contains_key(n.free[i]) by {
            assert(n.free[i] == m.free[i]);
            assert(m.free[i] != m.free[m.free.len() - 1]);
        }
        assert forall|x: u64| x < n.next implies #[trigger] n.docs.contains_key(x)
            || n.free.contains(x) by {
            if x < m.next && !m.docs.contains_key(x) && x != k {
                let i = choose|i: int| 0 <= i < m.free.len() && m.free[i] == x;
                assert(m.free.contains(x));
                if m.free.len() > 0 {
                    assert(i < m.free.len() - 1);
                    assert(n.free[i] == x);
                }
            }
        }
        assert(n.keys.contains_key(doc_id));
        assert(n.keys[doc_id] == k);
        if other != doc_id && n.keys.contains_key(other) {
            assert(m.keys.contains_key(other));
        }
    } else {
        if other != doc_id && m.keys.contains_key(other) {
            assert(m.docs[m.keys[other]] == other);
            assert(m.docs[m.keys[doc_id]] == doc_id);
        }
    }
}

/// Taking a row back keeps rows in order and leaves every other document its
/// key; the document has none.
pub proof fn law_removed_row_is_free(m: RowsModel, doc_id: Seq<char>, other: Seq<char>)
    requires
        rows_ok(m),
    ensures
        rows_ok(without_row(m, doc_id)),
        !without_row(m, doc_id).keys.contains_key(doc_id),
        without_row(m, doc_id).next == m.next,
        other != doc_id ==> without_row(m, doc_id).keys.contains_key(other)
            == m.keys.contains_key(other),
        other != doc_id && m.keys.contains_key(other) ==> without_row(m, doc_id).keys[other]
            == m.keys[other],
{
    let n = without_row(m, doc_id);
    if m.keys.contains_key(doc_id) {
        let k = m.keys[doc_id];
        assert(m.docs.contains_key(k));
        assert forall|d: Seq<char>| #[trigger] n.keys.contains_key(d) implies n.docs.contains_key(
            n.keys[d],
        ) && n.docs[n.keys[d]] == d by {
            assert(m.keys.contains_key(d));
            assert(m.docs[m.keys[d]] == d);
        }
        assert forall|x: u64| #[trigger] n.docs.contains_key(x) implies n.keys.contains_key(
            n.docs[x],
        ) && n.keys[n.docs[x]] == x && x < n.next by {
            assert(m.docs.contains_key(x));
        }
        assert forall|i: int| 0 <= i < n.free.len() implies #[trigger] n.free[i] < n.next
            && !n.docs.contains_key(n.free[i]) by {
            if i < m.free.len() {
                assert(n.free[i] == m.free[i]);
            }
        }
        assert forall|i: int, j: int| 0 <= i < j < n.free.len() implies #[trigger] n.free[i]
            != #[trigger] n.free[j] by {
            assert(n.free[i] == m.free[i]);
            if j < m.free.len() {
                assert(n.free[j] == m.free[j]);
            } else {
                assert(!m.docs.contains_key(m.free[i]));
            }
        }
        assert forall|x: u64| x < n.next implies #[trigger] n.docs.contains_key(x)
            || n.free.contains(x) by {
            if x == k {
                assert(n.free[n.free.len() - 1] == x);
            } else if !m.docs.contains_key(x) {
                assert(m.free.contains(x));
                let i = choose|i: int| 0 <= i < m.free.len() && m.free[i] == x;
                assert(n.free[i] == x);
            }
        }
    }
}

/// A key that was given back is the next one given out, so the keys in use do
/// not spread: a document that comes after one that left gets its key, and no
/// new key is made.
pub proof fn law_keys_are_recycled(m: RowsModel, gone: Seq<char>, new: Seq<char>)
    requires
        rows_ok(m),
        m.keys.contains_key(gone),
        !m.keys.contains_key(new),
    ensures
        key_for(without_row(m, gone), new) == m.keys[gone],
        with_row(without_row(m, gone), new).next == m.next,
        with_row(without_row(m, gone), new).free == m.free,
{
    assert(with_row(without_row(m, gone), new).free =~= m.free);
}

proof fn lemma_read_keys(pairs: Seq<(String, u64)>)
    requires
        forall|i: int, j: int|
            0 <= i < j < pairs.len() ==> (#[trigger] pairs[i]).0@ != (#[trigger] pairs[j]).0@,
    ensures
        forall|d: Seq<char>| #[trigger]
            read_keys(pairs).contains_key(d) <==> exists|i: int|
                0 <= i < pairs.len() && (#[trigger] pairs[i]).0@ == d,
        forall|i: int|
            0 <= i < pairs.len() ==> read_keys(pairs)[(#[trigger] pairs[i]).0@] == pairs[i].1,
    decreases pairs.len(),
{
    if pairs.len() > 0 {
        let front = pairs.drop_last();
        assert forall|i: int, j: int| 0 <= i < j < front.len() implies (#[trigger] front[i]).0@ != (
        #[trigger] front[j]).0@ by {
            assert(front[i] == pairs[i]);
            assert(front[j] == pairs[j]);
        }
        lemma_read_keys(front);
        let last = pairs.len() - 1;
        assert forall|d: Seq<char>| #[trigger] read_keys(pairs).contains_key(d) <==> exists|i: int|
            0 <= i < pairs.len() && (#[trigger] pairs[i]).0@ == d by {
            if read_keys(pairs).contains_key(d) {
                if d == pairs[last].0@ {
                } else {
                    assert(read_keys(front).contains_key(d));
                    let i = choose|i: int| 0 <= i < front.len() && (#[trigger] front[i]).0@ == d;
                    assert(pairs[i] == front[i]);
                }
            }
            if exists|i: int| 0 <= i < pairs.len() && (#[trigger] pairs[i]).0@ == d {
                let i = choose|i: int| 0 <= i < pairs.len() && (#[trigger] pairs[i]).0@ == d;
                if i < last {
                    assert(front[i] == pairs[i]);
                    assert(read_keys(front).contains_key(d));
                }
            }
        }
        assert forall|i: int| 0 <= i < pairs.len() implies read_keys(pairs)[(
        #[trigger] pairs[i]).0@] == pairs[i].1 by {
            if i < last {
                assert(front[i] == pairs[i]);
                assert(pairs[i].0@ != pairs[last].0@);
            }
        }
    }
}

proof fn lemma_read_docs(pairs: Seq<(String, u64)>)
    requires
        forall|i: int, j: int|
            0 <= i < j < pairs.len() ==> (#[trigger] pairs[i]).1 != (#[trigger] pairs[j]).1,
    ensures
        forall|k: u64| #[trigger]
            read_docs(pairs).contains_key(k) <==> exists|i: int|
                0 <= i < pairs.len() && (#[trigger] pairs[i]).1 == k,
        forall|i: int|
            0 <= i < pairs.len() ==> read_docs(pairs)[(#[trigger] pairs[i]).1] == pairs[i].0@,
    decreases pairs.len(),
{
    if pairs.len() > 0 {
        let front = pairs.drop_last();
        assert forall|i: int, j: int| 0 <= i < j < front.len() implies (#[trigger] front[i]).1 != (
        #[trigger] front[j]).1 by {
            assert(front[i] == pairs[i]);
            assert(front[j] == pairs[j]);
        }
        lemma_read_docs(front);
        let last = pairs.len() - 1;
        assert forall|k: u64| #[trigger] read_docs(pairs).contains_key(k) <==> exists|i: int|
            0 <= i < pairs.len() && (#[trigger] pairs[i]).1 == k by {
            if read_docs(pairs).contains_key(k) {
                if k == pairs[last].1 {
                } else {
                    assert(read_docs(front).contains_key(k));
                    let i = choose|i: int| 0 <= i < front.len() && (#[trigger] front[i]).1 == k;
                    assert(pairs[i] == front[i]);
                }
            }
            if exists|i: int| 0 <= i < pairs.len() && (#[trigger] pairs[i]).1 == k {
                let i = choose|i: int| 0 <= i < pairs.len() && (#[trigger] pairs[i]).1 == k;
                if i < last {
                    assert(front[i] == pairs[i]);
                    assert(read_docs(front).contains_key(k));
                }
            }
        }
        assert forall|i: int| 0 <= i < pairs.len() implies read_docs(pairs)[(
        #[trigger] pairs[i]).1] == pairs[i].0@ by {
            if i < last {
                assert(front[i] == pairs[i]);
                assert(pairs[i].1 != pairs[last].1);
            }
        }
    }
}

/// Rows that were written and read back are the rows that were written, free
/// keys included.
pub proof fn law_rows_survive_a_snapshot(m: RowsModel, s: MappingSnapshot)
    requires
        rows_ok(m),
        lists(s.doc_to_key@, m.keys),
        s.free_keys@ == m.free,
        s.next_key == m.next,
        s.reserved_capacity == m.reserved,
    ensures
        read_rows(s) == m,
{
    let pairs = s.doc_to_key@;
    assert forall|i: int, j: int| 0 <= i < j < pairs.len() implies (#[trigger] pairs[i]).1 != (
    #[trigger] pairs[j]).1 by {
        assert(m.docs[m.keys[pairs[i].0@]] == pairs[i].0@);
        assert(m.docs[m.keys[pairs[j].0@]] == pairs[j].0@);
        assert(pairs[i].0@ != pairs[j].0@);
    }
    lemma_read_keys(pairs);
    lemma_read_docs(pairs);
    assert(read_keys(pairs) =~= m.keys) by {
        assert forall|d: Seq<char>| read_keys(pairs).contains_key(d) <==> m.keys.contains_key(d) by {
            if m.keys.contains_key(d) {
                let i = choose|i: int| 0 <= i < pairs.len() && (#[trigger] pairs[i]).0@ == d;
                assert(pairs[i].0@ == d);
            }
        }
        assert forall|d: Seq<char>| #[trigger] m.keys.contains_key(d) implies read_keys(pairs)[d]
            == m.keys[d] by {
            let i = choose|i: int| 0 <= i < pairs.len() && (#[trigger] pairs[i]).0@ == d;
            assert(pairs[i].0@ == d);
        }
    }
    assert(read_docs(pairs) =~= m.docs) by {
        assert forall|k: u64| read_docs(pairs).contains_key(k) <==> m.docs.contains_key(k) by {
            if m.docs.contains_key(k) {
                let d = m.docs[k];
                assert(m.keys.contains_key(d));
                let i = choose|i: int| 0 <= i < pairs.len() && (#[trigger] pairs[i]).0@ == d;
                assert(pairs[i].1 == k);
            }
            if read_docs(pairs).contains_key(k) {
                let i = choose|i: int| 0 <= i < pairs.len() && (#[trigger] pairs[i]).1 == k;
                assert(m.keys.contains_key(pairs[i].0@));
            }
        }
        assert forall|k: u64| #[trigger] m.docs.contains_key(k) implies read_docs(pairs)[k]
            == m.docs[k] by {
            let d = m.docs[k];
            assert(m.keys.contains_key(d));
            let i = choose|i: int| 0 <= i < pairs.len() && (#[trigger] pairs[i]).0@ == d;
            assert(pairs[i].1 == k);
        }
    }
}

/// A similarity is a number from minus one to one wherever the distance is a
/// number.
pub proof fn law_similarity_is_bounded(distance: u32)
    requires
        !is_nan_bits(distance),
    ensures
        !is_nan_bits(similarity_at(distance)),
        !less_bits(similarity_at(distance), MINUS_ONE),
        !less_bits(ONE, similarity_at(distance)),
{
    law_numbers_have_a_sum(ONE, opposite(distance));
}

} // verus!
