//! Segments: entries gather in a growing segment, which is sealed when it is
//! full, and sealed segments remember how often they are read.

use vstd::prelude::*;

use crate::bits::{bits_double_key, bits_value_key, double_key, value_key};
use crate::double::{
    divide_doubles, double_of, integer_bits, multiply_doubles, product_bits, quotient_bits,
};
use crate::keys::string_views;
use crate::order::{
    candidate_models, lemma_ranked_places, rank_candidates, ranked, Candidate, CandidateModel,
};
use crate::quant::butterfly::{rotated, turns_fit, RotationTurns, StageTurns};
use crate::quant::metal::{law_next_power, next_power, next_power_of_two};
use crate::quant::products::{dot, dot_product, products, shorter};
use crate::quant::turbo::{
    has_codes, is_quantized, levels_of, resized, turbo_dot_product_pre_rotated,
    turbo_quantize_pre_rotated, TurboQuantBits, TurboQuantVector,
};

verus! {

/// The settings of a segmented index.
#[derive(Clone, Copy, Debug, PartialEq, Eq, Structural)]
pub struct SegmentConfig {
    /// The number of entries at which the growing segment is sealed.
    pub seal_threshold: usize,
    /// The width of the codes of sealed segments.
    pub sealed_bits: TurboQuantBits,
    /// The number of components of a vector.
    pub dim: usize,
    /// After how many searches without a read a segment is half as warm.
    pub temperature_half_life: u64,
}

impl Default for SegmentConfig {
    fn default() -> (r: Self)
        ensures
            r == (SegmentConfig {
                seal_threshold: 10_000,
                sealed_bits: TurboQuantBits::Bit4,
                dim: 384,
                temperature_half_life: 1000,
            }),
    {
        SegmentConfig {
            seal_threshold: 10_000,
            sealed_bits: TurboQuantBits::Bit4,
            dim: 384,
            temperature_half_life: 1000,
        }
    }
}

/// An entry of the growing segment, with the bits of its components.
#[derive(Debug, PartialEq, Eq)]
pub struct GrowingEntry {
    pub doc_id: String,
    pub embedding: Vec<u32>,
    pub text: String,
}

#[verifier::ext_equal]
pub struct GrowingModel {
    pub doc_id: Seq<char>,
    pub embedding: Seq<u32>,
    pub text: Seq<char>,
}

impl View for GrowingEntry {
    type V = GrowingModel;

    open spec fn view(&self) -> GrowingModel {
        GrowingModel { doc_id: self.doc_id@, embedding: self.embedding@, text: self.text@ }
    }
}

/// The identifiers of entries.
pub open spec fn ids_of(entries: Seq<GrowingModel>) -> Seq<Seq<char>> {
    entries.map_values(|e: GrowingModel| e.doc_id)
}

/// The texts of entries.
pub open spec fn texts_of(entries: Seq<GrowingModel>) -> Seq<Seq<char>> {
    entries.map_values(|e: GrowingModel| e.text)
}

pub open spec fn growing_models(v: Seq<GrowingEntry>) -> Seq<GrowingModel> {
    v.map_values(|e: GrowingEntry| e@)
}

/// A sealed segment.
pub struct SealedSegment {
    pub id: u64,
    /// The identifiers of the entries, in the order in which they came.
    pub doc_ids: Vec<String>,
    pub texts: Vec<String>,
    pub quantized: Vec<TurboQuantVector>,
    /// The version of the rotation that the vectors were made with.
    pub rotation_version: u64,
    /// How often the segment was searched.
    pub read_count: u64,
    /// The clock at the last search.
    pub last_access: u64,
}

#[verifier::ext_equal]
pub struct SegmentModel {
    pub id: u64,
    pub doc_ids: Seq<Seq<char>>,
    pub texts: Seq<Seq<char>>,
    pub quantized: Seq<TurboQuantVector>,
    pub rotation_version: u64,
    pub read_count: u64,
    pub last_access: u64,
}

impl View for SealedSegment {
    type V = SegmentModel;

    open spec fn view(&self) -> SegmentModel {
        SegmentModel {
            id: self.id,
            doc_ids: string_views(self.doc_ids@),
            texts: string_views(self.texts@),
            quantized: self.quantized@,
            rotation_version: self.rotation_version,
            read_count: self.read_count,
            last_access: self.last_access,
        }
    }
}

pub open spec fn segment_models(v: Seq<SealedSegment>) -> Seq<SegmentModel> {
    v.map_values(|s: SealedSegment| s@)
}

/// A segment after a search at a clock. Counts wrap round.
pub open spec fn accessed(s: SegmentModel, clock: u64) -> SegmentModel {
    SegmentModel { read_count: s.read_count.wrapping_add(1), last_access: clock, ..s }
}

/// The searches since the last one of a segment, and zero if the clock is
/// behind.
pub open spec fn age_of(s: SegmentModel, clock: u64) -> nat {
    if clock >= s.last_access {
        (clock - s.last_access) as nat
    } else {
        0
    }
}

/// How often the temperature of a segment is halved, as the bits of a double. A
/// half-life of zero is taken as one.
pub open spec fn cooled(s: SegmentModel, clock: u64, half_life: u64) -> u64 {
    quotient_bits(
        integer_bits(age_of(s, clock)),
        integer_bits(
            if half_life == 0 {
                1
            } else {
                half_life as nat
            },
        ),
    )
}

/// The temperature of a segment, as the bits of a double: how often it was
/// searched, times what is left of that.
pub open spec fn warmth(s: SegmentModel, left: u64) -> u64 {
    product_bits(integer_bits(s.read_count as nat), left)
}

impl SealedSegment {
    /// Counts a search.
    pub fn record_access(&mut self, global_clock: u64)
        ensures
            final(self)@ == accessed(old(self)@, global_clock),
    {
        self.read_count = self.read_count.wrapping_add(1);
        self.last_access = global_clock;
    }

    /// How often the temperature is halved.
    pub fn halvings(&self, global_clock: u64, half_life: u64) -> (r: u64)
        ensures
            r == cooled(self@, global_clock, half_life),
    {
        let age: u64 = if global_clock >= self.last_access {
            global_clock - self.last_access
        } else {
            0
        };
        let unit: u64 = if half_life == 0 {
            1
        } else {
            half_life
        };
        divide_doubles(double_of(age), double_of(unit))
    }

    /// The temperature, given what is left of it: the bits of a half to the power
    /// of its halvings.
    pub fn temperature(&self, left: u64) -> (r: u64)
        ensures
            r == warmth(self@, left),
    {
        multiply_doubles(double_of(self.read_count), left)
    }

    /// The number of entries.
    pub fn len(&self) -> (r: usize)
        ensures
            r == self@.doc_ids.len(),
    {
        self.doc_ids.len()
    }

    pub fn is_empty(&self) -> (r: bool)
        ensures
            r == (self@.doc_ids.len() == 0),
    {
        self.doc_ids.len() == 0
    }
}

/// What a segmented index holds.
#[verifier::ext_equal]
pub struct SegmentsModel {
    pub config: SegmentConfig,
    pub growing: Seq<GrowingModel>,
    pub sealed: Seq<SegmentModel>,
    pub next_segment_id: u64,
    pub clock: u64,
}

/// An entry found by a search. The score is the bits of a number.
#[derive(Debug, PartialEq, Eq)]
pub struct SegmentSearchResult {
    pub doc_id: String,
    pub text: String,
    pub score_bits: u32,
    /// The segment, or the greatest number for the growing one.
    pub segment_id: u64,
}

#[verifier::ext_equal]
pub struct FoundModel {
    pub doc_id: Seq<char>,
    pub text: Seq<char>,
    pub score_bits: u32,
    pub segment_id: u64,
}

impl View for SegmentSearchResult {
    type V = FoundModel;

    open spec fn view(&self) -> FoundModel {
        FoundModel {
            doc_id: self.doc_id@,
            text: self.text@,
            score_bits: self.score_bits,
            segment_id: self.segment_id,
        }
    }
}

pub open spec fn found_models(v: Seq<SegmentSearchResult>) -> Seq<FoundModel> {
    v.map_values(|x: SegmentSearchResult| x@)
}

/// A vector as it is compared with sealed ones: padded and rotated.
pub open spec fn turned_vector(v: Seq<u32>, dim: usize, stages: Seq<StageTurns>) -> Seq<u32> {
    rotated(resized(v, next_power(dim as nat)), stages, stages.len() as int)
}

/// The score of a quantised vector for a rotated query.
pub open spec fn sealed_score(asked: Seq<u32>, v: TurboQuantVector) -> u32 {
    products(0, asked, levels_of(v), shorter(asked.len(), v.dim as nat))
}

/// The entries of the growing segment with their scores: the products of their
/// vectors and the query.
pub open spec fn growing_scored(entries: Seq<GrowingModel>, query: Seq<u32>) -> Seq<FoundModel> {
    entries.map_values(
        |e: GrowingModel|
            FoundModel {
                doc_id: e.doc_id,
                text: e.text,
                score_bits: dot(e.embedding, query),
                segment_id: u64::MAX,
            },
    )
}

/// The entries of a sealed segment with their scores.
pub open spec fn sealed_scored(s: SegmentModel, asked: Seq<u32>) -> Seq<FoundModel> {
    Seq::new(
        s.quantized.len(),
        |i: int|
            FoundModel {
                doc_id: s.doc_ids[i],
                text: s.texts[i],
                score_bits: sealed_score(asked, s.quantized[i]),
                segment_id: s.id,
            },
    )
}

/// The entries of the growing segment and of the first `n` sealed ones with
/// their scores.
pub open spec fn all_scored(
    m: SegmentsModel,
    query: Seq<u32>,
    asked: Seq<u32>,
    n: int,
) -> Seq<FoundModel>
    decreases n,
{
    if n <= 0 {
        growing_scored(m.growing, query)
    } else {
        all_scored(m, query, asked, n - 1) + sealed_scored(m.sealed[n - 1], asked)
    }
}

/// Found entries as candidates, the best score first.
pub open spec fn found_candidates(found: Seq<FoundModel>) -> Seq<CandidateModel> {
    Seq::new(
        found.len(),
        |i: int|
            CandidateModel {
                key: value_key(found[i].score_bits) as i64,
                id: Seq::empty(),
                index: i as usize,
            },
    )
}

/// The best of found entries, of equal ones the first.
pub open spec fn best_found(found: Seq<FoundModel>, top_k: int) -> Seq<FoundModel> {
    let order = ranked(found_candidates(found));
    let n = if top_k < found.len() {
        top_k as nat
    } else {
        found.len()
    };
    Seq::new(n, |i: int| found[order[i].index as int])
}

/// The number of entries of segments.
pub open spec fn entries_of(sealed: Seq<SegmentModel>) -> nat
    decreases sealed.len(),
{
    if sealed.len() == 0 {
        0
    } else {
        entries_of(sealed.drop_last()) + sealed.last().doc_ids.len()
    }
}

/// The number of all entries.
pub open spec fn all_entries(m: SegmentsModel) -> nat {
    m.growing.len() + entries_of(m.sealed)
}

/// The index with one more sealed segment.
pub open spec fn with_segment(
    m: SegmentsModel,
    entries: Seq<GrowingModel>,
    quantized: Seq<TurboQuantVector>,
    rotation_version: u64,
) -> SegmentsModel {
    SegmentsModel {
        sealed: m.sealed.push(
            SegmentModel {
                id: m.next_segment_id,
                doc_ids: ids_of(entries),
                texts: texts_of(entries),
                quantized,
                rotation_version,
                read_count: 0,
                last_access: m.clock,
            },
        ),
        next_segment_id: m.next_segment_id.wrapping_add(1),
        ..m
    }
}

fn push_growing(out: &mut Vec<SegmentSearchResult>, entries: &Vec<GrowingEntry>, query: &Vec<u32>)
    ensures
        found_models(final(out)@) == found_models(old(out)@) + growing_scored(
            growing_models(entries@),
            query@,
        ),
{
    let ghost start = found_models(out@);
    let ghost models = growing_models(entries@);
    let ghost goal = growing_scored(models, query@);
    let len: usize = entries.len();
    let mut i: usize = 0;
    assert(start + goal.take(0) =~= start);
    while i < len
        invariant
            i <= len == entries@.len(),
            models == growing_models(entries@),
            goal == growing_scored(models, query@),
            found_models(out@) == start + goal.take(i as int),
        decreases len - i,
    {
        let ghost before = found_models(out@);
        let x: SegmentSearchResult = SegmentSearchResult {
            doc_id: entries[i].doc_id.clone(),
            text: entries[i].text.clone(),
            score_bits: dot_product(&entries[i].embedding, query),
            segment_id: u64::MAX,
        };
        assert(models[i as int] == entries@[i as int]@);
        assert(x@ =~= goal[i as int]);
        out.push(x);
        assert(found_models(out@) =~= before.push(x@));
        assert(before.push(x@) =~= start + goal.take(i + 1));
        i += 1;
    }
    assert(goal.take(len as int) =~= goal);
}

fn push_sealed(out: &mut Vec<SegmentSearchResult>, segment: &SealedSegment, asked: &Vec<u32>)
    requires
        segment_ok(segment@),
    ensures
        found_models(final(out)@) == found_models(old(out)@) + sealed_scored(segment@, asked@),
{
    let ghost start = found_models(out@);
    let ghost goal = sealed_scored(segment@, asked@);
    let len: usize = segment.doc_ids.len();
    let mut i: usize = 0;
    assert(start + goal.take(0) =~= start);
    while i < len
        invariant
            i <= len == segment.doc_ids@.len() == segment.texts@.len(),
            len == segment.quantized@.len(),
            segment_ok(segment@),
            goal == sealed_scored(segment@, asked@),
            found_models(out@) == start + goal.take(i as int),
        decreases len - i,
    {
        let ghost before = found_models(out@);
        assert(has_codes(segment@.quantized[i as int]));
        let x: SegmentSearchResult = SegmentSearchResult {
            doc_id: segment.doc_ids[i].clone(),
            text: segment.texts[i].clone(),
            score_bits: turbo_dot_product_pre_rotated(asked, &segment.quantized[i]),
            segment_id: segment.id,
        };
        assert(segment@.doc_ids[i as int] == segment.doc_ids@[i as int]@);
        assert(segment@.texts[i as int] == segment.texts@[i as int]@);
        assert(x@ =~= goal[i as int]);
        out.push(x);
        assert(found_models(out@) =~= before.push(x@));
        assert(before.push(x@) =~= start + goal.take(i + 1));
        i += 1;
    }
    assert(goal.take(len as int) =~= goal);
}

/// Whether a sealed segment has a text and a vector with all its codes for each
/// of its entries.
pub open spec fn segment_ok(s: SegmentModel) -> bool {
    &&& s.texts.len() == s.doc_ids.len()
    &&& s.quantized.len() == s.doc_ids.len()
    &&& forall|i: int| 0 <= i < s.quantized.len() ==> has_codes(#[trigger] s.quantized[i])
}

/// Whether every sealed segment is in order.
pub open spec fn segments_ok(m: SegmentsModel) -> bool {
    forall|i: int| 0 <= i < m.sealed.len() ==> segment_ok(#[trigger] m.sealed[i])
}

/// Whether the vectors of entries can be rotated and quantised.
pub open spec fn can_turn(config: SegmentConfig, rotation: RotationTurns) -> bool {
    &&& next_power(config.dim as nat) + 8 <= usize::MAX
    &&& turns_fit(rotation, next_power(config.dim as nat))
}

fn turn(v: &Vec<u32>, dim: usize, rotation: &RotationTurns) -> (r: Vec<u32>)
    requires
        next_power(dim as nat) <= usize::MAX,
        turns_fit(*rotation, next_power(dim as nat)),
    ensures
        r@ == turned_vector(v@, dim, rotation.stages@),
        r@.len() == next_power(dim as nat),
{
    let n: usize = next_power_of_two(dim);
    let mut x: Vec<u32> = Vec::new();
    let mut i: usize = 0;
    while i < n
        invariant
            i <= n,
            x@ =~= resized(v@, n as nat).take(i as int),
        decreases n - i,
    {
        if i < v.len() {
            x.push(v[i]);
        } else {
            x.push(0);
        }
        i += 1;
    }
    assert(x@ =~= resized(v@, n as nat));
    rotation.rotate_forward(&mut x);
    x
}

/// Whether quantised vectors are those of entries.
pub open spec fn are_quantized(
    vectors: Seq<TurboQuantVector>,
    entries: Seq<GrowingModel>,
    config: SegmentConfig,
    stages: Seq<StageTurns>,
) -> bool {
    &&& vectors.len() == entries.len()
    &&& forall|i: int|
        0 <= i < entries.len() ==> is_quantized(
            #[trigger] vectors[i],
            turned_vector(entries[i].embedding, config.dim, stages),
            config.sealed_bits,
        )
}

/// An index of segments.
pub struct SegmentedIndex {
    config: SegmentConfig,
    growing: Vec<GrowingEntry>,
    sealed: Vec<SealedSegment>,
    next_segment_id: u64,
    global_clock: u64,
}

impl View for SegmentedIndex {
    type V = SegmentsModel;

    closed spec fn view(&self) -> SegmentsModel {
        SegmentsModel {
            config: self.config,
            growing: growing_models(self.growing@),
            sealed: segment_models(self.sealed@),
            next_segment_id: self.next_segment_id,
            clock: self.global_clock,
        }
    }
}

impl SegmentedIndex {
    pub fn new(config: SegmentConfig) -> (r: Self)
        ensures
            r@ == (SegmentsModel {
                config,
                growing: Seq::empty(),
                sealed: Seq::empty(),
                next_segment_id: 0,
                clock: 0,
            }),
            segments_ok(r@),
    {
        let r: SegmentedIndex = SegmentedIndex {
            config,
            growing: Vec::new(),
            sealed: Vec::new(),
            next_segment_id: 0,
            global_clock: 0,
        };
        assert(growing_models(r.growing@) =~= Seq::empty());
        assert(segment_models(r.sealed@) =~= Seq::empty());
        r
    }

    /// Adds an entry to the growing segment. If that is full then, its entries
    /// are handed out, to be sealed.
    pub fn insert(&mut self, doc_id: String, embedding: Vec<u32>, text: String) -> (r: Option<
        Vec<GrowingEntry>,
    >)
        ensures
            ({
                let e = GrowingModel { doc_id: doc_id@, embedding: embedding@, text: text@ };
                let all = old(self)@.growing.push(e);
                match r {
                    Some(v) => all.len() >= old(self)@.config.seal_threshold && growing_models(v@)
                        == all && final(self)@ == (SegmentsModel {
                        growing: Seq::empty(),
                        ..old(self)@
                    }),
                    None => all.len() < old(self)@.config.seal_threshold && final(self)@ == (
                    SegmentsModel { growing: all, ..old(self)@ }),
                }
            }),
    {
        let ghost start = self@;
        let entry: GrowingEntry = GrowingEntry { doc_id, embedding, text };
        self.growing.push(entry);
        assert(growing_models(self.growing@) =~= start.growing.push(entry@));
        if self.growing.len() >= self.config.seal_threshold {
            Some(self.take_growing())
        } else {
            None
        }
    }

    fn take_growing(&mut self) -> (r: Vec<GrowingEntry>)
        ensures
            growing_models(r@) == old(self)@.growing,
            final(self)@ == (SegmentsModel { growing: Seq::empty(), ..old(self)@ }),
    {
        let mut out: Vec<GrowingEntry> = Vec::new();
        std::mem::swap(&mut out, &mut self.growing);
        assert(growing_models(self.growing@) =~= Seq::empty());
        out
    }

    /// Hands out the entries of the growing segment, to be sealed, if there
    /// are any.
    pub fn flush(&mut self) -> (r: Option<Vec<GrowingEntry>>)
        ensures
            match r {
                Some(v) => old(self)@.growing.len() > 0 && growing_models(v@)
                    == old(self)@.growing && final(self)@ == (SegmentsModel {
                    growing: Seq::empty(),
                    ..old(self)@
                }),
                None => old(self)@.growing.len() == 0 && final(self)@ == old(self)@,
            },
    {
        if self.growing.len() == 0 {
            return None;
        }
        Some(self.take_growing())
    }

    /// Seals entries into a segment of its own: their vectors are rotated and
    /// quantised.
    pub fn seal_segment(&mut self, entries: Vec<GrowingEntry>, rotation: &RotationTurns)
        requires
            segments_ok(old(self)@),
            can_turn(old(self)@.config, *rotation),
        ensures
            segments_ok(final(self)@),
            are_quantized(
                final(self)@.sealed.last().quantized,
                growing_models(entries@),
                old(self)@.config,
                rotation.stages@,
            ),
            final(self)@ == with_segment(
                old(self)@,
                growing_models(entries@),
                final(self)@.sealed.last().quantized,
                rotation.version,
            ),
    {
        let ghost start = self@;
        let ghost models = growing_models(entries@);
        let mut doc_ids: Vec<String> = Vec::new();
        let mut texts: Vec<String> = Vec::new();
        let mut quantized: Vec<TurboQuantVector> = Vec::new();
        let mut i: usize = 0;
        proof {
            lemma_power_is_next(self.config.dim as nat);
        }
        while i < entries.len()
            invariant
                i <= entries@.len(),
                models == growing_models(entries@),
                can_turn(self.config, *rotation),
                next_power(next_power(self.config.dim as nat)) == next_power(
                    self.config.dim as nat,
                ),
                self@ == start,
                string_views(doc_ids@) =~= ids_of(models).take(i as int),
                string_views(texts@) =~= texts_of(models).take(i as int),
                quantized@.len() == i,
                forall|k: int|
                    0 <= k < i ==> has_codes(#[trigger] quantized@[k]) && is_quantized(
                        quantized@[k],
                        turned_vector(models[k].embedding, self.config.dim, rotation.stages@),
                        self.config.sealed_bits,
                    ),
            decreases entries@.len() - i,
        {
            let ghost a = string_views(doc_ids@);
            let ghost b = string_views(texts@);
            assert(models[i as int] == entries@[i as int]@);
            doc_ids.push(entries[i].doc_id.clone());
            texts.push(entries[i].text.clone());
            assert(string_views(doc_ids@) =~= a.push(models[i as int].doc_id));
            assert(string_views(texts@) =~= b.push(models[i as int].text));
            let x: Vec<u32> = turn(&entries[i].embedding, self.config.dim, rotation);
            quantized.push(turbo_quantize_pre_rotated(x, self.config.sealed_bits));
            i += 1;
        }
        assert(ids_of(models).take(entries@.len() as int) =~= ids_of(models));
        assert(texts_of(models).take(entries@.len() as int) =~= texts_of(models));
        let segment: SealedSegment = SealedSegment {
            id: self.next_segment_id,
            doc_ids,
            texts,
            quantized,
            rotation_version: rotation.version,
            read_count: 0,
            last_access: self.global_clock,
        };
        self.next_segment_id = self.next_segment_id.wrapping_add(1);
        self.sealed.push(segment);
        assert(segment_models(self.sealed@) =~= start.sealed.push(segment@));
        assert(self@.sealed.last() == segment@);
        assert forall|k: int| 0 <= k < self@.sealed.len() implies segment_ok(
            #[trigger] self@.sealed[k],
        ) by {
            if k < start.sealed.len() {
                assert(self@.sealed[k] == start.sealed[k]);
            }
        }
    }

    /// A sealed segment.
    pub fn segment(&self, i: usize) -> (r: &SealedSegment)
        requires
            i < self@.sealed.len(),
        ensures
            r@ == self@.sealed[i as int],
    {
        &self.sealed[i]
    }

    /// The clock: how many searches there were.
    pub fn clock(&self) -> (r: u64)
        ensures
            r == self@.clock,
    {
        self.global_clock
    }

    /// The best entries of all segments for a query, which is rotated as the
    /// sealed vectors were. Every sealed segment counts the search, and the clock
    /// moves on.
    pub fn search(&mut self, query: &Vec<u32>, rotation: &RotationTurns, top_k: usize) -> (r: Vec<
        SegmentSearchResult,
    >)
        requires
            segments_ok(old(self)@),
            can_turn(old(self)@.config, *rotation),
        ensures
            segments_ok(final(self)@),
            found_models(r@) == best_found(
                all_scored(
                    old(self)@,
                    query@,
                    turned_vector(query@, old(self)@.config.dim, rotation.stages@),
                    old(self)@.sealed.len() as int,
                ),
                top_k as int,
            ),
            final(self)@ == (SegmentsModel {
                sealed: old(self)@.sealed.map_values(
                    |s: SegmentModel| accessed(s, old(self)@.clock),
                ),
                clock: old(self)@.clock.wrapping_add(1),
                ..old(self)@
            }),
    {
        let ghost m = self@;
        let clock: u64 = self.global_clock;
        self.global_clock = clock.wrapping_add(1);
        let asked: Vec<u32> = turn(query, self.config.dim, rotation);
        let mut all: Vec<SegmentSearchResult> = Vec::new();
        let ghost first = growing_scored(m.growing, query@);
        assert(found_models(all@) + first =~= first);
        push_growing(&mut all, &self.growing, query);
        let len: usize = self.sealed.len();
        let mut i: usize = 0;
        while i < len
            invariant
                i <= len == self.sealed@.len() == m.sealed.len(),
                self.config == m.config,
                growing_models(self.growing@) == m.growing,
                self.next_segment_id == m.next_segment_id,
                self.global_clock == m.clock.wrapping_add(1),
                clock == m.clock,
                segments_ok(m),
                forall|k: int|
                    0 <= k < i ==> (#[trigger] self.sealed@[k])@ == accessed(m.sealed[k], clock),
                forall|k: int| i <= k < len ==> (#[trigger] self.sealed@[k])@ == m.sealed[k],
                found_models(all@) == all_scored(m, query@, asked@, i as int),
            decreases len - i,
        {
            assert(self.sealed@[i as int]@ == m.sealed[i as int]);
            push_sealed(&mut all, &self.sealed[i], &asked);
            self.sealed[i].record_access(clock);
            i += 1;
        }
        proof {
            assert(segment_models(self.sealed@) =~= m.sealed.map_values(
                |s: SegmentModel| accessed(s, m.clock),
            ));
            assert forall|k: int| 0 <= k < self@.sealed.len() implies segment_ok(
                #[trigger] self@.sealed[k],
            ) by {
                assert(self@.sealed[k] == accessed(m.sealed[k], m.clock));
            }
        }
        keep_best(&all, top_k)
    }

    /// The segments by temperature, given what is left of each: the warmest
    /// first, of equal ones the first.
    pub fn segments_by_temperature(&self, left: &Vec<u64>) -> (r: Vec<(u64, u64)>)
        requires
            left@.len() == self@.sealed.len(),
        ensures
            r@ == by_temperature(self@.sealed, warmths(self@.sealed, left@)),
    {
        let ghost wanted = warmths(self@.sealed, left@);
        let mut temperatures: Vec<u64> = Vec::new();
        let mut i: usize = 0;
        while i < self.sealed.len()
            invariant
                i <= self.sealed@.len() == left@.len(),
                self@.sealed == segment_models(self.sealed@),
                wanted == warmths(self@.sealed, left@),
                temperatures@ =~= wanted.take(i as int),
            decreases self.sealed@.len() - i,
        {
            assert(self@.sealed[i as int] == self.sealed@[i as int]@);
            temperatures.push(self.sealed[i].temperature(left[i]));
            i += 1;
        }
        assert(wanted.take(left@.len() as int) =~= wanted);
        self.rank_by(&temperatures)
    }

    fn rank_by(&self, temperatures: &Vec<u64>) -> (r: Vec<(u64, u64)>)
        requires
            temperatures@.len() == self@.sealed.len(),
        ensures
            r@ == by_temperature(self@.sealed, temperatures@),
    {
        let len: usize = temperatures.len();
        let ghost wanted = warm_candidates(temperatures@);
        let mut cs: Vec<Candidate> = Vec::new();
        let mut i: usize = 0;
        while i < len
            invariant
                i <= len == temperatures@.len(),
                wanted == warm_candidates(temperatures@),
                candidate_models(cs@) =~= wanted.take(i as int),
            decreases len - i,
        {
            let ghost before = candidate_models(cs@);
            let c: Candidate = Candidate {
                key: bits_double_key(temperatures[i]),
                id: String::new(),
                index: i,
            };
            cs.push(c);
            assert(c@ =~= wanted[i as int]);
            assert(candidate_models(cs@) =~= before.push(c@));
            i += 1;
        }
        assert(wanted.take(len as int) =~= wanted);
        let order: Vec<Candidate> = rank_candidates(cs);
        proof {
            lemma_ranked_places(wanted);
        }
        let ghost goal = by_temperature(self@.sealed, temperatures@);
        let mut out: Vec<(u64, u64)> = Vec::new();
        let mut k: usize = 0;
        while k < len
            invariant
                k <= len == temperatures@.len() == self@.sealed.len() == order@.len(),
                self@.sealed == segment_models(self.sealed@),
                wanted == warm_candidates(temperatures@),
                candidate_models(order@) == ranked(wanted),
                forall|j: int| 0 <= j < len ==> (#[trigger] ranked(wanted)[j]).index < len,
                goal == by_temperature(self@.sealed, temperatures@),
                out@ =~= goal.take(k as int),
            decreases len - k,
        {
            assert(candidate_models(order@)[k as int] == order@[k as int]@);
            assert(ranked(wanted)[k as int].index < len);
            let at: usize = order[k].index;
            assert(self@.sealed[at as int] == self.sealed@[at as int]@);
            out.push((self.sealed[at].id, temperatures[at]));
            k += 1;
        }
        assert(goal.take(len as int) =~= goal);
        out
    }

    /// The number of all entries.
    pub fn total_entries(&self) -> (r: usize)
        requires
            all_entries(self@) <= usize::MAX,
        ensures
            r == all_entries(self@),
    {
        let ghost sealed = self@.sealed;
        let mut total: usize = self.growing.len();
        let mut i: usize = 0;
        assert(sealed.take(0) =~= Seq::empty());
        while i < self.sealed.len()
            invariant
                i <= self.sealed@.len(),
                sealed == segment_models(self.sealed@),
                self@.growing.len() + entries_of(sealed) <= usize::MAX,
                total == self@.growing.len() + entries_of(sealed.take(i as int)),
            decreases self.sealed@.len() - i,
        {
            assert(sealed.take(i + 1).drop_last() =~= sealed.take(i as int));
            assert(sealed.take(i + 1).last() == self.sealed@[i as int]@);
            proof {
                lemma_entries_mono(sealed, i + 1);
            }
            total += self.sealed[i].len();
            i += 1;
        }
        assert(sealed.take(sealed.len() as int) =~= sealed);
        total
    }

    /// The number of sealed segments.
    pub fn num_sealed_segments(&self) -> (r: usize)
        ensures
            r == self@.sealed.len(),
    {
        self.sealed.len()
    }
}

/// Segments as candidates, the warmest first.
pub open spec fn warm_candidates(temperatures: Seq<u64>) -> Seq<CandidateModel> {
    Seq::new(
        temperatures.len(),
        |i: int|
            CandidateModel {
                key: double_key(temperatures[i]) as i64,
                id: Seq::empty(),
                index: i as usize,
            },
    )
}

/// The temperatures of segments, given what is left of each.
pub open spec fn warmths(sealed: Seq<SegmentModel>, left: Seq<u64>) -> Seq<u64> {
    Seq::new(sealed.len(), |i: int| warmth(sealed[i], left[i]))
}

/// The identifiers and temperatures of segments, the warmest first.
pub open spec fn by_temperature(sealed: Seq<SegmentModel>, temperatures: Seq<u64>) -> Seq<
    (u64, u64),
> {
    let order = ranked(warm_candidates(temperatures));
    Seq::new(
        temperatures.len(),
        |i: int|
            (sealed[order[i].index as int].id, temperatures[order[i].index as int]),
    )
}

fn keep_best(found: &Vec<SegmentSearchResult>, top_k: usize) -> (r: Vec<SegmentSearchResult>)
    ensures
        found_models(r@) == best_found(found_models(found@), top_k as int),
{
    let ghost models = found_models(found@);
    let ghost wanted = found_candidates(models);
    let len: usize = found.len();
    let mut cs: Vec<Candidate> = Vec::new();
    let mut i: usize = 0;
    while i < len
        invariant
            i <= len == found@.len(),
            models == found_models(found@),
            wanted == found_candidates(models),
            candidate_models(cs@) =~= wanted.take(i as int),
        decreases len - i,
    {
        let ghost before = candidate_models(cs@);
        assert(models[i as int] == found@[i as int]@);
        let c: Candidate = Candidate {
            key: bits_value_key(found[i].score_bits),
            id: String::new(),
            index: i,
        };
        cs.push(c);
        assert(c@ =~= wanted[i as int]);
        assert(candidate_models(cs@) =~= before.push(c@));
        i += 1;
    }
    assert(wanted.take(len as int) =~= wanted);
    let order: Vec<Candidate> = rank_candidates(cs);
    proof {
        lemma_ranked_places(wanted);
    }
    let n: usize = if top_k < len {
        top_k
    } else {
        len
    };
    let ghost goal = best_found(models, top_k as int);
    let mut out: Vec<SegmentSearchResult> = Vec::new();
    let mut k: usize = 0;
    while k < n
        invariant
            k <= n <= len == found@.len(),
            n == goal.len(),
            models == found_models(found@),
            wanted == found_candidates(models),
            goal == best_found(models, top_k as int),
            candidate_models(order@) == ranked(wanted),
            order@.len() == len,
            forall|j: int| 0 <= j < len ==> (#[trigger] ranked(wanted)[j]).index < len,
            found_models(out@) =~= goal.take(k as int),
        decreases n - k,
    {
        let ghost before = found_models(out@);
        assert(candidate_models(order@)[k as int] == order@[k as int]@);
        assert(ranked(wanted)[k as int].index < len);
        let at: usize = order[k].index;
        assert(models[at as int] == found@[at as int]@);
        let x: SegmentSearchResult = SegmentSearchResult {
            doc_id: found[at].doc_id.clone(),
            text: found[at].text.clone(),
            score_bits: found[at].score_bits,
            segment_id: found[at].segment_id,
        };
        assert(x@ =~= goal[k as int]);
        out.push(x);
        assert(found_models(out@) =~= before.push(x@));
        k += 1;
    }
    assert(goal.take(n as int) =~= goal);
    out
}

proof fn lemma_entries_mono(sealed: Seq<SegmentModel>, n: int)
    requires
        0 <= n <= sealed.len(),
    ensures
        entries_of(sealed.take(n)) <= entries_of(sealed),
    decreases sealed.len() - n,
{
    if n == sealed.len() {
        assert(sealed.take(n) =~= sealed);
    } else {
        lemma_entries_mono(sealed, n + 1);
        assert(sealed.take(n + 1).drop_last() =~= sealed.take(n));
    }
}

/// Sealing the entries that were handed out loses none: the index holds as many
/// as before they were handed out.
pub proof fn law_sealing_keeps_entries(
    m: SegmentsModel,
    quantized: Seq<TurboQuantVector>,
    rotation_version: u64,
)
    ensures
        all_entries(
            with_segment(
                SegmentsModel { growing: Seq::empty(), ..m },
                m.growing,
                quantized,
                rotation_version,
            ),
        ) == all_entries(m),
{
    let n = with_segment(
        SegmentsModel { growing: Seq::empty(), ..m },
        m.growing,
        quantized,
        rotation_version,
    );
    assert(n.sealed.drop_last() =~= m.sealed);
}

/// A search looks at every entry.
pub proof fn law_search_sees_every_entry(
    m: SegmentsModel,
    query: Seq<u32>,
    asked: Seq<u32>,
    n: int,
)
    requires
        segments_ok(m),
        0 <= n <= m.sealed.len(),
    ensures
        all_scored(m, query, asked, n).len() == m.growing.len() + entries_of(m.sealed.take(n)),
    decreases n,
{
    if n == 0 {
        assert(m.sealed.take(0) =~= Seq::empty());
    } else {
        law_search_sees_every_entry(m, query, asked, n - 1);
        assert(segment_ok(m.sealed[n - 1]));
        assert(m.sealed.take(n).drop_last() =~= m.sealed.take(n - 1));
    }
}

proof fn lemma_power_is_next(n: nat)
    ensures
        next_power(next_power(n)) == next_power(n),
{
    law_next_power(n, 0);
    let k = choose|k: nat| next_power(n) == #[trigger] vstd::arithmetic::power2::pow2(k);
    law_next_power(next_power(n), k);
}

} // verus!
