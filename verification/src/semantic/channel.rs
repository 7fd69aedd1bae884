//! Hits of one search channel and the batches that bind them to a lease.
//!
//! The native score of a channel is a single-precision number, held as its 32
//! bits: it is only ever asked whether it is finite and how it is ordered.

use vstd::prelude::*;

use super::error::FreeSemanticError;
use super::manifest::{ChannelReceipt, ReceiptModel};
use super::rank::MAX_CHANNEL_HITS;
use super::request::{
    channel_tag, completion_tag, request_digest, ChannelCompletion, LeaseModel, SearchChannel,
    SearchLease,
};
use crate::digest::{
    digest, is_canonical_chunk_id, is_chunk_id, is_digest, is_sha256_digest, sha256_digest, texts,
};
use crate::keys::string_views;
use crate::text::{decimal, decimal_string, opt_text, order_text, text_eq, text_lt, TextOrder};

verus! {

/// Whether the bits of a single-precision number stand for a finite one: its
/// exponent is not all ones.
pub open spec fn is_finite_bits(bits: u32) -> bool {
    (bits / 0x80_0000) % 0x100 != 0xff
}

/// The place of a single-precision number in the total order of IEEE 754:
/// the magnitude, counted down below zero where the sign is set.
pub open spec fn total_order_key(bits: u32) -> int {
    if bits < 0x8000_0000 {
        bits as int
    } else {
        -1 - (bits - 0x8000_0000)
    }
}

pub fn bits_are_finite(bits: u32) -> (r: bool)
    ensures
        r == is_finite_bits(bits),
{
    (bits / 0x80_0000) % 0x100 != 0xff
}

pub fn bits_order_key(bits: u32) -> (r: i64)
    ensures
        r == total_order_key(bits),
{
    if bits < 0x8000_0000 {
        bits as i64
    } else {
        -1 - ((bits - 0x8000_0000) as i64)
    }
}

/// A hit by its text and numbers.
#[verifier::ext_equal]
pub struct HitModel {
    pub chunk_id: Seq<char>,
    pub raw_score_bits: u32,
    pub rank: usize,
}

/// One row of a channel.
#[derive(Debug, PartialEq, Eq)]
pub struct ChannelHit {
    pub chunk_id: String,
    /// Native score from one channel, as the bits of a single-precision
    /// number. It is not comparable to another channel and is never exposed
    /// as a probability or calibrated confidence.
    pub raw_score_bits: u32,
    pub rank: usize,
}

impl View for ChannelHit {
    type V = HitModel;

    open spec fn view(&self) -> HitModel {
        HitModel {
            chunk_id: self.chunk_id@,
            raw_score_bits: self.raw_score_bits,
            rank: self.rank,
        }
    }
}

impl Clone for ChannelHit {
    fn clone(&self) -> (r: Self)
        ensures
            r@ == self@,
    {
        ChannelHit {
            chunk_id: self.chunk_id.clone(),
            raw_score_bits: self.raw_score_bits,
            rank: self.rank,
        }
    }
}

pub open spec fn hit_ok(hit: HitModel) -> bool {
    &&& is_chunk_id(hit.chunk_id)
    &&& is_finite_bits(hit.raw_score_bits)
    &&& 0 < hit.rank <= MAX_CHANNEL_HITS
}

impl ChannelHit {
    pub fn new(chunk_id: String, raw_score_bits: u32, rank: usize) -> (r: Result<
        Self,
        FreeSemanticError,
    >)
        ensures
            ({
                let m = HitModel { chunk_id: chunk_id@, raw_score_bits, rank };
                match r {
                    Ok(hit) => hit_ok(m) && hit@ == m,
                    Err(e) => !hit_ok(m) && e == FreeSemanticError::InvalidChannelHit,
                }
            }),
    {
        let hit: ChannelHit = ChannelHit { chunk_id, raw_score_bits, rank };
        match hit.validate() {
            Ok(()) => Ok(hit),
            Err(e) => Err(e),
        }
    }

    pub fn validate(&self) -> (r: Result<(), FreeSemanticError>)
        ensures
            r is Ok <==> hit_ok(self@),
            r matches Err(e) ==> e == FreeSemanticError::InvalidChannelHit,
    {
        if !is_canonical_chunk_id(self.chunk_id.as_str()) || !bits_are_finite(self.raw_score_bits)
            || self.rank == 0 || self.rank > MAX_CHANNEL_HITS {
            return Err(FreeSemanticError::InvalidChannelHit);
        }
        Ok(())
    }
}

pub open spec fn hit_views(hits: Seq<ChannelHit>) -> Seq<HitModel> {
    hits.map_values(|h: ChannelHit| h@)
}

/// Whether one of the first `n` hits has this identity.
pub open spec fn id_seen(hits: Seq<HitModel>, n: int, id: Seq<char>) -> bool {
    exists|j: int| 0 <= j < n && (#[trigger] hits[j]).chunk_id == id
}

/// Whether one of the first `n` hits has this rank.
pub open spec fn rank_seen(hits: Seq<HitModel>, n: int, rank: usize) -> bool {
    exists|j: int| 0 <= j < n && (#[trigger] hits[j]).rank == rank
}

/// The first fault among the first `n` hits, taken in order.
pub open spec fn entry_error(hits: Seq<HitModel>, n: int) -> Option<FreeSemanticError>
    decreases n,
{
    if n <= 0 {
        None
    } else if entry_error(hits, n - 1) is Some {
        entry_error(hits, n - 1)
    } else if !hit_ok(hits[n - 1]) {
        Some(FreeSemanticError::InvalidChannelHit)
    } else if id_seen(hits, n - 1, hits[n - 1].chunk_id) {
        Some(FreeSemanticError::DuplicateChannelHit)
    } else if rank_seen(hits, n - 1, hits[n - 1].rank) {
        Some(FreeSemanticError::DuplicateChannelRank)
    } else {
        None
    }
}

/// Why the hits of a channel are refused, if they are: too many, a faulty
/// entry, or ranks that are not the numbers from one on. As the ranks of
/// entries without a fault differ, they are those numbers exactly if none
/// exceeds their count.
pub open spec fn hits_error(hits: Seq<HitModel>) -> Option<FreeSemanticError> {
    if hits.len() > MAX_CHANNEL_HITS {
        Some(FreeSemanticError::TooManyChannelHits { limit: MAX_CHANNEL_HITS })
    } else if entry_error(hits, hits.len() as int) is Some {
        entry_error(hits, hits.len() as int)
    } else if exists|i: int| 0 <= i < hits.len() && (#[trigger] hits[i]).rank > hits.len() {
        Some(FreeSemanticError::InvalidChannelHit)
    } else {
        None
    }
}

/// Entries without a fault are valid hits with different identities and
/// different ranks.
pub proof fn law_accepted_hits_are_distinct(hits: Seq<HitModel>, n: int)
    requires
        entry_error(hits, n) is None,
        0 <= n <= hits.len(),
    ensures
        forall|i: int| 0 <= i < n ==> hit_ok(#[trigger] hits[i]),
        forall|i: int, j: int|
            0 <= i < j < n ==> (#[trigger] hits[i]).chunk_id != (#[trigger] hits[j]).chunk_id
                && hits[i].rank != hits[j].rank,
    decreases n,
{
    if n > 0 {
        law_accepted_hits_are_distinct(hits, n - 1);
    }
}

/// Accepts the hits of a channel.
pub fn validate_channel_hits(hits: &Vec<ChannelHit>) -> (r: Result<(), FreeSemanticError>)
    ensures
        match r {
            Ok(()) => hits_error(hit_views(hits@)) is None,
            Err(e) => hits_error(hit_views(hits@)) == Some(e),
        },
{
    if hits.len() > MAX_CHANNEL_HITS {
        return Err(FreeSemanticError::TooManyChannelHits { limit: MAX_CHANNEL_HITS });
    }
    let ghost views = hit_views(hits@);
    let mut i: usize = 0;
    while i < hits.len()
        invariant
            views == hit_views(hits@),
            i <= hits@.len() <= MAX_CHANNEL_HITS,
            entry_error(views, i as int) is None,
        decreases hits@.len() - i,
    {
        assert(views[i as int] == hits@[i as int]@);
        let ghost here = if !hit_ok(views[i as int]) {
            Some(FreeSemanticError::InvalidChannelHit)
        } else if id_seen(views, i as int, views[i as int].chunk_id) {
            Some(FreeSemanticError::DuplicateChannelHit)
        } else if rank_seen(views, i as int, views[i as int].rank) {
            Some(FreeSemanticError::DuplicateChannelRank)
        } else {
            None
        };
        assert(entry_error(views, i + 1) == here);
        proof {
            lemma_entry_error_stays(views, i + 1, views.len() as int);
        }
        match hits[i].validate() {
            Ok(()) => {},
            Err(e) => {
                return Err(e);
            },
        }
        let mut same_id: bool = false;
        let mut same_rank: bool = false;
        let mut j: usize = 0;
        while j < i
            invariant
                views == hit_views(hits@),
                j <= i < hits@.len(),
                same_id == id_seen(views, j as int, views[i as int].chunk_id),
                same_rank == rank_seen(views, j as int, views[i as int].rank),
            decreases i - j,
        {
            assert(views[j as int] == hits@[j as int]@);
            assert(views[i as int] == hits@[i as int]@);
            if hits[j].chunk_id == hits[i].chunk_id {
                same_id = true;
            }
            if hits[j].rank == hits[i].rank {
                same_rank = true;
            }
            j += 1;
        }
        if same_id {
            return Err(FreeSemanticError::DuplicateChannelHit);
        }
        if same_rank {
            return Err(FreeSemanticError::DuplicateChannelRank);
        }
        i += 1;
    }
    let mut k: usize = 0;
    while k < hits.len()
        invariant
            views == hit_views(hits@),
            hits@.len() <= MAX_CHANNEL_HITS,
            k <= hits@.len(),
            entry_error(views, views.len() as int) is None,
            forall|m: int| 0 <= m < k ==> (#[trigger] views[m]).rank <= views.len(),
        decreases hits@.len() - k,
    {
        assert(views[k as int] == hits@[k as int]@);
        if hits[k].rank > hits.len() {
            return Err(FreeSemanticError::InvalidChannelHit);
        }
        k += 1;
    }
    Ok(())
}

/// The first fault stays the fault of all.
proof fn lemma_entry_error_stays(hits: Seq<HitModel>, n: int, m: int)
    requires
        0 <= n <= m,
    ensures
        entry_error(hits, n) is Some ==> entry_error(hits, m) == entry_error(hits, n),
    decreases m - n,
{
    if n < m {
        lemma_entry_error_stays(hits, n, m - 1);
    }
}

/// Whether a hit comes before another for the same chunk: by rank, then by
/// score from high to low, then by identity.
pub open spec fn better_hit(a: HitModel, b: HitModel) -> bool {
    ||| a.rank < b.rank
    ||| a.rank == b.rank && total_order_key(a.raw_score_bits) > total_order_key(b.raw_score_bits)
    ||| a.rank == b.rank && total_order_key(a.raw_score_bits) == total_order_key(b.raw_score_bits)
        && text_lt(a.chunk_id, b.chunk_id)
}

pub open spec fn opt_hit(h: Option<ChannelHit>) -> Option<HitModel> {
    match h {
        Some(x) => Some(x@),
        None => None,
    }
}

/// The better of what a channel has for a chunk and one more hit.
pub open spec fn best_of(slot: Option<HitModel>, hit: HitModel) -> HitModel {
    match slot {
        Some(old_hit) => if better_hit(hit, old_hit) {
            hit
        } else {
            old_hit
        },
        None => hit,
    }
}

/// Keeps the better of what a channel has for a chunk and one more hit.
pub fn set_best_channel(slot: &mut Option<ChannelHit>, candidate: &ChannelHit)
    ensures
        opt_hit(*final(slot)) == Some(best_of(opt_hit(*old(slot)), candidate@)),
{
    let replace: bool = match slot {
        None => true,
        Some(existing) => {
            let a: i64 = bits_order_key(candidate.raw_score_bits);
            let b: i64 = bits_order_key(existing.raw_score_bits);
            candidate.rank < existing.rank || (candidate.rank == existing.rank && a > b) || (
            candidate.rank == existing.rank && a == b && match order_text(
                candidate.chunk_id.as_str(),
                existing.chunk_id.as_str(),
            ) {
                TextOrder::Before => true,
                _ => false,
            })
        },
    };
    if replace {
        *slot = Some(candidate.clone());
    }
}

/// A batch by its texts and numbers.
#[verifier::ext_equal]
pub struct BatchModel {
    pub channel: SearchChannel,
    pub vault_id: Seq<char>,
    pub generation: u64,
    pub manifest_digest: Seq<char>,
    pub request_digest: Seq<char>,
    pub state_receipt: ReceiptModel,
    pub origin_note_id: Option<Seq<char>>,
    pub pre_filter_limit: usize,
    pub post_filter_limit: usize,
    pub completion: ChannelCompletion,
    pub upstream_candidate_count: usize,
    pub excluded_candidate_count: usize,
    pub lease_digest: Seq<char>,
    pub result_digest: Seq<char>,
    pub hits: Seq<HitModel>,
}

/// The rows of one channel, bound to the lease under which they are asserted.
#[derive(Debug, PartialEq, Eq)]
pub struct ChannelBatch {
    channel: SearchChannel,
    vault_id: String,
    generation: u64,
    manifest_digest: String,
    request_digest: String,
    state_receipt: ChannelReceipt,
    origin_note_id: Option<String>,
    pre_filter_limit: usize,
    post_filter_limit: usize,
    completion: ChannelCompletion,
    upstream_candidate_count: usize,
    excluded_candidate_count: usize,
    lease_digest: String,
    result_digest: String,
    hits: Vec<ChannelHit>,
}

impl View for ChannelBatch {
    type V = BatchModel;

    closed spec fn view(&self) -> BatchModel {
        BatchModel {
            channel: self.channel,
            vault_id: self.vault_id@,
            generation: self.generation,
            manifest_digest: self.manifest_digest@,
            request_digest: self.request_digest@,
            state_receipt: self.state_receipt@,
            origin_note_id: opt_text(self.origin_note_id),
            pre_filter_limit: self.pre_filter_limit,
            post_filter_limit: self.post_filter_limit,
            completion: self.completion,
            upstream_candidate_count: self.upstream_candidate_count,
            excluded_candidate_count: self.excluded_candidate_count,
            lease_digest: self.lease_digest@,
            result_digest: self.result_digest@,
            hits: hit_views(self.hits@),
        }
    }
}

/// Whether the numbers of a batch are within their bounds.
pub open spec fn batch_bounds_ok(m: BatchModel) -> bool {
    &&& m.generation != 0
    &&& is_digest(m.manifest_digest)
    &&& is_digest(m.request_digest)
    &&& 0 < m.post_filter_limit <= m.pre_filter_limit <= MAX_CHANNEL_HITS
    &&& m.excluded_candidate_count <= m.upstream_candidate_count <= MAX_CHANNEL_HITS
    &&& m.hits.len() <= m.post_filter_limit
}

/// Whether the number of hits fits the candidates that are asserted: a
/// complete batch holds all that are eligible, up to its limit; a truncated
/// one is full and had enough candidates to be cut.
pub open spec fn completion_ok(m: BatchModel) -> bool {
    let eligible = m.upstream_candidate_count - m.excluded_candidate_count;
    match m.completion {
        ChannelCompletion::Complete => m.hits.len() == if eligible <= m.post_filter_limit {
            eligible
        } else {
            m.post_filter_limit as int
        },
        ChannelCompletion::Truncated => m.upstream_candidate_count >= m.pre_filter_limit
            && m.hits.len() == m.post_filter_limit,
    }
}

pub open spec fn hit_digest(hit: HitModel) -> Seq<char> {
    digest(
        "channel-hit-v1"@,
        seq![hit.chunk_id, decimal(hit.raw_score_bits as nat), decimal(hit.rank as nat)],
    )
}

/// The digest of what a batch asserts.
pub open spec fn batch_result_digest(m: BatchModel) -> Seq<char> {
    digest(
        "untrusted-channel-batch-assertion-v1"@,
        seq![
            channel_tag(m.channel),
            m.vault_id,
            decimal(m.generation as nat),
            m.manifest_digest,
            m.request_digest,
            decimal(m.pre_filter_limit as nat),
            decimal(m.post_filter_limit as nat),
            completion_tag(m.completion),
            decimal(m.upstream_candidate_count as nat),
            decimal(m.excluded_candidate_count as nat),
            m.lease_digest,
            digest("channel-batch-hits-v1"@, m.hits.map_values(|h: HitModel| hit_digest(h))),
        ],
    )
}

/// Why a batch is refused, if it is.
pub open spec fn batch_error(m: BatchModel) -> Option<FreeSemanticError> {
    if !batch_bounds_ok(m) {
        Some(FreeSemanticError::InvalidChannelBatch)
    } else if hits_error(m.hits) is Some {
        hits_error(m.hits)
    } else if !completion_ok(m) {
        Some(FreeSemanticError::InvalidChannelBatch)
    } else if m.result_digest.len() > 0 && m.result_digest != batch_result_digest(m) {
        Some(FreeSemanticError::InvalidChannelBatch)
    } else {
        None
    }
}

/// The batch that asserts hits under a lease, before its result is sealed.
pub open spec fn open_batch(
    lease: LeaseModel,
    channel: SearchChannel,
    receipt: ReceiptModel,
    completion: ChannelCompletion,
    upstream: usize,
    excluded: usize,
    hits: Seq<HitModel>,
) -> BatchModel {
    BatchModel {
        channel,
        vault_id: lease.vault_id,
        generation: lease.generation,
        manifest_digest: lease.manifest_digest,
        request_digest: request_digest(lease.request),
        state_receipt: receipt,
        origin_note_id: lease.request.origin_note_id,
        pre_filter_limit: lease.pre_filter_limit,
        post_filter_limit: lease.request.limit,
        completion,
        upstream_candidate_count: upstream,
        excluded_candidate_count: excluded,
        lease_digest: lease.lease_digest,
        result_digest: Seq::empty(),
        hits,
    }
}

/// A batch whose digest of the result is filled in.
pub open spec fn sealed(m: BatchModel) -> BatchModel {
    BatchModel { result_digest: batch_result_digest(m), ..m }
}

impl ChannelBatch {
    /// The batch that asserts hits under a lease, if it is within its bounds;
    /// its result is not sealed yet.
    pub(crate) fn from_lease(
        lease: &SearchLease,
        channel: SearchChannel,
        state_receipt: ChannelReceipt,
        completion: ChannelCompletion,
        upstream_candidate_count: usize,
        excluded_candidate_count: usize,
        hits: Vec<ChannelHit>,
    ) -> (r: Result<Self, FreeSemanticError>)
        ensures
            ({
                let m = open_batch(
                    lease@,
                    channel,
                    state_receipt@,
                    completion,
                    upstream_candidate_count,
                    excluded_candidate_count,
                    hit_views(hits@),
                );
                match r {
                    Ok(batch) => batch_error(m) is None && batch@ == m,
                    Err(e) => batch_error(m) == Some(e),
                }
            }),
    {
        let origin: Option<String> = match lease.request().origin_note_id() {
            Some(o) => Some(o.to_owned()),
            None => None,
        };
        let batch: ChannelBatch = ChannelBatch {
            channel,
            vault_id: lease.vault_id().to_owned(),
            generation: lease.generation(),
            manifest_digest: lease.manifest_digest().to_owned(),
            request_digest: lease.request().digest(),
            state_receipt,
            origin_note_id: origin,
            pre_filter_limit: lease.pre_filter_limit(),
            post_filter_limit: lease.request().limit(),
            completion,
            upstream_candidate_count,
            excluded_candidate_count,
            lease_digest: lease.lease_digest().to_owned(),
            result_digest: String::new(),
            hits,
        };
        match batch.validate_shape() {
            Ok(()) => Ok(batch),
            Err(e) => Err(e),
        }
    }

    /// Fills in the digest of the result.
    pub(crate) fn seal(self) -> (r: Self)
        ensures
            r@ == sealed(self@),
    {
        let mut batch: ChannelBatch = self;
        batch.result_digest = batch.computed_result_digest();
        batch
    }

    pub(crate) fn hits(&self) -> (r: &Vec<ChannelHit>)
        ensures
            hit_views(r@) == self@.hits,
    {
        &self.hits
    }

    pub(crate) fn validate_shape(&self) -> (r: Result<(), FreeSemanticError>)
        ensures
            match r {
                Ok(()) => batch_error(self@) is None,
                Err(e) => batch_error(self@) == Some(e),
            },
    {
        if self.generation == 0 || !is_sha256_digest(self.manifest_digest.as_str())
            || !is_sha256_digest(self.request_digest.as_str()) || self.pre_filter_limit == 0
            || self.pre_filter_limit > MAX_CHANNEL_HITS || self.post_filter_limit == 0
            || self.post_filter_limit > self.pre_filter_limit || self.upstream_candidate_count
            > MAX_CHANNEL_HITS || self.excluded_candidate_count > self.upstream_candidate_count
            || self.hits.len() > self.post_filter_limit {
            return Err(FreeSemanticError::InvalidChannelBatch);
        }
        match validate_channel_hits(&self.hits) {
            Ok(()) => {},
            Err(e) => {
                return Err(e);
            },
        }
        let eligible: usize = self.upstream_candidate_count - self.excluded_candidate_count;
        let fits: bool = match self.completion {
            ChannelCompletion::Complete => self.hits.len() == if eligible
                <= self.post_filter_limit {
                eligible
            } else {
                self.post_filter_limit
            },
            ChannelCompletion::Truncated => self.upstream_candidate_count >= self.pre_filter_limit
                && self.hits.len() == self.post_filter_limit,
        };
        if !fits {
            return Err(FreeSemanticError::InvalidChannelBatch);
        }
        if !self.result_digest.as_str().is_empty() {
            let expected: String = self.computed_result_digest();
            if self.result_digest != expected {
                return Err(FreeSemanticError::InvalidChannelBatch);
            }
        }
        Ok(())
    }

    fn computed_result_digest(&self) -> (r: String)
        ensures
            r@ == batch_result_digest(self@),
            is_digest(r@),
    {
        let mut entries: Vec<String> = Vec::new();
        let ghost all = self@.hits.map_values(|h: HitModel| hit_digest(h));
        let mut i: usize = 0;
        while i < self.hits.len()
            invariant
                i <= self.hits@.len(),
                self@.hits == hit_views(self.hits@),
                all == self@.hits.map_values(|h: HitModel| hit_digest(h)),
                string_views(entries@) =~= all.take(i as int),
            decreases self.hits@.len() - i,
        {
            let ghost before = string_views(entries@);
            let score: String = decimal_string(self.hits[i].raw_score_bits as u64);
            let rank: String = decimal_string(self.hits[i].rank as u64);
            let fields: [&str; 3] = [self.hits[i].chunk_id.as_str(), score.as_str(), rank.as_str()];
            let entry: String = sha256_digest("channel-hit-v1", &fields);
            let ghost hit = self@.hits[i as int];
            assert(hit == self.hits@[i as int]@);
            assert(texts(fields@) =~= seq![
                hit.chunk_id,
                decimal(hit.raw_score_bits as nat),
                decimal(hit.rank as nat),
            ]);
            let ghost model = entry@;
            entries.push(entry);
            assert(string_views(entries@) =~= before.push(model));
            i += 1;
        }
        assert(string_views(entries@) =~= all);
        let hits: String = super::store::digest_of_strings("channel-batch-hits-v1", &entries);
        let generation: String = decimal_string(self.generation);
        let pre: String = decimal_string(self.pre_filter_limit as u64);
        let post: String = decimal_string(self.post_filter_limit as u64);
        let upstream: String = decimal_string(self.upstream_candidate_count as u64);
        let excluded: String = decimal_string(self.excluded_candidate_count as u64);
        let fields: [&str; 12] = [
            self.channel.tag(),
            self.vault_id.as_str(),
            generation.as_str(),
            self.manifest_digest.as_str(),
            self.request_digest.as_str(),
            pre.as_str(),
            post.as_str(),
            self.completion.tag(),
            upstream.as_str(),
            excluded.as_str(),
            self.lease_digest.as_str(),
            hits.as_str(),
        ];
        let r: String = sha256_digest("untrusted-channel-batch-assertion-v1", &fields);
        let ghost m = self@;
        assert(texts(fields@) =~= seq![
            channel_tag(m.channel),
            m.vault_id,
            decimal(m.generation as nat),
            m.manifest_digest,
            m.request_digest,
            decimal(m.pre_filter_limit as nat),
            decimal(m.post_filter_limit as nat),
            completion_tag(m.completion),
            decimal(m.upstream_candidate_count as nat),
            decimal(m.excluded_candidate_count as nat),
            m.lease_digest,
            digest("channel-batch-hits-v1"@, all),
        ]);
        r
    }

    /// Whether the batch is bound to the request under the current state of a
    /// catalog.
    pub(crate) fn is_bound_to(
        &self,
        channel: SearchChannel,
        vault_id: &str,
        generation: u64,
        manifest_digest: &str,
        request_digest: &str,
        receipt: &ChannelReceipt,
        origin_note_id: Option<&str>,
        limit: usize,
        lease_digest: &str,
    ) -> (r: bool)
        ensures
            r == batch_bound(
                self@,
                channel,
                vault_id@,
                generation,
                manifest_digest@,
                request_digest@,
                receipt@,
                match origin_note_id {
                    Some(o) => Some(o@),
                    None => None,
                },
                limit,
                lease_digest@,
            ),
    {
        let same_origin: bool = match (&self.origin_note_id, origin_note_id) {
            (Some(a), Some(b)) => text_eq(a.as_str(), b),
            (None, None) => true,
            _ => false,
        };
        let full: bool = match self.completion {
            ChannelCompletion::Complete => true,
            ChannelCompletion::Truncated => self.hits.len() == self.post_filter_limit,
        };
        self.channel == channel && text_eq(self.vault_id.as_str(), vault_id) && self.generation
            == generation && text_eq(self.manifest_digest.as_str(), manifest_digest) && text_eq(
            self.request_digest.as_str(),
            request_digest,
        ) && self.state_receipt.same(receipt) && same_origin && self.post_filter_limit == limit
            && text_eq(self.lease_digest.as_str(), lease_digest) && full
    }

    pub fn pre_filter_limit(&self) -> (r: usize)
        ensures
            r == self@.pre_filter_limit,
    {
        self.pre_filter_limit
    }
}

/// Whether a batch is bound to a request under the current state.
pub open spec fn batch_bound(
    m: BatchModel,
    channel: SearchChannel,
    vault_id: Seq<char>,
    generation: u64,
    manifest_digest: Seq<char>,
    request_digest: Seq<char>,
    receipt: ReceiptModel,
    origin_note_id: Option<Seq<char>>,
    limit: usize,
    lease_digest: Seq<char>,
) -> bool {
    &&& m.channel == channel
    &&& m.vault_id == vault_id
    &&& m.generation == generation
    &&& m.manifest_digest == manifest_digest
    &&& m.request_digest == request_digest
    &&& m.state_receipt == receipt
    &&& m.origin_note_id == origin_note_id
    &&& m.post_filter_limit == limit
    &&& m.lease_digest == lease_digest
    &&& m.completion == ChannelCompletion::Truncated ==> m.hits.len() == m.post_filter_limit
}

} // verus!
