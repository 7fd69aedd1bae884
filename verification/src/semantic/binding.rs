//! What the digests of requests, leases and manifests bind.

use vstd::prelude::*;

use super::manifest::{
    availability_tag, dimension_text, generation_text, has_staged_state, manifest_digest,
    normalization_tag, or_none, receipt_artifact, receipt_state, staged_state_digest,
    ManifestModel, ReceiptModel, SemanticAvailability,
};
use super::request::{
    lease_digest, query_digest, request_digest, request_error, RequestModel, MAX_QUERY_LIMIT,
};
use crate::digest::{
    are_countable, collides, digest, is_digest, law_digest_binds_its_fields, lemma_digest_bytes,
    lemma_text_bytes, message, sha256_has_32_bytes,
};
use crate::text::{decimal, lemma_decimal_injective, lemma_decimal_nonempty};

verus! {

/// The texts that the digest of a request is made of.
pub open spec fn request_fields(m: RequestModel) -> Seq<Seq<char>> {
    seq![
        decimal(2),
        m.vault_id,
        query_digest(m.query),
        "free-lexical-escaped-query-v1"@,
        decimal(1),
        "free-semantic-exact-utf8-v1"@,
        decimal(1),
        decimal(m.limit as nat),
        or_none(m.origin_note_id),
        or_none(m.exact_title),
    ]
}

/// The message that is hashed for a request.
pub open spec fn request_message(m: RequestModel) -> Seq<u8> {
    message("note-recall-request-v2"@, request_fields(m))
}

/// The message that is hashed for a query.
pub open spec fn query_message(query: Seq<char>) -> Seq<u8> {
    message("note-recall-query-bytes-v1"@, seq![query])
}

proof fn lemma_request_fields(m: RequestModel)
    requires
        sha256_has_32_bytes(),
        request_error(m) is None,
    ensures
        are_countable(request_fields(m)),
        are_countable(seq![m.query]),
        request_digest(m) == digest("note-recall-request-v2"@, request_fields(m)),
{
    reveal_strlit("none");
    reveal_strlit("free-lexical-escaped-query-v1");
    reveal_strlit("free-semantic-exact-utf8-v1");
    lemma_text_bytes("none"@);
    lemma_text_bytes("free-lexical-escaped-query-v1"@);
    lemma_text_bytes("free-semantic-exact-utf8-v1"@);
    lemma_digest_bytes("note-recall-query-bytes-v1"@, seq![m.query]);
    assert(decimal(m.limit as nat).len() <= 2) by {
        assert(m.limit <= MAX_QUERY_LIMIT);
        reveal_with_fuel(decimal, 3);
    }
    lemma_text_bytes(decimal(1));
    lemma_text_bytes(decimal(2));
    lemma_text_bytes(decimal(m.limit as nat));
    assert(request_fields(m) =~= seq![
        decimal(2),
        m.vault_id,
        query_digest(m.query),
        "free-lexical-escaped-query-v1"@,
        decimal(1),
        "free-semantic-exact-utf8-v1"@,
        decimal(1),
        decimal(m.limit as nat),
        match m.origin_note_id {
            Some(o) => o,
            None => "none"@,
        },
        match m.exact_title {
            Some(t) => t,
            None => "none"@,
        },
    ]);
}

/// The digest of a request binds the exact query, the vault, the limit, the
/// origin and the title: two valid requests have the same digest exactly if they
/// are the same, as long as SHA-256 tells their queries and the two requests
/// apart. What is missing is digested as the text `none`, which must not be the
/// origin or the title.
pub proof fn law_request_digest_binds_the_request(a: RequestModel, b: RequestModel)
    requires
        sha256_has_32_bytes(),
        request_error(a) is None,
        request_error(b) is None,
        a.origin_note_id != Some("none"@),
        b.origin_note_id != Some("none"@),
        a.exact_title != Some("none"@),
        b.exact_title != Some("none"@),
        !collides(query_message(a.query), query_message(b.query)),
        !collides(request_message(a), request_message(b)),
    ensures
        request_digest(a) == request_digest(b) <==> a == b,
{
    if request_digest(a) == request_digest(b) {
        let x = request_fields(a);
        let y = request_fields(b);
        lemma_request_fields(a);
        lemma_request_fields(b);
        reveal_strlit("note-recall-request-v2");
        reveal_strlit("note-recall-query-bytes-v1");
        lemma_text_bytes("note-recall-request-v2"@);
        lemma_text_bytes("note-recall-query-bytes-v1"@);
        law_digest_binds_its_fields("note-recall-request-v2"@, x, "note-recall-request-v2"@, y);
        assert(x[1] == y[1] && x[2] == y[2] && x[7] == y[7] && x[8] == y[8] && x[9] == y[9]);
        lemma_decimal_injective(a.limit as nat, b.limit as nat);
        law_digest_binds_its_fields(
            "note-recall-query-bytes-v1"@,
            seq![a.query],
            "note-recall-query-bytes-v1"@,
            seq![b.query],
        );
        assert(seq![a.query][0] == seq![b.query][0]);
        assert(a =~= b);
    }
}

/// Whether a receipt holds digests.
pub open spec fn holds_digests(r: ReceiptModel) -> bool {
    match r {
        ReceiptModel::Pending { artifact } => is_digest(artifact),
        ReceiptModel::Bound { artifact, state } => is_digest(artifact) && is_digest(state),
    }
}

/// Whether a receipt, if there is one, holds digests.
pub open spec fn may_hold_digests(r: Option<ReceiptModel>) -> bool {
    r matches Some(x) ==> holds_digests(x)
}

proof fn lemma_receipts(a: Option<ReceiptModel>, b: Option<ReceiptModel>)
    requires
        may_hold_digests(a),
        may_hold_digests(b),
        receipt_artifact(a) == receipt_artifact(b),
        receipt_state(a) == receipt_state(b),
    ensures
        a == b,
{
    reveal_strlit("none");
    reveal_strlit("pending");
    assert("none"@.len() == 4);
    assert("pending"@.len() == 7);
}

/// The texts that a lease is made of.
pub open spec fn lease_texts(
    vault_id: Seq<char>,
    generation: u64,
    manifest: Seq<char>,
    request: RequestModel,
    pre_filter_limit: usize,
    lexical: ReceiptModel,
    vector: Option<ReceiptModel>,
) -> Seq<Seq<char>> {
    seq![
        vault_id,
        decimal(generation as nat),
        manifest,
        request_digest(request),
        decimal(pre_filter_limit as nat),
        receipt_artifact(Some(lexical)),
        receipt_state(Some(lexical)),
        receipt_artifact(vector),
        receipt_state(vector),
    ]
}

/// The digest of a lease binds its vault, its generation, its manifest, its
/// request, its limit and its receipts: two leases have the same digest exactly
/// if all of them are the same, as long as SHA-256 tells the two leases apart.
pub proof fn law_lease_digest_binds_the_request(
    vault1: Seq<char>,
    generation1: u64,
    manifest1: Seq<char>,
    request1: RequestModel,
    limit1: usize,
    lexical1: ReceiptModel,
    vector1: Option<ReceiptModel>,
    vault2: Seq<char>,
    generation2: u64,
    manifest2: Seq<char>,
    request2: RequestModel,
    limit2: usize,
    lexical2: ReceiptModel,
    vector2: Option<ReceiptModel>,
)
    requires
        are_countable(
            lease_texts(vault1, generation1, manifest1, request1, limit1, lexical1, vector1),
        ),
        are_countable(
            lease_texts(vault2, generation2, manifest2, request2, limit2, lexical2, vector2),
        ),
        holds_digests(lexical1),
        holds_digests(lexical2),
        may_hold_digests(vector1),
        may_hold_digests(vector2),
        !collides(
            message(
                "search-lease-v1"@,
                lease_texts(vault1, generation1, manifest1, request1, limit1, lexical1, vector1),
            ),
            message(
                "search-lease-v1"@,
                lease_texts(vault2, generation2, manifest2, request2, limit2, lexical2, vector2),
            ),
        ),
    ensures
        lease_digest(vault1, generation1, manifest1, request1, limit1, lexical1, vector1)
            == lease_digest(vault2, generation2, manifest2, request2, limit2, lexical2, vector2)
            <==> (vault1 == vault2 && generation1 == generation2 && manifest1 == manifest2
            && request_digest(request1) == request_digest(request2) && limit1 == limit2 && lexical1
            == lexical2 && vector1 == vector2),
{
    let x = lease_texts(vault1, generation1, manifest1, request1, limit1, lexical1, vector1);
    let y = lease_texts(vault2, generation2, manifest2, request2, limit2, lexical2, vector2);
    reveal_strlit("search-lease-v1");
    lemma_text_bytes("search-lease-v1"@);
    if digest("search-lease-v1"@, x) == digest("search-lease-v1"@, y) {
        law_digest_binds_its_fields("search-lease-v1"@, x, "search-lease-v1"@, y);
        assert(x[0] == y[0] && x[1] == y[1] && x[2] == y[2] && x[3] == y[3] && x[4] == y[4]
            && x[5] == y[5] && x[6] == y[6] && x[7] == y[7] && x[8] == y[8]);
        lemma_decimal_injective(generation1 as nat, generation2 as nat);
        lemma_decimal_injective(limit1 as nat, limit2 as nat);
        lemma_receipts(Some(lexical1), Some(lexical2));
        lemma_receipts(vector1, vector2);
    }
}

/// The texts that the digest of a manifest is made of.
pub open spec fn manifest_fields(m: ManifestModel) -> Seq<Seq<char>> {
    seq![
        decimal(m.schema_version as nat),
        m.digest_algorithm,
        m.vault_id,
        decimal(m.generation as nat),
        or_none(m.model_descriptor_digest),
        dimension_text(m.dimension),
        decimal(m.chunk_format_version as nat),
        decimal(m.lexical_generation as nat),
        generation_text(m.vector_generation),
        decimal(m.rank_policy_version as nat),
        decimal(m.rank_policy_rrf_k as nat),
        m.rank_policy_digest,
        normalization_tag(m.normalization),
        availability_tag(m.semantic_availability),
        receipt_artifact(Some(m.lexical_receipt)),
        receipt_state(Some(m.lexical_receipt)),
        receipt_artifact(m.vector_receipt),
        receipt_state(m.vector_receipt),
        or_none(m.chunking_policy_digest),
        or_none(m.chunk_map_digest),
        or_none(m.note_set_digest),
    ]
}

/// The message that is hashed for a manifest.
pub open spec fn manifest_message(m: ManifestModel) -> Seq<u8> {
    message("semantic-generation-manifest-v1"@, manifest_fields(m))
}

/// Whether the texts of a manifest can be digested without being taken for
/// others: they can be counted, receipts hold digests, and what is there is not
/// called `none`.
pub open spec fn is_plain_manifest(m: ManifestModel) -> bool {
    &&& are_countable(manifest_fields(m))
    &&& holds_digests(m.lexical_receipt)
    &&& may_hold_digests(m.vector_receipt)
    &&& m.model_descriptor_digest != Some("none"@)
    &&& m.chunking_policy_digest != Some("none"@)
    &&& m.chunk_map_digest != Some("none"@)
    &&& m.note_set_digest != Some("none"@)
}

proof fn lemma_decimal_is_not_none(n: nat)
    ensures
        decimal(n) != "none"@,
{
    reveal_strlit("none");
    lemma_decimal_nonempty(n);
    assert("none"@.len() == 4);
    assert("none"@.last() == 'e');
    assert(decimal(n).last() != 'e') by {
        if n < 10 {
            assert(decimal(n).last() == crate::text::digit(n));
        } else {
            assert(decimal(n).last() == crate::text::digit(n % 10));
        }
    }
}

proof fn lemma_dimension_text(a: Option<usize>, b: Option<usize>)
    requires
        dimension_text(a) == dimension_text(b),
    ensures
        a == b,
{
    if let Some(x) = a {
        lemma_decimal_is_not_none(x as nat);
        if let Some(y) = b {
            lemma_decimal_injective(x as nat, y as nat);
        }
    } else if let Some(y) = b {
        lemma_decimal_is_not_none(y as nat);
    }
}

proof fn lemma_generation_text(a: Option<u64>, b: Option<u64>)
    requires
        generation_text(a) == generation_text(b),
    ensures
        a == b,
{
    if let Some(x) = a {
        lemma_decimal_is_not_none(x as nat);
        if let Some(y) = b {
            lemma_decimal_injective(x as nat, y as nat);
        }
    } else if let Some(y) = b {
        lemma_decimal_is_not_none(y as nat);
    }
}

proof fn lemma_availability_tags(a: SemanticAvailability, b: SemanticAvailability)
    requires
        availability_tag(a) == availability_tag(b),
    ensures
        a == b,
{
    reveal_strlit("available");
    reveal_strlit("no-candidate-selected");
    reveal_strlit("missing-asset");
    reveal_strlit("corrupt-asset");
    reveal_strlit("rebuilding");
    reveal_strlit("cancelled");
    reveal_strlit("dimension-mismatch");
    assert("available"@.len() == 9 && "available"@[0] == 'a');
    assert("no-candidate-selected"@.len() == 21);
    assert("missing-asset"@.len() == 13 && "missing-asset"@[0] == 'm');
    assert("corrupt-asset"@.len() == 13 && "corrupt-asset"@[0] == 'c');
    assert("rebuilding"@.len() == 10);
    assert("cancelled"@.len() == 9 && "cancelled"@[0] == 'c');
    assert("dimension-mismatch"@.len() == 18);
}

/// The digest of a manifest binds the manifest: two have the same digest exactly
/// if they are the same in every field, as long as SHA-256 tells them apart.
pub proof fn law_manifest_digest_binds_the_manifest(a: ManifestModel, b: ManifestModel)
    requires
        is_plain_manifest(a),
        is_plain_manifest(b),
        !collides(manifest_message(a), manifest_message(b)),
    ensures
        manifest_digest(a) == manifest_digest(b) <==> a == b,
{
    let x = manifest_fields(a);
    let y = manifest_fields(b);
    let domain = "semantic-generation-manifest-v1"@;
    reveal_strlit("semantic-generation-manifest-v1");
    lemma_text_bytes(domain);
    if digest(domain, x) == digest(domain, y) {
        law_digest_binds_its_fields(domain, x, domain, y);
        assert(x[0] == y[0] && x[1] == y[1] && x[2] == y[2] && x[3] == y[3] && x[4] == y[4]
            && x[5] == y[5] && x[6] == y[6] && x[7] == y[7] && x[8] == y[8] && x[9] == y[9]
            && x[10] == y[10]);
        assert(x[11] == y[11] && x[12] == y[12] && x[13] == y[13] && x[14] == y[14] && x[15]
            == y[15] && x[16] == y[16] && x[17] == y[17] && x[18] == y[18] && x[19] == y[19]
            && x[20] == y[20]);
        lemma_decimal_injective(a.schema_version as nat, b.schema_version as nat);
        lemma_decimal_injective(a.generation as nat, b.generation as nat);
        lemma_decimal_injective(a.chunk_format_version as nat, b.chunk_format_version as nat);
        lemma_decimal_injective(a.lexical_generation as nat, b.lexical_generation as nat);
        lemma_decimal_injective(a.rank_policy_version as nat, b.rank_policy_version as nat);
        lemma_decimal_injective(a.rank_policy_rrf_k as nat, b.rank_policy_rrf_k as nat);
        lemma_dimension_text(a.dimension, b.dimension);
        lemma_generation_text(a.vector_generation, b.vector_generation);
        lemma_normalization_tags(a, b);
        lemma_availability_tags(a.semantic_availability, b.semantic_availability);
        lemma_receipts(Some(a.lexical_receipt), Some(b.lexical_receipt));
        lemma_receipts(a.vector_receipt, b.vector_receipt);
        assert(a =~= b);
    }
}

proof fn lemma_normalization_tags(a: ManifestModel, b: ManifestModel)
    requires
        normalization_tag(a.normalization) == normalization_tag(b.normalization),
    ensures
        a.normalization == b.normalization,
{
    reveal_strlit("none");
    reveal_strlit("injected-cosine-l2-v1");
    assert("none"@.len() == 4);
    assert("injected-cosine-l2-v1"@.len() == 21);
}

/// The texts that bind the artifact of a channel to a staged state.
pub open spec fn staged_fields(
    channel: Seq<char>,
    artifact: Seq<char>,
    m: ManifestModel,
) -> Seq<Seq<char>> {
    seq![
        channel,
        artifact,
        m.vault_id,
        decimal(m.generation as nat),
        or_none(m.model_descriptor_digest),
        dimension_text(m.dimension),
        decimal(m.chunk_format_version as nat),
        decimal(m.lexical_generation as nat),
        generation_text(m.vector_generation),
        decimal(m.rank_policy_version as nat),
        decimal(m.rank_policy_rrf_k as nat),
        m.rank_policy_digest,
        normalization_tag(m.normalization),
        availability_tag(m.semantic_availability),
        or_none(m.chunking_policy_digest),
        or_none(m.chunk_map_digest),
        or_none(m.note_set_digest),
    ]
}

/// The message that is hashed for the artifact of a channel and a staged state.
pub open spec fn staged_message(
    channel: Seq<char>,
    artifact: Seq<char>,
    m: ManifestModel,
) -> Seq<u8> {
    message("staged-search-channel-receipt-v1"@, staged_fields(channel, artifact, m))
}

/// The receipts of a manifest do not matter to the state that they are bound
/// to, nor to whether there is one.
pub proof fn law_staged_state_ignores_receipts(
    channel: Seq<char>,
    artifact: Seq<char>,
    m: ManifestModel,
    lexical: ReceiptModel,
    vector: Option<ReceiptModel>,
)
    ensures
        ({
            let other = ManifestModel { lexical_receipt: lexical, vector_receipt: vector, ..m };
            &&& has_staged_state(other) == has_staged_state(m)
            &&& staged_state_digest(channel, artifact, other) == staged_state_digest(
                channel,
                artifact,
                m,
            )
        }),
{
}

/// The digest of a staged state binds its channel and its artifact: another
/// channel or another artifact gives another digest, whatever the manifests, as
/// long as SHA-256 tells the two apart.
pub proof fn law_staged_state_binds_channel_and_artifact(
    channel1: Seq<char>,
    artifact1: Seq<char>,
    m1: ManifestModel,
    channel2: Seq<char>,
    artifact2: Seq<char>,
    m2: ManifestModel,
)
    requires
        are_countable(staged_fields(channel1, artifact1, m1)),
        are_countable(staged_fields(channel2, artifact2, m2)),
        channel1 != channel2 || artifact1 != artifact2,
        !collides(
            staged_message(channel1, artifact1, m1),
            staged_message(channel2, artifact2, m2),
        ),
    ensures
        staged_state_digest(channel1, artifact1, m1) != staged_state_digest(
            channel2,
            artifact2,
            m2,
        ),
{
    let x = staged_fields(channel1, artifact1, m1);
    let y = staged_fields(channel2, artifact2, m2);
    let domain = "staged-search-channel-receipt-v1"@;
    reveal_strlit("staged-search-channel-receipt-v1");
    lemma_text_bytes(domain);
    if digest(domain, x) == digest(domain, y) {
        law_digest_binds_its_fields(domain, x, domain, y);
        assert(x[0] == y[0] && x[1] == y[1]);
    }
}

} // verus!
