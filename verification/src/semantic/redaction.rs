//! What descriptions give away: nothing but sizes, numbers and flags, in a
//! bounded number of bytes.

use vstd::prelude::*;

use super::blocks::ChunkKind;
use super::catalog::catalog_diagnostic;
use super::diagnostic::{described, described_fields, flag_text};
use super::note::{note_diagnostic, NoteModel};
use super::projection::{
    chunk_diagnostic, coverage_diagnostic, kind_name, projection_diagnostic, status_diagnostic,
};
use super::ranking::ranked_diagnostic;
use super::request::{lease_diagnostic, request_diagnostic, RequestModel};
use crate::text::{
    byte_len, decimal, digit, lemma_byte_len_concat, lemma_byte_off_mono, lemma_byte_off_prefix,
};

verus! {

/// The most bytes of a description.
pub const MAX_DIAGNOSTIC_BYTES: usize = 1023;

proof fn lemma_text_bytes(s: Seq<char>)
    ensures
        byte_len(s) <= 4 * s.len(),
{
    lemma_byte_off_mono(s, 0, s.len() as int);
}

/// So many digits are enough for a number.
spec fn has_digits(n: nat, k: nat) -> bool
    decreases k,
{
    k > 0 && (n < 10 || has_digits(n / 10, (k - 1) as nat))
}

proof fn lemma_decimal_bytes(n: nat, k: nat)
    requires
        has_digits(n, k),
    ensures
        byte_len(decimal(n)) <= k,
    decreases k,
{
    let d = decimal(n);
    if n < 10 {
        assert(d =~= seq![digit(n)]);
        reveal_with_fuel(crate::text::byte_off, 2);
    } else {
        let head = decimal(n / 10);
        lemma_decimal_bytes(n / 10, (k - 1) as nat);
        lemma_byte_off_prefix(head, d, head.len() as int);
        assert(d[head.len() as int] == digit(n % 10));
    }
}

proof fn lemma_number_bytes(n: nat)
    requires
        n <= u64::MAX,
    ensures
        byte_len(decimal(n)) <= 20,
{
    assert(has_digits(n, 20)) by {
        reveal_with_fuel(has_digits, 21);
    }
    lemma_decimal_bytes(n, 20);
}

proof fn lemma_flag_bytes(b: bool)
    ensures
        byte_len(flag_text(b)) <= 20,
{
    reveal_strlit("true");
    reveal_strlit("false");
    lemma_text_bytes(flag_text(b));
}

/// What the first `n` fields take at most: four bytes for each character of a
/// label and of what surrounds it, and the bytes of the value.
spec fn field_bytes(labels: Seq<Seq<char>>, values: Seq<Seq<char>>, n: int) -> nat
    decreases n,
{
    if n <= 0 {
        0
    } else {
        field_bytes(labels, values, n - 1) + 4 * (labels[n - 1].len() + 4) + byte_len(values[n - 1])
    }
}

proof fn lemma_fields_bytes(labels: Seq<Seq<char>>, values: Seq<Seq<char>>, n: int)
    ensures
        byte_len(described_fields(labels, values, n)) <= field_bytes(labels, values, n),
    decreases n,
{
    reveal_strlit(": ");
    reveal_strlit(", ");
    lemma_text_bytes(": "@);
    lemma_text_bytes(", "@);
    if n > 0 {
        let label = labels[n - 1];
        let value = values[n - 1];
        lemma_text_bytes(label);
        lemma_byte_len_concat(label, ": "@);
        lemma_byte_len_concat(label + ": "@, value);
        if n > 1 {
            let before = described_fields(labels, values, n - 1);
            lemma_fields_bytes(labels, values, n - 1);
            lemma_byte_len_concat(", "@, label + ": "@ + value);
            lemma_byte_len_concat(before, ", "@ + (label + ": "@ + value));
        }
    }
}

proof fn lemma_described_bytes(name: Seq<char>, labels: Seq<Seq<char>>, values: Seq<Seq<char>>)
    ensures
        byte_len(described(name, labels, values)) <= 4 * (name.len() + 5) + field_bytes(
            labels,
            values,
            labels.len() as int,
        ),
{
    reveal_strlit(" { ");
    reveal_strlit(" }");
    let fields = described_fields(labels, values, labels.len() as int);
    lemma_fields_bytes(labels, values, labels.len() as int);
    lemma_text_bytes(name);
    lemma_text_bytes(" { "@);
    lemma_text_bytes(" }"@);
    lemma_byte_len_concat(name, " { "@);
    lemma_byte_len_concat(fields, " }"@);
    lemma_byte_len_concat(name + " { "@, fields + " }"@);
}

/// A note is described by the sizes of its texts alone, in few bytes.
pub proof fn law_note_is_redacted(a: NoteModel, b: NoteModel)
    requires
        byte_len(a.title) == byte_len(b.title) <= u64::MAX,
        byte_len(a.body) == byte_len(b.body) <= u64::MAX,
    ensures
        note_diagnostic(byte_len(a.title), byte_len(a.body)) == note_diagnostic(
            byte_len(b.title),
            byte_len(b.body),
        ),
        byte_len(note_diagnostic(byte_len(a.title), byte_len(a.body))) <= MAX_DIAGNOSTIC_BYTES,
{
    let (t, n) = (byte_len(a.title), byte_len(a.body));
    reveal_strlit("NoteInput");
    reveal_strlit("title_bytes");
    reveal_strlit("body_bytes");
    lemma_number_bytes(t);
    lemma_number_bytes(n);
    lemma_described_bytes(
        "NoteInput"@,
        seq!["title_bytes"@, "body_bytes"@],
        seq![decimal(t), decimal(n)],
    );
    reveal_with_fuel(field_bytes, 6);
}

/// A chunk is described in few bytes.
pub proof fn law_chunk_description_is_bounded(
    kind: ChunkKind,
    text_bytes: nat,
    has_body_range: bool,
    occurrence: nat,
    format_version: nat,
)
    requires
        text_bytes <= u64::MAX,
        occurrence <= u64::MAX,
        format_version <= u64::MAX,
    ensures
        byte_len(
            chunk_diagnostic(kind, text_bytes, has_body_range, occurrence, format_version),
        ) <= MAX_DIAGNOSTIC_BYTES,
{
    reveal_strlit("ParagraphChunk");
    reveal_strlit("kind");
    reveal_strlit("text_bytes");
    reveal_strlit("has_body_range");
    reveal_strlit("occurrence");
    reveal_strlit("format_version");
    reveal_strlit("Title");
    reveal_strlit("Heading");
    reveal_strlit("Paragraph");
    reveal_strlit("Code");
    lemma_text_bytes(kind_name(kind));
    lemma_number_bytes(text_bytes);
    lemma_number_bytes(occurrence);
    lemma_number_bytes(format_version);
    lemma_flag_bytes(has_body_range);
    lemma_described_bytes(
        "ParagraphChunk"@,
        seq![
            "kind"@,
            "text_bytes"@,
            "has_body_range"@,
            "occurrence"@,
            "format_version"@,
        ],
        seq![
            kind_name(kind),
            decimal(text_bytes),
            flag_text(has_body_range),
            decimal(occurrence),
            decimal(format_version),
        ],
    );
    reveal_with_fuel(field_bytes, 6);
}

proof fn lemma_status_bytes(omitted_from: Option<nat>)
    requires
        omitted_from is Some ==> omitted_from->0 <= u64::MAX,
    ensures
        byte_len(status_diagnostic(omitted_from)) <= 252,
{
    reveal_strlit("Complete");
    reveal_strlit("Partial");
    reveal_strlit("omitted_from_body_byte");
    reveal_strlit("reason");
    reveal_strlit("ChunkLimit");
    lemma_text_bytes("Complete"@);
    lemma_text_bytes("ChunkLimit"@);
    if let Some(n) = omitted_from {
        lemma_number_bytes(n);
        lemma_described_bytes(
            "Partial"@,
            seq!["omitted_from_body_byte"@, "reason"@],
            seq![decimal(n), "ChunkLimit"@],
        );
        reveal_with_fuel(field_bytes, 3);
    }
}

/// The coverage of a note is described in few bytes.
pub proof fn law_coverage_description_is_bounded(
    total_body_bytes: nat,
    indexed_body_bytes: nat,
    omitted_from: Option<nat>,
)
    requires
        total_body_bytes <= u64::MAX,
        indexed_body_bytes <= u64::MAX,
        omitted_from is Some ==> omitted_from->0 <= u64::MAX,
    ensures
        byte_len(coverage_diagnostic(total_body_bytes, indexed_body_bytes, omitted_from)) <= 572,
{
    reveal_strlit("ChunkCoverage");
    reveal_strlit("total_body_bytes");
    reveal_strlit("indexed_body_bytes");
    reveal_strlit("status");
    lemma_number_bytes(total_body_bytes);
    lemma_number_bytes(indexed_body_bytes);
    lemma_status_bytes(omitted_from);
    lemma_described_bytes(
        "ChunkCoverage"@,
        seq!["total_body_bytes"@, "indexed_body_bytes"@, "status"@],
        seq![
            decimal(total_body_bytes),
            decimal(indexed_body_bytes),
            status_diagnostic(omitted_from),
        ],
    );
    reveal_with_fuel(field_bytes, 4);
}

/// A projection is described in few bytes.
pub proof fn law_projection_description_is_bounded(
    title_bytes: nat,
    body_bytes: nat,
    chunk_count: nat,
    total_body_bytes: nat,
    indexed_body_bytes: nat,
    omitted_from: Option<nat>,
)
    requires
        title_bytes <= u64::MAX,
        body_bytes <= u64::MAX,
        chunk_count <= u64::MAX,
        total_body_bytes <= u64::MAX,
        indexed_body_bytes <= u64::MAX,
        omitted_from is Some ==> omitted_from->0 <= u64::MAX,
    ensures
        byte_len(
            projection_diagnostic(
                title_bytes,
                body_bytes,
                chunk_count,
                coverage_diagnostic(total_body_bytes, indexed_body_bytes, omitted_from),
            ),
        ) <= MAX_DIAGNOSTIC_BYTES,
{
    let coverage = coverage_diagnostic(total_body_bytes, indexed_body_bytes, omitted_from);
    reveal_strlit("ChunkProjection");
    reveal_strlit("title_bytes");
    reveal_strlit("body_bytes");
    reveal_strlit("chunk_count");
    reveal_strlit("coverage");
    lemma_number_bytes(title_bytes);
    lemma_number_bytes(body_bytes);
    lemma_number_bytes(chunk_count);
    law_coverage_description_is_bounded(total_body_bytes, indexed_body_bytes, omitted_from);
    lemma_described_bytes(
        "ChunkProjection"@,
        seq!["title_bytes"@, "body_bytes"@, "chunk_count"@, "coverage"@],
        seq![decimal(title_bytes), decimal(body_bytes), decimal(chunk_count), coverage],
    );
    reveal_with_fuel(field_bytes, 5);
}

/// A request is described by the sizes of its texts and by what it has, in few
/// bytes.
pub proof fn law_request_is_redacted(a: RequestModel, b: RequestModel)
    requires
        byte_len(a.query) == byte_len(b.query) <= u64::MAX,
        a.limit == b.limit,
        a.origin_note_id is Some <==> b.origin_note_id is Some,
        a.exact_title is Some <==> b.exact_title is Some,
    ensures
        request_diagnostic(
            byte_len(a.query),
            a.limit as nat,
            a.origin_note_id is Some,
            a.exact_title is Some,
        ) == request_diagnostic(
            byte_len(b.query),
            b.limit as nat,
            b.origin_note_id is Some,
            b.exact_title is Some,
        ),
        byte_len(
            request_diagnostic(
                byte_len(a.query),
                a.limit as nat,
                a.origin_note_id is Some,
                a.exact_title is Some,
            ),
        ) <= MAX_DIAGNOSTIC_BYTES,
{
    let (n, o, t) = (byte_len(a.query), a.origin_note_id is Some, a.exact_title is Some);
    reveal_strlit("HybridRequest");
    reveal_strlit("format_version");
    reveal_strlit("query_bytes");
    reveal_strlit("limit");
    reveal_strlit("has_origin_note");
    reveal_strlit("has_exact_title");
    lemma_number_bytes(2);
    lemma_number_bytes(n);
    lemma_number_bytes(a.limit as nat);
    lemma_flag_bytes(o);
    lemma_flag_bytes(t);
    lemma_described_bytes(
        "HybridRequest"@,
        seq![
            "format_version"@,
            "query_bytes"@,
            "limit"@,
            "has_origin_note"@,
            "has_exact_title"@,
        ],
        seq![decimal(2), decimal(n), decimal(a.limit as nat), flag_text(o), flag_text(t)],
    );
    reveal_with_fuel(field_bytes, 6);
}

/// A lease is described in few bytes.
pub proof fn law_lease_description_is_bounded(
    generation: nat,
    pre_filter_limit: nat,
    semantic_channel_admitted: bool,
)
    requires
        generation <= u64::MAX,
        pre_filter_limit <= u64::MAX,
    ensures
        byte_len(lease_diagnostic(generation, pre_filter_limit, semantic_channel_admitted))
            <= MAX_DIAGNOSTIC_BYTES,
{
    reveal_strlit("SearchLease");
    reveal_strlit("generation");
    reveal_strlit("pre_filter_limit");
    reveal_strlit("semantic_channel_admitted");
    lemma_number_bytes(generation);
    lemma_number_bytes(pre_filter_limit);
    lemma_flag_bytes(semantic_channel_admitted);
    lemma_described_bytes(
        "SearchLease"@,
        seq!["generation"@, "pre_filter_limit"@, "semantic_channel_admitted"@],
        seq![
            decimal(generation),
            decimal(pre_filter_limit),
            flag_text(semantic_channel_admitted),
        ],
    );
    reveal_with_fuel(field_bytes, 6);
}

/// A catalog is described in few bytes.
pub proof fn law_catalog_description_is_bounded(
    generation: nat,
    chunk_count: nat,
    note_count: nat,
    has_manifest: bool,
)
    requires
        generation <= u64::MAX,
        chunk_count <= u64::MAX,
        note_count <= u64::MAX,
    ensures
        byte_len(catalog_diagnostic(generation, chunk_count, note_count, has_manifest))
            <= MAX_DIAGNOSTIC_BYTES,
{
    reveal_strlit("ChunkCatalog");
    reveal_strlit("generation");
    reveal_strlit("chunk_count");
    reveal_strlit("note_count");
    reveal_strlit("has_manifest");
    lemma_number_bytes(generation);
    lemma_number_bytes(chunk_count);
    lemma_number_bytes(note_count);
    lemma_flag_bytes(has_manifest);
    lemma_described_bytes(
        "ChunkCatalog"@,
        seq!["generation"@, "chunk_count"@, "note_count"@, "has_manifest"@],
        seq![
            decimal(generation),
            decimal(chunk_count),
            decimal(note_count),
            flag_text(has_manifest),
        ],
    );
    reveal_with_fuel(field_bytes, 6);
}

/// A ranked note is described in few bytes.
pub proof fn law_ranked_description_is_bounded(
    rank_score_bits: nat,
    has_source_label: bool,
    has_lexical_evidence: bool,
    has_semantic_evidence: bool,
)
    requires
        rank_score_bits <= u64::MAX,
    ensures
        byte_len(
            ranked_diagnostic(
                rank_score_bits,
                has_source_label,
                has_lexical_evidence,
                has_semantic_evidence,
            ),
        ) <= MAX_DIAGNOSTIC_BYTES,
{
    reveal_strlit("RankedNoteHit");
    reveal_strlit("rank_score_bits");
    reveal_strlit("has_source_label");
    reveal_strlit("has_lexical_evidence");
    reveal_strlit("has_semantic_evidence");
    lemma_number_bytes(rank_score_bits);
    lemma_flag_bytes(has_source_label);
    lemma_flag_bytes(has_lexical_evidence);
    lemma_flag_bytes(has_semantic_evidence);
    lemma_described_bytes(
        "RankedNoteHit"@,
        seq![
            "rank_score_bits"@,
            "has_source_label"@,
            "has_lexical_evidence"@,
            "has_semantic_evidence"@,
        ],
        seq![
            decimal(rank_score_bits),
            flag_text(has_source_label),
            flag_text(has_lexical_evidence),
            flag_text(has_semantic_evidence),
        ],
    );
    reveal_with_fuel(field_bytes, 6);
}

} // verus!
