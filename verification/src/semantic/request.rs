//! Bounded search requests and the leases that admit them.

use vstd::prelude::*;

use super::diagnostic::{describe, described, flag_string, flag_text};
use super::error::FreeSemanticError;
use super::identity::{
    canonical_identity, check_identity, identity_error, is_identity, IdentityKind,
};
use super::manifest::{
    clone_receipt, manifest_digest, optional_receipt_fields, receipt_artifact,
    receipt_digest_fields, receipt_state, receipt_view, same_receipt, ChannelReceipt,
    GenerationManifest, ManifestModel, ReceiptModel,
};
use super::rank::MAX_CHANNEL_HITS;
use crate::digest::{digest, is_digest, sha256_digest, texts};
use crate::keys::string_views;
use crate::text::{
    byte_len, clone_opt_text, contains_control, decimal, decimal_string, has_control, opt_text,
    str_byte_len, text_eq, trim, trim_string,
};

verus! {

pub const MAX_QUERY_LIMIT: usize = 64;

pub const MAX_QUERY_BYTES: usize = 16384;

pub const MAX_EXACT_TITLE_BYTES: usize = 2_048;

/// A request by its texts and numbers.
#[verifier::ext_equal]
pub struct RequestModel {
    pub vault_id: Seq<char>,
    pub query: Seq<char>,
    pub limit: usize,
    pub origin_note_id: Option<Seq<char>>,
    pub exact_title: Option<Seq<char>>,
}

/// A bounded question to one vault.
#[derive(PartialEq, Eq)]
pub struct HybridRequest {
    vault_id: String,
    query: String,
    limit: usize,
    origin_note_id: Option<String>,
    exact_title: Option<String>,
}

impl View for HybridRequest {
    type V = RequestModel;

    closed spec fn view(&self) -> RequestModel {
        RequestModel {
            vault_id: self.vault_id@,
            query: self.query@,
            limit: self.limit,
            origin_note_id: opt_text(self.origin_note_id),
            exact_title: opt_text(self.exact_title),
        }
    }
}

impl Clone for HybridRequest {
    fn clone(&self) -> (r: Self)
        ensures
            r@ == self@,
    {
        HybridRequest {
            vault_id: self.vault_id.clone(),
            query: self.query.clone(),
            limit: self.limit,
            origin_note_id: clone_opt_text(&self.origin_note_id),
            exact_title: clone_opt_text(&self.exact_title),
        }
    }
}

pub open spec fn query_ok(query: Seq<char>) -> bool {
    &&& trim(query).len() > 0
    &&& byte_len(query) <= MAX_QUERY_BYTES
    &&& !has_control(query)
}

pub open spec fn exact_title_ok(title: Seq<char>) -> bool {
    &&& title.len() > 0
    &&& byte_len(title) <= MAX_EXACT_TITLE_BYTES
    &&& !has_control(title)
}

/// Why a request is refused, if it is.
pub open spec fn request_error(m: RequestModel) -> Option<FreeSemanticError> {
    if !is_identity(m.vault_id) {
        Some(identity_error(m.vault_id, IdentityKind::Vault))
    } else if !query_ok(m.query) || m.limit == 0 || m.limit > MAX_QUERY_LIMIT {
        Some(FreeSemanticError::InvalidRequest)
    } else if m.origin_note_id matches Some(o) && !is_identity(o) {
        Some(identity_error(m.origin_note_id->0, IdentityKind::Note))
    } else if m.exact_title matches Some(t) && !exact_title_ok(t) {
        Some(FreeSemanticError::InvalidRequest)
    } else {
        None
    }
}

/// Why no request is made of these parts, if none is: both identities are
/// looked at first.
pub open spec fn new_request_error(m: RequestModel) -> Option<FreeSemanticError> {
    if !is_identity(m.vault_id) {
        Some(identity_error(m.vault_id, IdentityKind::Vault))
    } else if m.origin_note_id matches Some(o) && !is_identity(o) {
        Some(identity_error(m.origin_note_id->0, IdentityKind::Note))
    } else {
        request_error(m)
    }
}

/// The request with a title to be matched exactly; a blank one is none.
pub open spec fn with_title(m: RequestModel, title: Seq<char>) -> RequestModel {
    RequestModel {
        exact_title: if trim(title).len() == 0 {
            None
        } else {
            Some(trim(title))
        },
        ..m
    }
}

/// The digest of the exact bytes of a query.
pub open spec fn query_digest(query: Seq<char>) -> Seq<char> {
    digest("note-recall-query-bytes-v1"@, seq![query])
}

/// The digest of a request: its query, its bounds and the input policies of
/// both channels.
pub open spec fn request_digest(m: RequestModel) -> Seq<char> {
    digest(
        "note-recall-request-v2"@,
        seq![
            decimal(2),
            m.vault_id,
            query_digest(m.query),
            "free-lexical-escaped-query-v1"@,
            decimal(1),
            "free-semantic-exact-utf8-v1"@,
            decimal(1),
            decimal(m.limit as nat),
            match m.origin_note_id {
                Some(o) => o,
                None => "none"@,
            },
            match m.exact_title {
                Some(t) => t,
                None => "none"@,
            },
        ],
    )
}

/// Whether a text is all white space.
fn is_blank(s: &str) -> (r: bool)
    ensures
        r == (trim(s@).len() == 0),
{
    trim_string(s).as_str().is_empty()
}

fn opt_or_none<'a>(s: &'a Option<String>) -> (r: &'a str)
    ensures
        r@ == match opt_text(*s) {
            Some(t) => t,
            None => "none"@,
        },
{
    match s {
        Some(t) => t.as_str(),
        None => "none",
    }
}

/// What a log may say of a request: the size of its query, and what it asks for.
pub open spec fn request_diagnostic(
    query_bytes: nat,
    limit: nat,
    has_origin_note: bool,
    has_exact_title: bool,
) -> Seq<char> {
    described(
        "HybridRequest"@,
        seq![
            "format_version"@,
            "query_bytes"@,
            "limit"@,
            "has_origin_note"@,
            "has_exact_title"@,
        ],
        seq![
            decimal(2),
            decimal(query_bytes),
            decimal(limit),
            flag_text(has_origin_note),
            flag_text(has_exact_title),
        ],
    )
}

impl HybridRequest {
    /// A description without any text of the request.
    pub fn diagnostic(&self) -> (r: String)
        ensures
            r@ == request_diagnostic(
                byte_len(self@.query),
                self@.limit as nat,
                self@.origin_note_id is Some,
                self@.exact_title is Some,
            ),
    {
        let labels: [&str; 5] = [
            "format_version",
            "query_bytes",
            "limit",
            "has_origin_note",
            "has_exact_title",
        ];
        let mut values: Vec<String> = Vec::new();
        values.push(decimal_string(2));
        values.push(decimal_string(str_byte_len(self.query.as_str()) as u64));
        values.push(decimal_string(self.limit as u64));
        values.push(flag_string(self.origin_note_id.is_some()));
        values.push(flag_string(self.exact_title.is_some()));
        assert(texts(labels@) =~= seq![
            "format_version"@,
            "query_bytes"@,
            "limit"@,
            "has_origin_note"@,
            "has_exact_title"@,
        ]);
        assert(string_views(values@) =~= seq![
            decimal(2),
            decimal(byte_len(self@.query)),
            decimal(self@.limit as nat),
            flag_text(self@.origin_note_id is Some),
            flag_text(self@.exact_title is Some),
        ]);
        describe("HybridRequest", &labels, &values)
    }
}

impl HybridRequest {
    pub fn new(vault_id: &str, query: &str, limit: usize, origin_note_id: Option<String>) -> (r:
        Result<Self, FreeSemanticError>)
        ensures
            ({
                let m = RequestModel {
                    vault_id: vault_id@,
                    query: query@,
                    limit,
                    origin_note_id: opt_text(origin_note_id),
                    exact_title: None,
                };
                match r {
                    Ok(request) => new_request_error(m) is None && request@ == m,
                    Err(e) => new_request_error(m) == Some(e),
                }
            }),
    {
        let vault: String = match canonical_identity(vault_id.to_owned(), IdentityKind::Vault) {
            Ok(v) => v,
            Err(e) => {
                return Err(e);
            },
        };
        match &origin_note_id {
            Some(origin) => match check_identity(origin.as_str(), IdentityKind::Note) {
                Ok(()) => {},
                Err(e) => {
                    return Err(e);
                },
            },
            None => {},
        }
        let request: HybridRequest = HybridRequest {
            vault_id: vault,
            query: query.to_owned(),
            limit,
            origin_note_id,
            exact_title: None,
        };
        match request.validate_shape() {
            Ok(()) => Ok(request),
            Err(e) => Err(e),
        }
    }

    pub fn with_exact_title(self, title: &str) -> (r: Result<Self, FreeSemanticError>)
        ensures
            match r {
                Ok(request) => request_error(with_title(self@, title@)) is None && request@
                    == with_title(self@, title@),
                Err(e) => if trim(title@).len() > 0 && !exact_title_ok(trim(title@)) {
                    e == FreeSemanticError::InvalidRequest
                } else {
                    request_error(with_title(self@, title@)) == Some(e)
                },
            },
            r is Ok ==> trim(title@).len() == 0 || exact_title_ok(trim(title@)),
    {
        let trimmed: String = trim_string(title);
        let mut request: HybridRequest = self;
        if trimmed.as_str().is_empty() {
            request.exact_title = None;
        } else if str_byte_len(trimmed.as_str()) > MAX_EXACT_TITLE_BYTES || contains_control(
            trimmed.as_str(),
        ) {
            return Err(FreeSemanticError::InvalidRequest);
        } else {
            request.exact_title = Some(trimmed);
        }
        match request.validate_shape() {
            Ok(()) => Ok(request),
            Err(e) => Err(e),
        }
    }

    /// The digest of the request.
    pub fn digest(&self) -> (r: String)
        ensures
            r@ == request_digest(self@),
            is_digest(r@),
    {
        let version: String = decimal_string(2);
        let query: String = self.query_digest();
        let one: String = decimal_string(1);
        let limit: String = decimal_string(self.limit as u64);
        let fields: [&str; 10] = [
            version.as_str(),
            self.vault_id.as_str(),
            query.as_str(),
            "free-lexical-escaped-query-v1",
            one.as_str(),
            "free-semantic-exact-utf8-v1",
            one.as_str(),
            limit.as_str(),
            opt_or_none(&self.origin_note_id),
            opt_or_none(&self.exact_title),
        ];
        let r: String = sha256_digest("note-recall-request-v2", &fields);
        let ghost m = self@;
        assert(texts(fields@) =~= seq![
            decimal(2),
            m.vault_id,
            query_digest(m.query),
            "free-lexical-escaped-query-v1"@,
            decimal(1),
            "free-semantic-exact-utf8-v1"@,
            decimal(1),
            decimal(m.limit as nat),
            match m.origin_note_id {
                Some(o) => o,
                None => "none"@,
            },
            match m.exact_title {
                Some(t) => t,
                None => "none"@,
            },
        ]);
        r
    }

    /// The digest of the exact bounded UTF-8 query bytes, which does not
    /// expose them.
    pub fn query_digest(&self) -> (r: String)
        ensures
            r@ == query_digest(self@.query),
            is_digest(r@),
    {
        let fields: [&str; 1] = [self.query.as_str()];
        let r: String = sha256_digest("note-recall-query-bytes-v1", &fields);
        assert(texts(fields@) =~= seq![self.query@]);
        r
    }

    pub fn limit(&self) -> (r: usize)
        ensures
            r == self@.limit,
    {
        self.limit
    }

    pub fn origin_note_id(&self) -> (r: Option<&str>)
        ensures
            match r {
                Some(o) => self@.origin_note_id == Some(o@),
                None => self@.origin_note_id is None,
            },
    {
        match &self.origin_note_id {
            Some(o) => Some(o.as_str()),
            None => None,
        }
    }

    /// Accepts a valid request to this vault.
    pub fn validate_for_catalog(&self, vault_id: &str) -> (r: Result<(), FreeSemanticError>)
        ensures
            match r {
                Ok(()) => request_error(self@) is None && self@.vault_id == vault_id@,
                Err(e) => if request_error(self@) is Some {
                    request_error(self@) == Some(e)
                } else {
                    self@.vault_id != vault_id@ && e == FreeSemanticError::VaultMismatch
                },
            },
    {
        match self.validate_shape() {
            Ok(()) => {},
            Err(e) => {
                return Err(e);
            },
        }
        if !text_eq(self.vault_id.as_str(), vault_id) {
            return Err(FreeSemanticError::VaultMismatch);
        }
        Ok(())
    }

    fn validate_shape(&self) -> (r: Result<(), FreeSemanticError>)
        ensures
            match r {
                Ok(()) => request_error(self@) is None,
                Err(e) => request_error(self@) == Some(e),
            },
    {
        match check_identity(self.vault_id.as_str(), IdentityKind::Vault) {
            Ok(()) => {},
            Err(e) => {
                return Err(e);
            },
        }
        if is_blank(self.query.as_str()) || str_byte_len(self.query.as_str()) > MAX_QUERY_BYTES
            || contains_control(self.query.as_str()) {
            return Err(FreeSemanticError::InvalidRequest);
        }
        if self.limit == 0 || self.limit > MAX_QUERY_LIMIT {
            return Err(FreeSemanticError::InvalidRequest);
        }
        match &self.origin_note_id {
            Some(origin) => match check_identity(origin.as_str(), IdentityKind::Note) {
                Ok(()) => {},
                Err(e) => {
                    return Err(e);
                },
            },
            None => {},
        }
        match &self.exact_title {
            Some(title) => {
                if title.as_str().is_empty() || str_byte_len(title.as_str())
                    > MAX_EXACT_TITLE_BYTES || contains_control(title.as_str()) {
                    return Err(FreeSemanticError::InvalidRequest);
                }
            },
            None => {},
        }
        Ok(())
    }
}

#[derive(Clone, Copy, Debug, PartialEq, Eq, Structural)]
pub enum SearchChannel {
    Lexical,
    Semantic,
}

pub open spec fn channel_tag(c: SearchChannel) -> Seq<char> {
    match c {
        SearchChannel::Lexical => "lexical"@,
        SearchChannel::Semantic => "semantic"@,
    }
}

impl SearchChannel {
    pub fn tag(self) -> (r: &'static str)
        ensures
            r@ == channel_tag(self),
    {
        match self {
            SearchChannel::Lexical => "lexical",
            SearchChannel::Semantic => "semantic",
        }
    }
}

#[derive(Clone, Copy, Debug, PartialEq, Eq, Structural)]
pub enum ChannelCompletion {
    Complete,
    Truncated,
}

pub open spec fn completion_tag(c: ChannelCompletion) -> Seq<char> {
    match c {
        ChannelCompletion::Complete => "complete"@,
        ChannelCompletion::Truncated => "truncated"@,
    }
}

impl ChannelCompletion {
    pub fn tag(self) -> (r: &'static str)
        ensures
            r@ == completion_tag(self),
    {
        match self {
            ChannelCompletion::Complete => "complete",
            ChannelCompletion::Truncated => "truncated",
        }
    }
}

/// A lease by its texts and numbers.
#[verifier::ext_equal]
pub struct LeaseModel {
    pub vault_id: Seq<char>,
    pub generation: u64,
    pub manifest_digest: Seq<char>,
    pub request: RequestModel,
    pub pre_filter_limit: usize,
    pub lexical_receipt: ReceiptModel,
    pub vector_receipt: Option<ReceiptModel>,
    pub lease_digest: Seq<char>,
}

/// The digest of what a lease admits.
pub open spec fn lease_digest(
    vault_id: Seq<char>,
    generation: u64,
    manifest: Seq<char>,
    request: RequestModel,
    pre_filter_limit: usize,
    lexical: ReceiptModel,
    vector: Option<ReceiptModel>,
) -> Seq<char> {
    digest(
        "search-lease-v1"@,
        seq![
            vault_id,
            decimal(generation as nat),
            manifest,
            request_digest(request),
            decimal(pre_filter_limit as nat),
            receipt_artifact(Some(lexical)),
            receipt_state(Some(lexical)),
            receipt_artifact(vector),
            receipt_state(vector),
        ],
    )
}

/// The lease that a published manifest grants to a request.
pub open spec fn lease_for(
    vault_id: Seq<char>,
    generation: u64,
    m: ManifestModel,
    request: RequestModel,
    pre_filter_limit: usize,
) -> LeaseModel {
    LeaseModel {
        vault_id,
        generation,
        manifest_digest: manifest_digest(m),
        request,
        pre_filter_limit,
        lexical_receipt: m.lexical_receipt,
        vector_receipt: m.vector_receipt,
        lease_digest: lease_digest(
            vault_id,
            generation,
            manifest_digest(m),
            request,
            pre_filter_limit,
            m.lexical_receipt,
            m.vector_receipt,
        ),
    }
}

/// Opaque admission of one request under one generation, issued by a catalog.
/// Its fields are private, so that no caller can put together a receipt that
/// looks current.
#[derive(PartialEq, Eq)]
pub struct SearchLease {
    vault_id: String,
    generation: u64,
    manifest_digest: String,
    request: HybridRequest,
    pre_filter_limit: usize,
    lexical_receipt: ChannelReceipt,
    vector_receipt: Option<ChannelReceipt>,
    lease_digest: String,
}

impl View for SearchLease {
    type V = LeaseModel;

    closed spec fn view(&self) -> LeaseModel {
        LeaseModel {
            vault_id: self.vault_id@,
            generation: self.generation,
            manifest_digest: self.manifest_digest@,
            request: self.request@,
            pre_filter_limit: self.pre_filter_limit,
            lexical_receipt: self.lexical_receipt@,
            vector_receipt: receipt_view(self.vector_receipt),
            lease_digest: self.lease_digest@,
        }
    }
}

/// What a log may say of a lease.
pub open spec fn lease_diagnostic(
    generation: nat,
    pre_filter_limit: nat,
    semantic_channel_admitted: bool,
) -> Seq<char> {
    described(
        "SearchLease"@,
        seq![
            "generation"@,
            "pre_filter_limit"@,
            "semantic_channel_admitted"@,
        ],
        seq![
            decimal(generation),
            decimal(pre_filter_limit),
            flag_text(semantic_channel_admitted),
        ],
    )
}

impl SearchLease {
    /// A description without any text of the request.
    pub fn diagnostic(&self) -> (r: String)
        ensures
            r@ == lease_diagnostic(
                self@.generation as nat,
                self@.pre_filter_limit as nat,
                self@.vector_receipt is Some,
            ),
    {
        let labels: [&str; 3] = [
            "generation",
            "pre_filter_limit",
            "semantic_channel_admitted",
        ];
        let mut values: Vec<String> = Vec::new();
        values.push(decimal_string(self.generation));
        values.push(decimal_string(self.pre_filter_limit as u64));
        values.push(flag_string(self.vector_receipt.is_some()));
        assert(texts(labels@) =~= seq![
            "generation"@,
            "pre_filter_limit"@,
            "semantic_channel_admitted"@,
        ]);
        assert(string_views(values@) =~= seq![
            decimal(self@.generation as nat),
            decimal(self@.pre_filter_limit as nat),
            flag_text(self@.vector_receipt is Some),
        ]);
        describe("SearchLease", &labels, &values)
    }
}

/// The digest of what a lease admits.
pub fn search_lease_digest(
    vault_id: &str,
    generation: u64,
    manifest_digest: &str,
    request: &HybridRequest,
    pre_filter_limit: usize,
    lexical_receipt: &ChannelReceipt,
    vector_receipt: &Option<ChannelReceipt>,
) -> (r: String)
    ensures
        r@ == lease_digest(
            vault_id@,
            generation,
            manifest_digest@,
            request@,
            pre_filter_limit,
            lexical_receipt@,
            receipt_view(*vector_receipt),
        ),
        is_digest(r@),
{
    let (lexical_artifact, lexical_state) = receipt_digest_fields(lexical_receipt);
    let (vector_artifact, vector_state) = optional_receipt_fields(vector_receipt);
    let number: String = decimal_string(generation);
    let asked: String = request.digest();
    let bound: String = decimal_string(pre_filter_limit as u64);
    let fields: [&str; 9] = [
        vault_id,
        number.as_str(),
        manifest_digest,
        asked.as_str(),
        bound.as_str(),
        lexical_artifact,
        lexical_state,
        vector_artifact,
        vector_state,
    ];
    let r: String = sha256_digest("search-lease-v1", &fields);
    assert(texts(fields@) =~= seq![
        vault_id@,
        decimal(generation as nat),
        manifest_digest@,
        request_digest(request@),
        decimal(pre_filter_limit as nat),
        receipt_artifact(Some(lexical_receipt@)),
        receipt_state(Some(lexical_receipt@)),
        receipt_artifact(receipt_view(*vector_receipt)),
        receipt_state(receipt_view(*vector_receipt)),
    ]);
    r
}

impl SearchLease {
    pub(crate) fn new(
        vault_id: &str,
        generation: u64,
        manifest: &GenerationManifest,
        request: &HybridRequest,
        pre_filter_limit: usize,
    ) -> (r: Self)
        ensures
            r@ == lease_for(vault_id@, generation, manifest@, request@, pre_filter_limit),
    {
        let manifest_digest: String = manifest.digest();
        let lease_digest: String = search_lease_digest(
            vault_id,
            generation,
            manifest_digest.as_str(),
            request,
            pre_filter_limit,
            &manifest.lexical_receipt,
            &manifest.vector_receipt,
        );
        SearchLease {
            vault_id: vault_id.to_owned(),
            generation,
            manifest_digest,
            request: request.clone(),
            pre_filter_limit,
            lexical_receipt: manifest.lexical_receipt.clone(),
            vector_receipt: clone_receipt(&manifest.vector_receipt),
            lease_digest,
        }
    }

    pub(crate) fn request(&self) -> (r: &HybridRequest)
        ensures
            r@ == self@.request,
    {
        &self.request
    }

    pub(crate) fn manifest_digest(&self) -> (r: &str)
        ensures
            r@ == self@.manifest_digest,
    {
        self.manifest_digest.as_str()
    }

    pub(crate) fn lease_digest(&self) -> (r: &str)
        ensures
            r@ == self@.lease_digest,
    {
        self.lease_digest.as_str()
    }

    pub(crate) fn vault_id(&self) -> (r: &str)
        ensures
            r@ == self@.vault_id,
    {
        self.vault_id.as_str()
    }

    pub fn generation(&self) -> (r: u64)
        ensures
            r == self@.generation,
    {
        self.generation
    }

    pub fn pre_filter_limit(&self) -> (r: usize)
        ensures
            r == self@.pre_filter_limit,
    {
        self.pre_filter_limit
    }

    /// The receipt of a channel that the lease admits.
    pub(crate) fn state_receipt(&self, channel: SearchChannel) -> (r: Option<ChannelReceipt>)
        ensures
            receipt_view(r) == match channel {
                SearchChannel::Lexical => Some(self@.lexical_receipt),
                SearchChannel::Semantic => self@.vector_receipt,
            },
    {
        match channel {
            SearchChannel::Lexical => Some(self.lexical_receipt.clone()),
            SearchChannel::Semantic => clone_receipt(&self.vector_receipt),
        }
    }

    /// Accepts the lease only as the catalog would issue it now.
    pub(crate) fn validate_for_catalog(
        &self,
        vault_id: &str,
        generation: u64,
        manifest: &GenerationManifest,
    ) -> (r: Result<(), FreeSemanticError>)
        ensures
            r is Ok <==> lease_ok(self@, vault_id@, generation, manifest@),
            r matches Err(e) ==> e == FreeSemanticError::InvalidChannelBatch,
    {
        let expected: String = search_lease_digest(
            self.vault_id.as_str(),
            self.generation,
            self.manifest_digest.as_str(),
            &self.request,
            self.pre_filter_limit,
            &self.lexical_receipt,
            &self.vector_receipt,
        );
        let current: String = manifest.digest();
        let same: bool = text_eq(self.vault_id.as_str(), vault_id) && self.generation == generation
            && self.manifest_digest == current && self.pre_filter_limit >= self.request.limit
            && self.pre_filter_limit <= MAX_CHANNEL_HITS && self.lexical_receipt.same(
            &manifest.lexical_receipt,
        ) && same_receipt(&self.vector_receipt, &manifest.vector_receipt) && self.lease_digest
            == expected;
        proof {
            if same {
                assert(self@ =~= lease_for(
                    vault_id@,
                    generation,
                    manifest@,
                    self@.request,
                    self@.pre_filter_limit,
                ));
            }
        }
        if same {
            Ok(())
        } else {
            Err(FreeSemanticError::InvalidChannelBatch)
        }
    }
}

/// Whether a lease is the one that is issued now for its request.
pub open spec fn lease_ok(
    lease: LeaseModel,
    vault_id: Seq<char>,
    generation: u64,
    m: ManifestModel,
) -> bool {
    &&& lease == lease_for(vault_id, generation, m, lease.request, lease.pre_filter_limit)
    &&& lease.request.limit <= lease.pre_filter_limit <= MAX_CHANNEL_HITS
}

} // verus!
