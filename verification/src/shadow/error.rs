//! The errors of the document engine.

use vstd::prelude::*;

use crate::text::concat2;

verus! {

/// A failure of the document engine. Each kind has a fixed negative code that
/// foreign callers switch on.
#[derive(Debug, PartialEq, Eq)]
pub enum ShadowError {
    /// The caller passed bad input.
    InvalidInput { detail: String },
    /// No document has the identifier.
    NotFound { doc_id: String },
    /// A file could not be read or written.
    Io { detail: String },
    /// The index or the embedder failed.
    Backend { detail: String },
    /// The engine could not finish the operation at all.
    Panic,
}

/// An error with its text as characters.
#[verifier::ext_equal]
pub enum ErrorModel {
    InvalidInput { detail: Seq<char> },
    NotFound { doc_id: Seq<char> },
    Io { detail: Seq<char> },
    Backend { detail: Seq<char> },
    Panic,
}

impl View for ShadowError {
    type V = ErrorModel;

    open spec fn view(&self) -> ErrorModel {
        match self {
            ShadowError::InvalidInput { detail } => ErrorModel::InvalidInput { detail: detail@ },
            ShadowError::NotFound { doc_id } => ErrorModel::NotFound { doc_id: doc_id@ },
            ShadowError::Io { detail } => ErrorModel::Io { detail: detail@ },
            ShadowError::Backend { detail } => ErrorModel::Backend { detail: detail@ },
            ShadowError::Panic => ErrorModel::Panic,
        }
    }
}

/// The code of an error.
pub open spec fn error_code(e: ErrorModel) -> int {
    match e {
        ErrorModel::InvalidInput { .. } => -1,
        ErrorModel::NotFound { .. } => -2,
        ErrorModel::Io { .. } => -3,
        ErrorModel::Backend { .. } => -4,
        ErrorModel::Panic => -99,
    }
}

/// The message of an error: its kind and its text.
pub open spec fn error_message(e: ErrorModel) -> Seq<char> {
    match e {
        ErrorModel::InvalidInput { detail } => "invalid input: "@ + detail,
        ErrorModel::NotFound { doc_id } => "document not found: "@ + doc_id,
        ErrorModel::Io { detail } => "io error: "@ + detail,
        ErrorModel::Backend { detail } => "backend error: "@ + detail,
        ErrorModel::Panic => "rust panic at FFI boundary"@,
    }
}

impl ShadowError {
    /// The code that a foreign caller gets: negative, so that it differs from
    /// every count.
    pub fn as_code(&self) -> (r: i32)
        ensures
            r == error_code(self@),
            r < 0,
    {
        match self {
            ShadowError::InvalidInput { .. } => -1,
            ShadowError::NotFound { .. } => -2,
            ShadowError::Io { .. } => -3,
            ShadowError::Backend { .. } => -4,
            ShadowError::Panic => -99,
        }
    }

    /// The message for a reader.
    pub fn message(&self) -> (r: String)
        ensures
            r@ == error_message(self@),
    {
        match self {
            ShadowError::InvalidInput { detail } => concat2("invalid input: ", detail.as_str()),
            ShadowError::NotFound { doc_id } => concat2("document not found: ", doc_id.as_str()),
            ShadowError::Io { detail } => concat2("io error: ", detail.as_str()),
            ShadowError::Backend { detail } => concat2("backend error: ", detail.as_str()),
            ShadowError::Panic => "rust panic at FFI boundary".to_owned(),
        }
    }
}

/// The code that a foreign caller gets for an outcome: zero for success, the
/// error's code otherwise.
pub fn outcome_code(outcome: &Result<(), ShadowError>) -> (r: i32)
    ensures
        r == match *outcome {
            Ok(_) => 0,
            Err(e) => error_code(e@),
        },
{
    match outcome {
        Ok(_) => 0,
        Err(e) => e.as_code(),
    }
}

/// Errors of different kinds have different codes, the negative numbers from minus one
/// on and minus 99 for a panic, and none has the code of success.
pub proof fn law_codes_tell_kinds_apart(a: ErrorModel, b: ErrorModel)
    ensures
        error_code(a) != 0,
        error_code(a) == error_code(b) <==> (a is InvalidInput <==> b is InvalidInput) && (
        a is NotFound <==> b is NotFound) && (a is Io <==> b is Io) && (a is Backend
            <==> b is Backend) && (a is Panic <==> b is Panic),
        a is InvalidInput ==> error_code(a) == -1,
        a is NotFound ==> error_code(a) == -2,
        a is Io ==> error_code(a) == -3,
        a is Backend ==> error_code(a) == -4,
        a is Panic ==> error_code(a) == -99,
{
}

/// Messages end with the text of the error, and those of different kinds with the
/// same text differ.
pub proof fn law_message_ends_with_the_text(text: Seq<char>)
    ensures
        ({
            let a = error_message(ErrorModel::InvalidInput { detail: text });
            let b = error_message(ErrorModel::NotFound { doc_id: text });
            let c = error_message(ErrorModel::Io { detail: text });
            let d = error_message(ErrorModel::Backend { detail: text });
            &&& a.len() > text.len() && a.skip(a.len() - text.len()) == text
            &&& b.len() > text.len() && b.skip(b.len() - text.len()) == text
            &&& c.len() > text.len() && c.skip(c.len() - text.len()) == text
            &&& d.len() > text.len() && d.skip(d.len() - text.len()) == text
            &&& a != b && a != c && a != d && b != c && b != d && c != d
        }),
{
    reveal_strlit("invalid input: ");
    reveal_strlit("document not found: ");
    reveal_strlit("io error: ");
    reveal_strlit("backend error: ");
    let a = error_message(ErrorModel::InvalidInput { detail: text });
    let b = error_message(ErrorModel::NotFound { doc_id: text });
    let c = error_message(ErrorModel::Io { detail: text });
    let d = error_message(ErrorModel::Backend { detail: text });
    assert(a.skip(a.len() - text.len()) =~= text);
    assert(b.skip(b.len() - text.len()) =~= text);
    assert(c.skip(c.len() - text.len()) =~= text);
    assert(d.skip(d.len() - text.len()) =~= text);
    assert(a[0] == 'i' && a[1] == 'n');
    assert(b[0] == 'd');
    assert(c[0] == 'i' && c[1] == 'o');
    assert(d[0] == 'b');
}

} // verus!
