//! Canonical identities of vaults and notes.

use vstd::prelude::*;

use super::error::FreeSemanticError;
use crate::text::{
    byte_len, chars_of, contains_char, contains_control, has_control, str_byte_len, text_eq, trim,
    trim_range,
};
verus! {

/// The most bytes that an identity may have.
pub const MAX_ID_BYTES: usize = 256;

#[derive(Clone, Copy, Debug, PartialEq, Eq, Structural)]
pub enum IdentityKind {
    Vault,
    Note,
}

/// A bounded, trimmed text without control characters and without the parts
/// of a path.
pub open spec fn is_identity(s: Seq<char>) -> bool {
    &&& s.len() > 0
    &&& trim(s) == s
    &&& byte_len(s) <= MAX_ID_BYTES
    &&& !has_control(s)
    &&& !s.contains('/')
    &&& !s.contains('\\')
    &&& s != "."@
    &&& s != ".."@
}

/// The error for a text that is no identity.
pub open spec fn identity_error(s: Seq<char>, kind: IdentityKind) -> FreeSemanticError {
    match kind {
        IdentityKind::Vault => if s.len() == 0 {
            FreeSemanticError::EmptyVaultID
        } else {
            FreeSemanticError::InvalidVaultID
        },
        IdentityKind::Note => if s.len() == 0 {
            FreeSemanticError::EmptyNoteID
        } else {
            FreeSemanticError::InvalidNoteID
        },
    }
}

pub fn is_trimmed(value: &str) -> (r: bool)
    ensures
        r == (trim(value@) == value@),
{
    let chars: Vec<char> = chars_of(value);
    let (lo, hi) = trim_range(&chars, 0, chars.len());
    proof {
        if lo == 0 && hi == chars@.len() {
            assert(trim(value@) =~= value@);
        }
    }
    lo == 0 && hi == chars.len()
}

/// Accepts an identity as it is and refuses any other text.
pub fn check_identity(value: &str, kind: IdentityKind) -> (r: Result<(), FreeSemanticError>)
    ensures
        r is Ok <==> is_identity(value@),
        r matches Err(e) ==> e == identity_error(value@, kind),
{
    if value.is_empty() {
        return Err(
            match kind {
                IdentityKind::Vault => FreeSemanticError::EmptyVaultID,
                IdentityKind::Note => FreeSemanticError::EmptyNoteID,
            },
        );
    }
    if !is_trimmed(value) || str_byte_len(value) > MAX_ID_BYTES || contains_control(value)
        || contains_char(value, '/') || contains_char(value, '\\') || text_eq(value, ".")
        || text_eq(value, "..") {
        return Err(
            match kind {
                IdentityKind::Vault => FreeSemanticError::InvalidVaultID,
                IdentityKind::Note => FreeSemanticError::InvalidNoteID,
            },
        );
    }
    Ok(())
}

/// Hands an identity back and refuses any other text.
pub fn canonical_identity(value: String, kind: IdentityKind) -> (r: Result<
    String,
    FreeSemanticError,
>)
    ensures
        r is Ok <==> is_identity(value@),
        r matches Ok(s) ==> s@ == value@,
        r matches Err(e) ==> e == identity_error(value@, kind),
{
    match check_identity(value.as_str(), kind) {
        Ok(()) => Ok(value),
        Err(e) => Err(e),
    }
}

} // verus!
