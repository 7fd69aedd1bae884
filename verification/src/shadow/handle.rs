//! What a foreign caller of the engine is answered.

use vstd::prelude::*;

use super::error::{error_code, ErrorModel, ShadowError};
use crate::text::{concat2, contains_char};

verus! {

/// How far a call through a handle came.
pub enum HandleEvent {
    /// The handle was null.
    NullHandle,
    /// An argument could not be read.
    BadArgument(ShadowError),
    /// The engine failed.
    Failed(ShadowError),
    /// The answer could not be written as JSON.
    NotEncoded(ShadowError),
    /// The answer, as JSON.
    Answered(String),
    /// The call was cut short by a panic.
    Panicked,
}

/// The answer to a foreign caller: a code, zero for success, and a text or
/// none.
pub struct HandleReply {
    pub code: i32,
    pub text: Option<String>,
}

/// The code of an event.
pub open spec fn event_code(e: HandleEvent) -> int {
    match e {
        HandleEvent::NullHandle => error_code(
            ErrorModel::InvalidInput { detail: "handle was null"@ },
        ),
        HandleEvent::BadArgument(x) => error_code(x@),
        HandleEvent::Failed(x) => error_code(x@),
        HandleEvent::NotEncoded(x) => error_code(x@),
        HandleEvent::Answered(_) => 0,
        HandleEvent::Panicked => error_code(ErrorModel::Panic),
    }
}

/// What a foreign caller is answered: the code of the event, and the answer if
/// there is one that a string of C can hold.
pub fn reply(event: HandleEvent) -> (r: HandleReply)
    ensures
        r.code == event_code(event),
        match event {
            HandleEvent::Answered(t) => match r.text {
                Some(x) => x == t && !t@.contains('\0'),
                None => t@.contains('\0'),
            },
            _ => r.text is None,
        },
{
    match event {
        HandleEvent::NullHandle => HandleReply { code: -1, text: None },
        HandleEvent::BadArgument(e) => HandleReply { code: e.as_code(), text: None },
        HandleEvent::Failed(e) => HandleReply { code: e.as_code(), text: None },
        HandleEvent::NotEncoded(e) => HandleReply { code: e.as_code(), text: None },
        HandleEvent::Answered(t) => {
            if contains_char(t.as_str(), '\0') {
                HandleReply { code: 0, text: None }
            } else {
                HandleReply { code: 0, text: Some(t) }
            }
        },
        HandleEvent::Panicked => HandleReply { code: -99, text: None },
    }
}

/// Why an argument could not be read.
#[derive(Clone, Copy, Debug, PartialEq, Eq, Structural)]
pub enum ArgumentFault {
    Null,
    NotUtf8,
}

/// The error of an argument that could not be read.
pub fn argument_error(label: &str, fault: ArgumentFault) -> (r: ShadowError)
    ensures
        r@ == (ErrorModel::InvalidInput {
            detail: label@ + match fault {
                ArgumentFault::Null => " was null"@,
                ArgumentFault::NotUtf8 => " was not valid UTF-8"@,
            },
        }),
{
    match fault {
        ArgumentFault::Null => ShadowError::InvalidInput { detail: concat2(label, " was null") },
        ArgumentFault::NotUtf8 => ShadowError::InvalidInput {
            detail: concat2(label, " was not valid UTF-8"),
        },
    }
}

/// A caller that is given a text is given code zero, and every failure has a
/// negative code.
pub proof fn law_code_tells_success(e: HandleEvent)
    ensures
        event_code(e) == 0 <==> e is Answered,
        event_code(e) <= 0,
{
}

} // verus!
