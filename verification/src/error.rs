use vstd::prelude::*;

verus! {

/// Errors raised by the engine.  Each variant carries a human-readable message.
#[derive(Debug, Clone, PartialEq, Eq)]
pub enum SielError {
    InvalidInput(String),
    NotFound(String),
    Conflict(String),
    Crypto(String),
    Storage(String),
    Model(String),
    Policy(String),
    Serialization(String),
}

/// How an error reads: a prefix naming its kind, then its message.
pub open spec fn error_text(e: SielError) -> Seq<char> {
    match e {
        SielError::InvalidInput(m) => "invalid input: "@ + m@,
        SielError::NotFound(m) => "not found: "@ + m@,
        SielError::Conflict(m) => "conflict: "@ + m@,
        SielError::Crypto(m) => "crypto error: "@ + m@,
        SielError::Storage(m) => "storage error: "@ + m@,
        SielError::Model(m) => "model error: "@ + m@,
        SielError::Policy(m) => "policy rejected output: "@ + m@,
        SielError::Serialization(m) => "serialization error: "@ + m@,
    }
}

impl SielError {
    /// The text of the error, as it is reported to a client.
    pub fn message(&self) -> (s: String)
        ensures
            s@ == error_text(*self),
    {
        let (prefix, m) = match self {
            SielError::InvalidInput(m) => ("invalid input: ", m),
            SielError::NotFound(m) => ("not found: ", m),
            SielError::Conflict(m) => ("conflict: ", m),
            SielError::Crypto(m) => ("crypto error: ", m),
            SielError::Storage(m) => ("storage error: ", m),
            SielError::Model(m) => ("model error: ", m),
            SielError::Policy(m) => ("policy rejected output: ", m),
            SielError::Serialization(m) => ("serialization error: ", m),
        };
        let mut s = prefix.to_string();
        s.append(m.as_str());
        s
    }
}

/// The HTTP status that reports an error: 400 for invalid input, 404 for a
/// missing item, 409 for a conflict or a policy refusal, 500 otherwise.
pub fn http_status_for(err: &SielError) -> (code: u16)
    ensures
        code == match err {
            SielError::InvalidInput(_) => 400u16,
            SielError::NotFound(_) => 404u16,
            SielError::Conflict(_) | SielError::Policy(_) => 409u16,
            _ => 500u16,
        },
{
    match err {
        SielError::InvalidInput(_) => 400,
        SielError::NotFound(_) => 404,
        SielError::Conflict(_) | SielError::Policy(_) => 409,
        SielError::Crypto(_) | SielError::Storage(_) | SielError::Model(_) | SielError::Serialization(
            _,
        ) => 500,
    }
}

} // verus!
