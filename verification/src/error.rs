//! The error type of the library.
use vstd::prelude::*;

verus! {

/// `serde_json::Error`.
#[verifier::external_type_specification]
#[verifier::external_body]
pub struct ExJsonError(serde_json::Error);

/// What can go wrong in this library and around it.
#[derive(Debug)]
pub enum ClaudeError {
    /// The API answered a request with an error.
    ApiError {
        /// HTTP status of the answer.
        status: u16,
        /// The API's name for the kind of error.
        error_type: String,
        /// What the API says about it.
        message: String,
    },
    /// The network failed.
    NetworkError(String),
    /// A value could not be read from or written to JSON.
    SerializationError(serde_json::Error),
    /// A batch did not end in time.
    BatchTimeout {
        /// The batch.
        batch_id: String,
    },
    /// An argument or an option is not acceptable.
    InvalidConfig(String),
    /// A stream reported an error.
    StreamError {
        /// The API's name for the kind of error.
        error_type: String,
        /// What the API says about it.
        message: String,
    },
    /// The operation is not implemented.
    Unsupported(String),
    /// A store, a file or another transport failed.
    TransportError(String),
    /// A message does not have the expected shape.
    MessageParse {
        /// What is wrong.
        message: String,
        /// The value at fault.
        data: Option<serde_json::Value>,
    },
}

impl ClaudeError {
    /// An [`InvalidConfig`](ClaudeError::InvalidConfig) with this text.
    pub open spec fn is_invalid_config(self, text: Seq<char>) -> bool {
        self matches ClaudeError::InvalidConfig(m) && m@ == text
    }

    /// A [`TransportError`](ClaudeError::TransportError) with this text.
    pub open spec fn is_transport_error(self, text: Seq<char>) -> bool {
        self matches ClaudeError::TransportError(m) && m@ == text
    }

    /// An [`Unsupported`](ClaudeError::Unsupported) with this text.
    pub open spec fn is_unsupported(self, text: Seq<char>) -> bool {
        self matches ClaudeError::Unsupported(m) && m@ == text
    }
}

} // verus!
