use vstd::prelude::*;
use vstd::string::*;

verus! {

/// Why a request could not be decoded or carried out.
#[derive(Debug, Clone, Copy, PartialEq, Eq, Structural)]
pub enum RedisError {
    /// The bytes are not a well-framed protocol value.
    ProtocolError,
    /// The request is not an array whose first element is a bulk string, or
    /// an option of it has no valid value.
    MalformedCommand,
    /// The command has too few arguments.
    ArityError,
    /// The command name is not one that is known.
    UnknownCommand,
}

/// The text of the error reply for each error.
pub open spec fn error_text(e: RedisError) -> Seq<char> {
    match e {
        RedisError::ProtocolError => "ERR Protocol error"@,
        RedisError::MalformedCommand => "ERR malformed command"@,
        RedisError::ArityError => "ERR wrong number of arguments"@,
        RedisError::UnknownCommand => "ERR unknown command"@,
    }
}

impl RedisError {
    /// The text sent back to a client for this error.
    pub fn message(&self) -> (r: String)
        ensures
            r@ == error_text(*self),
    {
        match self {
            RedisError::ProtocolError => String::from_str("ERR Protocol error"),
            RedisError::MalformedCommand => String::from_str("ERR malformed command"),
            RedisError::ArityError => String::from_str("ERR wrong number of arguments"),
            RedisError::UnknownCommand => String::from_str("ERR unknown command"),
        }
    }
}

} // verus!
