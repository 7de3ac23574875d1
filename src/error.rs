//! Errors of the server around the keyspace.
use vstd::prelude::*;
use crate::text::{format_u64, nat_text};

verus! {

#[verifier::external_type_specification]
#[verifier::external_body]
pub struct ExIoError(std::io::Error);

pub enum HexagonError {
    KeyNotFound(String),
    InvalidValue(String),
    UnknownCommand(String),
    WrongNumberOfArguments { command: String, expected: usize, got: usize },
    InvalidArgument(String),
    IoError(std::io::Error),
    ConnectionClosed,
}

/// Relies on std::io::Error's `Display`, through `ToString::to_string`: the
/// text of the error. Nothing is known of it.
#[verifier::external_body]
fn io_error_text(e: &std::io::Error) -> String {
    e.to_string()
}

impl HexagonError {
    /// The text of the error, for a person to read.
    pub fn message(&self) -> (r: String)
        ensures
            match self {
                HexagonError::KeyNotFound(k) => r@ == "Key not found: "@ + k@,
                HexagonError::InvalidValue(m) => r@ == "Invalid value: "@ + m@,
                HexagonError::UnknownCommand(c) => r@ == "Unknown command: "@ + c@,
                HexagonError::WrongNumberOfArguments { command, expected, got } => r@
                    == "Wrong number of arguments for '"@ + command@ + "' command (expected "@ + nat_text(
                    *expected as nat,
                ) + ", got "@ + nat_text(*got as nat) + ")"@,
                HexagonError::InvalidArgument(m) => r@ == "Invalid argument: "@ + m@,
                HexagonError::IoError(_) => r@.len() >= 11 && r@.subrange(0, 11) == "I/O error: "@,
                HexagonError::ConnectionClosed => r@ == "Connection closed"@,
            },
    {
        match self {
            HexagonError::KeyNotFound(k) => {
                let mut s = String::from_str("Key not found: ");
                s.append(k.as_str());
                s
            },
            HexagonError::InvalidValue(m) => {
                let mut s = String::from_str("Invalid value: ");
                s.append(m.as_str());
                s
            },
            HexagonError::UnknownCommand(c) => {
                let mut s = String::from_str("Unknown command: ");
                s.append(c.as_str());
                s
            },
            HexagonError::WrongNumberOfArguments { command, expected, got } => {
                let mut s = String::from_str("Wrong number of arguments for '");
                s.append(command.as_str());
                s.append("' command (expected ");
                let e = format_u64(*expected as u64);
                s.append(e.as_str());
                s.append(", got ");
                let g = format_u64(*got as u64);
                s.append(g.as_str());
                s.append(")");
                s
            },
            HexagonError::InvalidArgument(m) => {
                let mut s = String::from_str("Invalid argument: ");
                s.append(m.as_str());
                s
            },
            HexagonError::IoError(e) => {
                let mut s = String::from_str("I/O error: ");
                proof {
                    reveal_strlit("I/O error: ");
                }
                let t = io_error_text(e);
                let ghost head = s@;
                s.append(t.as_str());
                assert(s@.subrange(0, 11) =~= head);
                s
            },
            HexagonError::ConnectionClosed => String::from_str("Connection closed"),
        }
    }

    /// The I/O error under this one, if it is one.
    pub fn source(&self) -> (r: Option<&std::io::Error>)
        ensures
            r is Some <==> self is IoError,
            self matches HexagonError::IoError(e) ==> r == Some(e),
    {
        match self {
            HexagonError::IoError(e) => Some(e),
            _ => None,
        }
    }
}

impl From<std::io::Error> for HexagonError {
    fn from(err: std::io::Error) -> (r: HexagonError) {
        HexagonError::IoError(err)
    }
}

impl vstd::std_specs::convert::FromSpecImpl<std::io::Error> for HexagonError {
    open spec fn obeys_from_spec() -> bool {
        true
    }

    open spec fn from_spec(err: std::io::Error) -> HexagonError {
        HexagonError::IoError(err)
    }
}

} // verus!
