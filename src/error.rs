use vstd::prelude::*;

verus! {

#[verifier::external_type_specification]
#[verifier::external_body]
pub struct ExIoError(std::io::Error);

/// Every way in which reading, parsing or running a line can fail.
#[derive(Debug)]
pub enum ShellError {
    Io(std::io::Error),
    ParseError(String),
    CommandNotFound(String),
    PermissionDenied(String),
    InternalError(String),
}

/// `e` is a parse failure that carries the message `msg`.
pub open spec fn is_parse_failure(e: ShellError, msg: Seq<char>) -> bool {
    match e {
        ShellError::ParseError(m) => m@ == msg,
        _ => false,
    }
}

impl From<std::io::Error> for ShellError {
    fn from(value: std::io::Error) -> (r: ShellError)
        ensures
            r == ShellError::Io(value),
    {
        ShellError::Io(value)
    }
}

impl vstd::std_specs::convert::FromSpecImpl<std::io::Error> for ShellError {
    open spec fn obeys_from_spec() -> bool {
        true
    }

    open spec fn from_spec(v: std::io::Error) -> ShellError {
        ShellError::Io(v)
    }
}

} // verus!
