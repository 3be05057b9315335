//! The error type shared by the servers' helpers.
use vstd::prelude::*;
use vstd::string::StringExecFns;

verus! {

/// `std::io::Error`, carried opaquely inside [`ProtoHackersError`].
#[verifier::external_type_specification]
#[verifier::external_body]
pub struct ExIoError(std::io::Error);

/// `std::string::FromUtf8Error`, carried opaquely inside [`ProtoHackersError`].
#[verifier::external_type_specification]
#[verifier::external_body]
pub struct ExFromUtf8Error(std::string::FromUtf8Error);

/// A failure of an I/O operation or of a conversion of bytes to text.
pub enum ProtoHackersError {
    IOError(std::io::Error),
    UTF8Error(std::string::FromUtf8Error),
}

impl From<std::io::Error> for ProtoHackersError {
    fn from(error: std::io::Error) -> (res: Self) {
        Self::IOError(error)
    }
}

impl vstd::std_specs::convert::FromSpecImpl<std::io::Error> for ProtoHackersError {
    open spec fn obeys_from_spec() -> bool {
        true
    }

    open spec fn from_spec(v: std::io::Error) -> Self {
        ProtoHackersError::IOError(v)
    }
}

impl From<std::string::FromUtf8Error> for ProtoHackersError {
    fn from(error: std::string::FromUtf8Error) -> (res: Self) {
        Self::UTF8Error(error)
    }
}

impl vstd::std_specs::convert::FromSpecImpl<std::string::FromUtf8Error> for ProtoHackersError {
    open spec fn obeys_from_spec() -> bool {
        true
    }

    open spec fn from_spec(v: std::string::FromUtf8Error) -> Self {
        ProtoHackersError::UTF8Error(v)
    }
}

impl ProtoHackersError {
    /// The error as shown in the servers' logs: `IO Error. ` or
    /// `Failed to parse. ` followed by the inner error's display text.
    pub fn describe(&self) -> (res: String)
        ensures
            match self {
                ProtoHackersError::IOError(e) => exists|t: String|
                    vstd::string::to_string_from_display_ensures::<std::io::Error>(e, t)
                    && res@ == "IO Error. "@ + t@,
                ProtoHackersError::UTF8Error(e) => exists|t: String|
                    vstd::string::to_string_from_display_ensures::<std::string::FromUtf8Error>(e, t)
                    && res@ == "Failed to parse. "@ + t@,
            },
    {
        match self {
            ProtoHackersError::IOError(err) => {
                let text = err.to_string();
                "IO Error. ".to_owned().concat(text.as_str())
            },
            ProtoHackersError::UTF8Error(err) => {
                let text = err.to_string();
                "Failed to parse. ".to_owned().concat(text.as_str())
            },
        }
    }
}

} // verus!
