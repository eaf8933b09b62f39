//! The error kinds of the store.
use vstd::prelude::*;
use vstd::std_specs::convert::FromSpecImpl;
use vstd::string::{to_string_from_display_ensures, StringExecFns};

verus! {

/// `std::io::Error`, carried through as an opaque value.
#[verifier::external_type_specification]
#[verifier::external_body]
pub struct ExIoError(std::io::Error);

/// What can go wrong when the store is opened, read or changed.
#[derive(Debug)]
pub enum KvsError {
    /// Reading or writing the backing storage failed.
    Io(std::io::Error),
    /// The key has no live value.
    KeyNotFound,
    /// The log holds no valid record at this position.
    Corrupt(usize),
}

pub type Result<T> = std::result::Result<T, KvsError>;

impl From<std::io::Error> for KvsError {
    fn from(err: std::io::Error) -> (e: KvsError) {
        KvsError::Io(err)
    }
}

impl FromSpecImpl<std::io::Error> for KvsError {
    open spec fn obeys_from_spec() -> bool {
        true
    }

    open spec fn from_spec(err: std::io::Error) -> KvsError {
        KvsError::Io(err)
    }
}

/// The line that describes an I/O failure whose own description is `inner`.
pub open spec fn io_text(inner: Seq<char>) -> Seq<char> {
    "IO error: "@ + inner
}

/// The line that describes an I/O failure whose own description is `inner`.
pub fn io_message(inner: &str) -> (text: String)
    ensures
        text@ == io_text(inner@),
{
    String::from_str("IO error: ").concat(inner)
}

impl KvsError {
    /// A line of text that describes the error. For an I/O failure it is
    /// `io_message` of the text that the failure gives of itself.
    pub fn message(&self) -> (text: String)
        ensures
            match *self {
                KvsError::Io(err) => exists|inner: String|
                    to_string_from_display_ensures::<std::io::Error>(&err, inner) && text@
                        == io_text(inner@),
                KvsError::KeyNotFound => text@ == "Key not found"@,
                KvsError::Corrupt(_) => text@ == "Corrupt record"@,
            },
    {
        match self {
            KvsError::Io(err) => {
                let inner = err.to_string();
                io_message(inner.as_str())
            },
            KvsError::KeyNotFound => String::from_str("Key not found"),
            KvsError::Corrupt(_) => String::from_str("Corrupt record"),
        }
    }

    /// The lower-level failure behind this error, if there is one.
    pub fn cause(&self) -> (r: Option<&std::io::Error>)
        ensures
            r == match *self {
                KvsError::Io(err) => Some(&err),
                _ => None,
            },
    {
        match self {
            KvsError::Io(err) => Some(err),
            _ => None,
        }
    }
}

} // verus!
