use vstd::prelude::*;
use vstd::string::StringExecFns;

verus! {

/// `std::io::Error`: carried by `Error::Io`, never looked into.
#[verifier::external_type_specification]
#[verifier::external_body]
pub struct ExIoError(std::io::Error);

/// Everything that can go wrong in a log operation.
#[non_exhaustive]
#[derive(Debug)]
pub enum Error {
    /// Opaque failure of the storage backend or of its transport, with the
    /// backend's own description of it.
    Database(String),
    /// Local I/O failure.
    Io(std::io::Error),
    /// The bounds of a range are reversed, or equal with an exclusive side.
    BadRange,
    /// A timestamp does not fit the backend's integer width.
    TimeTooLarge,
    /// A stored or received record could not be decoded.
    DataFormat,
}

/// What `message` says of a reversed or empty range.
pub open spec fn bad_range_text() -> Seq<char> {
    "ranges cannot be reversed, or have exclusive bounds with equal durations"@
}

/// What `message` says of a timestamp that does not fit.
pub open spec fn time_too_large_text() -> Seq<char> {
    "time value is too large"@
}

/// What `message` says of a record that could not be decoded.
pub open spec fn data_format_text() -> Seq<char> {
    "unexpected data format"@
}

/// What `message` puts in front of a backend's description.
pub open spec fn database_prefix() -> Seq<char> {
    "database error: "@
}

/// What `message` puts in front of an I/O error's description.
pub open spec fn io_prefix() -> Seq<char> {
    "i/o error: "@
}

impl Error {
    /// The text that `message` gives for this error, where the error itself
    /// determines it. For `Io` the operating system's description follows the
    /// prefix, and only the prefix is fixed.
    pub open spec fn fixed_text(&self) -> Seq<char> {
        match self {
            Error::Database(description) => database_prefix() + description@,
            Error::Io(_) => io_prefix(),
            Error::BadRange => bad_range_text(),
            Error::TimeTooLarge => time_too_large_text(),
            Error::DataFormat => data_format_text(),
        }
    }

    /// A human-readable description of the error.
    pub fn message(&self) -> (text: String)
        ensures
            !(self is Io) ==> text@ == self.fixed_text(),
            self is Io ==> self.fixed_text().is_prefix_of(text@),
    {
        match self {
            Error::Database(description) => {
                let mut text = String::from_str("database error: ");
                text.append(description.as_str());
                text
            },
            Error::Io(err) => {
                let mut text = String::from_str("i/o error: ");
                let description = err.to_string();
                text.append(description.as_str());
                text
            },
            Error::BadRange => String::from_str(
                "ranges cannot be reversed, or have exclusive bounds with equal durations",
            ),
            Error::TimeTooLarge => String::from_str("time value is too large"),
            Error::DataFormat => String::from_str("unexpected data format"),
        }
    }

    /// The lower-level error behind this one, if it carries one.
    pub fn source(&self) -> (cause: Option<&std::io::Error>)
        ensures
            cause == match self {
                Error::Io(err) => Some(err),
                _ => None,
            },
    {
        match self {
            Error::Io(err) => Some(err),
            _ => None,
        }
    }
}

impl From<std::io::Error> for Error {
    fn from(err: std::io::Error) -> (error: Error) {
        Error::Io(err)
    }
}

impl vstd::std_specs::convert::FromSpecImpl<std::io::Error> for Error {
    open spec fn obeys_from_spec() -> bool {
        true
    }

    open spec fn from_spec(err: std::io::Error) -> Error {
        Error::Io(err)
    }
}

} // verus!
