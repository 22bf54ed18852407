//! The failures that the operations of this crate report.
//!
//! Each failure carries the byte string it is about: the identifier, the
//! header line or the group name that the caller needs to report it.

use sqlx::Error as DatabaseError;
use vstd::prelude::*;

verus! {

/// What went wrong, without the offending text.
#[derive(Clone, Copy, Debug, PartialEq, Eq, Structural)]
pub enum ErrorKind {
    /// A message identifier that is not of the form local-part `@` domain-part.
    MalformedIdentifier,
    /// A header block or header that does not follow the header grammar.
    MalformedHeaders,
    /// No article with the given identifier is stored.
    ArticleNotFound,
    /// No group of the given name exists.
    GroupNotFound,
    /// The policy does not permit the operation to the identity.
    AccessDenied,
    /// The storage behind the core could not complete the operation.
    BackendUnavailable,
    /// The configuration handed to the core cannot be used.
    Config,
}

/// A failure together with the text it is about.
#[derive(Clone, Debug, PartialEq, Eq)]
pub enum Error {
    /// The given message identifier is malformed; holds the identifier.
    MalformedIdentifier(Vec<u8>),
    /// The headers are malformed; holds the offending line or header name.
    MalformedHeaders(Vec<u8>),
    /// No such article; holds the identifier asked for.
    ArticleNotFound(Vec<u8>),
    /// No such group; holds the group name.
    GroupNotFound(Vec<u8>),
    /// The identity may not do this; holds the group name or the identifier
    /// the refusal is about.
    AccessDenied(Vec<u8>),
    /// Storage could not complete the operation; holds what it was working on.
    BackendUnavailable(Vec<u8>),
    /// Unusable configuration; holds the offending value.
    Config(Vec<u8>),
}

/// The error type of the database driver, `sqlx::Error`. The core carries
/// such a value to [`Error::from_database`] and never looks inside.
#[verifier::external_type_specification]
#[verifier::external_body]
pub struct ExDatabaseError(DatabaseError);

/// The error type of input and output, `std::io::Error`. The core carries
/// such a value to [`Error::from_io`] and never looks inside.
#[verifier::external_type_specification]
#[verifier::external_body]
pub struct ExIoError(std::io::Error);

/// The mathematical content of an [`Error`].
pub struct Fault {
    pub kind: ErrorKind,
    pub context: Seq<u8>,
}

impl View for Error {
    type V = Fault;

    open spec fn view(&self) -> Fault {
        match self {
            Error::MalformedIdentifier(c) => Fault { kind: ErrorKind::MalformedIdentifier, context: c@ },
            Error::MalformedHeaders(c) => Fault { kind: ErrorKind::MalformedHeaders, context: c@ },
            Error::ArticleNotFound(c) => Fault { kind: ErrorKind::ArticleNotFound, context: c@ },
            Error::GroupNotFound(c) => Fault { kind: ErrorKind::GroupNotFound, context: c@ },
            Error::AccessDenied(c) => Fault { kind: ErrorKind::AccessDenied, context: c@ },
            Error::BackendUnavailable(c) => Fault { kind: ErrorKind::BackendUnavailable, context: c@ },
            Error::Config(c) => Fault { kind: ErrorKind::Config, context: c@ },
        }
    }
}

/// The fault of the given kind about the given text.
pub open spec fn fault(kind: ErrorKind, context: Seq<u8>) -> Fault {
    Fault { kind, context }
}

/// Whether `r` is the failure of the given kind about the given text.
pub open spec fn fails_with<T>(r: Result<T, Error>, kind: ErrorKind, context: Seq<u8>) -> bool {
    r matches Err(e) && e@ == fault(kind, context)
}

/// The message of a database failure, as bytes.
///
/// Calls `to_string` on the `sqlx::Error`, which formats it with the
/// driver's own `Display`. Nothing is claimed of the text.
#[verifier::external_body]
fn database_message(e: &DatabaseError) -> (text: Vec<u8>) {
    e.to_string().into_bytes()
}

/// Whether a database failure is the driver's `Configuration` variant, the
/// one it returns for a connection string it cannot parse.
///
/// Matches the `sqlx::Error` against that variant. Nothing is claimed of the
/// answer.
#[verifier::external_body]
fn is_configuration(e: &DatabaseError) -> (yes: bool) {
    matches!(e, DatabaseError::Configuration(_))
}

/// The message of an input or output failure, as bytes.
///
/// Calls `to_string` on the `std::io::Error`, which formats it with its
/// `Display`. Nothing is claimed of the text.
#[verifier::external_body]
fn io_message(e: &std::io::Error) -> (text: Vec<u8>) {
    e.to_string().into_bytes()
}

impl Error {
    /// The failure that a failure of the storage behind the core is
    /// reported as: a configuration error if the storage was misconfigured,
    /// which no retry mends, and else a storage failure, which the caller
    /// may retry. The context is the message.
    pub fn storage_failure(misconfigured: bool, message: Vec<u8>) -> (r: Error)
        ensures
            r@ == fault(
                if misconfigured {
                    ErrorKind::Config
                } else {
                    ErrorKind::BackendUnavailable
                },
                message@,
            ),
    {
        if misconfigured {
            Error::Config(message)
        } else {
            Error::BackendUnavailable(message)
        }
    }

    /// The failure that a failure of the database driver is reported as: a
    /// configuration error if the driver could not use its configuration,
    /// and else a storage failure. The context is the driver's message.
    pub fn from_database(e: DatabaseError) -> (r: Error)
        ensures
            r@.kind == ErrorKind::Config || r@.kind == ErrorKind::BackendUnavailable,
    {
        let misconfigured = is_configuration(&e);
        Error::storage_failure(misconfigured, database_message(&e))
    }

    /// The failure that a failure of input or output is reported as: a
    /// storage failure, which the caller may retry. The context is the
    /// message of the failure.
    pub fn from_io(e: std::io::Error) -> (r: Error)
        ensures
            r@.kind == ErrorKind::BackendUnavailable,
    {
        Error::storage_failure(false, io_message(&e))
    }

    /// The kind of this failure.
    pub fn kind(&self) -> (k: ErrorKind)
        ensures
            k == self@.kind,
    {
        match self {
            Error::MalformedIdentifier(_) => ErrorKind::MalformedIdentifier,
            Error::MalformedHeaders(_) => ErrorKind::MalformedHeaders,
            Error::ArticleNotFound(_) => ErrorKind::ArticleNotFound,
            Error::GroupNotFound(_) => ErrorKind::GroupNotFound,
            Error::AccessDenied(_) => ErrorKind::AccessDenied,
            Error::BackendUnavailable(_) => ErrorKind::BackendUnavailable,
            Error::Config(_) => ErrorKind::Config,
        }
    }

    /// The text this failure is about.
    pub fn context(&self) -> (c: &Vec<u8>)
        ensures
            c@ == self@.context,
    {
        match self {
            Error::MalformedIdentifier(c) => c,
            Error::MalformedHeaders(c) => c,
            Error::ArticleNotFound(c) => c,
            Error::GroupNotFound(c) => c,
            Error::AccessDenied(c) => c,
            Error::BackendUnavailable(c) => c,
            Error::Config(c) => c,
        }
    }

    /// Whether the caller may retry the operation unchanged: only a storage
    /// failure is transient.
    pub fn is_retryable(&self) -> (r: bool)
        ensures
            r == (self@.kind == ErrorKind::BackendUnavailable),
    {
        match self {
            Error::BackendUnavailable(_) => true,
            _ => false,
        }
    }
}

} // verus!
