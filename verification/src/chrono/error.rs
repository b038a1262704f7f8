//! Errors raised while reading the dice table.
use vstd::prelude::*;

verus! {

#[verifier::external_type_specification]
#[verifier::external_body]
pub struct ExIoError(std::io::Error);

#[verifier::external_type_specification]
#[verifier::external_body]
pub struct ExIoErrorKind(std::io::ErrorKind);

/// `std::io::Error::kind`. Nothing is stated of the kind.
#[verifier::external_body]
fn io_error_kind(e: &std::io::Error) -> std::io::ErrorKind {
    e.kind()
}

/// `std::io::Error::from(ErrorKind)`: a new error of that kind. Nothing is
/// stated of the error.
#[verifier::external_body]
fn io_error_from_kind(k: std::io::ErrorKind) -> std::io::Error {
    std::io::Error::from(k)
}

/// An I/O failure met while reading the dice table, with its kind as read
/// when it was wrapped.
#[derive(Debug)]
pub struct IoError {
    error: std::io::Error,
    kind: std::io::ErrorKind,
}

impl Clone for IoError {
    /// A new error of the same kind; the message of the cloned error is lost.
    fn clone(&self) -> (r: Self)
        ensures
            r.error_kind() == self.error_kind(),
    {
        let kind = self.kind;
        IoError { error: io_error_from_kind(kind), kind }
    }
}

impl IoError {
    /// Wraps an I/O error, reading its kind.
    pub fn new(error: std::io::Error) -> (r: IoError)
        ensures
            r.error() == error,
    {
        let kind = io_error_kind(&error);
        IoError { error, kind }
    }

    /// The underlying error.
    pub closed spec fn error(&self) -> std::io::Error {
        self.error
    }

    /// The kind of the error, as read when it was wrapped.
    pub closed spec fn error_kind(&self) -> std::io::ErrorKind {
        self.kind
    }

    /// The kind of the error, as read when it was wrapped.
    pub fn kind(&self) -> (k: std::io::ErrorKind)
        ensures
            k == self.error_kind(),
    {
        self.kind
    }

    /// The message of the underlying error, as its `Display` writes it.
    pub fn message(&self) -> (r: String)
        ensures
            vstd::string::to_string_from_display_ensures::<std::io::Error>(&self.error(), r),
    {
        self.error.to_string()
    }
}

/// Why a dice table, a row of it or a face could not be read.
#[derive(Debug, Clone)]
pub enum RollError {
    InvalidAxisChar(char),
    InvalidAxisString(String),
    InvalidRow(String),
    InvalidSource(String),
    ValidationError(String),
    Io(IoError),
}

impl RollError {
    /// The text that describes the error: the offending character itself,
    /// or the message that the variant holds.
    pub fn message(&self) -> (r: String)
        ensures
            match self {
                RollError::InvalidAxisChar(c) => r@ == seq![*c],
                RollError::InvalidAxisString(m) => r@ == m@,
                RollError::InvalidRow(m) => r@ == m@,
                RollError::InvalidSource(m) => r@ == m@,
                RollError::ValidationError(m) => r@ == m@,
                RollError::Io(e) => vstd::string::to_string_from_display_ensures::<std::io::Error>(
                    &e.error(),
                    r,
                ),
            },
    {
        match self {
            RollError::InvalidAxisChar(c) => {
                let mut r = String::new();
                crate::text::push_char(&mut r, *c);
                r
            },
            RollError::InvalidAxisString(m) => m.clone(),
            RollError::InvalidRow(m) => m.clone(),
            RollError::InvalidSource(m) => m.clone(),
            RollError::ValidationError(m) => m.clone(),
            RollError::Io(e) => e.message(),
        }
    }
}

} // verus!
