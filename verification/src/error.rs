//! The failures a request can end in, each with its HTTP status.

use vstd::prelude::*;

verus! {

/// The kinds of failure. Each maps to exactly one status code.
#[derive(Debug, Clone, Copy, PartialEq, Eq, Structural)]
pub enum ErrorKind {
    /// The resolved path lies outside the sandbox root.
    Forbidden,
    /// The entry is missing from the tree or from disk.
    NotFound,
    /// The target of an upload or a new folder already exists.
    Conflict,
    /// A required part is missing, the extensions differ, or the parent
    /// directory does not exist.
    BadRequest,
    /// The requested byte range lies outside the file.
    RangeNotSatisfiable,
    /// An unexpected I/O failure.
    Internal,
}

/// The status code of each kind.
pub open spec fn status_of(kind: ErrorKind) -> u16 {
    match kind {
        ErrorKind::Forbidden => 403,
        ErrorKind::NotFound => 404,
        ErrorKind::Conflict => 409,
        ErrorKind::BadRequest => 400,
        ErrorKind::RangeNotSatisfiable => 416,
        ErrorKind::Internal => 500,
    }
}

/// A failure with the short reason that is shown to the caller.
#[derive(Debug)]
pub enum AppError {
    NotFound(String),
    Internal(String),
    Forbidden(String),
    Conflict(String),
    BadRequest(String),
    RangeNotSatisfiable(String),
}

/// What an `AppError` is: its kind and its reason.
pub struct ErrorView {
    pub kind: ErrorKind,
    pub reason: Seq<char>,
}

impl View for AppError {
    type V = ErrorView;

    open spec fn view(&self) -> ErrorView {
        match self {
            AppError::NotFound(m) => ErrorView { kind: ErrorKind::NotFound, reason: m@ },
            AppError::Internal(m) => ErrorView { kind: ErrorKind::Internal, reason: m@ },
            AppError::Forbidden(m) => ErrorView { kind: ErrorKind::Forbidden, reason: m@ },
            AppError::Conflict(m) => ErrorView { kind: ErrorKind::Conflict, reason: m@ },
            AppError::BadRequest(m) => ErrorView { kind: ErrorKind::BadRequest, reason: m@ },
            AppError::RangeNotSatisfiable(m) => ErrorView {
                kind: ErrorKind::RangeNotSatisfiable,
                reason: m@,
            },
        }
    }
}

/// The words that stand before the reason in the printed form.
pub open spec fn label_of(kind: ErrorKind) -> Seq<char> {
    match kind {
        ErrorKind::Forbidden => "Forbidden: "@,
        ErrorKind::NotFound => "Not Found: "@,
        ErrorKind::Conflict => "Conflict: "@,
        ErrorKind::BadRequest => "Bad Request: "@,
        ErrorKind::RangeNotSatisfiable => "Range Not Satisfiable: "@,
        ErrorKind::Internal => "Internal Server Error: "@,
    }
}

impl AppError {
    /// A failure of the given kind with the given reason.
    pub fn new(kind: ErrorKind, reason: String) -> (r: AppError)
        ensures
            r@.kind == kind,
            r@.reason == reason@,
    {
        match kind {
            ErrorKind::Forbidden => AppError::Forbidden(reason),
            ErrorKind::NotFound => AppError::NotFound(reason),
            ErrorKind::Conflict => AppError::Conflict(reason),
            ErrorKind::BadRequest => AppError::BadRequest(reason),
            ErrorKind::RangeNotSatisfiable => AppError::RangeNotSatisfiable(reason),
            ErrorKind::Internal => AppError::Internal(reason),
        }
    }

    /// A failure of the given kind whose reason is a fixed text.
    pub fn of(kind: ErrorKind, reason: &str) -> (r: AppError)
        ensures
            r@.kind == kind,
            r@.reason == reason@,
    {
        AppError::new(kind, reason.to_owned())
    }

    pub fn kind(&self) -> (r: ErrorKind)
        ensures
            r == self@.kind,
    {
        match self {
            AppError::NotFound(_) => ErrorKind::NotFound,
            AppError::Internal(_) => ErrorKind::Internal,
            AppError::Forbidden(_) => ErrorKind::Forbidden,
            AppError::Conflict(_) => ErrorKind::Conflict,
            AppError::BadRequest(_) => ErrorKind::BadRequest,
            AppError::RangeNotSatisfiable(_) => ErrorKind::RangeNotSatisfiable,
        }
    }

    /// The reason, without the kind.
    pub fn message(&self) -> (r: &str)
        ensures
            r@ == self@.reason,
    {
        match self {
            AppError::NotFound(m) => m.as_str(),
            AppError::Internal(m) => m.as_str(),
            AppError::Forbidden(m) => m.as_str(),
            AppError::Conflict(m) => m.as_str(),
            AppError::BadRequest(m) => m.as_str(),
            AppError::RangeNotSatisfiable(m) => m.as_str(),
        }
    }

    /// The HTTP status that answers this failure.
    pub fn status_code(&self) -> (r: u16)
        ensures
            r == status_of(self@.kind),
    {
        status_code_of(self.kind())
    }

    /// The printed form: the kind in words, a colon, and the reason.
    pub fn describe(&self) -> (r: String)
        ensures
            r@ == label_of(self@.kind) + self@.reason,
    {
        let label = match self.kind() {
            ErrorKind::Forbidden => "Forbidden: ",
            ErrorKind::NotFound => "Not Found: ",
            ErrorKind::Conflict => "Conflict: ",
            ErrorKind::BadRequest => "Bad Request: ",
            ErrorKind::RangeNotSatisfiable => "Range Not Satisfiable: ",
            ErrorKind::Internal => "Internal Server Error: ",
        };
        let mut out = label.to_owned();
        out.append(self.message());
        out
    }
}

/// The HTTP status of a kind of failure.
pub fn status_code_of(kind: ErrorKind) -> (r: u16)
    ensures
        r == status_of(kind),
{
    match kind {
        ErrorKind::Forbidden => 403,
        ErrorKind::NotFound => 404,
        ErrorKind::Conflict => 409,
        ErrorKind::BadRequest => 400,
        ErrorKind::RangeNotSatisfiable => 416,
        ErrorKind::Internal => 500,
    }
}

/// No two kinds share a status code.
pub proof fn lemma_status_identifies_kind(a: ErrorKind, b: ErrorKind)
    ensures
        status_of(a) == status_of(b) <==> a == b,
{
}

/// A `NotFound` whose reason is `msg` as a `String`.
pub fn not_found<T: Into<String>>(msg: T) -> (r: AppError)
    ensures
        r matches AppError::NotFound(m) && call_ensures(<T as Into<String>>::into, (msg,), m),
{
    AppError::NotFound(msg.into())
}

/// An `Internal` whose reason is `msg` as a `String`.
pub fn internal_error<T: Into<String>>(msg: T) -> (r: AppError)
    ensures
        r matches AppError::Internal(m) && call_ensures(<T as Into<String>>::into, (msg,), m),
{
    AppError::Internal(msg.into())
}

} // verus!
