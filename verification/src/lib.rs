use vstd::prelude::*;

pub mod chunking;
pub mod cli;
pub mod config;
pub mod format;
pub mod orchestrator;
pub mod output;
pub mod model;
pub mod sbom;
pub mod strings;
pub mod vision;

verus! {

/// Errors reported by the library, each with a structured code.
#[derive(Debug)]
pub enum Error {
    UnsupportedFormat(String),
    NotImplemented(&'static str),
    Io(String),
    Parse(String),
    Serialization(String),
    ConfigError(String),
}

/// An error as plain values.
pub enum ErrorView {
    UnsupportedFormat(Seq<char>),
    NotImplemented(Seq<char>),
    Io(Seq<char>),
    Parse(Seq<char>),
    Serialization(Seq<char>),
    ConfigError(Seq<char>),
}

impl View for Error {
    type V = ErrorView;

    open spec fn view(&self) -> ErrorView {
        match self {
            Error::UnsupportedFormat(s) => ErrorView::UnsupportedFormat(s@),
            Error::NotImplemented(s) => ErrorView::NotImplemented(s@),
            Error::Io(s) => ErrorView::Io(s@),
            Error::Parse(s) => ErrorView::Parse(s@),
            Error::Serialization(s) => ErrorView::Serialization(s@),
            Error::ConfigError(s) => ErrorView::ConfigError(s@),
        }
    }
}

/// The structured code of each error variant.
pub open spec fn error_code_spec(e: &Error) -> Seq<char> {
    match e {
        Error::UnsupportedFormat(_) => "E1001"@,
        Error::NotImplemented(_) => "E1002"@,
        Error::Io(_) => "E2001"@,
        Error::Parse(_) => "E3001"@,
        Error::Serialization(_) => "E4001"@,
        Error::ConfigError(_) => "E5001"@,
    }
}

/// The displayed message of each error: its code, its kind and its detail.
pub open spec fn error_message_spec(e: &Error) -> Seq<char> {
    match e {
        Error::UnsupportedFormat(s) => "[E1001] unsupported format: "@ + s@,
        Error::NotImplemented(s) => "[E1002] not implemented: "@ + s@,
        Error::Io(s) => "[E2001] I/O error: "@ + s@,
        Error::Parse(s) => "[E3001] parse error: "@ + s@,
        Error::Serialization(s) => "[E4001] serialization error: "@ + s@,
        Error::ConfigError(s) => "[E5001] configuration error: "@ + s@,
    }
}

/// The displayed message of every error holds its code, in brackets at its start.
pub proof fn lemma_message_holds_code(e: &Error)
    ensures
        error_message_spec(e).len() >= 7,
        error_message_spec(e)[0] == '[',
        error_message_spec(e).subrange(1, 6) == error_code_spec(e),
        error_message_spec(e)[6] == ']',
{
    reveal_strlit("[E1001] unsupported format: ");
    reveal_strlit("[E1002] not implemented: ");
    reveal_strlit("[E2001] I/O error: ");
    reveal_strlit("[E3001] parse error: ");
    reveal_strlit("[E4001] serialization error: ");
    reveal_strlit("[E5001] configuration error: ");
    reveal_strlit("E1001");
    reveal_strlit("E1002");
    reveal_strlit("E2001");
    reveal_strlit("E3001");
    reveal_strlit("E4001");
    reveal_strlit("E5001");
    let m = error_message_spec(e);
    assert(m.subrange(1, 6) =~= error_code_spec(e));
}

impl Error {
    /// The message of this error, as it is displayed.
    pub fn message(&self) -> (m: String)
        ensures
            m@ == error_message_spec(self),
    {
        match self {
            Error::UnsupportedFormat(s) => String::from_str("[E1001] unsupported format: ").concat(s.as_str()),
            Error::NotImplemented(s) => String::from_str("[E1002] not implemented: ").concat(s),
            Error::Io(s) => String::from_str("[E2001] I/O error: ").concat(s.as_str()),
            Error::Parse(s) => String::from_str("[E3001] parse error: ").concat(s.as_str()),
            Error::Serialization(s) => String::from_str("[E4001] serialization error: ").concat(s.as_str()),
            Error::ConfigError(s) => String::from_str("[E5001] configuration error: ").concat(s.as_str()),
        }
    }

    /// Return the structured error code for this error variant.
    pub fn code(&self) -> (c: &'static str)
        ensures
            c@ == error_code_spec(self),
    {
        match self {
            Error::UnsupportedFormat(_) => "E1001",
            Error::NotImplemented(_) => "E1002",
            Error::Io(_) => "E2001",
            Error::Parse(_) => "E3001",
            Error::Serialization(_) => "E4001",
            Error::ConfigError(_) => "E5001",
        }
    }
}

} // verus!
