//! The library-wide error space.

use vstd::prelude::*;
use vstd::string::StringExecFns;

verus! {

#[verifier::external_type_specification]
#[verifier::external_body]
pub struct ExIoError(std::io::Error);

/// Unparsable input and an unknown language are distinguished from
/// merge conflicts at this level so that a driver can map them to a
/// different exit code than a clean merge with unresolved conflicts.
#[derive(Debug)]
pub enum Error {
    /// No grammar for the path (or the `--lang` name).
    UnknownLanguage { path: String },
    /// The source does not parse as the language.
    Parse { path: String, lang: String },
    /// Reading or writing a file failed.
    Io { path: String, source: std::io::Error },
}

impl Error {
    /// The diagnostic code.
    pub open spec fn spec_code(&self) -> Seq<char> {
        match self {
            Error::UnknownLanguage { .. } => "d3j::unknown_language"@,
            Error::Parse { .. } => "d3j::parse"@,
            Error::Io { .. } => "d3j::io"@,
        }
    }

    /// The diagnostic code, e.g. `d3j::parse`.
    pub fn code(&self) -> (r: &'static str)
        ensures
            r@ == self.spec_code(),
    {
        match self {
            Error::UnknownLanguage { .. } => "d3j::unknown_language",
            Error::Parse { .. } => "d3j::parse",
            Error::Io { .. } => "d3j::io",
        }
    }

    /// The hint shown under the message, if the error has one.
    pub fn help(&self) -> (r: Option<&'static str>)
        ensures
            match self {
                Error::UnknownLanguage { .. } => r matches Some(h) && h@
                    == "pass --lang; supported: rust, java, json"@,
                Error::Parse { .. } => r matches Some(h) && h@
                    == "structural merge requires syntactically valid inputs"@,
                Error::Io { .. } => r is None,
            },
    {
        match self {
            Error::UnknownLanguage { .. } => Some("pass --lang; supported: rust, java, json"),
            Error::Parse { .. } => Some("structural merge requires syntactically valid inputs"),
            Error::Io { .. } => None,
        }
    }

    /// The underlying I/O error of an `Io` error.
    pub fn source(&self) -> (r: Option<&std::io::Error>)
        ensures
            match self {
                Error::Io { source, .. } => r == Some(source),
                _ => r is None,
            },
    {
        match self {
            Error::Io { source, .. } => Some(source),
            _ => None,
        }
    }

    /// The one-line message, naming the path (and language or cause).
    pub fn message(&self) -> (r: String)
        ensures
            match self {
                Error::UnknownLanguage { path } => r@ == "cannot detect language for "@ + path@,
                Error::Parse { path, lang } => r@ == path@ + " does not parse as "@ + lang@,
                Error::Io { path, .. } => r@.subrange(0, 12 + path@.len() as int) == "io error on "@ + path@,
            },
    {
        match self {
            Error::UnknownLanguage { path } => {
                let mut s = String::from_str("cannot detect language for ");
                s.append(path.as_str());
                s
            },
            Error::Parse { path, lang } => {
                let mut s = path.clone();
                s.append(" does not parse as ");
                s.append(lang.as_str());
                s
            },
            Error::Io { path, source } => {
                let mut s = String::from_str("io error on ");
                s.append(path.as_str());
                let ghost head = s@;
                s.append(": ");
                let cause = source.to_string();
                s.append(cause.as_str());
                proof {
                    reveal_strlit("io error on ");
                    assert(s@.subrange(0, 12 + path@.len() as int) =~= head);
                }
                s
            },
        }
    }
}

} // verus!
