//! Errors of the library.
use vstd::prelude::*;

verus! {

/// What went wrong, with the message of the underlying failure.
#[derive(Debug)]
pub enum SwapxError {
    Io(String),
    Yaml(String),
    Regex(String),
    Dialoguer(String),
    Config(String),
}

/// The text of an error: a prefix naming its kind, then its message.
pub open spec fn error_text(e: SwapxError) -> Seq<char> {
    match e {
        SwapxError::Io(m) => "IO error: "@ + m@,
        SwapxError::Yaml(m) => "YAML error: "@ + m@,
        SwapxError::Regex(m) => "Regex error: "@ + m@,
        SwapxError::Dialoguer(m) => "Prompt error: "@ + m@,
        SwapxError::Config(m) => "Config error: "@ + m@,
    }
}

impl SwapxError {
    /// The text shown for this error.
    pub fn message(&self) -> (s: String)
        ensures
            s@ == error_text(*self),
    {
        let (prefix, m) = match self {
            SwapxError::Io(m) => ("IO error: ", m),
            SwapxError::Yaml(m) => ("YAML error: ", m),
            SwapxError::Regex(m) => ("Regex error: ", m),
            SwapxError::Dialoguer(m) => ("Prompt error: ", m),
            SwapxError::Config(m) => ("Config error: ", m),
        };
        let mut s = prefix.to_owned();
        s.append(m.as_str());
        s
    }
}

} // verus!
