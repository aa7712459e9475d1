use vstd::prelude::*;

verus! {

/// The errors of the converter.
pub enum Error {
    /// An error reported while reading a COLLADA document.
    ColladaError(String),
    /// A string that should hold a number or a name could not be parsed.
    StringParseError(String),
    /// The vertex semantics text is malformed.
    SemanticsParse(String),
    /// Any other error, described by its message.
    Other(String),
}

/// The text that describes an error to a user.
pub open spec fn error_message(e: Error) -> Seq<char> {
    match e {
        Error::ColladaError(m) => "Collada error:"@ + m@,
        Error::StringParseError(m) => "String parse error: "@ + m@,
        Error::SemanticsParse(m) => "Semantics parse error: "@ + m@,
        Error::Other(m) => m@,
    }
}

impl Error {
    /// Renders the error as text for the user.
    pub fn message(&self) -> (r: String)
        ensures
            r@ == error_message(*self),
    {
        match self {
            Error::ColladaError(m) => {
                let mut r = String::from_str("Collada error:");
                r.append(m.as_str());
                r
            },
            Error::StringParseError(m) => {
                let mut r = String::from_str("String parse error: ");
                r.append(m.as_str());
                r
            },
            Error::SemanticsParse(m) => {
                let mut r = String::from_str("Semantics parse error: ");
                r.append(m.as_str());
                r
            },
            Error::Other(m) => m.clone(),
        }
    }
}

} // verus!
