use vstd::prelude::*;

verus! {

/// What went wrong while reading a document: what was expected there, and the
/// text that was found instead (empty where nothing was found).
#[derive(Debug, Clone, PartialEq, Eq)]
pub enum WebVTTError {
    Parsing(String, String),
}

impl View for WebVTTError {
    type V = (Seq<char>, Seq<char>);

    open spec fn view(&self) -> (Seq<char>, Seq<char>) {
        match self {
            WebVTTError::Parsing(expected, found) => (expected@, found@),
        }
    }
}

impl WebVTTError {
    /// A parsing error expecting `expected` where `found` stands.
    pub fn parsing(expected: &str, found: &str) -> (r: WebVTTError)
        ensures
            r@ == (expected@, found@),
    {
        WebVTTError::Parsing(expected.to_owned(), found.to_owned())
    }
}

} // verus!
