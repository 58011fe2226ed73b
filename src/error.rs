use vstd::prelude::*;
use crate::token::{Location, Token, TokenView};

verus! {

/// A diagnostic recorded while reading a document.
#[derive(Debug)]
pub enum JSONError {
    /// A string-valued token was expected; carries the text of the token found.
    StringError(String),
    /// A malformed literal; carries its text and where it starts.
    LexicalError(String, Location),
    /// A token that does not fit the grammar at its place.
    UnexpectedToken(Token, Location),
}

/// A diagnostic as a mathematical value.
pub enum Diag {
    StringError(Seq<char>),
    LexicalError(Seq<char>, Location),
    UnexpectedToken(TokenView, Location),
}

impl View for JSONError {
    type V = Diag;

    open spec fn view(&self) -> Diag {
        match self {
            JSONError::StringError(s) => Diag::StringError(s@),
            JSONError::LexicalError(s, l) => Diag::LexicalError(s@, *l),
            JSONError::UnexpectedToken(t, l) => Diag::UnexpectedToken(t@, *l),
        }
    }
}

/// The diagnostics of a list, in order.
pub open spec fn diags_of(v: Seq<JSONError>) -> Seq<Diag> {
    v.map_values(|e: JSONError| e@)
}

/// The diagnostic for a token found where the grammar has no place for it.
pub open spec fn unexpected(t: TokenView) -> Diag {
    Diag::UnexpectedToken(t, t.location)
}

} // verus!
