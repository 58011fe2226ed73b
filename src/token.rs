use vstd::prelude::*;
use crate::lexer::{punct, punct_kind, push_char};

verus! {

/// A line/column cursor; both start at 1.
#[derive(Clone, Copy, Debug, PartialEq, Eq, Structural)]
pub struct Location {
    pub line: usize,
    pub column: usize,
}

impl Location {
    pub fn new(line: usize, column: usize) -> (r: Location)
        ensures
            r.line == line,
            r.column == column,
    {
        Location { line, column }
    }

    pub fn next_column(&mut self)
        requires
            old(self).column < usize::MAX,
        ensures
            final(self).line == old(self).line,
            final(self).column == old(self).column + 1,
    {
        self.column = self.column + 1;
    }

    pub fn next_line(&mut self)
        requires
            old(self).line < usize::MAX,
        ensures
            final(self).line == old(self).line + 1,
            final(self).column == 1,
    {
        self.line = self.line + 1;
        self.column = 1;
    }
}

/// The kind of a lexical unit.
#[derive(Clone, Copy, Debug, PartialEq, Eq, Structural)]
pub enum TokenType {
    String,
    Number,
    True,
    False,
    Null,
    Ident,
    LeftBrace,
    RightBrace,
    LeftBracket,
    RightBracket,
    Colon,
    Comma,
    EOF,
    ILLEGAL,
}

/// What a token is, as a mathematical value.
pub struct TokenView {
    pub location: Location,
    pub kind: TokenType,
    pub value: Option<Seq<char>>,
}

/// A lexical unit: its kind, the text it carries (strings, numbers and
/// barewords only) and where it starts.
#[derive(Debug)]
pub struct Token {
    pub location: Location,
    pub token_type: TokenType,
    pub value: Option<String>,
}

pub open spec fn opt_view(o: Option<String>) -> Option<Seq<char>> {
    match o {
        Some(s) => Some(s@),
        None => None,
    }
}

impl View for Token {
    type V = TokenView;

    open spec fn view(&self) -> TokenView {
        TokenView { location: self.location, kind: self.token_type, value: opt_view(self.value) }
    }
}

impl Default for Token {
    /// The token that fills a parser's slots before it reads any input.
    fn default() -> (r: Token)
        ensures
            r@.location == (Location { line: 1, column: 1 }),
            r@.kind == TokenType::ILLEGAL,
            r@.value is None,
    {
        Token { location: Location::new(1, 1), token_type: TokenType::ILLEGAL, value: None }
    }
}

/// The kind of the structural token that a character stands for, if any.
pub open spec fn kind_of_char(c: char) -> TokenType {
    match punct_kind(c) {
        Some(k) => k,
        None => TokenType::ILLEGAL,
    }
}

impl From<char> for TokenType {
    /// The structural token kind of a character; any other character is illegal.
    fn from(c: char) -> (r: TokenType) {
        match punct(c) {
            Some(k) => k,
            None => TokenType::ILLEGAL,
        }
    }
}

impl vstd::std_specs::convert::FromSpecImpl<char> for TokenType {
    open spec fn obeys_from_spec() -> bool {
        true
    }

    open spec fn from_spec(c: char) -> TokenType {
        kind_of_char(c)
    }
}

/// The name of a token kind.
pub open spec fn kind_name(k: TokenType) -> Seq<char> {
    match k {
        TokenType::String => "string"@,
        TokenType::Number => "number"@,
        TokenType::True => "true"@,
        TokenType::False => "false"@,
        TokenType::Null => "null"@,
        TokenType::Ident => "Ident"@,
        TokenType::LeftBrace => "{"@,
        TokenType::RightBrace => "}"@,
        TokenType::LeftBracket => "["@,
        TokenType::RightBracket => "]"@,
        TokenType::Colon => ":"@,
        TokenType::Comma => ","@,
        TokenType::EOF => "EOF"@,
        TokenType::ILLEGAL => "ILLEGAL"@,
    }
}

impl TokenType {
    /// The name of this kind.
    pub fn to_text(&self) -> (r: String)
        ensures
            r@ == kind_name(*self),
    {
        match self {
            TokenType::String => "string".to_owned(),
            TokenType::Number => "number".to_owned(),
            TokenType::True => "true".to_owned(),
            TokenType::False => "false".to_owned(),
            TokenType::Null => "null".to_owned(),
            TokenType::Ident => "Ident".to_owned(),
            TokenType::LeftBrace => "{".to_owned(),
            TokenType::RightBrace => "}".to_owned(),
            TokenType::LeftBracket => "[".to_owned(),
            TokenType::RightBracket => "]".to_owned(),
            TokenType::Colon => ":".to_owned(),
            TokenType::Comma => ",".to_owned(),
            TokenType::EOF => "EOF".to_owned(),
            TokenType::ILLEGAL => "ILLEGAL".to_owned(),
        }
    }
}

/// How a token reads back as text: a string in quotes, a number or a
/// bareword as written (a bareword set off by spaces), the end marker as a
/// line break, anything else by its kind's name.
pub open spec fn token_text(t: TokenView) -> Seq<char> {
    let v = match t.value {
        Some(v) => v,
        None => Seq::empty(),
    };
    match t.kind {
        TokenType::String => seq!['"'] + v + seq!['"'],
        TokenType::Number => v,
        TokenType::Ident => seq![' '] + v + seq![' '],
        TokenType::EOF => seq!['\n'],
        _ => kind_name(t.kind),
    }
}

impl Token {
    /// This token as text.
    pub fn to_text(&self) -> (r: String)
        ensures
            r@ == token_text(self@),
    {
        let mut out = String::new();
        match self.token_type {
            TokenType::String => {
                push_char(&mut out, '"');
                if let Some(v) = &self.value {
                    out.append(v.as_str());
                }
                push_char(&mut out, '"');
            },
            TokenType::Number => {
                if let Some(v) = &self.value {
                    out.append(v.as_str());
                }
            },
            TokenType::Ident => {
                push_char(&mut out, ' ');
                if let Some(v) = &self.value {
                    out.append(v.as_str());
                }
                push_char(&mut out, ' ');
            },
            TokenType::EOF => {
                push_char(&mut out, '\n');
            },
            _ => {
                out = self.token_type.to_text();
            },
        }
        proof {
            let v = match self@.value {
                Some(v) => v,
                None => Seq::<char>::empty(),
            };
            assert(seq!['"'] + v + seq!['"'] =~= Seq::<char>::empty().push('"').add(v).push('"'));
            assert(seq![' '] + v + seq![' '] =~= Seq::<char>::empty().push(' ').add(v).push(' '));
            assert(v =~= Seq::<char>::empty().add(v));
            assert(seq!['\n'] =~= Seq::<char>::empty().push('\n'));
        }
        out
    }

    /// An independent copy of this token.
    pub fn copy(&self) -> (r: Token)
        ensures
            r@ == self@,
    {
        let value = match &self.value {
            Some(s) => Some(s.clone()),
            None => None,
        };
        Token { location: self.location, token_type: self.token_type, value }
    }
}

/// The kind that a bareword gets: `true`, `false` and `null` are keywords,
/// any other word is an identifier.
pub open spec fn keyword_kind(s: Seq<char>) -> TokenType {
    if s == seq!['t', 'r', 'u', 'e'] {
        TokenType::True
    } else if s == seq!['f', 'a', 'l', 's', 'e'] {
        TokenType::False
    } else if s == seq!['n', 'u', 'l', 'l'] {
        TokenType::Null
    } else {
        TokenType::Ident
    }
}

fn text_is(s: &str, w: &[char]) -> (r: bool)
    ensures
        r == (s@ == w@),
{
    let n = s.unicode_len();
    if n != w.len() {
        return false;
    }
    let mut i: usize = 0;
    while i < n
        invariant
            n == s@.len(),
            n == w@.len(),
            i <= n,
            forall|j: int| 0 <= j < i ==> s@[j] == w@[j],
        decreases n - i,
    {
        if s.get_char(i) != w[i] {
            return false;
        }
        i = i + 1;
    }
    assert(s@ =~= w@);
    true
}

impl TokenType {
    /// Classifies a bareword by exact match against the keywords.
    pub fn lookup_ident(ident: &str) -> (r: TokenType)
        ensures
            r == keyword_kind(ident@),
    {
        let t = ['t', 'r', 'u', 'e'];
        let f = ['f', 'a', 'l', 's', 'e'];
        let n = ['n', 'u', 'l', 'l'];
        assert(t@ == seq!['t', 'r', 'u', 'e']);
        assert(f@ == seq!['f', 'a', 'l', 's', 'e']);
        assert(n@ == seq!['n', 'u', 'l', 'l']);
        if text_is(ident, &t) {
            TokenType::True
        } else if text_is(ident, &f) {
            TokenType::False
        } else if text_is(ident, &n) {
            TokenType::Null
        } else {
            TokenType::Ident
        }
    }
}

/// Whether a bareword is one of the keywords `true`, `false` and `null`.
pub fn lookup_ident(ident: &str) -> (r: bool)
    ensures
        r == (keyword_kind(ident@) != TokenType::Ident),
{
    TokenType::lookup_ident(ident) != TokenType::Ident
}

} // verus!
