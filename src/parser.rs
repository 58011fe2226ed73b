use vstd::prelude::*;
use crate::error::{diags_of, unexpected, Diag, JSONError};
use crate::lexer::{
    digits_end, lemma_digits_end, lemma_lex_progress, lemma_tokens_end, lex_at, tokens_from, tokens_of,
    Lexer,
};
use crate::token::{Token, TokenType, TokenView};
use crate::value::{JsonValue, Value};

verus! {

/// What reading a value from a token position yields: the value, the
/// position of the first token after it, and the diagnostics recorded.
pub struct Parsed {
    pub value: JsonValue,
    pub next: int,
    pub diags: Seq<Diag>,
}

/// The token at position `k`; past the end, the last token (the end marker).
pub open spec fn tok(ts: Seq<TokenView>, k: int) -> TokenView {
    if 0 <= k < ts.len() {
        ts[k]
    } else {
        ts.last()
    }
}

/// Kinds whose text reads as a string: quoted strings and barewords.
pub open spec fn is_text_kind(k: TokenType) -> bool {
    k == TokenType::String || k == TokenType::Ident
}

pub open spec fn text_of(t: TokenView) -> Seq<char> {
    match t.value {
        Some(v) => v,
        None => Seq::empty(),
    }
}

pub open spec fn sign_len(x: Seq<char>) -> int {
    if x.len() > 0 && x[0] == '-' {
        1
    } else {
        0
    }
}

/// The digits of a number literal's integer part.
pub open spec fn lead_digits(x: Seq<char>) -> Seq<char> {
    x.subrange(sign_len(x), digits_end(x, sign_len(x)))
}

/// A number literal is complete when it has an integer part and does not
/// stop at an exponent marker that lacks its sign.
pub open spec fn number_complete(x: Seq<char>) -> bool {
    lead_digits(x).len() > 0 && !(x.last() == 'e' || x.last() == 'E')
}

/// The value of a number literal: the whole literal (sign, integer part,
/// fraction and exponent, exactly as written) when it is complete;
/// otherwise an error value and a lexical diagnostic.
pub open spec fn number_result(t: TokenView) -> (JsonValue, Seq<Diag>) {
    let x = text_of(t);
    if number_complete(x) {
        (JsonValue::Num(x), Seq::empty())
    } else {
        (JsonValue::Error(x), seq![Diag::LexicalError(x, t.location)])
    }
}

/// Reads one value starting at token `k`.
pub open spec fn parse_value_at(ts: Seq<TokenView>, k: int) -> Parsed
    decreases ts.len() - k, 0int,
{
    if k < 0 || k >= ts.len() {
        Parsed { value: JsonValue::Null, next: k, diags: seq![unexpected(tok(ts, k))] }
    } else {
        let t = ts[k];
        if is_text_kind(t.kind) {
            Parsed { value: JsonValue::Str(text_of(t)), next: k + 1, diags: Seq::empty() }
        } else if t.kind == TokenType::Number {
            Parsed { value: number_result(t).0, next: k + 1, diags: number_result(t).1 }
        } else if t.kind == TokenType::True {
            Parsed { value: JsonValue::Bool(true), next: k + 1, diags: Seq::empty() }
        } else if t.kind == TokenType::False {
            Parsed { value: JsonValue::Bool(false), next: k + 1, diags: Seq::empty() }
        } else if t.kind == TokenType::Null {
            Parsed { value: JsonValue::Null, next: k + 1, diags: Seq::empty() }
        } else if t.kind == TokenType::LeftBrace {
            parse_members(ts, k + 1, Seq::empty(), Seq::empty())
        } else if t.kind == TokenType::LeftBracket {
            parse_elements(ts, k + 1, Seq::empty(), Seq::empty())
        } else if t.kind == TokenType::EOF {
            Parsed { value: JsonValue::Null, next: k, diags: seq![unexpected(t)] }
        } else {
            Parsed { value: JsonValue::Null, next: k + 1, diags: seq![unexpected(t)] }
        }
    }
}

/// Where the separator after a member or element at token `n` leaves the
/// reader, and the diagnostic it adds: a comma is consumed; the closing token
/// or the end marker is left in place; anything else is reported as a
/// missing comma and left in place, and reading goes on.
pub open spec fn after_item(ts: Seq<TokenView>, n: int, close: TokenType) -> (int, Seq<Diag>) {
    let t = tok(ts, n);
    if t.kind == TokenType::Comma {
        (n + 1, Seq::empty())
    } else if t.kind == close || t.kind == TokenType::EOF {
        (n, Seq::empty())
    } else {
        (n, seq![unexpected(t)])
    }
}

/// Reads the members of an object from token `k` on, given those read so far.
pub open spec fn parse_members(
    ts: Seq<TokenView>,
    k: int,
    pairs: Seq<(Seq<char>, JsonValue)>,
    diags: Seq<Diag>,
) -> Parsed
    decreases ts.len() - k, 1int,
{
    let t = tok(ts, k);
    if k < 0 || k >= ts.len() {
        Parsed { value: JsonValue::Obj(pairs), next: k, diags: diags.push(unexpected(t)) }
    } else if t.kind == TokenType::RightBrace {
        Parsed { value: JsonValue::Obj(pairs), next: k + 1, diags }
    } else if t.kind == TokenType::EOF {
        Parsed { value: JsonValue::Obj(pairs), next: k, diags: diags.push(unexpected(t)) }
    } else if !is_text_kind(t.kind) {
        Parsed {
            value: JsonValue::Obj(pairs),
            next: k,
            diags: diags.push(Diag::StringError(text_of(t))),
        }
    } else if tok(ts, k + 1).kind != TokenType::Colon || k + 2 > ts.len() {
        Parsed {
            value: JsonValue::Obj(pairs),
            next: k + 1,
            diags: diags.push(unexpected(tok(ts, k + 1))),
        }
    } else {
        let r = parse_value_at(ts, k + 2);
        let pairs2 = pairs.push((text_of(t), r.value));
        let (n, extra) = after_item(ts, r.next, TokenType::RightBrace);
        let d = diags + r.diags + extra;
        if k < n <= ts.len() {
            parse_members(ts, n, pairs2, d)
        } else {
            Parsed { value: JsonValue::Obj(pairs2), next: n, diags: d }
        }
    }
}

/// Reads the elements of an array from token `k` on, given those read so far.
pub open spec fn parse_elements(
    ts: Seq<TokenView>,
    k: int,
    items: Seq<JsonValue>,
    diags: Seq<Diag>,
) -> Parsed
    decreases ts.len() - k, 1int,
{
    let t = tok(ts, k);
    if k < 0 || k >= ts.len() {
        Parsed { value: JsonValue::Arr(items), next: k, diags: diags.push(unexpected(t)) }
    } else if t.kind == TokenType::RightBracket {
        Parsed { value: JsonValue::Arr(items), next: k + 1, diags }
    } else if t.kind == TokenType::EOF {
        Parsed { value: JsonValue::Arr(items), next: k, diags: diags.push(unexpected(t)) }
    } else {
        let r = parse_value_at(ts, k);
        let items2 = items.push(r.value);
        let (n, extra) = after_item(ts, r.next, TokenType::RightBracket);
        let d = diags + r.diags + extra;
        if k < n <= ts.len() {
            parse_elements(ts, n, items2, d)
        } else {
            Parsed { value: JsonValue::Arr(items2), next: n, diags: d }
        }
    }
}

/// Reads a whole document from token `k`: one value, then a diagnostic for
/// whatever token follows it unless that is the end.
pub open spec fn parse_document(ts: Seq<TokenView>, k: int) -> (JsonValue, Seq<Diag>) {
    let r = parse_value_at(ts, k);
    let t = tok(ts, r.next);
    if t.kind != TokenType::EOF {
        (r.value, r.diags.push(unexpected(t)))
    } else {
        (r.value, r.diags)
    }
}

/// Whether a number literal is complete: it has an integer part and does
/// not stop at an exponent marker that lacks its sign.
pub fn is_complete_number(x: &str) -> (r: bool)
    ensures
        r == number_complete(x@),
{
    let n = x.unicode_len();
    if n == 0 {
        return false;
    }
    let last = x.get_char(n - 1);
    if last == 'e' || last == 'E' {
        return false;
    }
    let a: usize = if x.get_char(0) == '-' {
        1
    } else {
        0
    };
    proof {
        lemma_digits_end(x@, a as int);
        if a < n {
            lemma_digits_end(x@, a + 1);
        }
    }
    a < n && '0' <= x.get_char(a) && x.get_char(a) <= '9'
}

/// How the reader sees a token: when barewords are not allowed, a bareword
/// is an illegal token (it keeps its text, for the diagnostic).
pub open spec fn as_read(t: TokenView, bare: bool) -> TokenView {
    if !bare && t.kind == TokenType::Ident {
        TokenView { location: t.location, kind: TokenType::ILLEGAL, value: t.value }
    } else {
        t
    }
}

/// The tokens as the reader sees them.
pub open spec fn read_tokens(ts: Seq<TokenView>, bare: bool) -> Seq<TokenView> {
    ts.map_values(|t: TokenView| as_read(t, bare))
}

/// The lexer at `p` hands out the tokens that follow position `k + 1`.
pub open spec fn feeds(ts: Seq<TokenView>, s: Seq<char>, p: int, k: int, bare: bool) -> bool {
    if lex_at(s, p).0.kind != TokenType::EOF {
        k + 2 < ts.len() && ts.subrange(k + 2, ts.len() as int) == read_tokens(
            tokens_from(s, p),
            bare,
        )
    } else {
        k + 2 >= ts.len() - 1 && lex_at(s, p).0 == ts.last()
    }
}

/// Facts about a token list that ends with the end marker and holds it nowhere else.
pub open spec fn ends_once(ts: Seq<TokenView>) -> bool {
    &&& ts.len() >= 1
    &&& ts.last().kind == TokenType::EOF
    &&& forall|i: int| 0 <= i < ts.len() - 1 ==> (#[trigger] ts[i]).kind != TokenType::EOF
}

/// Reads a document by recursive descent over a two-token window (the current
/// token and the next one), recording diagnostics instead of stopping.
pub struct Parser {
    lexer: Lexer,
    curr_tok: Token,
    peek_tok: Token,
    errors: Vec<JSONError>,
    allow_unquoted_identifiers: bool,
    toks: Ghost<Seq<TokenView>>,
    idx: Ghost<int>,
}

impl Parser {
    /// Whether unquoted barewords are read as strings.
    pub closed spec fn unquoted_allowed(&self) -> bool {
        self.allow_unquoted_identifiers
    }

    /// The tokens of the whole source as the reader sees them, ending with
    /// the end marker.
    pub closed spec fn tokens(&self) -> Seq<TokenView> {
        self.toks@
    }

    /// The position of the current token in `tokens()`.
    pub closed spec fn index(&self) -> int {
        self.idx@
    }

    /// The diagnostics recorded so far, in order.
    pub closed spec fn diagnostics(&self) -> Seq<Diag> {
        diags_of(self.errors@)
    }

    pub closed spec fn window(&self) -> bool {
        &&& self.lexer.wf()
        &&& self.toks@ == read_tokens(tokens_of(self.lexer.text()), self.allow_unquoted_identifiers)
        &&& ends_once(self.toks@)
        &&& self.idx@ >= -2
        &&& feeds(
            self.toks@,
            self.lexer.text(),
            self.lexer.position(),
            self.idx@,
            self.allow_unquoted_identifiers,
        )
    }

    pub closed spec fn wf(&self) -> bool {
        &&& self.window()
        &&& 0 <= self.idx@ < self.toks@.len()
        &&& self.curr_tok@ == tok(self.toks@, self.idx@)
        &&& self.peek_tok@ == tok(self.toks@, self.idx@ + 1)
    }

    /// Moves the window one token on, pulling the next token from the lexer.
    fn shift(&mut self)
        requires
            old(self).window(),
        ensures
            final(self).window(),
            final(self).toks == old(self).toks,
            final(self).idx@ == old(self).idx@ + 1,
            final(self).errors == old(self).errors,
            final(self).allow_unquoted_identifiers == old(self).allow_unquoted_identifiers,
            final(self).curr_tok@ == old(self).peek_tok@,
            final(self).peek_tok@ == tok(old(self).toks@, old(self).idx@ + 2),
    {
        let ghost s = self.lexer.text();
        let ghost p = self.lexer.position();
        let ghost k = self.idx@;
        let ghost ts = self.toks@;
        proof {
            self.lexer.lemma_wf();
            lemma_lex_progress(s, p);
        }
        let ghost bare = self.allow_unquoted_identifiers;
        let mut t = self.lexer.next_token();
        let ghost lexed = t@;
        let ghost e = self.lexer.position();
        if !self.allow_unquoted_identifiers && t.token_type == TokenType::Ident {
            t.token_type = TokenType::ILLEGAL;
        }
        proof {
            self.lexer.lemma_wf();
            lemma_lex_progress(s, e);
            lemma_tokens_end(s, e);
            assert(t@ == as_read(lexed, bare));
            if lex_at(s, p).0.kind != TokenType::EOF {
                let rest = tokens_from(s, p);
                let tail = tokens_from(s, e);
                assert(rest == seq![lexed] + tail);
                let rr = read_tokens(rest, bare);
                let rt = read_tokens(tail, bare);
                assert(rr =~= seq![as_read(lexed, bare)] + rt);
                assert(ts[k + 2] == ts.subrange(k + 2, ts.len() as int)[0]);
                assert(ts.subrange(k + 3, ts.len() as int) =~= rt) by {
                    assert forall|i: int| 0 <= i < rt.len() implies ts.subrange(
                        k + 3,
                        ts.len() as int,
                    )[i] == rt[i] by {
                        assert(ts.subrange(k + 2, ts.len() as int)[i + 1] == rr[i + 1]);
                    }
                }
                if lex_at(s, e).0.kind != TokenType::EOF {
                    assert(tail.len() >= 2) by {
                        lemma_tokens_end(s, lex_at(s, e).1);
                    }
                } else {
                    assert(tail =~= seq![lex_at(s, e).0]);
                    assert(rt =~= seq![lex_at(s, e).0]);
                    assert(ts.last() == rt.last());
                }
            }
        }
        std::mem::swap(&mut self.peek_tok, &mut t);
        self.curr_tok = t;
        self.idx = Ghost(k + 1);
    }

    /// Starts reading `source`, with unquoted barewords read as strings:
    /// the window holds its first two tokens.
    pub fn new(source: &str) -> (r: Parser)
        requires
            source@.len() < usize::MAX,
        ensures
            r.wf(),
            r.unquoted_allowed(),
            r.tokens() == tokens_of(source@),
            r.index() == 0,
            r.diagnostics() == Seq::<Diag>::empty(),
    {
        let r = Parser::with_mode(source, true);
        proof {
            let ts = tokens_of(source@);
            assert(read_tokens(ts, true) =~= ts);
        }
        r
    }

    /// Starts reading `source`; when `allow_unquoted_identifiers` is false,
    /// a bareword other than `true`, `false` and `null` is read as an illegal
    /// token, as strict JSON has it.
    pub fn with_mode(source: &str, allow_unquoted_identifiers: bool) -> (r: Parser)
        requires
            source@.len() < usize::MAX,
        ensures
            r.wf(),
            r.unquoted_allowed() == allow_unquoted_identifiers,
            r.tokens() == read_tokens(tokens_of(source@), allow_unquoted_identifiers),
            r.index() == 0,
            r.diagnostics() == Seq::<Diag>::empty(),
    {
        let lexer = Lexer::new(source);
        let ghost bare = allow_unquoted_identifiers;
        proof {
            lemma_tokens_end(source@, 0);
            lemma_lex_progress(source@, 0);
            let ts = read_tokens(tokens_of(source@), bare);
            assert(ts.subrange(0, ts.len() as int) =~= ts);
            let raw = tokens_of(source@);
            assert(ts.last() == as_read(raw.last(), bare));
            assert forall|i: int| 0 <= i < ts.len() - 1 implies (#[trigger] ts[i]).kind
                != TokenType::EOF by {
                assert(ts[i] == as_read(raw[i], bare));
            }
            if lex_at(source@, 0).0.kind == TokenType::EOF {
                assert(raw == seq![lex_at(source@, 0).0]);
            }
        }
        let mut p = Parser {
            lexer,
            curr_tok: Token::default(),
            peek_tok: Token::default(),
            errors: Vec::new(),
            allow_unquoted_identifiers,
            toks: Ghost(read_tokens(tokens_of(source@), allow_unquoted_identifiers)),
            idx: Ghost(-2),
        };
        p.shift();
        p.shift();
        assert(diags_of(p.errors@) =~= Seq::<Diag>::empty());
        p
    }

    /// Moves on by one token: the next token becomes the current one. At the
    /// end marker the window stays where it is.
    pub fn next_token(&mut self)
        requires
            old(self).wf(),
        ensures
            final(self).wf(),
            final(self).tokens() == old(self).tokens(),
            final(self).diagnostics() == old(self).diagnostics(),
            final(self).index() == if old(self).index() + 1 < old(self).tokens().len() {
                old(self).index() + 1
            } else {
                old(self).index()
            },
    {
        let ghost k = self.idx@;
        self.shift();
        self.idx = Ghost(if k + 1 < self.toks@.len() { k + 1 } else { k });
    }

    /// The token being examined.
    pub fn curr_tok(&self) -> (r: &Token)
        requires
            self.wf(),
        ensures
            r@ == tok(self.tokens(), self.index()),
    {
        &self.curr_tok
    }

    /// The token after the current one.
    pub fn peek_tok(&self) -> (r: &Token)
        requires
            self.wf(),
        ensures
            r@ == tok(self.tokens(), self.index() + 1),
    {
        &self.peek_tok
    }

    fn emit_error(&mut self, e: JSONError)
        requires
            old(self).wf(),
        ensures
            final(self).wf(),
            final(self).tokens() == old(self).tokens(),
            final(self).index() == old(self).index(),
            final(self).diagnostics() == old(self).diagnostics().push(e@),
    {
        self.errors.push(e);
        proof {
            assert(diags_of(self.errors@) =~= diags_of(old(self).errors@).push(e@));
        }
    }

    /// Records the current token as one the grammar has no place for.
    fn unexpected_here(&mut self)
        requires
            old(self).wf(),
        ensures
            final(self).wf(),
            final(self).tokens() == old(self).tokens(),
            final(self).index() == old(self).index(),
            final(self).diagnostics() == old(self).diagnostics().push(
                unexpected(tok(old(self).tokens(), old(self).index())),
            ),
    {
        let t = self.curr_tok.copy();
        let location = t.location;
        self.emit_error(JSONError::UnexpectedToken(t, location));
    }

    /// Consumes the current token when it has the given kind; otherwise
    /// records it as unexpected and stays.
    fn expect_token(&mut self, token_type: TokenType) -> (r: bool)
        requires
            old(self).wf(),
        ensures
            final(self).wf(),
            final(self).tokens() == old(self).tokens(),
            r == (tok(old(self).tokens(), old(self).index()).kind == token_type),
            r ==> final(self).index() == (if old(self).index() + 1 < old(self).tokens().len() {
                old(self).index() + 1
            } else {
                old(self).index()
            }) && final(self).diagnostics() == old(self).diagnostics(),
            !r ==> final(self).index() == old(self).index() && final(self).diagnostics()
                == old(self).diagnostics().push(
                unexpected(tok(old(self).tokens(), old(self).index())),
            ),
    {
        if self.curr_tok.token_type == token_type {
            self.next_token();
            true
        } else {
            self.unexpected_here();
            false
        }
    }

    /// A current token other than the end marker is not the last one.
    proof fn lemma_not_last(&self)
        requires
            self.wf(),
            tok(self.tokens(), self.index()).kind != TokenType::EOF,
        ensures
            self.index() + 1 < self.tokens().len(),
    {
    }

    /// The text of the current token, or nothing when it carries none.
    fn curr_text(&self) -> (r: String)
        requires
            self.wf(),
        ensures
            r@ == text_of(tok(self.tokens(), self.index())),
    {
        match &self.curr_tok.value {
            Some(s) => s.clone(),
            None => String::new(),
        }
    }

    /// Reads a string or a bareword; on any other token records that a
    /// string was expected, gives an error value and stays.
    fn parse_string(&mut self) -> (r: Value)
        requires
            old(self).wf(),
        ensures
            final(self).wf(),
            final(self).tokens() == old(self).tokens(),
            ({
                let t = tok(old(self).tokens(), old(self).index());
                if is_text_kind(t.kind) {
                    &&& final(self).index() == old(self).index() + 1
                    &&& final(self).diagnostics() == old(self).diagnostics()
                    &&& r@ == JsonValue::Str(text_of(t))
                } else {
                    &&& final(self).index() == old(self).index()
                    &&& final(self).diagnostics() == old(self).diagnostics().push(
                        Diag::StringError(text_of(t)),
                    )
                    &&& r@ == JsonValue::Error(text_of(t))
                }
            }),
    {
        let value = self.curr_text();
        let kind = self.curr_tok.token_type;
        if kind != TokenType::String && kind != TokenType::Ident {
            self.emit_error(JSONError::StringError(value.clone()));
            return Value::Error(value);
        }
        proof {
            self.lemma_not_last();
        }
        self.next_token();
        Value::String(value)
    }

    fn parse_number(&mut self) -> (r: Value)
        requires
            old(self).wf(),
            tok(old(self).tokens(), old(self).index()).kind == TokenType::Number,
        ensures
            final(self).wf(),
            final(self).tokens() == old(self).tokens(),
            final(self).index() == old(self).index() + 1,
            final(self).diagnostics() == old(self).diagnostics() + number_result(
                tok(old(self).tokens(), old(self).index()),
            ).1,
            r@ == number_result(tok(old(self).tokens(), old(self).index())).0,
    {
        let text = self.curr_text();
        let location = self.curr_tok.location;
        let r = if is_complete_number(text.as_str()) {
            assert(self.diagnostics() + Seq::<Diag>::empty() =~= self.diagnostics());
            Value::Number(text)
        } else {
            self.emit_error(JSONError::LexicalError(text.clone(), location));
            assert(old(self).diagnostics().push(Diag::LexicalError(text@, location))
                =~= old(self).diagnostics() + seq![Diag::LexicalError(text@, location)]);
            Value::Error(text)
        };
        proof {
            self.lemma_not_last();
        }
        self.next_token();
        r
    }

    fn parse_boolean(&mut self, value: bool) -> (r: Value)
        requires
            old(self).wf(),
            tok(old(self).tokens(), old(self).index()).kind != TokenType::EOF,
        ensures
            final(self).wf(),
            final(self).tokens() == old(self).tokens(),
            final(self).index() == old(self).index() + 1,
            final(self).diagnostics() == old(self).diagnostics(),
            r@ == JsonValue::Bool(value),
    {
        proof {
            self.lemma_not_last();
        }
        self.next_token();
        Value::Boolean(value)
    }

    fn parse_null(&mut self) -> (r: Value)
        requires
            old(self).wf(),
            tok(old(self).tokens(), old(self).index()).kind != TokenType::EOF,
        ensures
            final(self).wf(),
            final(self).tokens() == old(self).tokens(),
            final(self).index() == old(self).index() + 1,
            final(self).diagnostics() == old(self).diagnostics(),
            r@ == JsonValue::Null,
    {
        proof {
            self.lemma_not_last();
        }
        self.next_token();
        Value::Null
    }

    /// Consumes a comma after a member or element; reports anything but a
    /// comma, the closing token or the end marker as a missing comma.
    fn separator(&mut self, close: TokenType)
        requires
            old(self).wf(),
        ensures
            final(self).wf(),
            final(self).tokens() == old(self).tokens(),
            final(self).index() == after_item(old(self).tokens(), old(self).index(), close).0,
            final(self).diagnostics() == old(self).diagnostics() + after_item(
                old(self).tokens(),
                old(self).index(),
                close,
            ).1,
    {
        let kind = self.curr_tok.token_type;
        if kind == TokenType::Comma {
            proof {
                self.lemma_not_last();
            }
            self.next_token();
        } else if kind != close && kind != TokenType::EOF {
            self.unexpected_here();
        }
        assert(old(self).diagnostics() + Seq::<Diag>::empty() =~= old(self).diagnostics());
        assert(old(self).diagnostics().push(unexpected(tok(old(self).tokens(), old(self).index())))
            =~= old(self).diagnostics() + seq![unexpected(tok(old(self).tokens(), old(self).index()))]);
    }

    /// Reads one value starting at the current token.
    fn parse_value(&mut self) -> (r: Value)
        requires
            old(self).wf(),
        ensures
            final(self).wf(),
            final(self).tokens() == old(self).tokens(),
            final(self).index() == parse_value_at(old(self).tokens(), old(self).index()).next,
            final(self).diagnostics() == old(self).diagnostics() + parse_value_at(
                old(self).tokens(),
                old(self).index(),
            ).diags,
            r@ == parse_value_at(old(self).tokens(), old(self).index()).value,
            old(self).index() <= final(self).index(),
            tok(old(self).tokens(), old(self).index()).kind != TokenType::EOF ==> old(self).index()
                < final(self).index(),
        decreases old(self).toks@.len() - old(self).idx@, 1int,
    {
        let kind = self.curr_tok.token_type;
        let ghost d0 = self.diagnostics();
        assert(d0 + Seq::<Diag>::empty() =~= d0);
        match kind {
            TokenType::String | TokenType::Ident => self.parse_string(),
            TokenType::Number => self.parse_number(),
            TokenType::True => self.parse_boolean(true),
            TokenType::False => self.parse_boolean(false),
            TokenType::Null => self.parse_null(),
            TokenType::LeftBrace => self.parse_object(),
            TokenType::LeftBracket => self.parse_array(),
            TokenType::EOF => {
                self.unexpected_here();
                assert(self.diagnostics() =~= d0 + seq![unexpected(tok(self.toks@, self.idx@))]);
                Value::Null
            },
            _ => {
                self.unexpected_here();
                let ghost d1 = self.diagnostics();
                proof {
                    self.lemma_not_last();
                }
                self.next_token();
                assert(d1 =~= d0 + seq![unexpected(tok(self.toks@, old(self).idx@))]);
                Value::Null
            },
        }
    }

    /// Reads an object; the current token is its opening brace.
    fn parse_object(&mut self) -> (r: Value)
        requires
            old(self).wf(),
            tok(old(self).tokens(), old(self).index()).kind == TokenType::LeftBrace,
        ensures
            final(self).wf(),
            final(self).tokens() == old(self).tokens(),
            final(self).index() == parse_members(
                old(self).tokens(),
                old(self).index() + 1,
                Seq::empty(),
                Seq::empty(),
            ).next,
            final(self).diagnostics() == old(self).diagnostics() + parse_members(
                old(self).tokens(),
                old(self).index() + 1,
                Seq::empty(),
                Seq::empty(),
            ).diags,
            r@ == parse_members(
                old(self).tokens(),
                old(self).index() + 1,
                Seq::empty(),
                Seq::empty(),
            ).value,
            old(self).index() < final(self).index(),
        decreases old(self).toks@.len() - old(self).idx@, 0int,
    {
        let ghost ts = self.toks@;
        let ghost k0 = self.idx@;
        let ghost d0 = self.diagnostics();
        proof {
            self.lemma_not_last();
        }
        self.next_token();
        let mut object: Vec<(String, Box<Value>)> = Vec::new();
        let ghost mut pairs: Seq<(Seq<char>, JsonValue)> = Seq::empty();
        let ghost mut acc: Seq<Diag> = Seq::empty();
        assert(d0 + acc =~= d0);
        loop
            invariant_except_break
                parse_members(ts, k0 + 1, Seq::empty(), Seq::empty()) == parse_members(
                    ts,
                    self.idx@,
                    pairs,
                    acc,
                ),
            invariant
                self.wf(),
                self.toks@ == ts,
                ts == old(self).toks@,
                k0 == old(self).idx@,
                k0 < self.idx@,
                self.diagnostics() == d0 + acc,
                object@.len() == pairs.len(),
                forall|i: int|
                    0 <= i < pairs.len() ==> (#[trigger] pairs[i]) == (
                    object@[i].0@,
                    (*object@[i].1).view(),
                ),
            ensures
                self.wf(),
                self.toks@ == ts,
                k0 < self.idx@,
                self.diagnostics() == d0 + acc,
                object@.len() == pairs.len(),
                forall|i: int|
                    0 <= i < pairs.len() ==> (#[trigger] pairs[i]) == (
                    object@[i].0@,
                    (*object@[i].1).view(),
                ),
                parse_members(ts, k0 + 1, Seq::empty(), Seq::empty()) == (Parsed {
                    value: JsonValue::Obj(pairs),
                    next: self.idx@,
                    diags: acc,
                }),
            decreases ts.len() - self.idx@,
        {
            let ghost k = self.idx@;
            let ghost dk = self.diagnostics();
            let kind = self.curr_tok.token_type;
            if kind == TokenType::RightBrace {
                proof {
                    self.lemma_not_last();
                }
                self.next_token();
                break ;
            }
            if kind == TokenType::EOF {
                self.unexpected_here();
                proof {
                    acc = acc.push(unexpected(tok(ts, k)));
                    assert(self.diagnostics() =~= d0 + acc);
                }
                break ;
            }
            let key = match self.parse_string() {
                Value::String(key) => key,
                _ => {
                    proof {
                        acc = acc.push(Diag::StringError(text_of(tok(ts, k))));
                        assert(self.diagnostics() =~= d0 + acc);
                    }
                    break ;
                },
            };
            if !self.expect_token(TokenType::Colon) {
                proof {
                    acc = acc.push(unexpected(tok(ts, k + 1)));
                    assert(self.diagnostics() =~= d0 + acc);
                }
                break ;
            }
            let ghost r = parse_value_at(ts, k + 2);
            let value = self.parse_value();
            let ghost n = self.idx@;
            let ghost dv = self.diagnostics();
            self.separator(TokenType::RightBrace);
            object.push((key, Box::new(value)));
            proof {
                pairs = pairs.push((key@, value@));
                let extra = after_item(ts, n, TokenType::RightBrace).1;
                assert(self.diagnostics() =~= d0 + (acc + r.diags + extra));
                acc = acc + r.diags + extra;
                assert forall|i: int| 0 <= i < pairs.len() implies (#[trigger] pairs[i]) == (
                    object@[i].0@,
                    (*object@[i].1).view(),
                ) by {}
            }
        }
        let r = Value::Object(object);
        assert(r.view() == JsonValue::Obj(pairs)) by {
            assert(r.view()->Obj_0 =~= pairs);
        }
        r
    }

    /// Reads an array; the current token is its opening bracket.
    fn parse_array(&mut self) -> (r: Value)
        requires
            old(self).wf(),
            tok(old(self).tokens(), old(self).index()).kind == TokenType::LeftBracket,
        ensures
            final(self).wf(),
            final(self).tokens() == old(self).tokens(),
            final(self).index() == parse_elements(
                old(self).tokens(),
                old(self).index() + 1,
                Seq::empty(),
                Seq::empty(),
            ).next,
            final(self).diagnostics() == old(self).diagnostics() + parse_elements(
                old(self).tokens(),
                old(self).index() + 1,
                Seq::empty(),
                Seq::empty(),
            ).diags,
            r@ == parse_elements(
                old(self).tokens(),
                old(self).index() + 1,
                Seq::empty(),
                Seq::empty(),
            ).value,
            old(self).index() < final(self).index(),
        decreases old(self).toks@.len() - old(self).idx@, 0int,
    {
        let ghost ts = self.toks@;
        let ghost k0 = self.idx@;
        let ghost d0 = self.diagnostics();
        proof {
            self.lemma_not_last();
        }
        self.next_token();
        let mut array: Vec<Value> = Vec::new();
        let ghost mut items: Seq<JsonValue> = Seq::empty();
        let ghost mut acc: Seq<Diag> = Seq::empty();
        assert(d0 + acc =~= d0);
        loop
            invariant_except_break
                parse_elements(ts, k0 + 1, Seq::empty(), Seq::empty()) == parse_elements(
                    ts,
                    self.idx@,
                    items,
                    acc,
                ),
            invariant
                self.wf(),
                self.toks@ == ts,
                ts == old(self).toks@,
                k0 == old(self).idx@,
                k0 < self.idx@,
                self.diagnostics() == d0 + acc,
                array@.len() == items.len(),
                forall|i: int| 0 <= i < items.len() ==> (#[trigger] items[i]) == array@[i].view(),
            ensures
                self.wf(),
                self.toks@ == ts,
                k0 < self.idx@,
                self.diagnostics() == d0 + acc,
                array@.len() == items.len(),
                forall|i: int| 0 <= i < items.len() ==> (#[trigger] items[i]) == array@[i].view(),
                parse_elements(ts, k0 + 1, Seq::empty(), Seq::empty()) == (Parsed {
                    value: JsonValue::Arr(items),
                    next: self.idx@,
                    diags: acc,
                }),
            decreases ts.len() - self.idx@,
        {
            let ghost k = self.idx@;
            let kind = self.curr_tok.token_type;
            if kind == TokenType::RightBracket {
                proof {
                    self.lemma_not_last();
                }
                self.next_token();
                break ;
            }
            if kind == TokenType::EOF {
                self.unexpected_here();
                proof {
                    acc = acc.push(unexpected(tok(ts, k)));
                    assert(self.diagnostics() =~= d0 + acc);
                }
                break ;
            }
            let ghost r = parse_value_at(ts, k);
            let value = self.parse_value();
            let ghost n = self.idx@;
            self.separator(TokenType::RightBracket);
            array.push(value);
            proof {
                items = items.push(value@);
                let extra = after_item(ts, n, TokenType::RightBracket).1;
                assert(self.diagnostics() =~= d0 + (acc + r.diags + extra));
                acc = acc + r.diags + extra;
                assert forall|i: int| 0 <= i < items.len() implies (#[trigger] items[i])
                    == array@[i].view() by {}
            }
        }
        let r = Value::Array(array);
        assert(r.view() == JsonValue::Arr(items)) by {
            assert(r.view()->Arr_0 =~= items);
        }
        r
    }

    /// Reads one top-level value, then records the token after it as
    /// unexpected unless it is the end marker. The value is returned either way.
    pub fn parse(&mut self) -> (r: Value)
        requires
            old(self).wf(),
        ensures
            final(self).wf(),
            final(self).tokens() == old(self).tokens(),
            r@ == parse_document(old(self).tokens(), old(self).index()).0,
            final(self).diagnostics() == old(self).diagnostics() + parse_document(
                old(self).tokens(),
                old(self).index(),
            ).1,
    {
        let ghost d0 = self.diagnostics();
        let ghost r = parse_value_at(self.toks@, self.idx@);
        let value = self.parse_value();
        if self.curr_tok.token_type != TokenType::EOF {
            self.unexpected_here();
            assert(self.diagnostics() =~= d0 + r.diags.push(unexpected(tok(self.toks@, r.next))));
        }
        value
    }

    /// The diagnostics recorded so far.
    pub fn errors(&self) -> (r: &Vec<JSONError>)
        ensures
            diags_of(r@) == self.diagnostics(),
    {
        &self.errors
    }
}

} // verus!
