use vstd::prelude::*;
use vstd::std_specs::iter::IteratorSpec;
use crate::token::{keyword_kind, Location, Token, TokenType, TokenView};

verus! {

pub open spec fn is_space(c: char) -> bool {
    c == ' ' || c == '\t' || c == '\n' || c == '\r'
}

pub open spec fn is_letter_char(c: char) -> bool {
    ('a' <= c && c <= 'z') || ('A' <= c && c <= 'Z') || c == '_'
}

pub open spec fn is_digit_char(c: char) -> bool {
    '0' <= c && c <= '9'
}

/// Characters that end a bareword.
pub open spec fn is_delimiter(c: char) -> bool {
    c == ',' || c == ';' || c == ':' || c == ']' || c == '}' || is_space(c)
}

/// The token kind of a single-character structural token.
pub open spec fn punct_kind(c: char) -> Option<TokenType> {
    if c == '{' {
        Some(TokenType::LeftBrace)
    } else if c == '}' {
        Some(TokenType::RightBrace)
    } else if c == '[' {
        Some(TokenType::LeftBracket)
    } else if c == ']' {
        Some(TokenType::RightBracket)
    } else if c == ':' {
        Some(TokenType::Colon)
    } else if c == ',' {
        Some(TokenType::Comma)
    } else {
        None
    }
}

pub open spec fn char_is(s: Seq<char>, i: int, c: char) -> bool {
    0 <= i < s.len() && s[i] == c
}

pub open spec fn digit_at(s: Seq<char>, i: int) -> bool {
    0 <= i < s.len() && is_digit_char(s[i])
}

/// The first position at or after `p` that is not whitespace.
pub open spec fn skip_space(s: Seq<char>, p: int) -> int
    decreases s.len() - p,
{
    if 0 <= p < s.len() && is_space(s[p]) {
        skip_space(s, p + 1)
    } else {
        p
    }
}

/// The first position at or after `i` that holds no digit.
pub open spec fn digits_end(s: Seq<char>, i: int) -> int
    decreases s.len() - i,
{
    if digit_at(s, i) {
        digits_end(s, i + 1)
    } else {
        i
    }
}

/// The first position at or after `i` that ends a bareword.
pub open spec fn word_end(s: Seq<char>, i: int) -> int
    decreases s.len() - i,
{
    if 0 <= i < s.len() && !is_delimiter(s[i]) {
        word_end(s, i + 1)
    } else {
        i
    }
}

/// The position of the quote that closes a string whose body starts at `i`
/// (a backslash takes the next character with it), or the input's length
/// when no quote closes it.
pub open spec fn string_end(s: Seq<char>, i: int) -> int
    decreases s.len() - i,
{
    if i < 0 || i >= s.len() {
        s.len() as int
    } else if s[i] == '"' {
        i
    } else if s[i] == '\\' {
        if i + 1 < s.len() {
            string_end(s, i + 2)
        } else {
            s.len() as int
        }
    } else {
        string_end(s, i + 1)
    }
}

/// Where the longest prefix of the number grammar that starts at `q` ends:
/// an optional `-`; `0` or a nonzero digit followed by digits; optionally
/// `.` and digits; optionally `e` or `E`, a mandatory sign, and digits.
pub open spec fn number_end(s: Seq<char>, q: int) -> int {
    let a = if char_is(s, q, '-') { q + 1 } else { q };
    if !digit_at(s, a) {
        a
    } else if s[a] == '0' && digit_at(s, a + 1) {
        a + 1
    } else {
        let b = if s[a] == '0' { a + 1 } else { digits_end(s, a + 1) };
        let c = if char_is(s, b, '.') { digits_end(s, b + 1) } else { b };
        if char_is(s, c, 'e') || char_is(s, c, 'E') {
            if char_is(s, c + 1, '+') || char_is(s, c + 1, '-') {
                digits_end(s, c + 2)
            } else {
                c + 1
            }
        } else {
            c
        }
    }
}

/// The location of position `p`: lines and columns count from 1, a line
/// feed, a carriage return or the pair of them ends a line.
pub open spec fn loc_at(s: Seq<char>, p: int) -> Location
    decreases p,
{
    if p <= 0 || p > s.len() {
        Location { line: 1, column: 1 }
    } else {
        let l = loc_at(s, p - 1);
        let c = s[p - 1];
        if c == '\n' && p >= 2 && s[p - 2] == '\r' {
            l
        } else if c == '\n' || c == '\r' {
            Location { line: (l.line + 1) as usize, column: 1 }
        } else {
            Location { line: l.line, column: (l.column + 1) as usize }
        }
    }
}

pub open spec fn mk_tok(location: Location, kind: TokenType, value: Option<Seq<char>>) -> TokenView {
    TokenView { location, kind, value }
}

/// The token that starts after the whitespace at position `p`, and the
/// position just after it.
pub open spec fn lex_at(s: Seq<char>, p: int) -> (TokenView, int) {
    let q = skip_space(s, p);
    let loc = loc_at(s, q);
    if q < 0 || q >= s.len() {
        (mk_tok(loc, TokenType::EOF, None), q)
    } else {
        let c = s[q];
        if c == '"' {
            let j = string_end(s, q + 1);
            if j < s.len() {
                (mk_tok(loc, TokenType::String, Some(s.subrange(q + 1, j))), j + 1)
            } else {
                (mk_tok(loc, TokenType::ILLEGAL, None), s.len() as int)
            }
        } else if punct_kind(c) is Some {
            (mk_tok(loc, punct_kind(c)->0, None), q + 1)
        } else if is_letter_char(c) {
            let e = word_end(s, q + 1);
            let w = s.subrange(q, e);
            (mk_tok(loc, keyword_kind(w), Some(w)), e)
        } else if is_digit_char(c) || c == '-' {
            let e = number_end(s, q);
            (mk_tok(loc, TokenType::Number, Some(s.subrange(q, e))), e)
        } else {
            (mk_tok(loc, TokenType::ILLEGAL, None), q + 1)
        }
    }
}

/// The tokens of `s` from position `p` on, up to and including the end marker.
pub open spec fn tokens_from(s: Seq<char>, p: int) -> Seq<TokenView>
    decreases s.len() - p,
{
    let (t, e) = lex_at(s, p);
    if t.kind == TokenType::EOF || !(p < e <= s.len()) {
        seq![t]
    } else {
        seq![t] + tokens_from(s, e)
    }
}

/// All the tokens of a source text, ending with the end marker.
pub open spec fn tokens_of(s: Seq<char>) -> Seq<TokenView> {
    tokens_from(s, 0)
}

pub proof fn lemma_skip_space(s: Seq<char>, p: int)
    requires
        0 <= p <= s.len(),
    ensures
        p <= skip_space(s, p) <= s.len(),
        skip_space(s, skip_space(s, p)) == skip_space(s, p),
    decreases s.len() - p,
{
    if p < s.len() && is_space(s[p]) {
        lemma_skip_space(s, p + 1);
    }
}

pub proof fn lemma_digits_end(s: Seq<char>, i: int)
    requires
        0 <= i <= s.len(),
    ensures
        i <= digits_end(s, i) <= s.len(),
    decreases s.len() - i,
{
    if digit_at(s, i) {
        lemma_digits_end(s, i + 1);
    }
}

proof fn lemma_word_end(s: Seq<char>, i: int)
    requires
        0 <= i <= s.len(),
    ensures
        i <= word_end(s, i) <= s.len(),
    decreases s.len() - i,
{
    if i < s.len() && !is_delimiter(s[i]) {
        lemma_word_end(s, i + 1);
    }
}

proof fn lemma_string_end(s: Seq<char>, i: int)
    requires
        0 <= i <= s.len(),
    ensures
        i <= string_end(s, i) <= s.len(),
    decreases s.len() - i,
{
    if i < s.len() && s[i] != '"' {
        if s[i] == '\\' {
            if i + 1 < s.len() {
                lemma_string_end(s, i + 2);
            }
        } else {
            lemma_string_end(s, i + 1);
        }
    }
}

proof fn lemma_number_end(s: Seq<char>, q: int)
    requires
        0 <= q < s.len(),
        is_digit_char(s[q]) || s[q] == '-',
    ensures
        q < number_end(s, q) <= s.len(),
{
    let a = if char_is(s, q, '-') { q + 1 } else { q };
    if digit_at(s, a) {
        lemma_digits_end(s, a + 1);
        let b = if s[a] == '0' { a + 1 } else { digits_end(s, a + 1) };
        if char_is(s, b, '.') {
            lemma_digits_end(s, b + 1);
        }
        let c = if char_is(s, b, '.') { digits_end(s, b + 1) } else { b };
        if char_is(s, c + 1, '+') || char_is(s, c + 1, '-') {
            lemma_digits_end(s, c + 2);
        }
    }
}

/// Every token but the end marker consumes input and stays inside it; the
/// end marker stays where it is.
pub proof fn lemma_lex_progress(s: Seq<char>, p: int)
    requires
        0 <= p <= s.len(),
    ensures
        lex_at(s, p).0.kind != TokenType::EOF ==> p < lex_at(s, p).1 <= s.len(),
        lex_at(s, p).0.kind == TokenType::EOF ==> lex_at(s, p).1 == skip_space(s, p)
            && lex_at(s, lex_at(s, p).1) == lex_at(s, p),
        p <= lex_at(s, p).1 <= s.len(),
{
    lemma_skip_space(s, p);
    let q = skip_space(s, p);
    if q < s.len() {
        let c = s[q];
        if c == '"' {
            lemma_string_end(s, q + 1);
        } else if punct_kind(c) is Some {
        } else if is_letter_char(c) {
            lemma_word_end(s, q + 1);
        } else if is_digit_char(c) || c == '-' {
            lemma_number_end(s, q);
        }
    }
}

/// The token list always ends with the end marker, which appears nowhere else.
pub proof fn lemma_tokens_end(s: Seq<char>, p: int)
    requires
        0 <= p <= s.len(),
    ensures
        tokens_from(s, p).len() >= 1,
        tokens_from(s, p).last().kind == TokenType::EOF,
        forall|i: int| 0 <= i < tokens_from(s, p).len() - 1
            ==> (#[trigger] tokens_from(s, p)[i]).kind != TokenType::EOF,
    decreases s.len() - p,
{
    lemma_lex_progress(s, p);
    let (t, e) = lex_at(s, p);
    if t.kind != TokenType::EOF {
        lemma_tokens_end(s, e);
        let r = tokens_from(s, e);
        assert forall|i: int| 0 <= i < tokens_from(s, p).len() - 1
            implies (#[trigger] tokens_from(s, p)[i]).kind != TokenType::EOF by {
            if i > 0 {
                assert(tokens_from(s, p)[i] == r[i - 1]);
            }
        }
    }
}

/// Lines and columns stay within the number of characters read.
pub proof fn lemma_loc_bound(s: Seq<char>, p: int)
    requires
        0 <= p <= s.len(),
        s.len() < usize::MAX,
    ensures
        1 <= loc_at(s, p).line <= p + 1,
        1 <= loc_at(s, p).column <= p + 1,
    decreases p,
{
    if p > 0 {
        lemma_loc_bound(s, p - 1);
    }
}

pub open spec fn all_digits(d: Seq<char>) -> bool {
    forall|i: int| 0 <= i < d.len() ==> is_digit_char(#[trigger] d[i])
}

/// The parts of a number literal: an optional minus, an integer part that
/// is `0` or starts with a nonzero digit, an optional fraction (`.` and
/// digits), and an optional exponent (`e` or `E`, a sign, and digits).
pub open spec fn number_parts(
    sign: Seq<char>,
    int_part: Seq<char>,
    frac: Seq<char>,
    exp: Seq<char>,
) -> bool {
    &&& (sign == Seq::<char>::empty() || sign == seq!['-'])
    &&& (int_part == seq!['0'] || (int_part.len() > 0 && int_part[0] != '0' && all_digits(
        int_part,
    )))
    &&& (frac.len() == 0 || (frac[0] == '.' && all_digits(frac.drop_first())))
    &&& (exp.len() == 0 || (exp.len() >= 2 && (exp[0] == 'e' || exp[0] == 'E') && (exp[1] == '+'
        || exp[1] == '-') && all_digits(exp.subrange(2, exp.len() as int))))
}

proof fn lemma_digits_run(s: Seq<char>, i: int, j: int)
    requires
        0 <= i <= j <= s.len(),
        forall|m: int| i <= m < j ==> is_digit_char(#[trigger] s[m]),
        j == s.len() || !is_digit_char(s[j]),
    ensures
        digits_end(s, i) == j,
    decreases j - i,
{
    if i < j {
        lemma_digits_run(s, i + 1, j);
    }
}

/// A number literal at the start of the input, followed by nothing or by a
/// delimiter, comes back as the text of one number token.
pub proof fn lemma_number_round_trip(
    sign: Seq<char>,
    int_part: Seq<char>,
    frac: Seq<char>,
    exp: Seq<char>,
    rest: Seq<char>,
)
    requires
        number_parts(sign, int_part, frac, exp),
        rest.len() == 0 || is_delimiter(rest[0]),
    ensures
        ({
            let x = sign + int_part + frac + exp;
            lex_at(x + rest, 0) == (
                mk_tok(Location { line: 1, column: 1 }, TokenType::Number, Some(x)),
                x.len() as int,
            )
        }),
{
    let x = sign + int_part + frac + exp;
    let s = x + rest;
    let a = sign.len() as int;
    let b = a + int_part.len();
    let c = b + frac.len();
    let e = c + exp.len();
    assert(x.len() == e);
    assert forall|m: int| 0 <= m < a implies s[m] == sign[m] by {
        assert(x[m] == (sign + int_part + frac)[m]);
    }
    assert forall|m: int| a <= m < b implies s[m] == int_part[m - a] by {
        assert(x[m] == (sign + int_part + frac)[m]);
        assert((sign + int_part + frac)[m] == (sign + int_part)[m]);
    }
    assert forall|m: int| b <= m < c implies s[m] == frac[m - b] by {
        assert(x[m] == (sign + int_part + frac)[m]);
    }
    assert forall|m: int| c <= m < e implies s[m] == exp[m - c] by {}
    assert forall|m: int| e <= m < s.len() implies s[m] == rest[m - e] by {}
    assert(s.len() == e + rest.len());
    assert(skip_space(s, 0) == 0) by {
        if a == 1 {
            assert(s[0] == '-');
        } else {
            assert(s[0] == int_part[0]);
        }
    }
    assert(is_digit_char(int_part[0])) by {
        if int_part != seq!['0'] {
        }
    }
    assert(digit_at(s, a)) by {
        assert(s[a] == int_part[0]);
    }
    if exp.len() > 0 {
        assert forall|m: int| c + 2 <= m < e implies is_digit_char(#[trigger] s[m]) by {
            assert(s[m] == exp.subrange(2, exp.len() as int)[m - c - 2]);
        }
        lemma_digits_run(s, c + 2, e);
        assert(s[c] == exp[0]);
        assert(s[c + 1] == exp[1]);
    }
    if frac.len() > 0 {
        assert forall|m: int| b + 1 <= m < c implies is_digit_char(#[trigger] s[m]) by {
            assert(s[m] == frac.drop_first()[m - b - 1]);
        }
        if exp.len() > 0 {
            assert(s[c] == exp[0]);
        } else if rest.len() > 0 {
            assert(s[c] == rest[0]);
        }
        lemma_digits_run(s, b + 1, c);
        assert(s[b] == frac[0]);
    }
    assert(b == s.len() || !is_digit_char(s[b]) && s[b] != '.' || (frac.len() > 0 && s[b] == '.'))
        by {
        if frac.len() > 0 {
            assert(s[b] == frac[0]);
        } else if exp.len() > 0 {
            assert(s[b] == exp[0]);
        } else if rest.len() > 0 {
            assert(s[b] == rest[0]);
        }
    }
    assert(c == s.len() || (exp.len() > 0 && (s[c] == 'e' || s[c] == 'E')) || (exp.len() == 0
        && s[c] != 'e' && s[c] != 'E')) by {
        if exp.len() > 0 {
            assert(s[c] == exp[0]);
        } else if rest.len() > 0 {
            assert(s[c] == rest[0]);
        }
    }
    if int_part == seq!['0'] {
        assert(s[a] == '0');
    } else {
        assert(s[a] != '0') by {
            assert(s[a] == int_part[0]);
        }
        assert forall|m: int| a + 1 <= m < b implies is_digit_char(#[trigger] s[m]) by {
            assert(s[m] == int_part[m - a]);
        }
        lemma_digits_run(s, a + 1, b);
    }
    if exp.len() == 0 {
        assert(e == c);
    }
    assert(number_end(s, 0) == e);
    assert(s.subrange(0, e) =~= x);
}

/// A character that starts no token (not whitespace, a quote, a structural
/// character, a letter, a digit or a minus) is read as an illegal token of
/// its own.
pub proof fn lemma_illegal_character(s: Seq<char>, p: int)
    requires
        0 <= p < s.len(),
        !is_space(s[p]),
        s[p] != '"',
        punct_kind(s[p]) is None,
        !is_letter_char(s[p]),
        !is_digit_char(s[p]),
        s[p] != '-',
    ensures
        lex_at(s, p) == (mk_tok(loc_at(s, p), TokenType::ILLEGAL, None), p + 1),
{
}

/// The characters of `s`, in order.
fn chars_of(s: &str) -> (r: Vec<char>)
    ensures
        r@ == s@,
{
    let mut it = s.chars();
    let mut v: Vec<char> = Vec::new();
    loop
        invariant
            it.obeys_prophetic_iter_laws(),
            v@ + it.remaining() == s@,
            it.decrease() is Some,
        decreases it.decrease()->0,
    {
        let ghost before = it.remaining();
        match it.next() {
            Some(c) => {
                v.push(c);
                assert(v@ + it.remaining() =~= s@) by {
                    assert(before == seq![c] + it.remaining());
                }
            },
            None => {
                assert(v@ =~= s@);
                return v;
            },
        }
    }
}

/// Relies on String::push: appends one character.
#[verifier::external_body]
pub(crate) fn push_char(s: &mut String, c: char)
    ensures
        final(s)@ == old(s)@.push(c),
{
    s.push(c)
}

fn is_space_char(c: char) -> (r: bool)
    ensures
        r == is_space(c),
{
    c == ' ' || c == '\t' || c == '\n' || c == '\r'
}

fn is_letter(c: char) -> (r: bool)
    ensures
        r == is_letter_char(c),
{
    ('a' <= c && c <= 'z') || ('A' <= c && c <= 'Z') || c == '_'
}

fn is_digit(c: char) -> (r: bool)
    ensures
        r == is_digit_char(c),
{
    '0' <= c && c <= '9'
}

/// The kind of the single-character structural token `c`, if it is one.
pub fn punct(c: char) -> (r: Option<TokenType>)
    ensures
        r == punct_kind(c),
{
    if c == '{' {
        Some(TokenType::LeftBrace)
    } else if c == '}' {
        Some(TokenType::RightBrace)
    } else if c == '[' {
        Some(TokenType::LeftBracket)
    } else if c == ']' {
        Some(TokenType::RightBracket)
    } else if c == ':' {
        Some(TokenType::Colon)
    } else if c == ',' {
        Some(TokenType::Comma)
    } else {
        None
    }
}

/// Turns source text into tokens, one per call to `next_token`.
#[derive(Debug)]
pub struct Lexer {
    source: Vec<char>,
    pos: usize,
    location: Location,
}

impl Lexer {
    /// The characters being read.
    pub closed spec fn text(&self) -> Seq<char> {
        self.source@
    }

    /// The position of the next unread character.
    pub closed spec fn position(&self) -> int {
        self.pos as int
    }

    pub closed spec fn wf(&self) -> bool {
        &&& self.pos <= self.source.len()
        &&& self.source.len() < usize::MAX
        &&& self.location == loc_at(self.source@, self.pos as int)
    }

    pub proof fn lemma_wf(&self)
        requires
            self.wf(),
        ensures
            0 <= self.position() <= self.text().len(),
    {
    }

    pub fn new(source: &str) -> (r: Lexer)
        requires
            source@.len() < usize::MAX,
        ensures
            r.wf(),
            r.text() == source@,
            r.position() == 0,
    {
        Lexer { source: chars_of(source), pos: 0, location: Location::new(1, 1) }
    }

    fn new_token(&self, location: Location, token_type: TokenType) -> (r: Token)
        ensures
            r@ == mk_tok(location, token_type, None),
    {
        Token { location, token_type, value: None }
    }

    fn new_literal(&self, location: Location, token_type: TokenType, value: String) -> (r: Token)
        ensures
            r@ == mk_tok(location, token_type, Some(value@)),
    {
        Token { location, token_type, value: Some(value) }
    }

    /// Consumes one character, moving the location past it.
    fn advance(&mut self)
        requires
            old(self).wf(),
            old(self).pos < old(self).source.len(),
        ensures
            final(self).wf(),
            final(self).source == old(self).source,
            final(self).pos == old(self).pos + 1,
    {
        proof {
            lemma_loc_bound(self.source@, self.pos as int);
        }
        let c = self.source[self.pos];
        if c == '\n' {
            if !(self.pos >= 1 && self.source[self.pos - 1] == '\r') {
                self.location.next_line();
            }
        } else if c == '\r' {
            self.location.next_line();
        } else {
            self.location.next_column();
        }
        self.pos = self.pos + 1;
    }

    /// Appends the current character to `value` and consumes it.
    fn take(&mut self, value: &mut String)
        requires
            old(self).wf(),
            old(self).pos < old(self).source.len(),
        ensures
            final(self).wf(),
            final(self).source == old(self).source,
            final(self).pos == old(self).pos + 1,
            final(value)@ == old(value)@.push(old(self).source@[old(self).pos as int]),
    {
        push_char(value, self.source[self.pos]);
        self.advance();
    }

    fn ignore_space(&mut self)
        requires
            old(self).wf(),
        ensures
            final(self).wf(),
            final(self).source == old(self).source,
            final(self).pos == skip_space(old(self).source@, old(self).pos as int),
    {
        while self.pos < self.source.len() && is_space_char(self.source[self.pos])
            invariant
                self.wf(),
                self.source == old(self).source,
                skip_space(self.source@, self.pos as int) == skip_space(
                    old(self).source@,
                    old(self).pos as int,
                ),
            decreases self.source.len() - self.pos,
        {
            self.advance();
        }
    }

    /// Takes the digits from the current position on into `value`.
    fn digits(&mut self, value: &mut String)
        requires
            old(self).wf(),
            old(value)@ == old(self).source@.subrange(
                old(self).pos as int - old(value)@.len(),
                old(self).pos as int,
            ),
            old(value)@.len() <= old(self).pos,
        ensures
            final(self).wf(),
            final(self).source == old(self).source,
            final(self).pos == digits_end(old(self).source@, old(self).pos as int),
            old(self).pos <= final(self).pos,
            final(value)@ == final(self).source@.subrange(
                old(self).pos as int - old(value)@.len(),
                final(self).pos as int,
            ),
    {
        let ghost start = self.pos as int - value@.len();
        while self.pos < self.source.len() && is_digit(self.source[self.pos])
            invariant
                self.wf(),
                self.source == old(self).source,
                start <= self.pos,
                old(self).pos <= self.pos,
                0 <= start,
                value@ == self.source@.subrange(start, self.pos as int),
                digits_end(self.source@, self.pos as int) == digits_end(
                    old(self).source@,
                    old(self).pos as int,
                ),
            decreases self.source.len() - self.pos,
        {
            self.take(value);
            assert(value@ =~= self.source@.subrange(start, self.pos as int));
        }
    }

    /// Reads a string literal; the current character is its opening quote.
    fn string(&mut self, location: Location) -> (r: Token)
        requires
            old(self).wf(),
            old(self).pos < old(self).source.len(),
            old(self).source@[old(self).pos as int] == '"',
        ensures
            final(self).wf(),
            final(self).source == old(self).source,
            ({
                let s = old(self).source@;
                let q = old(self).pos as int;
                let j = string_end(s, q + 1);
                if j < s.len() {
                    r@ == mk_tok(location, TokenType::String, Some(s.subrange(q + 1, j)))
                        && final(self).pos == j + 1
                } else {
                    r@ == mk_tok(location, TokenType::ILLEGAL, None) && final(self).pos == s.len()
                }
            }),
    {
        let ghost q = self.pos as int;
        self.advance();
        let mut value = String::new();
        loop
            invariant
                self.wf(),
                self.source == old(self).source,
                q == old(self).pos,
                q + 1 <= self.pos,
                value@ == self.source@.subrange(q + 1, self.pos as int),
                string_end(self.source@, self.pos as int) == string_end(self.source@, q + 1),
            decreases self.source.len() - self.pos,
        {
            if self.pos >= self.source.len() {
                return self.new_token(location, TokenType::ILLEGAL);
            }
            let c = self.source[self.pos];
            if c == '"' {
                self.advance();
                return self.new_literal(location, TokenType::String, value);
            }
            if c == '\\' {
                self.take(&mut value);
                if self.pos < self.source.len() {
                    self.take(&mut value);
                }
            } else {
                self.take(&mut value);
            }
            assert(value@ =~= self.source@.subrange(q + 1, self.pos as int));
        }
    }

    /// Reads a bareword; the current character is a letter.
    fn ident(&mut self, location: Location) -> (r: Token)
        requires
            old(self).wf(),
            old(self).pos < old(self).source.len(),
        ensures
            final(self).wf(),
            final(self).source == old(self).source,
            ({
                let s = old(self).source@;
                let q = old(self).pos as int;
                let e = word_end(s, q + 1);
                r@ == mk_tok(location, keyword_kind(s.subrange(q, e)), Some(s.subrange(q, e)))
                    && final(self).pos == e
            }),
    {
        let ghost q = self.pos as int;
        let mut name = String::new();
        self.take(&mut name);
        while self.pos < self.source.len() && !is_delimiter_char(self.source[self.pos])
            invariant
                self.wf(),
                self.source == old(self).source,
                0 <= q,
                q + 1 <= self.pos,
                name@ == self.source@.subrange(q, self.pos as int),
                word_end(self.source@, self.pos as int) == word_end(self.source@, q + 1),
            decreases self.source.len() - self.pos,
        {
            self.take(&mut name);
            assert(name@ =~= self.source@.subrange(q, self.pos as int));
        }
        assert(name@ =~= self.source@.subrange(q, self.pos as int));
        let token_type = TokenType::lookup_ident(name.as_str());
        self.new_literal(location, token_type, name)
    }

    /// Reads the longest prefix of the number grammar at the current position.
    fn number(&mut self, location: Location) -> (r: Token)
        requires
            old(self).wf(),
            old(self).pos < old(self).source.len(),
        ensures
            final(self).wf(),
            final(self).source == old(self).source,
            ({
                let s = old(self).source@;
                let q = old(self).pos as int;
                let e = number_end(s, q);
                r@ == mk_tok(location, TokenType::Number, Some(s.subrange(q, e)))
                    && final(self).pos == e
            }),
    {
        let ghost s = self.source@;
        let ghost q = self.pos as int;
        let mut value = String::new();
        if self.source[self.pos] == '-' {
            self.take(&mut value);
        }
        assert(value@ =~= s.subrange(q, self.pos as int));
        let a = self.pos;
        if !(self.pos < self.source.len() && is_digit(self.source[self.pos])) {
            return self.new_literal(location, TokenType::Number, value);
        }
        let z = self.source[self.pos] == '0';
        self.take(&mut value);
        assert(value@ =~= s.subrange(q, self.pos as int));
        if z {
            if self.pos < self.source.len() && is_digit(self.source[self.pos]) {
                return self.new_literal(location, TokenType::Number, value);
            }
        } else {
            self.digits(&mut value);
        }
        assert(value@ =~= s.subrange(q, self.pos as int));
        if self.pos < self.source.len() && self.source[self.pos] == '.' {
            self.take(&mut value);
            assert(value@ =~= s.subrange(q, self.pos as int));
            self.digits(&mut value);
            assert(value@ =~= s.subrange(q, self.pos as int));
        }
        if self.pos < self.source.len() && (self.source[self.pos] == 'e' || self.source[self.pos]
            == 'E') {
            self.take(&mut value);
            assert(value@ =~= s.subrange(q, self.pos as int));
            if self.pos < self.source.len() && (self.source[self.pos] == '+'
                || self.source[self.pos] == '-') {
                self.take(&mut value);
                assert(value@ =~= s.subrange(q, self.pos as int));
                self.digits(&mut value);
            assert(value@ =~= s.subrange(q, self.pos as int));
            }
        }
        self.new_literal(location, TokenType::Number, value)
    }

    /// Returns the next token and moves past it; at the end of the input it
    /// returns the end marker, again on every further call.
    pub fn next_token(&mut self) -> (r: Token)
        requires
            old(self).wf(),
        ensures
            final(self).wf(),
            final(self).text() == old(self).text(),
            (r@, final(self).position()) == lex_at(old(self).text(), old(self).position()),
    {
        self.ignore_space();
        proof {
            lemma_skip_space(self.source@, old(self).pos as int);
        }
        let location = self.location;
        if self.pos >= self.source.len() {
            return self.new_token(location, TokenType::EOF);
        }
        let c = self.source[self.pos];
        if c == '"' {
            self.string(location)
        } else if let Some(k) = punct(c) {
            self.advance();
            self.new_token(location, k)
        } else if is_letter(c) {
            self.ident(location)
        } else if is_digit(c) || c == '-' {
            self.number(location)
        } else {
            self.advance();
            self.new_token(location, TokenType::ILLEGAL)
        }
    }
}

fn is_delimiter_char(c: char) -> (r: bool)
    ensures
        r == is_delimiter(c),
{
    c == ',' || c == ';' || c == ':' || c == ']' || c == '}' || is_space_char(c)
}

} // verus!
