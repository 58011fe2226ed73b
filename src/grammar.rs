use vstd::prelude::*;
use crate::error::{unexpected, Diag};
use crate::lexer::{
    is_digit_char, is_letter_char, is_space, lemma_illegal_character, lemma_tokens_end, lex_at,
    punct_kind, tokens_of,
};
use crate::parser::{
    after_item, is_text_kind, number_complete, parse_document, parse_elements, parse_members,
    parse_value_at, text_of, tok, Parsed,
};
use crate::token::{TokenType, TokenView};
use crate::value::JsonValue;

verus! {

/// A well-formed value that starts at token `k`: where it ends and the value
/// it denotes. Strings and barewords denote their text, complete number
/// literals their text as written, keywords themselves, and objects and
/// arrays their well-formed parts, separated by commas (a trailing comma is
/// allowed).
pub open spec fn wf_value(ts: Seq<TokenView>, k: int) -> Option<(int, JsonValue)>
    decreases ts.len() - k, 0int,
{
    if k < 0 || k >= ts.len() {
        None
    } else {
        let t = ts[k];
        if is_text_kind(t.kind) {
            Some((k + 1, JsonValue::Str(text_of(t))))
        } else if t.kind == TokenType::True {
            Some((k + 1, JsonValue::Bool(true)))
        } else if t.kind == TokenType::False {
            Some((k + 1, JsonValue::Bool(false)))
        } else if t.kind == TokenType::Null {
            Some((k + 1, JsonValue::Null))
        } else if t.kind == TokenType::Number {
            if number_complete(text_of(t)) {
                Some((k + 1, JsonValue::Num(text_of(t))))
            } else {
                None
            }
        } else if t.kind == TokenType::LeftBrace {
            match wf_members(ts, k + 1) {
                Some((e, ps)) => Some((e, JsonValue::Obj(ps))),
                None => None,
            }
        } else if t.kind == TokenType::LeftBracket {
            match wf_elements(ts, k + 1) {
                Some((e, items)) => Some((e, JsonValue::Arr(items))),
                None => None,
            }
        } else {
            None
        }
    }
}

/// The well-formed members of an object that start at token `k`: where they
/// end (after the closing brace) and the key/value pairs, in source order.
pub open spec fn wf_members(ts: Seq<TokenView>, k: int) -> Option<
    (int, Seq<(Seq<char>, JsonValue)>),
>
    decreases ts.len() - k, 1int,
{
    let t = tok(ts, k);
    if k < 0 || k >= ts.len() {
        None
    } else if t.kind == TokenType::RightBrace {
        Some((k + 1, Seq::empty()))
    } else if !is_text_kind(t.kind) || tok(ts, k + 1).kind != TokenType::Colon || k + 2
        > ts.len() {
        None
    } else {
        match wf_value(ts, k + 2) {
            None => None,
            Some((n, v)) => {
                let sep = tok(ts, n).kind;
                let n2 = if sep == TokenType::Comma { n + 1 } else { n };
                if (sep == TokenType::Comma || sep == TokenType::RightBrace) && k < n2 <= ts.len() {
                    match wf_members(ts, n2) {
                        Some((e, ps)) => Some((e, seq![(text_of(t), v)] + ps)),
                        None => None,
                    }
                } else {
                    None
                }
            },
        }
    }
}

/// The well-formed elements of an array that start at token `k`: where they
/// end (after the closing bracket) and the values, in source order.
pub open spec fn wf_elements(ts: Seq<TokenView>, k: int) -> Option<(int, Seq<JsonValue>)>
    decreases ts.len() - k, 1int,
{
    if k < 0 || k >= ts.len() {
        None
    } else if tok(ts, k).kind == TokenType::RightBracket {
        Some((k + 1, Seq::empty()))
    } else {
        match wf_value(ts, k) {
            None => None,
            Some((n, v)) => {
                let sep = tok(ts, n).kind;
                let n2 = if sep == TokenType::Comma { n + 1 } else { n };
                if (sep == TokenType::Comma || sep == TokenType::RightBracket) && k < n2
                    <= ts.len() {
                    match wf_elements(ts, n2) {
                        Some((e, items)) => Some((e, seq![v] + items)),
                        None => None,
                    }
                } else {
                    None
                }
            },
        }
    }
}

/// Where the well-formed value at token `k` ends.
pub open spec fn wf_end(ts: Seq<TokenView>, k: int) -> int {
    (wf_value(ts, k)->0).0
}

/// The value that the well-formed value at token `k` denotes.
pub open spec fn denoted(ts: Seq<TokenView>, k: int) -> JsonValue {
    (wf_value(ts, k)->0).1
}

/// A well-formed document: one well-formed value and nothing after it.
pub open spec fn wf_document(ts: Seq<TokenView>) -> bool {
    wf_value(ts, 0) is Some && tok(ts, wf_end(ts, 0)).kind == TokenType::EOF
}

/// A value tree holds no error placeholder.
pub open spec fn error_free(v: JsonValue) -> bool
    decreases v,
{
    match v {
        JsonValue::Error(_) => false,
        JsonValue::Arr(items) => forall|i: int|
            0 <= i < items.len() ==> error_free(#[trigger] items[i]),
        JsonValue::Obj(ps) => forall|i: int| 0 <= i < ps.len() ==> error_free(#[trigger] ps[i].1),
        _ => true,
    }
}

/// The keys of an association list, in order.
pub open spec fn keys_of(ps: Seq<(Seq<char>, JsonValue)>) -> Seq<Seq<char>> {
    ps.map_values(|p: (Seq<char>, JsonValue)| p.0)
}

proof fn lemma_value_clean(ts: Seq<TokenView>, k: int)
    requires
        wf_value(ts, k) is Some,
    ensures
        parse_value_at(ts, k) == (Parsed {
            value: denoted(ts, k),
            next: wf_end(ts, k),
            diags: Seq::<Diag>::empty(),
        }),
        error_free(denoted(ts, k)),
    decreases ts.len() - k, 0int,
{
    let t = ts[k];
    if t.kind == TokenType::LeftBrace {
        lemma_members_clean(ts, k + 1, Seq::empty(), Seq::empty());
        assert(Seq::<(Seq<char>, JsonValue)>::empty() + (wf_members(ts, k + 1)->0).1 =~= (
        wf_members(ts, k + 1)->0).1);
    } else if t.kind == TokenType::LeftBracket {
        lemma_elements_clean(ts, k + 1, Seq::empty(), Seq::empty());
        assert(Seq::<JsonValue>::empty() + (wf_elements(ts, k + 1)->0).1 =~= (wf_elements(
            ts,
            k + 1,
        )->0).1);
    }
}

proof fn lemma_members_clean(
    ts: Seq<TokenView>,
    k: int,
    pairs: Seq<(Seq<char>, JsonValue)>,
    diags: Seq<Diag>,
)
    requires
        wf_members(ts, k) is Some,
        forall|i: int| 0 <= i < pairs.len() ==> error_free(#[trigger] pairs[i].1),
    ensures
        parse_members(ts, k, pairs, diags) == (Parsed {
            value: JsonValue::Obj(pairs + (wf_members(ts, k)->0).1),
            next: (wf_members(ts, k)->0).0,
            diags,
        }),
        forall|i: int|
            0 <= i < (pairs + (wf_members(ts, k)->0).1).len() ==> error_free(
                #[trigger] (pairs + (wf_members(ts, k)->0).1)[i].1,
            ),
    decreases ts.len() - k, 1int,
{
    let t = tok(ts, k);
    if t.kind == TokenType::RightBrace {
        assert(pairs + Seq::<(Seq<char>, JsonValue)>::empty() =~= pairs);
    } else {
        lemma_value_clean(ts, k + 2);
        let r = parse_value_at(ts, k + 2);
        let pairs2 = pairs.push((text_of(t), r.value));
        let (n, extra) = after_item(ts, r.next, TokenType::RightBrace);
        assert(diags + r.diags + extra =~= diags);
        assert forall|i: int| 0 <= i < pairs2.len() implies error_free(#[trigger] pairs2[i].1) by {
            if i < pairs.len() {
                assert(pairs2[i] == pairs[i]);
            }
        }
        lemma_members_clean(ts, n, pairs2, diags);
        assert(pairs2 + (wf_members(ts, n)->0).1 =~= pairs + (seq![(text_of(t), r.value)] + (
        wf_members(ts, n)->0).1));
    }
}

proof fn lemma_elements_clean(ts: Seq<TokenView>, k: int, items: Seq<JsonValue>, diags: Seq<Diag>)
    requires
        wf_elements(ts, k) is Some,
        forall|i: int| 0 <= i < items.len() ==> error_free(#[trigger] items[i]),
    ensures
        parse_elements(ts, k, items, diags) == (Parsed {
            value: JsonValue::Arr(items + (wf_elements(ts, k)->0).1),
            next: (wf_elements(ts, k)->0).0,
            diags,
        }),
        forall|i: int|
            0 <= i < (items + (wf_elements(ts, k)->0).1).len() ==> error_free(
                #[trigger] (items + (wf_elements(ts, k)->0).1)[i],
            ),
    decreases ts.len() - k, 1int,
{
    if tok(ts, k).kind == TokenType::RightBracket {
        assert(items + Seq::<JsonValue>::empty() =~= items);
    } else {
        lemma_value_clean(ts, k);
        let r = parse_value_at(ts, k);
        let (n, extra) = after_item(ts, r.next, TokenType::RightBracket);
        assert(diags + r.diags + extra =~= diags);
        let items2 = items.push(r.value);
        assert forall|i: int| 0 <= i < items2.len() implies error_free(#[trigger] items2[i]) by {
            if i < items.len() {
                assert(items2[i] == items[i]);
            }
        }
        lemma_elements_clean(ts, n, items2, diags);
        assert(items2 + (wf_elements(ts, n)->0).1 =~= items + (seq![r.value] + (wf_elements(
            ts,
            n,
        )->0).1));
    }
}

/// A well-formed document is read without any diagnostic, into the value it
/// denotes, which holds no error placeholder.
pub proof fn lemma_well_formed_reads_clean(source: Seq<char>)
    requires
        wf_document(tokens_of(source)),
    ensures
        parse_document(tokens_of(source), 0).1 == Seq::<Diag>::empty(),
        parse_document(tokens_of(source), 0).0 == denoted(tokens_of(source), 0),
        error_free(parse_document(tokens_of(source), 0).0),
{
    lemma_value_clean(tokens_of(source), 0);
}

/// Reading a well-formed object yields exactly its members in source order:
/// each key with the value it denotes, duplicates included, none merged or
/// dropped.
pub proof fn lemma_object_keys_in_order(ts: Seq<TokenView>, k: int)
    requires
        wf_value(ts, k) is Some,
        tok(ts, k).kind == TokenType::LeftBrace,
    ensures
        parse_value_at(ts, k).value == JsonValue::Obj((wf_members(ts, k + 1)->0).1),
        keys_of(parse_value_at(ts, k).value->Obj_0) == keys_of((wf_members(ts, k + 1)->0).1),
        parse_value_at(ts, k).diags == Seq::<Diag>::empty(),
{
    lemma_value_clean(ts, k);
}

/// After a complete top-level value, trailing content is reported by
/// exactly one unexpected-token diagnostic, and the value it denotes is
/// still returned.
pub proof fn lemma_trailing_content_reported_once(source: Seq<char>)
    requires
        wf_value(tokens_of(source), 0) is Some,
        tok(tokens_of(source), wf_end(tokens_of(source), 0)).kind != TokenType::EOF,
    ensures
        parse_document(tokens_of(source), 0).0 == denoted(tokens_of(source), 0),
        parse_document(tokens_of(source), 0).1 == seq![
            unexpected(tok(tokens_of(source), wf_end(tokens_of(source), 0))),
        ],
{
    let ts = tokens_of(source);
    lemma_value_clean(ts, 0);
    assert(Seq::<Diag>::empty().push(unexpected(tok(ts, wf_end(ts, 0)))) =~= seq![
        unexpected(tok(ts, wf_end(ts, 0))),
    ]);
}

/// A reader that meets an illegal token where a value belongs records it as
/// unexpected, puts a null in its place and moves past it.
pub proof fn lemma_illegal_token_reported(ts: Seq<TokenView>, k: int)
    requires
        0 <= k < ts.len(),
        ts[k].kind == TokenType::ILLEGAL,
    ensures
        parse_value_at(ts, k) == (Parsed {
            value: JsonValue::Null,
            next: k + 1,
            diags: seq![unexpected(ts[k])],
        }),
{
}

/// A document that starts with a character that begins no token (a control
/// character, say) yields an illegal token, which is reported.
pub proof fn lemma_illegal_start_reported(source: Seq<char>)
    requires
        source.len() > 0,
        !is_space(source[0]),
        source[0] != '"',
        punct_kind(source[0]) is None,
        !is_letter_char(source[0]),
        !is_digit_char(source[0]),
        source[0] != '-',
    ensures
        tokens_of(source)[0].kind == TokenType::ILLEGAL,
        parse_value_at(tokens_of(source), 0).diags == seq![unexpected(tokens_of(source)[0])],
{
    lemma_illegal_character(source, 0);
    lemma_tokens_end(source, 0);
    assert(tokens_of(source)[0] == lex_at(source, 0).0);
    lemma_illegal_token_reported(tokens_of(source), 0);
}

} // verus!
