use vstd::prelude::*;
use crate::lexer::push_char;

verus! {

/// A parsed JSON value as a mathematical tree.
pub enum JsonValue {
    Str(Seq<char>),
    Num(Seq<char>),
    Bool(bool),
    Obj(Seq<(Seq<char>, JsonValue)>),
    Arr(Seq<JsonValue>),
    Null,
    Error(Seq<char>),
}

/// A node of the value tree. An object is an association list: keys keep
/// their source order and duplicates are kept.
#[derive(Debug, PartialEq, Eq, Hash)]
pub enum Value {
    String(String),
    /// A number, kept exactly as written: sign, integer part, fraction and
    /// exponent.
    Number(String),
    Boolean(bool),
    Object(Vec<(String, Box<Value>)>),
    Array(Vec<Value>),
    Null,
    Error(String),
}

impl Value {
    pub open spec fn view(&self) -> JsonValue
        decreases self,
    {
        match self {
            Value::String(s) => JsonValue::Str(s@),
            Value::Number(n) => JsonValue::Num(n@),
            Value::Boolean(b) => JsonValue::Bool(*b),
            Value::Object(o) => JsonValue::Obj(
                Seq::new(
                    o.len() as nat,
                    |i: int|
                        if 0 <= i < o.len() {
                            (o[i].0@, o[i].1.view())
                        } else {
                            (Seq::empty(), JsonValue::Null)
                        },
                ),
            ),
            Value::Array(a) => JsonValue::Arr(
                Seq::new(
                    a.len() as nat,
                    |i: int|
                        if 0 <= i < a.len() {
                            a[i].view()
                        } else {
                            JsonValue::Null
                        },
                ),
            ),
            Value::Null => JsonValue::Null,
            Value::Error(e) => JsonValue::Error(e@),
        }
    }
}

/// A value as text: strings, numbers and error texts as they are (no
/// escaping), arrays and objects with their parts separated by
/// commas and keys followed by a colon.
pub open spec fn render(v: JsonValue) -> Seq<char>
    decreases v, 0int,
{
    match v {
        JsonValue::Str(s) => s,
        JsonValue::Num(n) => n,
        JsonValue::Bool(b) => if b {
            "true"@
        } else {
            "false"@
        },
        JsonValue::Null => "null"@,
        JsonValue::Error(e) => e,
        JsonValue::Arr(items) => seq!['['] + render_items(items, items.len() as int) + seq![']'],
        JsonValue::Obj(ps) => seq!['{'] + render_members(ps, ps.len() as int) + seq!['}'],
    }
}

/// The first `n` items, rendered and separated by commas.
pub open spec fn render_items(items: Seq<JsonValue>, n: int) -> Seq<char>
    decreases items, n,
{
    if n <= 0 || n > items.len() {
        Seq::empty()
    } else if n == 1 {
        render(items[0])
    } else {
        render_items(items, n - 1) + seq![','] + render(items[n - 1])
    }
}

/// The first `n` members, each as key, colon and value, separated by commas.
pub open spec fn render_members(ps: Seq<(Seq<char>, JsonValue)>, n: int) -> Seq<char>
    decreases ps, n,
{
    if n <= 0 || n > ps.len() {
        Seq::empty()
    } else if n == 1 {
        ps[0].0 + seq![':'] + render(ps[0].1)
    } else {
        render_members(ps, n - 1) + seq![','] + ps[n - 1].0 + seq![':'] + render(ps[n - 1].1)
    }
}

impl Value {
    /// This value as text.
    pub fn to_text(&self) -> (r: String)
        ensures
            r@ == render(self.view()),
        decreases self,
    {
        match self {
            Value::String(s) => s.clone(),
            Value::Number(n) => n.clone(),
            Value::Boolean(b) => if *b {
                "true".to_owned()
            } else {
                "false".to_owned()
            },
            Value::Null => "null".to_owned(),
            Value::Error(e) => e.clone(),
            Value::Array(a) => {
                let ghost items = self.view()->Arr_0;
                let mut out = String::new();
                push_char(&mut out, '[');
                let mut i: usize = 0;
                while i < a.len()
                    invariant
                        i <= a.len(),
                        *self == Value::Array(*a),
                        items == self.view()->Arr_0,
                        items.len() == a.len(),
                        forall|j: int| 0 <= j < a.len() ==> items[j] == (#[trigger] a[j]).view(),
                        out@ == seq!['['] + render_items(items, i as int),
                    decreases a.len() - i,
                {
                    if i > 0 {
                        push_char(&mut out, ',');
                    }
                    let t = a[i].to_text();
                    out.append(t.as_str());
                    i = i + 1;
                    assert(out@ =~= seq!['['] + render_items(items, i as int));
                }
                push_char(&mut out, ']');
                out
            },
            Value::Object(o) => {
                let ghost ps = self.view()->Obj_0;
                let mut out = String::new();
                push_char(&mut out, '{');
                let mut i: usize = 0;
                while i < o.len()
                    invariant
                        i <= o.len(),
                        *self == Value::Object(*o),
                        ps == self.view()->Obj_0,
                        ps.len() == o.len(),
                        forall|j: int|
                            0 <= j < o.len() ==> ps[j] == ((#[trigger] o[j]).0@, o[j].1.view()),
                        out@ == seq!['{'] + render_members(ps, i as int),
                    decreases o.len() - i,
                {
                    if i > 0 {
                        push_char(&mut out, ',');
                    }
                    out.append(o[i].0.as_str());
                    push_char(&mut out, ':');
                    let t = o[i].1.to_text();
                    out.append(t.as_str());
                    i = i + 1;
                    assert(out@ =~= seq!['{'] + render_members(ps, i as int));
                }
                push_char(&mut out, '}');
                out
            },
        }
    }
}

} // verus!
