//! JSON values as plain data, and what is read out of them.
use serde_json::Value;
use vstd::prelude::*;

use crate::double::Double;
use crate::parse::{read, read_double};
use crate::signing::hex_digit;
use crate::text::same_text;

verus! {

// ---- values -----------------------------------------------------------------------------

/// A JSON value.
#[derive(Debug)]
pub struct Json {
    pub form: Form,
    /// The value as it is written without white space.
    pub written: String,
}

/// What a JSON value is.
#[derive(Debug)]
pub enum Form {
    Null,
    Bool(bool),
    /// A number, with its value where that is an unsigned integer.
    Number(Option<u64>),
    Text(String),
    Array(Vec<Json>),
    Object(Vec<Member>),
}

/// A named part of an object.
#[derive(Debug)]
pub struct Member {
    pub key: String,
    pub value: Json,
}

/// A JSON value as mathematical values.
#[verifier::ext_equal]
pub struct JsonView {
    pub form: FormView,
    pub written: Seq<char>,
}

/// What a JSON value is, as mathematical values.
#[verifier::ext_equal]
pub enum FormView {
    Null,
    Bool(bool),
    Number(Option<u64>),
    Text(Seq<char>),
    Array(Seq<JsonView>),
    Object(Seq<(Seq<char>, JsonView)>),
}

/// A value as mathematical values.
pub open spec fn json_view(j: Json) -> JsonView
    decreases j,
{
    JsonView {
        form: match j.form {
            Form::Null => FormView::Null,
            Form::Bool(b) => FormView::Bool(b),
            Form::Number(unsigned) => FormView::Number(unsigned),
            Form::Text(s) => FormView::Text(s@),
            Form::Array(v) => FormView::Array(json_views(v@)),
            Form::Object(v) => FormView::Object(member_views(v@)),
        },
        written: j.written@,
    }
}

/// Some values as mathematical values.
pub open spec fn json_views(s: Seq<Json>) -> Seq<JsonView>
    decreases s,
{
    if s.len() == 0 {
        Seq::empty()
    } else {
        json_views(s.drop_last()).push(json_view(s.last()))
    }
}

/// The parts of an object as mathematical values.
pub open spec fn member_views(s: Seq<Member>) -> Seq<(Seq<char>, JsonView)>
    decreases s,
{
    if s.len() == 0 {
        Seq::empty()
    } else {
        member_views(s.drop_last()).push((s.last().key@, json_view(s.last().value)))
    }
}

impl View for Json {
    type V = JsonView;

    open spec fn view(&self) -> JsonView {
        json_view(*self)
    }
}

pub(crate) proof fn lemma_json_views(s: Seq<Json>)
    ensures
        json_views(s).len() == s.len(),
        forall|i: int| 0 <= i < s.len() ==> #[trigger] json_views(s)[i] == json_view(s[i]),
    decreases s.len(),
{
    if s.len() > 0 {
        lemma_json_views(s.drop_last());
    }
}

pub(crate) proof fn lemma_member_views(s: Seq<Member>)
    ensures
        member_views(s).len() == s.len(),
        forall|i: int|
            0 <= i < s.len() ==> #[trigger] member_views(s)[i] == (
                s[i].key@,
                json_view(s[i].value),
            ),
    decreases s.len(),
{
    if s.len() > 0 {
        lemma_member_views(s.drop_last());
    }
}

// ---- reading ------------------------------------------------------------------------------

/// The value `null`.
pub open spec fn null_view() -> JsonView {
    JsonView { form: FormView::Null, written: "null"@ }
}

/// The first part with the given name.
pub open spec fn member(s: Seq<(Seq<char>, JsonView)>, key: Seq<char>) -> Option<JsonView>
    decreases s.len(),
{
    if s.len() == 0 {
        None
    } else if s[0].0 == key {
        Some(s[0].1)
    } else {
        member(s.skip(1), key)
    }
}

impl JsonView {
    /// The part of an object with the given name.
    pub open spec fn get(self, key: Seq<char>) -> Option<JsonView> {
        match self.form {
            FormView::Object(s) => member(s, key),
            _ => None,
        }
    }

    /// The part with the given name, `Null` where there is none.
    pub open spec fn field(self, key: Seq<char>) -> JsonView {
        match self.get(key) {
            Some(v) => v,
            None => null_view(),
        }
    }

    /// The text, where the value is one.
    pub open spec fn as_text(self) -> Option<Seq<char>> {
        match self.form {
            FormView::Text(s) => Some(s),
            _ => None,
        }
    }

    /// The items, where the value is an array.
    pub open spec fn as_items(self) -> Option<Seq<JsonView>> {
        match self.form {
            FormView::Array(s) => Some(s),
            _ => None,
        }
    }

    /// The number, where the value is an unsigned integer.
    pub open spec fn as_unsigned(self) -> Option<u64> {
        match self.form {
            FormView::Number(unsigned) => unsigned,
            _ => None,
        }
    }

    /// The number that the text of a part spells.
    pub open spec fn double_at(self, key: Seq<char>) -> Option<Double> {
        match self.field(key).as_text() {
            Some(s) => read(s),
            None => None,
        }
    }

    /// The text of a part, empty where there is none.
    pub open spec fn text_at(self, key: Seq<char>) -> Seq<char> {
        match self.field(key).as_text() {
            Some(s) => s,
            None => Seq::empty(),
        }
    }
}

/// An optional value as mathematical values.
pub open spec fn option_view(o: Option<&Json>) -> Option<JsonView> {
    match o {
        Some(j) => Some(j@),
        None => None,
    }
}

/// The view of a value that may be missing, `Null` where it is.
pub open spec fn found(o: Option<&Json>) -> JsonView {
    match o {
        Some(j) => j@,
        None => null_view(),
    }
}

impl Json {
    /// The part of an object with the given name.
    pub fn get(&self, key: &str) -> (r: Option<&Json>)
        ensures
            option_view(r) == self@.get(key@),
            found(r) == self@.field(key@),
    {
        match &self.form {
            Form::Object(v) => {
                let ghost all = member_views(v@);
                proof {
                    lemma_member_views(v@);
                    assert(all.skip(0) == all);
                }
                let mut i: usize = 0;
                while i < v.len()
                    invariant
                        all == member_views(v@),
                        self@.form == FormView::Object(all),
                        all.len() == v@.len(),
                        forall|k: int|
                            0 <= k < v@.len() ==> #[trigger] all[k] == (
                                v@[k].key@,
                                json_view(v@[k].value),
                            ),
                        i <= v@.len(),
                        member(all, key@) == member(all.skip(i as int), key@),
                    decreases v@.len() - i,
                {
                    assert(all.skip(i as int)[0] == all[i as int]);
                    assert(all.skip(i as int).skip(1) == all.skip(i + 1));
                    if same_text(v[i].key.as_str(), key) {
                        return Some(&v[i].value);
                    }
                    i = i + 1;
                }
                None
            },
            _ => None,
        }
    }

    /// The text, where the value is one.
    pub fn as_text(&self) -> (r: Option<&str>)
        ensures
            r is Some <==> self@.as_text() is Some,
            r matches Some(s) ==> self@.as_text() == Some(s@),
    {
        match &self.form {
            Form::Text(s) => Some(s.as_str()),
            _ => None,
        }
    }

    /// The items, where the value is an array.
    pub fn as_items(&self) -> (r: Option<&Vec<Json>>)
        ensures
            r is Some <==> self@.as_items() is Some,
            r matches Some(v) ==> self@.as_items() == Some(json_views(v@)) && json_views(v@).len()
                == v@.len() && (forall|i: int|
                0 <= i < v@.len() ==> #[trigger] json_views(v@)[i] == v@[i]@),
    {
        match &self.form {
            Form::Array(v) => {
                proof {
                    lemma_json_views(v@);
                }
                Some(v)
            },
            _ => None,
        }
    }

    /// The number, where the value is an unsigned integer.
    pub fn as_unsigned(&self) -> (r: Option<u64>)
        ensures
            r == self@.as_unsigned(),
    {
        match &self.form {
            Form::Number(unsigned) => *unsigned,
            _ => None,
        }
    }

    /// The number that the text of a part spells.
    pub fn double_at(&self, key: &str) -> (r: Option<Double>)
        ensures
            r == self@.double_at(key@),
    {
        match self.get(key) {
            Some(v) => match v.as_text() {
                Some(s) => read_double(s),
                None => None,
            },
            None => None,
        }
    }

    /// The text of a part, empty where there is none.
    pub fn text_at(&self, key: &str) -> (r: &str)
        ensures
            r@ == self@.text_at(key@),
    {
        proof {
            reveal_strlit("");
        }
        match self.get(key) {
            Some(v) => match v.as_text() {
                Some(s) => s,
                None => {
                    assert(""@ =~= Seq::<char>::empty());
                    ""
                },
            },
            None => {
                assert(""@ =~= Seq::<char>::empty());
                ""
            },
        }
    }
}

// ---- parsing and writing --------------------------------------------------------------------

/// A JSON value of the `serde_json` crate.
#[verifier::external_type_specification]
#[verifier::external_body]
pub struct ExValue(Value);

/// What a `serde_json` value holds: its parts, in the order of their iteration, and how each
/// is written.
pub uninterp spec fn contents(v: Value) -> JsonView;

/// What some `serde_json` values hold.
pub open spec fn all_contents(s: Seq<Value>) -> Seq<JsonView> {
    s.map_values(|v: Value| contents(v))
}

/// What the parts of a `serde_json` object hold.
pub open spec fn part_contents(s: Seq<(String, Value)>) -> Seq<(Seq<char>, JsonView)> {
    s.map_values(|p: (String, Value)| (p.0@, contents(p.1)))
}

/// The variants of `serde_json::Value`; what a number is, is asked for apart.
pub(crate) enum Shape {
    Null,
    Bool(bool),
    Number,
    Text(String),
    Array(Vec<Value>),
    Object(Vec<(String, Value)>),
}

/// What a text says as JSON; nothing where it is not JSON.
pub uninterp spec fn json_read(text: Seq<char>) -> Option<JsonView>;

/// `serde_json::from_str`, for a value of any form: what the text says, or nothing, and that
/// is a function of the text.
#[verifier::external_body]
pub(crate) fn value_of_text(text: &str) -> (r: Option<Value>)
    ensures
        r is Some <==> json_read(text@) is Some,
        r matches Some(v) ==> json_read(text@) == Some(contents(v)),
{
    serde_json::from_str(text).ok()
}

/// A character as it stands in a JSON text: quotes, backslashes and control characters are
/// escaped.
pub open spec fn escaped(c: char) -> Seq<char> {
    let n = c as u32;
    if c == '"' || c == '\\' {
        seq!['\\', c]
    } else if n == 0x8 {
        seq!['\\', 'b']
    } else if n == 0x9 {
        seq!['\\', 't']
    } else if n == 0xa {
        seq!['\\', 'n']
    } else if n == 0xc {
        seq!['\\', 'f']
    } else if n == 0xd {
        seq!['\\', 'r']
    } else if n < 0x20 {
        seq!['\\', 'u', '0', '0', hex_digit((n / 16) as u8), hex_digit((n % 16) as u8)]
    } else {
        seq![c]
    }
}

/// The characters of a text as they stand in a JSON text.
pub open spec fn escaped_text(s: Seq<char>) -> Seq<char>
    decreases s.len(),
{
    if s.len() == 0 {
        Seq::empty()
    } else {
        escaped_text(s.drop_last()) + escaped(s.last())
    }
}

/// A text as JSON writes it, in quotes.
pub open spec fn quoted(s: Seq<char>) -> Seq<char> {
    seq!['"'] + escaped_text(s) + seq!['"']
}

/// The `Display` of `serde_json::Value`: the value as it is written without white space; a text
/// in quotes, with its escapes.
#[verifier::external_body]
pub(crate) fn written_value(v: &Value) -> (r: String)
    ensures
        r@ == contents(*v).written,
        contents(*v).form matches FormView::Text(s) ==> r@ == quoted(s),
{
    v.to_string()
}

/// `serde_json::Value::from`, for a text: the value that is this text.
#[verifier::external_body]
fn text_value(text: &str) -> (r: Value)
    ensures
        contents(r).form == FormView::Text(text@),
{
    Value::from(text)
}

/// A text as JSON writes it, in quotes.
pub fn quote_text(text: &str) -> (r: String)
    ensures
        r@ == quoted(text@),
{
    written_value(&text_value(text))
}

/// `serde_json::Value::as_u64`: the number, where the value is an unsigned integer.
#[verifier::external_body]
pub(crate) fn unsigned_value(v: &Value) -> (r: Option<u64>)
    ensures
        r == contents(*v).as_unsigned(),
{
    v.as_u64()
}

/// The variants of `serde_json::Value` told apart, an array by its items and an object by its
/// parts in the order of their iteration.
#[verifier::external_body]
pub(crate) fn shape_of(v: Value) -> (r: Shape)
    ensures
        match r {
            Shape::Null => contents(v).form is Null,
            Shape::Bool(b) => contents(v).form == FormView::Bool(b),
            Shape::Number => contents(v).form is Number,
            Shape::Text(s) => contents(v).form == FormView::Text(s@),
            Shape::Array(a) => contents(v).form == FormView::Array(all_contents(a@)),
            Shape::Object(m) => contents(v).form == FormView::Object(part_contents(m@)),
        },
{
    match v {
        Value::Null => Shape::Null,
        Value::Bool(b) => Shape::Bool(b),
        Value::Number(_) => Shape::Number,
        Value::String(s) => Shape::Text(s),
        Value::Array(a) => Shape::Array(a),
        Value::Object(m) => Shape::Object(m.into_iter().collect()),
    }
}

/// What a `serde_json` value holds, as plain data.
fn json_of_value(v: Value) -> (r: Json)
    ensures
        r@ == contents(v),
    decreases contents(v),
{
    let written = written_value(&v);
    let unsigned = unsigned_value(&v);
    let ghost c = contents(v);
    let form = match shape_of(v) {
        Shape::Null => Form::Null,
        Shape::Bool(b) => Form::Bool(b),
        Shape::Number => Form::Number(unsigned),
        Shape::Text(s) => Form::Text(s),
        Shape::Array(a) => {
            assert(decreases_to!(c => c.form));
            assert(decreases_to!(c.form => c.form->Array_0));
            Form::Array(json_items(a))
        },
        Shape::Object(m) => {
            assert(decreases_to!(c => c.form));
            assert(decreases_to!(c.form => c.form->Object_0));
            Form::Object(json_members(m))
        },
    };
    Json { form, written }
}

/// What some `serde_json` values hold, as plain data.
fn json_items(a: Vec<Value>) -> (r: Vec<Json>)
    ensures
        json_views(r@) == all_contents(a@),
    decreases all_contents(a@),
{
    let ghost all = all_contents(a@);
    let mut r: Vec<Json> = Vec::new();
    assert(json_views(r@) =~= all.take(0));
    for v in it: a.into_iter()
        invariant
            all == all_contents(it.seq()),
            all == all_contents(a@),
            json_views(r@) == all.take(it.index() as int),
    {
        assert(contents(v) == all[it.index() as int]);
        let j = json_of_value(v);
        let ghost before = r@;
        r.push(j);
        assert(r@.drop_last() =~= before);
        assert(all.take(it.index() + 1) =~= all.take(it.index() as int).push(
            all[it.index() as int],
        ));
    }
    assert(all.take(all.len() as int) =~= all);
    r
}

/// What the parts of a `serde_json` object hold, as plain data.
fn json_members(m: Vec<(String, Value)>) -> (r: Vec<Member>)
    ensures
        member_views(r@) == part_contents(m@),
    decreases part_contents(m@),
{
    let ghost all = part_contents(m@);
    let mut r: Vec<Member> = Vec::new();
    assert(member_views(r@) =~= all.take(0));
    for p in it: m.into_iter()
        invariant
            all == part_contents(it.seq()),
            all == part_contents(m@),
            member_views(r@) == all.take(it.index() as int),
    {
        assert((p.0@, contents(p.1)) == all[it.index() as int]);
        let (key, v) = p;
        assert(decreases_to!(all => all[it.index() as int]));
        assert(decreases_to!(all[it.index() as int] => all[it.index() as int].1));
        let value = json_of_value(v);
        let ghost before = r@;
        r.push(Member { key, value });
        assert(r@.drop_last() =~= before);
        assert(all.take(it.index() + 1) =~= all.take(it.index() as int).push(
            all[it.index() as int],
        ));
    }
    assert(all.take(all.len() as int) =~= all);
    r
}

/// What a text says as JSON; nothing where it is not JSON.
pub fn parse_json(text: &str) -> (r: Option<Json>)
    ensures
        r is Some <==> json_read(text@) is Some,
        r matches Some(j) ==> json_read(text@) == Some(j@),
{
    match value_of_text(text) {
        Some(v) => Some(json_of_value(v)),
        None => None,
    }
}

} // verus!
