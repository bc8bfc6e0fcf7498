//! JSON documents: a small value type that the report builders fill in, its
//! mathematical view, and its rendering as pretty-printed text by serde_json.
use vstd::prelude::*;

verus! {

/// A JSON value as the reports use it: strings, unsigned numbers, arrays
/// and objects (fields in the order they were added).
#[derive(Debug)]
pub enum Json {
    Str(String),
    Num(u64),
    Arr(Vec<Json>),
    Obj(Vec<(String, Json)>),
}

/// The mathematical form of a JSON value.
#[verifier::ext_equal]
pub enum JsonView {
    Str(Seq<char>),
    Num(u64),
    Arr(Seq<JsonView>),
    Obj(Seq<(Seq<char>, JsonView)>),
}

/// The view of a JSON value.
pub open spec fn json_view(j: Json) -> JsonView
    decreases j,
{
    match j {
        Json::Str(s) => JsonView::Str(s@),
        Json::Num(n) => JsonView::Num(n),
        Json::Arr(v) => JsonView::Arr(json_views(v@)),
        Json::Obj(fs) => JsonView::Obj(field_views(fs@)),
    }
}

/// The views of a sequence of JSON values.
pub open spec fn json_views(s: Seq<Json>) -> Seq<JsonView>
    decreases s,
{
    if s.len() == 0 {
        Seq::empty()
    } else {
        json_views(s.drop_last()).push(json_view(s.last()))
    }
}

/// The views of a sequence of object fields.
pub open spec fn field_views(s: Seq<(String, Json)>) -> Seq<(Seq<char>, JsonView)>
    decreases s,
{
    if s.len() == 0 {
        Seq::empty()
    } else {
        field_views(s.drop_last()).push((s.last().0@, json_view(s.last().1)))
    }
}

impl View for Json {
    type V = JsonView;

    open spec fn view(&self) -> JsonView {
        json_view(*self)
    }
}

/// The text that serde_json's `to_string_pretty` writes for the JSON value
/// `d`, built as a `serde_json::Value` whose objects are `serde_json::Map`s.
pub uninterp spec fn pretty_json(d: JsonView) -> Seq<char>;

/// The `serde_json::Value` for a JSON value: strings, numbers, arrays and
/// objects become the variants of the same name, object fields are
/// collected into a `serde_json::Map`, as `serde_json::json!` does.
///
/// Nothing is stated of the result: the type is opaque here, and what
/// matters of it is what `render_pretty` writes.
#[verifier::external_body]
fn to_value(d: &Json) -> (v: serde_json::Value) {
    match d {
        Json::Str(s) => serde_json::Value::String(s.clone()),
        Json::Num(n) => serde_json::Value::from(*n),
        Json::Arr(items) => serde_json::Value::Array(items.iter().map(to_value).collect()),
        Json::Obj(fs) => serde_json::Value::Object(
            fs.iter().map(|f| (f.0.clone(), to_value(&f.1))).collect(),
        ),
    }
}

/// Pretty-printed JSON text for `d`: the value converted by `to_value` and
/// written by `serde_json::to_string_pretty` (whose error, which a
/// `serde_json::Value` never raises, gives `{}`).
///
/// The contract names the text (`pretty_json`) rather than stating it: it
/// is serde_json's formatting, with its key order and string escaping.
#[verifier::external_body]
pub fn render_pretty(d: &Json) -> (s: String)
    ensures
        s@ == pretty_json(d@),
{
    serde_json::to_string_pretty(&to_value(d)).unwrap_or_else(|_| "{}".to_string())
}

/// Appends an element to an array under construction.
pub fn push_item(items: &mut Vec<Json>, value: Json)
    ensures
        json_views(final(items)@) == json_views(old(items)@).push(value@),
{
    let ghost before = items@;
    items.push(value);
    assert(items@.drop_last() =~= before);
}

/// Appends a field to an object under construction.
pub fn push_field(fields: &mut Vec<(String, Json)>, key: &str, value: Json)
    ensures
        field_views(final(fields)@) == field_views(old(fields)@).push((key@, value@)),
{
    let ghost before = fields@;
    fields.push((key.to_owned(), value));
    assert(fields@.drop_last() =~= before);
}

} // verus!
