//! JSON documents: reading their fields, and taking them from and to text.
use crate::amount::{amount_of, amount_or_zero, in_range, parse_amount, parse_or_zero};
use crate::text::same_text;
use vstd::prelude::*;

verus! {

/// A JSON document.
///
/// A number is held as the `i64` that it is, if it is one, and in text.
#[derive(Debug)]
pub enum Json {
    Null,
    Bool(bool),
    Number(Option<i64>, String),
    Text(String),
    List(Vec<Json>),
    Record(Vec<(String, Json)>),
}

/// What a JSON document says.
pub enum JsonView {
    Null,
    Bool(bool),
    Number(Option<i64>, Seq<char>),
    Text(Seq<char>),
    List(Seq<JsonView>),
    Record(Seq<(Seq<char>, JsonView)>),
}

impl View for Json {
    type V = JsonView;

    open spec fn view(&self) -> JsonView {
        self.said()
    }
}

impl Json {
    /// What the document says.
    pub open spec fn said(self) -> JsonView
        decreases self,
    {
        match self {
            Json::Null => JsonView::Null,
            Json::Bool(b) => JsonView::Bool(b),
            Json::Number(i, t) => JsonView::Number(i, t@),
            Json::Text(t) => JsonView::Text(t@),
            Json::List(items) => JsonView::List(
                Seq::new(
                    items@.len(),
                    |i: int|
                        if 0 <= i < items@.len() {
                            items@[i].said()
                        } else {
                            JsonView::Null
                        },
                ),
            ),
            Json::Record(fields) => JsonView::Record(
                Seq::new(
                    fields@.len(),
                    |i: int|
                        if 0 <= i < fields@.len() {
                            (fields@[i].0@, fields@[i].1.said())
                        } else {
                            (Seq::empty(), JsonView::Null)
                        },
                ),
            ),
        }
    }
}

/// What a list of documents says.
pub open spec fn views(items: Seq<Json>) -> Seq<JsonView> {
    Seq::new(items.len(), |i: int| items[i]@)
}

/// What a list of fields says.
pub open spec fn field_views(fields: Seq<(String, Json)>) -> Seq<(Seq<char>, JsonView)> {
    Seq::new(fields.len(), |i: int| (fields[i].0@, fields[i].1@))
}

/// The value of the first field named `key`.
pub open spec fn lookup(fields: Seq<(Seq<char>, JsonView)>, key: Seq<char>) -> Option<JsonView>
    decreases fields.len(),
{
    if fields.len() == 0 {
        None
    } else if fields[0].0 == key {
        Some(fields[0].1)
    } else {
        lookup(fields.skip(1), key)
    }
}

impl JsonView {
    /// The value of the field `key`.
    pub open spec fn field(self, key: Seq<char>) -> Option<JsonView> {
        match self {
            JsonView::Record(fields) => lookup(fields, key),
            _ => None,
        }
    }

    /// The text, where this is one.
    pub open spec fn text(self) -> Option<Seq<char>> {
        match self {
            JsonView::Text(t) => Some(t),
            _ => None,
        }
    }

    /// The items, where this is a list.
    pub open spec fn items(self) -> Option<Seq<JsonView>> {
        match self {
            JsonView::List(items) => Some(items),
            _ => None,
        }
    }

    /// The `i64`, where this is one.
    pub open spec fn integer(self) -> Option<i64> {
        match self {
            JsonView::Number(i, _) => i,
            _ => None,
        }
    }

    /// The amount, where this is a number.
    pub open spec fn number(self) -> Option<int> {
        match self {
            JsonView::Number(_, t) => amount_of(t),
            _ => None,
        }
    }

    /// The text in the field `key`.
    pub open spec fn text_at(self, key: Seq<char>) -> Option<Seq<char>> {
        match self.field(key) {
            Some(v) => v.text(),
            None => None,
        }
    }

    /// The text in the field `key`, or no characters.
    pub open spec fn text_or_empty(self, key: Seq<char>) -> Seq<char> {
        match self.text_at(key) {
            Some(t) => t,
            None => Seq::empty(),
        }
    }

    /// The list in the field `key`.
    pub open spec fn items_at(self, key: Seq<char>) -> Option<Seq<JsonView>> {
        match self.field(key) {
            Some(v) => v.items(),
            None => None,
        }
    }

    /// The amount that the text in the field `key` writes, or zero.
    pub open spec fn amount_at(self, key: Seq<char>) -> int {
        match self.text_at(key) {
            Some(t) => amount_or_zero(t),
            None => 0,
        }
    }
}

impl Json {
    /// The value of the field `key`.
    pub fn get(&self, key: &str) -> (r: Option<&Json>)
        ensures
            r is Some <==> self@.field(key@) is Some,
            r matches Some(v) ==> self@.field(key@) == Some(v@),
    {
        let fields = match self {
            Json::Record(fields) => fields,
            _ => {
                return None;
            },
        };
        let ghost all = self@->Record_0;
        let mut i: usize = 0;
        assert(all.skip(0) == all);
        while i < fields.len()
            invariant
                i <= fields@.len(),
                self@ == JsonView::Record(all),
                all == field_views(fields@),
                lookup(all, key@) == lookup(all.skip(i as int), key@),
            decreases fields@.len() - i,
        {
            assert(all.skip(i as int)[0] == all[i as int]);
            if same_text(fields[i].0.as_str(), key) {
                return Some(&fields[i].1);
            }
            assert(all.skip(i as int).skip(1) == all.skip(i + 1));
            i = i + 1;
        }
        None
    }

    /// The text, where this is one.
    pub fn as_str(&self) -> (r: Option<&str>)
        ensures
            r is Some <==> self@.text() is Some,
            r matches Some(t) ==> self@.text() == Some(t@),
    {
        match self {
            Json::Text(t) => Some(t.as_str()),
            _ => None,
        }
    }

    /// The items, where this is a list.
    pub fn as_array(&self) -> (r: Option<&Vec<Json>>)
        ensures
            r is Some <==> self@.items() is Some,
            r matches Some(v) ==> self@.items() == Some(views(v@)),
    {
        match self {
            Json::List(items) => {
                assert(self@->List_0 == views(items@));
                Some(items)
            },
            _ => None,
        }
    }

    /// The `i64`, where this is one.
    pub fn as_i64(&self) -> (r: Option<i64>)
        ensures
            r == self@.integer(),
    {
        match self {
            Json::Number(i, _) => *i,
            _ => None,
        }
    }

    /// The amount, where this is a number.
    pub fn as_amount(&self) -> (r: Option<i128>)
        ensures
            r is Some <==> self@.number() is Some,
            r matches Some(v) ==> self@.number() == Some(v as int) && in_range(v as int),
    {
        match self {
            Json::Number(_, t) => parse_amount(t.as_str()),
            _ => None,
        }
    }

    /// The text in the field `key`.
    pub fn text_at(&self, key: &str) -> (r: Option<&str>)
        ensures
            r is Some <==> self@.text_at(key@) is Some,
            r matches Some(t) ==> self@.text_at(key@) == Some(t@),
    {
        match self.get(key) {
            Some(v) => v.as_str(),
            None => None,
        }
    }

    /// The text in the field `key`, or no characters.
    pub fn text_or_empty(&self, key: &str) -> (r: &str)
        ensures
            r@ == self@.text_or_empty(key@),
    {
        match self.text_at(key) {
            Some(t) => t,
            None => {
                proof {
                    reveal_strlit("");
                }
                assert(""@ == Seq::<char>::empty());
                ""
            },
        }
    }

    /// The list in the field `key`.
    pub fn items_at(&self, key: &str) -> (r: Option<&Vec<Json>>)
        ensures
            r is Some <==> self@.items_at(key@) is Some,
            r matches Some(v) ==> self@.items_at(key@) == Some(views(v@)),
    {
        match self.get(key) {
            Some(v) => v.as_array(),
            None => None,
        }
    }

    /// The amount that the text in the field `key` writes, or zero.
    pub fn amount_at(&self, key: &str) -> (r: i128)
        ensures
            r == self@.amount_at(key@),
            in_range(r as int),
    {
        match self.text_at(key) {
            Some(t) => parse_or_zero(t),
            None => 0,
        }
    }

    /// Is the field `key` the text `text`?
    pub fn has_text(&self, key: &str, text: &str) -> (r: bool)
        ensures
            r == (self@.text_at(key@) == Some(text@)),
    {
        match self.text_at(key) {
            Some(t) => same_text(t, text),
            None => false,
        }
    }
}

/// The first item whose field `key` is the text `value`.
pub open spec fn first_with(items: Seq<JsonView>, key: Seq<char>, value: Seq<char>) -> Option<
    JsonView,
>
    decreases items.len(),
{
    if items.len() == 0 {
        None
    } else if items[0].text_at(key) == Some(value) {
        Some(items[0])
    } else {
        first_with(items.skip(1), key, value)
    }
}

/// Finds the first item whose field `key` is the text `value`.
pub fn find_with<'a>(items: &'a Vec<Json>, key: &str, value: &str) -> (r: Option<&'a Json>)
    ensures
        r is Some <==> first_with(views(items@), key@, value@) is Some,
        r matches Some(j) ==> first_with(views(items@), key@, value@) == Some(j@),
{
    let ghost all = views(items@);
    let mut i: usize = 0;
    assert(all.skip(0) == all);
    while i < items.len()
        invariant
            i <= items@.len(),
            all == views(items@),
            first_with(all, key@, value@) == first_with(all.skip(i as int), key@, value@),
        decreases items@.len() - i,
    {
        assert(all.skip(i as int)[0] == all[i as int]);
        if items[i].has_text(key, value) {
            return Some(&items[i]);
        }
        assert(all.skip(i as int).skip(1) == all.skip(i + 1));
        i = i + 1;
    }
    None
}

/// The list of fields, to be filled one by one.
pub struct Fields {
    fields: Vec<(String, Json)>,
}

impl View for Fields {
    type V = Seq<(Seq<char>, JsonView)>;

    closed spec fn view(&self) -> Seq<(Seq<char>, JsonView)> {
        field_views(self.fields@)
    }
}

impl Fields {
    /// No fields.
    pub fn new() -> (r: Fields)
        ensures
            r@ == Seq::<(Seq<char>, JsonView)>::empty(),
    {
        let r = Fields { fields: Vec::new() };
        assert(r@ == Seq::<(Seq<char>, JsonView)>::empty());
        r
    }

    /// The fields with one more, a text, behind them.
    pub fn text(self, key: &str, text: &str) -> (r: Fields)
        ensures
            r@ == self@.push((key@, JsonView::Text(text@))),
    {
        self.value(key, Json::Text(text.to_owned()))
    }

    /// The fields with one more behind them.
    pub fn value(self, key: &str, value: Json) -> (r: Fields)
        ensures
            r@ == self@.push((key@, value@)),
    {
        let ghost before = self@;
        let mut fields = self.fields;
        fields.push((key.to_owned(), value));
        let r = Fields { fields };
        assert(r@ == before.push((key@, value@)));
        r
    }

    /// The document made of the fields.
    pub fn record(self) -> (r: Json)
        ensures
            r@ == JsonView::Record(self@),
    {
        let r = Json::Record(self.fields);
        assert(r@->Record_0 == self@);
        r
    }
}

/// The document made of the items.
pub fn list(items: Vec<Json>) -> (r: Json)
    ensures
        r@ == JsonView::List(views(items@)),
{
    let r = Json::List(items);
    assert(r@->List_0 == views(items@));
    r
}

/// `serde_json::Value`, a JSON document of that crate. Nothing is claimed of it.
#[verifier::external_type_specification]
#[verifier::external_body]
pub struct ExValue(serde_json::Value);

/// The JSON document that a text holds, as `serde_json::from_str` reads it; `None` where
/// that gives an error.
pub uninterp spec fn json_document(text: Seq<char>) -> Option<JsonView>;

/// The text of a JSON document, as `serde_json::Value` displays it.
pub uninterp spec fn json_text(document: JsonView) -> Seq<char>;

/// A document of the crate, variant by variant, as one of `serde_json`. A number is
/// read from its text by `serde_json::from_str`.
#[verifier::external_body]
fn export_value(j: &Json) -> serde_json::Value {
    match j {
        Json::Null => serde_json::Value::Null,
        Json::Bool(b) => serde_json::Value::Bool(*b),
        Json::Number(_, t) => serde_json::from_str(t).unwrap_or(serde_json::Value::Null),
        Json::Text(t) => serde_json::Value::String(t.clone()),
        Json::List(items) => serde_json::Value::Array(items.iter().map(export_value).collect()),
        Json::Record(fields) => serde_json::Value::Object(
            fields.iter().map(|f| (f.0.clone(), export_value(&f.1))).collect(),
        ),
    }
}

/// A document of `serde_json`, variant by variant, as one of the crate. A number gives
/// what `Number::as_i64` says of it and what it displays.
#[verifier::external_body]
fn import_value(v: serde_json::Value) -> Json {
    match v {
        serde_json::Value::Null => Json::Null,
        serde_json::Value::Bool(b) => Json::Bool(b),
        serde_json::Value::Number(n) => Json::Number(n.as_i64(), n.to_string()),
        serde_json::Value::String(s) => Json::Text(s),
        serde_json::Value::Array(a) => Json::List(a.into_iter().map(import_value).collect()),
        serde_json::Value::Object(m) => Json::Record(
            m.into_iter().map(|f| (f.0, import_value(f.1))).collect(),
        ),
    }
}

/// `serde_json::from_str`: the document that the text holds, or `None` where there is
/// none. What a given text holds is left to `json_document`.
#[verifier::external_body]
pub(crate) fn parse_json(text: &str) -> (r: Option<Json>)
    ensures
        r is Some <==> json_document(text@) is Some,
        r matches Some(j) ==> json_document(text@) == Some(j@),
{
    match serde_json::from_str::<serde_json::Value>(text) {
        Ok(v) => Some(import_value(v)),
        Err(_) => None,
    }
}

/// The text of a `serde_json::Value`, as its `Display` writes it. What a given document
/// becomes is left to `json_text`.
#[verifier::external_body]
pub(crate) fn render_json(j: &Json) -> (r: String)
    ensures
        r@ == json_text(j@),
{
    export_value(j).to_string()
}

/// The document that a text holds, or a record without fields.
pub open spec fn document_or_empty(text: Seq<char>) -> JsonView {
    match json_document(text) {
        Some(v) => v,
        None => JsonView::Record(Seq::empty()),
    }
}

/// Reads the document that a text holds; what holds none counts as a record without
/// fields.
pub fn parse_or_empty(text: &str) -> (r: Json)
    ensures
        r@ == document_or_empty(text@),
{
    match parse_json(text) {
        Some(j) => j,
        None => Fields::new().record(),
    }
}

/// The value of a field is that of the first field with its name.
pub proof fn law_first_field_counts(fields: Seq<(Seq<char>, JsonView)>, key: Seq<char>, i: int)
    requires
        0 <= i < fields.len(),
        fields[i].0 == key,
        forall|j: int| 0 <= j < i ==> (#[trigger] fields[j]).0 != key,
    ensures
        JsonView::Record(fields).field(key) == Some(fields[i].1),
    decreases i,
{
    if i > 0 {
        let rest = fields.skip(1);
        assert(fields[0].0 != key);
        assert forall|j: int| 0 <= j < i - 1 implies (#[trigger] rest[j]).0 != key by {
            assert(rest[j] == fields[j + 1]);
        }
        law_first_field_counts(rest, key, i - 1);
        assert(rest[i - 1] == fields[i]);
    }
}

/// A field that is not there has no value.
pub proof fn law_missing_field_is_none(document: JsonView, key: Seq<char>)
    requires
        document matches JsonView::Record(fields) ==> forall|j: int|
            0 <= j < fields.len() ==> (#[trigger] fields[j]).0 != key,
    ensures
        document.field(key) is None,
{
    if let JsonView::Record(fields) = document {
        lemma_lookup_none(fields, key);
    }
}

proof fn lemma_lookup_none(fields: Seq<(Seq<char>, JsonView)>, key: Seq<char>)
    requires
        forall|j: int| 0 <= j < fields.len() ==> (#[trigger] fields[j]).0 != key,
    ensures
        lookup(fields, key) is None,
    decreases fields.len(),
{
    if fields.len() > 0 {
        let rest = fields.skip(1);
        assert forall|j: int| 0 <= j < rest.len() implies (#[trigger] rest[j]).0 != key by {
            assert(rest[j] == fields[j + 1]);
        }
        lemma_lookup_none(rest, key);
    }
}

/// What the readings of a field say, by what stands there: a text, a list, a number in
/// text, or something else.
pub proof fn law_field_readings(document: JsonView, key: Seq<char>)
    ensures
        match document.field(key) {
            Some(JsonView::Text(t)) => {
                &&& document.text_at(key) == Some(t)
                &&& document.text_or_empty(key) == t
                &&& document.items_at(key) is None
                &&& amount_of(t) matches Some(x) ==> document.amount_at(key) == x
                &&& amount_of(t) is None ==> document.amount_at(key) == 0
            },
            Some(JsonView::List(items)) => {
                &&& document.items_at(key) == Some(items)
                &&& document.text_at(key) is None
                &&& document.text_or_empty(key).len() == 0
                &&& document.amount_at(key) == 0
            },
            _ => {
                &&& document.items_at(key) is None
                &&& document.text_at(key) is None
                &&& document.text_or_empty(key).len() == 0
                &&& document.amount_at(key) == 0
            },
        },
        JsonView::Null.text() is None && JsonView::Null.items() is None,
{
}

/// What a document is, by its kind.
pub proof fn law_document_kinds(i: Option<i64>, t: Seq<char>, items: Seq<JsonView>)
    ensures
        JsonView::Number(i, t).integer() == i,
        JsonView::Number(i, t).number() == amount_of(t),
        JsonView::Number(i, t).text() is None,
        JsonView::Number(i, t).items() is None,
        JsonView::Text(t).text() == Some(t),
        JsonView::Text(t).number() is None,
        JsonView::Text(t).integer() is None,
        JsonView::List(items).items() == Some(items),
        JsonView::List(items).text() is None,
        JsonView::List(items).integer() is None,
{
}

/// The first item with a text in a field is found, and only where there is one.
pub proof fn law_first_item_with_a_text(
    items: Seq<JsonView>,
    key: Seq<char>,
    text: Seq<char>,
)
    ensures
        match first_with(items, key, text) {
            Some(item) => exists|i: int| #![trigger items[i]]
                0 <= i < items.len() && items[i] == item && items[i].text_at(key) == Some(text)
                    && forall|j: int| 0 <= j < i ==> (#[trigger] items[j]).text_at(key) != Some(text),
            None => forall|j: int|
                0 <= j < items.len() ==> (#[trigger] items[j]).text_at(key) != Some(text),
        },
    decreases items.len(),
{
    if items.len() > 0 {
        if items[0].text_at(key) != Some(text) {
            let rest = items.skip(1);
            law_first_item_with_a_text(rest, key, text);
            match first_with(items, key, text) {
                Some(item) => {
                    let i = choose|i: int| #![trigger rest[i]]
                        0 <= i < rest.len() && rest[i] == item && rest[i].text_at(key) == Some(text)
                            && forall|j: int|
                            0 <= j < i ==> (#[trigger] rest[j]).text_at(key) != Some(text);
                    assert(items[i + 1] == rest[i]);
                    assert forall|j: int| 0 <= j < i + 1 implies (#[trigger] items[j]).text_at(key)
                        != Some(text) by {
                        if j > 0 {
                            assert(rest[j - 1] == items[j]);
                        }
                    }
                },
                None => {
                    assert forall|j: int| 0 <= j < items.len() implies (
                    #[trigger] items[j]).text_at(key) != Some(text) by {
                        if j > 0 {
                            assert(rest[j - 1] == items[j]);
                        }
                    }
                },
            }
        } else {
            assert(items[0] == first_with(items, key, text)->0);
        }
    }
}

/// What is no document counts as a record without fields, and what is one as itself.
pub proof fn law_no_document_has_no_fields(text: Seq<char>, key: Seq<char>)
    ensures
        json_document(text) matches Some(v) ==> document_or_empty(text) == v,
        json_document(text) is None ==> document_or_empty(text).field(key) is None
            && document_or_empty(text).items() is None && document_or_empty(text).text() is None,
{
}

/// A document is seen as it is held: item by item, field by field, in the same order.
pub proof fn law_document_is_seen_as_held(
    items: Vec<Json>,
    fields: Vec<(String, Json)>,
    i: int,
    b: bool,
    whole: Option<i64>,
    t: String,
)
    ensures
        Json::Null@ == JsonView::Null,
        Json::Bool(b)@ == JsonView::Bool(b),
        Json::Number(whole, t)@ == JsonView::Number(whole, t@),
        Json::Text(t)@ == JsonView::Text(t@),
        Json::List(items)@ is List,
        Json::List(items)@->List_0.len() == items@.len(),
        0 <= i < items@.len() ==> Json::List(items)@->List_0[i] == items@[i]@,
        Json::Record(fields)@ is Record,
        Json::Record(fields)@->Record_0.len() == fields@.len(),
        0 <= i < fields@.len() ==> Json::Record(fields)@->Record_0[i] == (
            fields@[i].0@,
            fields@[i].1@,
        ),
        views(items@).len() == items@.len(),
        0 <= i < items@.len() ==> views(items@)[i] == items@[i]@,
        field_views(fields@).len() == fields@.len(),
        0 <= i < fields@.len() ==> field_views(fields@)[i] == (fields@[i].0@, fields@[i].1@),
{
}

}
