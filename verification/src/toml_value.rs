//! TOML values as the configuration logic reads them, and the calls into the
//! `toml` crate that parse a document and convert a value.
use vstd::prelude::*;

verus! {

/// A TOML value. Floats and date-times are kept as the text that `toml`
/// writes for them; a table keeps its entries in the order of the parsed table.
#[derive(Debug)]
pub enum TomlValue {
    String(String),
    Integer(i64),
    Float(String),
    Boolean(bool),
    Datetime(String),
    Array(Vec<TomlValue>),
    Table(Vec<(String, TomlValue)>),
}

/// The mathematical model of a TOML value.
pub enum TomlData {
    String(Seq<char>),
    Integer(i64),
    Float(Seq<char>),
    Boolean(bool),
    Datetime(Seq<char>),
    Array(Seq<TomlData>),
    Table(Seq<(Seq<char>, TomlData)>),
}

pub open spec fn data_of(t: TomlValue) -> TomlData
    decreases t, 0nat,
{
    match t {
        TomlValue::String(s) => TomlData::String(s@),
        TomlValue::Integer(i) => TomlData::Integer(i),
        TomlValue::Float(s) => TomlData::Float(s@),
        TomlValue::Boolean(b) => TomlData::Boolean(b),
        TomlValue::Datetime(s) => TomlData::Datetime(s@),
        TomlValue::Array(v) => TomlData::Array(data_of_items(v@)),
        TomlValue::Table(v) => TomlData::Table(data_of_entries(v@)),
    }
}

pub open spec fn data_of_items(s: Seq<TomlValue>) -> Seq<TomlData>
    decreases s, 1nat,
{
    if s.len() == 0 {
        seq![]
    } else {
        data_of_items(s.drop_last()).push(data_of(s.last()))
    }
}

pub open spec fn data_of_entries(s: Seq<(String, TomlValue)>) -> Seq<(Seq<char>, TomlData)>
    decreases s, 1nat,
{
    if s.len() == 0 {
        seq![]
    } else {
        data_of_entries(s.drop_last()).push((s.last().0@, data_of(s.last().1)))
    }
}

impl View for TomlValue {
    type V = TomlData;

    open spec fn view(&self) -> TomlData {
        data_of(*self)
    }
}

pub proof fn lemma_entries_len(s: Seq<(String, TomlValue)>)
    ensures
        data_of_entries(s).len() == s.len(),
        forall|i: int|
            0 <= i < s.len() ==> #[trigger] data_of_entries(s)[i] == (s[i].0@, data_of(s[i].1)),
    decreases s.len(),
{
    if s.len() > 0 {
        lemma_entries_len(s.drop_last());
    }
}

pub proof fn lemma_items_len(s: Seq<TomlValue>)
    ensures
        data_of_items(s).len() == s.len(),
        forall|i: int| 0 <= i < s.len() ==> #[trigger] data_of_items(s)[i] == data_of(s[i]),
    decreases s.len(),
{
    if s.len() > 0 {
        lemma_items_len(s.drop_last());
    }
}

/// The text of a value that deserializes as a string: a string, or the text
/// that `toml` gives back for a date-time.
pub open spec fn text_of(d: TomlData) -> Option<Seq<char>> {
    match d {
        TomlData::String(s) => Some(s),
        TomlData::Datetime(s) => Some(toml_datetime_text(s)),
        _ => None,
    }
}

/// The texts of an array whose items all deserialize as strings.
pub open spec fn texts_of(d: TomlData) -> Option<Seq<Seq<char>>> {
    match d {
        TomlData::Array(items) => if forall|i: int| 0 <= i < items.len() ==> (#[trigger] text_of(items[i])) is Some {
            Some(Seq::new(items.len(), |i: int| text_of(items[i])->0))
        } else {
            None
        },
        _ => None,
    }
}

/// The value of an integer that deserializes as a `u8`.
pub open spec fn small_int_of(d: TomlData) -> Option<u8> {
    match d {
        TomlData::Integer(n) => if 0 <= n <= 255 {
            Some(n as u8)
        } else {
            None
        },
        _ => None,
    }
}

#[verifier::external_type_specification]
#[verifier::external_body]
pub struct ExTomlValue(toml::Value);

/// What `toml` makes of a document: the entries of its top-level table, or
/// the text of the parse error.
pub uninterp spec fn toml_document(text: Seq<char>) -> Result<Seq<(Seq<char>, TomlData)>, Seq<char>>;

/// The text that `toml` gives back for a date-time written as `text`: the
/// display of the date-time that `text` parses to (which writes `T` and `Z`
/// in capitals and leaves no trailing zeros in a fraction of a second), or
/// `text` itself when it is no date-time (it is then handed on as a string).
pub uninterp spec fn toml_datetime_text(text: Seq<char>) -> Seq<char>;

/// The text of the error with which `toml` refuses to read a value as a
/// sequence of strings.
pub uninterp spec fn toml_texts_error(value: TomlData) -> Seq<char>;

/// The text of the error with which `toml` refuses to read a value as a `u8`.
pub uninterp spec fn toml_small_int_error(value: TomlData) -> Seq<char>;

/// The text of the error with which `toml` refuses to read a value as a string.
pub uninterp spec fn toml_text_error(value: TomlData) -> Seq<char>;

/// Copies a `toml` value into a `TomlValue`, variant by variant.
#[verifier::external_body]
fn from_toml(v: toml::Value) -> TomlValue {
    match v {
        toml::Value::String(s) => TomlValue::String(s),
        toml::Value::Integer(i) => TomlValue::Integer(i),
        toml::Value::Float(f) => TomlValue::Float(f.to_string()),
        toml::Value::Boolean(b) => TomlValue::Boolean(b),
        toml::Value::Datetime(d) => TomlValue::Datetime(d.to_string()),
        toml::Value::Array(a) => TomlValue::Array(a.into_iter().map(from_toml).collect()),
        toml::Value::Table(t) => TomlValue::Table(t.into_iter().map(|(k, x)| (k, from_toml(x))).collect()),
    }
}

/// Copies a `TomlValue` back into a `toml` value, variant by variant; a float
/// or a date-time is read back from the text that `toml` wrote for it.
#[verifier::external_body]
fn to_toml(v: &TomlValue) -> toml::Value {
    match v {
        TomlValue::String(s) => toml::Value::String(s.clone()),
        TomlValue::Integer(i) => toml::Value::Integer(*i),
        TomlValue::Float(s) => toml::Value::Float(s.parse().unwrap_or_default()),
        TomlValue::Boolean(b) => toml::Value::Boolean(*b),
        TomlValue::Datetime(s) => s.parse().map(toml::Value::Datetime).unwrap_or_else(|_| toml::Value::String(s.clone())),
        TomlValue::Array(a) => toml::Value::Array(a.iter().map(to_toml).collect()),
        TomlValue::Table(t) => toml::Value::Table(t.iter().map(|(k, x)| (k.clone(), to_toml(x))).collect()),
    }
}

/// Parses `text` with `toml`'s `FromStr` for `toml::Table`. The result is
/// what `toml_document` names: the top-level entries, in the order of the
/// table (sorted by key), or the parser's error message.
#[verifier::external_body]
pub(crate) fn parse_toml_document(text: &str) -> (r: Result<Vec<(String, TomlValue)>, String>)
    ensures
        match r {
            Ok(t) => toml_document(text@) == Ok::<Seq<(Seq<char>, TomlData)>, Seq<char>>(data_of_entries(t@)),
            Err(e) => toml_document(text@) == Err::<Seq<(Seq<char>, TomlData)>, Seq<char>>(e@),
        },
{
    match text.parse::<toml::Table>() {
        Ok(t) => Ok(t.into_iter().map(|(k, v)| (k, from_toml(v))).collect()),
        Err(e) => Err(e.to_string()),
    }
}

/// `toml::Value::try_into` to `Vec<String>`: an array whose items are all
/// strings or date-times gives their texts (a date-time's as
/// `toml_datetime_text` names it); anything else is refused with the error
/// that `toml_texts_error` names.
#[verifier::external_body]
pub(crate) fn toml_into_texts(v: &TomlValue) -> (r: Result<Vec<String>, String>)
    ensures
        (r is Ok) == (texts_of(v@) is Some),
        r matches Ok(x) ==> x@.len() == texts_of(v@)->0.len() && forall|i: int|
            0 <= i < x@.len() ==> (#[trigger] x@[i])@ == texts_of(v@)->0[i],
        r matches Err(e) ==> e@ == toml_texts_error(v@),
{
    to_toml(v).try_into::<Vec<String>>().map_err(|e| e.to_string())
}

/// `toml::Value::try_into` to `u8`: an integer from 0 to 255 gives its value;
/// anything else is refused with the error that `toml_small_int_error` names.
#[verifier::external_body]
pub(crate) fn toml_into_small_int(v: &TomlValue) -> (r: Result<u8, String>)
    ensures
        (r is Ok) == (small_int_of(v@) is Some),
        r matches Ok(x) ==> x == small_int_of(v@)->0,
        r matches Err(e) ==> e@ == toml_small_int_error(v@),
{
    to_toml(v).try_into::<u8>().map_err(|e| e.to_string())
}

/// `toml::Value::try_into` to `String`: a string gives its text, a
/// date-time the text that `toml_datetime_text` names; anything else is
/// refused with the error that `toml_text_error` names.
#[verifier::external_body]
pub(crate) fn toml_into_text(v: &TomlValue) -> (r: Result<String, String>)
    ensures
        (r is Ok) == (text_of(v@) is Some),
        r matches Ok(x) ==> (v@ matches TomlData::Datetime(d) ==> x@ == toml_datetime_text(d)),
        r matches Ok(x) ==> x@ == text_of(v@)->0,
        r matches Err(e) ==> e@ == toml_text_error(v@),
{
    to_toml(v).try_into::<String>().map_err(|e| e.to_string())
}

} // verus!
