//! Structured documents (JSON and TOML) as plain values of the library.
use vstd::prelude::*;

use crate::text::str_eq;

verus! {

/// A document value: what a JSON or TOML parser produces, with numbers and
/// dates kept as their text.
pub enum DataValue {
    Null,
    Bool(bool),
    Number(String),
    Str(String),
    /// A value that neither JSON nor the logic distinguishes (a TOML date).
    Other(String),
    Array(Vec<DataValue>),
    /// The entries of an object or table, in the parser's order.
    Table(Vec<Entry>),
}

/// One key of an object or table.
pub struct Entry {
    pub key: String,
    pub value: DataValue,
}

/// The index of the first entry at or after `i` whose key is `key`.
pub open spec fn find_key_from(entries: Seq<Entry>, key: Seq<char>, i: int) -> Option<int>
    decreases entries.len() - i,
{
    if i < 0 || i >= entries.len() {
        None
    } else if entries[i].key@ == key {
        Some(i)
    } else {
        find_key_from(entries, key, i + 1)
    }
}

/// The value under `key` of an object or table (`Value::get`).
pub open spec fn field(v: DataValue, key: Seq<char>) -> Option<DataValue> {
    match v {
        DataValue::Table(es) => match find_key_from(es@, key, 0) {
            Some(i) => Some(es@[i].value),
            None => None,
        },
        _ => None,
    }
}

/// The text of a string value (`Value::as_str`).
pub open spec fn str_value(v: Option<DataValue>) -> Option<Seq<char>> {
    match v {
        Some(DataValue::Str(s)) => Some(s@),
        _ => None,
    }
}

/// The boolean of a boolean value (`Value::as_bool`).
pub open spec fn bool_value(v: Option<DataValue>) -> Option<bool> {
    match v {
        Some(DataValue::Bool(b)) => Some(b),
        _ => None,
    }
}

impl DataValue {
    /// `Value::get`: the value under `key` of an object or table.
    pub fn get(&self, key: &str) -> (r: Option<&DataValue>)
        ensures
            match r {
                Some(v) => field(*self, key@) == Some(*v),
                None => field(*self, key@) is None,
            },
    {
        match self {
            DataValue::Table(entries) => {
                let mut i: usize = 0;
                while i < entries.len()
                    invariant
                        i <= entries.len(),
                        *self == DataValue::Table(*entries),
                        find_key_from(entries@, key@, 0) == find_key_from(entries@, key@, i as int),
                    decreases entries.len() - i,
                {
                    if str_eq(entries[i].key.as_str(), key) {
                        assert(find_key_from(entries@, key@, i as int) == Some(i as int));
                        return Some(&entries[i].value);
                    }
                    i = i + 1;
                }
                None
            },
            _ => None,
        }
    }

    /// `Value::as_str`.
    pub fn as_str(&self) -> (r: Option<&String>)
        ensures
            match r {
                Some(s) => *self == DataValue::Str(*s),
                None => !(self is Str),
            },
    {
        match self {
            DataValue::Str(s) => Some(s),
            _ => None,
        }
    }

    /// `Value::as_bool`.
    pub fn as_bool(&self) -> (r: Option<bool>)
        ensures
            r == bool_value(Some(*self)),
    {
        match self {
            DataValue::Bool(b) => Some(*b),
            _ => None,
        }
    }

    /// `Value::as_array`.
    pub fn as_array(&self) -> (r: Option<&Vec<DataValue>>)
        ensures
            match r {
                Some(a) => *self == DataValue::Array(*a),
                None => !(self is Array),
            },
    {
        match self {
            DataValue::Array(a) => Some(a),
            _ => None,
        }
    }

    /// `Value::as_object`.
    pub fn as_table(&self) -> (r: Option<&Vec<Entry>>)
        ensures
            match r {
                Some(t) => *self == DataValue::Table(*t),
                None => !(self is Table),
            },
    {
        match self {
            DataValue::Table(t) => Some(t),
            _ => None,
        }
    }
}

/// The string under `key` of `v`, where there is one.
pub fn get_str<'a>(v: &'a DataValue, key: &str) -> (r: Option<&'a String>)
    ensures
        match r {
            Some(s) => str_value(field(*v, key@)) == Some(s@),
            None => str_value(field(*v, key@)) is None,
        },
{
    match v.get(key) {
        Some(x) => x.as_str(),
        None => None,
    }
}

/// The array under `key` of `v`, where there is one.
pub fn get_array<'a>(v: &'a DataValue, key: &str) -> (r: Option<&'a Vec<DataValue>>)
    ensures
        match r {
            Some(a) => field(*v, key@) == Some(DataValue::Array(*a)),
            None => !(field(*v, key@) matches Some(DataValue::Array(_))),
        },
{
    match v.get(key) {
        Some(x) => x.as_array(),
        None => None,
    }
}

/// The object under `key` of `v`, where there is one.
pub fn get_table<'a>(v: &'a DataValue, key: &str) -> (r: Option<&'a Vec<Entry>>)
    ensures
        match r {
            Some(t) => field(*v, key@) == Some(DataValue::Table(*t)),
            None => !(field(*v, key@) matches Some(DataValue::Table(_))),
        },
{
    match v.get(key) {
        Some(x) => x.as_table(),
        None => None,
    }
}

/// The strings among `items`, in order (the others are skipped).
pub open spec fn strings_in(items: Seq<DataValue>) -> Seq<Seq<char>>
    decreases items.len(),
{
    if items.len() == 0 {
        Seq::empty()
    } else {
        let rest = strings_in(items.drop_last());
        match items.last() {
            DataValue::Str(s) => rest.push(s@),
            _ => rest,
        }
    }
}

/// The strings of an array value; nothing where the value is no array.
pub open spec fn string_items(v: Option<DataValue>) -> Seq<Seq<char>> {
    match v {
        Some(DataValue::Array(a)) => strings_in(a@),
        _ => Seq::empty(),
    }
}

/// The strings among `items`, in order.
pub fn strings_of(items: &Vec<DataValue>) -> (r: Vec<String>)
    ensures
        r.deep_view() == strings_in(items@),
{
    let mut r: Vec<String> = Vec::new();
    let mut i: usize = 0;
    assert(items@.take(0) =~= Seq::<DataValue>::empty());
    assert(r.deep_view() =~= Seq::<Seq<char>>::empty());
    while i < items.len()
        invariant
            i <= items.len(),
            r.deep_view() == strings_in(items@.take(i as int)),
        decreases items.len() - i,
    {
        assert(items@.take(i + 1).drop_last() =~= items@.take(i as int));
        assert(items@.take(i + 1).last() == items@[i as int]);
        match &items[i] {
            DataValue::Str(s) => {
                let ghost before = r.deep_view();
                r.push(s.clone());
                assert(r.deep_view() =~= before.push(s@));
            },
            _ => {},
        }
        i = i + 1;
    }
    assert(items@.take(items.len() as int) =~= items@);
    r
}

// ---------------------------------------------------------------------
// Parsers
// ---------------------------------------------------------------------

#[verifier::external_type_specification]
#[verifier::external_body]
pub struct ExJsonValue(serde_json::Value);

#[verifier::external_type_specification]
#[verifier::external_body]
pub struct ExTomlValue(toml::Value);

/// The document that `serde_json::from_str::<serde_json::Value>` reads from
/// `text`, as a [`DataValue`]; `None` where the text is not JSON.
pub uninterp spec fn json_document(text: Seq<char>) -> Option<DataValue>;

/// The document that `toml::from_str::<toml::Value>` reads from `text`, as a
/// [`DataValue`]; `None` where the text is not TOML.
pub uninterp spec fn toml_document(text: Seq<char>) -> Option<DataValue>;

/// Moves a `serde_json::Value` into a [`DataValue`], variant for variant
/// (numbers as their text, object entries in the map's order).
#[verifier::external_body]
fn data_of_json(v: serde_json::Value) -> DataValue {
    match v {
        serde_json::Value::Null => DataValue::Null,
        serde_json::Value::Bool(b) => DataValue::Bool(b),
        serde_json::Value::Number(n) => DataValue::Number(n.to_string()),
        serde_json::Value::String(s) => DataValue::Str(s),
        serde_json::Value::Array(a) => DataValue::Array(a.into_iter().map(data_of_json).collect()),
        serde_json::Value::Object(m) => DataValue::Table(
            m.into_iter().map(|(key, value)| Entry { key, value: data_of_json(value) }).collect(),
        ),
    }
}

/// Moves a `toml::Value` into a [`DataValue`], variant for variant (numbers
/// and dates as their text, table entries in the map's order).
#[verifier::external_body]
fn data_of_toml(v: toml::Value) -> DataValue {
    match v {
        toml::Value::String(s) => DataValue::Str(s),
        toml::Value::Integer(i) => DataValue::Number(i.to_string()),
        toml::Value::Float(f) => DataValue::Number(f.to_string()),
        toml::Value::Boolean(b) => DataValue::Bool(b),
        toml::Value::Datetime(d) => DataValue::Other(d.to_string()),
        toml::Value::Array(a) => DataValue::Array(a.into_iter().map(data_of_toml).collect()),
        toml::Value::Table(t) => DataValue::Table(
            t.into_iter().map(|(key, value)| Entry { key, value: data_of_toml(value) }).collect(),
        ),
    }
}

/// Parses `text` with `serde_json::from_str::<serde_json::Value>`; the error
/// is the parser's message.
#[verifier::external_body]
pub(crate) fn parse_json(text: &str) -> (r: Result<DataValue, String>)
    ensures
        match r {
            Ok(v) => json_document(text@) == Some(v),
            Err(_) => json_document(text@) is None,
        },
{
    match serde_json::from_str::<serde_json::Value>(text) {
        Ok(v) => Ok(data_of_json(v)),
        Err(e) => Err(e.to_string()),
    }
}

/// Parses `text` with `toml::from_str::<toml::Value>`; the error is the
/// parser's message.
#[verifier::external_body]
pub(crate) fn parse_toml(text: &str) -> (r: Result<DataValue, String>)
    ensures
        match r {
            Ok(v) => toml_document(text@) == Some(v),
            Err(_) => toml_document(text@) is None,
        },
{
    match toml::from_str::<toml::Value>(text) {
        Ok(v) => Ok(data_of_toml(v)),
        Err(e) => Err(e.to_string()),
    }
}

} // verus!
