//! The boundary to the TOML parser.  Manager definitions and configuration
//! fragments are generic key-to-value tables; parsing the text is delegated
//! to the `toml` crate, and everything after the parse is verified against
//! the plain shapes below.

use vstd::prelude::*;

verus! {

/// A table value, reduced to the shapes the engine cares about: a string, a
/// boolean, an array of strings, or anything else.
#[derive(Debug)]
pub enum TomlValue {
    /// A string value.
    Text(String),
    /// A boolean value.
    Flag(bool),
    /// An array whose elements are all strings.
    List(Vec<String>),
    /// Any other value shape (number, datetime, nested table, mixed array).
    Other,
}

/// The mathematical shape of a table value.
pub enum TomlValueModel {
    /// A string value.
    Text(Seq<char>),
    /// A boolean value.
    Flag(bool),
    /// An array whose elements are all strings.
    List(Seq<Seq<char>>),
    /// Any other value shape.
    Other,
}

/// The shape of a parsed table value.
pub open spec fn value_model(v: TomlValue) -> TomlValueModel {
    match v {
        TomlValue::Text(s) => TomlValueModel::Text(s@),
        TomlValue::Flag(b) => TomlValueModel::Flag(b),
        TomlValue::List(xs) => TomlValueModel::List(xs@.map_values(|x: String| x@)),
        TomlValue::Other => TomlValueModel::Other,
    }
}

/// The shape of a parsed table.
pub open spec fn entries_model(es: Seq<(String, TomlValue)>) -> Seq<(Seq<char>, TomlValueModel)> {
    es.map_values(|p: (String, TomlValue)| (p.0@, value_model(p.1)))
}

/// What parsing a piece of TOML text yields: `None` when the text is not a
/// valid TOML document, otherwise its key/value entries.
pub uninterp spec fn toml_table_of(s: Seq<char>) -> Option<Seq<(Seq<char>, TomlValueModel)>>;

/// Relies on `toml::from_str::<toml::Table>`: parses TOML text into a
/// key-to-value table; the result depends on the text alone.  String values,
/// boolean values and arrays of strings are kept as such; every other value
/// shape comes back as `Other`.  On failure the parser's message is handed
/// back.
#[verifier::external_body]
pub(crate) fn parse_toml_table(s: &str) -> (r: Result<Vec<(String, TomlValue)>, String>)
    ensures
        r is Ok <==> toml_table_of(s@) is Some,
        r matches Ok(es) ==> entries_model(es@) == toml_table_of(s@)->Some_0,
{
    let table: toml::Table = match toml::from_str(s) {
        Ok(t) => t,
        Err(e) => return Err(e.to_string()),
    };
    Ok(table.into_iter().map(|(k, v)| (k, match v {
        toml::Value::String(x) => TomlValue::Text(x),
        toml::Value::Boolean(b) => TomlValue::Flag(b),
        toml::Value::Array(a) => a.into_iter().map(|e| match e {
            toml::Value::String(x) => Some(x),
            _ => None,
        }).collect::<Option<Vec<String>>>().map_or(TomlValue::Other, TomlValue::List),
        _ => TomlValue::Other,
    })).collect())
}

} // verus!
