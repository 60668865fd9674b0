//! Frontmatter values, held as the library's own data.
//!
//! The frontmatter is kept as an untyped value rather than a struct: the set of
//! fields is the schema's, which is data, not code. Parsing is
//! `serde_yaml_ng`'s; the library holds what it reads of the result.

use vstd::prelude::*;

use crate::text::str_eq;

verus! {

/// One YAML value, with the variants `serde_yaml_ng::Value` has. Of a number
/// the library reads only that it is one.
#[derive(Debug)]
pub enum YamlValue {
    Null,
    Bool(bool),
    Number,
    Str(String),
    Sequence(Vec<YamlValue>),
    Mapping(Vec<(YamlValue, YamlValue)>),
    Tagged(Box<YamlValue>),
}

/// Why a text is not YAML: the line the parser names, if it names one, and
/// its message.
#[derive(Debug)]
pub struct YamlError {
    pub line: Option<usize>,
    pub message: String,
}

#[verifier::external_type_specification]
#[verifier::external_body]
pub struct ExYamlValue(serde_yaml_ng::Value);

/// What `serde_yaml_ng::from_str::<serde_yaml_ng::Value>` makes of a text: the
/// value, or the error's line (`Location::line`) and message (`Display`).
pub uninterp spec fn yaml_document(text: Seq<char>) -> Result<YamlValue, YamlError>;

/// Parses `text` with `serde_yaml_ng::from_str::<serde_yaml_ng::Value>` and
/// converts the result one for one. Claimed: the result is `yaml_document` of
/// the text; nothing is claimed about which texts parse or to what.
#[verifier::external_body]
pub(crate) fn parse_yaml(text: &str) -> (r: Result<YamlValue, YamlError>)
    ensures
        r == yaml_document(text@),
{
    match serde_yaml_ng::from_str::<serde_yaml_ng::Value>(text) {
        Ok(value) => Ok(from_yaml(value)),
        Err(e) => Err(YamlError { line: e.location().map(|l| l.line()), message: e.to_string() }),
    }
}

/// Converts a `serde_yaml_ng::Value` variant by variant, moving each field;
/// only `parse_yaml` uses it.
#[verifier::external_body]
fn from_yaml(value: serde_yaml_ng::Value) -> YamlValue {
    match value {
        serde_yaml_ng::Value::Null => YamlValue::Null,
        serde_yaml_ng::Value::Bool(b) => YamlValue::Bool(b),
        serde_yaml_ng::Value::Number(_) => YamlValue::Number,
        serde_yaml_ng::Value::String(s) => YamlValue::Str(s),
        serde_yaml_ng::Value::Sequence(v) => YamlValue::Sequence(v.into_iter().map(from_yaml).collect()),
        serde_yaml_ng::Value::Mapping(m) => YamlValue::Mapping(
            m.into_iter().map(|(k, v)| (from_yaml(k), from_yaml(v))).collect(),
        ),
        serde_yaml_ng::Value::Tagged(t) => YamlValue::Tagged(Box::new(from_yaml(t.value))),
    }
}

impl YamlValue {
    /// The value under any number of tags.
    pub open spec fn untagged(self) -> YamlValue
        decreases self,
    {
        match self {
            YamlValue::Tagged(inner) => (*inner).untagged(),
            _ => self,
        }
    }

    pub fn untag(&self) -> (r: &YamlValue)
        ensures
            *r == self.untagged(),
        decreases self,
    {
        match self {
            YamlValue::Tagged(inner) => inner.untag(),
            _ => self,
        }
    }

    /// The text of a string, looking through tags, as `Value::as_str` does.
    pub open spec fn text(self) -> Option<Seq<char>> {
        match self.untagged() {
            YamlValue::Str(s) => Some(s@),
            _ => None,
        }
    }

    pub fn as_str(&self) -> (r: Option<&String>)
        ensures
            match r {
                Some(s) => self.text() == Some(s@),
                None => self.text() is None,
            },
    {
        match self.untag() {
            YamlValue::Str(s) => Some(s),
            _ => None,
        }
    }

    /// The entries of a sequence, looking through tags, as
    /// `Value::as_sequence` does.
    pub open spec fn items(self) -> Option<Seq<YamlValue>> {
        match self.untagged() {
            YamlValue::Sequence(items) => Some(items@),
            _ => None,
        }
    }

    pub fn as_sequence(&self) -> (r: Option<&Vec<YamlValue>>)
        ensures
            match r {
                Some(v) => self.items() == Some(v@),
                None => self.items() is None,
            },
    {
        match self.untag() {
            YamlValue::Sequence(items) => Some(items),
            _ => None,
        }
    }

    /// A value's shape, for messages.
    pub open spec fn shape(self) -> Seq<char> {
        match self {
            YamlValue::Null => "empty"@,
            YamlValue::Bool(_) => "a boolean"@,
            YamlValue::Number => "a number"@,
            YamlValue::Str(_) => "a string"@,
            YamlValue::Sequence(_) => "a list"@,
            YamlValue::Mapping(_) => "a mapping"@,
            YamlValue::Tagged(_) => "a tagged value"@,
        }
    }

    pub fn describe(&self) -> (r: &'static str)
        ensures
            r@ == self.shape(),
    {
        match self {
            YamlValue::Null => "empty",
            YamlValue::Bool(_) => "a boolean",
            YamlValue::Number => "a number",
            YamlValue::Str(_) => "a string",
            YamlValue::Sequence(_) => "a list",
            YamlValue::Mapping(_) => "a mapping",
            YamlValue::Tagged(_) => "a tagged value",
        }
    }
}

/// Whether a mapping key is the string `key`, compared as
/// `Value::String(key)` compares: a tagged string is a different key.
pub open spec fn is_key(k: YamlValue, key: Seq<char>) -> bool {
    k matches YamlValue::Str(s) && s@ == key
}

/// The value of the first entry at or after `i` whose key is `key`.
pub open spec fn lookup_from(entries: Seq<(YamlValue, YamlValue)>, key: Seq<char>, i: int) -> Option<
    YamlValue,
>
    decreases entries.len() - i,
{
    if i < 0 || i >= entries.len() {
        None
    } else if is_key(entries[i].0, key) {
        Some(entries[i].1)
    } else {
        lookup_from(entries, key, i + 1)
    }
}

/// The value stored under `key`, as `Mapping::get` finds it. A parsed
/// mapping never holds a key twice, so the first is the only one.
pub open spec fn lookup(entries: Seq<(YamlValue, YamlValue)>, key: Seq<char>) -> Option<YamlValue> {
    lookup_from(entries, key, 0)
}

pub fn mapping_get<'a>(entries: &'a Vec<(YamlValue, YamlValue)>, key: &str) -> (r: Option<
    &'a YamlValue,
>)
    ensures
        match r {
            Some(v) => lookup(entries@, key@) == Some(*v),
            None => lookup(entries@, key@) is None,
        },
{
    let mut i: usize = 0;
    while i < entries.len()
        invariant
            i <= entries.len(),
            lookup_from(entries@, key@, i as int) == lookup(entries@, key@),
        decreases entries.len() - i,
    {
        let (k, v) = &entries[i];
        let hit = match k {
            YamlValue::Str(s) => str_eq(s.as_str(), key),
            _ => false,
        };
        if hit {
            return Some(v);
        }
        i += 1;
    }
    None
}

} // verus!
