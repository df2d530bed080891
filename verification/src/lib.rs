//! A verified codec for a minimalistic line-oriented configuration format.
//!
//! A document is an ordered sequence of entries; each entry maps a key to
//! either a single string or an ordered list of strings.  Text of the form
//! `key: value` gives a string entry, while a line without the `": "`
//! separator opens a list whose items follow on `"- "`-prefixed lines.
//!
//! The parser ([`Parser`], [`from_str`]) and the emitter ([`Emitter`],
//! [`to_string`]) are specified against a common mathematical model and both
//! directions are verified; `laws` states and proves the round-trip theorem.

use vstd::prelude::*;

pub mod emitter;
pub mod laws;
pub mod parser;
pub mod text;

pub use emitter::Emitter;
pub use parser::Parser;

verus! {

/// A list value: an ordered sequence of strings.
pub type List = Vec<String>;

/// The value of an entry: either an ordered list of strings or one string.
#[derive(Clone, Debug, PartialEq, Eq)]
pub enum Value {
    List(List),
    String(String),
}

/// The mathematical model of a [`Value`]: sequences of characters in place
/// of heap-allocated strings.
pub enum SpecValue {
    List(Seq<Seq<char>>),
    String(Seq<char>),
}

impl View for Value {
    type V = SpecValue;

    open spec fn view(&self) -> SpecValue {
        match self {
            Value::List(items) => SpecValue::List(items.deep_view()),
            Value::String(s) => SpecValue::String(s@),
        }
    }
}

impl DeepView for Value {
    type V = SpecValue;

    open spec fn deep_view(&self) -> SpecValue {
        self.view()
    }
}

impl From<List> for Value {
    /// Wraps a list of strings as a list value.
    fn from(value: List) -> (r: Value) {
        Value::List(value)
    }
}

impl vstd::std_specs::convert::FromSpecImpl<List> for Value {
    open spec fn obeys_from_spec() -> bool {
        true
    }

    open spec fn from_spec(value: List) -> Value {
        Value::List(value)
    }
}

impl From<String> for Value {
    /// Wraps a string as a string value.
    fn from(value: String) -> (r: Value) {
        Value::String(value)
    }
}

impl vstd::std_specs::convert::FromSpecImpl<String> for Value {
    open spec fn obeys_from_spec() -> bool {
        true
    }

    open spec fn from_spec(value: String) -> Value {
        Value::String(value)
    }
}

/// One entry of a document: a key paired with a value.
pub struct Mapping {
    pub key: String,
    pub value: Value,
}

/// The mathematical model of a [`Mapping`].
pub struct SpecMapping {
    pub key: Seq<char>,
    pub value: SpecValue,
}

impl View for Mapping {
    type V = SpecMapping;

    open spec fn view(&self) -> SpecMapping {
        SpecMapping { key: self.key@, value: self.value@ }
    }
}

impl DeepView for Mapping {
    type V = SpecMapping;

    open spec fn deep_view(&self) -> SpecMapping {
        self.view()
    }
}

impl Mapping {
    /// Builds an entry from a key and a value, exactly as given.
    pub fn new(key: String, value: Value) -> (m: Mapping)
        ensures
            m@ == (SpecMapping { key: key@, value: value@ }),
    {
        Mapping { key, value }
    }
}

/// Parses text into a document: lines trimmed, blank lines skipped, `": "`
/// splitting string entries at its first occurrence, other lines opening
/// lists that `"- "` lines extend.
pub fn from_str(s: &str) -> (r: Vec<Mapping>)
    ensures
        r.deep_view() == parser::parse_spec(s@),
{
    Parser::default().parse(s)
}

/// Emits a document as text, indenting each list-item line by `indent_size`
/// spaces.
pub fn to_string(mappings: &[Mapping], indent_size: u8) -> (r: String)
    ensures
        r@ == emitter::emit_spec(mappings.deep_view(), indent_size as nat),
{
    Emitter::new(indent_size).emit(mappings)
}

} // verus!
