use vstd::prelude::*;

verus! {

/// A structured scalar that extra data may carry in the serialized body.
#[derive(Clone, Debug, PartialEq)]
pub enum JsonValue {
    Null,
    Bool(bool),
    Str(String),
}

/// The mathematical model of a [`JsonValue`].
pub enum JsonValueSpec {
    Null,
    Bool(bool),
    Str(Seq<char>),
}

impl View for JsonValue {
    type V = JsonValueSpec;

    open spec fn view(&self) -> JsonValueSpec {
        match self {
            JsonValue::Null => JsonValueSpec::Null,
            JsonValue::Bool(b) => JsonValueSpec::Bool(*b),
            JsonValue::Str(s) => JsonValueSpec::Str(s@),
        }
    }
}

} // verus!
