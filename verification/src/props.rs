//! The property record attached to an element node: a key, a style-key list,
//! and an open attribute bag whose values are arbitrary JSON data. The bag is
//! opaque to the reconciler; it is produced by the host application and
//! consumed by component render logic.

use std::collections::HashMap;
use vstd::prelude::*;

use crate::layout::StylesList;

verus! {

#[verifier::external_type_specification]
#[verifier::external_body]
pub struct ExValue(serde_json::Value);

/// The JSON value that `serde_json::Value::String` builds from a piece of
/// text; it depends on the characters alone.
pub uninterp spec fn json_string_of(s: Seq<char>) -> serde_json::Value;

/// Relies on serde_json::Value::String: wraps owned text as a JSON string
/// value. The result is a function of the characters alone.
#[verifier::external_body]
fn json_string_value(s: &str) -> (r: serde_json::Value)
    ensures
        r == json_string_of(s@),
{
    serde_json::Value::String(s.to_string())
}

/// A value stored inside the `attributes` bag on a `Props` record. It shadows
/// a `serde_json::Value`; further value kinds can be added beside it.
pub enum AttributeType {
    Value(serde_json::Value),
}

impl<'a> From<&'a str> for AttributeType {
    /// Converts borrowed text to a storable attribute value.
    fn from(f: &'a str) -> (r: Self) {
        AttributeType::Value(json_string_value(f))
    }
}

impl<'a> vstd::std_specs::convert::FromSpecImpl<&'a str> for AttributeType {
    open spec fn obeys_from_spec() -> bool {
        true
    }

    open spec fn from_spec(f: &'a str) -> Self {
        AttributeType::Value(json_string_of(f@))
    }
}

/// The per-render description attached to an element node. The common keys —
/// `key` and `styles` — are carried as fields for fast access; everything
/// else sits in the open `attributes` bag.
pub struct Props {
    pub attributes: HashMap<&'static str, AttributeType>,
    pub key: String,
    pub styles: StylesList,
}

impl Props {
    /// Builds a property record from its parts.
    pub fn new(
        key: String,
        styles: StylesList,
        attributes: HashMap<&'static str, AttributeType>,
    ) -> (r: Props)
        ensures
            r.key == key,
            r.styles == styles,
            r.attributes == attributes,
    {
        Props { attributes, key, styles }
    }

    /// Looks a name up in the attribute record. The common keys are carried
    /// as fields rather than served from the bag, and lookup into the open
    /// bag itself is not offered by this core, so every query answers `None`.
    pub fn get(&self, _key: &str) -> (r: Option<&AttributeType>)
        ensures
            r is None,
    {
        None
    }
}

} // verus!
