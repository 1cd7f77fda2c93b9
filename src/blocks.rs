//! Built-in blocks that need no floating-point arithmetic.
use vstd::prelude::*;
use crate::block::PortDefinition;
use crate::value::{Value, ValueMap, ValueModel};

pub mod basic;
pub mod control;
pub mod logic;
pub mod string;

verus! {

/// A map with the single entry `key` to `v`.
pub open spec fn single(key: Seq<char>, v: ValueModel) -> Map<Seq<char>, ValueModel> {
    Map::<Seq<char>, ValueModel>::empty().insert(key, v)
}

/// The boolean held at `key`, if the entry there is a boolean.
pub open spec fn bool_at(m: Map<Seq<char>, ValueModel>, key: Seq<char>) -> Option<bool> {
    if m.contains_key(key) {
        match m[key] {
            ValueModel::Bool(b) => Some(b),
            _ => None,
        }
    } else {
        None
    }
}

/// The string held at `key`, if the entry there is a string.
pub open spec fn str_at(m: Map<Seq<char>, ValueModel>, key: Seq<char>) -> Option<Seq<char>> {
    if m.contains_key(key) {
        match m[key] {
            ValueModel::Str(s) => Some(s),
            _ => None,
        }
    } else {
        None
    }
}

/// A required port.
pub(crate) fn port(id: &str, name: &str, data_type: &str) -> (p: PortDefinition)
    ensures
        p.id@ == id@,
{
    PortDefinition {
        id: id.to_owned(),
        name: name.to_owned(),
        data_type: data_type.to_owned(),
        required: true,
    }
}

/// Outputs with the single entry `key` to `value`.
pub(crate) fn single_output(key: &str, value: Value) -> (r: ValueMap)
    ensures
        r.model() == single(key@, value.model()),
{
    let mut out = ValueMap::new();
    out.insert(key.to_owned(), value);
    out
}

/// The boolean at `key` of `m`, if the entry there is a boolean.
pub(crate) fn get_bool(m: &ValueMap, key: &str) -> (r: Option<bool>)
    ensures
        r == bool_at(m.model(), key@),
{
    match m.get(key) {
        Some(v) => v.as_bool(),
        None => None,
    }
}

} // verus!
