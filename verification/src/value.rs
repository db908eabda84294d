//! The tree value model: a closed set of scalar and container variants,
//! together with its mathematical mirror `SpecValue` used in contracts.

use vstd::prelude::*;

verus! {

broadcast use vstd::std_specs::vec::axiom_vec_decreases_to_view, vstd::seq::axiom_seq_index_decreases;

/// A parsed document value.
///
/// Text is kept as raw bytes throughout the library; the caller decides on
/// an encoding. A floating-point scalar keeps its source token verbatim
/// (the token is guaranteed to match the decimal float grammar), so the
/// library itself never computes with floating point.
///
/// A mapping stores its entries in insertion order, and its keys are unique;
/// both are needed for deterministic, re-parseable serialization.
#[derive(Debug, PartialEq)]
pub enum BellandeValue {
    Text(Vec<u8>),
    Integer(i64),
    Float(Vec<u8>),
    Boolean(bool),
    Null,
    List(Vec<BellandeValue>),
    Mapping(Vec<(Vec<u8>, BellandeValue)>),
}

/// The mathematical mirror of `BellandeValue`: sequences instead of vectors,
/// unbounded integers instead of machine integers.
#[verifier::ext_equal]
pub enum SpecValue {
    Text(Seq<u8>),
    Integer(int),
    Float(Seq<u8>),
    Boolean(bool),
    Null,
    List(Seq<SpecValue>),
    Mapping(Seq<(Seq<u8>, SpecValue)>),
}

/// The abstraction of a concrete tree value.
pub open spec fn view_value(v: BellandeValue) -> SpecValue
    decreases v,
{
    match v {
        BellandeValue::Text(s) => SpecValue::Text(s@),
        BellandeValue::Integer(i) => SpecValue::Integer(i as int),
        BellandeValue::Float(t) => SpecValue::Float(t@),
        BellandeValue::Boolean(b) => SpecValue::Boolean(b),
        BellandeValue::Null => SpecValue::Null,
        BellandeValue::List(items) => SpecValue::List(
            Seq::new(
                items@.len(),
                |i: int|
                    if 0 <= i < items@.len() {
                        view_value(items@[i])
                    } else {
                        SpecValue::Null
                    },
            ),
        ),
        BellandeValue::Mapping(entries) => SpecValue::Mapping(
            Seq::new(
                entries@.len(),
                |i: int|
                    if 0 <= i < entries@.len() {
                        (entries@[i].0@, view_value(entries@[i].1))
                    } else {
                        (Seq::empty(), SpecValue::Null)
                    },
            ),
        ),
    }
}

impl View for BellandeValue {
    type V = SpecValue;

    open spec fn view(&self) -> SpecValue {
        view_value(*self)
    }
}

impl SpecValue {
    /// A scalar is anything but a container.
    pub open spec fn is_scalar(self) -> bool {
        !(self is List) && !(self is Mapping)
    }
}

impl BellandeValue {
    /// A scalar is anything but a container.
    pub open spec fn is_scalar(self) -> bool {
        view_value(self).is_scalar()
    }
}

} // verus!
