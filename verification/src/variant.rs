//! The tagged-union value in which the remote daemon delivers records.
//!
//! A record is a structure of positionally ordered fields; a field may be an
//! integer of any width or signedness, a string, an array, a nested
//! structure, or something this consumer does not read.  The accessors
//! degrade gracefully: a missing or differently shaped field yields `None`
//! and the caller substitutes a default, because the far end enforces no
//! schema the consumer can trust.

use vstd::prelude::*;

verus! {

/// One value of the loosely typed record encoding.
pub enum VariantValue {
    /// A signed 16-bit integer.
    I16(i16),
    /// An unsigned 16-bit integer.
    U16(u16),
    /// A signed 32-bit integer.
    I32(i32),
    /// An unsigned 32-bit integer.
    U32(u32),
    /// A signed 64-bit integer.
    I64(i64),
    /// An unsigned 64-bit integer.
    U64(u64),
    /// A text value.
    Str(String),
    /// An ordered list of values.
    Array(Vec<VariantValue>),
    /// A structure of positionally ordered fields.
    Structure(Vec<VariantValue>),
    /// Any kind this consumer does not read.
    Other,
}

/// The mathematical model of a [`VariantValue`].
pub ghost enum VariantView {
    I16(i16),
    U16(u16),
    I32(i32),
    U32(u32),
    I64(i64),
    U64(u64),
    Str(Seq<char>),
    Array(Seq<VariantView>),
    Structure(Seq<VariantView>),
    Other,
}

/// The models of a list of values.
pub open spec fn values_view(s: Seq<VariantValue>) -> Seq<VariantView> {
    s.map_values(|v: VariantValue| v@)
}

/// The model of one value.
pub open spec fn variant_view(v: VariantValue) -> VariantView
    decreases v,
{
    match v {
        VariantValue::I16(x) => VariantView::I16(x),
        VariantValue::U16(x) => VariantView::U16(x),
        VariantValue::I32(x) => VariantView::I32(x),
        VariantValue::U32(x) => VariantView::U32(x),
        VariantValue::I64(x) => VariantView::I64(x),
        VariantValue::U64(x) => VariantView::U64(x),
        VariantValue::Str(s) => VariantView::Str(s@),
        VariantValue::Array(items) => VariantView::Array(
            Seq::new(
                items@.len(),
                |i: int|
                    if 0 <= i < items@.len() {
                        variant_view(items@[i])
                    } else {
                        VariantView::Other
                    },
            ),
        ),
        VariantValue::Structure(fields) => VariantView::Structure(
            Seq::new(
                fields@.len(),
                |i: int|
                    if 0 <= i < fields@.len() {
                        variant_view(fields@[i])
                    } else {
                        VariantView::Other
                    },
            ),
        ),
        VariantValue::Other => VariantView::Other,
    }
}

impl View for VariantValue {
    type V = VariantView;

    open spec fn view(&self) -> VariantView {
        variant_view(*self)
    }
}

/// The signed 64-bit reading of a value: any integer kind is accepted and
/// widened or reinterpreted; any other kind is refused.
pub open spec fn spec_as_i64(v: VariantView) -> Option<i64> {
    match v {
        VariantView::I64(x) => Some(x),
        VariantView::I32(x) => Some(x as i64),
        VariantView::U64(x) => Some(x as i64),
        VariantView::U32(x) => Some(x as i64),
        VariantView::I16(x) => Some(x as i64),
        VariantView::U16(x) => Some(x as i64),
        _ => None,
    }
}

/// The signed 32-bit reading of a value: any integer kind is accepted,
/// widened or narrowed as needed; any other kind is refused.
pub open spec fn spec_as_i32(v: VariantView) -> Option<i32> {
    match v {
        VariantView::I32(x) => Some(x),
        VariantView::I64(x) => Some(x as i32),
        VariantView::U64(x) => Some(x as i32),
        VariantView::U32(x) => Some(x as i32),
        VariantView::I16(x) => Some(x as i32),
        VariantView::U16(x) => Some(x as i32),
        _ => None,
    }
}

/// The text reading of a value: only a string kind is accepted.
pub open spec fn spec_as_str(v: VariantView) -> Option<Seq<char>> {
    match v {
        VariantView::Str(s) => Some(s),
        _ => None,
    }
}

/// Extract a signed 64-bit integer from a value, whatever integer width it
/// arrived in.
pub fn get_i64_from_value(value: &VariantValue) -> (r: Option<i64>)
    ensures
        r == spec_as_i64(value@),
{
    match value {
        VariantValue::I64(x) => Some(*x),
        VariantValue::I32(x) => Some(*x as i64),
        VariantValue::U64(x) => Some(*x as i64),
        VariantValue::U32(x) => Some(*x as i64),
        VariantValue::I16(x) => Some(*x as i64),
        VariantValue::U16(x) => Some(*x as i64),
        _ => None,
    }
}

/// Extract a signed 32-bit integer from a value, whatever integer width it
/// arrived in, narrowing the wider kinds.
pub fn get_i32_from_value(value: &VariantValue) -> (r: Option<i32>)
    ensures
        r == spec_as_i32(value@),
{
    match value {
        VariantValue::I32(x) => Some(*x),
        VariantValue::I64(x) => Some(*x as i32),
        VariantValue::U64(x) => Some(*x as i32),
        VariantValue::U32(x) => Some(*x as i32),
        VariantValue::I16(x) => Some(*x as i32),
        VariantValue::U16(x) => Some(*x as i32),
        _ => None,
    }
}

/// Extract a string from a value.
pub fn get_string_from_value(value: &VariantValue) -> (r: Option<String>)
    ensures
        r is Some == spec_as_str(value@) is Some,
        r is Some ==> r->Some_0@ == spec_as_str(value@)->Some_0,
{
    match value {
        VariantValue::Str(s) => Some(s.clone()),
        _ => None,
    }
}

/// The first address of an address-list field: the list is an array whose
/// elements are single-field structures holding a string, though a bare
/// string element is accepted too.
pub open spec fn spec_first_address(v: VariantView) -> Option<Seq<char>> {
    match v {
        VariantView::Array(items) => {
            if items.len() > 0 {
                match items[0] {
                    VariantView::Structure(fields) => {
                        if fields.len() > 0 {
                            spec_as_str(fields[0])
                        } else {
                            None
                        }
                    },
                    _ => spec_as_str(items[0]),
                }
            } else {
                None
            }
        },
        _ => None,
    }
}

/// Pull the first element out of an address-list field.
pub fn get_first_address(value: &VariantValue) -> (r: Option<String>)
    ensures
        r is Some == spec_first_address(value@) is Some,
        r is Some ==> r->Some_0@ == spec_first_address(value@)->Some_0,
{
    match value {
        VariantValue::Array(items) => {
            proof {
                assert(*value == VariantValue::Array(*items));
                assert(value@ is Array);
                assert(value@->Array_0.len() == items@.len());
            }
            if items.len() > 0 {
                let first = &items[0];
                proof {
                    assert(value@->Array_0[0] == first@);
                }
                match first {
                    VariantValue::Structure(fields) => {
                        proof {
                            assert(first@ is Structure);
                            assert(first@->Structure_0.len() == fields@.len());
                        }
                        if fields.len() > 0 {
                            proof {
                                assert(first@->Structure_0[0] == fields@[0]@);
                            }
                            get_string_from_value(&fields[0])
                        } else {
                            None
                        }
                    },
                    _ => get_string_from_value(first),
                }
            } else {
                None
            }
        },
        _ => None,
    }
}

} // verus!
