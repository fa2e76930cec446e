//! Projection of the dynamically typed value tree onto statically shaped
//! host values: a small set of extractable shapes, each with an exact
//! decoding relation.

use vstd::prelude::*;
use crate::error::DecodeError;
use crate::error::ShapeKind;
use crate::value::JsonNumber;
use crate::value::JsonValue;

verus! {

/// The shape of a value.
pub open spec fn shape_of(v: JsonValue) -> ShapeKind {
    match v {
        JsonValue::Unknown => ShapeKind::Unknown,
        JsonValue::Null => ShapeKind::Null,
        JsonValue::Bool(_) => ShapeKind::Bool,
        JsonValue::Number(_) => ShapeKind::Number,
        JsonValue::String(_) => ShapeKind::Text,
        JsonValue::Array(_) => ShapeKind::Array,
        JsonValue::Object(_) => ShapeKind::Object,
    }
}

/// The shape of a value, at run time.
pub fn shape_kind(v: &JsonValue) -> (r: ShapeKind)
    ensures
        r == shape_of(*v),
{
    match v {
        JsonValue::Unknown => ShapeKind::Unknown,
        JsonValue::Null => ShapeKind::Null,
        JsonValue::Bool(_) => ShapeKind::Bool,
        JsonValue::Number(_) => ShapeKind::Number,
        JsonValue::String(_) => ShapeKind::Text,
        JsonValue::Array(_) => ShapeKind::Array,
        JsonValue::Object(_) => ShapeKind::Object,
    }
}

/// A statically shaped type that a value tree can decode to.  Decoding never
/// re-enters the parser: it reads the finished tree alone.
pub trait FromJson: Sized {
    /// The decoding relation: the host value this tree stands for, if any.
    spec fn spec_from(v: JsonValue) -> Option<Self>;

    /// The shape this type asks of a value, named in errors.
    spec fn expected_shape() -> ShapeKind;

    /// Decodes a value of this type from the tree, or reports the shape
    /// mismatch.
    fn from_json(v: &JsonValue) -> (r: Result<Self, DecodeError>)
        ensures
            r matches Ok(t) ==> Self::spec_from(*v) == Some(t),
            r matches Err(e) ==> Self::spec_from(*v) is None && e.expected
                == Self::expected_shape() && e.found == shape_of(*v) && e.element is None,
    ;
}

impl FromJson for bool {
    open spec fn spec_from(v: JsonValue) -> Option<bool> {
        match v {
            JsonValue::Bool(b) => Some(b),
            _ => None,
        }
    }

    open spec fn expected_shape() -> ShapeKind {
        ShapeKind::Bool
    }

    fn from_json(v: &JsonValue) -> (r: Result<bool, DecodeError>) {
        match v {
            JsonValue::Bool(b) => Ok(*b),
            _ => Err(DecodeError { expected: ShapeKind::Bool, found: shape_kind(v), element: None }),
        }
    }
}

impl FromJson for i64 {
    open spec fn spec_from(v: JsonValue) -> Option<i64> {
        match v {
            JsonValue::Number(JsonNumber::Int(i)) => Some(i),
            _ => None,
        }
    }

    open spec fn expected_shape() -> ShapeKind {
        ShapeKind::Number
    }

    fn from_json(v: &JsonValue) -> (r: Result<i64, DecodeError>) {
        match v {
            JsonValue::Number(JsonNumber::Int(i)) => Ok(*i),
            _ => Err(DecodeError { expected: ShapeKind::Number, found: shape_kind(v), element: None }),
        }
    }
}

impl FromJson for String {
    open spec fn spec_from(v: JsonValue) -> Option<String> {
        match v {
            JsonValue::String(s) => Some(s),
            _ => None,
        }
    }

    open spec fn expected_shape() -> ShapeKind {
        ShapeKind::Text
    }

    fn from_json(v: &JsonValue) -> (r: Result<String, DecodeError>) {
        match v {
            JsonValue::String(s) => Ok(s.clone()),
            _ => Err(DecodeError { expected: ShapeKind::Text, found: shape_kind(v), element: None }),
        }
    }
}

impl<T: FromJson> FromJson for Option<T> {
    /// `null` decodes to `None`; anything else must decode as `T`.
    open spec fn spec_from(v: JsonValue) -> Option<Option<T>> {
        match v {
            JsonValue::Null => Some(None),
            _ => match T::spec_from(v) {
                Some(t) => Some(Some(t)),
                None => None,
            },
        }
    }

    open spec fn expected_shape() -> ShapeKind {
        T::expected_shape()
    }

    fn from_json(v: &JsonValue) -> (r: Result<Option<T>, DecodeError>) {
        match v {
            JsonValue::Null => Ok(None),
            _ => match T::from_json(v) {
                Ok(t) => Ok(Some(t)),
                Err(e) => Err(e),
            },
        }
    }
}

/// Converts a parsed value tree to a host value of a statically shaped type.
/// Fails with the expected and found shapes when the tree does not match.
pub fn to_rust<T: FromJson>(value: &JsonValue) -> (r: Result<T, DecodeError>)
    ensures
        r matches Ok(t) ==> T::spec_from(*value) == Some(t),
        r matches Err(e) ==> T::spec_from(*value) is None && e.expected == T::expected_shape()
            && e.found == shape_of(*value) && e.element is None,
{
    T::from_json(value)
}

/// The elements of an array value; empty for any other shape.
pub open spec fn elems_of(v: JsonValue) -> Seq<JsonValue> {
    match v {
        JsonValue::Array(a) => a@,
        _ => Seq::empty(),
    }
}

/// The members of an object value; empty for any other shape.
pub open spec fn members_of(v: JsonValue) -> Seq<(String, JsonValue)> {
    match v {
        JsonValue::Object(es) => es@,
        _ => Seq::empty(),
    }
}

/// Decodes every element of an array document: the array-of-`T` projection.
/// Succeeds exactly when the value is an array and each element decodes as
/// `T`, in order; the first element that does not decode supplies the error.
pub fn decode_array<T: FromJson>(value: &JsonValue) -> (r: Result<Vec<T>, DecodeError>)
    ensures
        r matches Ok(ts) ==> (*value is Array && ts@.len() == elems_of(*value).len() && forall|
            i: int,
        | 0 <= i < ts@.len() ==> T::spec_from(#[trigger] elems_of(*value)[i]) == Some(ts@[i])),
        r matches Err(e) ==> (!(*value is Array) ==> e.expected == ShapeKind::Array && e.found
            == shape_of(*value) && e.element is None),
        r matches Err(e) ==> (*value is Array ==> (e.element matches Some(i) && 0 <= i
            < elems_of(*value).len() && T::spec_from(elems_of(*value)[i as int]) is None && (
        forall|j: int|
            0 <= j < i ==> T::spec_from(#[trigger] elems_of(*value)[j]) is Some) && e.expected
            == T::expected_shape() && e.found == shape_of(elems_of(*value)[i as int]))),
        (*value is Array && (forall|i: int|
            0 <= i < elems_of(*value).len() ==> T::spec_from(
                #[trigger] elems_of(*value)[i],
            ) is Some)) ==> r is Ok,
{
    match value {
        JsonValue::Array(a) => {
            let mut out: Vec<T> = Vec::new();
            let mut i: usize = 0;
            while i < a.len()
                invariant
                    i <= a@.len(),
                    *value == JsonValue::Array(*a),
                    out@.len() == i,
                    forall|j: int| 0 <= j < i ==> T::spec_from(#[trigger] a@[j]) == Some(
                        out@[j],
                    ),
                decreases a@.len() - i,
            {
                match T::from_json(&a[i]) {
                    Ok(t) => {
                        out.push(t);
                    },
                    Err(e) => {
                        proof {
                            assert(T::spec_from(elems_of(*value)[i as int]) is None);
                        }
                        return Err(DecodeError {
                            expected: e.expected,
                            found: e.found,
                            element: Some(i),
                        });
                    },
                }
                i = i + 1;
            }
            Ok(out)
        },
        _ => Err(DecodeError { expected: ShapeKind::Array, found: shape_kind(value), element: None }),
    }
}

/// Decodes every member value of an object document: the mapping-of-`T`
/// projection, keys kept in order.  Succeeds exactly when the value is an
/// object and each member's value decodes as `T`; the first member that does
/// not decode supplies the error.
pub fn decode_entries<T: FromJson>(value: &JsonValue) -> (r: Result<
    Vec<(String, T)>,
    DecodeError,
>)
    ensures
        r matches Ok(ts) ==> (*value is Object && ts@.len() == members_of(*value).len()
            && forall|i: int|
            0 <= i < ts@.len() ==> (#[trigger] ts@[i]).0 == members_of(*value)[i].0
                && T::spec_from(members_of(*value)[i].1) == Some(ts@[i].1)),
        r matches Err(e) ==> (!(*value is Object) ==> e.expected == ShapeKind::Object && e.found
            == shape_of(*value) && e.element is None),
        r matches Err(e) ==> (*value is Object ==> (e.element matches Some(i) && 0 <= i
            < members_of(*value).len() && T::spec_from(members_of(*value)[i as int].1) is None
            && (forall|j: int|
            0 <= j < i ==> T::spec_from((#[trigger] members_of(*value)[j]).1) is Some)
            && e.expected == T::expected_shape() && e.found == shape_of(
            members_of(*value)[i as int].1,
        ))),
        (*value is Object && (forall|i: int|
            0 <= i < members_of(*value).len() ==> T::spec_from(
                (#[trigger] members_of(*value)[i]).1,
            ) is Some)) ==> r is Ok,
{
    match value {
        JsonValue::Object(es) => {
            let mut out: Vec<(String, T)> = Vec::new();
            let mut i: usize = 0;
            while i < es.len()
                invariant
                    i <= es@.len(),
                    *value == JsonValue::Object(*es),
                    out@.len() == i,
                    forall|j: int| 0 <= j < i ==> out@[j].0 == (#[trigger] es@[j]).0
                        && T::spec_from(es@[j].1) == Some(out@[j].1),
                decreases es@.len() - i,
            {
                match T::from_json(&es[i].1) {
                    Ok(t) => {
                        out.push((es[i].0.clone(), t));
                    },
                    Err(e) => {
                        proof {
                            assert(T::spec_from(members_of(*value)[i as int].1) is None);
                        }
                        return Err(DecodeError {
                            expected: e.expected,
                            found: e.found,
                            element: Some(i),
                        });
                    },
                }
                i = i + 1;
            }
            Ok(out)
        },
        _ => Err(DecodeError { expected: ShapeKind::Object, found: shape_kind(value), element: None }),
    }
}

} // verus!
