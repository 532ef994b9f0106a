//! The decoded document: a JSON value as the projection reads it.

use vstd::prelude::*;

verus! {

/// A JSON number, as `serde_json` holds it. Nothing is read from it here:
/// it is carried to where its text is made.
#[verifier::external_type_specification]
#[verifier::external_body]
pub struct ExNumber(serde_json::Number);

/// The mathematical value of a [`Scalar`].
pub enum ScalarValue {
    Null,
    Bool(bool),
    Number(serde_json::Number),
    Text(Seq<char>),
}

/// The mathematical value of a [`JsonValue`].
pub enum Json {
    Scalar(ScalarValue),
    /// The elements, in index order.
    Array(Seq<Json>),
    /// The members, key and value, in the object's own order.
    Object(Seq<(Seq<char>, Json)>),
}

/// A JSON value that holds no other value.
#[derive(Debug, PartialEq, Eq)]
pub enum Scalar {
    Null,
    Bool(bool),
    Number(serde_json::Number),
    String(String),
}

/// A decoded JSON value. An object keeps its members in the order in which
/// they are to be shown.
#[derive(Debug, PartialEq, Eq)]
pub enum JsonValue {
    Scalar(Scalar),
    Array(Vec<JsonValue>),
    Object(Vec<(String, JsonValue)>),
}

impl View for Scalar {
    type V = ScalarValue;

    open spec fn view(&self) -> ScalarValue {
        match self {
            Scalar::Null => ScalarValue::Null,
            Scalar::Bool(b) => ScalarValue::Bool(*b),
            Scalar::Number(n) => ScalarValue::Number(*n),
            Scalar::String(s) => ScalarValue::Text(s@),
        }
    }
}

/// The mathematical value of a decoded JSON value.
pub open spec fn json_of(value: JsonValue) -> Json
    decreases value,
{
    match value {
        JsonValue::Scalar(scalar) => Json::Scalar(scalar@),
        JsonValue::Array(items) => Json::Array(
            Seq::new(
                items@.len(),
                |i: int|
                    if 0 <= i < items@.len() {
                        json_of(items@[i])
                    } else {
                        arbitrary()
                    },
            ),
        ),
        JsonValue::Object(members) => Json::Object(
            Seq::new(
                members@.len(),
                |i: int|
                    if 0 <= i < members@.len() {
                        (members@[i].0@, json_of(members@[i].1))
                    } else {
                        arbitrary()
                    },
            ),
        ),
    }
}

impl View for JsonValue {
    type V = Json;

    open spec fn view(&self) -> Json {
        json_of(*self)
    }
}

/// The views of the elements of an array.
pub open spec fn values_of(items: Seq<JsonValue>) -> Seq<Json> {
    Seq::new(items.len(), |i: int| items[i]@)
}

/// The views of the members of an object.
pub open spec fn members_of(members: Seq<(String, JsonValue)>) -> Seq<(Seq<char>, Json)> {
    Seq::new(members.len(), |i: int| (members[i].0@, members[i].1@))
}

/// The view of a container holds the views of its entries.
pub proof fn lemma_container_view(value: JsonValue)
    ensures
        value matches JsonValue::Array(items) ==> value@ == Json::Array(values_of(items@)),
        value matches JsonValue::Object(members) ==> value@ == Json::Object(
            members_of(members@),
        ),
{
    match value {
        JsonValue::Scalar(_) => {},
        JsonValue::Array(items) => {
            assert(value@->Array_0 =~= values_of(items@));
        },
        JsonValue::Object(members) => {
            assert(value@->Object_0 =~= members_of(members@));
        },
    }
}

/// No key occurs twice among the members of an object.
pub open spec fn keys_distinct(members: Seq<(Seq<char>, Json)>) -> bool {
    forall|i: int, j: int| 0 <= i < j < members.len() ==> members[i].0 != members[j].0
}

/// Every object in the value has pairwise distinct keys.
pub open spec fn well_formed(value: Json) -> bool
    decreases value,
{
    match value {
        Json::Scalar(_) => true,
        Json::Array(items) => forall|i: int| 0 <= i < items.len() ==> well_formed(items[i]),
        Json::Object(members) => {
            &&& keys_distinct(members)
            &&& forall|i: int| 0 <= i < members.len() ==> well_formed(members[i].1)
        },
    }
}

/// The compact JSON text that `serde_json` writes for a number or a string.
pub uninterp spec fn compact_text(scalar: ScalarValue) -> Seq<char>;

/// The JSON text of a scalar: `null`, `true` or `false` for the scalars that
/// are written so, and for a number or a string what `serde_json` writes.
pub open spec fn json_text(scalar: ScalarValue) -> Seq<char> {
    match scalar {
        ScalarValue::Null => "null"@,
        ScalarValue::Bool(b) => if b {
            "true"@
        } else {
            "false"@
        },
        _ => compact_text(scalar),
    }
}

/// The text of a scalar, made by `serde_json`'s `Display` for `Value`. The
/// contract says what the source shows of the simplest shapes: null is
/// written `null`, a boolean `true` or `false`. For a number or a string it
/// names the text after the scalar, so that equal scalars have equal texts.
#[verifier::external_body]
fn display_scalar(scalar: &Scalar) -> (text: String)
    ensures
        scalar@ is Null ==> text@ == "null"@,
        scalar@ == ScalarValue::Bool(true) ==> text@ == "true"@,
        scalar@ == ScalarValue::Bool(false) ==> text@ == "false"@,
        scalar@ is Number || scalar@ is Text ==> text@ == compact_text(scalar@),
{
    let value = match scalar {
        Scalar::Null => serde_json::Value::Null,
        Scalar::Bool(b) => serde_json::Value::Bool(*b),
        Scalar::Number(n) => serde_json::Value::Number(n.clone()),
        Scalar::String(s) => serde_json::Value::String(s.clone()),
    };
    value.to_string()
}

/// The JSON text of a scalar.
pub fn scalar_text(scalar: &Scalar) -> (text: String)
    ensures
        text@ == json_text(scalar@),
{
    display_scalar(scalar)
}

} // verus!
