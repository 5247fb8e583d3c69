//! The dialog that tries a tool by hand: the parameter template it starts
//! from.

use vstd::prelude::*;

use crate::json::{entries_insert, entries_view, get_str, object_insert, JsonNumber, JsonValue, JsonView, NumberView};

verus! {

/// The placeholder value of a property with schema `prop`, chosen by its
/// `type` (a string when it has none): an empty string, zero, false, an
/// empty array or an empty object; other types get an empty string too.
pub open spec fn placeholder(prop: JsonView) -> JsonView {
    let ty = match get_str(prop, "type"@) {
        Some(t) => t,
        None => "string"@,
    };
    if ty == "number"@ {
        JsonView::Number(NumberView::PosInt(0))
    } else if ty == "boolean"@ {
        JsonView::Bool(false)
    } else if ty == "array"@ {
        JsonView::Array(Seq::empty())
    } else if ty == "object"@ {
        JsonView::Object(Seq::empty())
    } else {
        JsonView::Str(Seq::empty())
    }
}

/// The template entries for the first `n` properties of `props`.
pub open spec fn template_entries(props: Seq<(Seq<char>, JsonView)>, n: nat) -> Seq<(Seq<char>, JsonView)>
    decreases n,
{
    if n == 0 || n > props.len() {
        Seq::empty()
    } else {
        entries_insert(template_entries(props, (n - 1) as nat), props[n - 1].0, placeholder(props[n - 1].1))
    }
}

/// The parameters a tool test starts from: an object with a placeholder for
/// every property the schema describes, or none when the schema describes no
/// properties object.
pub open spec fn parameter_template_of(schema: JsonView) -> Option<JsonView> {
    match crate::json::view_get(schema, "properties"@) {
        Some(JsonView::Object(props)) => Some(JsonView::Object(template_entries(props, props.len()))),
        _ => None,
    }
}

/// The placeholder of one property (see [`placeholder`]).
fn placeholder_for(prop: &JsonValue) -> (r: JsonValue)
    ensures
        r@ == placeholder(prop@),
{
    let ty = match prop.get_str("type") {
        Some(t) => t,
        None => "string",
    };
    if crate::text::str_eq(ty, "number") {
        JsonValue::Number(JsonNumber::PosInt(0))
    } else if crate::text::str_eq(ty, "boolean") {
        JsonValue::Bool(false)
    } else if crate::text::str_eq(ty, "array") {
        JsonValue::empty_array()
    } else if crate::text::str_eq(ty, "object") {
        JsonValue::empty_object()
    } else {
        JsonValue::String(String::new())
    }
}

/// The parameters a test of a tool with input schema `schema` starts from
/// (see [`parameter_template_of`]).
pub fn parameter_template(schema: &JsonValue) -> (r: Option<JsonValue>)
    ensures
        match r {
            Some(v) => parameter_template_of(schema@) == Some(v@),
            None => parameter_template_of(schema@) is None,
        },
{
    let props = match schema.get("properties") {
        Some(JsonValue::Object(p)) => p,
        _ => {
            return None;
        },
    };
    let ghost pv = entries_view(props@);
    proof {
        assert(crate::json::view_get(schema@, "properties"@) == Some(JsonView::Object(pv))) by {
            assert(crate::json::view_as_object(JsonValue::Object(*props)@)->0 =~= pv);
        }
    }
    let mut template: Vec<(String, JsonValue)> = Vec::new();
    let mut i: usize = 0;
    assert(entries_view(template@) =~= Seq::<(Seq<char>, JsonView)>::empty());
    while i < props.len()
        invariant
            i <= props@.len(),
            pv == entries_view(props@),
            entries_view(template@) == template_entries(pv, i as nat),
        decreases props@.len() - i,
    {
        let key = props[i].0.clone();
        let value = placeholder_for(&props[i].1);
        object_insert(&mut template, key, value);
        i = i + 1;
    }
    Some(JsonValue::object_from(template))
}

} // verus!
