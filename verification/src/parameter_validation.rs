//! Validation of tool parameters against a tool's schema, and repair of
//! parameters that lack required fields.

use vstd::prelude::*;

use crate::json::{
    entries_get, entries_insert, lemma_insert_get_other, lemma_insert_get_same, entries_view, get_str, lemma_get_decreases, lemma_key_index_bounds,
    number_of_i64, object_insert, view_as_array, view_as_i64, view_as_object, view_as_u64, view_get,
    JsonNumber, JsonValue, JsonView, NumberView,
};
use crate::serde_bridge::{check_draft7, draft7_outcome, float_of_number, number_as_float};
use crate::text::{join, push_text, str_eq, string_from_chars};
use crate::tool::Tool;
use crate::validation_pipeline::texts;

verus! {

/// Validates and repairs parameters against a tool's schema.
pub struct ParameterValidator;

/// The verdict on `params` against `schema`: accepted, or the error text.
pub open spec fn parameter_check(schema: JsonView, params: JsonView) -> Result<(), Seq<char>> {
    match draft7_outcome(schema, params) {
        Err(e) => Err("Invalid schema: "@ + e),
        Ok(violations) => if violations.len() == 0 {
            Ok(())
        } else {
            Err("Parameter validation failed: "@ + join(violations, ", "@))
        },
    }
}

/// The default text chosen for a property by its `name`, for the usual names.
pub open spec fn named_default(name: Seq<char>) -> Option<Seq<char>> {
    if name == "path"@ {
        Some("/path/to/file"@)
    } else if name == "directory"@ || name == "dir"@ {
        Some("/path/to/directory"@)
    } else if name == "file"@ || name == "filename"@ {
        Some("filename.txt"@)
    } else if name == "content"@ {
        Some("Content goes here"@)
    } else if name == "query"@ {
        Some("search query"@)
    } else {
        None
    }
}

/// The default text of a string property with the given `format`.
pub open spec fn format_default(format: Seq<char>) -> Option<Seq<char>> {
    if format == "date"@ {
        Some("2023-01-01"@)
    } else if format == "date-time"@ {
        Some("2023-01-01T00:00:00Z"@)
    } else if format == "email"@ {
        Some("user@example.com"@)
    } else if format == "uri"@ || format == "url"@ {
        Some("https://example.com"@)
    } else {
        None
    }
}

/// The default value of a string property.
pub open spec fn string_default(s: JsonView) -> JsonView {
    let fmt = match get_str(s, "format"@) {
        Some(f) => format_default(f),
        None => None,
    };
    if fmt is Some {
        JsonView::Str(fmt->0)
    } else if view_get(s, "enum"@) matches Some(JsonView::Array(a)) && a.len() > 0 && a[0] is Str {
        view_as_array(view_get(s, "enum"@)->0)->0[0]
    } else {
        match view_get(s, "minLength"@) {
            Some(m) => match view_as_u64(m) {
                Some(n) => JsonView::Str(Seq::new((n as usize) as nat, |i: int| 'x')),
                None => JsonView::Str(Seq::empty()),
            },
            None => JsonView::Str(Seq::empty()),
        }
    }
}

/// The number zero.
pub open spec fn zero() -> JsonView {
    JsonView::Number(NumberView::PosInt(0))
}

/// The default value of a number property: its minimum as a floating point
/// number, or zero.
pub open spec fn number_default(s: JsonView) -> JsonView {
    match view_get(s, "minimum"@) {
        Some(JsonView::Number(n)) => match float_of_number(n) {
            Some(f) => JsonView::Number(f),
            None => zero(),
        },
        _ => zero(),
    }
}

/// The default value of an integer property: its minimum, or zero.
pub open spec fn integer_default(s: JsonView) -> JsonView {
    match view_get(s, "minimum"@) {
        Some(m) => match view_as_i64(m) {
            Some(i) => JsonView::Number(number_of_i64(i)),
            None => zero(),
        },
        None => zero(),
    }
}

/// The default value built from a property schema `s`.
pub open spec fn default_for(s: JsonView) -> JsonView
    decreases s, 0nat,
{
    proof {
        lemma_get_decreases(s, "items"@);
        lemma_get_decreases(s, "properties"@);
    }
    if view_get(s, "default"@) is Some {
        view_get(s, "default"@)->0
    } else if get_str(s, "name"@) is Some && named_default(get_str(s, "name"@)->0) is Some {
        JsonView::Str(named_default(get_str(s, "name"@)->0)->0)
    } else {
        let ty = get_str(s, "type"@);
        if ty == Some("string"@) {
            string_default(s)
        } else if ty == Some("number"@) {
            number_default(s)
        } else if ty == Some("integer"@) {
            integer_default(s)
        } else if ty == Some("boolean"@) {
            JsonView::Bool(false)
        } else if ty == Some("array"@) {
            if view_get(s, "examples"@) matches Some(JsonView::Array(ex)) && ex.len() > 0 {
                view_get(s, "examples"@)->0
            } else if view_get(s, "items"@) is Some {
                let items = view_get(s, "items"@)->0;
                match view_get(s, "minItems"@) {
                    Some(m) => match view_as_u64(m) {
                        Some(n) => JsonView::Array(Seq::new(n as nat, |i: int| default_for(items))),
                        None => JsonView::Array(Seq::empty()),
                    },
                    None => JsonView::Array(Seq::empty()),
                }
            } else {
                JsonView::Array(Seq::empty())
            }
        } else if ty == Some("object"@) {
            match (view_get(s, "properties"@), view_get(s, "required"@)) {
                (Some(JsonView::Object(props)), Some(JsonView::Array(req))) => {
                    proof {
                        assert(decreases_to!(view_get(s, "properties"@)->0 => props));
                    }
                    JsonView::Object(required_defaults(props, req, req.len()))
                },
                _ => JsonView::Object(Seq::empty()),
            }
        } else {
            JsonView::Null
        }
    }
}

/// The schema gives no explicit default and no default by the property's name.
pub open spec fn no_given_default(s: JsonView) -> bool {
    view_get(s, "default"@) is None && !(get_str(s, "name"@) is Some && named_default(get_str(s, "name"@)->0) is Some)
}

/// The defaults of properties by their type.  An explicit `default` wins;
/// otherwise, where the name gives no default: a boolean is `false`; a string
/// of a known format gets that format's sample, else the first string of its
/// `enum`, else `minLength` times `x`, else the empty string; an integer gets
/// its integer `minimum`, else 0; a number without `minimum` gets 0; an
/// object without both `properties` and `required` is empty; and a schema
/// without a type gives `null`.
pub proof fn lemma_default_cases(s: JsonView)
    ensures
        view_get(s, "default"@) is Some ==> default_for(s) == view_get(s, "default"@)->0,
        view_get(s, "default"@) is None && get_str(s, "name"@) == Some("path"@) ==> default_for(s) == JsonView::Str(
            "/path/to/file"@,
        ),
        no_given_default(s) && get_str(s, "type"@) is None ==> default_for(s) == JsonView::Null,
        no_given_default(s) && get_str(s, "type"@) == Some("boolean"@) ==> default_for(s) == JsonView::Bool(false),
        no_given_default(s) && get_str(s, "type"@) == Some("string"@) && get_str(s, "format"@) == Some("date"@)
            ==> default_for(s) == JsonView::Str("2023-01-01"@),
        no_given_default(s) && get_str(s, "type"@) == Some("string"@) && get_str(s, "format"@) is None && view_get(
            s,
            "enum"@,
        ) is None && view_get(s, "minLength"@) is None ==> default_for(s) == JsonView::Str(Seq::empty()),
        (no_given_default(s) && get_str(s, "type"@) == Some("string"@) && get_str(s, "format"@) is None && view_get(
            s,
            "enum"@,
        ) is Some && view_as_array(view_get(s, "enum"@)->0) is Some && view_as_array(view_get(s, "enum"@)->0)->0.len()
            > 0 && view_as_array(view_get(s, "enum"@)->0)->0[0] is Str) ==> default_for(s) == view_as_array(
            view_get(s, "enum"@)->0,
        )->0[0],
        no_given_default(s) && get_str(s, "type"@) == Some("string"@) && get_str(s, "format"@) is None && view_get(
            s,
            "enum"@,
        ) is None && view_get(s, "minLength"@) is Some && view_as_u64(view_get(s, "minLength"@)->0) is Some
            && view_as_u64(view_get(s, "minLength"@)->0)->0 <= usize::MAX ==> ({
            let n = view_as_u64(view_get(s, "minLength"@)->0)->0;
            &&& default_for(s) is Str
            &&& default_for(s)->Str_0.len() == n
            &&& forall|i: int| 0 <= i < n ==> #[trigger] default_for(s)->Str_0[i] == 'x'
        }),
        no_given_default(s) && get_str(s, "type"@) == Some("integer"@) && view_get(s, "minimum"@) is None
            ==> default_for(s) == JsonView::Number(NumberView::PosInt(0)),
        no_given_default(s) && get_str(s, "type"@) == Some("integer"@) && view_get(s, "minimum"@) is Some
            && view_as_i64(view_get(s, "minimum"@)->0) is Some ==> default_for(s) == JsonView::Number(
            number_of_i64(view_as_i64(view_get(s, "minimum"@)->0)->0),
        ),
        no_given_default(s) && get_str(s, "type"@) == Some("number"@) && view_get(s, "minimum"@) is None
            ==> default_for(s) == JsonView::Number(NumberView::PosInt(0)),
        no_given_default(s) && get_str(s, "type"@) == Some("object"@) && view_get(s, "properties"@) is None
            ==> default_for(s) == JsonView::Object(Seq::empty()),
        no_given_default(s) && get_str(s, "type"@) == Some("object"@) && view_get(s, "required"@) is None
            ==> default_for(s) == JsonView::Object(Seq::empty()),
{
    reveal_strlit("array");
    reveal_strlit("string");
    reveal_strlit("number");
    reveal_strlit("integer");
    reveal_strlit("boolean");
    reveal_strlit("object");
    reveal_strlit("path");
    reveal_strlit("date");
    reveal_strlit("date-time");
    reveal_strlit("email");
    reveal_strlit("uri");
    reveal_strlit("url");
    assert("string"@ != "number"@ && "string"@ != "integer"@ && "string"@ != "boolean"@ && "string"@ != "array"@) by {
        assert("string"@[0] != "number"@[0] && "string"@[0] != "integer"@[0] && "string"@[0] != "boolean"@[0]);
        assert("string"@[0] != "array"@[0]);
    }
    assert("number"@ != "integer"@ && "number"@ != "boolean"@ && "number"@ != "array"@ && "number"@ != "object"@) by {
        assert("number"@[0] != "integer"@[0] && "number"@[0] != "boolean"@[0] && "number"@[0] != "array"@[0]);
        assert("number"@[0] != "object"@[0]);
    }
    assert("integer"@ != "boolean"@ && "integer"@ != "array"@ && "integer"@ != "object"@ && "integer"@ != "string"@) by {
        assert("integer"@[0] != "boolean"@[0] && "integer"@[0] != "array"@[0] && "integer"@[0] != "object"@[0]);
        assert("integer"@[0] != "string"@[0]);
    }
    assert("boolean"@ != "string"@ && "boolean"@ != "number"@ && "boolean"@ != "integer"@) by {
        assert("boolean"@[0] != "string"@[0] && "boolean"@[0] != "number"@[0] && "boolean"@[0] != "integer"@[0]);
    }
    assert("object"@ != "string"@ && "object"@ != "integer"@ && "object"@ != "boolean"@ && "object"@ != "array"@) by {
        assert("object"@[0] != "string"@[0] && "object"@[0] != "integer"@[0] && "object"@[0] != "boolean"@[0]);
        assert("object"@[0] != "array"@[0]);
    }
}

/// The default of an array property whose schema gives no default, no
/// default by its name and no non-empty list of examples: the empty array,
/// unless the schema has `items` and an integer `minItems`, in which case it
/// holds exactly that many items, each the default of the item schema.
pub proof fn lemma_array_default(s: JsonView)
    requires
        view_get(s, "default"@) is None,
        get_str(s, "name"@) is Some ==> named_default(get_str(s, "name"@)->0) is None,
        get_str(s, "type"@) == Some("array"@),
        !(view_get(s, "examples"@) matches Some(JsonView::Array(ex)) && ex.len() > 0),
    ensures
        default_for(s) is Array,
        view_get(s, "minItems"@) is None ==> default_for(s) == JsonView::Array(Seq::empty()),
        view_get(s, "items"@) is None ==> default_for(s) == JsonView::Array(Seq::empty()),
        (view_get(s, "items"@) is Some && view_get(s, "minItems"@) is Some && view_as_u64(
            view_get(s, "minItems"@)->0,
        ) is Some) ==> ({
            let n = view_as_u64(view_get(s, "minItems"@)->0)->0;
            &&& default_for(s)->Array_0.len() == n
            &&& forall|i: int| 0 <= i < n ==> #[trigger] default_for(s)->Array_0[i] == default_for(
                view_get(s, "items"@)->0,
            )
        }),
        (view_get(s, "minItems"@) is Some && view_as_u64(view_get(s, "minItems"@)->0) is None) ==> default_for(s)
            == JsonView::Array(Seq::empty()),
{
    reveal_strlit("array");
    reveal_strlit("string");
    reveal_strlit("number");
    reveal_strlit("integer");
    reveal_strlit("boolean");
    assert("array"@ != "string"@ && "array"@ != "number"@ && "array"@ != "integer"@ && "array"@ != "boolean"@) by {
        assert("array"@[0] != "string"@[0] && "array"@[0] != "number"@[0] && "array"@[0] != "integer"@[0]);
        assert("array"@[0] != "boolean"@[0]);
    }
}

/// The object of defaults for the first `n` names of `req` that `props` describes.
pub open spec fn required_defaults(
    props: Seq<(Seq<char>, JsonView)>,
    req: Seq<JsonView>,
    n: nat,
) -> Seq<(Seq<char>, JsonView)>
    decreases props, n,
{
    if n == 0 || n > req.len() {
        Seq::empty()
    } else {
        let prev = required_defaults(props, req, (n - 1) as nat);
        match req[n - 1] {
            JsonView::Str(name) => {
                proof {
                    lemma_key_index_bounds(props, name);
                    let i = crate::json::key_index(props, name);
                    if i >= 0 {
                        assert(decreases_to!(props => props[i]));
                        assert(decreases_to!(props[i] => props[i].1));
                    }
                }
                match entries_get(props, name) {
                    Some(fs) => entries_insert(prev, name, default_for(fs)),
                    None => prev,
                }
            },
            _ => prev,
        }
    }
}


/// The parameters `fix_parameters` builds before checking them: `params`
/// (an empty object when `params` is no object) with a default value added
/// for every required field that it lacks and that the schema describes.
pub open spec fn fix_candidate(schema: JsonView, params: JsonView) -> JsonView {
    let base = match params {
        JsonView::Object(e) => e,
        _ => Seq::empty(),
    };
    match (view_get(schema, "properties"@), view_get(schema, "required"@)) {
        (Some(JsonView::Object(props)), Some(JsonView::Array(req))) => JsonView::Object(
            fill_required(base, props, req, req.len()),
        ),
        _ => JsonView::Object(base),
    }
}

/// `base` with defaults added for the missing ones of the first `n` required names.
pub open spec fn fill_required(
    base: Seq<(Seq<char>, JsonView)>,
    props: Seq<(Seq<char>, JsonView)>,
    req: Seq<JsonView>,
    n: nat,
) -> Seq<(Seq<char>, JsonView)>
    decreases n,
{
    if n == 0 || n > req.len() {
        base
    } else {
        let prev = fill_required(base, props, req, (n - 1) as nat);
        match req[n - 1] {
            JsonView::Str(name) => if entries_get(prev, name) is None && entries_get(props, name) is Some {
                entries_insert(prev, name, default_for(entries_get(props, name)->0))
            } else {
                prev
            },
            _ => prev,
        }
    }
}

/// What `fix_parameters` returns: the repaired parameters when they pass the
/// schema, else the error of the check.
pub open spec fn fix_result(schema: JsonView, params: JsonView) -> Result<JsonView, Seq<char>> {
    let cand = fix_candidate(schema, params);
    match parameter_check(schema, cand) {
        Ok(_) => Ok(cand),
        Err(e) => Err(e),
    }
}

/// `items` joined with `sep`.
pub(crate) fn join_texts(items: &Vec<String>, sep: &str) -> (r: String)
    ensures
        r@ == join(texts(items@), sep@),
{
    let ghost t = texts(items@);
    if items.len() == 0 {
        return String::new();
    }
    let mut r = items[0].clone();
    assert(t.take(1) =~= seq![t[0]]);
    let mut i: usize = 1;
    while i < items.len()
        invariant
            1 <= i <= items@.len(),
            t == texts(items@),
            r@ == join(t.take(i as int), sep@),
        decreases items@.len() - i,
    {
        push_text(&mut r, sep);
        push_text(&mut r, items[i].as_str());
        assert(t.take(i + 1).drop_last() =~= t.take(i as int));
        i = i + 1;
    }
    assert(t.take(items@.len() as int) =~= t);
    r
}

impl ParameterValidator {
    /// Checks `parameters` against the input schema of `tool` (JSON schema draft 7).
    pub fn validate_parameters(tool: &Tool, parameters: &JsonValue) -> (r: Result<(), String>)
        ensures
            match r {
                Ok(()) => parameter_check(tool.input_schema@, parameters@) == Ok::<(), Seq<char>>(()),
                Err(e) => parameter_check(tool.input_schema@, parameters@) == Err::<(), Seq<char>>(e@),
            },
    {
        match check_draft7(&tool.input_schema, parameters) {
            Err(e) => {
                let mut msg = "Invalid schema: ".to_owned();
                push_text(&mut msg, e.as_str());
                Err(msg)
            },
            Ok(violations) => {
                if violations.len() == 0 {
                    Ok(())
                } else {
                    let mut msg = "Parameter validation failed: ".to_owned();
                    let joined = join_texts(&violations, ", ");
                    push_text(&mut msg, joined.as_str());
                    Err(msg)
                }
            },
        }
    }

    /// A default value for a property, built from its schema.
    pub fn create_default_value(prop_schema: &JsonValue) -> (r: JsonValue)
        ensures
            r@ == default_for(prop_schema@),
        decreases prop_schema@,
    {
        proof {
            lemma_get_decreases(prop_schema@, "items"@);
            lemma_get_decreases(prop_schema@, "properties"@);
        }
        if let Some(d) = prop_schema.get("default") {
            return d.deep_copy();
        }
        if let Some(name) = prop_schema.get_str("name") {
            if str_eq(name, "path") {
                return JsonValue::String("/path/to/file".to_owned());
            } else if str_eq(name, "directory") || str_eq(name, "dir") {
                return JsonValue::String("/path/to/directory".to_owned());
            } else if str_eq(name, "file") || str_eq(name, "filename") {
                return JsonValue::String("filename.txt".to_owned());
            } else if str_eq(name, "content") {
                return JsonValue::String("Content goes here".to_owned());
            } else if str_eq(name, "query") {
                return JsonValue::String("search query".to_owned());
            }
        }
        let ty = match prop_schema.get_str("type") {
            Some(t) => t,
            None => {
                return JsonValue::Null;
            },
        };
        if str_eq(ty, "string") {
            Self::string_default_value(prop_schema)
        } else if str_eq(ty, "number") {
            match prop_schema.get("minimum") {
                Some(m) => match m {
                    JsonValue::Number(n) => match number_as_float(n) {
                        Some(f) => JsonValue::Number(f),
                        None => JsonValue::from_u64(0),
                    },
                    _ => JsonValue::from_u64(0),
                },
                None => JsonValue::from_u64(0),
            }
        } else if str_eq(ty, "integer") {
            match prop_schema.get("minimum") {
                Some(m) => match m.as_i64() {
                    Some(i) => JsonValue::from_i64(i),
                    None => JsonValue::from_u64(0),
                },
                None => JsonValue::from_u64(0),
            }
        } else if str_eq(ty, "boolean") {
            JsonValue::Bool(false)
        } else if str_eq(ty, "array") {
            if let Some(exv) = prop_schema.get("examples") {
                if let Some(ex) = exv.as_array() {
                    if ex.len() > 0 {
                        return exv.deep_copy();
                    }
                }
            }
            match prop_schema.get("items") {
                Some(items) => match prop_schema.get("minItems") {
                    Some(mv) => match mv.as_u64() {
                        Some(n) => {
                            let mut array: Vec<JsonValue> = Vec::new();
                            let mut k: u64 = 0;
                            while k < n
                                invariant
                                    k <= n,
                                    array@.len() == k,
                                    forall|j: int| 0 <= j < k ==> array@[j]@ == default_for(items@),
                                    decreases_to!(prop_schema@ => items@),
                                decreases n - k,
                            {
                                array.push(Self::create_default_value(items));
                                k = k + 1;
                            }
                            let r = JsonValue::Array(array);
                            assert(crate::json::view_as_array(r@)->0 =~= Seq::new(
                                n as nat,
                                |i: int| default_for(items@),
                            ));
                            r
                        },
                        None => JsonValue::empty_array(),
                    },
                    None => JsonValue::empty_array(),
                },
                None => JsonValue::empty_array(),
            }
        } else if str_eq(ty, "object") {
            let mut obj: Vec<(String, JsonValue)> = Vec::new();
            assert(entries_view(obj@) =~= Seq::empty());
            if let Some(pv) = prop_schema.get("properties") {
                if let JsonValue::Object(props) = pv {
                    if let Some(rv) = prop_schema.get("required") {
                        if let JsonValue::Array(req) = rv {
                            let ghost pw = entries_view(props@);
                            let ghost rw = Seq::new(req@.len(), |k: int| req@[k]@);
                            assert(pw =~= view_as_object(pv@)->0);
                            assert(rw =~= view_as_array(rv@)->0);
                            assert(decreases_to!(pv@ => pw));
                            let mut i: usize = 0;
                            while i < req.len()
                                invariant
                                    i <= req@.len(),
                                    rw == Seq::new(req@.len(), |k: int| req@[k]@),
                                    pw == entries_view(props@),
                                    *pv == JsonValue::Object(*props),
                                    pv@ == JsonView::Object(pw),
                                    decreases_to!(prop_schema@ => pw),
                                    entries_view(obj@) == required_defaults(pw, rw, i as nat),
                                decreases req@.len() - i,
                            {
                                if let Some(name) = req[i].as_str() {
                                    if let Some(fs) = pv.get(name) {
                                        proof {
                                            lemma_key_index_bounds(pw, name@);
                                            let k = crate::json::key_index(pw, name@);
                                            assert(decreases_to!(pw => pw[k]));
                                            assert(decreases_to!(pw[k] => pw[k].1));
                                        }
                                        let d = Self::create_default_value(fs);
                                        object_insert(&mut obj, name.to_owned(), d);
                                    }
                                }
                                i = i + 1;
                            }
                        }
                    }
                }
            }
            JsonValue::object_from(obj)
        } else {
            JsonValue::Null
        }
    }

    /// The default value of a string property.
    fn string_default_value(prop_schema: &JsonValue) -> (r: JsonValue)
        ensures
            r@ == string_default(prop_schema@),
    {
        if let Some(format) = prop_schema.get_str("format") {
            if str_eq(format, "date") {
                return JsonValue::String("2023-01-01".to_owned());
            } else if str_eq(format, "date-time") {
                return JsonValue::String("2023-01-01T00:00:00Z".to_owned());
            } else if str_eq(format, "email") {
                return JsonValue::String("user@example.com".to_owned());
            } else if str_eq(format, "uri") || str_eq(format, "url") {
                return JsonValue::String("https://example.com".to_owned());
            }
        }
        if let Some(ev) = prop_schema.get("enum") {
            if let Some(values) = ev.as_array() {
                if values.len() > 0 {
                    if values[0].is_string() {
                        return values[0].deep_copy();
                    }
                }
            }
        }
        if let Some(mv) = prop_schema.get("minLength") {
            if let Some(m) = mv.as_u64() {
                let count = #[verifier::truncate] (m as usize);
                let mut chars: Vec<char> = Vec::new();
                let mut k: usize = 0;
                while k < count
                    invariant
                        k <= count,
                        chars@ == Seq::new(k as nat, |i: int| 'x'),
                    decreases count - k,
                {
                    chars.push('x');
                    assert(chars@ =~= Seq::new((k + 1) as nat, |i: int| 'x'));
                    k = k + 1;
                }
                return JsonValue::String(string_from_chars(chars.as_slice()));
            }
        }
        JsonValue::String(String::new())
    }

    /// Adds a default value for every required field missing from
    /// `parameters` (an empty object takes the place of parameters that are
    /// no object), then checks the result against the schema of `tool`.
    pub fn fix_parameters(tool: &Tool, parameters: JsonValue) -> (r: Result<JsonValue, String>)
        ensures
            match r {
                Ok(v) => fix_result(tool.input_schema@, parameters@) == Ok::<JsonView, Seq<char>>(v@),
                Err(e) => fix_result(tool.input_schema@, parameters@) == Err::<JsonView, Seq<char>>(e@),
            },
    {
        let ghost pview = parameters@;
        let mut fixed: Vec<(String, JsonValue)> = match parameters {
            JsonValue::Object(e) => e,
            _ => Vec::new(),
        };
        let ghost base = entries_view(fixed@);
        proof {
            if pview is Object {
                assert(base =~= view_as_object(pview)->0);
            } else {
                assert(base =~= Seq::<(Seq<char>, JsonView)>::empty());
            }
        }
        let schema = &tool.input_schema;
        if let Some(pv) = schema.get("properties") {
            if let JsonValue::Object(props) = pv {
                if let Some(rv) = schema.get("required") {
                    if let JsonValue::Array(req) = rv {
                        let ghost pw = entries_view(props@);
                        let ghost rw = Seq::new(req@.len(), |k: int| req@[k]@);
                        assert(pw =~= view_as_object(pv@)->0);
                        assert(rw =~= view_as_array(rv@)->0);
                        let mut i: usize = 0;
                        while i < req.len()
                            invariant
                                i <= req@.len(),
                                rw == Seq::new(req@.len(), |k: int| req@[k]@),
                                pw == entries_view(props@),
                                *pv == JsonValue::Object(*props),
                                pv@ == JsonView::Object(pw),
                                entries_view(fixed@) == fill_required(base, pw, rw, i as nat),
                            decreases req@.len() - i,
                        {
                            if let Some(name) = req[i].as_str() {
                                let present = crate::json::find_key(&fixed, name);
                                if present.is_none() {
                                    if let Some(ps) = pv.get(name) {
                                        let d = Self::create_default_value(ps);
                                        object_insert(&mut fixed, name.to_owned(), d);
                                    }
                                }
                            }
                            i = i + 1;
                        }
                    }
                }
            }
        }
        let ghost fixed_view = entries_view(fixed@);
        let result = JsonValue::Object(fixed);
        proof {
            assert(view_as_object(result@)->0 =~= fixed_view);
        }
        match Self::validate_parameters(tool, &result) {
            Ok(()) => Ok(result),
            Err(e) => Err(e),
        }
    }
}


/// A key present before filling stays present.
proof fn lemma_fill_keeps(
    base: Seq<(Seq<char>, JsonView)>,
    props: Seq<(Seq<char>, JsonView)>,
    req: Seq<JsonView>,
    n: nat,
    k: Seq<char>,
)
    requires
        entries_get(base, k) is Some,
    ensures
        entries_get(fill_required(base, props, req, n), k) is Some,
    decreases n,
{
    if n > 0 && n <= req.len() {
        lemma_fill_keeps(base, props, req, (n - 1) as nat, k);
        let prev = fill_required(base, props, req, (n - 1) as nat);
        if let JsonView::Str(name) = req[n - 1] {
            if entries_get(prev, name) is None && entries_get(props, name) is Some {
                if name == k {
                    lemma_insert_get_same(prev, name, default_for(entries_get(props, name)->0));
                } else {
                    lemma_insert_get_other(prev, name, default_for(entries_get(props, name)->0), k);
                }
            }
        }
    }
}

/// After filling the first `n` required names, each of them that the schema
/// describes is present.
proof fn lemma_fill_covers(
    base: Seq<(Seq<char>, JsonView)>,
    props: Seq<(Seq<char>, JsonView)>,
    req: Seq<JsonView>,
    n: nat,
)
    requires
        n <= req.len(),
    ensures
        forall|j: int| #![trigger req[j]]
            0 <= j < n && req[j] is Str && entries_get(props, req[j]->Str_0) is Some
                ==> entries_get(fill_required(base, props, req, n), req[j]->Str_0) is Some,
    decreases n,
{
    if n > 0 {
        lemma_fill_covers(base, props, req, (n - 1) as nat);
        let prev = fill_required(base, props, req, (n - 1) as nat);
        assert forall|j: int| #![trigger req[j]]
            0 <= j < n && req[j] is Str && entries_get(props, req[j]->Str_0) is Some
                implies entries_get(fill_required(base, props, req, n), req[j]->Str_0) is Some by {
            let name = req[j]->Str_0;
            if j < n - 1 {
                lemma_fill_keeps(prev, props, seq![req[n - 1]], 1, name);
                assert(fill_required(prev, props, seq![req[n - 1]], 1) == fill_required(base, props, req, n)) by {
                    assert(fill_required(prev, props, seq![req[n - 1]], 0) == prev);
                }
            } else {
                if entries_get(prev, name) is None {
                    lemma_insert_get_same(prev, name, default_for(entries_get(props, name)->0));
                }
            }
        }
    }
}

/// A repair that succeeds gives parameters that pass the schema check and
/// hold every required field that the schema describes.
pub proof fn lemma_fixed_parameters_complete(schema: JsonView, params: JsonView)
    requires
        fix_result(schema, params) is Ok,
    ensures
        parameter_check(schema, fix_result(schema, params)->Ok_0) == Ok::<(), Seq<char>>(()),
        match (view_get(schema, "properties"@), view_get(schema, "required"@)) {
            (Some(JsonView::Object(props)), Some(JsonView::Array(req))) => forall|j: int| #![trigger req[j]]
                0 <= j < req.len() && req[j] is Str && entries_get(props, req[j]->Str_0) is Some
                    ==> crate::json::view_get(fix_result(schema, params)->Ok_0, req[j]->Str_0) is Some,
            _ => true,
        },
{
    let base = match params {
        JsonView::Object(e) => e,
        _ => Seq::empty(),
    };
    match (view_get(schema, "properties"@), view_get(schema, "required"@)) {
        (Some(JsonView::Object(props)), Some(JsonView::Array(req))) => {
            lemma_fill_covers(base, props, req, req.len());
        },
        _ => {},
    }
}

} // verus!
