//! Pipeline that sanitizes tool inputs and checks them against the tool's schema.

use vstd::prelude::*;

use crate::json::{
    entries_insert, entries_view, object_insert, view_as_array, view_as_object, JsonValue, JsonView,
};
use crate::parameter_validation::{fix_result, parameter_check, ParameterValidator};
use crate::tool::Tool;
use crate::text::{
    inert_char, lemma_sanitized_text_inert,
    concat, decimal, decimal_chars, push_text, sanitize_text, sanitized_text, str_eq,
    string_from_chars,
};

verus! {

/// The texts of a list of strings.
pub open spec fn texts(v: Seq<String>) -> Seq<Seq<char>> {
    v.map_values(|s: String| s@)
}

/// What sanitizing a value gives: the clean value (none when the value lies
/// deeper than allowed), the changes made and the errors met, in order.
pub struct SanitizeOutcome {
    pub value: Option<JsonView>,
    pub changes: Seq<Seq<char>>,
    pub errors: Seq<Seq<char>>,
}

/// The error of a value that lies deeper than allowed.
pub open spec fn depth_error_text() -> Seq<char> {
    "Maximum nesting depth exceeded"@
}

/// The change noted when an object key is sanitized.
pub open spec fn key_change_text(key: Seq<char>, clean: Seq<char>) -> Seq<char> {
    "Sanitized object key: "@ + key + " -> "@ + clean
}

/// The change noted when a string value is sanitized.
pub open spec fn string_change_text() -> Seq<char> {
    "Sanitized string value"@
}

/// The error noted for a field whose value lies deeper than allowed.
pub open spec fn field_error_text(key: Seq<char>) -> Seq<char> {
    "Error in field '"@ + key + "': "@ + depth_error_text()
}

/// The error noted for an array element that lies deeper than allowed.
pub open spec fn index_error_text(i: nat) -> Seq<char> {
    "Error in array index "@ + decimal(i) + ": "@ + depth_error_text()
}

/// Sanitizing `v`, found at nesting depth `depth`, with the given limits.
pub open spec fn sanitize_spec(v: JsonView, depth: nat, max_depth: nat, max_len: nat) -> SanitizeOutcome
    decreases v, 0nat,
{
    if depth > max_depth {
        SanitizeOutcome { value: None, changes: Seq::empty(), errors: Seq::empty() }
    } else {
        match v {
            JsonView::Object(e) => {
                let r = sanitize_entries(e, e.len(), depth, max_depth, max_len);
                SanitizeOutcome { value: Some(JsonView::Object(r.0)), changes: r.1, errors: r.2 }
            },
            JsonView::Array(a) => {
                let r = sanitize_items(a, a.len(), depth, max_depth, max_len);
                SanitizeOutcome { value: Some(JsonView::Array(r.0)), changes: r.1, errors: r.2 }
            },
            JsonView::Str(s) => {
                let c = sanitized_text(s, max_len);
                SanitizeOutcome {
                    value: Some(JsonView::Str(c)),
                    changes: if c != s { seq![string_change_text()] } else { Seq::empty() },
                    errors: Seq::empty(),
                }
            },
            _ => SanitizeOutcome { value: Some(v), changes: Seq::empty(), errors: Seq::empty() },
        }
    }
}

/// Sanitizing the first `n` elements of an array found at depth `depth`:
/// the clean elements, the changes and the errors.
pub open spec fn sanitize_items(a: Seq<JsonView>, n: nat, depth: nat, max_depth: nat, max_len: nat) -> (
    Seq<JsonView>,
    Seq<Seq<char>>,
    Seq<Seq<char>>,
)
    decreases a, n,
{
    if n == 0 || n > a.len() {
        (Seq::empty(), Seq::empty(), Seq::empty())
    } else {
        let prev = sanitize_items(a, (n - 1) as nat, depth, max_depth, max_len);
        let r = sanitize_spec(a[n - 1], depth + 1, max_depth, max_len);
        match r.value {
            Some(x) => (prev.0.push(x), prev.1 + r.changes, prev.2 + r.errors),
            None => (
                prev.0,
                prev.1 + r.changes,
                prev.2 + r.errors + seq![index_error_text((n - 1) as nat)],
            ),
        }
    }
}

/// Sanitizing the first `n` entries of an object found at depth `depth`:
/// the clean entries (inserted one by one into an empty object), the changes
/// and the errors.
pub open spec fn sanitize_entries(
    e: Seq<(Seq<char>, JsonView)>,
    n: nat,
    depth: nat,
    max_depth: nat,
    max_len: nat,
) -> (Seq<(Seq<char>, JsonView)>, Seq<Seq<char>>, Seq<Seq<char>>)
    decreases e, n,
{
    if n == 0 || n > e.len() {
        (Seq::empty(), Seq::empty(), Seq::empty())
    } else {
        let prev = sanitize_entries(e, (n - 1) as nat, depth, max_depth, max_len);
        let key = e[n - 1].0;
        let clean = sanitized_text(key, max_len);
        let key_changes = if clean != key { seq![key_change_text(key, clean)] } else { Seq::empty() };
        let r = sanitize_spec(e[n - 1].1, depth + 1, max_depth, max_len);
        match r.value {
            Some(x) => (
                entries_insert(prev.0, clean, x),
                prev.1 + key_changes + r.changes,
                prev.2 + r.errors,
            ),
            None => (
                prev.0,
                prev.1 + key_changes + r.changes,
                prev.2 + r.errors + seq![field_error_text(key)],
            ),
        }
    }
}

/// The limits of a pipeline.
pub struct PipelineView {
    pub max_depth: nat,
    pub max_string_length: nat,
    pub auto_fix: bool,
}

/// Pipeline for validating and sanitizing tool inputs.
pub struct ValidationPipeline {
    /// Maximum depth for nested JSON structures.
    max_depth: usize,
    /// Maximum length, in bytes, of string values.
    max_string_length: usize,
    /// Whether to attempt fixing common issues.
    auto_fix: bool,
}

impl View for ValidationPipeline {
    type V = PipelineView;

    closed spec fn view(&self) -> PipelineView {
        PipelineView {
            max_depth: self.max_depth as nat,
            max_string_length: self.max_string_length as nat,
            auto_fix: self.auto_fix,
        }
    }
}

impl Default for ValidationPipeline {
    /// Depth limit 10, string limit 1000 bytes, auto-fix on.
    fn default() -> (r: Self)
        ensures
            r@ == (PipelineView { max_depth: 10, max_string_length: 1000, auto_fix: true }),
    {
        ValidationPipeline { max_depth: 10, max_string_length: 1000, auto_fix: true }
    }
}

fn depth_error() -> (r: String)
    ensures
        r@ == depth_error_text(),
{
    "Maximum nesting depth exceeded".to_owned()
}

impl ValidationPipeline {
    /// A pipeline with the default limits.
    pub fn new() -> (r: Self)
        ensures
            r@ == (PipelineView { max_depth: 10, max_string_length: 1000, auto_fix: true }),
    {
        Self::default()
    }

    /// The pipeline with the depth limit set to `depth`.
    pub fn with_max_depth(self, depth: usize) -> (r: Self)
        ensures
            r@ == (PipelineView { max_depth: depth as nat, ..self@ }),
    {
        let mut s = self;
        s.max_depth = depth;
        s
    }

    /// The pipeline with the string limit set to `length` bytes.
    pub fn with_max_string_length(self, length: usize) -> (r: Self)
        ensures
            r@ == (PipelineView { max_string_length: length as nat, ..self@ }),
    {
        let mut s = self;
        s.max_string_length = length;
        s
    }

    /// The pipeline with auto-fixing switched on or off.
    pub fn with_auto_fix(self, auto_fix: bool) -> (r: Self)
        ensures
            r@ == (PipelineView { auto_fix, ..self@ }),
    {
        let mut s = self;
        s.auto_fix = auto_fix;
        s
    }

    /// Sanitizes a text with this pipeline's string limit.
    fn sanitize_string(&self, input: &str) -> (r: String)
        ensures
            r@ == sanitized_text(input@, self@.max_string_length),
    {
        sanitize_text(input, self.max_string_length)
    }

    /// Sanitizes `value`, found at nesting depth `depth`: appends the changes
    /// and errors met to `changes` and `errors`, and returns the clean value,
    /// or an error when `value` lies deeper than allowed.
    fn sanitize_value(
        &self,
        value: &JsonValue,
        depth: usize,
        changes: &mut Vec<String>,
        errors: &mut Vec<String>,
    ) -> (r: Result<JsonValue, String>)
        ensures
            ({
                let out = sanitize_spec(value@, depth as nat, self@.max_depth, self@.max_string_length);
                &&& texts(final(changes)@) == texts(old(changes)@) + out.changes
                &&& texts(final(errors)@) == texts(old(errors)@) + out.errors
                &&& match r {
                    Ok(v) => out.value == Some(v@),
                    Err(e) => out.value is None && e@ == depth_error_text(),
                }
            }),
        decreases value,
    {
        if depth > self.max_depth {
            return Err(depth_error());
        }
        let ghost md = self@.max_depth;
        let ghost ml = self@.max_string_length;
        match value {
            JsonValue::Object(entries) => {
                let ghost ev = entries_view(entries@);
                assert(ev =~= view_as_object(value@)->0);
                let mut new_entries: Vec<(String, JsonValue)> = Vec::new();
                let mut i: usize = 0;
                while i < entries.len()
                    invariant
                        *value == JsonValue::Object(*entries),
                        ev == entries_view(entries@),
                        i <= entries@.len(),
                        depth <= self.max_depth,
                        md == self@.max_depth,
                        ml == self@.max_string_length,
                        ({
                            let p = sanitize_entries(ev, i as nat, depth as nat, md, ml);
                            &&& entries_view(new_entries@) == p.0
                            &&& texts(changes@) == texts(old(changes)@) + p.1
                            &&& texts(errors@) == texts(old(errors)@) + p.2
                        }),
                    decreases entries@.len() - i,
                {
                    proof {
                        assert(decreases_to!(*value => value->Object_0));
                        assert(decreases_to!(entries@ => entries@[i as int]));
                        assert(decreases_to!(entries@[i as int] => entries@[i as int].1));
                        assert(ev[i as int] == (entries@[i as int].0@, entries@[i as int].1@));
                    }
                    let key = &entries[i].0;
                    let clean_key = self.sanitize_string(key.as_str());
                    let ghost changes_before = texts(changes@);
                    if !str_eq(clean_key.as_str(), key.as_str()) {
                        let mut msg = concat("Sanitized object key: ", key.as_str());
                        push_text(&mut msg, " -> ");
                        push_text(&mut msg, clean_key.as_str());
                        changes.push(msg);
                        assert(texts(changes@) =~= changes_before.push(key_change_text(key@, clean_key@)));
                    } else {
                        assert(texts(changes@) =~= changes_before);
                    }
                    let ghost changes_mid = texts(changes@);
                    let ghost errors_before = texts(errors@);
                    let ghost rs = sanitize_spec(ev[i as int].1, (depth + 1) as nat, md, ml);
                    let child = if depth < self.max_depth {
                        self.sanitize_value(&entries[i].1, depth + 1, changes, errors)
                    } else {
                        assert(texts(changes@) =~= changes_mid + rs.changes);
                        assert(texts(errors@) =~= errors_before + rs.errors);
                        Err(depth_error())
                    };
                    let ghost errors_mid = texts(errors@);
                    match child {
                        Ok(clean_val) => {
                            object_insert(&mut new_entries, clean_key, clean_val);
                        },
                        Err(e) => {
                            let mut msg = concat("Error in field '", key.as_str());
                            push_text(&mut msg, "': ");
                            push_text(&mut msg, e.as_str());
                            errors.push(msg);
                            assert(texts(errors@) =~= errors_mid.push(field_error_text(key@)));
                        },
                    }
                    proof {
                        let p = sanitize_entries(ev, (i + 1) as nat, depth as nat, md, ml);
                        let q = sanitize_entries(ev, i as nat, depth as nat, md, ml);
                        assert(changes_before == texts(old(changes)@) + q.1);
                        assert(errors_before == texts(old(errors)@) + q.2);
                        assert(texts(changes@) =~= texts(old(changes)@) + p.1);
                        assert(texts(errors@) =~= texts(old(errors)@) + p.2);
                    }
                    i = i + 1;
                }
                let r = JsonValue::Object(new_entries);
                proof {
                    assert(view_as_object(r@)->0 =~= entries_view(new_entries@));
                }
                Ok(r)
            },
            JsonValue::Array(items) => {
                let ghost av = Seq::new(items@.len(), |k: int| items@[k]@);
                assert(av =~= view_as_array(value@)->0);
                let mut new_items: Vec<JsonValue> = Vec::new();
                let mut i: usize = 0;
                while i < items.len()
                    invariant
                        *value == JsonValue::Array(*items),
                        av == Seq::new(items@.len(), |k: int| items@[k]@),
                        i <= items@.len(),
                        depth <= self.max_depth,
                        md == self@.max_depth,
                        ml == self@.max_string_length,
                        ({
                            let p = sanitize_items(av, i as nat, depth as nat, md, ml);
                            &&& Seq::new(new_items@.len(), |k: int| new_items@[k]@) == p.0
                            &&& texts(changes@) == texts(old(changes)@) + p.1
                            &&& texts(errors@) == texts(old(errors)@) + p.2
                        }),
                    decreases items@.len() - i,
                {
                    proof {
                        assert(decreases_to!(*value => value->Array_0));
                        assert(decreases_to!(items@ => items@[i as int]));
                    }
                    let ghost before = Seq::new(new_items@.len(), |k: int| new_items@[k]@);
                    let ghost changes_before = texts(changes@);
                    let ghost errors_before = texts(errors@);
                    let ghost rs = sanitize_spec(av[i as int], (depth + 1) as nat, md, ml);
                    let child = if depth < self.max_depth {
                        self.sanitize_value(&items[i], depth + 1, changes, errors)
                    } else {
                        assert(texts(changes@) =~= changes_before + rs.changes);
                        assert(texts(errors@) =~= errors_before + rs.errors);
                        Err(depth_error())
                    };
                    let ghost errors_mid = texts(errors@);
                    match child {
                        Ok(clean_val) => {
                            new_items.push(clean_val);
                            assert(Seq::new(new_items@.len(), |k: int| new_items@[k]@) =~= before.push(
                                new_items@.last()@,
                            ));
                        },
                        Err(e) => {
                            let mut msg = "Error in array index ".to_owned();
                            let digits = decimal_chars(i);
                            let digits_text = string_from_chars(digits.as_slice());
                            push_text(&mut msg, digits_text.as_str());
                            push_text(&mut msg, ": ");
                            push_text(&mut msg, e.as_str());
                            errors.push(msg);
                            assert(texts(errors@) =~= errors_mid.push(index_error_text(i as nat)));
                        },
                    }
                    proof {
                        let p = sanitize_items(av, (i + 1) as nat, depth as nat, md, ml);
                        assert(texts(changes@) =~= texts(old(changes)@) + p.1);
                        assert(texts(errors@) =~= texts(old(errors)@) + p.2);
                    }
                    i = i + 1;
                }
                let r = JsonValue::Array(new_items);
                proof {
                    assert(view_as_array(r@)->0 =~= Seq::new(new_items@.len(), |k: int| new_items@[k]@));
                }
                Ok(r)
            },
            JsonValue::String(s) => {
                let clean = self.sanitize_string(s.as_str());
                if !str_eq(clean.as_str(), s.as_str()) {
                    let ghost before = texts(changes@);
                    changes.push("Sanitized string value".to_owned());
                    assert(texts(changes@) =~= before.push(string_change_text()));
                } else {
                    assert(texts(changes@) =~= texts(old(changes)@) + Seq::empty());
                }
                assert(texts(errors@) =~= texts(old(errors)@) + Seq::empty());
                Ok(JsonValue::String(clean))
            },
            _ => {
                assert(texts(changes@) =~= texts(old(changes)@) + Seq::empty());
                assert(texts(errors@) =~= texts(old(errors)@) + Seq::empty());
                Ok(value.deep_copy())
            },
        }
    }
}

/// The state of a validated input.
#[derive(Debug)]
pub enum ValidationState {
    /// The input is valid as it came.
    Valid(JsonValue),
    /// The input was sanitized or repaired and is valid now.
    Sanitized { original: JsonValue, sanitized: JsonValue, changes: Vec<String> },
    /// The input is invalid.
    Invalid { input: JsonValue, errors: Vec<String> },
}

/// The model of a validation state.
pub enum StateView {
    Valid(JsonView),
    Sanitized { original: JsonView, sanitized: JsonView, changes: Seq<Seq<char>> },
    Invalid { input: JsonView, errors: Seq<Seq<char>> },
}

impl View for ValidationState {
    type V = StateView;

    open spec fn view(&self) -> StateView {
        match self {
            ValidationState::Valid(v) => StateView::Valid(v@),
            ValidationState::Sanitized { original, sanitized, changes } => StateView::Sanitized {
                original: original@,
                sanitized: sanitized@,
                changes: texts(changes@),
            },
            ValidationState::Invalid { input, errors } => StateView::Invalid {
                input: input@,
                errors: texts(errors@),
            },
        }
    }
}

/// The change noted when the parameters were repaired after the check failed with `e`.
pub open spec fn fixed_change_text(e: Seq<char>) -> Seq<char> {
    "Parameters automatically fixed: "@ + e
}

/// The error noted when the repair failed with `e`.
pub open spec fn fix_failed_text(e: Seq<char>) -> Seq<char> {
    "Auto-fix failed: "@ + e
}

/// The note for an input whose objects sanitizing rebuilt with their keys in
/// order, repeated keys merged, and nothing else changed.
pub open spec fn reordered_text() -> Seq<char> {
    "Object keys were put in order and repeated keys merged"@
}

/// The state `validate_input` gives for `input` to a tool with schema
/// `schema`, under the limits `p`.  An input that sanitizing changed in any
/// way (a text cleaned, a part lying deeper than allowed dropped, or object
/// keys reordered or merged) is never reported as valid as it came: with
/// auto-fix on it is reported as sanitized, the dropped parts among the
/// changes.
pub open spec fn validation_outcome(p: PipelineView, schema: JsonView, input: JsonView) -> StateView {
    let out = sanitize_spec(input, 0, p.max_depth, p.max_string_length);
    let sanitized = out.value->0;
    if out.errors.len() > 0 && !p.auto_fix {
        StateView::Invalid { input, errors: out.errors }
    } else {
        match parameter_check(schema, sanitized) {
            Ok(_) => if out.changes.len() == 0 && out.errors.len() == 0 {
                if sanitized == input {
                    StateView::Valid(sanitized)
                } else {
                    StateView::Sanitized { original: input, sanitized, changes: seq![reordered_text()] }
                }
            } else {
                StateView::Sanitized { original: input, sanitized, changes: out.changes + out.errors }
            },
            Err(e) => if p.auto_fix {
                match fix_result(schema, sanitized) {
                    Ok(fixed) => StateView::Sanitized {
                        original: input,
                        sanitized: fixed,
                        changes: (out.changes + out.errors).push(fixed_change_text(e)),
                    },
                    Err(fe) => StateView::Invalid {
                        input,
                        errors: out.errors.push(e).push(fix_failed_text(fe)),
                    },
                }
            } else {
                StateView::Invalid { input, errors: out.errors.push(e) }
            },
        }
    }
}

/// Appends copies of `more` to `v`.
fn append_texts(v: &mut Vec<String>, more: &Vec<String>)
    ensures
        texts(final(v)@) == texts(old(v)@) + texts(more@),
{
    let ghost start = texts(v@);
    let mut i: usize = 0;
    while i < more.len()
        invariant
            i <= more@.len(),
            texts(v@) == start + texts(more@).take(i as int),
        decreases more@.len() - i,
    {
        let ghost before = texts(v@);
        v.push(more[i].clone());
        assert(texts(v@) =~= before.push(more@[i as int]@));
        assert(texts(more@).take(i + 1) =~= texts(more@).take(i as int).push(more@[i as int]@));
        i = i + 1;
    }
    assert(texts(more@).take(more@.len() as int) =~= texts(more@));
}

/// Copies a list of strings.
fn copy_texts(v: &Vec<String>) -> (r: Vec<String>)
    ensures
        texts(r@) == texts(v@),
{
    let mut r: Vec<String> = Vec::new();
    let mut i: usize = 0;
    while i < v.len()
        invariant
            i <= v@.len(),
            r@.len() == i,
            forall|j: int| 0 <= j < i ==> r@[j]@ == v@[j]@,
        decreases v@.len() - i,
    {
        let c = v[i].clone();
        r.push(c);
        i = i + 1;
    }
    assert(texts(r@) =~= texts(v@));
    r
}

impl ValidationState {
    /// Whether the input is valid, as it came or after sanitizing.
    pub fn is_valid(&self) -> (r: bool)
        ensures
            r == !(self@ is Invalid),
    {
        match self {
            ValidationState::Invalid { .. } => false,
            _ => true,
        }
    }

    /// The value to use: the valid or the sanitized one.
    pub fn get_value(&self) -> (r: Option<&JsonValue>)
        ensures
            match self@ {
                StateView::Valid(v) => r matches Some(x) && x@ == v,
                StateView::Sanitized { sanitized, .. } => r matches Some(x) && x@ == sanitized,
                StateView::Invalid { .. } => r is None,
            },
    {
        match self {
            ValidationState::Valid(v) => Some(v),
            ValidationState::Sanitized { sanitized, .. } => Some(sanitized),
            ValidationState::Invalid { .. } => None,
        }
    }

    /// The changes made to a sanitized input (none otherwise).
    pub fn get_changes(&self) -> (r: Vec<String>)
        ensures
            texts(r@) == match self@ {
                StateView::Sanitized { changes, .. } => changes,
                _ => Seq::empty(),
            },
    {
        match self {
            ValidationState::Sanitized { changes, .. } => copy_texts(changes),
            _ => {
                let r: Vec<String> = Vec::new();
                assert(texts(r@) =~= Seq::empty());
                r
            },
        }
    }

    /// The errors of an invalid input (none otherwise).
    pub fn get_errors(&self) -> (r: Vec<String>)
        ensures
            texts(r@) == match self@ {
                StateView::Invalid { errors, .. } => errors,
                _ => Seq::empty(),
            },
    {
        match self {
            ValidationState::Invalid { errors, .. } => copy_texts(errors),
            _ => {
                let r: Vec<String> = Vec::new();
                assert(texts(r@) =~= Seq::empty());
                r
            },
        }
    }
}

impl ValidationPipeline {
    /// Validates and sanitizes `input` for `tool`: sanitizes every string and
    /// key (see [`sanitized_text`]) down to the depth limit, then checks the
    /// result against the tool's schema, repairing it when auto-fix is on.
    pub fn validate_input(&self, tool: &Tool, input: JsonValue) -> (r: ValidationState)
        ensures
            r@ == validation_outcome(self@, tool.input_schema@, input@),
    {
        let mut changes: Vec<String> = Vec::new();
        let mut errors: Vec<String> = Vec::new();
        assert(texts(changes@) =~= Seq::empty());
        assert(texts(errors@) =~= Seq::empty());
        let ghost out = sanitize_spec(input@, 0, self@.max_depth, self@.max_string_length);
        let sanitized = match self.sanitize_value(&input, 0, &mut changes, &mut errors) {
            Ok(v) => v,
            Err(e) => {
                let mut errs: Vec<String> = Vec::new();
                errs.push(e);
                return ValidationState::Invalid { input, errors: errs };
            },
        };
        assert(texts(changes@) == out.changes);
        assert(texts(errors@) == out.errors);
        if errors.len() > 0 && !self.auto_fix {
            return ValidationState::Invalid { input, errors };
        }
        match ParameterValidator::validate_parameters(tool, &sanitized) {
            Ok(()) => {
                if changes.len() == 0 && errors.len() == 0 {
                    if sanitized.same_value(&input) {
                        ValidationState::Valid(sanitized)
                    } else {
                        changes.push("Object keys were put in order and repeated keys merged".to_owned());
                        assert(texts(changes@) =~= seq![reordered_text()]);
                        ValidationState::Sanitized { original: input, sanitized, changes }
                    }
                } else {
                    append_texts(&mut changes, &errors);
                    ValidationState::Sanitized { original: input, sanitized, changes }
                }
            },
            Err(e) => {
                if self.auto_fix {
                    match ParameterValidator::fix_parameters(tool, sanitized) {
                        Ok(fixed) => {
                            append_texts(&mut changes, &errors);
                            let ghost noted = texts(changes@);
                            let mut msg = "Parameters automatically fixed: ".to_owned();
                            push_text(&mut msg, e.as_str());
                            changes.push(msg);
                            assert(texts(changes@) =~= noted.push(fixed_change_text(e@)));
                            ValidationState::Sanitized { original: input, sanitized: fixed, changes }
                        },
                        Err(fix_err) => {
                            let ghost e_text = e@;
                            errors.push(e);
                            let mut msg = "Auto-fix failed: ".to_owned();
                            push_text(&mut msg, fix_err.as_str());
                            errors.push(msg);
                            assert(texts(errors@) =~= out.errors.push(e_text).push(
                                fix_failed_text(fix_err@),
                            ));
                            ValidationState::Invalid { input, errors }
                        },
                    }
                } else {
                    let ghost e_text = e@;
                    errors.push(e);
                    assert(texts(errors@) =~= out.errors.push(e_text));
                    ValidationState::Invalid { input, errors }
                }
            },
        }
    }
}

/// An input the pipeline accepts passes the tool's schema check in the form
/// it is handed on; and the state keeps the input as it came.
pub proof fn lemma_accepted_passes_schema(p: PipelineView, schema: JsonView, input: JsonView)
    ensures
        match validation_outcome(p, schema, input) {
            StateView::Valid(v) => parameter_check(schema, v) == Ok::<(), Seq<char>>(()),
            StateView::Sanitized { original, sanitized, .. } => original == input && parameter_check(
                schema,
                sanitized,
            ) == Ok::<(), Seq<char>>(()),
            StateView::Invalid { input: kept, .. } => kept == input,
        },
{
    let out = sanitize_spec(input, 0, p.max_depth, p.max_string_length);
    let sanitized = out.value->0;
    if !(out.errors.len() > 0 && !p.auto_fix) {
        if parameter_check(schema, sanitized) is Err && p.auto_fix && fix_result(schema, sanitized) is Ok {
            crate::parameter_validation::lemma_fixed_parameters_complete(schema, sanitized);
        }
    }
}

/// With auto-fix off, an input that met errors while being sanitized is
/// refused with exactly those errors.
pub proof fn lemma_errors_refuse_without_fix(p: PipelineView, schema: JsonView, input: JsonView)
    requires
        !p.auto_fix,
        sanitize_spec(input, 0, p.max_depth, p.max_string_length).errors.len() > 0,
    ensures
        validation_outcome(p, schema, input) == (StateView::Invalid {
            input,
            errors: sanitize_spec(input, 0, p.max_depth, p.max_string_length).errors,
        }),
{
}

/// Every node of `v`, found at depth `depth`, lies at most at depth `max`.
pub open spec fn nested_within(v: JsonView, depth: nat, max: nat) -> bool
    decreases v,
{
    depth <= max && match v {
        JsonView::Array(a) => forall|i: int| 0 <= i < a.len() ==> nested_within(#[trigger] a[i], depth + 1, max),
        JsonView::Object(e) => forall|i: int|
            0 <= i < e.len() ==> nested_within(#[trigger] e[i].1, depth + 1, max),
        _ => true,
    }
}

proof fn lemma_insert_keeps_nested(e: Seq<(Seq<char>, JsonView)>, k: Seq<char>, x: JsonView, depth: nat, max: nat)
    requires
        forall|i: int| 0 <= i < e.len() ==> nested_within(#[trigger] e[i].1, depth, max),
        nested_within(x, depth, max),
    ensures
        forall|i: int|
            0 <= i < entries_insert(e, k, x).len() ==> nested_within(#[trigger] entries_insert(e, k, x)[i].1, depth, max),
{
    crate::json::lemma_key_index_bounds(e, k);
    crate::json::lemma_insert_pos_bounds(e, k);
    let r = entries_insert(e, k, x);
    let ki = crate::json::key_index(e, k);
    assert forall|i: int| 0 <= i < r.len() implies nested_within(#[trigger] r[i].1, depth, max) by {
        if ki >= 0 {
            if i != ki {
                assert(r[i] == e[i]);
            }
        } else {
            let p = crate::json::insert_pos(e, k);
            if i < p {
                assert(r[i] == e[i]);
            } else if i > p {
                assert(r[i] == e[i - 1]);
            }
        }
    }
}

/// Sanitizing keeps no node deeper than the depth limit: whatever lies deeper
/// is dropped (and reported as an error).
pub proof fn lemma_sanitized_within_depth(v: JsonView, depth: nat, max_depth: nat, max_len: nat)
    ensures
        sanitize_spec(v, depth, max_depth, max_len).value matches Some(x) ==> nested_within(x, depth, max_depth),
    decreases v, 0nat,
{
    if depth <= max_depth {
        match v {
            JsonView::Object(e) => {
                lemma_entries_within_depth(e, e.len(), depth, max_depth, max_len);
                let r = sanitize_entries(e, e.len(), depth, max_depth, max_len).0;
                assert(nested_within(JsonView::Object(r), depth, max_depth));
            },
            JsonView::Array(a) => {
                lemma_items_within_depth(a, a.len(), depth, max_depth, max_len);
                let r = sanitize_items(a, a.len(), depth, max_depth, max_len).0;
                assert(nested_within(JsonView::Array(r), depth, max_depth));
            },
            JsonView::Str(t) => {
                assert(nested_within(JsonView::Str(sanitized_text(t, max_len)), depth, max_depth));
            },
            _ => {
                assert(nested_within(v, depth, max_depth));
            },
        }
    }
}

proof fn lemma_items_within_depth(a: Seq<JsonView>, n: nat, depth: nat, max_depth: nat, max_len: nat)
    ensures
        ({
            let r = sanitize_items(a, n, depth, max_depth, max_len).0;
            forall|i: int| 0 <= i < r.len() ==> nested_within(#[trigger] r[i], depth + 1, max_depth)
        }),
    decreases a, n,
{
    if n > 0 && n <= a.len() {
        lemma_items_within_depth(a, (n - 1) as nat, depth, max_depth, max_len);
        lemma_sanitized_within_depth(a[n - 1], depth + 1, max_depth, max_len);
        let prev = sanitize_items(a, (n - 1) as nat, depth, max_depth, max_len).0;
        let r = sanitize_items(a, n, depth, max_depth, max_len).0;
        assert forall|i: int| 0 <= i < r.len() implies nested_within(#[trigger] r[i], depth + 1, max_depth) by {
            if i < prev.len() {
                assert(r[i] == prev[i]);
            }
        }
    }
}

proof fn lemma_entries_within_depth(
    e: Seq<(Seq<char>, JsonView)>,
    n: nat,
    depth: nat,
    max_depth: nat,
    max_len: nat,
)
    ensures
        ({
            let r = sanitize_entries(e, n, depth, max_depth, max_len).0;
            forall|i: int| 0 <= i < r.len() ==> nested_within(#[trigger] r[i].1, depth + 1, max_depth)
        }),
    decreases e, n,
{
    if n > 0 && n <= e.len() {
        lemma_entries_within_depth(e, (n - 1) as nat, depth, max_depth, max_len);
        assert(decreases_to!(e => e[n - 1]));
        lemma_sanitized_within_depth(e[n - 1].1, depth + 1, max_depth, max_len);
        let prev = sanitize_entries(e, (n - 1) as nat, depth, max_depth, max_len).0;
        let r = sanitize_spec(e[n - 1].1, depth + 1, max_depth, max_len);
        if let Some(x) = r.value {
            lemma_insert_keeps_nested(prev, sanitized_text(e[n - 1].0, max_len), x, depth + 1, max_depth);
        }
    }
}


/// Every character of the text `t` can go into HTML as it is.
pub open spec fn inert_text(t: Seq<char>) -> bool {
    forall|i: int| 0 <= i < t.len() ==> inert_char(#[trigger] t[i])
}

/// Every string and every object key inside `v` is inert text.
pub open spec fn all_text_inert(v: JsonView) -> bool
    decreases v,
{
    match v {
        JsonView::Str(t) => inert_text(t),
        JsonView::Array(a) => forall|i: int| 0 <= i < a.len() ==> all_text_inert(#[trigger] a[i]),
        JsonView::Object(e) => forall|i: int|
            0 <= i < e.len() ==> inert_text(#[trigger] e[i].0) && all_text_inert(e[i].1),
        _ => true,
    }
}

proof fn lemma_insert_keeps_inert(e: Seq<(Seq<char>, JsonView)>, k: Seq<char>, x: JsonView)
    requires
        forall|i: int| 0 <= i < e.len() ==> inert_text(#[trigger] e[i].0) && all_text_inert(e[i].1),
        inert_text(k),
        all_text_inert(x),
    ensures
        forall|i: int| #![trigger entries_insert(e, k, x)[i]]
            0 <= i < entries_insert(e, k, x).len() ==> inert_text(entries_insert(e, k, x)[i].0)
                && all_text_inert(entries_insert(e, k, x)[i].1),
{
    crate::json::lemma_key_index_bounds(e, k);
    crate::json::lemma_insert_pos_bounds(e, k);
    let r = entries_insert(e, k, x);
    let ki = crate::json::key_index(e, k);
    assert forall|i: int| #![trigger r[i]] 0 <= i < r.len() implies inert_text(r[i].0) && all_text_inert(r[i].1) by {
        if ki >= 0 {
            if i != ki {
                assert(r[i] == e[i]);
            } else {
                assert(r[i] == (k, x));
            }
        } else {
            let p = crate::json::insert_pos(e, k);
            if i < p {
                assert(r[i] == e[i]);
            } else if i > p {
                assert(r[i] == e[i - 1]);
            } else {
                assert(r[i] == (k, x));
            }
        }
    }
}

/// Sanitizing leaves no markup character, quote or control code (newline and
/// tab aside) in any string or key of the value it keeps.
pub proof fn lemma_sanitized_inert(v: JsonView, depth: nat, max_depth: nat, max_len: nat)
    ensures
        sanitize_spec(v, depth, max_depth, max_len).value matches Some(x) ==> all_text_inert(x),
    decreases v, 0nat,
{
    if depth <= max_depth {
        match v {
            JsonView::Object(e) => {
                lemma_entries_inert(e, e.len(), depth, max_depth, max_len);
                let r = sanitize_entries(e, e.len(), depth, max_depth, max_len).0;
                assert(all_text_inert(JsonView::Object(r)));
            },
            JsonView::Array(a) => {
                lemma_items_inert(a, a.len(), depth, max_depth, max_len);
                let r = sanitize_items(a, a.len(), depth, max_depth, max_len).0;
                assert(all_text_inert(JsonView::Array(r)));
            },
            JsonView::Str(t) => {
                lemma_sanitized_text_inert(t, max_len);
                assert(all_text_inert(JsonView::Str(sanitized_text(t, max_len))));
            },
            _ => {
                assert(all_text_inert(v));
            },
        }
    }
}

proof fn lemma_items_inert(a: Seq<JsonView>, n: nat, depth: nat, max_depth: nat, max_len: nat)
    ensures
        ({
            let r = sanitize_items(a, n, depth, max_depth, max_len).0;
            forall|i: int| 0 <= i < r.len() ==> all_text_inert(#[trigger] r[i])
        }),
    decreases a, n,
{
    if n > 0 && n <= a.len() {
        lemma_items_inert(a, (n - 1) as nat, depth, max_depth, max_len);
        lemma_sanitized_inert(a[n - 1], depth + 1, max_depth, max_len);
        let prev = sanitize_items(a, (n - 1) as nat, depth, max_depth, max_len).0;
        let r = sanitize_items(a, n, depth, max_depth, max_len).0;
        assert forall|i: int| 0 <= i < r.len() implies all_text_inert(#[trigger] r[i]) by {
            if i < prev.len() {
                assert(r[i] == prev[i]);
            }
        }
    }
}

proof fn lemma_entries_inert(e: Seq<(Seq<char>, JsonView)>, n: nat, depth: nat, max_depth: nat, max_len: nat)
    ensures
        ({
            let r = sanitize_entries(e, n, depth, max_depth, max_len).0;
            forall|i: int| 0 <= i < r.len() ==> inert_text(#[trigger] r[i].0) && all_text_inert(r[i].1)
        }),
    decreases e, n,
{
    if n > 0 && n <= e.len() {
        lemma_entries_inert(e, (n - 1) as nat, depth, max_depth, max_len);
        assert(decreases_to!(e => e[n - 1]));
        lemma_sanitized_inert(e[n - 1].1, depth + 1, max_depth, max_len);
        lemma_sanitized_text_inert(e[n - 1].0, max_len);
        let prev = sanitize_entries(e, (n - 1) as nat, depth, max_depth, max_len).0;
        let r = sanitize_spec(e[n - 1].1, depth + 1, max_depth, max_len);
        if let Some(x) = r.value {
            lemma_insert_keeps_inert(prev, sanitized_text(e[n - 1].0, max_len), x);
        }
    }
}

/// Every object inside `v` has its keys ascending, each once: the form in
/// which `serde_json` holds values and [`object_insert`] builds them.
pub open spec fn objects_ordered(v: JsonView) -> bool
    decreases v,
{
    match v {
        JsonView::Array(a) => forall|i: int| 0 <= i < a.len() ==> objects_ordered(#[trigger] a[i]),
        JsonView::Object(e) => crate::json::keys_ascending(e) && forall|i: int|
            0 <= i < e.len() ==> objects_ordered(#[trigger] e[i].1),
        _ => true,
    }
}

proof fn lemma_unchanged_value(v: JsonView, depth: nat, max_depth: nat, max_len: nat)
    requires
        depth <= max_depth,
        objects_ordered(v),
        sanitize_spec(v, depth, max_depth, max_len).changes.len() == 0,
        sanitize_spec(v, depth, max_depth, max_len).errors.len() == 0,
    ensures
        sanitize_spec(v, depth, max_depth, max_len).value == Some(v),
    decreases v, 0nat,
{
    match v {
        JsonView::Object(e) => {
            lemma_unchanged_entries(e, e.len(), depth, max_depth, max_len);
            assert(e.take(e.len() as int) =~= e);
        },
        JsonView::Array(a) => {
            lemma_unchanged_items(a, a.len(), depth, max_depth, max_len);
            assert(a.take(a.len() as int) =~= a);
        },
        _ => {},
    }
}

proof fn lemma_unchanged_items(a: Seq<JsonView>, n: nat, depth: nat, max_depth: nat, max_len: nat)
    requires
        n <= a.len(),
        forall|i: int| 0 <= i < a.len() ==> objects_ordered(#[trigger] a[i]),
        sanitize_items(a, n, depth, max_depth, max_len).1.len() == 0,
        sanitize_items(a, n, depth, max_depth, max_len).2.len() == 0,
    ensures
        sanitize_items(a, n, depth, max_depth, max_len).0 == a.take(n as int),
    decreases a, n,
{
    if n == 0 {
        assert(a.take(0) =~= Seq::<JsonView>::empty());
    } else {
        let prev = sanitize_items(a, (n - 1) as nat, depth, max_depth, max_len);
        let r = sanitize_spec(a[n - 1], depth + 1, max_depth, max_len);
        let all = sanitize_items(a, n, depth, max_depth, max_len);
        assert(prev.1.len() == 0 && r.changes.len() == 0) by {
            assert(all.1 == prev.1 + r.changes);
        }
        if r.value is None {
            assert(all.2.len() > 0);
        } else {
            assert(prev.2.len() == 0 && r.errors.len() == 0) by {
                assert(all.2 == prev.2 + r.errors);
            }
            if depth + 1 > max_depth {
                assert(r.value is None);
            }
            lemma_unchanged_items(a, (n - 1) as nat, depth, max_depth, max_len);
            lemma_unchanged_value(a[n - 1], depth + 1, max_depth, max_len);
            assert(a.take(n as int) =~= a.take(n - 1).push(a[n - 1]));
        }
    }
}

proof fn lemma_unchanged_entries(
    e: Seq<(Seq<char>, JsonView)>,
    n: nat,
    depth: nat,
    max_depth: nat,
    max_len: nat,
)
    requires
        n <= e.len(),
        crate::json::keys_ascending(e),
        forall|i: int| 0 <= i < e.len() ==> objects_ordered(#[trigger] e[i].1),
        sanitize_entries(e, n, depth, max_depth, max_len).1.len() == 0,
        sanitize_entries(e, n, depth, max_depth, max_len).2.len() == 0,
    ensures
        sanitize_entries(e, n, depth, max_depth, max_len).0 == e.take(n as int),
    decreases e, n,
{
    if n == 0 {
        assert(e.take(0) =~= Seq::<(Seq<char>, JsonView)>::empty());
    } else {
        let prev = sanitize_entries(e, (n - 1) as nat, depth, max_depth, max_len);
        let key = e[n - 1].0;
        let clean = sanitized_text(key, max_len);
        let key_changes = if clean != key { seq![key_change_text(key, clean)] } else { Seq::<Seq<char>>::empty() };
        let r = sanitize_spec(e[n - 1].1, depth + 1, max_depth, max_len);
        let all = sanitize_entries(e, n, depth, max_depth, max_len);
        assert(prev.1.len() == 0 && key_changes.len() == 0 && r.changes.len() == 0) by {
            assert(all.1 == prev.1 + key_changes + r.changes);
        }
        assert(clean == key);
        if r.value is None {
            assert(all.2.len() > 0);
        } else {
            assert(prev.2.len() == 0 && r.errors.len() == 0) by {
                assert(all.2 == prev.2 + r.errors);
            }
            if depth + 1 > max_depth {
                assert(r.value is None);
            }
            assert(decreases_to!(e => e[n - 1]));
            lemma_unchanged_entries(e, (n - 1) as nat, depth, max_depth, max_len);
            lemma_unchanged_value(e[n - 1].1, depth + 1, max_depth, max_len);
            let t = e.take(n - 1);
            assert(t.push((key, e[n - 1].1)) =~= e.take(n as int));
            assert(crate::json::keys_ascending(e.take(n as int))) by {
                assert forall|i: int, j: int| 0 <= i < j < e.take(n as int).len() implies #[trigger] crate::json::seq_lt(
                    e.take(n as int)[i].0,
                    e.take(n as int)[j].0,
                ) by {
                    assert(e.take(n as int)[i] == e[i] && e.take(n as int)[j] == e[j]);
                }
            }
            crate::json::lemma_insert_after_all(t, key, e[n - 1].1);
        }
    }
}

/// An input reported valid is handed on exactly as it came: any change that
/// sanitizing makes, a reordering or merging of object keys included, is
/// reported.
pub proof fn lemma_valid_is_unchanged(p: PipelineView, schema: JsonView, input: JsonView)
    ensures
        validation_outcome(p, schema, input) matches StateView::Valid(v) ==> v == input,
{
}

/// An input in the form `serde_json` holds values in (objects with their keys
/// ascending, each once), in which sanitizing finds nothing to note and which
/// the schema check accepts, is reported valid as it came.
pub proof fn lemma_clean_input_is_valid(p: PipelineView, schema: JsonView, input: JsonView)
    requires
        objects_ordered(input),
        sanitize_spec(input, 0, p.max_depth, p.max_string_length).changes.len() == 0,
        sanitize_spec(input, 0, p.max_depth, p.max_string_length).errors.len() == 0,
        parameter_check(schema, input) is Ok,
    ensures
        validation_outcome(p, schema, input) == StateView::Valid(input),
{
    lemma_unchanged_value(input, 0, p.max_depth, p.max_string_length);
}

} // verus!
