//! JSON values as the library holds them, with their mathematical model.
//!
//! Objects are lists of entries; the library keeps them ordered by key
//! (code point order, which is the byte order of UTF-8) with unique keys,
//! as `serde_json` does for its maps, whenever it builds one with
//! [`object_insert`].

use vstd::prelude::*;

verus! {

/// A JSON number: a non-negative integer, a negative integer, or a floating
/// point number held by its decimal text.
#[derive(Debug, Clone, PartialEq)]
pub enum JsonNumber {
    PosInt(u64),
    NegInt(i64),
    Float(String),
}

/// A JSON value.
#[derive(Debug, PartialEq)]
pub enum JsonValue {
    Null,
    Bool(bool),
    Number(JsonNumber),
    String(String),
    Array(Vec<JsonValue>),
    Object(Vec<(String, JsonValue)>),
}

/// The model of a JSON number.
pub enum NumberView {
    PosInt(u64),
    NegInt(i64),
    Float(Seq<char>),
}

/// The model of a JSON value.
pub enum JsonView {
    Null,
    Bool(bool),
    Number(NumberView),
    Str(Seq<char>),
    Array(Seq<JsonView>),
    Object(Seq<(Seq<char>, JsonView)>),
}

impl JsonNumber {
    pub open spec fn view(&self) -> NumberView {
        match self {
            JsonNumber::PosInt(u) => NumberView::PosInt(*u),
            JsonNumber::NegInt(i) => NumberView::NegInt(*i),
            JsonNumber::Float(s) => NumberView::Float(s@),
        }
    }
}

impl JsonValue {
    pub open spec fn view(&self) -> JsonView
        decreases self,
    {
        match self {
            JsonValue::Null => JsonView::Null,
            JsonValue::Bool(b) => JsonView::Bool(*b),
            JsonValue::Number(n) => JsonView::Number(n.view()),
            JsonValue::String(s) => JsonView::Str(s@),
            JsonValue::Array(items) => JsonView::Array(
                Seq::new(
                    items@.len(),
                    |i: int|
                        if 0 <= i < items@.len() {
                            items@[i].view()
                        } else {
                            JsonView::Null
                        },
                ),
            ),
            JsonValue::Object(entries) => JsonView::Object(
                Seq::new(
                    entries@.len(),
                    |i: int|
                        if 0 <= i < entries@.len() {
                            (entries@[i].0@, entries@[i].1.view())
                        } else {
                            (Seq::empty(), JsonView::Null)
                        },
                ),
            ),
        }
    }
}


/// The model of a list of object entries.
pub open spec fn entries_view(v: Seq<(String, JsonValue)>) -> Seq<(Seq<char>, JsonView)> {
    Seq::new(v.len(), |i: int| (v[i].0@, v[i].1@))
}

/// `a` comes before `b` in code point order.
pub open spec fn seq_lt(a: Seq<char>, b: Seq<char>) -> bool
    decreases a.len(),
{
    if a.len() == 0 {
        b.len() > 0
    } else if b.len() == 0 {
        false
    } else if a[0] != b[0] {
        a[0] < b[0]
    } else {
        seq_lt(a.drop_first(), b.drop_first())
    }
}

/// Position of the first entry of `e` with key `key`, or -1 when there is none.
pub open spec fn key_index(e: Seq<(Seq<char>, JsonView)>, key: Seq<char>) -> int
    decreases e.len(),
{
    if e.len() == 0 {
        -1
    } else {
        let r = key_index(e.drop_last(), key);
        if r >= 0 {
            r
        } else if e.last().0 == key {
            e.len() - 1
        } else {
            -1
        }
    }
}

/// Position of the first entry of `e` whose key comes after `key`, or the
/// length of `e` when there is none.
pub open spec fn insert_pos(e: Seq<(Seq<char>, JsonView)>, key: Seq<char>) -> int
    decreases e.len(),
{
    if e.len() == 0 {
        0
    } else {
        let r = insert_pos(e.drop_last(), key);
        if r < e.len() - 1 {
            r
        } else if seq_lt(key, e.last().0) {
            e.len() - 1
        } else {
            e.len() as int
        }
    }
}

/// The value under `key` in the entries `e`.
pub open spec fn entries_get(e: Seq<(Seq<char>, JsonView)>, key: Seq<char>) -> Option<JsonView> {
    let i = key_index(e, key);
    if i >= 0 {
        Some(e[i].1)
    } else {
        None
    }
}

/// `e` with `key` set to `val`: the value of an entry with that key is
/// replaced in place; otherwise a new entry goes before the first later key.
pub open spec fn entries_insert(
    e: Seq<(Seq<char>, JsonView)>,
    key: Seq<char>,
    val: JsonView,
) -> Seq<(Seq<char>, JsonView)> {
    let i = key_index(e, key);
    if i >= 0 {
        e.update(i, (key, val))
    } else {
        e.insert(insert_pos(e, key), (key, val))
    }
}

/// The value under `key` when `v` is an object (`serde_json::Value::get`).
pub open spec fn view_get(v: JsonView, key: Seq<char>) -> Option<JsonView> {
    match v {
        JsonView::Object(e) => entries_get(e, key),
        _ => None,
    }
}

/// The text of `v` when it is a string.
pub open spec fn view_as_str(v: JsonView) -> Option<Seq<char>> {
    match v {
        JsonView::Str(s) => Some(s),
        _ => None,
    }
}

/// The elements of `v` when it is an array.
pub open spec fn view_as_array(v: JsonView) -> Option<Seq<JsonView>> {
    match v {
        JsonView::Array(a) => Some(a),
        _ => None,
    }
}

/// The entries of `v` when it is an object.
pub open spec fn view_as_object(v: JsonView) -> Option<Seq<(Seq<char>, JsonView)>> {
    match v {
        JsonView::Object(e) => Some(e),
        _ => None,
    }
}

/// `v` as an unsigned integer, when it is a non-negative integer.
pub open spec fn view_as_u64(v: JsonView) -> Option<u64> {
    match v {
        JsonView::Number(NumberView::PosInt(u)) => Some(u),
        _ => None,
    }
}

/// `v` as a signed integer, when it is an integer in the range of `i64`.
pub open spec fn view_as_i64(v: JsonView) -> Option<i64> {
    match v {
        JsonView::Number(NumberView::PosInt(u)) => if u <= i64::MAX as u64 {
            Some(u as i64)
        } else {
            None
        },
        JsonView::Number(NumberView::NegInt(i)) => Some(i),
        _ => None,
    }
}

/// The number that `serde_json` makes of a signed integer.
pub open spec fn number_of_i64(i: i64) -> NumberView {
    if i < 0 {
        NumberView::NegInt(i)
    } else {
        NumberView::PosInt(i as u64)
    }
}

/// `key_index` is -1 or the position of an entry with the key, and -1 only
/// when no entry has it.
pub proof fn lemma_key_index_bounds(e: Seq<(Seq<char>, JsonView)>, key: Seq<char>)
    ensures
        -1 <= key_index(e, key) < e.len(),
        key_index(e, key) >= 0 ==> e[key_index(e, key)].0 == key,
        key_index(e, key) < 0 ==> forall|j: int| 0 <= j < e.len() ==> e[j].0 != key,
    decreases e.len(),
{
    if e.len() > 0 {
        lemma_key_index_bounds(e.drop_last(), key);
        if key_index(e, key) < 0 {
            assert forall|j: int| 0 <= j < e.len() implies e[j].0 != key by {
                if j < e.len() - 1 {
                    assert(e.drop_last()[j] == e[j]);
                }
            }
        }
    }
}

/// `insert_pos` is a position within the entries or just past them.
pub proof fn lemma_insert_pos_bounds(e: Seq<(Seq<char>, JsonView)>, key: Seq<char>)
    ensures
        0 <= insert_pos(e, key) <= e.len(),
    decreases e.len(),
{
    if e.len() > 0 {
        lemma_insert_pos_bounds(e.drop_last(), key);
    }
}

/// Whether the text `a` comes before `b` in code point order.
pub fn text_lt(a: &str, b: &str) -> (r: bool)
    ensures
        r == seq_lt(a@, b@),
{
    let ac = crate::text::chars_of(a);
    let bc = crate::text::chars_of(b);
    let mut i: usize = 0;
    assert(ac@.skip(0) =~= ac@);
    assert(bc@.skip(0) =~= bc@);
    loop
        invariant
            i <= ac@.len(),
            i <= bc@.len(),
            seq_lt(a@, b@) == seq_lt(ac@.skip(i as int), bc@.skip(i as int)),
            ac@ == a@,
            bc@ == b@,
        decreases ac@.len() - i,
    {
        if i == ac.len() {
            return i < bc.len();
        }
        if i == bc.len() {
            return false;
        }
        if ac[i] != bc[i] {
            assert(ac@.skip(i as int)[0] == ac@[i as int]);
            assert(bc@.skip(i as int)[0] == bc@[i as int]);
            return ac[i] < bc[i];
        }
        proof {
            assert(ac@.skip(i as int)[0] == ac@[i as int]);
            assert(bc@.skip(i as int)[0] == bc@[i as int]);
            assert(ac@.skip(i as int).drop_first() =~= ac@.skip(i + 1));
            assert(bc@.skip(i as int).drop_first() =~= bc@.skip(i + 1));
        }
        i = i + 1;
    }
}

/// Position of the first entry of `e` whose key is `key`.
pub fn find_key(e: &Vec<(String, JsonValue)>, key: &str) -> (r: Option<usize>)
    ensures
        match r {
            Some(i) => key_index(entries_view(e@), key@) == i as int,
            None => key_index(entries_view(e@), key@) == -1,
        },
{
    let ghost ev = entries_view(e@);
    let mut i: usize = 0;
    while i < e.len()
        invariant
            i <= e@.len(),
            ev == entries_view(e@),
            key_index(ev.take(i as int), key@) == -1,
        decreases e@.len() - i,
    {
        proof {
            assert(ev.take(i + 1).drop_last() =~= ev.take(i as int));
        }
        if crate::text::str_eq(e[i].0.as_str(), key) {
            proof {
                let t = ev.take(i + 1);
                assert(t.last().0 == key@);
                assert(key_index(t, key@) == i as int);
                lemma_key_index_prefix(ev, key@, i as int);
            }
            return Some(i);
        }
        i = i + 1;
    }
    assert(ev.take(e@.len() as int) =~= ev);
    None
}

proof fn lemma_key_index_prefix(e: Seq<(Seq<char>, JsonView)>, key: Seq<char>, i: int)
    requires
        0 <= i < e.len(),
        key_index(e.take(i + 1), key) == i,
    ensures
        key_index(e, key) == i,
    decreases e.len(),
{
    if e.len() > i + 1 {
        assert(e.drop_last().take(i + 1) =~= e.take(i + 1));
        lemma_key_index_prefix(e.drop_last(), key, i);
    } else {
        assert(e.take(i + 1) =~= e);
    }
}

proof fn lemma_insert_pos_prefix(e: Seq<(Seq<char>, JsonView)>, key: Seq<char>, i: int)
    requires
        0 <= i < e.len(),
        insert_pos(e.take(i + 1), key) == i,
    ensures
        insert_pos(e, key) == i,
    decreases e.len(),
{
    if e.len() > i + 1 {
        assert(e.drop_last().take(i + 1) =~= e.take(i + 1));
        lemma_insert_pos_prefix(e.drop_last(), key, i);
        lemma_insert_pos_bounds(e.drop_last(), key);
    } else {
        assert(e.take(i + 1) =~= e);
    }
}

/// Sets `key` to `val` in the object entries `e`, as `serde_json`'s map does.
pub fn object_insert(e: &mut Vec<(String, JsonValue)>, key: String, val: JsonValue)
    ensures
        entries_view(final(e)@) == entries_insert(entries_view(old(e)@), key@, val@),
{
    let ghost ev = entries_view(e@);
    match find_key(e, key.as_str()) {
        Some(i) => {
            proof {
                lemma_key_index_bounds(ev, key@);
            }
            e.set(i, (key, val));
            assert(entries_view(e@) =~= ev.update(i as int, (key@, val@)));
        },
        None => {
            let mut p: usize = 0;
            while p < e.len() && !text_lt(key.as_str(), e[p].0.as_str())
                invariant
                    p <= e@.len(),
                    ev == entries_view(e@),
                    insert_pos(ev.take(p as int), key@) == p as int,
                decreases e@.len() - p,
            {
                proof {
                    let t = ev.take(p + 1);
                    assert(t.drop_last() =~= ev.take(p as int));
                    assert(t.last().0 == e@[p as int].0@);
                }
                p = p + 1;
            }
            proof {
                if p < e@.len() {
                    let t = ev.take(p + 1);
                    assert(t.drop_last() =~= ev.take(p as int));
                    assert(t.last().0 == e@[p as int].0@);
                    assert(insert_pos(t, key@) == p as int);
                    lemma_insert_pos_prefix(ev, key@, p as int);
                } else {
                    assert(ev.take(p as int) =~= ev);
                }
            }
            let ghost kv = key@;
            let ghost vv = val@;
            e.insert(p, (key, val));
            assert(entries_view(e@) =~= ev.insert(p as int, (kv, vv)));
        },
    }
}

impl JsonNumber {
    /// A copy of `self`.
    pub fn copy(&self) -> (r: JsonNumber)
        ensures
            r@ == self@,
    {
        match self {
            JsonNumber::PosInt(u) => JsonNumber::PosInt(*u),
            JsonNumber::NegInt(i) => JsonNumber::NegInt(*i),
            JsonNumber::Float(s) => JsonNumber::Float(s.clone()),
        }
    }
}

impl JsonValue {
    /// The value under `key` when `self` is an object.
    pub fn get(&self, key: &str) -> (r: Option<&JsonValue>)
        ensures
            match r {
                Some(v) => view_get(self@, key@) == Some(v@),
                None => view_get(self@, key@) is None,
            },
    {
        match self {
            JsonValue::Object(e) => {
                proof {
                    assert(entries_view(e@) =~= view_as_object(self@)->0);
                    lemma_key_index_bounds(entries_view(e@), key@);
                }
                match find_key(e, key) {
                    Some(i) => Some(&e[i].1),
                    None => None,
                }
            },
            _ => None,
        }
    }

    /// The text of `self` when it is a string.
    pub fn as_str(&self) -> (r: Option<&str>)
        ensures
            match r {
                Some(s) => view_as_str(self@) == Some(s@),
                None => view_as_str(self@) is None,
            },
    {
        match self {
            JsonValue::String(s) => Some(s.as_str()),
            _ => None,
        }
    }

    /// The elements of `self` when it is an array.
    pub fn as_array(&self) -> (r: Option<&Vec<JsonValue>>)
        ensures
            match r {
                Some(a) => view_as_array(self@) == Some(Seq::new(a@.len(), |i: int| a@[i]@)),
                None => view_as_array(self@) is None,
            },
    {
        match self {
            JsonValue::Array(a) => {
                assert(view_as_array(self@)->0 =~= Seq::new(a@.len(), |i: int| a@[i]@));
                Some(a)
            },
            _ => None,
        }
    }

    /// The entries of `self` when it is an object.
    pub fn as_object(&self) -> (r: Option<&Vec<(String, JsonValue)>>)
        ensures
            match r {
                Some(e) => view_as_object(self@) == Some(entries_view(e@)),
                None => view_as_object(self@) is None,
            },
    {
        match self {
            JsonValue::Object(e) => {
                assert(view_as_object(self@)->0 =~= entries_view(e@));
                Some(e)
            },
            _ => None,
        }
    }

    /// `self` as an unsigned integer.
    pub fn as_u64(&self) -> (r: Option<u64>)
        ensures
            r == view_as_u64(self@),
    {
        match self {
            JsonValue::Number(JsonNumber::PosInt(u)) => Some(*u),
            _ => None,
        }
    }

    /// `self` as a signed integer.
    pub fn as_i64(&self) -> (r: Option<i64>)
        ensures
            r == view_as_i64(self@),
    {
        match self {
            JsonValue::Number(JsonNumber::PosInt(u)) => {
                if *u <= 9223372036854775807u64 {
                    Some(*u as i64)
                } else {
                    None
                }
            },
            JsonValue::Number(JsonNumber::NegInt(i)) => Some(*i),
            _ => None,
        }
    }

    /// Whether `self` is a string.
    pub fn is_string(&self) -> (r: bool)
        ensures
            r == self@ is Str,
    {
        match self {
            JsonValue::String(_) => true,
            _ => false,
        }
    }

    /// Whether `self` is an object.
    pub fn is_object(&self) -> (r: bool)
        ensures
            r == self@ is Object,
    {
        match self {
            JsonValue::Object(_) => true,
            _ => false,
        }
    }

    /// Whether `self` is an array.
    pub fn is_array(&self) -> (r: bool)
        ensures
            r == self@ is Array,
    {
        match self {
            JsonValue::Array(_) => true,
            _ => false,
        }
    }

    /// The number `i` as `serde_json` makes it.
    pub fn from_i64(i: i64) -> (r: JsonValue)
        ensures
            r@ == JsonView::Number(number_of_i64(i)),
    {
        if i < 0 {
            JsonValue::Number(JsonNumber::NegInt(i))
        } else {
            JsonValue::Number(JsonNumber::PosInt(i as u64))
        }
    }

    /// The number `u`.
    pub fn from_u64(u: u64) -> (r: JsonValue)
        ensures
            r@ == JsonView::Number(NumberView::PosInt(u)),
    {
        JsonValue::Number(JsonNumber::PosInt(u))
    }

    /// Whether `self` and `other` are the same value; objects are compared
    /// entry by entry, in order.
    pub fn same_value(&self, other: &JsonValue) -> (r: bool)
        ensures
            r == (self@ == other@),
        decreases self,
    {
        match (self, other) {
            (JsonValue::Null, JsonValue::Null) => true,
            (JsonValue::Bool(a), JsonValue::Bool(b)) => *a == *b,
            (JsonValue::Number(JsonNumber::PosInt(a)), JsonValue::Number(JsonNumber::PosInt(b))) => *a == *b,
            (JsonValue::Number(JsonNumber::NegInt(a)), JsonValue::Number(JsonNumber::NegInt(b))) => *a == *b,
            (JsonValue::Number(JsonNumber::Float(a)), JsonValue::Number(JsonNumber::Float(b))) => crate::text::str_eq(
                a.as_str(),
                b.as_str(),
            ),
            (JsonValue::Number(_), JsonValue::Number(_)) => false,
            (JsonValue::String(a), JsonValue::String(b)) => crate::text::str_eq(a.as_str(), b.as_str()),
            (JsonValue::Array(a), JsonValue::Array(b)) => {
                if a.len() != b.len() {
                    assert(view_as_array(self@)->0.len() != view_as_array(other@)->0.len());
                    return false;
                }
                let mut i: usize = 0;
                while i < a.len()
                    invariant
                        *self == JsonValue::Array(*a),
                        *other == JsonValue::Array(*b),
                        a@.len() == b@.len(),
                        i <= a@.len(),
                        forall|j: int| 0 <= j < i ==> a@[j]@ == b@[j]@,
                    decreases a@.len() - i,
                {
                    proof {
                        assert(decreases_to!(*self => self->Array_0));
                        assert(decreases_to!(*a => a@));
                        assert(decreases_to!(a@ => a@[i as int]));
                    }
                    if !a[i].same_value(&b[i]) {
                        assert(view_as_array(self@)->0[i as int] != view_as_array(other@)->0[i as int]);
                        return false;
                    }
                    i = i + 1;
                }
                assert(view_as_array(self@)->0 =~= view_as_array(other@)->0);
                true
            },
            (JsonValue::Object(a), JsonValue::Object(b)) => {
                if a.len() != b.len() {
                    assert(view_as_object(self@)->0.len() != view_as_object(other@)->0.len());
                    return false;
                }
                let mut i: usize = 0;
                while i < a.len()
                    invariant
                        *self == JsonValue::Object(*a),
                        *other == JsonValue::Object(*b),
                        a@.len() == b@.len(),
                        i <= a@.len(),
                        forall|j: int| 0 <= j < i ==> a@[j].0@ == b@[j].0@ && a@[j].1@ == b@[j].1@,
                    decreases a@.len() - i,
                {
                    proof {
                        assert(decreases_to!(*self => self->Object_0));
                        assert(decreases_to!(*a => a@));
                        assert(decreases_to!(a@ => a@[i as int]));
                        assert(decreases_to!(a@[i as int] => a@[i as int].1));
                    }
                    if !crate::text::str_eq(a[i].0.as_str(), b[i].0.as_str()) || !a[i].1.same_value(&b[i].1) {
                        assert(view_as_object(self@)->0[i as int] != view_as_object(other@)->0[i as int]);
                        return false;
                    }
                    i = i + 1;
                }
                assert(view_as_object(self@)->0 =~= view_as_object(other@)->0);
                true
            },
            _ => false,
        }
    }

    /// A copy of `self`.
    pub fn deep_copy(&self) -> (r: JsonValue)
        ensures
            r@ == self@,
        decreases self,
    {
        match self {
            JsonValue::Null => JsonValue::Null,
            JsonValue::Bool(b) => JsonValue::Bool(*b),
            JsonValue::Number(JsonNumber::PosInt(u)) => JsonValue::Number(JsonNumber::PosInt(*u)),
            JsonValue::Number(JsonNumber::NegInt(i)) => JsonValue::Number(JsonNumber::NegInt(*i)),
            JsonValue::Number(JsonNumber::Float(s)) => JsonValue::Number(JsonNumber::Float(s.clone())),
            JsonValue::String(s) => JsonValue::String(s.clone()),
            JsonValue::Array(items) => {
                let mut out: Vec<JsonValue> = Vec::new();
                let mut i: usize = 0;
                while i < items.len()
                    invariant
                        *self == JsonValue::Array(*items),
                        i <= items@.len(),
                        out@.len() == i,
                        forall|j: int| 0 <= j < i ==> out@[j]@ == items@[j]@,
                    decreases items@.len() - i,
                {
                    proof {
                        assert(decreases_to!(*self => self->Array_0));
                        assert(decreases_to!(*items => items@));
                        assert(decreases_to!(items@ => items@[i as int]));
                    }
                    out.push(items[i].deep_copy());
                    i = i + 1;
                }
                let r = JsonValue::Array(out);
                assert(view_as_array(r@)->0 =~= view_as_array(self@)->0);
                r
            },
            JsonValue::Object(entries) => {
                let mut out: Vec<(String, JsonValue)> = Vec::new();
                let mut i: usize = 0;
                while i < entries.len()
                    invariant
                        *self == JsonValue::Object(*entries),
                        i <= entries@.len(),
                        out@.len() == i,
                        forall|j: int| 0 <= j < i ==> out@[j].0@ == entries@[j].0@ && out@[j].1@ == entries@[j].1@,
                    decreases entries@.len() - i,
                {
                    proof {
                        assert(decreases_to!(*self => self->Object_0));
                        assert(decreases_to!(*entries => entries@));
                        assert(decreases_to!(entries@ => entries@[i as int]));
                        assert(decreases_to!(entries@[i as int] => entries@[i as int].1));
                    }
                    out.push((entries[i].0.clone(), entries[i].1.deep_copy()));
                    i = i + 1;
                }
                let r = JsonValue::Object(out);
                assert(view_as_object(r@)->0 =~= view_as_object(self@)->0);
                r
            },
        }
    }
}

} // verus!

verus! {

/// A field of an object lies strictly inside the object.
pub proof fn lemma_get_decreases(s: JsonView, key: Seq<char>)
    ensures
        view_get(s, key) matches Some(x) ==> decreases_to!(s => x),
{
    if let JsonView::Object(e) = s {
        lemma_key_index_bounds(e, key);
        let i = key_index(e, key);
        if i >= 0 {
            assert(decreases_to!(s => s->Object_0));
            assert(decreases_to!(e => e[i]));
            assert(decreases_to!(e[i] => e[i].1));
        }
    }
}

/// The text under `key` when `s` is an object holding a string there.
pub open spec fn get_str(s: JsonView, key: Seq<char>) -> Option<Seq<char>> {
    match view_get(s, key) {
        Some(v) => view_as_str(v),
        None => None,
    }
}

impl JsonValue {
    /// The text under `key` when `self` is an object holding a string there.
    pub fn get_str(&self, key: &str) -> (r: Option<&str>)
        ensures
            match r {
                Some(t) => get_str(self@, key@) == Some(t@),
                None => get_str(self@, key@) is None,
            },
    {
        match self.get(key) {
            Some(v) => v.as_str(),
            None => None,
        }
    }
}

} // verus!

verus! {

impl JsonValue {
    /// The object with the given entries.
    pub fn object_from(entries: Vec<(String, JsonValue)>) -> (r: JsonValue)
        ensures
            r@ == JsonView::Object(entries_view(entries@)),
    {
        let ghost ev = entries_view(entries@);
        let r = JsonValue::Object(entries);
        assert(view_as_object(r@)->0 =~= ev);
        r
    }

    /// The empty object.
    pub fn empty_object() -> (r: JsonValue)
        ensures
            r@ == JsonView::Object(Seq::empty()),
    {
        let r = JsonValue::Object(Vec::new());
        assert(view_as_object(r@)->0 =~= Seq::<(Seq<char>, JsonView)>::empty());
        r
    }

    /// The empty array.
    pub fn empty_array() -> (r: JsonValue)
        ensures
            r@ == JsonView::Array(Seq::empty()),
    {
        let r = JsonValue::Array(Vec::new());
        assert(view_as_array(r@)->0 =~= Seq::<JsonView>::empty());
        r
    }

    /// The array with the given elements.
    pub fn array_from(items: Vec<JsonValue>) -> (r: JsonValue)
        ensures
            r@ == JsonView::Array(Seq::new(items@.len(), |i: int| items@[i]@)),
    {
        let ghost iv = Seq::new(items@.len(), |i: int| items@[i]@);
        let r = JsonValue::Array(items);
        assert(view_as_array(r@)->0 =~= iv);
        r
    }
}

} // verus!

verus! {

/// `i` is the first position of `e` whose key is `key`.
pub open spec fn is_first_key(e: Seq<(Seq<char>, JsonView)>, key: Seq<char>, i: int) -> bool {
    &&& 0 <= i < e.len()
    &&& e[i].0 == key
    &&& forall|j: int| 0 <= j < i ==> e[j].0 != key
}

/// `key_index` finds the first entry with the key, or reports that none has it.
pub proof fn lemma_key_index_first(e: Seq<(Seq<char>, JsonView)>, key: Seq<char>)
    ensures
        key_index(e, key) >= 0 ==> is_first_key(e, key, key_index(e, key)),
        key_index(e, key) < 0 ==> forall|j: int| 0 <= j < e.len() ==> e[j].0 != key,
        forall|i: int| is_first_key(e, key, i) ==> key_index(e, key) == i,
    decreases e.len(),
{
    lemma_key_index_bounds(e, key);
    if e.len() > 0 {
        let d = e.drop_last();
        lemma_key_index_first(d, key);
        assert forall|j: int| 0 <= j < d.len() implies d[j] == e[j] by {}
        assert forall|i: int| is_first_key(e, key, i) implies key_index(e, key) == i by {
            if i < d.len() {
                assert(is_first_key(d, key, i));
            } else {
                assert(forall|j: int| 0 <= j < d.len() ==> d[j].0 != key);
            }
        }
    }
}

/// Reading a key after setting it gives the value set (the JSON map law).
pub proof fn lemma_insert_get_same(e: Seq<(Seq<char>, JsonView)>, key: Seq<char>, val: JsonView)
    ensures
        entries_get(entries_insert(e, key, val), key) == Some(val),
{
    lemma_key_index_first(e, key);
    lemma_insert_pos_bounds(e, key);
    let r = entries_insert(e, key, val);
    let i = key_index(e, key);
    if i >= 0 {
        assert(is_first_key(r, key, i));
        lemma_key_index_first(r, key);
    } else {
        let p = insert_pos(e, key);
        assert(is_first_key(r, key, p)) by {
            assert forall|j: int| 0 <= j < p implies r[j].0 != key by {
                assert(r[j] == e[j]);
            }
        }
        lemma_key_index_first(r, key);
    }
}

/// Setting a key leaves the value under every other key as it was.
pub proof fn lemma_insert_get_other(e: Seq<(Seq<char>, JsonView)>, key: Seq<char>, val: JsonView, other: Seq<char>)
    requires
        other != key,
    ensures
        entries_get(entries_insert(e, key, val), other) == entries_get(e, other),
{
    lemma_key_index_first(e, key);
    lemma_key_index_first(e, other);
    lemma_insert_pos_bounds(e, key);
    let r = entries_insert(e, key, val);
    lemma_key_index_first(r, other);
    let i = key_index(e, key);
    let o = key_index(e, other);
    if i >= 0 {
        if o >= 0 {
            assert(is_first_key(r, other, o));
        } else {
            assert forall|j: int| 0 <= j < r.len() implies r[j].0 != other by {
                if j != i {
                    assert(r[j] == e[j]);
                }
            }
            if key_index(r, other) >= 0 {
                assert(r[key_index(r, other)].0 == other);
            }
        }
    } else {
        let p = insert_pos(e, key);
        if o >= 0 {
            let ro = if o < p { o } else { o + 1 };
            assert(r[ro] == e[o]);
            assert(is_first_key(r, other, ro)) by {
                assert forall|j: int| 0 <= j < ro implies r[j].0 != other by {
                    if j < p {
                        assert(r[j] == e[j]);
                    } else if j > p {
                        assert(r[j] == e[j - 1]);
                    }
                }
            }
        } else {
            assert forall|j: int| 0 <= j < r.len() implies r[j].0 != other by {
                if j < p {
                    assert(r[j] == e[j]);
                } else if j > p {
                    assert(r[j] == e[j - 1]);
                }
            }
            if key_index(r, other) >= 0 {
                assert(r[key_index(r, other)].0 == other);
            }
        }
    }
}


/// The keys of `e` ascend strictly in code point order (so no key occurs twice).
pub open spec fn keys_ascending(e: Seq<(Seq<char>, JsonView)>) -> bool {
    forall|i: int, j: int| 0 <= i < j < e.len() ==> #[trigger] seq_lt(e[i].0, e[j].0)
}

proof fn lemma_seq_lt_irreflexive(a: Seq<char>)
    ensures
        !seq_lt(a, a),
    decreases a.len(),
{
    if a.len() > 0 {
        lemma_seq_lt_irreflexive(a.drop_first());
    }
}

proof fn lemma_seq_lt_total(a: Seq<char>, b: Seq<char>)
    requires
        a != b,
    ensures
        seq_lt(a, b) || seq_lt(b, a),
    decreases a.len(),
{
    if a.len() > 0 && b.len() > 0 && a[0] == b[0] {
        if a.drop_first() == b.drop_first() {
            assert(a =~= seq![a[0]] + a.drop_first());
            assert(b =~= seq![b[0]] + b.drop_first());
        }
        lemma_seq_lt_total(a.drop_first(), b.drop_first());
    } else if a.len() == 0 && b.len() == 0 {
        assert(a =~= b);
    }
}

proof fn lemma_seq_lt_transitive(a: Seq<char>, b: Seq<char>, c: Seq<char>)
    requires
        seq_lt(a, b),
        seq_lt(b, c),
    ensures
        seq_lt(a, c),
    decreases a.len(),
{
    if a.len() > 0 && a[0] == b[0] && b[0] == c[0] {
        lemma_seq_lt_transitive(a.drop_first(), b.drop_first(), c.drop_first());
    }
}

/// What `insert_pos` finds: no key before it comes after `key`, and the key
/// at it does.
proof fn lemma_insert_pos_spec(e: Seq<(Seq<char>, JsonView)>, key: Seq<char>)
    ensures
        forall|j: int| 0 <= j < insert_pos(e, key) ==> !seq_lt(key, #[trigger] e[j].0),
        insert_pos(e, key) < e.len() ==> seq_lt(key, e[insert_pos(e, key)].0),
    decreases e.len(),
{
    lemma_insert_pos_bounds(e, key);
    if e.len() > 0 {
        let d = e.drop_last();
        lemma_insert_pos_spec(d, key);
        lemma_insert_pos_bounds(d, key);
        assert forall|j: int| 0 <= j < insert_pos(e, key) implies !seq_lt(key, #[trigger] e[j].0) by {
            if j < d.len() {
                assert(d[j] == e[j]);
            }
        }
        if insert_pos(d, key) < d.len() {
            assert(d[insert_pos(d, key)] == e[insert_pos(d, key)]);
        }
    }
}

/// Setting a key in entries whose keys ascend keeps them ascending: objects
/// that the library builds with `object_insert` stay ordered by key with
/// every key once, as `serde_json`'s maps are.
pub proof fn lemma_insert_keeps_keys_ascending(e: Seq<(Seq<char>, JsonView)>, key: Seq<char>, val: JsonView)
    requires
        keys_ascending(e),
    ensures
        keys_ascending(entries_insert(e, key, val)),
{
    lemma_key_index_first(e, key);
    lemma_insert_pos_bounds(e, key);
    let r = entries_insert(e, key, val);
    let i = key_index(e, key);
    if i >= 0 {
        assert forall|a: int, b: int| 0 <= a < b < r.len() implies #[trigger] seq_lt(r[a].0, r[b].0) by {
            assert(r[a].0 == e[a].0);
            assert(r[b].0 == e[b].0);
        }
    } else {
        let p = insert_pos(e, key);
        lemma_insert_pos_spec(e, key);
        assert forall|j: int| 0 <= j < p implies seq_lt(#[trigger] e[j].0, key) by {
            assert(!seq_lt(key, e[j].0));
            lemma_seq_lt_total(e[j].0, key);
        }
        assert forall|j: int| p <= j < e.len() implies seq_lt(key, #[trigger] e[j].0) by {
            if j > p {
                assert(seq_lt(e[p].0, e[j].0));
                lemma_seq_lt_transitive(key, e[p].0, e[j].0);
            }
        }
        assert forall|a: int, b: int| 0 <= a < b < r.len() implies #[trigger] seq_lt(r[a].0, r[b].0) by {
            if b < p {
                assert(r[a] == e[a] && r[b] == e[b]);
            } else if b == p {
                assert(r[a] == e[a]);
            } else if a < p {
                assert(r[a] == e[a] && r[b] == e[b - 1]);
                lemma_seq_lt_transitive(e[a].0, key, e[b - 1].0);
            } else if a == p {
                assert(r[b] == e[b - 1]);
            } else {
                assert(r[a] == e[a - 1] && r[b] == e[b - 1]);
            }
        }
    }
}

/// Keys that ascend occur once each.
pub proof fn lemma_ascending_keys_unique(e: Seq<(Seq<char>, JsonView)>)
    requires
        keys_ascending(e),
    ensures
        forall|i: int, j: int| 0 <= i < j < e.len() ==> e[i].0 != e[j].0,
{
    assert forall|i: int, j: int| 0 <= i < j < e.len() implies e[i].0 != e[j].0 by {
        assert(seq_lt(e[i].0, e[j].0));
        lemma_seq_lt_irreflexive(e[i].0);
    }
}

/// Setting a key that comes after every key of ascending entries appends it.
pub proof fn lemma_insert_after_all(e: Seq<(Seq<char>, JsonView)>, key: Seq<char>, val: JsonView)
    requires
        keys_ascending(e.push((key, val))),
    ensures
        entries_insert(e, key, val) == e.push((key, val)),
{
    let f = e.push((key, val));
    assert forall|j: int| 0 <= j < e.len() implies seq_lt(#[trigger] e[j].0, key) by {
        assert(f[j] == e[j]);
        assert(f[e.len() as int] == (key, val));
        assert(seq_lt(f[j].0, f[e.len() as int].0));
    }
    assert forall|j: int| 0 <= j < e.len() implies e[j].0 != key by {
        assert(seq_lt(e[j].0, key));
        lemma_seq_lt_irreflexive(key);
    }
    lemma_key_index_first(e, key);
    lemma_insert_pos_spec(e, key);
    lemma_insert_pos_bounds(e, key);
    let p = insert_pos(e, key);
    if p < e.len() {
        assert(seq_lt(key, e[p].0));
        assert(seq_lt(e[p].0, key));
        lemma_seq_lt_transitive(key, e[p].0, key);
        lemma_seq_lt_irreflexive(key);
    }
    assert(e.insert(e.len() as int, (key, val)) =~= e.push((key, val)));
}

} // verus!
