//! JSON documents of data packs, as values the library can read: objects
//! keep their fields in the order they were read.
use vstd::prelude::*;

use crate::text::str_eq;

verus! {

/// A JSON value. Numbers that fit in an `i64` are kept as such; an integral
/// number beyond them is kept as a `u64`, and any other number as the bits
/// of its 64-bit floating-point value, which the library only carries along.
/// Both of the latter also carry the bits of the nearest 32-bit
/// floating-point value, which is what NBT data holds of such a number.
#[derive(Debug, PartialEq)]
pub enum Json {
    Null,
    Bool(bool),
    Int(i64),
    Unsigned(u64, u32),
    FloatBits(u64, u32),
    Str(String),
    Array(Vec<Json>),
    Object(Vec<(String, Json)>),
}

/// A JSON value as the library reasons about it.
pub enum JsonView {
    Null,
    Bool(bool),
    Int(i64),
    Unsigned(u64, u32),
    FloatBits(u64, u32),
    Str(Seq<char>),
    Array(Seq<JsonView>),
    Object(Seq<(Seq<char>, JsonView)>),
}

pub open spec fn json_view(j: Json) -> JsonView
    decreases j, 0nat,
{
    match j {
        Json::Null => JsonView::Null,
        Json::Bool(b) => JsonView::Bool(b),
        Json::Int(n) => JsonView::Int(n),
        Json::Unsigned(n, f) => JsonView::Unsigned(n, f),
        Json::FloatBits(n, f) => JsonView::FloatBits(n, f),
        Json::Str(s) => JsonView::Str(s@),
        Json::Array(items) => {
            proof {
                broadcast use vstd::std_specs::vec::axiom_vec_decreases_to_view;
                assert(decreases_to!(items => items@));
            }
            JsonView::Array(json_views(items@))
        },
        Json::Object(fields) => {
            proof {
                broadcast use vstd::std_specs::vec::axiom_vec_decreases_to_view;
                assert(decreases_to!(fields => fields@));
            }
            JsonView::Object(field_views(fields@))
        },
    }
}

pub open spec fn json_views(items: Seq<Json>) -> Seq<JsonView>
    decreases items, 1nat,
{
    if items.len() == 0 {
        Seq::empty()
    } else {
        proof {
            vstd::seq::axiom_seq_len_decreases(items, items.drop_first());
        }
        seq![json_view(items[0])] + json_views(items.drop_first())
    }
}

pub open spec fn field_views(fields: Seq<(String, Json)>) -> Seq<(Seq<char>, JsonView)>
    decreases fields, 1nat,
{
    if fields.len() == 0 {
        Seq::empty()
    } else {
        proof {
            vstd::seq::axiom_seq_len_decreases(fields, fields.drop_first());
            assert(decreases_to!(fields => fields[0]));
        }
        seq![(fields[0].0@, json_view(fields[0].1))] + field_views(fields.drop_first())
    }
}

impl View for Json {
    type V = JsonView;

    open spec fn view(&self) -> JsonView {
        json_view(*self)
    }
}

pub proof fn lemma_json_views(items: Seq<Json>)
    ensures
        json_views(items).len() == items.len(),
        forall|i: int| 0 <= i < items.len() ==> #[trigger] json_views(items)[i] == json_view(items[i]),
    decreases items.len(),
{
    if items.len() > 0 {
        lemma_json_views(items.drop_first());
        assert forall|i: int| 0 <= i < items.len() implies #[trigger] json_views(items)[i] == json_view(items[i]) by {
            if i > 0 {
                assert(json_views(items)[i] == json_views(items.drop_first())[i - 1]);
                assert(items.drop_first()[i - 1] == items[i]);
            }
        }
    }
}

pub proof fn lemma_field_views(fields: Seq<(String, Json)>)
    ensures
        field_views(fields).len() == fields.len(),
        forall|i: int|
            0 <= i < fields.len() ==> #[trigger] field_views(fields)[i] == (fields[i].0@, json_view(fields[i].1)),
    decreases fields.len(),
{
    if fields.len() > 0 {
        lemma_field_views(fields.drop_first());
        assert forall|i: int| 0 <= i < fields.len() implies #[trigger] field_views(fields)[i] == (
            fields[i].0@,
            json_view(fields[i].1),
        ) by {
            if i > 0 {
                assert(field_views(fields)[i] == field_views(fields.drop_first())[i - 1]);
                assert(fields.drop_first()[i - 1] == fields[i]);
            }
        }
    }
}

proof fn lemma_json_views_equal(a: Seq<Json>, b: Seq<Json>)
    requires
        a.len() == b.len(),
        forall|i: int| 0 <= i < a.len() ==> json_view(#[trigger] a[i]) == json_view(b[i]),
    ensures
        json_views(a) == json_views(b),
    decreases a.len(),
{
    if a.len() > 0 {
        assert forall|i: int| 0 <= i < a.len() - 1 implies json_view(#[trigger] a.drop_first()[i]) == json_view(
            b.drop_first()[i],
        ) by {
            assert(a.drop_first()[i] == a[i + 1]);
            assert(b.drop_first()[i] == b[i + 1]);
        }
        lemma_json_views_equal(a.drop_first(), b.drop_first());
    }
}

proof fn lemma_field_views_equal(a: Seq<(String, Json)>, b: Seq<(String, Json)>)
    requires
        a.len() == b.len(),
        forall|i: int| 0 <= i < a.len() ==> (#[trigger] a[i]).0@ == b[i].0@ && json_view(a[i].1) == json_view(b[i].1),
    ensures
        field_views(a) == field_views(b),
    decreases a.len(),
{
    if a.len() > 0 {
        assert forall|i: int| 0 <= i < a.len() - 1 implies (#[trigger] a.drop_first()[i]).0@ == b.drop_first()[i].0@
            && json_view(a.drop_first()[i].1) == json_view(b.drop_first()[i].1) by {
            assert(a.drop_first()[i] == a[i + 1]);
            assert(b.drop_first()[i] == b[i + 1]);
        }
        lemma_field_views_equal(a.drop_first(), b.drop_first());
    }
}

impl Json {
    /// A value equal to this one.
    pub fn clone_json(&self) -> (r: Json)
        ensures
            r@ == self@,
        decreases self,
    {
        broadcast use vstd::std_specs::vec::axiom_vec_decreases_to_view;

        match self {
            Json::Null => Json::Null,
            Json::Bool(b) => Json::Bool(*b),
            Json::Int(n) => Json::Int(*n),
            Json::Unsigned(n, f) => Json::Unsigned(*n, *f),
            Json::FloatBits(n, f) => Json::FloatBits(*n, *f),
            Json::Str(s) => Json::Str(s.clone()),
            Json::Array(items) => {
                let mut out: Vec<Json> = Vec::new();
                let mut i: usize = 0;
                while i < items.len()
                    invariant
                        *self == Json::Array(*items),
                        i <= items@.len(),
                        out@.len() == i,
                        forall|k: int| 0 <= k < i ==> json_view(#[trigger] out@[k]) == json_view(items@[k]),
                    decreases items@.len() - i,
                {
                    proof {
                        assert(decreases_to!(*self => (*self)->Array_0));
                        assert(decreases_to!(*items => items@));
                        assert(decreases_to!(items@ => items@[i as int]));
                    }
                    let c = items[i].clone_json();
                    out.push(c);
                    i = i + 1;
                }
                proof {
                    lemma_json_views_equal(out@, items@);
                }
                Json::Array(out)
            },
            Json::Object(fields) => {
                let mut out: Vec<(String, Json)> = Vec::new();
                let mut i: usize = 0;
                while i < fields.len()
                    invariant
                        *self == Json::Object(*fields),
                        i <= fields@.len(),
                        out@.len() == i,
                        forall|k: int|
                            0 <= k < i ==> (#[trigger] out@[k]).0@ == fields@[k].0@ && json_view(out@[k].1)
                                == json_view(fields@[k].1),
                    decreases fields@.len() - i,
                {
                    proof {
                        assert(decreases_to!(*self => (*self)->Object_0));
                        assert(decreases_to!(*fields => fields@));
                        assert(decreases_to!(fields@ => fields@[i as int]));
                        assert(decreases_to!(fields@[i as int] => fields@[i as int].1));
                    }
                    let c = fields[i].1.clone_json();
                    out.push((fields[i].0.clone(), c));
                    i = i + 1;
                }
                proof {
                    lemma_field_views_equal(out@, fields@);
                }
                Json::Object(out)
            },
        }
    }
}

/// The first field named `key`, if any.
pub open spec fn field_of(fields: Seq<(String, Json)>, key: Seq<char>) -> Option<Json>
    decreases fields.len(),
{
    if fields.len() == 0 {
        None
    } else if fields[0].0@ == key {
        Some(fields[0].1)
    } else {
        field_of(fields.drop_first(), key)
    }
}

/// The position of the first field named `key`, if any.
pub open spec fn field_index(fields: Seq<(String, Json)>, key: Seq<char>) -> Option<int>
    decreases fields.len(),
{
    if fields.len() == 0 {
        None
    } else if fields[0].0@ == key {
        Some(0)
    } else {
        match field_index(fields.drop_first(), key) {
            Some(i) => Some(i + 1),
            None => None,
        }
    }
}

pub proof fn lemma_field_index(fields: Seq<(String, Json)>, key: Seq<char>)
    ensures
        match field_index(fields, key) {
            Some(i) => 0 <= i < fields.len() && field_of(fields, key) == Some(fields[i].1),
            None => field_of(fields, key) is None,
        },
    decreases fields.len(),
{
    if fields.len() > 0 && fields[0].0@ != key {
        lemma_field_index(fields.drop_first(), key);
        match field_index(fields.drop_first(), key) {
            Some(i) => {
                assert(fields.drop_first()[i] == fields[i + 1]);
            },
            None => {},
        }
    }
}

/// A field's value lies strictly inside its object.
pub proof fn lemma_field_decreases(v: Json, fields: Vec<(String, Json)>, key: Seq<char>)
    requires
        v == Json::Object(fields),
        field_index(fields@, key) is Some,
    ensures
        0 <= field_index(fields@, key)->0 < fields@.len(),
        field_of(fields@, key) == Some(fields@[field_index(fields@, key)->0].1),
        decreases_to!(v => fields@[field_index(fields@, key)->0].1),
{
    broadcast use vstd::std_specs::vec::axiom_vec_decreases_to_view;

    lemma_field_index(fields@, key);
    let i = field_index(fields@, key)->0;
    assert(decreases_to!(v => v->Object_0));
    assert(decreases_to!(fields => fields@));
    assert(decreases_to!(fields@ => fields@[i]));
    assert(decreases_to!(fields@[i] => fields@[i].1));
}

/// An element of an array lies strictly inside it.
pub proof fn lemma_item_decreases(v: Json, items: Vec<Json>, i: int)
    requires
        v == Json::Array(items),
        0 <= i < items@.len(),
    ensures
        decreases_to!(v => items@[i]),
{
    broadcast use vstd::std_specs::vec::axiom_vec_decreases_to_view;

    assert(decreases_to!(v => v->Array_0));
    assert(decreases_to!(items => items@));
    assert(decreases_to!(items@ => items@[i]));
}

/// The value as a string, if it is one.
pub open spec fn as_str(v: Option<Json>) -> Option<Seq<char>> {
    match v {
        Some(Json::Str(s)) => Some(s@),
        _ => None,
    }
}

/// The value as an integer, if it is an integral number that fits in 64
/// signed bits.
pub open spec fn as_i64(v: Json) -> Option<i64> {
    match v {
        Json::Int(n) => Some(n),
        _ => None,
    }
}

/// The value as an unsigned integer, if it is a non-negative integral
/// number.
pub open spec fn as_u64(v: Json) -> Option<u64> {
    match v {
        Json::Int(n) => if n >= 0 {
            Some(n as u64)
        } else {
            None
        },
        Json::Unsigned(n, _) => Some(n),
        _ => None,
    }
}

/// The first field named `key`.
pub fn get_field<'a>(fields: &'a Vec<(String, Json)>, key: &str) -> (r: Option<&'a Json>)
    ensures
        match r {
            Some(v) => field_of(fields@, key@) == Some(*v),
            None => field_of(fields@, key@) is None,
        },
{
    let mut i: usize = 0;
    assert(fields@.skip(0) =~= fields@);
    while i < fields.len()
        invariant
            i <= fields@.len(),
            field_of(fields@, key@) == field_of(fields@.skip(i as int), key@),
        decreases fields@.len() - i,
    {
        proof {
            let rest = fields@.skip(i as int);
            assert(rest[0] == fields@[i as int]);
            assert(rest.drop_first() =~= fields@.skip(i + 1));
        }
        if str_eq(fields[i].0.as_str(), key) {
            return Some(&fields[i].1);
        }
        i = i + 1;
    }
    None
}

/// The string field named `key`, if there is one and it is a string.
pub fn get_str<'a>(fields: &'a Vec<(String, Json)>, key: &str) -> (r: Option<&'a String>)
    ensures
        match r {
            Some(s) => as_str(field_of(fields@, key@)) == Some(s@),
            None => as_str(field_of(fields@, key@)) is None,
        },
{
    match get_field(fields, key) {
        Some(Json::Str(s)) => Some(s),
        _ => None,
    }
}

/// The value as an integer, when it is one that fits in 64 signed bits.
pub fn json_i64(v: &Json) -> (r: Option<i64>)
    ensures
        r == as_i64(*v),
{
    match v {
        Json::Int(n) => Some(*n),
        _ => None,
    }
}

/// The value as an unsigned integer, when it is a non-negative integral
/// number.
pub fn json_u64(v: &Json) -> (r: Option<u64>)
    ensures
        r == as_u64(*v),
{
    match v {
        Json::Int(n) => if *n >= 0 {
            Some(*n as u64)
        } else {
            None
        },
        Json::Unsigned(n, _) => Some(*n),
        _ => None,
    }
}

} // verus!
