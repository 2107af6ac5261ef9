//! The document value type and its mathematical model.
use vstd::prelude::*;

verus! {

/// A document value: a tree of objects, lists and scalars.
///
/// Numbers are kept as their decimal text, so that any number survives the
/// cache unchanged. Object fields keep their order.
#[derive(Debug, PartialEq)]
pub enum JsonValue {
    Null,
    Bool(bool),
    Number(String),
    String(String),
    Array(Vec<JsonValue>),
    Object(Vec<(String, JsonValue)>),
}

/// The model of a [`JsonValue`].
pub enum Json {
    Null,
    Bool(bool),
    Number(Seq<char>),
    Str(Seq<char>),
    Array(Seq<Json>),
    Object(Seq<(Seq<char>, Json)>),
}

pub open spec fn view_items(items: Seq<JsonValue>) -> Seq<Json>
    decreases items,
{
    if items.len() == 0 {
        Seq::empty()
    } else {
        let n = items.len() - 1;
        view_items(items.subrange(0, n)).push(view_value(items[n]))
    }
}

pub open spec fn view_value(v: JsonValue) -> Json
    decreases v,
{
    match v {
        JsonValue::Null => Json::Null,
        JsonValue::Bool(b) => Json::Bool(b),
        JsonValue::Number(n) => Json::Number(n@),
        JsonValue::String(s) => Json::Str(s@),
        JsonValue::Array(a) => Json::Array(view_items(a@)),
        JsonValue::Object(fs) => Json::Object(view_fields(fs@)),
    }
}

pub open spec fn view_fields(fields: Seq<(String, JsonValue)>) -> Seq<(Seq<char>, Json)>
    decreases fields,
{
    if fields.len() == 0 {
        Seq::empty()
    } else {
        let n = fields.len() - 1;
        view_fields(fields.subrange(0, n)).push((fields[n].0@, view_value(fields[n].1)))
    }
}

impl View for JsonValue {
    type V = Json;

    open spec fn view(&self) -> Json {
        view_value(*self)
    }
}


/// The model of a sequence of values has one element per value.
pub broadcast proof fn lemma_view_items(items: Seq<JsonValue>)
    ensures
        #[trigger] view_items(items).len() == items.len(),
        forall|i: int| 0 <= i < items.len() ==> #[trigger] view_items(items)[i] == view_value(items[i]),
    decreases items.len(),
{
    if items.len() > 0 {
        let n = items.len() - 1;
        lemma_view_items(items.subrange(0, n));
        assert forall|i: int| 0 <= i < n implies items.subrange(0, n)[i] == items[i] by {}
    }
}

/// The model of a sequence of fields has one pair per field.
pub broadcast proof fn lemma_view_fields(fields: Seq<(String, JsonValue)>)
    ensures
        #[trigger] view_fields(fields).len() == fields.len(),
        forall|i: int|
            0 <= i < fields.len() ==> #[trigger] view_fields(fields)[i] == (fields[i].0@,
                view_value(fields[i].1)),
    decreases fields.len(),
{
    if fields.len() > 0 {
        let n = fields.len() - 1;
        lemma_view_fields(fields.subrange(0, n));
        assert forall|i: int| 0 <= i < n implies fields.subrange(0, n)[i] == fields[i] by {}
    }
}

pub broadcast proof fn lemma_view_items_index(items: Seq<JsonValue>, i: int)
    requires
        0 <= i < items.len(),
    ensures
        #[trigger] view_items(items)[i] == view_value(items[i]),
{
    lemma_view_items(items);
}

pub broadcast proof fn lemma_view_fields_index(fields: Seq<(String, JsonValue)>, i: int)
    requires
        0 <= i < fields.len(),
    ensures
        #[trigger] view_fields(fields)[i] == (fields[i].0@, view_value(fields[i].1)),
{
    lemma_view_fields(fields);
}

pub broadcast group group_view_lemmas {
    lemma_view_items,
    lemma_view_fields,
    lemma_view_items_index,
    lemma_view_fields_index,
}

/// The first field of an object model with the given name, if any.
pub open spec fn field_of(fields: Seq<(Seq<char>, Json)>, name: Seq<char>) -> Option<Json>
    decreases fields.len(),
{
    if fields.len() == 0 {
        None
    } else if fields[0].0 == name {
        Some(fields[0].1)
    } else {
        field_of(fields.drop_first(), name)
    }
}

/// Whether a field name is reserved for cache metadata (it starts with `__`).
pub open spec fn is_meta(name: Seq<char>) -> bool {
    name.len() >= 2 && name[0] == '_' && name[1] == '_'
}

/// Tells whether a field name starts with the metadata prefix `__`.
pub fn is_meta_name(name: &String) -> (r: bool)
    ensures
        r == is_meta(name@),
{
    let s = name.as_str();
    let n = s.unicode_len();
    if n < 2 {
        false
    } else {
        s.get_char(0) == '_' && s.get_char(1) == '_'
    }
}

/// Finds the first field with the given name.
pub fn find_field<'a>(fields: &'a Vec<(String, JsonValue)>, name: &String) -> (r: Option<&'a JsonValue>)
    ensures
        match r {
            Some(v) => field_of(view_fields(fields@), name@) == Some(v@),
            None => field_of(view_fields(fields@), name@) is None,
        },
{
    proof {
        lemma_view_fields(fields@);
        assert(view_fields(fields@).skip(0) =~= view_fields(fields@));
    }
    let mut i: usize = 0;
    while i < fields.len()
        invariant
            0 <= i <= fields.len(),
            view_fields(fields@).len() == fields.len(),
            forall|j: int| 0 <= j < fields.len() ==> #[trigger] view_fields(fields@)[j] == (fields@[j].0@,
                fields@[j].1@),
            field_of(view_fields(fields@), name@) == field_of(view_fields(fields@).skip(i as int), name@),
        decreases fields.len() - i,
    {
        let ghost rest = view_fields(fields@).skip(i as int);
        assert(rest.drop_first() =~= view_fields(fields@).skip(i + 1));
        if fields[i].0 == *name {
            return Some(&fields[i].1);
        }
        i = i + 1;
    }
    None
}

/// A deep copy of a value.
pub fn copy_value(v: &JsonValue) -> (r: JsonValue)
    ensures
        r@ == v@,
    decreases v@,
{
    broadcast use group_view_lemmas, vstd::std_specs::vec::group_vec_axioms;

    match v {
        JsonValue::Null => JsonValue::Null,
        JsonValue::Bool(b) => JsonValue::Bool(*b),
        JsonValue::Number(n) => JsonValue::Number(n.clone()),
        JsonValue::String(s) => JsonValue::String(s.clone()),
        JsonValue::Array(a) => {
            let mut out: Vec<JsonValue> = Vec::new();
            let mut i: usize = 0;
            while i < a.len()
                invariant
                    0 <= i <= a.len(),
                    v@ == Json::Array(view_items(a@)),
                    out.len() == i,
                    forall|j: int| 0 <= j < i ==> (#[trigger] out@[j])@ == a@[j]@,
                decreases a.len() - i,
            {
                proof {
                    lemma_view_items(a@);
                    assert(view_items(a@)[i as int] == a@[i as int]@);
                    let ghost s = view_items(a@);
                    assert(decreases_to!(v@ => v@->Array_0));
                    assert(decreases_to!(s => s[i as int]));
                    assert(decreases_to!(v@ => a@[i as int]@));
                }
                out.push(copy_value(&a[i]));
                i = i + 1;
            }
            assert(view_items(out@) =~= view_items(a@));
            JsonValue::Array(out)
        },
        JsonValue::Object(fs) => {
            let mut out: Vec<(String, JsonValue)> = Vec::new();
            let mut i: usize = 0;
            while i < fs.len()
                invariant
                    0 <= i <= fs.len(),
                    v@ == Json::Object(view_fields(fs@)),
                    out.len() == i,
                    forall|j: int|
                        0 <= j < i ==> (#[trigger] out@[j]).0@ == fs@[j].0@ && out@[j].1@
                            == fs@[j].1@,
                decreases fs.len() - i,
            {
                proof {
                    lemma_view_fields(fs@);
                    assert(view_fields(fs@)[i as int] == (fs@[i as int].0@, fs@[i as int].1@));
                    let ghost s = view_fields(fs@);
                    assert(decreases_to!(v@ => v@->Object_0));
                    assert(decreases_to!(s => s[i as int]));
                    assert(decreases_to!(s[i as int] => s[i as int].1));
                    assert(decreases_to!(v@ => fs@[i as int].1@));
                }
                out.push((fs[i].0.clone(), copy_value(&fs[i].1)));
                i = i + 1;
            }
            assert forall|j: int| 0 <= j < fs.len() implies view_fields(out@)[j] == view_fields(
                fs@,
            )[j] by {
                assert(view_fields(out@)[j] == (out@[j].0@, out@[j].1@));
                assert(view_fields(fs@)[j] == (fs@[j].0@, fs@[j].1@));
            }
            assert(view_fields(out@) =~= view_fields(fs@));
            JsonValue::Object(out)
        },
    }
}

} // verus!
