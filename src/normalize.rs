//! Flattening a document into reference markers and identity records.
use vstd::prelude::*;
use vstd::string::StringExecFns;
use crate::key::{key_text, Key};
use crate::validate::{id_field, id_name, typename_field, typename_name, Data};
use crate::value::{
    field_of, find_field, is_meta, is_meta_name, lemma_view_fields, lemma_view_items, view_fields,
    view_items, Json, JsonValue,
};

verus! {

/// The model of an identity key: type name and id.
pub type KeyModel = (Seq<char>, Seq<char>);

/// The model of one discovered entity: its key and its record.
pub type Entry = (KeyModel, Json);

/// The name of the one field of a reference marker, `__ref`.
pub open spec fn ref_name() -> Seq<char> {
    seq!['_', '_', 'r', 'e', 'f']
}

/// The reference marker for a key: `{"__ref": "<type-name>:<id>"}`.
pub open spec fn ref_marker(k: KeyModel) -> Json {
    Json::Object(seq![(ref_name(), Json::Str(key_text(k)))])
}

/// The key of an object, given its fields after normalization and before:
/// the id is the normalized `id` field, which must be a string, and the
/// type name is the `__typename` field before normalization, which must be a string.
pub open spec fn entity_key(cand: Seq<(Seq<char>, Json)>, orig: Seq<(Seq<char>, Json)>) -> Option<
    KeyModel,
> {
    match field_of(cand, id_name()) {
        Some(Json::Str(id)) => match field_of(orig, typename_name()) {
            Some(Json::Str(t)) => Some((t, id)),
            _ => None,
        },
        _ => None,
    }
}

/// Normalizes a value: the normalized value, and the entities discovered in
/// it, children before the object that holds them.
pub open spec fn norm(v: Json) -> (Json, Seq<Entry>)
    decreases v,
{
    match v {
        Json::Array(a) => {
            let r = norm_items(a);
            (Json::Array(r.0), r.1)
        },
        Json::Object(fs) => {
            let r = norm_fields(fs);
            match entity_key(r.0, fs) {
                Some(k) => (ref_marker(k), r.1.push((k, Json::Object(r.0)))),
                None => (Json::Object(r.0), r.1),
            }
        },
        _ => (v, Seq::empty()),
    }
}

/// Normalizes each element of a list, in order.
pub open spec fn norm_items(a: Seq<Json>) -> (Seq<Json>, Seq<Entry>)
    decreases a,
{
    if a.len() == 0 {
        (Seq::empty(), Seq::empty())
    } else {
        let n = a.len() - 1;
        let r = norm_items(a.subrange(0, n));
        let e = norm(a[n]);
        (r.0.push(e.0), r.1 + e.1)
    }
}

/// Normalizes each field of an object that is not metadata, in order;
/// metadata fields are dropped.
pub open spec fn norm_fields(fs: Seq<(Seq<char>, Json)>) -> (Seq<(Seq<char>, Json)>, Seq<Entry>)
    decreases fs,
{
    if fs.len() == 0 {
        (Seq::empty(), Seq::empty())
    } else {
        let n = fs.len() - 1;
        let r = norm_fields(fs.subrange(0, n));
        if is_meta(fs[n].0) {
            r
        } else {
            let e = norm(fs[n].1);
            (r.0.push((fs[n].0, e.0)), r.1 + e.1)
        }
    }
}

/// Normalizes a document's root: a root object or list is never replaced by a
/// reference marker; its fields or elements are normalized.
pub open spec fn norm_root(d: Json) -> (Json, Seq<Entry>) {
    match d {
        Json::Array(a) => {
            let r = norm_items(a);
            (Json::Array(r.0), r.1)
        },
        Json::Object(fs) => {
            let r = norm_fields(fs);
            (Json::Object(r.0), r.1)
        },
        _ => (d, Seq::empty()),
    }
}

/// The top-level normalized form of a document: a flat object or a flat list.
#[derive(Debug, PartialEq)]
pub enum NormalizedData {
    Object(Vec<(String, JsonValue)>),
    Array(Vec<JsonValue>),
}

impl View for NormalizedData {
    type V = Json;

    open spec fn view(&self) -> Json {
        match self {
            NormalizedData::Object(fs) => Json::Object(view_fields(fs@)),
            NormalizedData::Array(a) => Json::Array(view_items(a@)),
        }
    }
}

/// The model of a list of discovered entities.
pub open spec fn entries_view(s: Seq<(Key, NormalizedData)>) -> Seq<Entry> {
    s.map_values(|e: (Key, NormalizedData)| (e.0@, e.1@))
}

proof fn lemma_entries_push(s: Seq<(Key, NormalizedData)>, e: (Key, NormalizedData))
    ensures
        entries_view(s.push(e)) == entries_view(s).push((e.0@, e.1@)),
{
    assert(entries_view(s.push(e)) =~= entries_view(s).push((e.0@, e.1@)));
}

proof fn lemma_items_push(s: Seq<JsonValue>, x: JsonValue)
    ensures
        view_items(s.push(x)) == view_items(s).push(x@),
{
    assert(s.push(x).subrange(0, s.len() as int) =~= s);
}

proof fn lemma_fields_push(s: Seq<(String, JsonValue)>, x: (String, JsonValue))
    ensures
        view_fields(s.push(x)) == view_fields(s).push((x.0@, x.1@)),
{
    assert(s.push(x).subrange(0, s.len() as int) =~= s);
}

/// The name `__ref` as a string.
pub fn ref_field() -> (r: String)
    ensures
        r@ == ref_name(),
{
    proof {
        reveal_strlit("__ref");
    }
    String::from_str("__ref")
}

/// The reference marker for a key.
pub fn make_ref_marker(k: &Key) -> (r: JsonValue)
    ensures
        r@ == ref_marker(k@),
{
    let fs = vec![(ref_field(), JsonValue::String(k.to_text()))];
    proof {
        lemma_view_fields(fs@);
        assert(view_fields(fs@) =~= seq![(ref_name(), Json::Str(key_text(k@)))]);
    }
    JsonValue::Object(fs)
}

/// Normalizes the elements of a list, appending discovered entities to `sink`.
fn normalize_items(a: &Vec<JsonValue>, sink: &mut Vec<(Key, NormalizedData)>) -> (r: Vec<JsonValue>)
    ensures
        view_items(r@) == norm_items(view_items(a@)).0,
        entries_view(final(sink)@) == entries_view(old(sink)@) + norm_items(view_items(a@)).1,
    decreases view_items(a@), 0nat,
{
    let ghost av = view_items(a@);
    proof {
        lemma_view_items(a@);
        assert(av.subrange(0, 0) =~= Seq::<Json>::empty());
        assert(entries_view(sink@) + Seq::<Entry>::empty() =~= entries_view(sink@));
    }
    let mut out: Vec<JsonValue> = Vec::new();
    let mut i: usize = 0;
    while i < a.len()
        invariant
            0 <= i <= a.len(),
            av == view_items(a@),
            av.len() == a.len(),
            forall|j: int| 0 <= j < a.len() ==> #[trigger] av[j] == a@[j]@,
            view_items(out@) == norm_items(av.subrange(0, i as int)).0,
            entries_view(sink@) == entries_view(old(sink)@) + norm_items(av.subrange(0, i as int)).1,
        decreases a.len() - i,
    {
        proof {
            assert(decreases_to!(av => av[i as int]));
        }
        let x = normalize_data(&a[i], sink);
        proof {
            lemma_items_push(out@, x);
            let t = av.subrange(0, i + 1);
            assert(t.subrange(0, i as int) =~= av.subrange(0, i as int));
            assert(t[i as int] == av[i as int]);
        }
        out.push(x);
        proof {
            assert(entries_view(old(sink)@) + norm_items(av.subrange(0, i as int)).1 + norm(
                av[i as int],
            ).1 =~= entries_view(old(sink)@) + norm_items(av.subrange(0, i + 1)).1);
        }
        i = i + 1;
    }
    proof {
        assert(av.subrange(0, a.len() as int) =~= av);
    }
    out
}

/// Normalizes the fields of an object, dropping metadata fields and
/// appending discovered entities to `sink`.
fn normalize_fields(fs: &Vec<(String, JsonValue)>, sink: &mut Vec<(Key, NormalizedData)>) -> (r: Vec<
    (String, JsonValue),
>)
    ensures
        view_fields(r@) == norm_fields(view_fields(fs@)).0,
        entries_view(final(sink)@) == entries_view(old(sink)@) + norm_fields(view_fields(fs@)).1,
    decreases view_fields(fs@), 0nat,
{
    let ghost fsv = view_fields(fs@);
    proof {
        lemma_view_fields(fs@);
        assert(fsv.subrange(0, 0) =~= Seq::<(Seq<char>, Json)>::empty());
        assert(entries_view(sink@) + Seq::<Entry>::empty() =~= entries_view(sink@));
    }
    let mut out: Vec<(String, JsonValue)> = Vec::new();
    let mut i: usize = 0;
    while i < fs.len()
        invariant
            0 <= i <= fs.len(),
            fsv == view_fields(fs@),
            fsv.len() == fs.len(),
            forall|j: int| 0 <= j < fs.len() ==> #[trigger] fsv[j] == (fs@[j].0@, fs@[j].1@),
            view_fields(out@) == norm_fields(fsv.subrange(0, i as int)).0,
            entries_view(sink@) == entries_view(old(sink)@) + norm_fields(
                fsv.subrange(0, i as int),
            ).1,
        decreases fs.len() - i,
    {
        let ghost t = fsv.subrange(0, i + 1);
        proof {
            assert(t.subrange(0, i as int) =~= fsv.subrange(0, i as int));
            assert(t[i as int] == fsv[i as int]);
        }
        if !is_meta_name(&fs[i].0) {
            proof {
                assert(decreases_to!(fsv => fsv[i as int]));
                assert(decreases_to!(fsv[i as int] => fsv[i as int].1));
            }
            let x = normalize_data(&fs[i].1, sink);
            let name = fs[i].0.clone();
            proof {
                lemma_fields_push(out@, (name, x));
            }
            out.push((name, x));
            proof {
                assert(entries_view(old(sink)@) + norm_fields(fsv.subrange(0, i as int)).1 + norm(
                    fsv[i as int].1,
                ).1 =~= entries_view(old(sink)@) + norm_fields(fsv.subrange(0, i + 1)).1);
            }
        }
        i = i + 1;
    }
    proof {
        assert(fsv.subrange(0, fs.len() as int) =~= fsv);
    }
    out
}

/// Normalizes a value: an object with a string `id` and a string
/// `__typename` becomes a reference marker, and its normalized fields are
/// appended to `sink` as its record, after the entities found inside it.
fn normalize_data(v: &JsonValue, sink: &mut Vec<(Key, NormalizedData)>) -> (r: JsonValue)
    ensures
        r@ == norm(v@).0,
        entries_view(final(sink)@) == entries_view(old(sink)@) + norm(v@).1,
    decreases v@, 1nat,
{
    match v {
        JsonValue::Object(fs) => {
            proof {
                assert(decreases_to!(v@ => v@->Object_0));
            }
            let cand = normalize_fields(fs, sink);
            let ghost candv = view_fields(cand@);
            let idn = id_field();
            let tn = typename_field();
            let key = match find_field(&cand, &idn) {
                Some(JsonValue::String(id)) => match find_field(fs, &tn) {
                    Some(JsonValue::String(t)) => Some(Key::new(t.clone(), id.clone())),
                    _ => None,
                },
                _ => None,
            };
            match key {
                Some(k) => {
                    let marker = make_ref_marker(&k);
                    let ghost old_sink = sink@;
                    let rec = NormalizedData::Object(cand);
                    proof {
                        lemma_entries_push(old_sink, (k, rec));
                    }
                    sink.push((k, rec));
                    marker
                },
                None => {
                    proof {
                        assert(entries_view(sink@) + Seq::<Entry>::empty() =~= entries_view(sink@));
                    }
                    JsonValue::Object(cand)
                },
            }
        },
        JsonValue::Array(a) => {
            proof {
                assert(decreases_to!(v@ => v@->Array_0));
            }
            let items = normalize_items(a, sink);
            JsonValue::Array(items)
        },
        JsonValue::Null => {
            proof {
                assert(entries_view(sink@) + Seq::<Entry>::empty() =~= entries_view(sink@));
            }
            JsonValue::Null
        },
        JsonValue::Bool(b) => {
            proof {
                assert(entries_view(sink@) + Seq::<Entry>::empty() =~= entries_view(sink@));
            }
            JsonValue::Bool(*b)
        },
        JsonValue::Number(n) => {
            proof {
                assert(entries_view(sink@) + Seq::<Entry>::empty() =~= entries_view(sink@));
            }
            JsonValue::Number(n.clone())
        },
        JsonValue::String(s) => {
            proof {
                assert(entries_view(sink@) + Seq::<Entry>::empty() =~= entries_view(sink@));
            }
            JsonValue::String(s.clone())
        },
    }
}

/// Normalizes a validated document's root, appending every discovered
/// entity to `sink`.
pub fn normalize_root(d: &Data, sink: &mut Vec<(Key, NormalizedData)>) -> (r: NormalizedData)
    ensures
        r@ == norm_root(d@).0,
        entries_view(final(sink)@) == entries_view(old(sink)@) + norm_root(d@).1,
{
    let v = d.value();
    match v {
        JsonValue::Object(fs) => NormalizedData::Object(normalize_fields(fs, sink)),
        JsonValue::Array(a) => NormalizedData::Array(normalize_items(a, sink)),
        _ => {
            proof {
                assert(false);
            }
            NormalizedData::Array(Vec::new())
        },
    }
}

} // verus!
