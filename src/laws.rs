//! Properties of storing and fetching, stated over the stores' models.
use vstd::prelude::*;
use crate::cache::{
    denorm, denorm_fields, denorm_items, document_keys, entry_keys, expand, fetch, put_all, ref_of,
    Fault,
};
use crate::key::{count_sep, key_text, lemma_key_text_round_trip};
use crate::normalize::{
    entity_key, norm, norm_fields, norm_items, norm_root, ref_marker, ref_name, Entry, KeyModel,
};
use crate::validate::{id_name, is_document, typename_name};
use crate::value::{field_of, is_meta, Json};

verus! {

/// Putting a sequence of entities into a store is the same as laying the
/// records that the sequence alone would produce over the store.
pub proof fn lemma_put_all_union(m: Map<KeyModel, Json>, ents: Seq<Entry>)
    ensures
        put_all(m, ents) == m.union_prefer_right(put_all(Map::empty(), ents)),
        put_all(Map::empty(), ents).dom() == entry_keys(ents),
    decreases ents.len(),
{
    if ents.len() == 0 {
        assert(m.union_prefer_right(Map::empty()) =~= m);
        assert(entry_keys(ents) =~= Set::empty());
    } else {
        let p = ents.drop_last();
        lemma_put_all_union(m, p);
        let l = ents.last();
        assert(m.union_prefer_right(put_all(Map::empty(), p)).insert(l.0, l.1) =~= m.union_prefer_right(
            put_all(Map::empty(), p).insert(l.0, l.1),
        ));
        assert forall|k: KeyModel| #[trigger] entry_keys(ents).contains(k) <==> entry_keys(p).insert(
            l.0,
        ).contains(k) by {
            if entry_keys(ents).contains(k) && k != l.0 {
                let i = choose|i: int| 0 <= i < ents.len() && (#[trigger] ents[i]).0 == k;
                assert(p[i] == ents[i]);
            }
            if entry_keys(p).contains(k) {
                let i = choose|i: int| 0 <= i < p.len() && (#[trigger] p[i]).0 == k;
                assert(p[i] == ents[i]);
            }
            if k == l.0 {
                assert(ents[ents.len() - 1].0 == k);
            }
        }
        assert(entry_keys(ents) =~= entry_keys(p).insert(l.0));
    }
}

/// Storing a document into an empty identity store leaves exactly one
/// record for each distinct entity of the document, and no other.
pub proof fn law_store_counts_entities(d: Json)
    requires
        is_document(d),
    ensures
        put_all(Map::empty(), norm_root(d).1).dom() == document_keys(d),
        put_all(Map::empty(), norm_root(d).1).dom().len() == document_keys(d).len(),
{
    lemma_put_all_union(Map::empty(), norm_root(d).1);
}

/// Storing the same document a second time leaves the identity store as it
/// was after the first time: no record is added twice.
pub proof fn law_store_twice(m: Map<KeyModel, Json>, d: Json)
    requires
        is_document(d),
    ensures
        put_all(put_all(m, norm_root(d).1), norm_root(d).1) == put_all(m, norm_root(d).1),
        put_all(put_all(m, norm_root(d).1), norm_root(d).1).dom().len() == put_all(
            m,
            norm_root(d).1,
        ).dom().len(),
{
    let e = norm_root(d).1;
    lemma_put_all_union(m, e);
    lemma_put_all_union(put_all(m, e), e);
    let p = put_all(Map::empty(), e);
    assert(m.union_prefer_right(p).union_prefer_right(p) =~= m.union_prefer_right(p));
}

/// Two documents that share an entity put it under one key: after storing
/// both, the store holds one record per distinct entity of either, and the
/// shared entity's record is the one the second document gave.
pub proof fn law_entity_convergence(m: Map<KeyModel, Json>, d1: Json, d2: Json, k: KeyModel)
    requires
        is_document(d1),
        is_document(d2),
        document_keys(d1).contains(k),
        document_keys(d2).contains(k),
    ensures
        put_all(put_all(m, norm_root(d1).1), norm_root(d2).1).dom() == m.dom() + document_keys(d1)
            + document_keys(d2),
        put_all(put_all(m, norm_root(d1).1), norm_root(d2).1)[k] == put_all(
            Map::empty(),
            norm_root(d2).1,
        )[k],
{
    let e1 = norm_root(d1).1;
    let e2 = norm_root(d2).1;
    lemma_put_all_union(m, e1);
    lemma_put_all_union(put_all(m, e1), e2);
    assert(put_all(put_all(m, e1), e2).dom() =~= m.dom() + document_keys(d1) + document_keys(d2));
}

/// Once the result store is empty, fetching any result key misses.
pub proof fn law_result_miss(store: Map<KeyModel, Json>, rk: Seq<char>)
    ensures
        fetch(Map::empty(), store, rk) == Err::<Json, Fault>(Fault::ResultKeyNotFound(rk)),
{
}

/// A failure that resolving against an empty identity store can give: a
/// miss on an identity key, or an object that is no reference marker.
pub open spec fn empty_store_fault(e: Fault) -> bool {
    e is IdentityKeyNotFound || e is ExpectedReference
}

proof fn lemma_empty_denorm(v: Json, fuel: nat)
    ensures
        denorm(Map::empty(), v, fuel) matches Err(e) ==> empty_store_fault(e),
    decreases v, 1nat,
{
    if let Json::Array(a) = v {
        lemma_empty_denorm_items(a, fuel);
    }
}

proof fn lemma_empty_denorm_items(a: Seq<Json>, fuel: nat)
    ensures
        denorm_items(Map::empty(), a, fuel) matches Err(e) ==> empty_store_fault(e),
    decreases a, 0nat,
{
    if a.len() > 0 {
        let n = a.len() - 1;
        lemma_empty_denorm_items(a.subrange(0, n), fuel);
        lemma_empty_denorm(a[n], fuel);
    }
}

proof fn lemma_empty_denorm_fields(fs: Seq<(Seq<char>, Json)>, fuel: nat)
    ensures
        denorm_fields(Map::empty(), fs, fuel) matches Err(e) ==> empty_store_fault(e),
    decreases fs.len(),
{
    if fs.len() > 0 {
        let n = fs.len() - 1;
        lemma_empty_denorm_fields(fs.subrange(0, n), fuel);
        lemma_empty_denorm(fs[n].1, fuel);
    }
}

proof fn lemma_norm_misses(v: Json, fuel: nat)
    requires
        norm(v).1.len() > 0,
    ensures
        denorm(Map::empty(), norm(v).0, fuel) is Err,
    decreases v, 1nat,
{
    if let Json::Array(a) = v {
        lemma_norm_items_miss(a, fuel);
    }
}

proof fn lemma_norm_items_miss(a: Seq<Json>, fuel: nat)
    requires
        norm_items(a).1.len() > 0,
    ensures
        denorm_items(Map::empty(), norm_items(a).0, fuel) is Err,
    decreases a, 0nat,
{
    let n = a.len() - 1;
    let r = norm_items(a.subrange(0, n));
    let e = norm(a[n]);
    let items = r.0.push(e.0);
    assert(items.subrange(0, items.len() - 1) =~= r.0);
    if r.1.len() > 0 {
        lemma_norm_items_miss(a.subrange(0, n), fuel);
    } else {
        lemma_norm_misses(a[n], fuel);
    }
}

proof fn lemma_norm_fields_miss(fs: Seq<(Seq<char>, Json)>, fuel: nat)
    requires
        norm_fields(fs).1.len() > 0,
    ensures
        denorm_fields(Map::empty(), norm_fields(fs).0, fuel) is Err,
    decreases fs.len(),
{
    let n = fs.len() - 1;
    let r = norm_fields(fs.subrange(0, n));
    if is_meta(fs[n].0) {
        lemma_norm_fields_miss(fs.subrange(0, n), fuel);
    } else {
        let e = norm(fs[n].1);
        let out = r.0.push((fs[n].0, e.0));
        assert(out.subrange(0, out.len() - 1) =~= r.0);
        if r.1.len() > 0 {
            lemma_norm_fields_miss(fs.subrange(0, n), fuel);
        } else {
            lemma_norm_misses(fs[n].1, fuel);
        }
    }
}

/// Once the identity store is empty, fetching a stored document that holds
/// at least one entity fails: on a missing identity key, or, where an
/// entity's key text cannot be read back or an object was kept inline, on
/// an object that is no reference marker. A document whose objects below
/// the root all name an entity whose key reads back fails on a missing
/// identity key, whatever the order of its fields.
pub proof fn law_identity_miss(results: Map<Seq<char>, Json>, rk: Seq<char>, d: Json)
    requires
        is_document(d),
        results.contains_key(rk),
        results[rk] == norm_root(d).0,
        norm_root(d).1.len() > 0,
    ensures
        fetch(results, Map::empty(), rk) matches Err(e) && empty_store_fault(e),
        identified_root(d) ==> fetch(results, Map::empty(), rk) matches Err(
            Fault::IdentityKeyNotFound(_),
        ),
{
    let store = Map::<KeyModel, Json>::empty();
    let fuel = store.dom().len();
    match d {
        Json::Object(fs) => {
            lemma_norm_fields_miss(fs, fuel);
            lemma_empty_denorm_fields(norm_fields(fs).0, fuel);
            if identified_root(d) {
                lemma_identified_miss_fields(fs, fuel);
            }
        },
        Json::Array(a) => {
            lemma_norm_items_miss(a, fuel);
            lemma_empty_denorm_items(norm_items(a).0, fuel);
            if identified_root(d) {
                lemma_identified_miss_items(a, fuel);
            }
        },
        _ => {},
    }
}

/// An object's own fields name an entity whose key reads back from its
/// text form: a string `__typename` and a string `id`, neither holding a
/// key separator.
pub open spec fn entity_facts(fs: Seq<(Seq<char>, Json)>) -> bool {
    &&& field_of(fs, typename_name()) matches Some(Json::Str(t)) && count_sep(t) == 0
    &&& field_of(fs, id_name()) matches Some(Json::Str(id)) && count_sep(id) == 0
}

/// Every object of the tree, outside metadata fields, names an entity
/// whose key reads back, in whatever order its fields stand.
pub open spec fn identified(v: Json) -> bool
    decreases v,
{
    match v {
        Json::Object(fs) => entity_facts(fs) && forall|i: int|
            0 <= i < fs.len() && !is_meta((#[trigger] fs[i]).0) ==> identified(fs[i].1),
        Json::Array(a) => forall|i: int| 0 <= i < a.len() ==> identified(#[trigger] a[i]),
        _ => true,
    }
}

/// A document root whose values below the root are all identified.
pub open spec fn identified_root(d: Json) -> bool {
    match d {
        Json::Object(fs) => forall|i: int|
            0 <= i < fs.len() && !is_meta((#[trigger] fs[i]).0) ==> identified(fs[i].1),
        Json::Array(a) => forall|i: int| 0 <= i < a.len() ==> identified(#[trigger] a[i]),
        _ => false,
    }
}

/// The key of an identified object, and its normalized form: a reference
/// marker for that key, after the entities inside it.
proof fn lemma_entity_key(fs: Seq<(Seq<char>, Json)>) -> (k: KeyModel)
    requires
        entity_facts(fs),
    ensures
        norm(Json::Object(fs)) == (ref_marker(k), norm_fields(fs).1.push(
            (k, Json::Object(norm_fields(fs).0)),
        )),
        k.0 == field_of(fs, typename_name())->Some_0->Str_0,
        ref_of(seq![(ref_name(), Json::Str(key_text(k)))]) == Some(k),
{
    let r = norm_fields(fs);
    let t = field_of(fs, typename_name())->Some_0->Str_0;
    let id = field_of(fs, id_name())->Some_0->Str_0;
    assert(!is_meta(id_name()));
    lemma_field_of_norm(fs, id_name());
    let k = (t, id);
    assert(entity_key(r.0, fs) == Some(k));
    lemma_key_text_round_trip(k);
    assert(field_of(seq![(ref_name(), Json::Str(key_text(k)))], ref_name()) == Some(
        Json::Str(key_text(k)),
    ));
    k
}

proof fn lemma_identified_miss(v: Json, fuel: nat)
    requires
        identified(v),
    ensures
        denorm(Map::empty(), norm(v).0, fuel) matches Err(e) ==> e is IdentityKeyNotFound,
    decreases v, 1nat,
{
    match v {
        Json::Object(fs) => {
            let k = lemma_entity_key(fs);
        },
        Json::Array(a) => {
            lemma_identified_miss_items(a, fuel);
        },
        _ => {},
    }
}

proof fn lemma_identified_miss_items(a: Seq<Json>, fuel: nat)
    requires
        forall|i: int| 0 <= i < a.len() ==> identified(#[trigger] a[i]),
    ensures
        denorm_items(Map::empty(), norm_items(a).0, fuel) matches Err(e) ==> e is IdentityKeyNotFound,
    decreases a, 0nat,
{
    if a.len() > 0 {
        let n = a.len() - 1;
        let p = a.subrange(0, n);
        assert forall|i: int| 0 <= i < p.len() implies identified(#[trigger] p[i]) by {
            assert(p[i] == a[i]);
        }
        lemma_identified_miss_items(p, fuel);
        lemma_identified_miss(a[n], fuel);
        let items = norm_items(p).0.push(norm(a[n]).0);
        assert(items.subrange(0, items.len() - 1) =~= norm_items(p).0);
    }
}

proof fn lemma_identified_miss_fields(g: Seq<(Seq<char>, Json)>, fuel: nat)
    requires
        forall|i: int| 0 <= i < g.len() && !is_meta((#[trigger] g[i]).0) ==> identified(g[i].1),
    ensures
        denorm_fields(Map::empty(), norm_fields(g).0, fuel) matches Err(e) ==> e is IdentityKeyNotFound,
    decreases g, 0nat,
{
    if g.len() > 0 {
        let n = g.len() - 1;
        let p = g.subrange(0, n);
        assert forall|i: int| 0 <= i < p.len() && !is_meta((#[trigger] p[i]).0) implies identified(
            p[i].1,
        ) by {
            assert(p[i] == g[i]);
        }
        lemma_identified_miss_fields(p, fuel);
        if !is_meta(g[n].0) {
            lemma_identified_miss(g[n].1, fuel);
            let out = norm_fields(p).0.push((g[n].0, norm(g[n].1).0));
            assert(out.subrange(0, out.len() - 1) =~= norm_fields(p).0);
        }
    }
}

/// An object as a fetch gives it back: `__typename` first, then no other
/// metadata field, with a string `id`, and with a type name and id that hold
/// no key separator; lists of such values, and scalars.
pub open spec fn canonical(v: Json) -> bool
    decreases v,
{
    match v {
        Json::Object(fs) => {
            &&& fs.len() > 0
            &&& fs[0].0 == typename_name()
            &&& fs[0].1 matches Json::Str(t) && count_sep(t) == 0
            &&& field_of(fs, id_name()) matches Some(Json::Str(id)) && count_sep(id) == 0
            &&& forall|i: int|
                1 <= i < fs.len() ==> !is_meta((#[trigger] fs[i]).0) && canonical(fs[i].1)
        },
        Json::Array(a) => forall|i: int| 0 <= i < a.len() ==> canonical(#[trigger] a[i]),
        _ => true,
    }
}

/// A document root as a fetch gives it back: an object with no metadata
/// field, or a list, whose values are canonical.
pub open spec fn canonical_root(d: Json) -> bool {
    match d {
        Json::Object(fs) => forall|i: int|
            0 <= i < fs.len() ==> !is_meta((#[trigger] fs[i]).0) && canonical(fs[i].1),
        Json::Array(a) => forall|i: int| 0 <= i < a.len() ==> canonical(#[trigger] a[i]),
        _ => false,
    }
}

/// The fields that are not metadata, in order.
pub open spec fn strip_meta(g: Seq<(Seq<char>, Json)>) -> Seq<(Seq<char>, Json)>
    decreases g.len(),
{
    if g.len() == 0 {
        g
    } else {
        let n = g.len() - 1;
        if is_meta(g[n].0) {
            strip_meta(g.subrange(0, n))
        } else {
            strip_meta(g.subrange(0, n)).push(g[n])
        }
    }
}

/// Every discovered entity's record stands in the store under its key.
pub open spec fn agrees(store: Map<KeyModel, Json>, ents: Seq<Entry>) -> bool {
    forall|i: int|
        0 <= i < ents.len() ==> store.contains_key((#[trigger] ents[i]).0) && store[ents[i].0]
            == ents[i].1
}

/// No two discovered entities have the same key.
pub open spec fn distinct_entities(ents: Seq<Entry>) -> bool {
    forall|i: int, j: int|
        0 <= i < ents.len() && 0 <= j < ents.len() && i != j ==> (#[trigger] ents[i]).0 != (
        #[trigger] ents[j]).0
}

proof fn lemma_agrees_split(store: Map<KeyModel, Json>, x: Seq<Entry>, y: Seq<Entry>)
    requires
        agrees(store, x + y),
    ensures
        agrees(store, x),
        agrees(store, y),
{
    assert forall|i: int| 0 <= i < x.len() implies store.contains_key((#[trigger] x[i]).0)
        && store[x[i].0] == x[i].1 by {
        assert((x + y)[i] == x[i]);
    }
    assert forall|i: int| 0 <= i < y.len() implies store.contains_key((#[trigger] y[i]).0)
        && store[y[i].0] == y[i].1 by {
        assert((x + y)[x.len() + i] == y[i]);
    }
}

proof fn lemma_field_of_push(s: Seq<(Seq<char>, Json)>, x: (Seq<char>, Json), name: Seq<char>)
    ensures
        field_of(s.push(x), name) == if field_of(s, name) is Some {
            field_of(s, name)
        } else if x.0 == name {
            Some(x.1)
        } else {
            None
        },
    decreases s.len(),
{
    if s.len() > 0 {
        assert(s.push(x).drop_first() =~= s.drop_first().push(x));
        assert(s.push(x)[0] == s[0]);
        lemma_field_of_push(s.drop_first(), x, name);
    } else {
        assert(s.push(x).drop_first() =~= s);
        assert(s.push(x)[0] == x);
    }
}

/// Normalizing fields keeps the first field of a name that is not metadata,
/// normalized.
proof fn lemma_field_of_norm(fs: Seq<(Seq<char>, Json)>, name: Seq<char>)
    requires
        !is_meta(name),
    ensures
        field_of(norm_fields(fs).0, name) == match field_of(fs, name) {
            Some(x) => Some(norm(x).0),
            None => None,
        },
    decreases fs.len(),
{
    if fs.len() > 0 {
        let n = fs.len() - 1;
        let p = fs.subrange(0, n);
        lemma_field_of_norm(p, name);
        assert(p.push(fs[n]) =~= fs);
        lemma_field_of_push(p, fs[n], name);
        if !is_meta(fs[n].0) {
            lemma_field_of_push(norm_fields(p).0, (fs[n].0, norm(fs[n].1).0), name);
        }
    }
}

proof fn lemma_strip_meta(g: Seq<(Seq<char>, Json)>, k: int)
    requires
        0 <= k <= g.len(),
        forall|i: int| 0 <= i < k ==> is_meta((#[trigger] g[i]).0),
        forall|i: int| k <= i < g.len() ==> !is_meta((#[trigger] g[i]).0),
    ensures
        strip_meta(g) == g.subrange(k, g.len() as int),
    decreases g.len(),
{
    if g.len() > 0 {
        let n = g.len() - 1;
        let p = g.subrange(0, n);
        if k <= n {
            lemma_strip_meta(p, k);
            assert(p.subrange(k, n).push(g[n]) =~= g.subrange(k, g.len() as int));
        } else {
            assert(is_meta(g[n].0));
            lemma_strip_meta(p, n);
            assert(p.subrange(n, n) =~= g.subrange(k, g.len() as int));
        }
    }
}

proof fn lemma_round_trip_value(store: Map<KeyModel, Json>, v: Json, fuel: nat)
    requires
        canonical(v),
        agrees(store, norm(v).1),
        fuel >= norm(v).1.len(),
    ensures
        denorm(store, norm(v).0, fuel) == Ok::<Json, Fault>(v),
    decreases v, 1nat,
{
    match v {
        Json::Object(fs) => {
            let r = norm_fields(fs);
            assert(field_of(fs, typename_name()) == Some(fs[0].1));
            let k = lemma_entity_key(fs);
            assert(r.1.push((k, Json::Object(r.0))) =~= r.1 + seq![(k, Json::Object(r.0))]);
            lemma_agrees_split(store, r.1, seq![(k, Json::Object(r.0))]);
            assert(seq![(k, Json::Object(r.0))][0] == (k, Json::Object(r.0)));
            lemma_round_trip_fields(store, fs, (fuel - 1) as nat);
            assert forall|i: int| 0 <= i < 1 implies is_meta((#[trigger] fs[i]).0) by {}
            lemma_strip_meta(fs, 1);
            assert(seq![(typename_name(), Json::Str(k.0))] + fs.subrange(1, fs.len() as int) =~= fs);
            assert(expand(store, k, (fuel - 1) as nat) == Ok::<Json, Fault>(v));
        },
        Json::Array(a) => {
            lemma_round_trip_items(store, a, fuel);
        },
        _ => {},
    }
}

proof fn lemma_round_trip_items(store: Map<KeyModel, Json>, a: Seq<Json>, fuel: nat)
    requires
        forall|i: int| 0 <= i < a.len() ==> canonical(#[trigger] a[i]),
        agrees(store, norm_items(a).1),
        fuel >= norm_items(a).1.len(),
    ensures
        denorm_items(store, norm_items(a).0, fuel) == Ok::<Seq<Json>, Fault>(a),
    decreases a, 0nat,
{
    if a.len() > 0 {
        let n = a.len() - 1;
        let p = a.subrange(0, n);
        let r = norm_items(p);
        let e = norm(a[n]);
        lemma_agrees_split(store, r.1, e.1);
        assert forall|i: int| 0 <= i < p.len() implies canonical(#[trigger] p[i]) by {
            assert(p[i] == a[i]);
        }
        lemma_round_trip_items(store, p, fuel);
        lemma_round_trip_value(store, a[n], fuel);
        let items = r.0.push(e.0);
        assert(items.subrange(0, items.len() - 1) =~= r.0);
        assert(p.push(a[n]) =~= a);
    } else {
        assert(norm_items(a).0 =~= a);
    }
}

proof fn lemma_round_trip_fields(store: Map<KeyModel, Json>, g: Seq<(Seq<char>, Json)>, fuel: nat)
    requires
        forall|i: int| 0 <= i < g.len() && !is_meta((#[trigger] g[i]).0) ==> canonical(g[i].1),
        agrees(store, norm_fields(g).1),
        fuel >= norm_fields(g).1.len(),
    ensures
        denorm_fields(store, norm_fields(g).0, fuel) == Ok::<Seq<(Seq<char>, Json)>, Fault>(
            strip_meta(g),
        ),
    decreases g, 0nat,
{
    if g.len() > 0 {
        let n = g.len() - 1;
        let p = g.subrange(0, n);
        assert forall|i: int| 0 <= i < p.len() && !is_meta((#[trigger] p[i]).0) implies canonical(
            p[i].1,
        ) by {
            assert(p[i] == g[i]);
        }
        if is_meta(g[n].0) {
            lemma_round_trip_fields(store, p, fuel);
        } else {
            let r = norm_fields(p);
            let e = norm(g[n].1);
            lemma_agrees_split(store, r.1, e.1);
            lemma_round_trip_fields(store, p, fuel);
            lemma_round_trip_value(store, g[n].1, fuel);
            let out = r.0.push((g[n].0, e.0));
            assert(out.subrange(0, out.len() - 1) =~= r.0);
        }
    } else {
        assert(norm_fields(g).0 =~= g);
    }
}

proof fn lemma_put_all_distinct(ents: Seq<Entry>)
    requires
        distinct_entities(ents),
    ensures
        agrees(put_all(Map::empty(), ents), ents),
        put_all(Map::empty(), ents).dom().finite(),
        put_all(Map::empty(), ents).dom().len() == ents.len(),
    decreases ents.len(),
{
    if ents.len() > 0 {
        let n = ents.len() - 1;
        let p = ents.drop_last();
        assert(distinct_entities(p)) by {
            assert forall|i: int, j: int|
                0 <= i < p.len() && 0 <= j < p.len() && i != j implies (#[trigger] p[i]).0 != (
                #[trigger] p[j]).0 by {
                assert(p[i] == ents[i] && p[j] == ents[j]);
            }
        }
        lemma_put_all_distinct(p);
        let m = put_all(Map::<KeyModel, Json>::empty(), p);
        assert forall|i: int| 0 <= i < ents.len() implies put_all(Map::empty(), ents).contains_key(
            (#[trigger] ents[i]).0,
        ) && put_all(Map::empty(), ents)[ents[i].0] == ents[i].1 by {
            if i < n {
                assert(p[i] == ents[i]);
                assert(ents[i].0 != ents[n].0);
            }
        }
        assert(!m.contains_key(ents[n].0)) by {
            lemma_put_all_union(Map::empty(), p);
            if m.contains_key(ents[n].0) {
                let i = choose|i: int| 0 <= i < p.len() && (#[trigger] p[i]).0 == ents[n].0;
                assert(p[i] == ents[i]);
            }
        }
    }
}

/// A document whose objects are in the shape a fetch gives back, and in
/// which no entity occurs twice, is fetched back as it was stored, from a
/// cache whose identity store held nothing else.
pub proof fn law_round_trip(results: Map<Seq<char>, Json>, rk: Seq<char>, d: Json)
    requires
        is_document(d),
        canonical_root(d),
        distinct_entities(norm_root(d).1),
    ensures
        fetch(
            results.insert(rk, norm_root(d).0),
            put_all(Map::empty(), norm_root(d).1),
            rk,
        ) == Ok::<Json, Fault>(d),
        put_all(Map::empty(), norm_root(d).1).dom().len() == norm_root(d).1.len(),
{
    let ents = norm_root(d).1;
    let store = put_all(Map::empty(), ents);
    lemma_put_all_distinct(ents);
    match d {
        Json::Object(fs) => {
            lemma_round_trip_fields(store, fs, store.dom().len());
            lemma_strip_meta(fs, 0);
            assert(fs.subrange(0, fs.len() as int) =~= fs);
        },
        Json::Array(a) => {
            lemma_round_trip_items(store, a, store.dom().len());
        },
        _ => {},
    }
}

} // verus!
