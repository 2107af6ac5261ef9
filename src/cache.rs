//! The in-memory cache: an identity store of entity records and a result
//! store of top-level normalized forms.
use vstd::prelude::*;
use vstd::string::StringExecFns;
use crate::key::{parse_key_text, Key};
use crate::normalize::{
    entries_view, norm_root, normalize_root, ref_field, ref_name, Entry, KeyModel, NormalizedData,
};
use crate::table::{lemma_table_map, lemma_table_push, lemma_table_update, table_map, unique_keys};
use crate::validate::{
    at_path, error_fits, error_report, error_site, first_offence, id_field, id_name, is_document, typename_field, typename_name, Data,
    DataValidationError,
};
use crate::value::{
    copy_value, field_of, find_field, lemma_view_fields, lemma_view_items, view_fields, view_items,
    Json, JsonValue,
};

verus! {

/// The model of a cache error.
pub enum Fault {
    ResultKeyNotFound(Seq<char>),
    IdentityKeyNotFound(KeyModel),
    ExpectedReference(Json),
    CyclicReference(KeyModel),
    NotIdentifiable,
}

/// Why a read from the cache failed.
#[derive(Debug)]
pub enum CacheError {
    /// No result is stored under this key.
    ResultKeyNotFound(String),
    /// A reference names an entity that the identity store does not hold.
    IdentityKeyNotFound(Key),
    /// An object in a normalized form is not a reference marker.
    ExpectedReference(JsonValue),
    /// Resolving references went deeper than there are records: some
    /// records reference each other in a cycle, through this key.
    CyclicReference(Key),
    /// A fragment does not carry a string `id` and a string `__typename`.
    NotIdentifiable,
}

impl View for CacheError {
    type V = Fault;

    open spec fn view(&self) -> Fault {
        match self {
            CacheError::ResultKeyNotFound(k) => Fault::ResultKeyNotFound(k@),
            CacheError::IdentityKeyNotFound(k) => Fault::IdentityKeyNotFound(k@),
            CacheError::ExpectedReference(v) => Fault::ExpectedReference(v@),
            CacheError::CyclicReference(k) => Fault::CyclicReference(k@),
            CacheError::NotIdentifiable => Fault::NotIdentifiable,
        }
    }
}

/// The model of a read's result.
pub open spec fn read_view(r: Result<JsonValue, CacheError>) -> Result<Json, Fault> {
    match r {
        Ok(v) => Ok(v@),
        Err(e) => Err(e@),
    }
}

/// The key that a reference marker's fields carry, if they carry one: a
/// `__ref` field whose string is a key's text form.
pub open spec fn ref_of(fs: Seq<(Seq<char>, Json)>) -> Option<KeyModel> {
    match field_of(fs, ref_name()) {
        Some(Json::Str(t)) => parse_key_text(t),
        _ => None,
    }
}

/// Resolves every reference marker in a normalized value against `store`.
/// At most `fuel` references are expanded one inside another; a deeper
/// chain fails with a cycle.
pub open spec fn denorm(store: Map<KeyModel, Json>, v: Json, fuel: nat) -> Result<Json, Fault>
    decreases fuel, v,
{
    match v {
        Json::Object(fs) => match ref_of(fs) {
            None => Err(Fault::ExpectedReference(v)),
            Some(k) => if !store.contains_key(k) {
                Err(Fault::IdentityKeyNotFound(k))
            } else if fuel == 0 {
                Err(Fault::CyclicReference(k))
            } else {
                expand(store, k, (fuel - 1) as nat)
            },
        },
        Json::Array(a) => match denorm_items(store, a, fuel) {
            Ok(s) => Ok(Json::Array(s)),
            Err(e) => Err(e),
        },
        _ => Ok(v),
    }
}

/// The fully resolved record of the entity `k`: its fields resolved, with
/// `__typename` (the type name of `k`) put back in front.
pub open spec fn expand(store: Map<KeyModel, Json>, k: KeyModel, fuel: nat) -> Result<Json, Fault>
    decreases fuel, store[k],
{
    match store[k] {
        Json::Object(fs) => match denorm_fields(store, fs, fuel) {
            Ok(out) => Ok(Json::Object(seq![(typename_name(), Json::Str(k.0))] + out)),
            Err(e) => Err(e),
        },
        Json::Array(a) => match denorm_items(store, a, fuel) {
            Ok(s) => Ok(Json::Array(s)),
            Err(e) => Err(e),
        },
        other => Ok(other),
    }
}

/// Resolves each element in order; the first failure is the result.
pub open spec fn denorm_items(store: Map<KeyModel, Json>, a: Seq<Json>, fuel: nat) -> Result<
    Seq<Json>,
    Fault,
>
    decreases fuel, a,
{
    if a.len() == 0 {
        Ok(Seq::empty())
    } else {
        let n = a.len() - 1;
        match denorm_items(store, a.subrange(0, n), fuel) {
            Err(e) => Err(e),
            Ok(s) => match denorm(store, a[n], fuel) {
                Ok(x) => Ok(s.push(x)),
                Err(e) => Err(e),
            },
        }
    }
}

/// Resolves each field's value in order; the first failure is the result.
pub open spec fn denorm_fields(store: Map<KeyModel, Json>, fs: Seq<(Seq<char>, Json)>, fuel: nat) -> Result<
    Seq<(Seq<char>, Json)>,
    Fault,
>
    decreases fuel, fs,
{
    if fs.len() == 0 {
        Ok(Seq::empty())
    } else {
        let n = fs.len() - 1;
        match denorm_fields(store, fs.subrange(0, n), fuel) {
            Err(e) => Err(e),
            Ok(s) => match denorm(store, fs[n].1, fuel) {
                Ok(x) => Ok(s.push((fs[n].0, x))),
                Err(e) => Err(e),
            },
        }
    }
}

/// Resolves a top-level normalized form: its fields or elements are resolved
/// in turn, with as much fuel as the store has records.
pub open spec fn resolve_top(store: Map<KeyModel, Json>, n: Json) -> Result<Json, Fault> {
    let fuel = store.dom().len();
    match n {
        Json::Object(fs) => match denorm_fields(store, fs, fuel) {
            Ok(out) => Ok(Json::Object(out)),
            Err(e) => Err(e),
        },
        Json::Array(a) => match denorm_items(store, a, fuel) {
            Ok(s) => Ok(Json::Array(s)),
            Err(e) => Err(e),
        },
        other => Ok(other),
    }
}

/// What `fetch` returns for a result key.
pub open spec fn fetch(results: Map<Seq<char>, Json>, store: Map<KeyModel, Json>, rk: Seq<char>) -> Result<
    Json,
    Fault,
> {
    if !results.contains_key(rk) {
        Err(Fault::ResultKeyNotFound(rk))
    } else {
        resolve_top(store, results[rk])
    }
}

/// What resolving the entity `k` directly returns.
pub open spec fn get_identity(store: Map<KeyModel, Json>, k: KeyModel) -> Result<Json, Fault> {
    if !store.contains_key(k) {
        Err(Fault::IdentityKeyNotFound(k))
    } else {
        expand(store, k, (store.dom().len() - 1) as nat)
    }
}

/// The identity store after putting each discovered entity in order: a
/// later record for a key replaces an earlier one.
pub open spec fn put_all(m: Map<KeyModel, Json>, ents: Seq<Entry>) -> Map<KeyModel, Json>
    decreases ents.len(),
{
    if ents.len() == 0 {
        m
    } else {
        put_all(m, ents.drop_last()).insert(ents.last().0, ents.last().1)
    }
}

/// The keys of a sequence of entities.
pub open spec fn entry_keys(ents: Seq<Entry>) -> Set<KeyModel> {
    Set::new(|k: KeyModel| exists|i: int| 0 <= i < ents.len() && (#[trigger] ents[i]).0 == k)
}

/// The distinct entities of a document.
pub open spec fn document_keys(d: Json) -> Set<KeyModel> {
    entry_keys(norm_root(d).1)
}

/// What an identifiable fragment's key is: a string `id` and a string
/// `__typename` in an object.
pub open spec fn identify_spec(d: Json) -> Option<KeyModel> {
    match d {
        Json::Object(fs) => match (field_of(fs, id_name()), field_of(fs, typename_name())) {
            (Some(Json::Str(id)), Some(Json::Str(t))) => Some((t, id)),
            _ => None,
        },
        _ => None,
    }
}

/// An in-memory cache of normalized documents.
#[derive(Debug)]
pub struct InMemoryCache {
    result_cache: Vec<(String, NormalizedData)>,
    identity_cache: Vec<(Key, NormalizedData)>,
}

impl InMemoryCache {
    /// The result store: result key to top-level normalized form.
    pub closed spec fn results(&self) -> Map<Seq<char>, Json> {
        table_map(self.result_cache@)
    }

    /// The identity store: entity key to record.
    pub closed spec fn identities(&self) -> Map<KeyModel, Json> {
        table_map(self.identity_cache@)
    }

    /// Each store holds one entry per key.
    pub closed spec fn wf(&self) -> bool {
        unique_keys(self.result_cache@) && unique_keys(self.identity_cache@)
    }

    /// An empty cache.
    pub fn new() -> (r: InMemoryCache)
        ensures
            r.wf(),
            r.results() == Map::<Seq<char>, Json>::empty(),
            r.identities() == Map::<KeyModel, Json>::empty(),
    {
        InMemoryCache { result_cache: Vec::new(), identity_cache: Vec::new() }
    }

    /// The number of records in the identity store.
    pub fn identity_count(&self) -> (r: usize)
        requires
            self.wf(),
        ensures
            r == self.identities().dom().len(),
    {
        proof {
            lemma_table_map(self.identity_cache@);
        }
        self.identity_cache.len()
    }

    /// The number of entries in the result store.
    pub fn result_count(&self) -> (r: usize)
        requires
            self.wf(),
        ensures
            r == self.results().dom().len(),
    {
        proof {
            lemma_table_map(self.result_cache@);
        }
        self.result_cache.len()
    }

    /// Removes every record from the identity store.
    pub fn clear_identities(&mut self)
        requires
            old(self).wf(),
        ensures
            final(self).wf(),
            final(self).identities() == Map::<KeyModel, Json>::empty(),
            final(self).results() == old(self).results(),
    {
        self.identity_cache = Vec::new();
    }

    /// Removes every entry from the result store.
    pub fn clear_results(&mut self)
        requires
            old(self).wf(),
        ensures
            final(self).wf(),
            final(self).results() == Map::<Seq<char>, Json>::empty(),
            final(self).identities() == old(self).identities(),
    {
        self.result_cache = Vec::new();
    }

    fn find_identity(&self, k: &Key) -> (r: Option<usize>)
        requires
            self.wf(),
        ensures
            match r {
                Some(i) => i < self.identity_cache.len() && self.identity_cache@[i as int].0@ == k@
                    && self.identities().contains_key(k@),
                None => !self.identities().contains_key(k@),
            },
    {
        let mut i: usize = 0;
        while i < self.identity_cache.len()
            invariant
                0 <= i <= self.identity_cache.len(),
                forall|j: int| 0 <= j < i ==> (#[trigger] self.identity_cache@[j]).0@ != k@,
            decreases self.identity_cache.len() - i,
        {
            if self.identity_cache[i].0.same_as(k) {
                proof {
                    lemma_table_map(self.identity_cache@);
                    assert(self.identity_cache@[i as int].0@ == k@);
                }
                return Some(i);
            }
            i = i + 1;
        }
        proof {
            lemma_table_map(self.identity_cache@);
        }
        None
    }

    fn find_result(&self, k: &String) -> (r: Option<usize>)
        requires
            self.wf(),
        ensures
            match r {
                Some(i) => i < self.result_cache.len() && self.result_cache@[i as int].0@ == k@
                    && self.results().contains_key(k@),
                None => !self.results().contains_key(k@),
            },
    {
        let mut i: usize = 0;
        while i < self.result_cache.len()
            invariant
                0 <= i <= self.result_cache.len(),
                forall|j: int| 0 <= j < i ==> (#[trigger] self.result_cache@[j]).0@ != k@,
            decreases self.result_cache.len() - i,
        {
            if self.result_cache[i].0 == *k {
                proof {
                    lemma_table_map(self.result_cache@);
                    assert(self.result_cache@[i as int].0@ == k@);
                }
                return Some(i);
            }
            i = i + 1;
        }
        proof {
            lemma_table_map(self.result_cache@);
        }
        None
    }

    /// Puts a record under an entity key, replacing any earlier record.
    pub fn store_identity_data(&mut self, key: &Key, data: NormalizedData) -> (r: Result<(), CacheError>)
        requires
            old(self).wf(),
        ensures
            r is Ok,
            final(self).wf(),
            final(self).identities() == old(self).identities().insert(key@, data@),
            final(self).results() == old(self).results(),
    {
        let e = (key.duplicate(), data);
        match self.find_identity(key) {
            Some(i) => {
                proof {
                    lemma_table_update(self.identity_cache@, i as int, e);
                }
                self.identity_cache.set(i, e);
            },
            None => {
                proof {
                    lemma_table_push(self.identity_cache@, e);
                }
                self.identity_cache.push(e);
            },
        }
        Ok(())
    }

    fn put_result(&mut self, key: &String, data: NormalizedData)
        requires
            old(self).wf(),
        ensures
            final(self).wf(),
            final(self).results() == old(self).results().insert(key@, data@),
            final(self).identities() == old(self).identities(),
    {
        let e = (key.clone(), data);
        match self.find_result(key) {
            Some(i) => {
                proof {
                    lemma_table_update(self.result_cache@, i as int, e);
                }
                self.result_cache.set(i, e);
            },
            None => {
                proof {
                    lemma_table_push(self.result_cache@, e);
                }
                self.result_cache.push(e);
            },
        }
    }
    fn denormalize_value(&self, v: &JsonValue, fuel: usize) -> (r: Result<JsonValue, CacheError>)
        requires
            self.wf(),
        ensures
            read_view(r) == denorm(self.identities(), v@, fuel as nat),
        decreases fuel, v@, 0nat,
    {
        match v {
            JsonValue::Object(fs) => {
                let rn = ref_field();
                let text = match find_field(fs, &rn) {
                    Some(JsonValue::String(t)) => t,
                    _ => {
                        return Err(CacheError::ExpectedReference(copy_value(v)));
                    },
                };
                let k = match Key::from_text(text.as_str()) {
                    Ok(k) => k,
                    Err(_) => {
                        return Err(CacheError::ExpectedReference(copy_value(v)));
                    },
                };
                match self.find_identity(&k) {
                    None => Err(CacheError::IdentityKeyNotFound(k)),
                    Some(i) => {
                        if fuel == 0 {
                            Err(CacheError::CyclicReference(k))
                        } else {
                            self.expand(i, fuel - 1)
                        }
                    },
                }
            },
            JsonValue::Array(a) => {
                proof {
                    assert(decreases_to!(v@ => v@->Array_0));
                }
                match self.denormalize_items(a, fuel) {
                    Ok(items) => Ok(JsonValue::Array(items)),
                    Err(e) => Err(e),
                }
            },
            _ => Ok(copy_value(v)),
        }
    }

    fn expand(&self, i: usize, fuel: usize) -> (r: Result<JsonValue, CacheError>)
        requires
            self.wf(),
            i < self.identity_cache.len(),
        ensures
            read_view(r) == expand(self.identities(), self.identity_cache@[i as int].0@, fuel as nat),
        decreases fuel, self.identities()[self.identity_cache@[i as int].0@], 1nat,
    {
        proof {
            lemma_table_map(self.identity_cache@);
        }
        let k = &self.identity_cache[i].0;
        match &self.identity_cache[i].1 {
            NormalizedData::Object(fs) => {
                match self.denormalize_fields(fs, fuel) {
                    Ok(out) => {
                        let mut res = vec![
                            (typename_field(), JsonValue::String(String::from_str(k.typename()))),
                        ];
                        let ghost first = res@;
                        let mut rest = out;
                        let ghost rest0 = rest@;
                        res.append(&mut rest);
                        proof {
                            lemma_view_fields(res@);
                            lemma_view_fields(first);
                            lemma_view_fields(rest0);
                            assert(view_fields(res@) =~= seq![(typename_name(), Json::Str(k@.0))]
                                + view_fields(rest0));
                        }
                        Ok(JsonValue::Object(res))
                    },
                    Err(e) => Err(e),
                }
            },
            NormalizedData::Array(a) => {
                match self.denormalize_items(a, fuel) {
                    Ok(items) => Ok(JsonValue::Array(items)),
                    Err(e) => Err(e),
                }
            },
        }
    }

    fn denormalize_items(&self, a: &Vec<JsonValue>, fuel: usize) -> (r: Result<Vec<JsonValue>, CacheError>)
        requires
            self.wf(),
        ensures
            match r {
                Ok(out) => denorm_items(self.identities(), view_items(a@), fuel as nat) == Ok::<
                    Seq<Json>,
                    Fault,
                >(view_items(out@)),
                Err(e) => denorm_items(self.identities(), view_items(a@), fuel as nat) == Err::<
                    Seq<Json>,
                    Fault,
                >(e@),
            },
        decreases fuel, view_items(a@), 1nat,
    {
        let ghost av = view_items(a@);
        let ghost store = self.identities();
        proof {
            lemma_view_items(a@);
            assert(av.subrange(0, 0) =~= Seq::<Json>::empty());
        }
        let mut out: Vec<JsonValue> = Vec::new();
        let mut i: usize = 0;
        while i < a.len()
            invariant
                self.wf(),
                store == self.identities(),
                0 <= i <= a.len(),
                av == view_items(a@),
                av.len() == a.len(),
                forall|j: int| 0 <= j < a.len() ==> #[trigger] av[j] == a@[j]@,
                denorm_items(store, av.subrange(0, i as int), fuel as nat) == Ok::<Seq<Json>, Fault>(
                    view_items(out@),
                ),
            decreases a.len() - i,
        {
            let ghost t = av.subrange(0, i + 1);
            proof {
                assert(t.subrange(0, i as int) =~= av.subrange(0, i as int));
                assert(t[i as int] == av[i as int]);
                assert(decreases_to!(av => av[i as int]));
            }
            match self.denormalize_value(&a[i], fuel) {
                Ok(x) => {
                    proof {
                        assert(out@.push(x).subrange(0, out@.len() as int) =~= out@);
                    }
                    out.push(x);
                },
                Err(e) => {
                    proof {
                        assert(denorm_items(store, t, fuel as nat) == Err::<Seq<Json>, Fault>(e@));
                        lemma_denorm_items_prefix_err(store, av, fuel as nat, i + 1);
                    }
                    return Err(e);
                },
            }
            i = i + 1;
        }
        proof {
            assert(av.subrange(0, a.len() as int) =~= av);
        }
        Ok(out)
    }

    fn denormalize_fields(&self, fs: &Vec<(String, JsonValue)>, fuel: usize) -> (r: Result<
        Vec<(String, JsonValue)>,
        CacheError,
    >)
        requires
            self.wf(),
        ensures
            match r {
                Ok(out) => denorm_fields(self.identities(), view_fields(fs@), fuel as nat) == Ok::<
                    Seq<(Seq<char>, Json)>,
                    Fault,
                >(view_fields(out@)),
                Err(e) => denorm_fields(self.identities(), view_fields(fs@), fuel as nat) == Err::<
                    Seq<(Seq<char>, Json)>,
                    Fault,
                >(e@),
            },
        decreases fuel, view_fields(fs@), 1nat,
    {
        let ghost fsv = view_fields(fs@);
        let ghost store = self.identities();
        proof {
            lemma_view_fields(fs@);
            assert(fsv.subrange(0, 0) =~= Seq::<(Seq<char>, Json)>::empty());
        }
        let mut out: Vec<(String, JsonValue)> = Vec::new();
        let mut i: usize = 0;
        while i < fs.len()
            invariant
                self.wf(),
                store == self.identities(),
                0 <= i <= fs.len(),
                fsv == view_fields(fs@),
                fsv.len() == fs.len(),
                forall|j: int| 0 <= j < fs.len() ==> #[trigger] fsv[j] == (fs@[j].0@, fs@[j].1@),
                denorm_fields(store, fsv.subrange(0, i as int), fuel as nat) == Ok::<
                    Seq<(Seq<char>, Json)>,
                    Fault,
                >(view_fields(out@)),
            decreases fs.len() - i,
        {
            let ghost t = fsv.subrange(0, i + 1);
            proof {
                assert(t.subrange(0, i as int) =~= fsv.subrange(0, i as int));
                assert(t[i as int] == fsv[i as int]);
                assert(decreases_to!(fsv => fsv[i as int]));
                assert(decreases_to!(fsv[i as int] => fsv[i as int].1));
            }
            match self.denormalize_value(&fs[i].1, fuel) {
                Ok(x) => {
                    let name = fs[i].0.clone();
                    proof {
                        assert(out@.push((name, x)).subrange(0, out@.len() as int) =~= out@);
                    }
                    out.push((name, x));
                },
                Err(e) => {
                    proof {
                        assert(denorm_fields(store, t, fuel as nat) == Err::<
                            Seq<(Seq<char>, Json)>,
                            Fault,
                        >(e@));
                        lemma_denorm_fields_prefix_err(store, fsv, fuel as nat, i + 1);
                    }
                    return Err(e);
                },
            }
            i = i + 1;
        }
        proof {
            assert(fsv.subrange(0, fs.len() as int) =~= fsv);
        }
        Ok(out)
    }
    /// Stores a validated document under a result key: every entity found
    /// in it is put in the identity store, in the order found (a later
    /// record for a key replaces an earlier one), and its top-level normalized
    /// form is put in the result store, replacing any earlier entry.
    pub fn store_result_data(&mut self, key: &String, data: Data) -> (r: Result<NormalizedData, CacheError>)
        requires
            old(self).wf(),
        ensures
            final(self).wf(),
            r matches Ok(n) && n@ == norm_root(data@).0,
            final(self).identities() == put_all(old(self).identities(), norm_root(data@).1),
            final(self).results() == old(self).results().insert(key@, norm_root(data@).0),
    {
        let mut sink: Vec<(Key, NormalizedData)> = Vec::new();
        let normalized = normalize_root(&data, &mut sink);
        let ghost ents = entries_view(sink@);
        let ghost m0 = self.identities();
        proof {
            assert(Seq::<Entry>::empty() + norm_root(data@).1 =~= norm_root(data@).1);
            assert(ents.take(0) =~= Seq::<Entry>::empty());
            assert(ents.skip(0) =~= ents);
        }
        let ghost total = sink.len();
        while sink.len() > 0
            invariant
                self.wf(),
                self.results() == old(self).results(),
                sink.len() <= total,
                ents.len() == total,
                entries_view(sink@) == ents.skip(total - sink.len()),
                self.identities() == put_all(m0, ents.take(total - sink.len())),
            decreases sink.len(),
        {
            let ghost c = total - sink.len();
            let ghost before = sink@;
            let (k, rec) = sink.remove(0);
            proof {
                assert(entries_view(before)[0] == ents[c]);
                assert(sink@ =~= before.subrange(1, before.len() as int));
                assert forall|j: int| 0 <= j < sink@.len() implies #[trigger] entries_view(sink@)[j]
                    == ents.skip(c + 1)[j] by {
                    assert(sink@[j] == before[j + 1]);
                    assert(entries_view(before)[j + 1] == ents.skip(c)[j + 1]);
                }
                assert(entries_view(sink@) =~= ents.skip(c + 1));
                assert(ents.take(c + 1).drop_last() =~= ents.take(c));
            }
            let _ = self.store_identity_data(&k, rec);
        }
        proof {
            assert(ents.take(total as int) =~= ents);
        }
        let (normalized, copy) = duplicate_normalized(normalized);
        self.put_result(key, copy);
        Ok(normalized)
    }

    /// Reconstructs the document stored under a result key, resolving every
    /// reference through the identity store.
    pub fn get_result_data(&self, key: &String) -> (r: Result<JsonValue, CacheError>)
        requires
            self.wf(),
        ensures
            read_view(r) == fetch(self.results(), self.identities(), key@),
    {
        proof {
            lemma_table_map(self.identity_cache@);
            lemma_table_map(self.result_cache@);
        }
        let i = match self.find_result(key) {
            Some(i) => i,
            None => {
                return Err(CacheError::ResultKeyNotFound(key.clone()));
            },
        };
        let fuel = self.identity_cache.len();
        match &self.result_cache[i].1 {
            NormalizedData::Object(fs) => match self.denormalize_fields(fs, fuel) {
                Ok(out) => Ok(JsonValue::Object(out)),
                Err(e) => Err(e),
            },
            NormalizedData::Array(a) => match self.denormalize_items(a, fuel) {
                Ok(out) => Ok(JsonValue::Array(out)),
                Err(e) => Err(e),
            },
        }
    }

    /// The fully resolved record of one entity, with its `__typename`.
    pub fn get_identity_data(&self, key: &Key) -> (r: Result<JsonValue, CacheError>)
        requires
            self.wf(),
        ensures
            read_view(r) == get_identity(self.identities(), key@),
    {
        proof {
            lemma_table_map(self.identity_cache@);
        }
        match self.find_identity(key) {
            None => Err(CacheError::IdentityKeyNotFound(key.duplicate())),
            Some(i) => self.expand(i, self.identity_cache.len() - 1),
        }
    }

    /// The key of a fragment that carries a string `id` and a string `__typename`.
    pub fn identify(&self, data: &Data) -> (r: Result<Key, CacheError>)
        ensures
            match r {
                Ok(k) => identify_spec(data@) == Some(k@),
                Err(e) => identify_spec(data@) is None && e@ == Fault::NotIdentifiable,
            },
    {
        match data.value() {
            JsonValue::Object(fs) => {
                let idn = id_field();
                let tn = typename_field();
                match (find_field(fs, &idn), find_field(fs, &tn)) {
                    (Some(JsonValue::String(id)), Some(JsonValue::String(t))) => Ok(
                        Key::new(t.clone(), id.clone()),
                    ),
                    _ => Err(CacheError::NotIdentifiable),
                }
            },
            _ => Err(CacheError::NotIdentifiable),
        }
    }

    /// Validates a raw value and, if it is a document, stores it under a
    /// result key. A refused value leaves both stores as they were.
    pub fn store_document(&mut self, key: &String, value: JsonValue) -> (r: Result<
        NormalizedData,
        DataValidationError,
    >)
        requires
            old(self).wf(),
        ensures
            final(self).wf(),
            r is Ok <==> is_document(value@),
            r matches Ok(n) ==> n@ == norm_root(value@).0 && final(self).identities() == put_all(
                old(self).identities(),
                norm_root(value@).1,
            ) && final(self).results() == old(self).results().insert(key@, norm_root(value@).0),
            r matches Err(e) ==> (e is InvalidRootShape || error_report(e) == first_offence(
                value@,
                Seq::empty(),
            )),
            r matches Err(e) ==> error_fits(e) && at_path(value@, error_site(e).0, error_site(e).1)
                && final(self).identities() == old(self).identities()
                && final(self).results() == old(self).results(),
    {
        match Data::new(value) {
            Ok(d) => match self.store_result_data(key, d) {
                Ok(n) => Ok(n),
                Err(_) => {
                    proof {
                        assert(false);
                    }
                    Err(DataValidationError::InvalidRootShape(Vec::new(), JsonValue::Null))
                },
            },
            Err(e) => Err(e),
        }
    }
}

/// A store of normalized documents, as the client uses it.
pub trait Cache {
    /// The cache's own consistency condition.
    spec fn cache_wf(&self) -> bool;

    /// The key of a fragment that carries a string `id` and a string `__typename`.
    fn identify(&self, data: &Data) -> Result<Key, CacheError>;

    /// Stores a validated document under a result key.
    fn store_result_data(&mut self, key: &String, data: Data) -> (r: Result<NormalizedData, CacheError>)
        requires
            old(self).cache_wf(),
        ensures
            final(self).cache_wf(),
    ;

    /// Reconstructs the document stored under a result key.
    fn get_result_data(&self, key: &String) -> Result<JsonValue, CacheError>
        requires
            self.cache_wf(),
    ;

    /// Puts a record under an entity key.
    fn store_identity_data(&mut self, key: &Key, data: NormalizedData) -> (r: Result<(), CacheError>)
        requires
            old(self).cache_wf(),
        ensures
            final(self).cache_wf(),
    ;

    /// The fully resolved record of one entity.
    fn get_identity_data(&self, key: &Key) -> Result<JsonValue, CacheError>
        requires
            self.cache_wf(),
    ;
}

impl Cache for InMemoryCache {
    open spec fn cache_wf(&self) -> bool {
        self.wf()
    }

    fn identify(&self, data: &Data) -> Result<Key, CacheError> {
        InMemoryCache::identify(self, data)
    }

    fn store_result_data(&mut self, key: &String, data: Data) -> (r: Result<NormalizedData, CacheError>) {
        InMemoryCache::store_result_data(self, key, data)
    }

    fn get_result_data(&self, key: &String) -> Result<JsonValue, CacheError> {
        InMemoryCache::get_result_data(self, key)
    }

    fn store_identity_data(&mut self, key: &Key, data: NormalizedData) -> (r: Result<(), CacheError>) {
        InMemoryCache::store_identity_data(self, key, data)
    }

    fn get_identity_data(&self, key: &Key) -> Result<JsonValue, CacheError> {
        InMemoryCache::get_identity_data(self, key)
    }
}

/// Two equal copies of a normalized form.
fn duplicate_normalized(n: NormalizedData) -> (r: (NormalizedData, NormalizedData))
    ensures
        r.0@ == n@,
        r.1@ == n@,
{
    match n {
        NormalizedData::Object(fs) => {
            let v = JsonValue::Object(fs);
            let c = copy_value(&v);
            match (v, c) {
                (JsonValue::Object(a), JsonValue::Object(b)) => (
                    NormalizedData::Object(a),
                    NormalizedData::Object(b),
                ),
                _ => {
                    proof {
                        assert(false);
                    }
                    (NormalizedData::Array(Vec::new()), NormalizedData::Array(Vec::new()))
                },
            }
        },
        NormalizedData::Array(items) => {
            let v = JsonValue::Array(items);
            let c = copy_value(&v);
            match (v, c) {
                (JsonValue::Array(a), JsonValue::Array(b)) => (
                    NormalizedData::Array(a),
                    NormalizedData::Array(b),
                ),
                _ => {
                    proof {
                        assert(false);
                    }
                    (NormalizedData::Array(Vec::new()), NormalizedData::Array(Vec::new()))
                },
            }
        },
    }
}

/// A failure on a prefix of a list is the failure of the whole list.
pub proof fn lemma_denorm_items_prefix_err(store: Map<KeyModel, Json>, a: Seq<Json>, fuel: nat, n: int)
    requires
        0 <= n <= a.len(),
        denorm_items(store, a.subrange(0, n), fuel) is Err,
    ensures
        denorm_items(store, a, fuel) == denorm_items(store, a.subrange(0, n), fuel),
    decreases a.len() - n,
{
    if n < a.len() {
        let t = a.subrange(0, n + 1);
        assert(t.subrange(0, n) =~= a.subrange(0, n));
        lemma_denorm_items_prefix_err(store, a, fuel, n + 1);
    } else {
        assert(a.subrange(0, n) =~= a);
    }
}

/// A failure on a prefix of an object's fields is the failure of the whole object.
pub proof fn lemma_denorm_fields_prefix_err(
    store: Map<KeyModel, Json>,
    fs: Seq<(Seq<char>, Json)>,
    fuel: nat,
    n: int,
)
    requires
        0 <= n <= fs.len(),
        denorm_fields(store, fs.subrange(0, n), fuel) is Err,
    ensures
        denorm_fields(store, fs, fuel) == denorm_fields(store, fs.subrange(0, n), fuel),
    decreases fs.len() - n,
{
    if n < fs.len() {
        let t = fs.subrange(0, n + 1);
        assert(t.subrange(0, n) =~= fs.subrange(0, n));
        lemma_denorm_fields_prefix_err(store, fs, fuel, n + 1);
    } else {
        assert(fs.subrange(0, n) =~= fs);
    }
}

} // verus!
