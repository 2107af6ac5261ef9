//! Validation of raw documents against the identity-tagging convention.
use vstd::prelude::*;
use vstd::string::StringExecFns;
use crate::key::Key;
use crate::value::{
    copy_value, field_of, find_field, group_view_lemmas, is_meta, lemma_view_fields, lemma_view_items, is_meta_name, view_fields,
    view_items, Json, JsonValue,
};

verus! {

/// The name of the identity field, `id`.
pub open spec fn id_name() -> Seq<char> {
    seq!['i', 'd']
}

/// The name of the type-discriminator field, `__typename`.
pub open spec fn typename_name() -> Seq<char> {
    seq!['_', '_', 't', 'y', 'p', 'e', 'n', 'a', 'm', 'e']
}

/// How an object breaks the identity convention.
pub enum Offence {
    DuplicateFieldName,
    MissingTypeDiscriminator,
    TypeDiscriminatorNotString,
    IdNotString,
}

/// No two fields of an object have the same name.
pub open spec fn distinct_names(fs: Seq<(Seq<char>, Json)>) -> bool {
    forall|i: int, j: int| 0 <= i < j < fs.len() ==> (#[trigger] fs[i]).0 != (#[trigger] fs[j]).0
}

/// How an object's own fields break the convention, if they do: its field
/// names must be distinct; an object with an `id` must have a `__typename`,
/// that must be a string, and the `id` must be a string too; the first of
/// these that fails is the offence.
pub open spec fn tag_offence(fs: Seq<(Seq<char>, Json)>) -> Option<Offence> {
    if !distinct_names(fs) {
        Some(Offence::DuplicateFieldName)
    } else {
        id_offence(fs)
    }
}

/// How an object with distinct field names breaks the identity convention.
pub open spec fn id_offence(fs: Seq<(Seq<char>, Json)>) -> Option<Offence> {
    match field_of(fs, id_name()) {
        None => None,
        Some(id) => match field_of(fs, typename_name()) {
            None => Some(Offence::MissingTypeDiscriminator),
            Some(Json::Str(_)) => if id is Str {
                None
            } else {
                Some(Offence::IdNotString)
            },
            Some(_) => Some(Offence::TypeDiscriminatorNotString),
        },
    }
}

/// An object's identity field and type discriminator agree with the
/// convention.
pub open spec fn tag_ok(fs: Seq<(Seq<char>, Json)>) -> bool {
    tag_offence(fs) is None
}

/// Every object of the tree, outside metadata fields, follows the convention.
pub open spec fn valid(v: Json) -> bool
    decreases v,
{
    match v {
        Json::Object(fs) => tag_ok(fs) && forall|i: int|
            0 <= i < fs.len() && !is_meta((#[trigger] fs[i]).0) ==> valid(fs[i].1),
        Json::Array(a) => forall|i: int| 0 <= i < a.len() ==> valid(#[trigger] a[i]),
        _ => true,
    }
}

/// A value that may enter the cache: a valid tree whose root is an object or a list.
pub open spec fn is_document(v: Json) -> bool {
    (v is Object || v is Array) && valid(v)
}

/// One step of a path from a document's root.
#[derive(Debug, PartialEq, Eq)]
pub enum PathSegment {
    Field(String),
    Index(usize),
}

/// Why a raw value was refused. Each variant carries the path from the
/// root to the offending value, and a copy of that value.
#[derive(Debug, PartialEq)]
pub enum DataValidationError {
    DuplicateFieldName(Vec<PathSegment>, JsonValue),
    MissingTypeDiscriminator(Vec<PathSegment>, JsonValue),
    TypeDiscriminatorNotString(Vec<PathSegment>, JsonValue),
    IdNotString(Vec<PathSegment>, JsonValue),
    InvalidRootShape(Vec<PathSegment>, JsonValue),
}

/// What each validation error says of the value it carries.
pub open spec fn error_fits(e: DataValidationError) -> bool {
    match e {
        DataValidationError::InvalidRootShape(_, o) => !(o@ is Object || o@ is Array),
        _ => match error_report(e) {
            Some((_, Json::Object(fs), k)) => tag_offence(fs) == Some(k),
            _ => false,
        },
    }
}

/// The path, object and offence that an error on an object reports.
pub open spec fn error_report(e: DataValidationError) -> Option<(Seq<PathStep>, Json, Offence)> {
    match e {
        DataValidationError::DuplicateFieldName(p, o) => Some(
            (path_view(p@), o@, Offence::DuplicateFieldName),
        ),
        DataValidationError::MissingTypeDiscriminator(p, o) => Some(
            (path_view(p@), o@, Offence::MissingTypeDiscriminator),
        ),
        DataValidationError::TypeDiscriminatorNotString(p, o) => Some(
            (path_view(p@), o@, Offence::TypeDiscriminatorNotString),
        ),
        DataValidationError::IdNotString(p, o) => Some((path_view(p@), o@, Offence::IdNotString)),
        DataValidationError::InvalidRootShape(_, _) => None,
    }
}

/// The first offending object under `v` in pre-order (an object's own
/// fields before the values inside it, fields and elements in order,
/// metadata fields skipped), with its path, `p` being the path of `v`.
pub open spec fn first_offence(v: Json, p: Seq<PathStep>) -> Option<(Seq<PathStep>, Json, Offence)>
    decreases v,
{
    match v {
        Json::Object(fs) => match tag_offence(fs) {
            Some(k) => Some((p, v, k)),
            None => first_in_fields(fs, p),
        },
        Json::Array(a) => first_in_items(a, p),
        _ => None,
    }
}

/// The first offending object among the elements of a list at path `p`.
pub open spec fn first_in_items(a: Seq<Json>, p: Seq<PathStep>) -> Option<
    (Seq<PathStep>, Json, Offence),
>
    decreases a,
{
    if a.len() == 0 {
        None
    } else {
        let n = a.len() - 1;
        match first_in_items(a.subrange(0, n), p) {
            Some(x) => Some(x),
            None => first_offence(a[n], p.push(PathStep::Index(n as nat))),
        }
    }
}

/// The first offending object among the values of the fields (metadata
/// fields skipped) of an object at path `p`.
pub open spec fn first_in_fields(fs: Seq<(Seq<char>, Json)>, p: Seq<PathStep>) -> Option<
    (Seq<PathStep>, Json, Offence),
>
    decreases fs,
{
    if fs.len() == 0 {
        None
    } else {
        let n = fs.len() - 1;
        match first_in_fields(fs.subrange(0, n), p) {
            Some(x) => Some(x),
            None => if is_meta(fs[n].0) {
                None
            } else {
                first_offence(fs[n].1, p.push(PathStep::Field(fs[n].0)))
            },
        }
    }
}

proof fn lemma_first_in_items_prefix(a: Seq<Json>, p: Seq<PathStep>, n: int)
    requires
        0 <= n <= a.len(),
        first_in_items(a.subrange(0, n), p) is Some,
    ensures
        first_in_items(a, p) == first_in_items(a.subrange(0, n), p),
    decreases a.len() - n,
{
    if n < a.len() {
        let t = a.subrange(0, n + 1);
        assert(t.subrange(0, n) =~= a.subrange(0, n));
        lemma_first_in_items_prefix(a, p, n + 1);
    } else {
        assert(a.subrange(0, n) =~= a);
    }
}

proof fn lemma_first_in_fields_prefix(fs: Seq<(Seq<char>, Json)>, p: Seq<PathStep>, n: int)
    requires
        0 <= n <= fs.len(),
        first_in_fields(fs.subrange(0, n), p) is Some,
    ensures
        first_in_fields(fs, p) == first_in_fields(fs.subrange(0, n), p),
    decreases fs.len() - n,
{
    if n < fs.len() {
        let t = fs.subrange(0, n + 1);
        assert(t.subrange(0, n) =~= fs.subrange(0, n));
        lemma_first_in_fields_prefix(fs, p, n + 1);
    } else {
        assert(fs.subrange(0, n) =~= fs);
    }
}

/// The name `id` as a string.
pub fn id_field() -> (r: String)
    ensures
        r@ == id_name(),
{
    proof {
        reveal_strlit("id");
    }
    String::from_str(Key::field_name())
}

/// The name `__typename` as a string.
pub fn typename_field() -> (r: String)
    ensures
        r@ == typename_name(),
{
    proof {
        reveal_strlit("__typename");
    }
    String::from_str("__typename")
}

/// The model of a path step.
pub enum PathStep {
    Field(Seq<char>),
    Index(nat),
}

/// The model of a path segment.
pub open spec fn step_view(x: PathSegment) -> PathStep {
    match x {
        PathSegment::Field(n) => PathStep::Field(n@),
        PathSegment::Index(i) => PathStep::Index(i as nat),
    }
}

/// The model of a path.
pub open spec fn path_view(p: Seq<PathSegment>) -> Seq<PathStep> {
    p.map_values(|x: PathSegment| step_view(x))
}

/// `o` is what one step from `m` reaches: a field of that name, or the
/// element at that index.
pub open spec fn step(m: Json, s: PathStep, o: Json) -> bool {
    match (m, s) {
        (Json::Object(fs), PathStep::Field(name)) => exists|i: int|
            0 <= i < fs.len() && (#[trigger] fs[i]).0 == name && fs[i].1 == o,
        (Json::Array(a), PathStep::Index(i)) => i < a.len() && a[i as int] == o,
        _ => false,
    }
}

/// `o` stands at path `p` from `root`.
pub open spec fn at_path(root: Json, p: Seq<PathStep>, o: Json) -> bool
    decreases p.len(),
{
    if p.len() == 0 {
        o == root
    } else {
        exists|m: Json| at_path(root, p.drop_last(), m) && #[trigger] step(m, p.last(), o)
    }
}

fn copy_segment(s: &PathSegment) -> (r: PathSegment)
    ensures
        step_view(r) == step_view(*s),
{
    match s {
        PathSegment::Field(n) => PathSegment::Field(n.clone()),
        PathSegment::Index(i) => PathSegment::Index(*i),
    }
}

fn extend_path(path: &Vec<PathSegment>, seg: PathSegment) -> (r: Vec<PathSegment>)
    ensures
        path_view(r@) == path_view(path@).push(step_view(seg)),
{
    let mut p = copy_path(path);
    proof {
        assert(path_view(p@.push(seg)) =~= path_view(p@).push(step_view(seg)));
    }
    p.push(seg);
    p
}

fn copy_path(path: &Vec<PathSegment>) -> (r: Vec<PathSegment>)
    ensures
        path_view(r@) == path_view(path@),
{
    let mut p: Vec<PathSegment> = Vec::new();
    let mut i: usize = 0;
    while i < path.len()
        invariant
            0 <= i <= path.len(),
            p.len() == i,
            path_view(p@) == path_view(path@.subrange(0, i as int)),
        decreases path.len() - i,
    {
        let c = copy_segment(&path[i]);
        proof {
            assert forall|j: int| 0 <= j < i implies path_view(p@.push(c))[j] == path_view(
                path@.subrange(0, i + 1),
            )[j] by {
                assert(path_view(p@)[j] == path_view(path@.subrange(0, i as int))[j]);
            }
            assert(path_view(p@.push(c)) =~= path_view(path@.subrange(0, i + 1)));
        }
        p.push(c);
        i = i + 1;
    }
    proof {
        assert(path@.subrange(0, path.len() as int) =~= path@);
    }
    p
}

/// The path and the value that a validation error names.
pub open spec fn error_site(e: DataValidationError) -> (Seq<PathStep>, Json) {
    match e {
        DataValidationError::MissingTypeDiscriminator(p, o) => (path_view(p@), o@),
        DataValidationError::TypeDiscriminatorNotString(p, o) => (path_view(p@), o@),
        DataValidationError::IdNotString(p, o) => (path_view(p@), o@),
        DataValidationError::DuplicateFieldName(p, o) => (path_view(p@), o@),
        DataValidationError::InvalidRootShape(p, o) => (path_view(p@), o@),
    }
}

/// Tells whether two fields of an object have the same name.
fn has_duplicate_names(fs: &Vec<(String, JsonValue)>) -> (r: bool)
    ensures
        r == !distinct_names(view_fields(fs@)),
{
    let ghost fsv = view_fields(fs@);
    proof {
        lemma_view_fields(fs@);
    }
    let mut j: usize = 0;
    while j < fs.len()
        invariant
            0 <= j <= fs.len(),
            fsv == view_fields(fs@),
            fsv.len() == fs.len(),
            forall|k: int| 0 <= k < fs.len() ==> #[trigger] fsv[k] == (fs@[k].0@, fs@[k].1@),
            forall|a: int, b: int| 0 <= a < b < j ==> (#[trigger] fsv[a]).0 != (#[trigger] fsv[b]).0,
        decreases fs.len() - j,
    {
        let mut i: usize = 0;
        while i < j
            invariant
                0 <= i <= j < fs.len(),
                fsv == view_fields(fs@),
                fsv.len() == fs.len(),
                forall|k: int| 0 <= k < fs.len() ==> #[trigger] fsv[k] == (fs@[k].0@, fs@[k].1@),
                forall|a: int| 0 <= a < i ==> (#[trigger] fsv[a]).0 != fsv[j as int].0,
            decreases j - i,
        {
            if fs[i].0 == fs[j].0 {
                proof {
                    assert(fsv[i as int].0 == fsv[j as int].0);
                }
                return true;
            }
            i = i + 1;
        }
        j = j + 1;
    }
    false
}

/// Checks that every object of the tree under `v` follows the identity convention.
fn validate_value(v: &JsonValue, path: &Vec<PathSegment>, Ghost(root): Ghost<Json>) -> (r: Result<
    (),
    DataValidationError,
>)
    requires
        at_path(root, path_view(path@), v@),
    ensures
        r is Ok <==> valid(v@),
        r matches Err(e) ==> error_fits(e) && !(e is InvalidRootShape) && at_path(
            root,
            error_site(e).0,
            error_site(e).1,
        ),
        r is Ok ==> first_offence(v@, path_view(path@)) is None,
        r matches Err(e) ==> error_report(e) == first_offence(v@, path_view(path@)),
    decreases v@,
{
    broadcast use group_view_lemmas;


    match v {
        JsonValue::Object(fs) => {
            if has_duplicate_names(fs) {
                return Err(DataValidationError::DuplicateFieldName(copy_path(path), copy_value(v)));
            }
            let idn = id_field();
            let tn = typename_field();
            if let Some(idv) = find_field(fs, &idn) {
                match find_field(fs, &tn) {
                    None => {
                        return Err(
                            DataValidationError::MissingTypeDiscriminator(
                                copy_path(path),
                                copy_value(v),
                            ),
                        );
                    },
                    Some(JsonValue::String(_)) => {
                        if !matches!(idv, JsonValue::String(_)) {
                            return Err(
                                DataValidationError::IdNotString(copy_path(path), copy_value(v)),
                            );
                        }
                    },
                    Some(_) => {
                        return Err(
                            DataValidationError::TypeDiscriminatorNotString(
                                copy_path(path),
                                copy_value(v),
                            ),
                        );
                    },
                }
            }
            let ghost fsv = view_fields(fs@);
            proof {
                lemma_view_fields(fs@);
            }
            let mut i: usize = 0;
            while i < fs.len()
                invariant
                    0 <= i <= fs.len(),
                    v@ == Json::Object(fsv),
                    at_path(root, path_view(path@), v@),
                    fsv == view_fields(fs@),
                    fsv.len() == fs.len(),
                    forall|j: int| 0 <= j < fs.len() ==> #[trigger] fsv[j] == (fs@[j].0@, fs@[j].1@),
                    tag_ok(fsv),
                    forall|j: int| 0 <= j < i && !is_meta(fsv[j].0) ==> #[trigger] valid(fsv[j].1),
                    first_in_fields(fsv.subrange(0, i as int), path_view(path@)) is None,
                decreases fs.len() - i,
            {
                let ghost t = fsv.subrange(0, i + 1);
                proof {
                    assert(t.subrange(0, i as int) =~= fsv.subrange(0, i as int));
                    assert(t[i as int] == fsv[i as int]);
                }
                if !is_meta_name(&fs[i].0) {
                    proof {
                        assert(fsv[i as int] == (fs@[i as int].0@, fs@[i as int].1@));
                        assert(decreases_to!(v@ => v@->Object_0));
                        assert(decreases_to!(fsv => fsv[i as int]));
                        assert(decreases_to!(fsv[i as int] => fsv[i as int].1));
                    }
                    let sub = extend_path(path, PathSegment::Field(fs[i].0.clone()));
                    proof {
                        let sp = path_view(sub@);
                        assert(sp.drop_last() =~= path_view(path@));
                        assert(step(v@, sp.last(), fs@[i as int].1@));
                        assert(at_path(root, sp.drop_last(), v@));
                        assert(sp.len() > 0);
                        assert(at_path(root, sp, fs@[i as int].1@));
                    }
                    match validate_value(&fs[i].1, &sub, Ghost(root)) {
                        Ok(()) => {},
                        Err(e) => {
                            assert(!valid(fsv[i as int].1));
                            assert(!is_meta(fsv[i as int].0));
                            assert(!valid(Json::Object(fsv)));
                            proof {
                                assert(path_view(sub@) == path_view(path@).push(
                                    PathStep::Field(fsv[i as int].0),
                                ));
                                lemma_first_in_fields_prefix(fsv, path_view(path@), i + 1);
                            }
                            return Err(e);
                        },
                    }
                }
                i = i + 1;
            }
            assert forall|j: int| 0 <= j < fsv.len() && !is_meta(#[trigger] fsv[j].0) implies valid(
                fsv[j].1,
            ) by {}
            assert(valid(Json::Object(fsv)));
            proof {
                assert(fsv.subrange(0, fs.len() as int) =~= fsv);
            }
            Ok(())
        },
        JsonValue::Array(a) => {
            let ghost av = view_items(a@);
            proof {
                lemma_view_items(a@);
            }
            let mut i: usize = 0;
            while i < a.len()
                invariant
                    0 <= i <= a.len(),
                    v@ == Json::Array(av),
                    at_path(root, path_view(path@), v@),
                    av == view_items(a@),
                    av.len() == a.len(),
                    forall|j: int| 0 <= j < a.len() ==> #[trigger] av[j] == a@[j]@,
                    forall|j: int| 0 <= j < i ==> #[trigger] valid(av[j]),
                    first_in_items(av.subrange(0, i as int), path_view(path@)) is None,
                decreases a.len() - i,
            {
                let ghost t = av.subrange(0, i + 1);
                proof {
                    assert(t.subrange(0, i as int) =~= av.subrange(0, i as int));
                    assert(t[i as int] == av[i as int]);
                }
                proof {
                    assert(av[i as int] == a@[i as int]@);
                    assert(decreases_to!(v@ => v@->Array_0));
                    assert(decreases_to!(av => av[i as int]));
                }
                let sub = extend_path(path, PathSegment::Index(i));
                proof {
                    let sp = path_view(sub@);
                    assert(sp.drop_last() =~= path_view(path@));
                    assert(step(v@, sp.last(), a@[i as int]@));
                    assert(at_path(root, sp.drop_last(), v@));
                    assert(sp.len() > 0);
                    assert(at_path(root, sp, a@[i as int]@));
                }
                match validate_value(&a[i], &sub, Ghost(root)) {
                    Ok(()) => {},
                    Err(e) => {
                        assert(!valid(av[i as int]));
                        assert(!valid(Json::Array(av)));
                        proof {
                            assert(path_view(sub@) == path_view(path@).push(
                                PathStep::Index(i as nat),
                            ));
                            lemma_first_in_items_prefix(av, path_view(path@), i + 1);
                        }
                        return Err(e);
                    },
                }
                i = i + 1;
            }
            assert forall|j: int| 0 <= j < av.len() implies valid(#[trigger] av[j]) by {}
            assert(valid(Json::Array(av)));
            proof {
                assert(av.subrange(0, a.len() as int) =~= av);
            }
            Ok(())
        },
        _ => Ok(()),
    }
}

/// A validated document: a tree whose root is an object or a list and whose
/// objects all follow the identity convention.
#[derive(Debug, PartialEq)]
pub struct Data(JsonValue);

impl View for Data {
    type V = Json;

    closed spec fn view(&self) -> Json {
        self.0@
    }
}

impl Data {
    #[verifier::type_invariant]
    spec fn inv(&self) -> bool {
        is_document(self.0@)
    }

    /// Validates a raw value. The root must be an object or a list, and
    /// every object in it must have distinct field names and, if it has an
    /// `id`, a string `__typename` and a string `id`. The error names the first offending object in
    /// pre-order, with its path from the root.
    pub fn new(value: JsonValue) -> (r: Result<Data, DataValidationError>)
        ensures
            r is Ok <==> is_document(value@),
            r matches Ok(d) ==> d@ == value@,
            r matches Err(e) ==> error_fits(e) && at_path(value@, error_site(e).0, error_site(e).1),
            r matches Err(e) ==> (e is InvalidRootShape || error_report(e) == first_offence(
                value@,
                Seq::empty(),
            )),
            r matches Err(DataValidationError::InvalidRootShape(_, _)) <==> !(value@ is Object
                || value@ is Array),
    {
        let root: Vec<PathSegment> = Vec::new();
        match &value {
            JsonValue::Object(_) => {},
            JsonValue::Array(_) => {},
            _ => {
                let copy = copy_value(&value);
                proof {
                    assert(path_view(root@) =~= Seq::<PathStep>::empty());
                }
                return Err(DataValidationError::InvalidRootShape(root, copy));
            },
        }
        proof {
            assert(path_view(root@) =~= Seq::<PathStep>::empty());
        }
        match validate_value(&value, &root, Ghost(value@)) {
            Ok(()) => Ok(Data(value)),
            Err(e) => {
                Err(e)
            },
        }
    }

    /// The document's value.
    pub fn value(&self) -> (r: &JsonValue)
        ensures
            r@ == self@,
            is_document(self@),
    {
        proof {
            use_type_invariant(self);
        }
        &self.0
    }
}

} // verus!
