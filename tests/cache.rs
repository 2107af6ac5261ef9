use discovery_core::cache::{CacheError, InMemoryCache};
use discovery_core::client::{request_key, CacheWrap, DiscoveryClientBuilder};
use discovery_core::key::{Key, KeyParseError};
use discovery_core::normalize::NormalizedData;
use discovery_core::validate::{Data, DataValidationError, PathSegment};
use discovery_core::value::{copy_value, JsonValue};

fn st(x: &str) -> JsonValue {
    JsonValue::String(x.to_string())
}

fn obj(fields: Vec<(&str, JsonValue)>) -> JsonValue {
    JsonValue::Object(fields.into_iter().map(|(k, v)| (k.to_string(), v)).collect())
}

fn entity(typename: &str, id: &str, mut rest: Vec<(&str, JsonValue)>) -> JsonValue {
    let mut fields = vec![("__typename", st(typename)), ("id", st(id))];
    fields.append(&mut rest);
    obj(fields)
}

fn tatooine() -> JsonValue {
    entity("Planet", "cGxhbmV0czox", vec![("name", st("Tatooine"))])
}

fn test_data1() -> JsonValue {
    obj(vec![(
        "person",
        entity(
            "Person",
            "cGVvcGxlOjE=",
            vec![("name", st("Luke Skywalker")), ("homeworld", tatooine())],
        ),
    )])
}

fn test_data2() -> JsonValue {
    JsonValue::Array(vec![
        entity(
            "Person",
            "cGVvcGxlOjE=",
            vec![("name", st("Luke Skywalker")), ("homeworld", tatooine())],
        ),
        entity("Person", "aaabbb", vec![("name", st("Jedi")), ("homeworld", tatooine())]),
    ])
}

fn test_data3() -> JsonValue {
    obj(vec![(
        "person",
        entity(
            "Person",
            "cGVvcGxlOjE=",
            vec![
                ("name", st("Luke Skywalker")),
                (
                    "homeworlds",
                    JsonValue::Array(vec![
                        tatooine(),
                        entity("Planet", "AAA", vec![("name", st("Tatooine2"))]),
                    ]),
                ),
            ],
        ),
    )])
}

fn test_data4() -> JsonValue {
    let names = [
        ("cGVvcGxlOjE=", "Luke Skywalker"),
        ("cGVvcGxlOjI=", "C-3PO"),
        ("cGVvcGxlOjM=", "R2-D2"),
        ("cGVvcGxlOjQ=", "Darth Vader"),
        ("cGVvcGxlOjU=", "Leia Organa"),
        ("cGVvcGxlOjY=", "Owen Lars"),
        ("cGVvcGxlOjc=", "Beru Whitesun lars"),
    ];
    let edges = names
        .iter()
        .map(|(id, name)| {
            obj(vec![(
                "node",
                obj(vec![("id", st(id)), ("__typename", st("Person")), ("name", st(name))]),
            )])
        })
        .collect();
    obj(vec![("allPeople", obj(vec![("edges", JsonValue::Array(edges))]))])
}

fn key(t: &str, id: &str) -> Key {
    Key::new(t.to_string(), id.to_string())
}

fn stored(doc: JsonValue) -> InMemoryCache {
    let mut cache = InMemoryCache::new();
    cache
        .store_result_data(&"test".to_string(), Data::new(doc).unwrap())
        .unwrap();
    cache
}

#[test]
fn normalize_counts_person_and_planet() {
    assert_eq!(stored(test_data1()).identity_count(), 2);
}

#[test]
fn normalize_counts_shared_planet_once() {
    assert_eq!(stored(test_data2()).identity_count(), 3);
}

#[test]
fn normalize_counts_planets_in_list() {
    assert_eq!(stored(test_data3()).identity_count(), 3);
}

#[test]
fn normalize_counts_nested_edges() {
    assert_eq!(stored(test_data4()).identity_count(), 7);
}

#[test]
fn normalize_and_denormalize_object() {
    let cache = stored(test_data1());
    assert_eq!(cache.get_result_data(&"test".to_string()).unwrap(), test_data1());
}

#[test]
fn normalize_and_denormalize_list() {
    let cache = stored(test_data2());
    assert_eq!(cache.get_result_data(&"test".to_string()).unwrap(), test_data2());
}

#[test]
fn normalize_and_denormalize_nested_list() {
    let cache = stored(test_data3());
    assert_eq!(cache.get_result_data(&"test".to_string()).unwrap(), test_data3());
}

#[test]
fn identity_cache_miss() {
    for doc in [test_data1(), test_data2(), test_data3()] {
        let mut cache = stored(doc);
        cache.clear_identities();
        let result = cache.get_result_data(&"test".to_string());
        assert!(matches!(result, Err(CacheError::IdentityKeyNotFound(_))));
    }
}

#[test]
fn result_cache_miss() {
    for doc in [test_data1(), test_data2(), test_data3()] {
        let mut cache = stored(doc);
        cache.clear_results();
        let result = cache.get_result_data(&"test".to_string());
        assert!(matches!(result, Err(CacheError::ResultKeyNotFound(_))));
    }
}

#[test]
fn person_with_homeworld() {
    let doc = obj(vec![(
        "person",
        entity(
            "Person",
            "1",
            vec![
                ("name", st("Luke")),
                ("homeworld", entity("Planet", "10", vec![("name", st("Tatooine"))])),
            ],
        ),
    )]);
    let mut cache = InMemoryCache::new();
    cache
        .store_result_data(&"q1".to_string(), Data::new(copy_value(&doc)).unwrap())
        .unwrap();
    assert_eq!(cache.identity_count(), 2);
    assert!(cache.get_identity_data(&key("Person", "1")).is_ok());
    assert!(cache.get_identity_data(&key("Planet", "10")).is_ok());
    assert_eq!(cache.get_result_data(&"q1".to_string()).unwrap(), doc);
    let person = cache.get_identity_data(&key("Person", "1")).unwrap();
    match person {
        JsonValue::Object(fields) => {
            assert!(fields.contains(&("__typename".to_string(), st("Person"))));
        }
        _ => panic!("expected an object"),
    }
}

#[test]
fn two_people_share_one_planet() {
    let planet = || entity("Planet", "10", vec![("name", st("Tatooine"))]);
    let doc = JsonValue::Array(vec![
        entity("Person", "1", vec![("homeworld", planet())]),
        entity("Person", "2", vec![("homeworld", planet())]),
    ]);
    let cache = stored(doc);
    assert_eq!(cache.identity_count(), 3);
}

#[test]
fn storing_twice_keeps_count() {
    let mut cache = stored(test_data2());
    cache
        .store_result_data(&"test".to_string(), Data::new(test_data2()).unwrap())
        .unwrap();
    assert_eq!(cache.identity_count(), 3);
    assert_eq!(cache.result_count(), 1);
}

#[test]
fn shared_entity_converges() {
    let mut cache = stored(test_data1());
    let other = obj(vec![(
        "planet",
        entity("Planet", "cGxhbmV0czox", vec![("name", st("Tatooine, again"))]),
    )]);
    cache
        .store_result_data(&"other".to_string(), Data::new(other).unwrap())
        .unwrap();
    assert_eq!(cache.identity_count(), 2);
    let planet = cache.get_identity_data(&key("Planet", "cGxhbmV0czox")).unwrap();
    assert_eq!(
        planet,
        entity("Planet", "cGxhbmV0czox", vec![("name", st("Tatooine, again"))])
    );
}

#[test]
fn missing_typename_is_refused_before_storing() {
    let doc = obj(vec![("person", obj(vec![("id", st("1")), ("name", st("Luke"))]))]);
    let mut cache = InMemoryCache::new();
    let r = cache.store_document(&"q".to_string(), doc);
    match r {
        Err(DataValidationError::MissingTypeDiscriminator(path, _)) => {
            assert_eq!(path, vec![PathSegment::Field("person".to_string())]);
        }
        _ => panic!("expected a missing type discriminator"),
    }
    assert_eq!(cache.identity_count(), 0);
    assert_eq!(cache.result_count(), 0);
}

#[test]
fn typename_must_be_a_string() {
    let doc = JsonValue::Array(vec![obj(vec![
        ("__typename", JsonValue::Bool(true)),
        ("id", st("1")),
    ])]);
    let r = Data::new(doc);
    match r {
        Err(DataValidationError::TypeDiscriminatorNotString(path, _)) => {
            assert_eq!(path, vec![PathSegment::Index(0)]);
        }
        _ => panic!("expected a type discriminator that is not a string"),
    }
}

#[test]
fn scalar_root_is_refused() {
    let r = Data::new(JsonValue::Number("3".to_string()));
    assert!(matches!(r, Err(DataValidationError::InvalidRootShape(_, _))));
}

#[test]
fn metadata_fields_are_not_validated() {
    let doc = obj(vec![("__meta", obj(vec![("id", st("1"))]))]);
    assert!(Data::new(doc).is_ok());
}

#[test]
fn key_text_form() {
    let k = key("Person", "1");
    assert_eq!(k.to_text(), "Person:1");
    let back = Key::from_text("Person:1").unwrap();
    assert_eq!(back, k);
    assert_eq!(back.typename(), "Person");
    assert_eq!(back.id(), "1");
    assert_eq!(Key::field_name(), "id");
}

#[test]
fn key_text_needs_one_separator() {
    assert_eq!(
        Key::from_text("a:b:c"),
        Err(KeyParseError::MalformedKeyText("a:b:c".to_string()))
    );
    assert_eq!(
        Key::from_text("abc"),
        Err(KeyParseError::MalformedKeyText("abc".to_string()))
    );
}

#[test]
fn identify_fragment() {
    let cache = InMemoryCache::new();
    let d = Data::new(entity("Person", "1", vec![])).unwrap();
    assert_eq!(cache.identify(&d).unwrap(), key("Person", "1"));
    let plain = Data::new(obj(vec![("name", st("x"))])).unwrap();
    assert!(matches!(cache.identify(&plain), Err(CacheError::NotIdentifiable)));
}

#[test]
fn reference_marker_in_normal_form() {
    let mut cache = InMemoryCache::new();
    let n = cache
        .store_result_data(&"q".to_string(), Data::new(test_data1()).unwrap())
        .unwrap();
    let marker = obj(vec![("__ref", st("Person:cGVvcGxlOjE="))]);
    assert_eq!(n, NormalizedData::Object(vec![("person".to_string(), marker)]));
}

#[test]
fn inline_object_is_not_a_reference() {
    let doc = obj(vec![("stats", obj(vec![("count", JsonValue::Number("2".to_string()))]))]);
    let cache = stored(doc);
    assert_eq!(cache.identity_count(), 0);
    let r = cache.get_result_data(&"test".to_string());
    assert!(matches!(r, Err(CacheError::ExpectedReference(_))));
}

#[test]
fn cyclic_records_fail() {
    let mut cache = InMemoryCache::new();
    let a = NormalizedData::Object(vec![(
        "next".to_string(),
        obj(vec![("__ref", st("Node:b"))]),
    )]);
    let b = NormalizedData::Object(vec![(
        "next".to_string(),
        obj(vec![("__ref", st("Node:a"))]),
    )]);
    cache.store_identity_data(&key("Node", "a"), a).unwrap();
    cache.store_identity_data(&key("Node", "b"), b).unwrap();
    let r = cache.get_identity_data(&key("Node", "a"));
    assert!(matches!(r, Err(CacheError::CyclicReference(_))));
}

#[test]
fn unknown_identity_misses() {
    let cache = InMemoryCache::new();
    let r = cache.get_identity_data(&key("Person", "9"));
    assert!(matches!(r, Err(CacheError::IdentityKeyNotFound(_))));
}

#[test]
fn request_key_of_empty_body() {
    assert_eq!(request_key(&Vec::new()), "2jmj7l5rSw0yVb/vlWAYkK/YBwk=");
    assert_eq!(request_key(&b"query".to_vec()).len(), 28);
}

#[test]
fn builder_keeps_settings() {
    let b: DiscoveryClientBuilder<InMemoryCache> = DiscoveryClientBuilder::new()
        .uri("http://localhost/graphql".to_string())
        .authorization("Bearer t".to_string())
        .cache(CacheWrap::new(InMemoryCache::new()));
    let (uri, auth, cache) = b.into_parts();
    assert_eq!(uri, Some("http://localhost/graphql".to_string()));
    assert_eq!(auth, Some("Bearer t".to_string()));
    let cache = cache.unwrap();
    assert_eq!(cache.inner().borrow().identity_count(), 0);
}

#[test]
fn id_must_be_a_string() {
    let doc = obj(vec![(
        "thing",
        obj(vec![("__typename", st("T")), ("id", JsonValue::Number("5".to_string()))]),
    )]);
    match Data::new(doc) {
        Err(DataValidationError::IdNotString(path, _)) => {
            assert_eq!(path, vec![PathSegment::Field("thing".to_string())]);
        }
        _ => panic!("expected an id that is not a string"),
    }
}

#[test]
fn first_offender_in_pre_order_is_reported() {
    let inner = obj(vec![("id", st("2"))]);
    let outer = obj(vec![("id", st("1")), ("child", inner)]);
    let later = obj(vec![("__typename", JsonValue::Null), ("id", st("3"))]);
    let doc = JsonValue::Array(vec![
        obj(vec![("name", st("fine"))]),
        outer,
        later,
    ]);
    match Data::new(doc) {
        Err(DataValidationError::MissingTypeDiscriminator(path, o)) => {
            assert_eq!(path, vec![PathSegment::Index(1)]);
            assert_eq!(o, obj(vec![("id", st("1")), ("child", obj(vec![("id", st("2"))]))]));
        }
        _ => panic!("expected the outer object to be reported"),
    }
}

#[test]
fn duplicate_field_names_are_refused() {
    let doc = obj(vec![("a", st("1")), ("b", st("2")), ("a", st("3"))]);
    match Data::new(doc) {
        Err(DataValidationError::DuplicateFieldName(path, _)) => assert!(path.is_empty()),
        _ => panic!("expected duplicate field names to be refused"),
    }
}
