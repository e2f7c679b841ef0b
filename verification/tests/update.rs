use anonit::config::{Config, ProducerEntry};
use anonit::data::json::{json_update_data, json_walk_leaves, Json, JsonMember, JsonWalkIter, UpdateError};
use anonit::data::key::PathKey;
use anonit::data::mapping::{JsonMapping, OutputMapping};
use anonit::data::value::{DataValue, DataValueNumber, DataValueRef};
use anonit::data::UpdateStructureData;
use anonit::fake::wordlist::{WordlistCache, WordlistFakeData};
use anonit::fake::{FakeDataError, FakeDataProducer, FakeDataProducerData};
use anonit::json::{
    build_json_structure, deduplicate_json_structure, update_json_structure, walk_json_field,
    walk_json_field_update, JsonPathItem, JsonValue, UpdateJsonData,
};
use anonit::process_json_file;
use fake::rand::SeedableRng as _;
use rand::SeedableRng as _;
use std::cell::Cell;
use std::sync::Arc;

fn key(text: &str) -> Arc<PathKey> {
    Arc::new(text.parse::<PathKey>().unwrap())
}

fn text(s: &str) -> Json {
    Json::String(s.to_string())
}

fn object(members: Vec<(&str, Json)>) -> Json {
    Json::Object(
        members
            .into_iter()
            .map(|(key, value)| JsonMember {
                key: key.to_string(),
                value,
            })
            .collect(),
    )
}

fn producer_data() -> FakeDataProducerData {
    FakeDataProducerData {
        rng: fake::rand::rngs::StdRng::seed_from_u64(3),
        rng_08: rand::rngs::StdRng::seed_from_u64(3),
        wordlists: WordlistCache::new(),
    }
}

/// Numbers each value it is asked for: "v0", "v1", ...; or gives the
/// configured outcome.
enum Counter {
    Names(Cell<usize>),
    Fail,
    BadNumber,
}

impl FakeDataProducer for Counter {
    fn produce_fake(
        &self,
        _original_value: DataValueRef<'_>,
        _data: &mut FakeDataProducerData,
    ) -> Result<DataValue, FakeDataError> {
        match self {
            Counter::Names(next) => {
                let n = next.get();
                next.set(n + 1);
                Ok(DataValue::String(format!("v{n}")))
            }
            Counter::Fail => Err(FakeDataError::Other("no value".to_string())),
            Counter::BadNumber => Ok(DataValue::Number(DataValueNumber::new("1.2.3".to_string()))),
        }
    }

    fn is_allowed_output(&self) -> bool {
        true
    }
}

fn config_with_default(p: Counter) -> Config<Counter> {
    let mut config = Config::default();
    config.default = Some(p);
    config
}

fn data(config: Config<Counter>) -> UpdateStructureData<Counter> {
    UpdateStructureData {
        config,
        mapping: JsonMapping::new(),
        output_mapping: OutputMapping::new(),
    }
}

/// Null values are kept when the configuration says so, and replaced
/// otherwise.
#[test]
fn test_update_maintains_null() {
    let doc = object(vec![("a", Json::Null), ("b", text("x"))]);
    let mut d = data(config_with_default(Counter::Names(Cell::new(0))));
    let out = process_json_file(doc.deep_clone(), &mut d, &mut producer_data()).unwrap();
    assert_eq!(out, object(vec![("a", Json::Null), ("b", text("v0"))]));

    let mut config = config_with_default(Counter::Names(Cell::new(0)));
    config.maintain_null = false;
    let mut d = data(config);
    let out = process_json_file(doc, &mut d, &mut producer_data()).unwrap();
    assert_eq!(out, object(vec![("a", text("v0")), ("b", text("v1"))]));
}

/// Without internal mapping, equal values get their own replacements.
#[test]
fn test_update_without_internal_mapping() {
    let doc = Json::Array(vec![text("same"), text("same")]);
    let mut config = config_with_default(Counter::Names(Cell::new(0)));
    config.internal_mapping = false;
    let mut d = data(config);
    let out = process_json_file(doc, &mut d, &mut producer_data()).unwrap();
    assert_eq!(out, Json::Array(vec![text("v0"), text("v1")]));
}

/// With internal mapping, equal values anywhere get one replacement, which
/// is kept in the mapping.
#[test]
fn test_update_internal_mapping_consistent() {
    let doc = object(vec![
        ("a", text("same")),
        ("b", Json::Array(vec![text("other"), text("same")])),
    ]);
    let mut d = data(config_with_default(Counter::Names(Cell::new(0))));
    let out = process_json_file(doc, &mut d, &mut producer_data()).unwrap();
    assert_eq!(
        out,
        object(vec![
            ("a", text("v0")),
            ("b", Json::Array(vec![text("v1"), text("v0")])),
        ])
    );
    assert_eq!(d.mapping.get(&text("same")), Some(&text("v0")));
}

/// Replacements given beforehand are used without asking any producer.
#[test]
fn test_update_uses_existing_mapping() {
    let doc = Json::Array(vec![text("known"), text("known")]);
    let mut d = data(Config::default());
    d.mapping.insert(text("known"), text("K"));
    let out = process_json_file(doc, &mut d, &mut producer_data()).unwrap();
    assert_eq!(out, Json::Array(vec![text("K"), text("K")]));
}

/// Replacements under paths listed as outputs are recorded.
#[test]
fn test_update_records_outputs() {
    let doc = object(vec![("id", text("a")), ("other", text("b"))]);
    let mut config = config_with_default(Counter::Names(Cell::new(0)));
    config.add_output(key("id"));
    let mut d = data(config);
    process_json_file(doc, &mut d, &mut producer_data()).unwrap();
    let recorded = d.output_mapping.get(&key("id")).unwrap();
    assert_eq!(recorded.get(&text("a")), Some(&text("v0")));
    assert!(d.output_mapping.get(&key("other")).is_none());
}

/// Leaves served from the given replacements, or kept as null, record
/// nothing, even under output paths, and leave the replacements as they were.
#[test]
fn test_update_mapped_leaves_record_nothing() {
    let doc = object(vec![("a", text("x")), ("b", Json::Null)]);
    let mut config = config_with_default(Counter::Names(Cell::new(0)));
    config.internal_mapping = false;
    config.add_output(key("a"));
    config.add_output(key("b"));
    let mut d = data(config);
    d.mapping.insert(text("x"), text("y"));
    d.mapping.insert(Json::Null, Json::Number("0".to_string()));
    let out = process_json_file(doc, &mut d, &mut producer_data()).unwrap();
    assert_eq!(out, object(vec![("a", text("y")), ("b", Json::Null)]));
    assert_eq!(d.mapping.entries().len(), 2);
    assert_eq!(d.mapping.get(&text("x")), Some(&text("y")));
    assert!(d.output_mapping.entries().is_empty());
}

/// Without internal mapping, the value recorded under an output path is the
/// last one produced for the same original value.
#[test]
fn test_update_records_last_value() {
    let doc = Json::Array(vec![text("a"), text("a")]);
    let mut config = config_with_default(Counter::Names(Cell::new(0)));
    config.internal_mapping = false;
    config.add_output(key("[index]"));
    let mut d = data(config);
    let out = process_json_file(doc, &mut d, &mut producer_data()).unwrap();
    assert_eq!(out, Json::Array(vec![text("v0"), text("v1")]));
    let recorded = d.output_mapping.get(&key("[index]")).unwrap();
    assert_eq!(recorded.get(&text("a")), Some(&text("v1")));
    assert_eq!(d.output_mapping.entries().len(), 1);
    assert!(d.mapping.entries().is_empty());
}

/// The producer of a path is preferred to the default producer.
#[test]
fn test_update_prefers_path_producer() {
    let doc = object(vec![("a", text("x")), ("b", text("y"))]);
    let mut config = config_with_default(Counter::Names(Cell::new(10)));
    config.mapping.push(ProducerEntry {
        key: key("a"),
        producer: Counter::Names(Cell::new(0)),
    });
    let mut d = data(config);
    let out = process_json_file(doc, &mut d, &mut producer_data()).unwrap();
    assert_eq!(out, object(vec![("a", text("v0")), ("b", text("v10"))]));
}

/// Each error of an update comes on its own input.
#[test]
fn test_update_errors() {
    let mut d = data(config_with_default(Counter::Names(Cell::new(0))));
    assert_eq!(
        process_json_file(text("x"), &mut d, &mut producer_data()),
        Err(UpdateError::RootNotContainer)
    );

    let mut d = data(Config::default());
    assert_eq!(
        process_json_file(Json::Array(vec![text("x")]), &mut d, &mut producer_data()),
        Err(UpdateError::MissingProducer)
    );

    let mut d = data(config_with_default(Counter::Fail));
    assert_eq!(
        process_json_file(Json::Array(vec![text("x")]), &mut d, &mut producer_data()),
        Err(UpdateError::Produce(FakeDataError::Other("no value".to_string())))
    );

    let mut d = data(config_with_default(Counter::BadNumber));
    assert_eq!(
        process_json_file(Json::Array(vec![text("x")]), &mut d, &mut producer_data()),
        Err(UpdateError::InvalidNumber)
    );
}

/// Updating in place changes the document itself.
#[test]
fn test_json_update_data_in_place() {
    let mut doc = Json::Array(vec![Json::Bool(true), Json::Number("5".to_string())]);
    let mut d = data(config_with_default(Counter::Names(Cell::new(0))));
    json_update_data(&mut doc, &mut d, &mut producer_data()).unwrap();
    assert_eq!(doc, Json::Array(vec![text("v0"), text("v1")]));
}

/// The structure walk gives every scalar with its path, and keeping the first of
/// each path gives one item per path.
#[test]
fn test_build_and_deduplicate_structure() {
    let doc = Json::Array(vec![
        object(vec![("id", text("a")), ("n", Json::Null)]),
        object(vec![("id", text("b"))]),
    ]);
    let mut items = build_json_structure(&doc).unwrap();
    assert_eq!(
        items,
        vec![
            JsonPathItem {
                path_key: key("[index].id"),
                value: JsonValue::String("a".to_string()),
            },
            JsonPathItem {
                path_key: key("[index].n"),
                value: JsonValue::Null,
            },
            JsonPathItem {
                path_key: key("[index].id"),
                value: JsonValue::String("b".to_string()),
            },
        ]
    );
    deduplicate_json_structure(&mut items);
    assert_eq!(items.len(), 2);
    assert_eq!(items[0].value, JsonValue::String("a".to_string()));
    assert_eq!(items[1].path_key, key("[index].n"));
    assert!(build_json_structure(&Json::Null).is_err());
}

/// Walking one field appends its scalars under its path.
#[test]
fn test_walk_json_field() {
    let mut out = Vec::new();
    walk_json_field(&Json::Bool(false), key("flag"), &mut out);
    walk_json_field(&object(vec![("x", Json::Number("1".to_string()))]), key("o"), &mut out);
    assert_eq!(
        out,
        vec![
            JsonPathItem {
                path_key: key("flag"),
                value: JsonValue::Boolean(false),
            },
            JsonPathItem {
                path_key: key("o.x"),
                value: JsonValue::Number("1".to_string()),
            },
        ]
    );
}

fn update_data(
    producers: Vec<(&str, Counter)>,
    outputs: Vec<&str>,
    existing: Option<JsonMapping>,
) -> UpdateJsonData<Counter> {
    UpdateJsonData {
        mappings: producers
            .into_iter()
            .map(|(k, p)| ProducerEntry {
                key: key(k),
                producer: p,
            })
            .collect(),
        output_keys: outputs.into_iter().map(key).collect(),
        output_mapping: OutputMapping::new(),
        existing_output_mapping: existing,
    }
}

/// The walk with updates gives a new document, uses the replacements
/// given beforehand, records the output keys, and fails without a producer.
#[test]
fn test_update_json_structure() {
    let doc = object(vec![("id", text("a")), ("name", text("b"))]);
    let mut existing = JsonMapping::new();
    existing.insert(text("b"), text("B"));
    let mut d = update_data(
        vec![("id", Counter::Names(Cell::new(0)))],
        vec!["id"],
        Some(existing),
    );
    let out = update_json_structure(&doc, &mut d, &mut producer_data()).unwrap();
    assert_eq!(out, object(vec![("id", text("v0")), ("name", text("B"))]));
    assert_eq!(
        d.output_mapping.get(&key("id")).unwrap().get(&text("a")),
        Some(&text("v0"))
    );

    let mut d = update_data(vec![], vec![], None);
    assert_eq!(
        update_json_structure(&doc, &mut d, &mut producer_data()),
        Err(UpdateError::MissingProducer)
    );
    assert_eq!(
        update_json_structure(&text("x"), &mut d, &mut producer_data()),
        Err(UpdateError::RootNotContainer)
    );
}

/// The walk with updates of one field uses the path of the field.
#[test]
fn test_walk_json_field_update() {
    let mut d = update_data(vec![("root.x", Counter::Names(Cell::new(0)))], vec![], None);
    let out = walk_json_field_update(
        &object(vec![("x", text("a"))]),
        key("root"),
        &mut d,
        &mut producer_data(),
    )
    .unwrap();
    assert_eq!(out, object(vec![("x", text("v0"))]));
}

/// Flattening the records keeps every replaced value.
#[test]
fn test_output_mapping_flatten() {
    let mut records = OutputMapping::new();
    records.record(&key("a"), text("1"), text("one"));
    records.record(&key("b"), text("2"), text("two"));
    records.record(&key("a"), text("3"), text("three"));
    let flat = records.flatten();
    assert_eq!(flat.get(&text("1")), Some(&text("one")));
    assert_eq!(flat.get(&text("2")), Some(&text("two")));
    assert_eq!(flat.get(&text("3")), Some(&text("three")));
    assert_eq!(flat.get(&text("4")), None);
}

/// A mapping keeps one replacement per value, the last one given.
#[test]
fn test_json_mapping_insert_replaces() {
    let mut m = JsonMapping::new();
    m.insert(text("k"), text("a"));
    m.insert(text("k"), text("b"));
    assert_eq!(m.get(&text("k")), Some(&text("b")));
    assert_eq!(m.entries().len(), 1);
}

/// The walk gives each scalar leaf once, with its path, in document order,
/// and refuses a scalar document.
#[test]
fn test_json_walk_iter() {
    let doc = object(vec![
        ("a", Json::Number("1".to_string())),
        ("b", Json::Array(vec![Json::Bool(true), Json::Null])),
        ("c", object(vec![])),
    ]);
    let mut walk = JsonWalkIter::new(&doc).unwrap();
    let mut seen = Vec::new();
    while let Some(leaf) = walk.next() {
        seen.push(((*leaf.key).clone(), leaf.value.deep_clone()));
    }
    assert_eq!(
        seen,
        vec![
            ((*key("a")).clone(), Json::Number("1".to_string())),
            ((*key("b.[index]")).clone(), Json::Bool(true)),
            ((*key("b.[index]")).clone(), Json::Null),
        ]
    );
    assert!(walk.next().is_none());
    assert!(JsonWalkIter::new(&text("x")).is_err());
}

/// A word list producer in a walk draws from the caller's loaded word
/// lists, and fails only for a list that was not loaded.
#[test]
fn test_update_with_word_lists() {
    let doc = object(vec![("a", text("x"))]);
    let mut config = Config::default();
    config.default = Some(WordlistFakeData {
        file_path: "words.txt".to_string(),
        amount: 1..2,
    });
    let mut d = UpdateStructureData {
        config,
        mapping: JsonMapping::new(),
        output_mapping: OutputMapping::new(),
    };
    let mut pd = producer_data();
    pd.wordlists.load("words.txt".to_string(), "alpha\nbeta\n");
    let out = process_json_file(doc.deep_clone(), &mut d, &mut pd).unwrap();
    let word = match out {
        Json::Object(members) => members[0].value.deep_clone(),
        other => panic!("expected an object, got {other:?}"),
    };
    assert!(word == text("alpha") || word == text("beta"));
    assert!(pd.wordlists.get("words.txt").is_some());

    let mut config = Config::default();
    config.default = Some(WordlistFakeData {
        file_path: "missing.txt".to_string(),
        amount: 1..2,
    });
    let mut d = UpdateStructureData {
        config,
        mapping: JsonMapping::new(),
        output_mapping: OutputMapping::new(),
    };
    assert_eq!(
        process_json_file(doc, &mut d, &mut pd),
        Err(UpdateError::Produce(FakeDataError::WordlistNotLoaded))
    );
}

/// Collecting the walk gives every leaf once, in order.
#[test]
fn test_json_walk_leaves() {
    let doc = Json::Array(vec![text("a"), object(vec![("b", Json::Bool(false))])]);
    let found = json_walk_leaves(&doc).unwrap();
    assert_eq!(found.len(), 2);
    assert_eq!(*found[0].key, (*key("[index]")).clone());
    assert_eq!(found[1].value, &Json::Bool(false));
    assert!(json_walk_leaves(&Json::Null).is_err());
    let mut walk = JsonWalkIter::new(&doc).unwrap();
    walk.next();
    assert_eq!(walk.collect_rest().len(), 1);
    assert!(walk.next().is_none());
}
