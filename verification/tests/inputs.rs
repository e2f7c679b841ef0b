use anonit::config::{Config, ProducerEntry};
use anonit::data::json::{Json, JsonMember};
use anonit::data::key::PathKey;
use anonit::data::mapping::{JsonMapping, OutputMapping};
use anonit::data::value::{DataValue, DataValueRef};
use anonit::data::UpdateStructureData;
use anonit::fake::ignore::IgnoreFakeData;
use anonit::fake::wordlist::WordlistCache;
use anonit::fake::{FakeDataError, FakeDataProducer, FakeDataProducerData};
use anonit::process_json_file;
use fake::rand::SeedableRng as _;
use rand::SeedableRng as _;
use std::cell::Cell;
use std::rc::Rc;
use std::sync::Arc;

fn path_key(key: &str) -> Arc<PathKey> {
    key.parse::<PathKey>()
        .map(Arc::new)
        .expect("invalid test path key")
}

fn text(s: &str) -> Json {
    Json::String(s.to_string())
}

fn object(members: Vec<(&str, Json)>) -> Json {
    Json::Object(
        members
            .into_iter()
            .map(|(key, value)| JsonMember {
                key: key.to_string(),
                value,
            })
            .collect(),
    )
}

/// Producer that hands out the given IDs one after the other.
struct FixedIds {
    ids: Vec<&'static str>,
    next: Cell<usize>,
}

/// The producers of the test: the fixed IDs, or the original value.
enum TestProducer {
    Ids(Rc<FixedIds>),
    Ignore(IgnoreFakeData),
}

impl FakeDataProducer for TestProducer {
    fn produce_fake(
        &self,
        original_value: DataValueRef<'_>,
        data: &mut FakeDataProducerData,
    ) -> Result<DataValue, FakeDataError> {
        match self {
            TestProducer::Ids(ids) => {
                let i = ids.next.get();
                let id = ids
                    .ids
                    .get(i)
                    .expect("test should have enough IDs to complete");
                ids.next.set(i + 1);
                Ok(DataValue::String(id.to_string()))
            }
            TestProducer::Ignore(p) => p.produce_fake(original_value, data),
        }
    }

    fn is_allowed_output(&self) -> bool {
        false
    }
}

fn producer_data() -> FakeDataProducerData {
    FakeDataProducerData {
        rng: fake::rand::rngs::StdRng::seed_from_u64(7),
        rng_08: rand::rngs::StdRng::seed_from_u64(7),
        wordlists: WordlistCache::new(),
    }
}

fn sample_input() -> Json {
    object(vec![
        (
            "Posts",
            Json::Array(vec![object(vec![
                ("Id", text("post-1")),
                ("Author", text("user-1")),
                ("Title", text("Hello")),
                (
                    "Comments",
                    Json::Array(vec![
                        object(vec![
                            ("Id", text("comment-1")),
                            ("Parent", text("post-1")),
                            ("Author", text("user-1")),
                        ]),
                        object(vec![
                            ("Id", text("comment-2")),
                            ("Parent", text("comment-1")),
                            ("Author", text("user-2")),
                        ]),
                    ]),
                ),
            ])]),
        ),
        (
            "Users",
            Json::Array(vec![
                object(vec![("Id", text("user-1")), ("Name", text("Ann"))]),
                object(vec![("Id", text("user-2")), ("Name", text("Bob"))]),
            ]),
        ),
    ])
}

fn expected_output() -> Json {
    object(vec![
        (
            "Posts",
            Json::Array(vec![object(vec![
                ("Id", text("test-post")),
                ("Author", text("test-user-1")),
                ("Title", text("Hello")),
                (
                    "Comments",
                    Json::Array(vec![
                        object(vec![
                            ("Id", text("test-comment-1")),
                            ("Parent", text("test-post")),
                            ("Author", text("test-user-1")),
                        ]),
                        object(vec![
                            ("Id", text("test-comment-2")),
                            ("Parent", text("test-comment-1")),
                            ("Author", text("test-user-2")),
                        ]),
                    ]),
                ),
            ])]),
        ),
        (
            "Users",
            Json::Array(vec![
                object(vec![("Id", text("test-user-1")), ("Name", text("Ann"))]),
                object(vec![("Id", text("test-user-2")), ("Name", text("Bob"))]),
            ]),
        ),
    ])
}

/// Tests that when internal mappings are enabled that all internal
/// references are maintained
#[test]
fn test_internal_mappings_enabled() {
    // Fixed set of IDs to use when producing the mapping
    let ids = Rc::new(FixedIds {
        ids: vec![
            "test-post",
            "test-user-1",
            "test-comment-1",
            "test-comment-2",
            "test-user-2",
        ],
        next: Cell::new(0),
    });

    let mut config: Config<TestProducer> = Config::default();
    for key in [
        "Posts.[index].Id",
        "Posts.[index].Author",
        "Posts.[index].Comments.[index].Id",
        "Posts.[index].Comments.[index].Parent",
        "Posts.[index].Comments.[index].Author",
        "Users.[index].Id",
    ] {
        config.mapping.push(ProducerEntry {
            key: path_key(key),
            producer: TestProducer::Ids(ids.clone()),
        });
    }
    config.default = Some(TestProducer::Ignore(IgnoreFakeData));
    config.internal_mapping = true;

    let mut data = UpdateStructureData {
        config,
        output_mapping: OutputMapping::new(),
        mapping: JsonMapping::new(),
    };
    let mut producer_data = producer_data();

    let output_data = process_json_file(sample_input(), &mut data, &mut producer_data).unwrap();
    assert_eq!(output_data, expected_output());
}
