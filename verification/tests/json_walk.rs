use anonit::data::json::{json_data_value_items, Json, JsonMember};
use anonit::data::key::PathKey;
use anonit::data::value::{DataValueItem, DataValueRef};
use std::sync::Arc;

fn test_path_key(key: &str) -> Arc<PathKey> {
    key.parse::<PathKey>()
        .map(Arc::new)
        .expect("invalid test path key")
}

fn text(s: &str) -> Json {
    Json::String(s.to_string())
}

fn object(members: Vec<(&str, Json)>) -> Json {
    Json::Object(
        members
            .into_iter()
            .map(|(key, value)| JsonMember {
                key: key.to_string(),
                value,
            })
            .collect(),
    )
}

/// Tests that a JSON structure can be successfully walked
#[test]
fn test_walk_json_structure() {
    let values = object(vec![
        ("key", text("value")),
        (
            "nested",
            object(vec![("a", text("value_a")), ("b", text("value_b"))]),
        ),
        (
            "array",
            Json::Array(vec![
                object(vec![("id", text("test"))]),
                object(vec![("id", text("test_2")), ("test", text("array_test"))]),
            ]),
        ),
    ]);
    let structure = json_data_value_items(&values).unwrap();

    assert_eq!(
        &structure,
        &[
            DataValueItem::new(test_path_key("key"), DataValueRef::String("value")),
            DataValueItem::new(test_path_key("nested.a"), DataValueRef::String("value_a")),
            DataValueItem::new(test_path_key("nested.b"), DataValueRef::String("value_b")),
            DataValueItem::new_many(
                test_path_key("array.[index].id"),
                vec![DataValueRef::String("test"), DataValueRef::String("test_2")]
            ),
            DataValueItem::new(
                test_path_key("array.[index].test"),
                DataValueRef::String("array_test")
            )
        ]
    )
}

/// Tests that when walking a JSON array keys that have
/// already been visited previously will not appear
/// multiple times
#[test]
fn test_walk_array_index_deduplication() {
    let values = Json::Array(vec![
        object(vec![("id", text("test"))]),
        object(vec![("id", text("test_2")), ("test", text("array_test"))]),
    ]);
    let structure = json_data_value_items(&values).unwrap();
    assert_eq!(
        &structure,
        &[
            DataValueItem::new_many(
                test_path_key("[index].id"),
                vec![DataValueRef::String("test"), DataValueRef::String("test_2")]
            ),
            DataValueItem::new(
                test_path_key("[index].test"),
                DataValueRef::String("array_test")
            )
        ]
    )
}
