use anonit::data::json::{Json, UnsupportedJsonDataValue};
use anonit::data::key::PathKey;
use anonit::data::value::{DataValue, DataValueItem, DataValueNumber, DataValueNumberRef, DataValueRef};
use std::sync::Arc;

fn key(text: &str) -> Arc<PathKey> {
    Arc::new(text.parse::<PathKey>().unwrap())
}

/// Values tell their kind, counting null as any kind.
#[test]
fn test_value_kinds() {
    let n = DataValueRef::Number(DataValueNumberRef::new("1"));
    let s = DataValueRef::String("a");
    let b = DataValueRef::Boolean(false);
    assert!(n.is_number_or_null() && !n.is_string_or_null() && !n.is_bool_or_null());
    assert!(s.is_string_or_null() && !s.is_number_or_null());
    assert!(b.is_bool_or_null() && !b.is_string_or_null());
    assert!(DataValueRef::Null.is_bool_or_null());
    assert!(DataValueRef::Null.is_number_or_null());
}

/// Items hold every value of their path, in order.
#[test]
fn test_item_values() {
    let item = DataValueItem::new_many(
        key("a"),
        vec![DataValueRef::Boolean(true), DataValueRef::String("x")],
    );
    let values: Vec<&DataValueRef> = item.values_iter().collect();
    assert_eq!(values, vec![&DataValueRef::Boolean(true), &DataValueRef::String("x")]);
    assert!(item.is_any_string_or_null());
    assert!(!item.is_any_number_or_null());
    let single = DataValueItem::new(key("b"), DataValueRef::Boolean(true));
    assert!(!single.is_any_string_or_null());
}

/// Numbers keep their text; owned and borrowed values convert into each
/// other and into documents.
#[test]
fn test_value_conversions() {
    let n = DataValueNumber::new("1.50".to_string());
    assert_eq!(n.as_str(), "1.50");
    let text: String = n.clone().into();
    assert_eq!(text, "1.50");
    let owned: DataValue = DataValueRef::String("s").into();
    assert_eq!(owned, DataValue::String("s".to_string()));
    assert_eq!(
        Json::try_from_data_value(DataValue::Number(n)).unwrap(),
        Json::Number("1.50".to_string())
    );
    assert!(Json::try_from_data_value(DataValue::Number(DataValueNumber::new("1x".to_string()))).is_err());
    let doc = Json::Bool(true);
    assert_eq!(DataValueRef::try_from_json(&doc), Ok(DataValueRef::Boolean(true)));
    assert_eq!(
        DataValue::try_from_json(Json::Array(vec![])),
        Err(UnsupportedJsonDataValue)
    );
    assert_eq!(DataValueNumberRef::new("3").as_str(), "3");
}

/// A number text is kept as `serde_json` keeps it, and the kept text turns
/// into a value and back unchanged.
#[test]
fn test_number_round_trip() {
    let kept = Json::try_from_data_value(DataValue::Number(DataValueNumber::new("1E5".to_string())))
        .unwrap();
    assert_eq!(kept, Json::Number("1e+5".to_string()));
    let value = DataValue::try_from_json(kept.deep_clone()).unwrap();
    assert_eq!(Json::try_from_data_value(value).unwrap(), kept);
    for text in ["0", "-0", "12", "-7", "1.50", "2.5e-3", "123456789012345678901234567890"] {
        let doc = Json::Number(text.to_string());
        let value = DataValue::try_from_json(doc.deep_clone()).unwrap();
        assert_eq!(Json::try_from_data_value(value).unwrap(), doc);
    }
    assert!(Json::try_from_data_value(DataValue::Number(DataValueNumber::new("abc".to_string()))).is_err());
}

/// A converted value is a document whose numbers are in kept form.
#[test]
fn test_kept_numbers() {
    let doc = Json::try_from_data_value(DataValue::Number(DataValueNumber::new("2E-1".to_string()))).unwrap();
    assert_eq!(doc, Json::Number("2e-1".to_string()));
    let again = Json::try_from_data_value(DataValue::try_from_json(doc.deep_clone()).unwrap()).unwrap();
    assert_eq!(again, doc);
}
