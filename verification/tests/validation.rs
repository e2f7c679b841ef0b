use anonit::config::{Config, ProducerEntry};
use anonit::data::json::{Json, JsonMember, RootNotContainer};
use anonit::data::key::PathKey;
use anonit::data::value::{DataValueItem, DataValueRef};
use anonit::fake::number::{DecimalNumber, WholeNumber};
use anonit::prompt_utils::{
    file_path_validation, inclusive_to_exclusive, read_decimal, usize_text, DecimalNumberValidator,
    RangeNumberValidator, Validation,
};
use std::sync::Arc;

fn key(text: &str) -> Arc<PathKey> {
    Arc::new(text.parse::<PathKey>().unwrap())
}

fn invalid(message: &str) -> Validation {
    Validation::Invalid(message.to_string())
}

/// Inclusive ranges become exclusive ones ending one later, except at the
/// largest number.
#[test]
fn test_inclusive_to_exclusive() {
    assert_eq!(inclusive_to_exclusive(3..=7), Some(3..8));
    assert_eq!(inclusive_to_exclusive(0..=0), Some(0..1));
    assert_eq!(inclusive_to_exclusive(1..=usize::MAX), None);
}

/// Numbers are written in decimal.
#[test]
fn test_usize_text() {
    assert_eq!(usize_text(0), "0");
    assert_eq!(usize_text(1205), "1205");
    assert_eq!(usize_text(usize::MAX), usize::MAX.to_string());
}

/// Entries out of range or not numbers are refused with a reason.
#[test]
fn test_range_number_validator() {
    let v = RangeNumberValidator { min: 5, max: 10 };
    assert_eq!(v.validate("7"), Validation::Valid);
    assert_eq!(v.validate("+10"), Validation::Valid);
    assert_eq!(v.validate("abc"), invalid("value is not a valid number"));
    assert_eq!(v.validate(" 7"), invalid("value is not a valid number"));
    assert_eq!(v.validate("4"), invalid("value cannot be less than 5"));
    assert_eq!(v.validate("11"), invalid("value cannot be greater than 10"));
}

fn decimal(digits: &str, scale: i64) -> DecimalNumber {
    DecimalNumber {
        digits: WholeNumber::from_text(digits).unwrap(),
        scale,
    }
}

/// Decimal entries out of their bounds or not numbers are refused with a
/// reason naming the bound.
#[test]
fn test_decimal_number_validator() {
    let v = DecimalNumberValidator {
        min: Some(decimal("15", 1)),
        max: Some(decimal("3", 0)),
    };
    assert_eq!(v.validate("2.25"), Validation::Valid);
    assert_eq!(v.validate("1.5"), Validation::Valid);
    assert_eq!(v.validate("x1"), invalid("value is not a valid number"));
    assert_eq!(v.validate("1.49"), invalid("value cannot be less than 1.5"));
    assert_eq!(v.validate("3.01"), invalid("value cannot be greater than 3"));
    let open = DecimalNumberValidator {
        min: None,
        max: None,
    };
    assert_eq!(open.validate("-1e9"), Validation::Valid);
}

/// Entered decimals are read with whether they had a decimal point.
#[test]
fn test_read_decimal() {
    let (d, point) = read_decimal("12.50").unwrap();
    assert!(point);
    assert_eq!(d.digits.text(), "1250");
    assert_eq!(d.scale, 2);
    let (d, point) = read_decimal("-7").unwrap();
    assert!(!point);
    assert_eq!(d.digits.text(), "-7");
    assert!(read_decimal("seven").is_none());
}

/// File paths must name a file.
#[test]
fn test_file_path_validation() {
    assert_eq!(file_path_validation(true, false), invalid("path must be to a file"));
    assert_eq!(file_path_validation(false, false), invalid("file does not exist"));
    assert_eq!(file_path_validation(false, true), Validation::Valid);
}

/// Setting the producer of a path replaces the one it had; outputs are kept
/// once.
#[test]
fn test_config_producers_and_outputs() {
    let mut config: Config<u8> = Config::default();
    assert!(config.maintain_null && config.internal_mapping);
    config.set_producer(key("a"), 1);
    config.set_producer(key("b"), 2);
    config.set_producer(key("a"), 3);
    assert_eq!(config.mapping.len(), 2);
    assert_eq!(config.producer_for(&key("a")), Some(&3));
    assert_eq!(config.producer_for(&key("c")), None);
    config.default = Some(9);
    assert_eq!(config.producer_for(&key("c")), Some(&9));
    config.add_output(key("a"));
    config.add_output(key("a"));
    assert_eq!(config.output.len(), 1);
    assert!(config.output_contains(&key("a")));
    assert!(!config.output_contains(&key("b")));
    config.mapping.push(ProducerEntry {
        key: key("z"),
        producer: 4,
    });
    assert_eq!(config.producer_for(&key("z")), Some(&4));
}

/// Grouping the values of a document: scalar roots are refused, and values
/// are gathered by path in the order paths are first reached.
#[test]
fn test_json_data_value_items_grouping() {
    assert_eq!(
        anonit::data::json::json_data_value_items(&Json::Bool(true)),
        Err(RootNotContainer)
    );
    let doc = Json::Array(vec![
        Json::Object(vec![JsonMember {
            key: "a".to_string(),
            value: Json::Null,
        }]),
        Json::Number("1".to_string()),
    ]);
    let items = anonit::data::json::json_data_value_items(&doc).unwrap();
    assert_eq!(
        items,
        vec![
            DataValueItem::new(key("[index].a"), DataValueRef::Null),
            DataValueItem::new(
                key("[index]"),
                DataValueRef::Number(anonit::data::value::DataValueNumberRef::new("1"))
            ),
        ]
    );
}
