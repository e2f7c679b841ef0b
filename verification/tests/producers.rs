use anonit::data::json::Json;
use anonit::data::key::PathKey;
use anonit::data::value::{DataValue, DataValueItem, DataValueNumberRef, DataValueRef};
use anonit::fake::any::AnyFakeData;
use anonit::fake::email::EmailFakeData;
use anonit::fake::ignore::IgnoreFakeData;
use anonit::fake::lorem::{LoremIpsumFakeData, LoremIpsumUnit};
use anonit::fake::name::{NameFakeData, NameStyle};
use anonit::fake::number::{
    random_bigint_between, random_decimal_between, DecimalNumber, NumberFakeData, NumberRange,
    WholeNumber,
};
use anonit::fake::number_string::{apply_affixes, NumberStringFakeData};
use anonit::fake::uuid::{
    original_value_version, starting_version_index, suggested_version, UuidFakeData, UuidVersion,
};
use anonit::fake::wordlist::{words_from_text, WordlistCache, WordlistFakeData};
use anonit::fake::{
    fake_data_registry, producer_kinds_for, FakeDataError, FakeDataProducer, FakeDataProducerData,
    ProducerKind,
};
use anonit::faker::{faker_items_for, faker_type_items, FakerType};
use anonit::json::{JsonPathItem, JsonValue};
use fake::rand::SeedableRng as _;
use rand::SeedableRng as _;
use std::sync::Arc;

fn key(text: &str) -> Arc<PathKey> {
    Arc::new(text.parse::<PathKey>().unwrap())
}

fn producer_data() -> FakeDataProducerData {
    FakeDataProducerData {
        rng: fake::rand::rngs::StdRng::seed_from_u64(11),
        rng_08: rand::rngs::StdRng::seed_from_u64(11),
        wordlists: WordlistCache::new(),
    }
}

fn whole(text: &str) -> WholeNumber {
    WholeNumber::from_text(text).unwrap()
}

fn decimal(digits: &str, scale: i64) -> DecimalNumber {
    DecimalNumber {
        digits: whole(digits),
        scale,
    }
}

fn produced_string(v: DataValue) -> String {
    match v {
        DataValue::String(s) => s,
        other => panic!("expected a string, got {other:?}"),
    }
}

/// Every UUID version is made in hyphenated form and its version is read
/// back from the text.
#[test]
fn test_uuid_versions_round_trip() {
    for version in UuidVersion::variants() {
        let text = produced_string(version.fake());
        assert_eq!(text.len(), 36);
        assert_eq!(text.chars().nth(8), Some('-'));
        let read = original_value_version(&DataValueRef::String(&text)).unwrap();
        assert_eq!(UuidVersion::equivalent(read), Some(version));
    }
    assert_eq!(UuidVersion::equivalent(2), None);
    assert_eq!(UuidVersion::equivalent(8), None);
    assert_eq!(original_value_version(&DataValueRef::String("not a uuid")), None);
    assert_eq!(original_value_version(&DataValueRef::Boolean(true)), None);
}

/// The version suggested for an item is that of its first UUID, and the
/// prompt starts at it.
#[test]
fn test_uuid_suggestion() {
    let item = DataValueItem::new_many(
        key("id"),
        vec![
            DataValueRef::Null,
            DataValueRef::String("x"),
            DataValueRef::String("550e8400-e29b-41d4-a716-446655440000"),
            DataValueRef::String("02f09a3f-1624-3b1d-8409-44eff7708208"),
        ],
    );
    assert_eq!(suggested_version(&item), Some(UuidVersion::V4));
    assert_eq!(starting_version_index(Some(UuidVersion::V4)), 2);
    assert_eq!(starting_version_index(None), 0);
    let none = DataValueItem::new(key("id"), DataValueRef::String("plain"));
    assert_eq!(suggested_version(&none), None);
}

/// The UUID producer may be used for output mappings.
#[test]
fn test_uuid_producer() {
    let p = UuidFakeData {
        version: UuidVersion::V7,
    };
    assert!(p.is_allowed_output());
    let text = produced_string(p.produce_fake(DataValueRef::Null, &mut producer_data()).unwrap());
    assert_eq!(text.chars().nth(14), Some('7'));
}

/// E-mail addresses are at an example domain.
#[test]
fn test_email_producer() {
    let text = produced_string(
        EmailFakeData
            .produce_fake(DataValueRef::Null, &mut producer_data())
            .unwrap(),
    );
    assert!(
        text.contains("@example.com") || text.contains("@example.net") || text.contains("@example.org")
    );
}

/// The ignore producer gives the original value back.
#[test]
fn test_ignore_producer() {
    let v = IgnoreFakeData
        .produce_fake(DataValueRef::Number(DataValueNumberRef::new("12")), &mut producer_data())
        .unwrap();
    assert_eq!(v, DataValue::Number(anonit::data::value::DataValueNumber::new("12".to_string())));
}

/// Lorem ipsum words come in the asked number, sentences end with a full
/// stop.
#[test]
fn test_lorem_producer() {
    let mut data = producer_data();
    let words = LoremIpsumFakeData::new(LoremIpsumUnit::Words, 3, 4);
    let text = produced_string(words.produce_fake(DataValueRef::Null, &mut data).unwrap());
    assert_eq!(text.split(' ').count(), 3);
    assert_eq!(text.split_whitespace().count(), 3);
    assert!(text.chars().all(|c| c == ' ' || c.is_ascii_lowercase()));
    let sentence = LoremIpsumFakeData::new(LoremIpsumUnit::Sentences, 2, 5);
    let text = produced_string(sentence.produce_fake(DataValueRef::Null, &mut data).unwrap());
    assert!(text.ends_with('.'));
    assert_eq!(sentence.bounds(), (2, 5));
    assert_eq!(LoremIpsumUnit::Paragraphs.label(), "Paragraphs");
}

/// Every name style gives a name.
#[test]
fn test_name_producer() {
    let mut data = producer_data();
    for ty in NameStyle::variants() {
        let text = produced_string(
            NameFakeData { ty }
                .produce_fake(DataValueRef::Null, &mut data)
                .unwrap(),
        );
        assert!(!text.is_empty());
        let words = text.split(' ').count();
        match ty {
            NameStyle::Name => assert_eq!(words, 2),
            NameStyle::NameWithTitle => assert_eq!(words, 3),
            _ => assert_eq!(words, 1),
        }
        match ty {
            NameStyle::Title => {
                assert!(["Mr.", "Mrs.", "Ms.", "Miss", "Dr."].contains(&text.as_str()))
            }
            NameStyle::Suffix => assert!([
                "Jr.", "Sr.", "I", "II", "III", "IV", "V", "MD", "DDS", "PhD", "DVM"
            ]
            .contains(&text.as_str())),
            NameStyle::Username => assert!(text
                .chars()
                .all(|c| c.is_ascii_lowercase() || c.is_ascii_digit() || c == '.' || c == '_')),
            _ => {}
        }
    }
    assert_eq!(NameStyle::NameWithTitle.label(), "NameWithTitle");
}

/// The words of a word list file are its lines, trimmed, without empty ones.
#[test]
fn test_words_from_text() {
    let words = words_from_text("  alpha \r\n\nbeta\n\t gamma delta  \n");
    assert_eq!(words, vec!["alpha", "beta", "gamma delta"]);
    assert!(words_from_text("").is_empty());
    assert!(words_from_text("\n \n").is_empty());
}

/// Words are drawn from a loaded list at distinct positions; a list that was
/// not loaded is an error.
#[test]
fn test_wordlist_generate() {
    let mut cache = WordlistCache::new();
    cache.load("list.txt".to_string(), "a\nb\nc\n");
    let mut rng = fake::rand::rngs::StdRng::seed_from_u64(5);
    let text = cache.generate(&mut rng, "list.txt", 2).unwrap();
    let picked: Vec<&str> = text.split(' ').collect();
    assert_eq!(picked.len(), 2);
    assert_ne!(picked[0], picked[1]);
    let all = cache.generate(&mut rng, "list.txt", 10).unwrap();
    assert_eq!(all.split(' ').count(), 3);
    assert_eq!(
        cache.generate(&mut rng, "other.txt", 1),
        Err(FakeDataError::WordlistNotLoaded)
    );
}

/// A word list producer with an empty range asks for its start number of
/// words.
#[test]
fn test_wordlist_producer() {
    let mut data = producer_data();
    data.wordlists
        .load("w.txt".to_string(), "one\ntwo\nthree\nfour");
    let p = WordlistFakeData {
        file_path: "w.txt".to_string(),
        amount: 2..2,
    };
    let text = produced_string(p.produce_fake(DataValueRef::Null, &mut data).unwrap());
    assert_eq!(text.split(' ').count(), 2);
    let ranged = WordlistFakeData {
        file_path: "w.txt".to_string(),
        amount: 1..3,
    };
    for _ in 0..20 {
        let text = produced_string(ranged.produce_fake(DataValueRef::Null, &mut data).unwrap());
        let n = text.split(' ').count();
        assert!(n == 1 || n == 2);
    }
    let missing = WordlistFakeData {
        file_path: "nope.txt".to_string(),
        amount: 1..3,
    };
    assert_eq!(
        missing.produce_fake(DataValueRef::Null, &mut data),
        Err(FakeDataError::WordlistNotLoaded)
    );
}

/// Whole numbers are read from their text only when it is an integer.
#[test]
fn test_whole_number_text() {
    assert_eq!(whole("-42").text(), "-42");
    assert!(WholeNumber::from_text("").is_none());
    assert!(WholeNumber::from_text("-").is_none());
    assert!(WholeNumber::from_text("1.5").is_none());
    assert!(WholeNumber::from_text("12a").is_none());
    assert_eq!(WholeNumber::from_usize(907).text(), "907");
}

/// Random integers stay within their bounds, both included.
#[test]
fn test_random_bigint_between() {
    let mut rng = rand::rngs::StdRng::seed_from_u64(1);
    for _ in 0..50 {
        let v: i64 = random_bigint_between(&mut rng, &whole("-3"), &whole("2"))
            .text()
            .parse()
            .unwrap();
        assert!((-3..=2).contains(&v));
    }
    let v = random_bigint_between(&mut rng, &whole("7"), &whole("7"));
    assert_eq!(v.text(), "7");
}

/// Random decimals have the asked scale and digits between the scaled
/// bounds; a lower bound above the upper one is an error.
#[test]
fn test_random_decimal_between() {
    let mut rng = rand::rngs::StdRng::seed_from_u64(2);
    for _ in 0..50 {
        let d = random_decimal_between(&mut rng, &decimal("15", 1), &decimal("25", 1), 2).unwrap();
        assert_eq!(d.scale, 2);
        let digits: i64 = d.digits.text().parse().unwrap();
        assert!((150..=250).contains(&digits));
    }
    assert_eq!(
        random_decimal_between(&mut rng, &decimal("3", 0), &decimal("2", 0), 0),
        Err(FakeDataError::MinGreaterThanMax)
    );    assert_eq!(
        random_decimal_between(&mut rng, &decimal("-1", i64::MIN), &decimal("2", 0), 0),
        Err(FakeDataError::ScaledConversion)
    );
    let d = random_decimal_between(&mut rng, &decimal("0", i64::MIN), &decimal("2", 0), 0).unwrap();
    let digits: i64 = d.digits.text().parse().unwrap();
    assert!((0..=2).contains(&digits));
}

/// Number ranges give numbers between their bounds, as number text.
#[test]
fn test_number_range_fake() {
    let mut rng = rand::rngs::StdRng::seed_from_u64(4);
    let ints = NumberRange::Integer {
        min: whole("10"),
        max: whole("20"),
    };
    let n: i64 = ints.fake(&mut rng).unwrap().as_str().parse().unwrap();
    assert!((10..=20).contains(&n));
    let decimals = NumberRange::Decimal {
        min: decimal("1", 0),
        max: decimal("2", 0),
        scale: 1,
    };
    let text = decimals.fake(&mut rng).unwrap().as_str().to_string();
    let value: f64 = text.parse().unwrap();
    assert!((1.0..=2.0).contains(&value));
    let backwards = NumberRange::Integer {
        min: whole("5"),
        max: whole("4"),
    };
    assert_eq!(backwards.fake(&mut rng), Err(FakeDataError::MinGreaterThanMax));
}

/// Entered bounds with a decimal point give a decimal range of the larger
/// scale, others a range of whole numbers.
#[test]
fn test_number_range_from_bounds() {
    match NumberRange::from_bounds(decimal("15", 1), true, decimal("3", 0), false) {
        NumberRange::Decimal { scale, .. } => assert_eq!(scale, 1),
        other => panic!("expected decimals, got {other:?}"),
    }
    match NumberRange::from_bounds(decimal("-15", 1), false, decimal("3", -2), false) {
        NumberRange::Integer { min, max } => {
            assert_eq!(min.text(), "-1");
            assert_eq!(max.text(), "300");
        }
        other => panic!("expected whole numbers, got {other:?}"),
    }
}

/// Number producers give numbers, or numbers in strings between affixes.
#[test]
fn test_number_producers() {
    let mut data = producer_data();
    let p = NumberFakeData {
        range: NumberRange::Integer {
            min: whole("1"),
            max: whole("1"),
        },
    };
    match p.produce_fake(DataValueRef::Null, &mut data).unwrap() {
        DataValue::Number(n) => assert_eq!(n.as_str(), "1"),
        other => panic!("expected a number, got {other:?}"),
    }
    let s = NumberStringFakeData {
        range: NumberRange::Integer {
            min: whole("9"),
            max: whole("9"),
        },
        prefix: Some("#".to_string()),
        suffix: Some(" units".to_string()),
    };
    let text = produced_string(s.produce_fake(DataValueRef::Null, &mut data).unwrap());
    assert_eq!(text, "#9 units");
    assert_eq!(apply_affixes("5".to_string(), &None, &Some("%".to_string())), "5%");
}

/// The registry offers every producer, and an item is offered the ones that
/// suit its values.
#[test]
fn test_registry_filter() {
    let registry = fake_data_registry();
    let names: Vec<String> = registry.iter().map(|k| k.name()).collect();
    assert_eq!(
        names,
        vec![
            "Ignore",
            "Lorem Ipsum",
            "UUID",
            "Wordlist (Custom text file)",
            "Email",
            "Number",
            "Name",
            "Number (String)"
        ]
    );
    let numbers = DataValueItem::new(key("n"), DataValueRef::Number(DataValueNumberRef::new("1")));
    assert_eq!(
        producer_kinds_for(&registry, &numbers),
        vec![ProducerKind::Ignore, ProducerKind::Number]
    );
    let nulls = DataValueItem::new(key("n"), DataValueRef::Null);
    assert_eq!(producer_kinds_for(&registry, &nulls).len(), 8);
    let flags = DataValueItem::new(key("b"), DataValueRef::Boolean(true));
    assert_eq!(producer_kinds_for(&registry, &flags), vec![ProducerKind::Ignore]);
}

/// The kinds of fake value offered for a scalar are those suiting it.
#[test]
fn test_faker_items_for() {
    assert_eq!(faker_type_items().len(), 4);
    let item = JsonPathItem {
        path_key: key("flag"),
        value: JsonValue::Boolean(true),
    };
    let names: Vec<&str> = faker_items_for(&item).iter().map(|i| i.name).collect();
    assert_eq!(names, vec!["Ignore", "Boolean"]);
    let null = JsonPathItem {
        path_key: key("n"),
        value: JsonValue::Null,
    };
    assert_eq!(faker_items_for(&null).len(), 4);
    assert_eq!(
        FakerType::Ignore.fake(&Json::String("same".to_string())),
        Json::String("same".to_string())
    );
    assert!(matches!(FakerType::Boolean.fake(&Json::Null), Json::Bool(_)));
}

/// A producer of any kind gives what the producer it holds gives, and only
/// UUIDs may be used in output mappings.
#[test]
fn test_any_producer() {
    let mut data = producer_data();
    let uuid = AnyFakeData::Uuid(UuidFakeData { version: UuidVersion::V4 });
    assert!(uuid.is_allowed_output());
    let text = produced_string(uuid.produce_fake(DataValueRef::Null, &mut data).unwrap());
    assert_eq!(text.len(), 36);
    let backwards = AnyFakeData::Number(NumberFakeData {
        range: NumberRange::Integer {
            min: whole("5"),
            max: whole("4"),
        },
    });
    assert!(!backwards.is_allowed_output());
    assert_eq!(
        backwards.produce_fake(DataValueRef::Null, &mut data),
        Err(FakeDataError::MinGreaterThanMax)
    );
    let kept = AnyFakeData::Ignore(IgnoreFakeData);
    assert_eq!(
        kept.produce_fake(DataValueRef::String("x"), &mut data),
        Ok(DataValue::String("x".to_string()))
    );
}
