use anonit::data::key::{PathKey, PathKeyItem, PathKeyParseError};
use std::sync::Arc;

/// Builds a path key from a collection of path items, the first at the root.
fn test_path_key(items: impl IntoIterator<Item = PathKeyItem>) -> Arc<PathKey> {
    let mut current: Option<Arc<PathKey>> = None;
    for item in items {
        current = Some(Arc::new(PathKey::new(current, item)));
    }
    current.unwrap()
}

/// Tests that keys are displayed correctly
#[test]
fn test_key_display() {
    let data = &[
        (test_path_key([PathKeyItem::Key("Key".into())]), "Key"),
        (test_path_key([PathKeyItem::Index]), "[index]"),
        (
            test_path_key([PathKeyItem::Index, PathKeyItem::Key("Nested".into())]),
            "[index].Nested",
        ),
        (
            test_path_key([
                PathKeyItem::Key("Test".into()),
                PathKeyItem::Index,
                PathKeyItem::Key("Nested".into()),
            ]),
            "Test.[index].Nested",
        ),
        (
            test_path_key([
                PathKeyItem::Key("Test".into()),
                PathKeyItem::Index,
                PathKeyItem::Key("Nested".into()),
                PathKeyItem::Key("Deep".into()),
            ]),
            "Test.[index].Nested.Deep",
        ),
        (
            test_path_key([
                PathKeyItem::Index,
                PathKeyItem::Index,
                PathKeyItem::Key("Deep".into()),
            ]),
            "[index].[index].Deep",
        ),
        (
            test_path_key([PathKeyItem::Index, PathKeyItem::Index]),
            "[index].[index]",
        ),
    ];

    for (value, expected_value) in data {
        let value = value.to_string();
        assert_eq!(value.as_str(), *expected_value);
    }
}

/// Tests that keys are parsed correctly
#[test]
fn test_key_parsing() {
    let data = &[
        (test_path_key([PathKeyItem::Key("Key".into())]), "Key"),
        (test_path_key([PathKeyItem::Index]), "[index]"),
        (
            test_path_key([PathKeyItem::Index, PathKeyItem::Key("Nested".into())]),
            "[index].Nested",
        ),
        (
            test_path_key([
                PathKeyItem::Key("Test".into()),
                PathKeyItem::Index,
                PathKeyItem::Key("Nested".into()),
            ]),
            "Test.[index].Nested",
        ),
        (
            test_path_key([
                PathKeyItem::Key("Test".into()),
                PathKeyItem::Index,
                PathKeyItem::Key("Nested".into()),
                PathKeyItem::Key("Deep".into()),
            ]),
            "Test.[index].Nested.Deep",
        ),
        (
            test_path_key([
                PathKeyItem::Index,
                PathKeyItem::Index,
                PathKeyItem::Key("Deep".into()),
            ]),
            "[index].[index].Deep",
        ),
        (
            test_path_key([PathKeyItem::Index, PathKeyItem::Index]),
            "[index].[index]",
        ),
        // Empty strings are valid JSON keys
        (test_path_key([PathKeyItem::Key("".into())]), ""),
        (
            test_path_key([PathKeyItem::Key("".into()), PathKeyItem::Key("".into())]),
            ".",
        ),
        (
            test_path_key([PathKeyItem::Key("".into()), PathKeyItem::Index]),
            ".[index]",
        ),
    ];

    for (expected_value, value) in data {
        let value: PathKey = value.parse().unwrap();
        let value = Arc::new(value);
        assert_eq!(&value, expected_value);
    }
}

/// Tests that parsing errors are returned for invalid data
#[test]
fn test_key_parsing_err() {
    let data = &[
        ("Test\\", PathKeyParseError::DanglingEscape),
        ("Test\\a", PathKeyParseError::InvalidEscape('a')),
    ];

    for (value, expected_err) in data {
        let err: PathKeyParseError = value
            .parse::<PathKey>()
            .expect_err(&format!("{value} should produce {expected_err:?}"));
        assert_eq!(&err, expected_err);
    }
}

/// Keys with the characters that need escaping are written escaped and read
/// back to the same key.
#[test]
fn test_key_escapes_round_trip() {
    let key = test_path_key([
        PathKeyItem::Key("a.b".into()),
        PathKeyItem::Index,
        PathKeyItem::Key("c\\[d]".into()),
    ]);
    let text = key.to_string();
    assert_eq!(text, "a\\.b.[index].c\\\\\\[d\\]");
    let back: PathKey = text.parse().unwrap();
    assert_eq!(Arc::new(back), key);
}

/// A key spelled like the index segment is written escaped, but the escapes
/// are resolved before segments are told apart, so it reads back as an index.
#[test]
fn test_key_index_spelling() {
    let key = test_path_key([PathKeyItem::Key("[index]".into())]);
    let text = key.to_string();
    assert_eq!(text, "\\[index\\]");
    let back: PathKey = text.parse().unwrap();
    assert_eq!(Arc::new(back), test_path_key([PathKeyItem::Index]));
}

/// Parse error messages describe the error.
#[test]
fn test_key_parse_error_messages() {
    assert_eq!(
        PathKeyParseError::DanglingEscape.message(),
        "dangling escape sequence"
    );
    let m = PathKeyParseError::InvalidEscape('a').message();
    assert!(m.contains('a'));
}

/// Keys built from their items equal keys built one parent at a time, and
/// no items give no key.
#[test]
fn test_key_from_items() {
    let key = PathKey::from_items(vec![PathKeyItem::Key("a".into()), PathKeyItem::Index]).unwrap();
    assert_eq!(
        Arc::new(key),
        test_path_key([PathKeyItem::Key("a".into()), PathKeyItem::Index])
    );
    assert!(PathKey::from_items(vec![]).is_none());
}

/// Two keys describe the same path exactly when their items are equal.
#[test]
fn test_key_same_path() {
    let a = test_path_key([PathKeyItem::Key("a".into()), PathKeyItem::Index]);
    let b: PathKey = "a.[index]".parse().unwrap();
    let c: PathKey = "a.b".parse().unwrap();
    assert!(a.same_path(&b));
    assert!(!a.same_path(&c));
}
