use crate::data::value::{DataValue, DataValueItem, DataValueRef, Scalar};
use crate::fake::{FakeDataError, FakeDataProducer, FakeDataProducerData, FakeDataProducerFactory};
use fake::Fake;
use vstd::prelude::*;

verus! {

/// Describes the producer of UUIDs.
pub struct UuidFakeDataFactory;

impl FakeDataProducerFactory for UuidFakeDataFactory {
    fn name(&self) -> (r: String)
        ensures
            r@ == "UUID"@,
    {
        String::from_str("UUID")
    }

    fn is_allowed_for(&self, item: &DataValueItem<'_>) -> (r: bool)
        ensures
            r == exists|i: int|
                0 <= i < item.values@.len() && (#[trigger] item.values@[i]@ is String
                    || item.values@[i]@ is Null),
    {
        item.is_any_string_or_null()
    }
}

/// The UUID versions that can be made.
#[derive(Debug, Clone, Copy, PartialEq, Eq)]
pub enum UuidVersion {
    V1,
    V3,
    V4,
    V5,
    V6,
    V7,
}

/// Every version, in the order in which they are offered.
pub open spec fn uuid_versions() -> Seq<UuidVersion> {
    seq![
        UuidVersion::V1,
        UuidVersion::V3,
        UuidVersion::V4,
        UuidVersion::V5,
        UuidVersion::V6,
        UuidVersion::V7,
    ]
}

/// The number of a version, as written in the version field of a UUID.
pub open spec fn version_number(v: UuidVersion) -> u8 {
    match v {
        UuidVersion::V1 => 1,
        UuidVersion::V3 => 3,
        UuidVersion::V4 => 4,
        UuidVersion::V5 => 5,
        UuidVersion::V6 => 6,
        UuidVersion::V7 => 7,
    }
}

/// The digit that stands for a version in the text of a UUID.
pub open spec fn version_digit(v: UuidVersion) -> char {
    match v {
        UuidVersion::V1 => '1',
        UuidVersion::V3 => '3',
        UuidVersion::V4 => '4',
        UuidVersion::V5 => '5',
        UuidVersion::V6 => '6',
        UuidVersion::V7 => '7',
    }
}

/// The version that a version number stands for, where it is one that can
/// be made.
pub open spec fn version_of_number(n: u8) -> Option<UuidVersion> {
    if n == 1 {
        Some(UuidVersion::V1)
    } else if n == 3 {
        Some(UuidVersion::V3)
    } else if n == 4 {
        Some(UuidVersion::V4)
    } else if n == 5 {
        Some(UuidVersion::V5)
    } else if n == 6 {
        Some(UuidVersion::V6)
    } else if n == 7 {
        Some(UuidVersion::V7)
    } else {
        None
    }
}

/// A lowercase hexadecimal digit.
pub open spec fn is_lower_hex_digit(c: char) -> bool {
    ('0' <= c && c <= '9') || ('a' <= c && c <= 'f')
}

/// The hyphenated text of a UUID: 36 characters, hyphens at positions 8,
/// 13, 18 and 23 and lowercase hexadecimal digits elsewhere.
pub open spec fn is_hyphenated_uuid(s: Seq<char>) -> bool {
    &&& s.len() == 36
    &&& forall|i: int|
        0 <= i < 36 ==> if i == 8 || i == 13 || i == 18 || i == 23 {
            #[trigger] s[i] == '-'
        } else {
            is_lower_hex_digit(s[i])
        }
}

/// The value of a decimal digit.
pub open spec fn digit_value(c: char) -> int {
    c as int - '0' as int
}

/// What `uuid::Uuid::parse_str` followed by `get_version` gives for a text:
/// the version number, where the text is a UUID whose version is known.
pub uninterp spec fn uuid_text_version(text: Seq<char>) -> Option<u8>;

/// `uuid::Uuid::parse_str` and then `Uuid::get_version`, the version taken
/// by its number. The parser reads, among other forms, the hyphenated text of a
/// UUID, whose character 14 is the version digit; `get_version` gives that
/// number where it lies in 1 to 8.
#[verifier::external_body]
fn parse_uuid_version(text: &str) -> (r: Option<u8>)
    ensures
        r == uuid_text_version(text@),
        r matches Some(n) ==> n <= 15,
        is_hyphenated_uuid(text@) && '1' <= text@[14] <= '8' ==> r == Some(
            digit_value(text@[14]) as u8,
        ),
{
    match uuid::Uuid::parse_str(text) {
        Ok(value) => match value.get_version() {
            Some(version) => Some(version as u8),
            None => None,
        },
        Err(_) => None,
    }
}

/// `fake::uuid::UUIDv1`: a random version 1 UUID in its hyphenated text.
#[verifier::external_body]
fn fake_uuid_v1() -> (r: String)
    ensures
        is_hyphenated_uuid(r@),
        r@[14] == '1',
{
    fake::uuid::UUIDv1.fake()
}

/// `fake::uuid::UUIDv3`: a random version 3 UUID in its hyphenated text.
#[verifier::external_body]
fn fake_uuid_v3() -> (r: String)
    ensures
        is_hyphenated_uuid(r@),
        r@[14] == '3',
{
    fake::uuid::UUIDv3.fake()
}

/// `fake::uuid::UUIDv4`: a random version 4 UUID in its hyphenated text.
#[verifier::external_body]
fn fake_uuid_v4() -> (r: String)
    ensures
        is_hyphenated_uuid(r@),
        r@[14] == '4',
{
    fake::uuid::UUIDv4.fake()
}

/// `fake::uuid::UUIDv5`: a random version 5 UUID in its hyphenated text.
#[verifier::external_body]
fn fake_uuid_v5() -> (r: String)
    ensures
        is_hyphenated_uuid(r@),
        r@[14] == '5',
{
    fake::uuid::UUIDv5.fake()
}

/// `fake::uuid::UUIDv6`: a random version 6 UUID in its hyphenated text.
#[verifier::external_body]
fn fake_uuid_v6() -> (r: String)
    ensures
        is_hyphenated_uuid(r@),
        r@[14] == '6',
{
    fake::uuid::UUIDv6.fake()
}

/// `fake::uuid::UUIDv7`: a random version 7 UUID in its hyphenated text.
#[verifier::external_body]
fn fake_uuid_v7() -> (r: String)
    ensures
        is_hyphenated_uuid(r@),
        r@[14] == '7',
{
    fake::uuid::UUIDv7.fake()
}

impl UuidVersion {
    /// Every version, in the order in which they are offered.
    pub fn variants() -> (r: Vec<UuidVersion>)
        ensures
            r@ == uuid_versions(),
    {
        vec![
            UuidVersion::V1,
            UuidVersion::V3,
            UuidVersion::V4,
            UuidVersion::V5,
            UuidVersion::V6,
            UuidVersion::V7,
        ]
    }

    /// The name of the version.
    pub fn label(&self) -> (r: String)
        ensures
            r@ == (match self {
                UuidVersion::V1 => "V1"@,
                UuidVersion::V3 => "V3"@,
                UuidVersion::V4 => "V4"@,
                UuidVersion::V5 => "V5"@,
                UuidVersion::V6 => "V6"@,
                UuidVersion::V7 => "V7"@,
            }),
    {
        match self {
            UuidVersion::V1 => String::from_str("V1"),
            UuidVersion::V3 => String::from_str("V3"),
            UuidVersion::V4 => String::from_str("V4"),
            UuidVersion::V5 => String::from_str("V5"),
            UuidVersion::V6 => String::from_str("V6"),
            UuidVersion::V7 => String::from_str("V7"),
        }
    }

    /// A random UUID of this version, as a string value.
    pub fn fake(&self) -> (r: DataValue)
        ensures
            r@ matches Scalar::String(s) && is_hyphenated_uuid(s) && s[14] == version_digit(
                *self,
            ),
    {
        let value = match self {
            UuidVersion::V1 => fake_uuid_v1(),
            UuidVersion::V3 => fake_uuid_v3(),
            UuidVersion::V4 => fake_uuid_v4(),
            UuidVersion::V5 => fake_uuid_v5(),
            UuidVersion::V6 => fake_uuid_v6(),
            UuidVersion::V7 => fake_uuid_v7(),
        };
        DataValue::String(value)
    }

    /// The version that the version number `other` stands for, where it is
    /// one that can be made.
    pub fn equivalent(other: u8) -> (r: Option<UuidVersion>)
        ensures
            r == version_of_number(other),
    {
        match other {
            1 => Some(UuidVersion::V1),
            3 => Some(UuidVersion::V3),
            4 => Some(UuidVersion::V4),
            5 => Some(UuidVersion::V5),
            6 => Some(UuidVersion::V6),
            7 => Some(UuidVersion::V7),
            _ => None,
        }
    }

    /// The position of a version in the order in which they are offered.
    pub fn position(&self) -> (r: usize)
        ensures
            r < uuid_versions().len(),
            uuid_versions()[r as int] == *self,
    {
        match self {
            UuidVersion::V1 => 0,
            UuidVersion::V3 => 1,
            UuidVersion::V4 => 2,
            UuidVersion::V5 => 3,
            UuidVersion::V6 => 4,
            UuidVersion::V7 => 5,
        }
    }
}

/// The version number of a scalar: that of the UUID its text holds.
pub open spec fn scalar_uuid_version(v: Scalar) -> Option<u8> {
    match v {
        Scalar::String(s) => uuid_text_version(s),
        _ => None,
    }
}

/// The version number of the UUID held by a string value; `None` for any
/// other value and for a text that is no UUID of a known version.
pub fn original_value_version(value: &DataValueRef<'_>) -> (r: Option<u8>)
    ensures
        r == scalar_uuid_version(value@),
        match value@ {
            Scalar::String(s) => is_hyphenated_uuid(s) && '1' <= s[14] <= '8' ==> r == Some(
                digit_value(s[14]) as u8,
            ),
            _ => r is None,
        },
{
    match value {
        DataValueRef::String(text) => parse_uuid_version(text),
        _ => None,
    }
}

/// The version number of the first value that holds a UUID of a known
/// version.
pub open spec fn first_uuid_version(values: Seq<Scalar>) -> Option<u8>
    decreases values.len(),
{
    if values.len() == 0 {
        None
    } else if scalar_uuid_version(values[0]) is Some {
        scalar_uuid_version(values[0])
    } else {
        first_uuid_version(values.drop_first())
    }
}

/// The version found in the values of an item: that of the first value
/// holding a UUID of a known version, where it is a version that can be made.
pub fn suggested_version(item: &DataValueItem<'_>) -> (r: Option<UuidVersion>)
    ensures
        r == (match first_uuid_version(item.value_views()) {
            Some(n) => version_of_number(n),
            None => None,
        }),
{
    let mut i: usize = 0;
    assert(item.value_views().skip(0) =~= item.value_views());
    while i < item.values.len()
        invariant
            0 <= i <= item.values@.len(),
            first_uuid_version(item.value_views()) == first_uuid_version(
                item.value_views().skip(i as int),
            ),
        decreases item.values@.len() - i,
    {
        let ghost rest = item.value_views().skip(i as int);
        assert(rest[0] == item.values@[i as int]@);
        assert(rest.drop_first() =~= item.value_views().skip(i + 1));
        match original_value_version(&item.values[i]) {
            Some(n) => {
                return UuidVersion::equivalent(n);
            },
            None => {},
        }
        i = i + 1;
    }
    assert(item.value_views().skip(i as int).len() == 0);
    None
}

/// The position at which the version prompt starts: that of the suggested
/// version, or the first one where there is none.
pub fn starting_version_index(suggested: Option<UuidVersion>) -> (r: usize)
    ensures
        r < uuid_versions().len(),
        suggested matches Some(v) ==> uuid_versions()[r as int] == v,
        suggested is None ==> r == 0,
{
    match suggested {
        Some(v) => v.position(),
        None => 0,
    }
}

/// The number of each version, read back as a version, is that version.
pub proof fn lemma_version_number_round_trip(v: UuidVersion)
    ensures
        version_of_number(version_number(v)) == Some(v),
        digit_value(version_digit(v)) == version_number(v) as int,
{
}

/// Producer of random UUIDs of one version.
#[derive(Debug)]
pub struct UuidFakeData {
    pub version: UuidVersion,
}

impl FakeDataProducer for UuidFakeData {
    open spec fn fails_with(&self, lists: Map<Seq<char>, Seq<Seq<char>>>, original: Scalar, e: FakeDataError) -> bool {
        false
    }

    open spec fn produces(&self, lists: Map<Seq<char>, Seq<Seq<char>>>, original: Scalar, value: Scalar) -> bool {
        value matches Scalar::String(s) && is_hyphenated_uuid(s) && s[14] == version_digit(self.version)
    }

    fn produce_fake(
        &self,
        original_value: DataValueRef<'_>,
        data: &mut FakeDataProducerData,
    ) -> (r: Result<DataValue, FakeDataError>)
        ensures
            r matches Ok(v) && v@ matches Scalar::String(s) && is_hyphenated_uuid(s) && s[14]
                == version_digit(self.version),
    {
        Ok(self.version.fake())
    }

    fn is_allowed_output(&self) -> (r: bool)
        ensures
            r,
    {
        true
    }
}

} // verus!
