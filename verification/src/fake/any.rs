use crate::data::value::{DataValue, DataValueRef, Scalar};
use crate::fake::email::EmailFakeData;
use crate::fake::ignore::IgnoreFakeData;
use crate::fake::lorem::LoremIpsumFakeData;
use crate::fake::name::NameFakeData;
use crate::fake::number::NumberFakeData;
use crate::fake::number_string::NumberStringFakeData;
use crate::fake::uuid::UuidFakeData;
use crate::fake::wordlist::WordlistFakeData;
use crate::fake::{FakeDataError, FakeDataProducer, FakeDataProducerData};
use vstd::prelude::*;

verus! {

/// Any producer of the library, so that a configuration can hold producers
/// of every kind.
#[derive(Debug)]
pub enum AnyFakeData {
    Ignore(IgnoreFakeData),
    Lorem(LoremIpsumFakeData),
    Uuid(UuidFakeData),
    Wordlist(WordlistFakeData),
    Email(EmailFakeData),
    Number(NumberFakeData),
    Name(NameFakeData),
    NumberString(NumberStringFakeData),
}

impl FakeDataProducer for AnyFakeData {
    open spec fn produces(&self, lists: Map<Seq<char>, Seq<Seq<char>>>, original: Scalar, value: Scalar) -> bool {
        match self {
            AnyFakeData::Ignore(p) => p.produces(lists, original, value),
            AnyFakeData::Lorem(p) => p.produces(lists, original, value),
            AnyFakeData::Uuid(p) => p.produces(lists, original, value),
            AnyFakeData::Wordlist(p) => p.produces(lists, original, value),
            AnyFakeData::Email(p) => p.produces(lists, original, value),
            AnyFakeData::Number(p) => p.produces(lists, original, value),
            AnyFakeData::Name(p) => p.produces(lists, original, value),
            AnyFakeData::NumberString(p) => p.produces(lists, original, value),
        }
    }

    open spec fn fails_with(&self, lists: Map<Seq<char>, Seq<Seq<char>>>, original: Scalar, e: FakeDataError) -> bool {
        match self {
            AnyFakeData::Ignore(p) => p.fails_with(lists, original, e),
            AnyFakeData::Lorem(p) => p.fails_with(lists, original, e),
            AnyFakeData::Uuid(p) => p.fails_with(lists, original, e),
            AnyFakeData::Wordlist(p) => p.fails_with(lists, original, e),
            AnyFakeData::Email(p) => p.fails_with(lists, original, e),
            AnyFakeData::Number(p) => p.fails_with(lists, original, e),
            AnyFakeData::Name(p) => p.fails_with(lists, original, e),
            AnyFakeData::NumberString(p) => p.fails_with(lists, original, e),
        }
    }

    /// The value the producer held makes.
    fn produce_fake(
        &self,
        original_value: DataValueRef<'_>,
        data: &mut FakeDataProducerData,
    ) -> (r: Result<DataValue, FakeDataError>) {
        match self {
            AnyFakeData::Ignore(p) => p.produce_fake(original_value, data),
            AnyFakeData::Lorem(p) => p.produce_fake(original_value, data),
            AnyFakeData::Uuid(p) => p.produce_fake(original_value, data),
            AnyFakeData::Wordlist(p) => p.produce_fake(original_value, data),
            AnyFakeData::Email(p) => p.produce_fake(original_value, data),
            AnyFakeData::Number(p) => p.produce_fake(original_value, data),
            AnyFakeData::Name(p) => p.produce_fake(original_value, data),
            AnyFakeData::NumberString(p) => p.produce_fake(original_value, data),
        }
    }

    /// Only UUIDs may be used in output mappings.
    fn is_allowed_output(&self) -> (r: bool)
        ensures
            r == (self is Uuid),
    {
        match self {
            AnyFakeData::Ignore(p) => p.is_allowed_output(),
            AnyFakeData::Lorem(p) => p.is_allowed_output(),
            AnyFakeData::Uuid(p) => p.is_allowed_output(),
            AnyFakeData::Wordlist(p) => p.is_allowed_output(),
            AnyFakeData::Email(p) => p.is_allowed_output(),
            AnyFakeData::Number(p) => p.is_allowed_output(),
            AnyFakeData::Name(p) => p.is_allowed_output(),
            AnyFakeData::NumberString(p) => p.is_allowed_output(),
        }
    }
}

} // verus!
