use crate::data::value::{DataValue, DataValueItem, DataValueRef, Scalar};
use crate::fake::{FakeDataError, FakeDataProducer, FakeDataProducerData, FakeDataProducerFactory};
use fake::Fake;
use vstd::prelude::*;

verus! {

/// Describes the producer of e-mail addresses.
pub struct EmailFakeDataProducerFactory;

impl FakeDataProducerFactory for EmailFakeDataProducerFactory {
    fn name(&self) -> (r: String)
        ensures
            r@ == "Email"@,
    {
        String::from_str("Email")
    }

    fn is_allowed_for(&self, item: &DataValueItem<'_>) -> (r: bool)
        ensures
            r == exists|i: int|
                0 <= i < item.values@.len() && (#[trigger] item.values@[i]@ is String
                    || item.values@[i]@ is Null),
    {
        item.is_any_string_or_null()
    }
}

/// Whether `s` is an address at one of the reserved example domains.
pub open spec fn is_example_address(s: Seq<char>) -> bool {
    exists|user: Seq<char>, tld: Seq<char>|
        (tld == "com"@ || tld == "net"@ || tld == "org"@) && s == user + "@example."@ + tld
}

/// `fake::faker::internet::en::SafeEmail`: a lowercase first name at
/// `example.com`, `example.net` or `example.org`; the name is random.
#[verifier::external_body]
fn safe_email() -> (r: String)
    ensures
        is_example_address(r@),
{
    fake::faker::internet::en::SafeEmail().fake()
}

/// Producer of e-mail addresses.
#[derive(Debug)]
pub struct EmailFakeData;

impl FakeDataProducer for EmailFakeData {
    open spec fn fails_with(&self, lists: Map<Seq<char>, Seq<Seq<char>>>, original: Scalar, e: FakeDataError) -> bool {
        false
    }

    open spec fn produces(&self, lists: Map<Seq<char>, Seq<Seq<char>>>, original: Scalar, value: Scalar) -> bool {
        value matches Scalar::String(s) && is_example_address(s)
    }

    fn produce_fake(
        &self,
        original_value: DataValueRef<'_>,
        data: &mut FakeDataProducerData,
    ) -> (r: Result<DataValue, FakeDataError>)
        ensures
            r matches Ok(v) && v@ matches Scalar::String(s) && is_example_address(s),
    {
        let value = safe_email();
        Ok(DataValue::String(value))
    }

    fn is_allowed_output(&self) -> (r: bool)
        ensures
            !r,
    {
        false
    }
}

} // verus!
