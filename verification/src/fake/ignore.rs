use crate::data::value::{DataValue, DataValueItem, DataValueRef, Scalar};
use crate::fake::{FakeDataError, FakeDataProducer, FakeDataProducerData, FakeDataProducerFactory};
use vstd::prelude::*;

verus! {

/// Describes the producer that keeps values as they are.
pub struct IgnoreFakeDataFactory;

impl FakeDataProducerFactory for IgnoreFakeDataFactory {
    fn name(&self) -> (r: String)
        ensures
            r@ == "Ignore"@,
    {
        String::from_str("Ignore")
    }

    fn is_allowed_for(&self, item: &DataValueItem<'_>) -> (r: bool)
        ensures
            r,
    {
        true
    }
}

/// Producer that gives back the original value.
#[derive(Debug)]
pub struct IgnoreFakeData;

impl FakeDataProducer for IgnoreFakeData {
    open spec fn fails_with(&self, lists: Map<Seq<char>, Seq<Seq<char>>>, original: Scalar, e: FakeDataError) -> bool {
        false
    }

    open spec fn produces(&self, lists: Map<Seq<char>, Seq<Seq<char>>>, original: Scalar, value: Scalar) -> bool {
        value == original
    }

    fn produce_fake(
        &self,
        original_value: DataValueRef<'_>,
        data: &mut FakeDataProducerData,
    ) -> (r: Result<DataValue, FakeDataError>)
        ensures
            r matches Ok(v) && v@ == original_value@,
    {
        Ok(original_value.to_owned_value())
    }

    fn is_allowed_output(&self) -> (r: bool)
        ensures
            !r,
    {
        false
    }
}

} // verus!
