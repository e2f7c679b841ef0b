use crate::data::value::{DataValue, DataValueItem, DataValueRef, Scalar};
use crate::fake::number::{is_fake_number, range_failure, range_fits, range_ordered, NumberRange};
use crate::fake::{FakeDataError, FakeDataProducer, FakeDataProducerData, FakeDataProducerFactory};
use vstd::prelude::*;

verus! {

/// Describes the producer of numbers written as strings.
pub struct NumberStringFakeDataFactory;

impl FakeDataProducerFactory for NumberStringFakeDataFactory {
    fn name(&self) -> (r: String)
        ensures
            r@ == "Number (String)"@,
    {
        String::from_str("Number (String)")
    }

    fn is_allowed_for(&self, item: &DataValueItem<'_>) -> (r: bool)
        ensures
            r == exists|i: int|
                0 <= i < item.values@.len() && (#[trigger] item.values@[i]@ is String
                    || item.values@[i]@ is Null),
    {
        item.is_any_string_or_null()
    }
}

/// The text of an optional affix.
pub open spec fn affix_text(a: Option<String>) -> Seq<char> {
    match a {
        Some(s) => s@,
        None => seq![],
    }
}

/// The text of a number between an optional prefix and an optional suffix.
pub fn apply_affixes(value: String, prefix: &Option<String>, suffix: &Option<String>) -> (r: String)
    ensures
        r@ == affix_text(*prefix) + value@ + affix_text(*suffix),
{
    let mut out = match prefix {
        Some(p) => p.clone(),
        None => String::new(),
    };
    out.append(value.as_str());
    match suffix {
        Some(s) => out.append(s.as_str()),
        None => {},
    }
    assert(out@ =~= affix_text(*prefix) + value@ + affix_text(*suffix));
    out
}

/// Producer of random numbers of a range written as strings, between an
/// optional prefix and an optional suffix.
#[derive(Debug)]
pub struct NumberStringFakeData {
    pub range: NumberRange,
    pub prefix: Option<String>,
    pub suffix: Option<String>,
}

impl FakeDataProducer for NumberStringFakeData {
    open spec fn fails_with(&self, lists: Map<Seq<char>, Seq<Seq<char>>>, original: Scalar, e: FakeDataError) -> bool {
        range_failure(self.range, e)
    }

    open spec fn produces(&self, lists: Map<Seq<char>, Seq<Seq<char>>>, original: Scalar, value: Scalar) -> bool {
        value matches Scalar::String(s) && exists|t: Seq<char>|
            is_fake_number(self.range, t) && s == affix_text(self.prefix) + t + affix_text(
                self.suffix,
            )
    }

    fn produce_fake(
        &self,
        original_value: DataValueRef<'_>,
        data: &mut FakeDataProducerData,
    ) -> (r: Result<DataValue, FakeDataError>)
        ensures
            r is Ok <==> range_ordered(self.range) && range_fits(self.range),
            r matches Err(e) ==> (e == FakeDataError::MinGreaterThanMax <==> !range_ordered(
                self.range,
            )),
            r matches Err(e) ==> e == FakeDataError::MinGreaterThanMax || e
                == FakeDataError::ScaledConversion,
            r matches Ok(v) ==> v@ matches Scalar::String(s) && exists|t: Seq<char>|
                is_fake_number(self.range, t) && s == affix_text(self.prefix) + t + affix_text(
                    self.suffix,
                ),
    {
        match self.range.fake(&mut data.rng_08) {
            Ok(n) => {
                let ghost t = n@;
                let text = apply_affixes(n.into_string(), &self.prefix, &self.suffix);
                assert(is_fake_number(self.range, t));
                Ok(DataValue::String(text))
            },
            Err(e) => Err(e),
        }
    }

    fn is_allowed_output(&self) -> (r: bool)
        ensures
            !r,
    {
        false
    }
}

} // verus!
