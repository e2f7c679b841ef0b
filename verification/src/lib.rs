pub mod config;
pub mod data;
pub mod fake;
pub mod faker;
pub mod json;
pub mod prompt_utils;

use crate::data::json::{json_update_data, update_outcome, Json, JsonView, UpdateError};
use crate::data::UpdateStructureData;
use crate::fake::{FakeDataProducer, FakeDataProducerData};
use vstd::prelude::*;

verus! {

/// The outcome of a processing, without the document it gives.
pub open spec fn outcome_of(r: Result<Json, UpdateError>) -> Result<(), UpdateError> {
    match r {
        Ok(_) => Ok(()),
        Err(e) => Err(e),
    }
}

/// Processes the `input_data` document with the update data `data` and
/// gives the document with its values replaced; the input is left as it is.
/// This is `json_update_data` on a copy of the input, giving the updated copy
/// on success and only the error on failure.
pub fn process_json_file<P: FakeDataProducer>(
    input_data: Json,
    data: &mut UpdateStructureData<P>,
    producer_data: &mut FakeDataProducerData,
) -> (r: Result<Json, UpdateError>)
    ensures
        final(producer_data).wordlists@ == old(producer_data).wordlists@,
        final(data).config == old(data).config,
        exists|copy: JsonView|
            #[trigger] update_outcome(
                old(data).config,
                old(producer_data).wordlists@,
                old(data).mapping@,
                old(data).output_mapping@,
                final(data).mapping@,
                final(data).output_mapping@,
                input_data@,
                copy,
                outcome_of(r),
            ) && (r matches Ok(output) ==> output@ == copy),
        r == Err::<Json, UpdateError>(UpdateError::RootNotContainer) ==> *final(producer_data)
            == *old(producer_data),
{
    let mut output = input_data;
    let outcome = json_update_data(&mut output, data, producer_data);
    let ghost o = outcome;
    let r = match outcome {
        Ok(()) => Ok(output),
        Err(e) => Err(e),
    };
    proof {
        match o {
            Ok(u) => {
                assert(u == ());
                assert(outcome_of(r) == Ok::<(), UpdateError>(()));
            },
            Err(e) => {
                assert(r == Err::<Json, UpdateError>(e));
            },
        }
        assert(outcome_of(r) == o);
    }
    r
}

} // verus!
