//! The inference stage's decision logic.
//!
//! The engine itself is an opaque external collaborator; the library takes
//! whatever the engine returned for one sample and builds the stored result:
//! a success carrying the engine's output, or a failure-tagged result that
//! keeps the pipeline running — one bad sample never stops the stage.

use vstd::prelude::*;

use crate::data::FinalSampleData;
use crate::data::ResultStatus;
use crate::data::StoredResultData;

verus! {

/// Builds the stored result for one sample from the engine's outcome.
///
/// The result keeps the sample's traceable identity. A successful inference
/// carries the engine's payload; a failed one is tagged `Failure` with an
/// empty payload and is emitted rather than dropped.
pub fn infer_step(sample: &FinalSampleData, engine_output: Option<Vec<u8>>) -> (r: StoredResultData)
    ensures
        r.source == sample.source,
        r.key == sample.key,
        r.index == sample.index,
        match engine_output {
            Some(p) => r.status == ResultStatus::Success && r.payload == p,
            None => r.status == ResultStatus::Failure && r.payload@ == Seq::<u8>::empty(),
        },
{
    match engine_output {
        Some(p) => StoredResultData {
            source: sample.source,
            key: sample.key,
            index: sample.index,
            payload: p,
            status: ResultStatus::Success,
        },
        None => {
            let payload: Vec<u8> = Vec::new();
            StoredResultData {
                source: sample.source,
                key: sample.key,
                index: sample.index,
                payload,
                status: ResultStatus::Failure,
            }
        },
    }
}

} // verus!
