//! A query over several stops: one outcome per stop, in the order of the
//! stops.

use vstd::prelude::*;
use crate::error::Error;
use crate::prediction::Predictions;

verus! {

/// Whether `outcomes[at]` is the first of the outcomes that is an error.
pub open spec fn first_failure(outcomes: Seq<Result<Predictions, Error>>, at: int) -> bool {
    &&& 0 <= at < outcomes.len()
    &&& outcomes[at] is Err
    &&& forall|i: int| 0 <= i < at ==> (#[trigger] outcomes[i]) is Ok
}

/// The predictions of all stops, in the order of the stops, where every
/// stop has some; else the error of the first stop that has none.
///
/// A query fails as a whole: there is no result for a part of the stops.
pub fn collect_outcomes(outcomes: Vec<Result<Predictions, Error>>) -> (res: Result<
    Vec<Predictions>,
    Error,
>)
    ensures
        match res {
            Ok(sets) => sets@.len() == outcomes@.len() && forall|i: int|
                0 <= i < sets@.len() ==> outcomes@[i] == Ok::<Predictions, Error>(
                    #[trigger] sets@[i],
                ),
            Err(e) => exists|at: int|
                first_failure(outcomes@, at) && outcomes@[at] == Err::<Predictions, Error>(e),
        },
{
    let mut sets: Vec<Predictions> = Vec::new();
    for outcome in it: outcomes
        invariant
            it.seq() == outcomes@,
            sets@.len() == it.index(),
            forall|i: int|
                0 <= i < sets@.len() ==> outcomes@[i] == Ok::<Predictions, Error>(
                    #[trigger] sets@[i],
                ),
    {
        match outcome {
            Ok(predictions) => {
                sets.push(predictions);
            },
            Err(e) => {
                assert(outcomes@[it.index() as int] == Err::<Predictions, Error>(e));
                assert forall|i: int| 0 <= i < it.index() implies (#[trigger] outcomes@[i]) is Ok by {
                    assert(outcomes@[i] == Ok::<Predictions, Error>(sets@[i]));
                }
                assert(first_failure(outcomes@, it.index() as int));
                return Err(e);
            },
        }
    }
    Ok(sets)
}

} // verus!
