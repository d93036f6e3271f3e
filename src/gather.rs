use vstd::prelude::*;

use crate::job::TtsError;

verus! {

/// Gathers the outcome of every chunk's job, given in chunk order, into one
/// result. When every job succeeded, the locations come back in chunk order,
/// one per chunk. Otherwise the whole result fails, with the error of the
/// failed job that comes first in chunk order; no location is returned.
pub fn collect_locations(results: Vec<Result<String, TtsError>>) -> (r: Result<Vec<String>, TtsError>)
    ensures
        r is Ok <==> forall|i: int| 0 <= i < results.len() ==> #[trigger] results[i] is Ok,
        r matches Ok(locations) ==> {
            &&& locations.len() == results.len()
            &&& forall|i: int| 0 <= i < results.len() ==> #[trigger] locations[i] == results[i]->Ok_0
        },
        r matches Err(error) ==> exists|i: int|
            {
                &&& 0 <= i < results.len()
                &&& #[trigger] results[i] == Err::<String, TtsError>(error)
                &&& forall|j: int| 0 <= j < i ==> #[trigger] results[j] is Ok
            },
{
    let ghost all = results@;
    let mut locations: Vec<String> = Vec::new();
    for item in it: results.into_iter()
        invariant
            it.seq() == all,
            locations.len() == it.index(),
            forall|j: int| 0 <= j < it.index() ==> #[trigger] all[j] is Ok,
            forall|j: int| 0 <= j < it.index() ==> #[trigger] locations[j] == all[j]->Ok_0,
    {
        match item {
            Ok(location) => locations.push(location),
            Err(error) => {
                assert(all[it.index() as int] == Err::<String, TtsError>(error));
                return Err(error);
            },
        }
    }
    Ok(locations)
}

} // verus!
