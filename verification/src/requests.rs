//! The request source: from an arrival profile to the requests of a run.

use vstd::prelude::*;
use crate::error::SimError;
use crate::events::Request;
use crate::models::RequestProfile;

verus! {

/// The requests that come of a list of arrival instants: ids count from 1
/// in the order of the list.
pub open spec fn requests_at(arrivals_ms: Seq<u64>) -> Seq<Request> {
    Seq::new(
        arrivals_ms.len(),
        |i: int| Request { id: (i + 1) as usize, arrival_time_ms: arrivals_ms[i] },
    )
}

/// The arrival instants of a profile: one per millisecond from 0 for a fixed
/// count, all at once for a burst, the sampled instants as they are.
pub open spec fn profile_arrivals(profile: RequestProfile) -> Seq<u64> {
    match profile {
        RequestProfile::FixedCount(count) => Seq::new(count as nat, |i: int| i as u64),
        RequestProfile::Burst { count, at_ms } => Seq::new(count as nat, |i: int| at_ms),
        RequestProfile::Poisson { duration_ms, arrivals_ms } => arrivals_ms@,
    }
}

/// What a profile is rejected for before any request is made.
pub open spec fn profile_error(profile: RequestProfile) -> Option<SimError> {
    match profile {
        RequestProfile::FixedCount(count) => if count == 0 {
            Some(SimError::RequestsZero)
        } else {
            None
        },
        RequestProfile::Burst { count, at_ms } => if count == 0 {
            Some(SimError::RequestsZero)
        } else {
            None
        },
        RequestProfile::Poisson { duration_ms, arrivals_ms } => if duration_ms == 0 {
            Some(SimError::InvalidRequestDuration(duration_ms))
        } else {
            None
        },
    }
}

/// What `build_requests` answers: the profile's own error, or `RequestsZero`
/// for a profile without arrivals, or the requests.
pub open spec fn requests_of(profile: RequestProfile) -> Result<Seq<Request>, SimError> {
    match profile_error(profile) {
        Some(error) => Err(error),
        None => if profile_arrivals(profile).len() == 0 {
            Err(SimError::RequestsZero)
        } else {
            Ok(requests_at(profile_arrivals(profile)))
        },
    }
}

/// Checks a profile without making its requests.
pub fn check_profile(profile: &RequestProfile) -> (outcome: Result<(), SimError>)
    ensures
        match outcome {
            Ok(_) => profile_error(*profile) is None,
            Err(error) => profile_error(*profile) == Some(error),
        },
{
    match profile {
        RequestProfile::FixedCount(count) => {
            if *count == 0 {
                return Err(SimError::RequestsZero);
            }
        },
        RequestProfile::Burst { count, at_ms } => {
            if *count == 0 {
                return Err(SimError::RequestsZero);
            }
        },
        RequestProfile::Poisson { duration_ms, arrivals_ms } => {
            if *duration_ms == 0 {
                return Err(SimError::InvalidRequestDuration(*duration_ms));
            }
        },
    }
    Ok(())
}

/// Makes the requests of a profile.
pub fn build_requests(profile: &RequestProfile) -> (outcome: Result<Vec<Request>, SimError>)
    ensures
        match outcome {
            Ok(requests) => requests_of(*profile) == Ok::<Seq<Request>, SimError>(requests@),
            Err(error) => requests_of(*profile) == Err::<Seq<Request>, SimError>(error),
        },
{
    match check_profile(profile) {
        Err(error) => {
            return Err(error);
        },
        Ok(_) => {},
    }
    let mut requests: Vec<Request> = Vec::new();
    match profile {
        RequestProfile::FixedCount(count) => {
            let mut idx: usize = 0;
            while idx < *count
                invariant
                    idx <= *count,
                    requests@ == requests_at(Seq::new(idx as nat, |i: int| i as u64)),
                decreases *count - idx,
            {
                requests.push(Request { id: idx + 1, arrival_time_ms: idx as u64 });
                proof {
                    assert(requests@ =~= requests_at(Seq::new((idx + 1) as nat, |i: int| i as u64)));
                }
                idx += 1;
            }
        },
        RequestProfile::Burst { count, at_ms } => {
            let mut idx: usize = 0;
            while idx < *count
                invariant
                    idx <= *count,
                    requests@ == requests_at(Seq::new(idx as nat, |i: int| *at_ms)),
                decreases *count - idx,
            {
                requests.push(Request { id: idx + 1, arrival_time_ms: *at_ms });
                proof {
                    assert(requests@ =~= requests_at(Seq::new((idx + 1) as nat, |i: int| *at_ms)));
                }
                idx += 1;
            }
        },
        RequestProfile::Poisson { duration_ms, arrivals_ms } => {
            let mut idx: usize = 0;
            while idx < arrivals_ms.len()
                invariant
                    idx <= arrivals_ms.len(),
                    requests@ == requests_at(arrivals_ms@.take(idx as int)),
                decreases arrivals_ms.len() - idx,
            {
                requests.push(Request { id: idx + 1, arrival_time_ms: arrivals_ms[idx] });
                proof {
                    assert(requests@ =~= requests_at(arrivals_ms@.take(idx as int + 1)));
                }
                idx += 1;
            }
            proof {
                assert(arrivals_ms@.take(idx as int) =~= arrivals_ms@);
            }
            if requests.len() == 0 {
                return Err(SimError::RequestsZero);
            }
        },
    }
    Ok(requests)
}

} // verus!
