//! Error taxonomy of the gateway and the rule that combines the outcomes
//! of two upstream sources into one overall outcome.

use vstd::prelude::*;

verus! {

/// Outcome classification for a single upstream fetch: the upstream
/// either reported that the resource does not exist, or it was
/// unreachable, answered with another error status, or sent a body that
/// could not be decoded.
#[derive(Clone, Copy, Debug, PartialEq, Eq, Structural)]
pub enum FetchError {
    NotFound,
    Unavailable,
}

/// Failure classification of a whole request, mapped to a response
/// status by `status_code`.
#[derive(Clone, Copy, Debug, PartialEq, Eq, Structural)]
pub enum ApiError {
    Unauthorized,
    BadRequest,
    NotFound,
    UpstreamUnavailable,
}

pub open spec fn spec_status_code(e: ApiError) -> u16 {
    match e {
        ApiError::Unauthorized => 401,
        ApiError::BadRequest => 400,
        ApiError::NotFound => 404,
        ApiError::UpstreamUnavailable => 502,
    }
}

impl ApiError {
    /// The HTTP status this failure is reported as.
    pub fn status_code(&self) -> (code: u16)
        ensures
            code == spec_status_code(*self),
    {
        match self {
            ApiError::Unauthorized => 401,
            ApiError::BadRequest => 400,
            ApiError::NotFound => 404,
            ApiError::UpstreamUnavailable => 502,
        }
    }
}

/// Classifies the status of a failed upstream call: a 404 means the
/// resource is absent, anything else (including no status at all, as for
/// a transport failure) means the upstream is unavailable.
pub open spec fn spec_classify_failure(status: Option<u16>) -> FetchError {
    if status == Some(404u16) {
        FetchError::NotFound
    } else {
        FetchError::Unavailable
    }
}

pub fn classify_failure(status: Option<u16>) -> (e: FetchError)
    ensures
        e == spec_classify_failure(status),
{
    match status {
        Some(404u16) => FetchError::NotFound,
        _ => FetchError::Unavailable,
    }
}

/// How the outcomes of two upstream sources combine into one overall
/// outcome: a single unavailable source fails the whole request (no
/// partial results), the request is not-found only when both sources
/// report not-found, and otherwise each successful source contributes
/// its payload.
pub open spec fn spec_combine_sources<A, B>(
    a: Result<A, FetchError>,
    b: Result<B, FetchError>,
) -> Result<(Option<A>, Option<B>), ApiError> {
    if a == Result::<A, FetchError>::Err(FetchError::Unavailable) || b
        == Result::<B, FetchError>::Err(FetchError::Unavailable) {
        Err(ApiError::UpstreamUnavailable)
    } else if a is Err && b is Err {
        Err(ApiError::NotFound)
    } else {
        Ok(
            (
                match a {
                    Ok(x) => Some(x),
                    Err(_) => None,
                },
                match b {
                    Ok(y) => Some(y),
                    Err(_) => None,
                },
            ),
        )
    }
}

pub fn combine_sources<A, B>(a: Result<A, FetchError>, b: Result<B, FetchError>) -> (r: Result<
    (Option<A>, Option<B>),
    ApiError,
>)
    ensures
        r == spec_combine_sources(a, b),
{
    match (a, b) {
        (Err(FetchError::Unavailable), _) => Err(ApiError::UpstreamUnavailable),
        (_, Err(FetchError::Unavailable)) => Err(ApiError::UpstreamUnavailable),
        (Err(FetchError::NotFound), Err(FetchError::NotFound)) => Err(ApiError::NotFound),
        (Ok(x), Ok(y)) => Ok((Some(x), Some(y))),
        (Ok(x), Err(FetchError::NotFound)) => Ok((Some(x), None)),
        (Err(FetchError::NotFound), Ok(y)) => Ok((None, Some(y))),
    }
}

/// A single unavailable source always fails the whole request: no
/// partial result is ever produced from the other source.
pub proof fn lemma_single_source_failure<A, B>(a: Result<A, FetchError>, b: Result<B, FetchError>)
    requires
        a == Result::<A, FetchError>::Err(FetchError::Unavailable) || b == Result::<
            B,
            FetchError,
        >::Err(FetchError::Unavailable),
    ensures
        spec_combine_sources(a, b) == Result::<(Option<A>, Option<B>), ApiError>::Err(
            ApiError::UpstreamUnavailable,
        ),
{
}

/// The combined outcome is not-found exactly when both sources report
/// not-found.
pub proof fn lemma_not_found_needs_both<A, B>(a: Result<A, FetchError>, b: Result<B, FetchError>)
    ensures
        spec_combine_sources(a, b) == Result::<(Option<A>, Option<B>), ApiError>::Err(
            ApiError::NotFound,
        ) <==> a == Result::<A, FetchError>::Err(FetchError::NotFound) && b == Result::<
            B,
            FetchError,
        >::Err(FetchError::NotFound),
{
    match a {
        Ok(_) => {},
        Err(ea) => {
            match b {
                Ok(_) => {},
                Err(eb) => {
                    assert(ea == FetchError::NotFound || ea == FetchError::Unavailable);
                    assert(eb == FetchError::NotFound || eb == FetchError::Unavailable);
                },
            }
        },
    }
}

} // verus!
