//! Decisions of the command handlers the frontend calls.

use vstd::prelude::*;

verus! {

/// Default number of history rows when the caller gives no limit.
pub const DEFAULT_HISTORY_LIMIT: i64 = 200;

/// Largest number of history rows one request returns.
pub const MAX_HISTORY_LIMIT: i64 = 1000;

/// The row limit a history request uses: the caller's limit, or 200 when
/// absent, clamped to 1..=1000.
pub open spec fn spec_history_limit(limit: Option<i64>) -> i64 {
    let l = match limit {
        Some(l) => l,
        None => DEFAULT_HISTORY_LIMIT,
    };
    if l < 1 {
        1
    } else if l > MAX_HISTORY_LIMIT {
        MAX_HISTORY_LIMIT
    } else {
        l
    }
}

/// A limit inside 1..=1000 is used as given, one below is raised to 1,
/// one above is cut to 1000, and no limit means 200.
pub proof fn lemma_history_limit_clamps(limit: Option<i64>)
    ensures
        limit matches Some(l) ==> (1 <= l <= 1000 ==> spec_history_limit(limit) == l),
        limit matches Some(l) ==> (l < 1 ==> spec_history_limit(limit) == 1),
        limit matches Some(l) ==> (l > 1000 ==> spec_history_limit(limit) == 1000),
        limit is None ==> spec_history_limit(limit) == 200,
        1 <= spec_history_limit(limit) <= 1000,
{
}

/// `limit.unwrap_or(200).clamp(1, 1000)`.
pub fn history_limit(limit: Option<i64>) -> (r: i64)
    ensures
        r == spec_history_limit(limit),
        1 <= r <= MAX_HISTORY_LIMIT,
        limit matches Some(l) ==> (1 <= l <= 1000 ==> r == l),
        limit matches Some(l) ==> (l < 1 ==> r == 1),
        limit matches Some(l) ==> (l > 1000 ==> r == 1000),
        limit is None ==> r == 200,
{
    let l = match limit {
        Some(l) => l,
        None => DEFAULT_HISTORY_LIMIT,
    };
    if l < 1 {
        1
    } else if l > MAX_HISTORY_LIMIT {
        MAX_HISTORY_LIMIT
    } else {
        l
    }
}

} // verus!
