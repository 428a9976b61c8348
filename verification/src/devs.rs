use vstd::prelude::*;

use crate::GritError;

verus! {

/// Configuration for the developer-pairs analysis.  Date bounds are
/// timestamps in seconds since the epoch.
pub struct DevsArgs {
    pub path: String,
    pub pairs: bool,
    pub start_date: Option<i64>,
    pub end_date: Option<i64>,
}

impl DevsArgs {
    pub fn new(path: String, pairs: bool, start_date: Option<i64>, end_date: Option<i64>) -> (r:
        Self)
        ensures
            r.path == path && r.pairs == pairs && r.start_date == start_date && r.end_date
                == end_date,
    {
        DevsArgs { path, pairs, start_date, end_date }
    }
}

/// Runs the developer analysis.  Not implemented yet: succeeds without
/// doing any work.
pub fn devs(args: DevsArgs) -> (r: Result<(), GritError>)
    ensures
        r is Ok,
{
    let _ = args;
    Ok(())
}

} // verus!
