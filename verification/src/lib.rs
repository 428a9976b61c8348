use vstd::prelude::*;

pub mod by_date;
pub mod by_file;
pub mod by_people;
pub mod calendar;
pub mod cli;
pub mod devs;
pub mod effort;
pub mod fame;
pub mod git_utils;
pub mod utils;

verus! {

/// Default number of concurrent blame tasks used by the driver around this library.
pub const DEFAULT_THREADS: usize = 10;

/// The error taxonomy of the analyses: repository-level failures are fatal,
/// a blame failure concerns a single file and is recoverable, and a malformed
/// filter pattern is rejected before any work begins.
#[derive(Debug)]
pub enum GritError {
    RepositoryAccess(String),
    Blame(String),
    FilterPattern(String),
    Overflow,
}

impl GritError {
    /// A human-readable description of the error.
    pub fn message(&self) -> String {
        match self {
            GritError::RepositoryAccess(m) => m.clone(),
            GritError::Blame(m) => m.clone(),
            GritError::FilterPattern(m) => m.clone(),
            GritError::Overflow => String::from_str("line count does not fit a machine word"),
        }
    }
}

/// An analysis that can be run to completion, yielding its result set.
pub trait Processable<T> {
    fn process(&self) -> Result<T, GritError>;
}

} // verus!
