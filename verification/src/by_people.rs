use vstd::prelude::*;

use crate::GritError;

verus! {

/// Configuration for the by-people analysis.
pub struct ByPeopleArgs {
    pub path: String,
}

/// One contributor's added and deleted line counts.
pub struct ByPeople {
    pub name: String,
    pub lines_added: usize,
    pub lines_deleted: usize,
}

impl ByPeople {
    pub fn new(name: String) -> (r: Self)
        ensures
            r.name == name && r.lines_added == 0 && r.lines_deleted == 0,
    {
        ByPeople { name, lines_added: 0, lines_deleted: 0 }
    }
}

/// Runs the by-people analysis.  Not implemented yet: succeeds without
/// doing any work.
pub fn process_people(args: ByPeopleArgs) -> (r: Result<(), GritError>)
    ensures
        r is Ok,
{
    let _ = args;
    Ok(())
}

/// Finds the contributors.  Not implemented yet: finds none.
pub fn find_people(args: ByPeopleArgs) -> (r: Result<Vec<ByPeople>, GritError>)
    ensures
        r matches Ok(v) && v@.len() == 0,
{
    let _ = args;
    Ok(Vec::new())
}

} // verus!
