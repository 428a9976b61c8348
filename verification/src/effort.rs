use vstd::prelude::*;

use crate::GritError;
use crate::Processable;
use crate::fame::clone_opt_id;
use crate::fame::clone_string;
use crate::git_utils::CommitRange;
use crate::git_utils::BlameHunk;
use crate::git_utils::blame_hunks;
use crate::git_utils::clone_id;
use crate::git_utils::commit_seconds;
use crate::git_utils::find_commit_range;
use crate::git_utils::get_repo;
use crate::utils::char_ints;
use crate::utils::convert_git_time;
use crate::utils::convert_string_list_to_vec;
use crate::utils::days_sorted_distinct;
use crate::utils::generate_file_list;
use crate::utils::id_seq_contains;
use crate::utils::ids_sorted_distinct;
use crate::utils::insert_day_distinct;
use crate::utils::insert_id_distinct;
use crate::utils::lex_le;
use crate::utils::str_le;

verus! {

/// Configuration for the effort analysis.  Date bounds are timestamps
/// in seconds since the epoch.
pub struct EffortArgs {
    pub path: String,
    pub start_date: Option<i64>,
    pub end_date: Option<i64>,
    pub table: bool,
    pub includes: Option<String>,
    pub excludes: Option<String>,
    pub restrict_authors: Option<String>,
}

impl EffortArgs {
    pub fn new(
        path: String,
        start_date: Option<i64>,
        end_date: Option<i64>,
        table: bool,
        includes: Option<String>,
        excludes: Option<String>,
        restrict_authors: Option<String>,
    ) -> (r: EffortArgs)
        ensures
            r.path == path && r.start_date == start_date && r.end_date == end_date && r.table
                == table && r.includes == includes && r.excludes == excludes
                && r.restrict_authors == restrict_authors,
    {
        EffortArgs { path, start_date, end_date, table, includes, excludes, restrict_authors }
    }
}

/// One file's activity: how many distinct commits touch it and on how
/// many distinct local calendar days.
pub struct EffortOutput {
    pub file: String,
    pub commits: usize,
    pub active_days: usize,
}

impl EffortOutput {
    pub fn new(file: String) -> (r: EffortOutput)
        ensures
            r.file == file && r.commits == 0 && r.active_days == 0,
    {
        EffortOutput { file, commits: 0, active_days: 0 }
    }
}

/// One observation for the effort counts: a commit touching the file
/// and the day number of its local calendar date.
pub struct EffortItem {
    pub commit_id: Vec<u8>,
    pub day: i64,
}

/// Some item names this commit.
pub open spec fn items_have_commit(s: Seq<EffortItem>, c: Seq<u8>) -> bool {
    exists|i: int| 0 <= i < s.len() && s[i].commit_id@ == c
}

/// Some item names this day.
pub open spec fn items_have_day(s: Seq<EffortItem>, d: i64) -> bool {
    exists|i: int| 0 <= i < s.len() && s[i].day == d
}

/// Counts the distinct commits and the distinct days among the
/// observations: the sizes of the two canonical sets.
pub fn count_distinct_effort(items: &Vec<EffortItem>) -> (r: (usize, usize))
    ensures
        exists|gc: Seq<Vec<u8>>|
            ids_sorted_distinct(gc) && gc.len() == r.0 && forall|c: Seq<u8>|
                #[trigger] id_seq_contains(gc, c) <==> items_have_commit(items@, c),
        exists|gd: Seq<i64>|
            days_sorted_distinct(gd) && gd.len() == r.1 && forall|d: i64|
                gd.contains(d) <==> #[trigger] items_have_day(items@, d),
{
    let mut commits: Vec<Vec<u8>> = Vec::new();
    let mut days: Vec<i64> = Vec::new();
    let n = items.len();
    let mut i: usize = 0;
    while i < n
        invariant
            n == items@.len(),
            i <= n,
            ids_sorted_distinct(commits@),
            forall|c: Seq<u8>|
                #[trigger] id_seq_contains(commits@, c) <==> items_have_commit(
                    items@.take(i as int),
                    c,
                ),
            days_sorted_distinct(days@),
            forall|d: i64|
                days@.contains(d) <==> #[trigger] items_have_day(items@.take(i as int), d),
        decreases n - i,
    {
        proof {
            assert(items@.take(i as int + 1).drop_last() =~= items@.take(i as int));
            assert(items@.take(i as int + 1).last() == items@[i as int]);
            assert forall|c: Seq<u8>| #[trigger]
                items_have_commit(items@.take(i as int + 1), c) implies items_have_commit(
                items@.take(i as int),
                c,
            ) || c == items@[i as int].commit_id@ by {
                let t = choose|t: int|
                    0 <= t < items@.take(i as int + 1).len() && (#[trigger] items@.take(
                        i as int + 1,
                    )[t].commit_id)@ == c;
                if t < i {
                    assert(items@.take(i as int)[t].commit_id@ == c);
                }
            }
            assert forall|c: Seq<u8>| #[trigger]
                items_have_commit(items@.take(i as int), c) implies items_have_commit(
                items@.take(i as int + 1),
                c,
            ) by {
                let t = choose|t: int|
                    0 <= t < items@.take(i as int).len() && (#[trigger] items@.take(
                        i as int,
                    )[t].commit_id)@ == c;
                assert(items@.take(i as int + 1)[t].commit_id@ == c);
            }
            assert(items_have_commit(items@.take(i as int + 1), items@[i as int].commit_id@)) by {
                assert(items@.take(i as int + 1)[i as int].commit_id@
                    == items@[i as int].commit_id@);
            }
            assert forall|d: i64| #[trigger]
                items_have_day(items@.take(i as int + 1), d) implies items_have_day(
                items@.take(i as int),
                d,
            ) || d == items@[i as int].day by {
                let t = choose|t: int|
                    0 <= t < items@.take(i as int + 1).len() && #[trigger] items@.take(
                        i as int + 1,
                    )[t].day == d;
                if t < i {
                    assert(items@.take(i as int)[t].day == d);
                }
            }
            assert forall|d: i64| #[trigger]
                items_have_day(items@.take(i as int), d) implies items_have_day(
                items@.take(i as int + 1),
                d,
            ) by {
                let t = choose|t: int|
                    0 <= t < items@.take(i as int).len() && #[trigger] items@.take(
                        i as int,
                    )[t].day == d;
                assert(items@.take(i as int + 1)[t].day == d);
            }
            assert(items_have_day(items@.take(i as int + 1), items@[i as int].day)) by {
                assert(items@.take(i as int + 1)[i as int].day == items@[i as int].day);
            }
        }
        insert_id_distinct(&mut commits, clone_id(&items[i].commit_id));
        let ghost days0 = days@;
        insert_day_distinct(&mut days, items[i].day);
        proof {
            assert forall|d: i64|
                days@.contains(d) <==> #[trigger] items_have_day(
                    items@.take(i as int + 1),
                    d,
                ) by {
                assert(days@.contains(d) <==> days0.contains(d) || d == items@[i as int].day);
                assert(days0.contains(d) <==> items_have_day(items@.take(i as int), d));
                if items_have_day(items@.take(i as int + 1), d) {
                    assert(items_have_day(items@.take(i as int), d) || d == items@[i as int].day);
                }
            }
        }
        i += 1;
    }
    proof {
        assert(items@.take(n as int) =~= items@);
    }
    (commits.len(), days.len())
}

/// Whether the hunk's author is in the restriction list.
pub open spec fn hunk_restricted(h: BlameHunk, restrict: Option<Seq<String>>) -> bool {
    match restrict {
        None => false,
        Some(v) => crate::utils::str_seq_contains(v, h.author@),
    }
}

/// The (commit, day) observations kept for the effort counts: one per
/// hunk whose author is not restricted and whose commit date has a
/// local day number, in hunk order.
pub open spec fn effort_obs(
    hunks: Seq<BlameHunk>,
    days: Seq<Option<i64>>,
    restrict: Option<Seq<String>>,
) -> Seq<(Seq<u8>, i64)>
    decreases hunks.len(),
{
    if hunks.len() == 0 || days.len() == 0 {
        Seq::empty()
    } else {
        let rest = effort_obs(hunks.drop_last(), days.drop_last(), restrict);
        if !hunk_restricted(hunks.last(), restrict) && days.last() is Some {
            rest.push((hunks.last().commit_id@, days.last().unwrap()))
        } else {
            rest
        }
    }
}

/// Selects the observations for the effort counts: drops each hunk of
/// a restricted author individually, pairs every other hunk's commit
/// with its local day, and skips hunks without one.
pub fn collect_effort_items(
    hunks: &Vec<BlameHunk>,
    days: &Vec<Option<i64>>,
    restrict: &Option<Vec<String>>,
) -> (r: Vec<EffortItem>)
    requires
        days@.len() == hunks@.len(),
    ensures
        r@.map_values(|it: EffortItem| (it.commit_id@, it.day)) == effort_obs(
            hunks@,
            days@,
            crate::utils::opt_strs(*restrict),
        ),
{
    let ghost rv = crate::utils::opt_strs(*restrict);
    let mut items: Vec<EffortItem> = Vec::new();
    let n = hunks.len();
    let mut i: usize = 0;
    while i < n
        invariant
            n == hunks@.len(),
            n == days@.len(),
            i <= n,
            rv == crate::utils::opt_strs(*restrict),
            items@.map_values(|it: EffortItem| (it.commit_id@, it.day)) == effort_obs(
                hunks@.take(i as int),
                days@.take(i as int),
                rv,
            ),
        decreases n - i,
    {
        proof {
            assert(hunks@.take(i as int + 1).drop_last() =~= hunks@.take(i as int));
            assert(hunks@.take(i as int + 1).last() == hunks@[i as int]);
            assert(days@.take(i as int + 1).drop_last() =~= days@.take(i as int));
            assert(days@.take(i as int + 1).last() == days@[i as int]);
        }
        let skip = match restrict {
            None => false,
            Some(v) => crate::fame::str_vec_contains(v, hunks[i].author.as_str()),
        };
        proof {
            assert(skip == hunk_restricted(hunks@[i as int], rv)) by {
                if restrict.is_some() {
                    assert(rv == Some((*restrict).unwrap()@));
                }
            }
        }
        if !skip {
            match days[i] {
                Some(day) => {
                    let ghost items0 = items@;
                    items.push(EffortItem { commit_id: clone_id(&hunks[i].commit_id), day });
                    proof {
                        assert(items@.map_values(|it: EffortItem| (it.commit_id@, it.day))
                            =~= items0.map_values(|it: EffortItem| (it.commit_id@, it.day)).push(
                            (hunks@[i as int].commit_id@, day),
                        ));
                    }
                },
                None => {},
            }
        }
        i += 1;
    }
    proof {
        assert(hunks@.take(n as int) =~= hunks@);
        assert(days@.take(n as int) =~= days@);
    }
    items
}

/// Processes the blame of single files into effort records.
pub struct EffortProcessor {
    pub path: String,
    pub earliest_commit: Option<Vec<u8>>,
    pub latest_commit: Option<Vec<u8>>,
    pub restrict_authors: Option<Vec<String>>,
}

impl EffortProcessor {
    pub fn new(
        path: String,
        earliest_commit: Option<Vec<u8>>,
        latest_commit: Option<Vec<u8>>,
        restrict_authors: Option<Vec<String>>,
    ) -> (r: EffortProcessor)
        ensures
            r.path == path && r.earliest_commit == earliest_commit && r.latest_commit
                == latest_commit && r.restrict_authors == restrict_authors,
    {
        EffortProcessor { path, earliest_commit, latest_commit, restrict_authors }
    }

    /// Blames one file within the commit range and counts the distinct
    /// commits and distinct active days among its hunks.  The local
    /// day of each unrestricted hunk's commit is looked up first; the
    /// selection of observations (dropping restricted authors' hunks
    /// individually) then stands in `collect_effort_items`, and the
    /// counting in `count_distinct_effort`, each with an exact
    /// contract.
    pub fn process_file(&self, file_name: &str) -> (r: Result<EffortOutput, GritError>)
        ensures
            r matches Ok(e) ==> e.file@ == file_name@,
            r matches Err(e) ==> (e is RepositoryAccess || e is Blame),
    {
        let repo = get_repo(self.path.as_str())?;
        let range = CommitRange {
            earliest: clone_opt_id(&self.earliest_commit),
            latest: clone_opt_id(&self.latest_commit),
        };
        let mut opts = crate::git_utils::blame_options(&range)?;
        let hunks = blame_hunks(&repo, file_name, &mut opts)?;
        let mut day_opts: Vec<Option<i64>> = Vec::new();
        let n = hunks.len();
        let mut i: usize = 0;
        while i < n
            invariant
                n == hunks@.len(),
                i <= n,
                day_opts@.len() == i,
            decreases n - i,
        {
            let skip = match &self.restrict_authors {
                None => false,
                Some(v) => crate::fame::str_vec_contains(v, hunks[i].author.as_str()),
            };
            if skip {
                day_opts.push(None);
            } else {
                let seconds = commit_seconds(&repo, &hunks[i].commit_id)?;
                day_opts.push(convert_git_time(seconds));
            }
            i += 1;
        }
        let items = collect_effort_items(&hunks, &day_opts, &self.restrict_authors);
        let counts = count_distinct_effort(&items);
        let mut result = EffortOutput::new(string_of(file_name));
        result.commits = counts.0;
        result.active_days = counts.1;
        Ok(result)
    }
}

/// Owns a borrowed string slice.
fn string_of(s: &str) -> (r: String)
    ensures
        r@ == s@,
{
    s.to_owned()
}

/// Output order of effort records: descending by commit count, ties
/// broken by file name ascending.
pub open spec fn effort_le(x: EffortOutput, y: EffortOutput) -> bool {
    x.commits > y.commits || (x.commits == y.commits && lex_le(
        char_ints(x.file@),
        char_ints(y.file@),
    ))
}

proof fn lemma_effort_le_total(x: EffortOutput, y: EffortOutput)
    ensures
        effort_le(x, y) || effort_le(y, x),
{
    if x.commits == y.commits {
        crate::utils::lemma_lex_le_total(char_ints(x.file@), char_ints(y.file@));
    }
}

proof fn lemma_effort_le_trans(x: EffortOutput, y: EffortOutput, z: EffortOutput)
    requires
        effort_le(x, y),
        effort_le(y, z),
    ensures
        effort_le(x, z),
{
    if x.commits == y.commits && y.commits == z.commits {
        crate::utils::lemma_lex_le_trans(
            char_ints(x.file@),
            char_ints(y.file@),
            char_ints(z.file@),
        );
    }
}

/// Sorts effort records descending by commit count, ties broken by
/// file name: a permutation of the input in the output order.
pub fn sort_effort(input: Vec<EffortOutput>) -> (out: Vec<EffortOutput>)
    ensures
        out@.to_multiset() == input@.to_multiset(),
        forall|i: int, j: int| 0 <= i < j < out@.len() ==> effort_le(out@[i], out@[j]),
{
    let mut out: Vec<EffortOutput> = Vec::new();
    let mut rest = input;
    proof {
        broadcast use vstd::seq_lib::group_to_multiset_ensures;
    }
    while rest.len() > 0
        invariant
            out@.to_multiset().add(rest@.to_multiset()) == input@.to_multiset(),
            forall|i: int, j: int| 0 <= i < j < out@.len() ==> effort_le(out@[i], out@[j]),
        decreases rest@.len(),
    {
        let ghost old_rest = rest@;
        let ghost old_out = out@;
        let x = rest.pop().unwrap();
        let ghost xg = x;
        proof {
            broadcast use vstd::seq_lib::group_to_multiset_ensures;
            broadcast use vstd::multiset::group_multiset_axioms;

            assert(old_rest =~= old_rest.drop_last().push(xg));
            assert(old_rest.to_multiset() =~= rest@.to_multiset().insert(xg));
        }
        let n = out.len();
        let mut k: usize = 0;
        while k < n && !effort_le_exec(&x, &out[k])
            invariant
                n == out@.len(),
                k <= n,
                forall|t: int| 0 <= t < k ==> !effort_le(xg, #[trigger] out@[t]),
                x == xg,
            decreases n - k,
        {
            k += 1;
        }
        out.insert(k, x);
        proof {
            broadcast use vstd::seq_lib::group_to_multiset_ensures;
            broadcast use vstd::multiset::group_multiset_axioms;

            assert(out@ =~= old_out.insert(k as int, xg));
            crate::fame::lemma_insert_to_multiset(old_out, k as int, xg);
            assert(out@.to_multiset().add(rest@.to_multiset()) =~= input@.to_multiset());
            assert(forall|t: int| 0 <= t < k ==> #[trigger] out@[t] == old_out[t]);
            assert(out@[k as int] == xg);
            assert(forall|t: int| k < t < out@.len() ==> #[trigger] out@[t] == old_out[t - 1]);
            assert forall|i: int, j: int| 0 <= i < j < out@.len() implies effort_le(
                out@[i],
                out@[j],
            ) by {
                if i < k && j == k {
                    lemma_effort_le_total(xg, old_out[i]);
                } else if i == k && j > k {
                    assert(effort_le(xg, old_out[k as int]));
                    if j - 1 > k {
                        lemma_effort_le_trans(xg, old_out[k as int], old_out[j - 1]);
                    }
                } else if i < k && j > k {
                    assert(effort_le(old_out[i], old_out[j - 1]));
                }
            }
        }
    }
    out
}

/// Decides the output order of two effort records.
fn effort_le_exec(x: &EffortOutput, y: &EffortOutput) -> (r: bool)
    ensures
        r == effort_le(*x, *y),
{
    if x.commits > y.commits {
        true
    } else if x.commits < y.commits {
        false
    } else {
        str_le(x.file.as_str(), y.file.as_str())
    }
}

/// The effort analysis: per-file distinct commits and active days.
pub struct Effort {
    pub args: EffortArgs,
}

impl Effort {
    pub fn new(args: EffortArgs) -> (r: Effort)
        ensures
            r.args == args,
    {
        Effort { args }
    }
}

impl Processable<Vec<EffortOutput>> for Effort {
    /// Resolves the commit range, lists the files, blames each one in
    /// turn — a failure on one file drops that file, the run goes on —
    /// and returns the records sorted descending by commit count.  An
    /// error can only come from the repository or a filter pattern: a
    /// per-file blame failure never surfaces as an error of the run.
    fn process(&self) -> (r: Result<Vec<EffortOutput>, GritError>)
        ensures
            r matches Ok(v) ==> forall|i: int, j: int|
                0 <= i < j < v@.len() ==> effort_le(v@[i], v@[j]),
            r matches Err(e) ==> (e is RepositoryAccess || e is FilterPattern),
            r matches Err(e) && e is FilterPattern ==> (crate::utils::has_malformed_pattern(
                self.args.includes,
            ) || crate::utils::has_malformed_pattern(self.args.excludes)),
    {
        let range = find_commit_range(
            self.args.path.as_str(),
            self.args.start_date,
            self.args.end_date,
        )?;
        let inc_clone = clone_opt_string(&self.args.includes);
        let exc_clone = clone_opt_string(&self.args.excludes);
        proof {
            crate::utils::lemma_has_malformed_view(self.args.includes, inc_clone);
            crate::utils::lemma_has_malformed_view(self.args.excludes, exc_clone);
        }
        let file_names = generate_file_list(self.args.path.as_str(), inc_clone, exc_clone)?;
        let restrict_authors = convert_string_list_to_vec(
            clone_opt_string(&self.args.restrict_authors),
        );
        let ep = EffortProcessor::new(
            clone_string(&self.args.path),
            range.earliest,
            range.latest,
            restrict_authors,
        );
        let mut results: Vec<EffortOutput> = Vec::new();
        let n = file_names.len();
        let mut i: usize = 0;
        while i < n
            invariant
                n == file_names@.len(),
                i <= n,
            decreases n - i,
        {
            match ep.process_file(file_names[i].as_str()) {
                Ok(e) => {
                    results.push(e);
                },
                Err(_) => {},
            }
            i += 1;
        }
        Ok(sort_effort(results))
    }
}

/// Copies an optional string.
pub fn clone_opt_string(s: &Option<String>) -> (r: Option<String>)
    ensures
        match r {
            Some(v) => s matches Some(w) && v@ == w@,
            None => s is None,
        },
{
    match s {
        None => None,
        Some(v) => Some(clone_string(v)),
    }
}

} // verus!
