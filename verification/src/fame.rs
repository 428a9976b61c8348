use vstd::prelude::*;

use crate::GritError;
use crate::git_utils::BlameHunk;
use crate::git_utils::CommitRange;
use crate::git_utils::blame_hunks;
use crate::git_utils::clone_id;
use crate::git_utils::get_repo;
use crate::utils::insert_id_distinct;
use crate::utils::insert_str_distinct;

verus! {

/// Configuration for the fame analysis.  Date bounds are timestamps in
/// seconds since the epoch.
pub struct FameArgs {
    pub path: String,
    pub sort: Option<String>,
    pub start_date: Option<i64>,
    pub end_date: Option<i64>,
    pub includes: Option<String>,
    pub excludes: Option<String>,
    pub restrict_authors: Option<String>,
    pub csv: bool,
    pub file: Option<String>,
}

impl FameArgs {
    pub fn new(
        path: String,
        sort: Option<String>,
        start_date: Option<i64>,
        end_date: Option<i64>,
        includes: Option<String>,
        excludes: Option<String>,
        restrict_authors: Option<String>,
        csv: bool,
        file: Option<String>,
    ) -> (r: Self)
        ensures
            r.path == path && r.sort == sort && r.start_date == start_date && r.end_date
                == end_date && r.includes == includes && r.excludes == excludes && r.restrict_authors
                == restrict_authors && r.csv == csv && r.file == file,
    {
        Self { path, sort, start_date, end_date, includes, excludes, restrict_authors, csv, file }
    }
}

/// One blame record: the lines of one file attributed to one
/// (author, commit) pair.
pub struct BlameEntry {
    pub author: String,
    pub commit_id: Vec<u8>,
    pub lines: usize,
    pub file_name: String,
}

impl BlameEntry {
    pub fn new(author: String, commit_id: Vec<u8>, file_name: String) -> (r: Self)
        ensures
            r.author == author && r.commit_id == commit_id && r.file_name == file_name && r.lines
                == 0,
    {
        Self { author, commit_id, lines: 0, file_name }
    }
}

/// Total line count of a run of hunks.
pub open spec fn sum_hunk_lines(s: Seq<BlameHunk>) -> int
    decreases s.len(),
{
    if s.len() == 0 {
        0
    } else {
        sum_hunk_lines(s.drop_last()) + s.last().lines
    }
}

/// Line count of the hunks attributed to one (author, commit) pair.
pub open spec fn key_hunk_lines(s: Seq<BlameHunk>, a: Seq<char>, c: Seq<u8>) -> int
    decreases s.len(),
{
    if s.len() == 0 {
        0
    } else {
        key_hunk_lines(s.drop_last(), a, c) + if s.last().author@ == a && s.last().commit_id@
            == c {
            s.last().lines as int
        } else {
            0
        }
    }
}

/// Some hunk carries this (author, commit) pair.
pub open spec fn hunks_have_key(s: Seq<BlameHunk>, a: Seq<char>, c: Seq<u8>) -> bool {
    exists|i: int| 0 <= i < s.len() && s[i].author@ == a && s[i].commit_id@ == c
}

/// Total line count of a run of blame records.
pub open spec fn sum_entry_lines(s: Seq<BlameEntry>) -> int
    decreases s.len(),
{
    if s.len() == 0 {
        0
    } else {
        sum_entry_lines(s.drop_last()) + s.last().lines
    }
}

/// Some record carries this (author, commit) pair.
pub open spec fn entries_have_key(s: Seq<BlameEntry>, a: Seq<char>, c: Seq<u8>) -> bool {
    exists|i: int| 0 <= i < s.len() && s[i].author@ == a && s[i].commit_id@ == c
}

/// The aggregation contract: one record per (author, commit) pair seen
/// in the hunks, its lines the sum of that pair's hunk lines, all
/// tagged with the blamed file; and no line lost or double counted.
pub open spec fn aggregation_post(
    hunks: Seq<BlameHunk>,
    file: Seq<char>,
    out: Seq<BlameEntry>,
) -> bool {
    &&& forall|i: int| 0 <= i < out.len() ==> (#[trigger] out[i].file_name)@ == file
    &&& forall|i: int, j: int|
        0 <= i < j < out.len() ==> !(out[i].author@ == out[j].author@ && out[i].commit_id@
            == out[j].commit_id@)
    &&& forall|i: int|
        0 <= i < out.len() ==> (#[trigger] out[i].lines) as int == key_hunk_lines(
            hunks,
            out[i].author@,
            out[i].commit_id@,
        )
    &&& forall|a: Seq<char>, c: Seq<u8>|
        #[trigger] hunks_have_key(hunks, a, c) <==> entries_have_key(out, a, c)
    &&& sum_entry_lines(out) == sum_hunk_lines(hunks)
}

/// Conservation: for one file's blame, the records' line counts sum
/// to exactly the line count of the hunks — aggregation neither loses
/// nor double counts a line.
pub proof fn lemma_blame_conservation(hunks: Seq<BlameHunk>, file: Seq<char>, out: Seq<BlameEntry>)
    requires
        aggregation_post(hunks, file, out),
    ensures
        sum_entry_lines(out) == sum_hunk_lines(hunks),
{
}

/// A single record's lines never exceed the total.
proof fn lemma_entry_le_sum(s: Seq<BlameEntry>, k: int)
    requires
        0 <= k < s.len(),
    ensures
        s[k].lines <= sum_entry_lines(s),
    decreases s.len(),
{
    if k < s.len() - 1 {
        lemma_entry_le_sum(s.drop_last(), k);
    } else {
        lemma_sum_entry_nonneg(s.drop_last());
    }
}

/// Replacing one record changes the total by the difference.
proof fn lemma_sum_entry_update(s: Seq<BlameEntry>, k: int, e: BlameEntry)
    requires
        0 <= k < s.len(),
    ensures
        sum_entry_lines(s.update(k, e)) == sum_entry_lines(s) - s[k].lines + e.lines,
    decreases s.len(),
{
    let t = s.update(k, e);
    if k == s.len() - 1 {
        assert(t.drop_last() =~= s.drop_last());
        assert(t.last() == e);
    } else {
        assert(t.drop_last() =~= s.drop_last().update(k, e));
        assert(t.last() == s.last());
        lemma_sum_entry_update(s.drop_last(), k, e);
    }
}

/// Prefix sums of hunk lines grow with the prefix.
proof fn lemma_sum_hunks_prefix_le(s: Seq<BlameHunk>, m: int)
    requires
        0 <= m <= s.len(),
    ensures
        sum_hunk_lines(s.take(m)) <= sum_hunk_lines(s),
    decreases s.len() - m,
{
    if m == s.len() {
        assert(s.take(m) =~= s);
    } else {
        lemma_sum_hunks_prefix_le(s, m + 1);
        assert(s.take(m + 1).drop_last() =~= s.take(m));
        assert(s.take(m + 1).last() == s[m]);
    }
}

/// Merges blame hunks of one file into per-(author, commit) records,
/// summing hunk line counts.  Fails only when the file's total line
/// count does not fit a machine word.
pub fn aggregate_hunks(hunks: &Vec<BlameHunk>, file_name: &str) -> (r: Result<
    Vec<BlameEntry>,
    GritError,
>)
    ensures
        match r {
            Ok(out) => aggregation_post(hunks@, file_name@, out@) && sum_hunk_lines(hunks@)
                <= usize::MAX,
            Err(e) => sum_hunk_lines(hunks@) > usize::MAX && e is Overflow,
        },
{
    let mut out: Vec<BlameEntry> = Vec::new();
    let mut total: usize = 0;
    let n = hunks.len();
    let mut i: usize = 0;
    while i < n
        invariant
            n == hunks@.len(),
            i <= n,
            total as int == sum_hunk_lines(hunks@.take(i as int)),
            sum_entry_lines(out@) == total as int,
            forall|k: int|
                0 <= k < out@.len() ==> (#[trigger] out@[k].file_name)@ == file_name@,
            forall|k: int, t: int|
                0 <= k < t < out@.len() ==> !(out@[k].author@ == out@[t].author@
                    && out@[k].commit_id@ == out@[t].commit_id@),
            forall|k: int|
                0 <= k < out@.len() ==> (#[trigger] out@[k].lines) as int == key_hunk_lines(
                    hunks@.take(i as int),
                    out@[k].author@,
                    out@[k].commit_id@,
                ),
            forall|a: Seq<char>, c: Seq<u8>|
                #[trigger] hunks_have_key(hunks@.take(i as int), a, c) <==> entries_have_key(
                    out@,
                    a,
                    c,
                ),
        decreases n - i,
    {
        let ghost pre = hunks@.take(i as int);
        let ghost post = hunks@.take(i as int + 1);
        let ghost out0 = out@;
        proof {
            assert(post.drop_last() =~= pre);
            assert(post.last() == hunks@[i as int]);
            assert(hunks_have_key(post, hunks@[i as int].author@, hunks@[i as int].commit_id@))
                by {
                assert(post[post.len() - 1].author@ == hunks@[i as int].author@
                    && post[post.len() - 1].commit_id@ == hunks@[i as int].commit_id@);
            }
            assert forall|a: Seq<char>, c: Seq<u8>| #[trigger]
                hunks_have_key(post, a, c) implies hunks_have_key(pre, a, c) || (hunks@[i as int].author@
                == a && hunks@[i as int].commit_id@ == c) by {
                let t = choose|t: int|
                    0 <= t < post.len() && post[t].author@ == a && post[t].commit_id@ == c;
                if t < i {
                    assert(pre[t] == post[t]);
                }
            }
            assert forall|a: Seq<char>, c: Seq<u8>| #[trigger]
                hunks_have_key(pre, a, c) implies hunks_have_key(post, a, c) by {
                let t = choose|t: int|
                    0 <= t < pre.len() && pre[t].author@ == a && pre[t].commit_id@ == c;
                assert(post[t] == pre[t]);
            }
        }
        let hl = hunks[i].lines;
        let new_total = match total.checked_add(hl) {
            Some(t) => t,
            None => {
                proof {
                    assert(sum_hunk_lines(post) > usize::MAX);
                    lemma_sum_hunks_prefix_le(hunks@, i as int + 1);
                }
                return Err(GritError::Overflow);
            },
        };
        total = new_total;
        let mut k: usize = 0;
        let mut found = false;
        while k < out.len() && !found
            invariant
                n == hunks@.len(),
                i < n,
                k <= out@.len(),
                !found ==> forall|t: int|
                    0 <= t < k ==> !(#[trigger] out@[t].author@ == hunks@[i as int].author@
                        && out@[t].commit_id@ == hunks@[i as int].commit_id@),
                found ==> k < out@.len() && out@[k as int].author@ == hunks@[i as int].author@
                    && out@[k as int].commit_id@ == hunks@[i as int].commit_id@,
            decreases out@.len() - k + (if found {
                0int
            } else {
                1int
            }),
        {
            let same_author = out[k].author == hunks[i].author;
            if same_author {
                let same_commit = out[k].commit_id == hunks[i].commit_id;
                if same_commit {
                    found = true;
                } else {
                    k += 1;
                }
            } else {
                k += 1;
            }
        }
        if found {
            proof {
                lemma_entry_le_sum(out@, k as int);
            }
            let ghost pre_remove = out@;
            let mut e = out.remove(k);
            let ghost e0 = e;
            e.lines = e.lines + hl;
            let ghost e1 = e;
            out.insert(k, e);
            proof {
                assert(out@ =~= pre_remove.update(k as int, e1));
                lemma_sum_entry_update(pre_remove, k as int, e1);
                assert(forall|t: int|
                    0 <= t < out@.len() && t != k ==> #[trigger] out@[t] == pre_remove[t]);
                assert(out@[k as int] == e1 && e1.author == e0.author && e1.commit_id
                    == e0.commit_id && e0 == pre_remove[k as int]);
                assert forall|a: Seq<char>, c: Seq<u8>| #[trigger]
                    entries_have_key(out@, a, c) <==> entries_have_key(pre_remove, a, c) by {
                    assert(forall|t: int|
                        0 <= t < out@.len() ==> #[trigger] out@[t].author@ == pre_remove[t].author@
                            && out@[t].commit_id@ == pre_remove[t].commit_id@);
                    if entries_have_key(out@, a, c) {
                        let t = choose|t: int|
                            0 <= t < out@.len() && out@[t].author@ == a && out@[t].commit_id@
                                == c;
                        assert(pre_remove[t].author@ == a && pre_remove[t].commit_id@ == c);
                    }
                    if entries_have_key(pre_remove, a, c) {
                        let t = choose|t: int|
                            0 <= t < pre_remove.len() && pre_remove[t].author@ == a
                                && pre_remove[t].commit_id@ == c;
                        assert(out@[t].author@ == a && out@[t].commit_id@ == c);
                    }
                }
                assert(entries_have_key(out@, hunks@[i as int].author@, hunks@[i as int].commit_id@))
                    by {
                    assert(out@[k as int].author@ == hunks@[i as int].author@
                        && out@[k as int].commit_id@ == hunks@[i as int].commit_id@);
                }
                assert forall|a: Seq<char>, c: Seq<u8>| #[trigger]
                    entries_have_key(out0, a, c) implies entries_have_key(out@, a, c) by {
                    let t = choose|t: int|
                        0 <= t < out0.len() && out0[t].author@ == a && out0[t].commit_id@ == c;
                    assert(out@[t].author@ == a && out@[t].commit_id@ == c);
                }
                assert forall|a: Seq<char>, c: Seq<u8>| #[trigger]
                    entries_have_key(out@, a, c) implies entries_have_key(out0, a, c) || (
                hunks@[i as int].author@ == a && hunks@[i as int].commit_id@ == c) by {
                    let t = choose|t: int|
                        0 <= t < out@.len() && out@[t].author@ == a && out@[t].commit_id@ == c;
                    assert(out0[t].author@ == a && out0[t].commit_id@ == c);
                }
            }
        } else {
            let e = BlameEntry {
                author: clone_string(&hunks[i].author),
                commit_id: clone_id(&hunks[i].commit_id),
                lines: hl,
                file_name: string_from(file_name),
            };
            out.push(e);
            proof {
                assert(out@.drop_last() =~= out0);
                assert forall|a: Seq<char>, c: Seq<u8>| #[trigger]
                    entries_have_key(out@, a, c) implies entries_have_key(out0, a, c) || (
                hunks@[i as int].author@ == a && hunks@[i as int].commit_id@ == c) by {
                    let t = choose|t: int|
                        0 <= t < out@.len() && out@[t].author@ == a && out@[t].commit_id@ == c;
                    if t < out0.len() {
                        assert(out0[t] == out@[t]);
                    }
                }
                assert(forall|a: Seq<char>, c: Seq<u8>| #[trigger]
                    entries_have_key(out0, a, c) ==> entries_have_key(out@, a, c)) by {
                    assert forall|a: Seq<char>, c: Seq<u8>| #[trigger]
                        entries_have_key(out0, a, c) implies entries_have_key(out@, a, c) by {
                        let t = choose|t: int|
                            0 <= t < out0.len() && out0[t].author@ == a
                                && out0[t].commit_id@ == c;
                        assert(out@[t] == out0[t]);
                    }
                }
                assert(entries_have_key(out@, hunks@[i as int].author@, hunks@[i as int].commit_id@))
                    by {
                    assert(out@[out@.len() - 1].author@ == hunks@[i as int].author@);
                }
                assert(key_hunk_lines(pre, e.author@, e.commit_id@) == 0) by {
                    lemma_no_key_no_lines(pre, e.author@, e.commit_id@);
                }
            }
        }
        proof {
            assert forall|k2: int|
                0 <= k2 < out@.len() implies (#[trigger] out@[k2].lines) as int == key_hunk_lines(
                post,
                out@[k2].author@,
                out@[k2].commit_id@,
            ) by {
                assert(key_hunk_lines(post, out@[k2].author@, out@[k2].commit_id@)
                    == key_hunk_lines(pre, out@[k2].author@, out@[k2].commit_id@) + if hunks@[i as int].author@
                    == out@[k2].author@ && hunks@[i as int].commit_id@ == out@[k2].commit_id@ {
                    hunks@[i as int].lines as int
                } else {
                    0
                });
            }
            assert forall|a: Seq<char>, c: Seq<u8>| #[trigger]
                hunks_have_key(post, a, c) implies entries_have_key(out@, a, c) by {
                if hunks_have_key(pre, a, c) {
                    assert(entries_have_key(out0, a, c));
                    assert(entries_have_key(out@, a, c));
                } else {
                    assert(hunks@[i as int].author@ == a && hunks@[i as int].commit_id@ == c);
                    assert(entries_have_key(
                        out@,
                        hunks@[i as int].author@,
                        hunks@[i as int].commit_id@,
                    ));
                }
            }
            assert forall|a: Seq<char>, c: Seq<u8>| #[trigger]
                entries_have_key(out@, a, c) implies hunks_have_key(post, a, c) by {
                if entries_have_key(out0, a, c) {
                    assert(hunks_have_key(pre, a, c));
                } else {
                    assert(hunks@[i as int].author@ == a && hunks@[i as int].commit_id@ == c);
                    assert(hunks_have_key(
                        post,
                        hunks@[i as int].author@,
                        hunks@[i as int].commit_id@,
                    ));
                }
            }
        }
        i += 1;
    }
    proof {
        assert(hunks@.take(n as int) =~= hunks@);
    }
    Ok(out)
}

/// Absent keys contribute no lines.
proof fn lemma_no_key_no_lines(s: Seq<BlameHunk>, a: Seq<char>, c: Seq<u8>)
    requires
        !hunks_have_key(s, a, c),
    ensures
        key_hunk_lines(s, a, c) == 0,
    decreases s.len(),
{
    if s.len() > 0 {
        assert(!hunks_have_key(s.drop_last(), a, c)) by {
            if hunks_have_key(s.drop_last(), a, c) {
                let t = choose|t: int|
                    0 <= t < s.drop_last().len() && s.drop_last()[t].author@ == a
                        && s.drop_last()[t].commit_id@ == c;
                assert(s[t].author@ == a && s[t].commit_id@ == c);
            }
        }
        lemma_no_key_no_lines(s.drop_last(), a, c);
        assert(!(s.last().author@ == a && s.last().commit_id@ == c)) by {
            if s.last().author@ == a && s.last().commit_id@ == c {
                assert(s[s.len() - 1].author@ == a && s[s.len() - 1].commit_id@ == c);
            }
        }
    }
}

/// Record line totals are sums of machine words, hence non-negative.
proof fn lemma_sum_entry_nonneg(s: Seq<BlameEntry>)
    ensures
        sum_entry_lines(s) >= 0,
    decreases s.len(),
{
    if s.len() > 0 {
        lemma_sum_entry_nonneg(s.drop_last());
    }
}

/// Copies a string.
pub fn clone_string(s: &String) -> (r: String)
    ensures
        r@ == s@,
{
    s.clone()
}

/// Owns a borrowed string slice.
pub fn string_from(s: &str) -> (r: String)
    ensures
        r@ == s@,
{
    s.to_owned()
}

/// Processes git blame for a single file, restricted to a commit
/// range.
pub struct BlameProcessor {
    pub path: String,
    pub earliest_commit: Option<Vec<u8>>,
    pub latest_commit: Option<Vec<u8>>,
}

impl BlameProcessor {
    pub fn new(path: String, earliest_commit: Option<Vec<u8>>, latest_commit: Option<Vec<u8>>) -> (r:
        Self)
        ensures
            r.path == path && r.earliest_commit == earliest_commit && r.latest_commit
                == latest_commit,
    {
        Self { path, earliest_commit, latest_commit }
    }

    /// Blames one file and aggregates the hunks into records, all
    /// tagged with the file and pairwise distinct in (author, commit).
    pub fn process(&self, file_name: String) -> (r: Result<Vec<BlameEntry>, GritError>)
        ensures
            r matches Ok(out) ==> {
                &&& forall|i: int|
                    0 <= i < out@.len() ==> (#[trigger] out@[i].file_name)@ == file_name@
                &&& forall|i: int, j: int|
                    0 <= i < j < out@.len() ==> !(out@[i].author@ == out@[j].author@
                        && out@[i].commit_id@ == out@[j].commit_id@)
            },
            r matches Err(e) ==> (e is RepositoryAccess || e is Blame || e is Overflow),
    {
        let repo = get_repo(self.path.as_str())?;
        let range = CommitRange {
            earliest: clone_opt_id(&self.earliest_commit),
            latest: clone_opt_id(&self.latest_commit),
        };
        let mut opts = crate::git_utils::blame_options(&range)?;
        let hunks = blame_hunks(&repo, file_name.as_str(), &mut opts)?;
        aggregate_hunks(&hunks, file_name.as_str())
    }
}

/// An exact fraction `num / den`, read as zero when the denominator is
/// zero.  Percentages are kept as fractions so that they stay exact.
#[derive(Clone, Copy, Debug, PartialEq, Eq, Structural)]
pub struct Ratio {
    pub num: usize,
    pub den: usize,
}

/// Accumulated totals for one author: lines attributed, the distinct
/// commits and files touched, and the share of each global total.
/// The commit and file sets are kept as strictly sorted sequences, so
/// that equal sets are equal values.
pub struct AuthorStats {
    pub author: String,
    pub lines: usize,
    pub file_count: usize,
    pub filenames: Vec<String>,
    pub commits: Vec<Vec<u8>>,
    pub commits_count: usize,
    pub perc_lines: Ratio,
    pub perc_files: Ratio,
    pub perc_commits: Ratio,
}

impl AuthorStats {
    pub fn new() -> (r: Self)
        ensures
            r.author@ == Seq::<char>::empty(),
            r.lines == 0 && r.file_count == 0 && r.commits_count == 0,
            r.filenames@.len() == 0 && r.commits@.len() == 0,
            r.perc_lines == (Ratio { num: 0, den: 0 }),
            r.perc_files == (Ratio { num: 0, den: 0 }),
            r.perc_commits == (Ratio { num: 0, den: 0 }),
    {
        Self {
            author: String::new(),
            lines: 0,
            file_count: 0,
            filenames: Vec::new(),
            commits: Vec::new(),
            commits_count: 0,
            perc_lines: Ratio { num: 0, den: 0 },
            perc_files: Ratio { num: 0, den: 0 },
            perc_commits: Ratio { num: 0, den: 0 },
        }
    }
}

/// The sort keys of the fame output.
#[derive(Clone, Copy, Debug, PartialEq, Eq, Structural)]
pub enum SortKey {
    Commits,
    Loc,
    Files,
}

/// The key named by the command line: "loc" and "files" select those
/// counts, anything else the default commit count.
pub open spec fn sort_key_of(sort: Option<String>) -> SortKey {
    match sort {
        Some(s) => if s@ == "loc"@ {
            SortKey::Loc
        } else if s@ == "files"@ {
            SortKey::Files
        } else {
            SortKey::Commits
        },
        None => SortKey::Commits,
    }
}

/// The sorted count of one author under the chosen key.
pub open spec fn key_val(key: SortKey, e: AuthorStats) -> int {
    match key {
        SortKey::Loc => e.lines as int,
        SortKey::Files => e.file_count as int,
        SortKey::Commits => e.commits_count as int,
    }
}

/// Output order: descending by the chosen count, ties broken by author
/// name ascending.
pub open spec fn stats_le(key: SortKey, x: AuthorStats, y: AuthorStats) -> bool {
    key_val(key, x) > key_val(key, y) || (key_val(key, x) == key_val(key, y)
        && crate::utils::lex_le(
        crate::utils::char_ints(x.author@),
        crate::utils::char_ints(y.author@),
    ))
}

proof fn lemma_stats_le_total(key: SortKey, x: AuthorStats, y: AuthorStats)
    ensures
        stats_le(key, x, y) || stats_le(key, y, x),
{
    if key_val(key, x) == key_val(key, y) {
        crate::utils::lemma_lex_le_total(
            crate::utils::char_ints(x.author@),
            crate::utils::char_ints(y.author@),
        );
    }
}

proof fn lemma_stats_le_trans(key: SortKey, x: AuthorStats, y: AuthorStats, z: AuthorStats)
    requires
        stats_le(key, x, y),
        stats_le(key, y, z),
    ensures
        stats_le(key, x, z),
{
    if key_val(key, x) == key_val(key, y) && key_val(key, y) == key_val(key, z) {
        crate::utils::lemma_lex_le_trans(
            crate::utils::char_ints(x.author@),
            crate::utils::char_ints(y.author@),
            crate::utils::char_ints(z.author@),
        );
    }
}

/// Decides the output order of two authors' stats.
fn stats_le_exec(key: SortKey, x: &AuthorStats, y: &AuthorStats) -> (r: bool)
    ensures
        r == stats_le(key, *x, *y),
{
    let kx: usize = match key {
        SortKey::Loc => x.lines,
        SortKey::Files => x.file_count,
        SortKey::Commits => x.commits_count,
    };
    let ky: usize = match key {
        SortKey::Loc => y.lines,
        SortKey::Files => y.file_count,
        SortKey::Commits => y.commits_count,
    };
    if kx > ky {
        true
    } else if kx < ky {
        false
    } else {
        crate::utils::str_le(x.author.as_str(), y.author.as_str())
    }
}

/// Total line count across authors' stats.
pub open spec fn sum_stats_lines(s: Seq<AuthorStats>) -> int
    decreases s.len(),
{
    if s.len() == 0 {
        0
    } else {
        sum_stats_lines(s.drop_last()) + s.last().lines
    }
}

/// The summation step over stats, as a fold operator.
pub open spec fn stats_lines_step() -> spec_fn(AuthorStats, int) -> int {
    |e: AuthorStats, acc: int| acc + e.lines
}

proof fn lemma_sum_stats_as_fold(s: Seq<AuthorStats>, b: int)
    ensures
        s.fold_right(stats_lines_step(), b) == sum_stats_lines(s) + b,
    decreases s.len(),
{
    if s.len() > 0 {
        lemma_sum_stats_as_fold(s.drop_last(), b + s.last().lines);
    }
}

/// Reordering authors' stats does not change the line total.
proof fn lemma_sum_stats_permutation(s1: Seq<AuthorStats>, s2: Seq<AuthorStats>)
    requires
        s1.to_multiset() == s2.to_multiset(),
    ensures
        sum_stats_lines(s1) == sum_stats_lines(s2),
{
    assert(vstd::seq_lib::commutative_foldr(stats_lines_step()));
    vstd::seq_lib::lemma_fold_right_permutation(s1, s2, stats_lines_step(), 0);
    lemma_sum_stats_as_fold(s1, 0);
    lemma_sum_stats_as_fold(s2, 0);
}

/// Inserting anywhere in a sequence inserts into its multiset.
pub proof fn lemma_insert_to_multiset<A>(s: Seq<A>, k: int, x: A)
    requires
        0 <= k <= s.len(),
    ensures
        s.insert(k, x).to_multiset() =~= s.to_multiset().insert(x),
{
    broadcast use vstd::seq_lib::group_to_multiset_ensures;
    broadcast use vstd::multiset::group_multiset_axioms;

    assert(s.insert(k, x) =~= (s.take(k).push(x)) + s.skip(k));
    assert(s =~= s.take(k) + s.skip(k));
    vstd::seq_lib::lemma_multiset_commutative(s.take(k).push(x), s.skip(k));
    vstd::seq_lib::lemma_multiset_commutative(s.take(k), s.skip(k));
    assert(s.take(k).push(x).to_multiset() =~= s.take(k).to_multiset().insert(x));
}

/// Sorts authors' stats by the chosen key, descending, ties broken by
/// author name: a permutation of the input in the output order.
pub fn sort_stats(input: Vec<AuthorStats>, key: SortKey) -> (out: Vec<AuthorStats>)
    ensures
        out@.to_multiset() == input@.to_multiset(),
        forall|i: int, j: int| 0 <= i < j < out@.len() ==> stats_le(key, out@[i], out@[j]),
{
    let mut out: Vec<AuthorStats> = Vec::new();
    let mut rest = input;
    proof {
        broadcast use vstd::seq_lib::group_to_multiset_ensures;
    }
    while rest.len() > 0
        invariant
            out@.to_multiset().add(rest@.to_multiset()) == input@.to_multiset(),
            forall|i: int, j: int| 0 <= i < j < out@.len() ==> stats_le(key, out@[i], out@[j]),
        decreases rest@.len(),
    {
        let ghost old_rest = rest@;
        let ghost old_out = out@;
        let x = rest.pop().unwrap();
        let ghost xg = x;
        proof {
            broadcast use vstd::seq_lib::group_to_multiset_ensures;
            broadcast use vstd::multiset::group_multiset_axioms;

            assert(old_rest =~= old_rest.drop_last().push(xg));
            assert(old_rest.to_multiset() =~= rest@.to_multiset().insert(xg));
        }
        let n = out.len();
        let mut k: usize = 0;
        while k < n && !stats_le_exec(key, &x, &out[k])
            invariant
                n == out@.len(),
                k <= n,
                forall|t: int| 0 <= t < k ==> !stats_le(key, xg, #[trigger] out@[t]),
                x == xg,
            decreases n - k,
        {
            k += 1;
        }
        out.insert(k, x);
        proof {
            broadcast use vstd::seq_lib::group_to_multiset_ensures;
            broadcast use vstd::multiset::group_multiset_axioms;

            assert(out@ =~= old_out.insert(k as int, xg));
            lemma_insert_to_multiset(old_out, k as int, xg);
            assert(out@.to_multiset().add(rest@.to_multiset()) =~= input@.to_multiset());
            assert(forall|t: int| 0 <= t < k ==> #[trigger] out@[t] == old_out[t]);
            assert(out@[k as int] == xg);
            assert(forall|t: int| k < t < out@.len() ==> #[trigger] out@[t] == old_out[t - 1]);
            assert forall|i: int, j: int| 0 <= i < j < out@.len() implies stats_le(
                key,
                out@[i],
                out@[j],
            ) by {
                if i < k && j == k {
                    lemma_stats_le_total(key, xg, old_out[i]);
                } else if i == k && j > k {
                    assert(stats_le(key, xg, old_out[k as int]));
                    if j - 1 > k {
                        lemma_stats_le_trans(key, xg, old_out[k as int], old_out[j - 1]);
                    }
                } else if i < k && j > k {
                    assert(stats_le(key, old_out[i], old_out[j - 1]));
                }
            }
        }
    }
    out
}

/// Whether a record's author is excluded by the restriction list.
pub open spec fn rec_excluded(r: BlameEntry, restrict: Option<Seq<String>>) -> bool {
    match restrict {
        None => false,
        Some(v) => crate::utils::str_seq_contains(v, r.author@),
    }
}

/// The records that survive author exclusion, in input order.
pub open spec fn included_recs(s: Seq<BlameEntry>, restrict: Option<Seq<String>>) -> Seq<
    BlameEntry,
>
    decreases s.len(),
{
    if s.len() == 0 {
        s
    } else {
        let rest = included_recs(s.drop_last(), restrict);
        if !rec_excluded(s.last(), restrict) {
            rest.push(s.last())
        } else {
            rest
        }
    }
}

/// The restriction list as a sequence of names.
pub open spec fn opt_strs_view(o: Option<Vec<String>>) -> Option<Seq<String>> {
    match o {
        None => None,
        Some(v) => Some(v@),
    }
}

/// Line count attributed to one author across records.
pub open spec fn author_lines(s: Seq<BlameEntry>, a: Seq<char>) -> int
    decreases s.len(),
{
    if s.len() == 0 {
        0
    } else {
        author_lines(s.drop_last(), a) + if s.last().author@ == a {
            s.last().lines as int
        } else {
            0
        }
    }
}

/// Some record names this author.
pub open spec fn seq_has_author(s: Seq<BlameEntry>, a: Seq<char>) -> bool {
    exists|i: int| 0 <= i < s.len() && s[i].author@ == a
}

/// Some record of this author names this commit.
pub open spec fn author_has_commit(s: Seq<BlameEntry>, a: Seq<char>, c: Seq<u8>) -> bool {
    exists|i: int| 0 <= i < s.len() && s[i].author@ == a && s[i].commit_id@ == c
}

/// Some record of this author names this file.
pub open spec fn author_has_file(s: Seq<BlameEntry>, a: Seq<char>, f: Seq<char>) -> bool {
    exists|i: int| 0 <= i < s.len() && s[i].author@ == a && s[i].file_name@ == f
}

/// Some record names this commit.
pub open spec fn seq_has_commit(s: Seq<BlameEntry>, c: Seq<u8>) -> bool {
    exists|i: int| 0 <= i < s.len() && s[i].commit_id@ == c
}

/// Some record names this file.
pub open spec fn seq_has_file(s: Seq<BlameEntry>, f: Seq<char>) -> bool {
    exists|i: int| 0 <= i < s.len() && s[i].file_name@ == f
}

/// The accumulation part of one author's stats: lines summed over the
/// author's records, and the commit and file sets held as canonical
/// (strictly sorted) sequences.
pub open spec fn partial_entry_ok(recs: Seq<BlameEntry>, e: AuthorStats) -> bool {
    &&& seq_has_author(recs, e.author@)
    &&& e.lines as int == author_lines(recs, e.author@)
    &&& crate::utils::strs_sorted_distinct(e.filenames@)
    &&& forall|f: Seq<char>|
        #[trigger] crate::utils::str_seq_contains(e.filenames@, f) <==> author_has_file(
            recs,
            e.author@,
            f,
        )
    &&& crate::utils::ids_sorted_distinct(e.commits@)
    &&& forall|c: Seq<u8>|
        #[trigger] crate::utils::id_seq_contains(e.commits@, c) <==> author_has_commit(
            recs,
            e.author@,
            c,
        )
}

/// One finished output row: the accumulation plus the derived counts
/// and exact percentage fractions over the global denominators.
pub open spec fn stats_entry_ok(
    recs: Seq<BlameEntry>,
    e: AuthorStats,
    tl: usize,
    tf: usize,
    tc: usize,
) -> bool {
    &&& partial_entry_ok(recs, e)
    &&& e.commits_count == e.commits@.len()
    &&& e.file_count == e.filenames@.len()
    &&& e.perc_lines == (Ratio { num: e.lines, den: tl })
    &&& e.perc_commits == (Ratio { num: e.commits_count, den: tc })
    &&& e.perc_files == (Ratio { num: e.file_count, den: tf })
}

/// The whole reducer contract, over the records that survive author
/// exclusion: one row per author, exact totals, exact percentages, and
/// the output ordered by the chosen key with a deterministic tie-break.
pub open spec fn stats_post(
    records: Seq<BlameEntry>,
    restrict: Option<Seq<String>>,
    key: SortKey,
    out: Seq<AuthorStats>,
    tl: usize,
    tf: usize,
    tc: usize,
) -> bool {
    let recs = included_recs(records, restrict);
    &&& forall|i: int| 0 <= i < out.len() ==> stats_entry_ok(recs, #[trigger] out[i], tl, tf, tc)
    &&& forall|i: int, j: int| 0 <= i < j < out.len() ==> out[i].author@ != out[j].author@
    &&& forall|a: Seq<char>|
        #[trigger] seq_has_author(recs, a) ==> exists|i: int|
            0 <= i < out.len() && out[i].author@ == a
    &&& forall|i: int, j: int| 0 <= i < j < out.len() ==> stats_le(key, out[i], out[j])
    &&& tl as int == sum_entry_lines(recs)
    &&& sum_stats_lines(out) == tl as int
    &&& (exists|gc: Seq<Vec<u8>>|
        crate::utils::ids_sorted_distinct(gc) && gc.len() == tc && forall|c: Seq<u8>|
            #[trigger] crate::utils::id_seq_contains(gc, c) <==> seq_has_commit(recs, c))
    &&& (exists|gf: Seq<String>|
        crate::utils::strs_sorted_distinct(gf) && gf.len() == tf && forall|f: Seq<char>|
            #[trigger] crate::utils::str_seq_contains(gf, f) <==> seq_has_file(recs, f))
}

/// Authors that appear nowhere contribute no lines.
proof fn lemma_no_author_no_lines(s: Seq<BlameEntry>, a: Seq<char>)
    requires
        !seq_has_author(s, a),
    ensures
        author_lines(s, a) == 0,
    decreases s.len(),
{
    if s.len() > 0 {
        assert(!seq_has_author(s.drop_last(), a)) by {
            if seq_has_author(s.drop_last(), a) {
                let t = choose|t: int|
                    0 <= t < s.drop_last().len() && s.drop_last()[t].author@ == a;
                assert(s[t].author@ == a);
            }
        }
        lemma_no_author_no_lines(s.drop_last(), a);
        assert(s[s.len() - 1] == s.last());
    }
}

/// One author's stats lines never exceed the running total.
proof fn lemma_stats_entry_le_sum(s: Seq<AuthorStats>, k: int)
    requires
        0 <= k < s.len(),
    ensures
        s[k].lines <= sum_stats_lines(s),
    decreases s.len(),
{
    if k < s.len() - 1 {
        lemma_stats_entry_le_sum(s.drop_last(), k);
    } else {
        lemma_sum_stats_nonneg(s.drop_last());
    }
}

proof fn lemma_sum_stats_nonneg(s: Seq<AuthorStats>)
    ensures
        sum_stats_lines(s) >= 0,
    decreases s.len(),
{
    if s.len() > 0 {
        lemma_sum_stats_nonneg(s.drop_last());
    }
}

/// Replacing one author's stats changes the total by the difference.
proof fn lemma_sum_stats_update(s: Seq<AuthorStats>, k: int, e: AuthorStats)
    requires
        0 <= k < s.len(),
    ensures
        sum_stats_lines(s.update(k, e)) == sum_stats_lines(s) - s[k].lines + e.lines,
    decreases s.len(),
{
    let t = s.update(k, e);
    if k == s.len() - 1 {
        assert(t.drop_last() =~= s.drop_last());
        assert(t.last() == e);
    } else {
        assert(t.drop_last() =~= s.drop_last().update(k, e));
        assert(t.last() == s.last());
        lemma_sum_stats_update(s.drop_last(), k, e);
    }
}

/// The total of a seq of stats splits off its first element.
proof fn lemma_sum_stats_drop_first(s: Seq<AuthorStats>)
    requires
        s.len() > 0,
    ensures
        sum_stats_lines(s) == s[0].lines + sum_stats_lines(s.drop_first()),
    decreases s.len(),
{
    if s.len() == 1 {
        assert(s.drop_first().len() == 0);
        assert(sum_stats_lines(s.drop_first()) == 0);
        assert(s.drop_last().len() == 0);
        assert(sum_stats_lines(s.drop_last()) == 0);
        assert(sum_stats_lines(s) == sum_stats_lines(s.drop_last()) + s.last().lines);
        assert(s.last() == s[0]);
    } else {
        lemma_sum_stats_drop_first(s.drop_last());
        assert(s.drop_last()[0] == s[0]);
        assert(s.drop_first().drop_last() =~= s.drop_last().drop_first());
        assert(s.drop_first().last() == s.last());
        assert(sum_stats_lines(s.drop_first()) == sum_stats_lines(s.drop_first().drop_last())
            + s.drop_first().last().lines);
        assert(sum_stats_lines(s) == sum_stats_lines(s.drop_last()) + s.last().lines);
    }
}

/// Longer prefixes of the included records carry at least as many
/// lines.
proof fn lemma_included_sum_mono(s: Seq<BlameEntry>, restrict: Option<Seq<String>>, m: int)
    requires
        0 <= m <= s.len(),
    ensures
        sum_entry_lines(included_recs(s.take(m), restrict)) <= sum_entry_lines(
            included_recs(s, restrict),
        ),
    decreases s.len() - m,
{
    if m == s.len() {
        assert(s.take(m) =~= s);
    } else {
        lemma_included_sum_mono(s, restrict, m + 1);
        assert(s.take(m + 1).drop_last() =~= s.take(m));
        assert(s.take(m + 1).last() == s[m]);
        let a = included_recs(s.take(m), restrict);
        let b = included_recs(s.take(m + 1), restrict);
        if !rec_excluded(s[m], restrict) {
            assert(b == a.push(s[m]));
            assert(b.drop_last() =~= a);
        }
    }
}

/// Membership of an author name in a list of names.
pub fn str_vec_contains(v: &Vec<String>, x: &str) -> (r: bool)
    ensures
        r == crate::utils::str_seq_contains(v@, x@),
{
    let n = v.len();
    let mut i: usize = 0;
    while i < n
        invariant
            n == v@.len(),
            i <= n,
            forall|t: int| 0 <= t < i ==> #[trigger] v@[t]@ != x@,
        decreases n - i,
    {
        if crate::utils::str_eq(v[i].as_str(), x) {
            proof {
                assert(v@[i as int]@ == x@);
            }
            return true;
        }
        i += 1;
    }
    proof {
        if crate::utils::str_seq_contains(v@, x@) {
            let t = choose|t: int| 0 <= t < v@.len() && v@[t]@ == x@;
            assert(v@[t]@ != x@);
        }
    }
    false
}

/// The fame analysis: per-author authorship distribution.
pub struct Fame {
    pub args: FameArgs,
}

impl Fame {
    pub fn new(args: FameArgs) -> (r: Self)
        ensures
            r.args == args,
    {
        Self { args }
    }

    /// Blames every file in turn and flattens the records.  A failure
    /// on one file drops that file's contribution and the run goes on;
    /// every record that comes back names one of the requested files.
    pub fn process_files(
        &self,
        file_names: Vec<String>,
        earliest_commit: Option<Vec<u8>>,
        latest_commit: Option<Vec<u8>>,
    ) -> (r: Result<Vec<BlameEntry>, GritError>)
        ensures
            r matches Ok(v) && forall|k: int|
                0 <= k < v@.len() ==> crate::utils::str_seq_contains(
                    file_names@,
                    (#[trigger] v@[k].file_name)@,
                ),
            r matches Ok(v) && ((forall|a: int, b: int|
                0 <= a < b < file_names@.len() ==> (#[trigger] file_names@[a])@
                    != (#[trigger] file_names@[b])@) ==> forall|k: int, t: int|
                0 <= k < t < v@.len() && (#[trigger] v@[k].file_name)@ == (
                #[trigger] v@[t].file_name)@ ==> !(v@[k].author@ == v@[t].author@
                && v@[k].commit_id@ == v@[t].commit_id@)),
    {
        let processor = BlameProcessor::new(
            clone_string(&self.args.path),
            earliest_commit,
            latest_commit,
        );
        let ghost names_distinct = forall|a: int, b: int|
            0 <= a < b < file_names@.len() ==> (#[trigger] file_names@[a])@
                != (#[trigger] file_names@[b])@;
        let mut entries: Vec<BlameEntry> = Vec::new();
        let n = file_names.len();
        let mut i: usize = 0;
        while i < n
            invariant
                n == file_names@.len(),
                i <= n,
                names_distinct == (forall|a: int, b: int|
                    0 <= a < b < file_names@.len() ==> (#[trigger] file_names@[a])@
                        != (#[trigger] file_names@[b])@),
                forall|k: int|
                    0 <= k < entries@.len() ==> crate::utils::str_seq_contains(
                        file_names@.take(i as int),
                        (#[trigger] entries@[k].file_name)@,
                    ),
                names_distinct ==> forall|k: int, t: int|
                    0 <= k < t < entries@.len() && (#[trigger] entries@[k].file_name)@ == (
                    #[trigger] entries@[t].file_name)@ ==> !(entries@[k].author@
                    == entries@[t].author@ && entries@[k].commit_id@ == entries@[t].commit_id@),
            decreases n - i,
        {
            match processor.process(clone_string(&file_names[i])) {
                Ok(mut file_entries) => {
                    let ghost entries0 = entries@;
                    let ghost new_entries = file_entries@;
                    entries.append(&mut file_entries);
                    proof {
                        assert(entries@ =~= entries0 + new_entries);
                        assert forall|k: int|
                            0 <= k < entries@.len() implies crate::utils::str_seq_contains(
                            file_names@.take(i as int + 1),
                            (#[trigger] entries@[k].file_name)@,
                        ) by {
                            if k < entries0.len() {
                                assert(entries@[k] == entries0[k]);
                                assert(crate::utils::str_seq_contains(
                                    file_names@.take(i as int),
                                    entries0[k].file_name@,
                                ));
                                let s = choose|s: int|
                                    0 <= s < file_names@.take(i as int).len()
                                        && file_names@.take(i as int)[s]@
                                        == entries0[k].file_name@;
                                assert(file_names@.take(i as int + 1)[s]@
                                    == entries0[k].file_name@);
                            } else {
                                assert(entries@[k] == new_entries[k - entries0.len()]);
                                assert(new_entries[k - entries0.len()].file_name@
                                    == file_names@[i as int]@);
                                assert(file_names@.take(i as int + 1)[i as int]@
                                    == file_names@[i as int]@);
                            }
                        }
                        if names_distinct {
                            assert forall|k: int, t: int|
                                0 <= k < t < entries@.len() && (#[trigger] entries@[k].file_name)@
                                == (#[trigger] entries@[t].file_name)@ implies !(entries@[k].author@
                                == entries@[t].author@ && entries@[k].commit_id@
                                == entries@[t].commit_id@) by {
                                if k < entries0.len() && t >= entries0.len() {
                                    assert(entries@[k] == entries0[k]);
                                    assert(entries@[t] == new_entries[t - entries0.len()]);
                                    assert(crate::utils::str_seq_contains(
                                        file_names@.take(i as int),
                                        entries0[k].file_name@,
                                    ));
                                    let s = choose|s: int|
                                        0 <= s < file_names@.take(i as int).len()
                                            && file_names@.take(i as int)[s]@
                                            == entries0[k].file_name@;
                                    assert(file_names@[s]@ == entries0[k].file_name@);
                                    assert(file_names@[s]@ != file_names@[i as int]@);
                                    assert(entries@[t].file_name@ == file_names@[i as int]@);
                                } else if k < entries0.len() && t < entries0.len() {
                                    assert(entries@[k] == entries0[k] && entries@[t]
                                        == entries0[t]);
                                } else {
                                    assert(entries@[k] == new_entries[k - entries0.len()]
                                        && entries@[t] == new_entries[t - entries0.len()]);
                                }
                            }
                        }
                    }
                },
                Err(_) => {
                    proof {
                        assert forall|k: int|
                            0 <= k < entries@.len() implies crate::utils::str_seq_contains(
                            file_names@.take(i as int + 1),
                            (#[trigger] entries@[k].file_name)@,
                        ) by {
                            let s = choose|s: int|
                                0 <= s < file_names@.take(i as int).len() && file_names@.take(
                                    i as int,
                                )[s]@ == entries@[k].file_name@;
                            assert(file_names@.take(i as int + 1)[s]@
                                == entries@[k].file_name@);
                        }
                    }
                },
            }
            i += 1;
        }
        proof {
            assert(file_names@.take(n as int) =~= file_names@);
        }
        Ok(entries)
    }

    /// Reduces blame records to per-author stats: excluded authors are
    /// dropped, lines / distinct commits / distinct files accumulate
    /// per author, exact percentage fractions are derived from the
    /// global totals, and the rows are sorted by the configured key.
    /// Fails only when the included line total does not fit a machine
    /// word.
    pub fn calculate_stats(
        &self,
        blame_entries: Vec<BlameEntry>,
        restrict_authors: Option<Vec<String>>,
    ) -> (r: Result<(Vec<AuthorStats>, usize, usize, usize), GritError>)
        ensures
            match r {
                Ok(t) => stats_post(
                    blame_entries@,
                    opt_strs_view(restrict_authors),
                    sort_key_of(self.args.sort),
                    t.0@,
                    t.1,
                    t.2,
                    t.3,
                ) && sum_entry_lines(
                    included_recs(blame_entries@, opt_strs_view(restrict_authors)),
                ) <= usize::MAX,
                Err(e) => sum_entry_lines(
                    included_recs(blame_entries@, opt_strs_view(restrict_authors)),
                ) > usize::MAX && e is Overflow,
            },
    {
        let key: SortKey = match &self.args.sort {
            Some(s) => {
                if crate::utils::str_eq(s.as_str(), "loc") {
                    SortKey::Loc
                } else if crate::utils::str_eq(s.as_str(), "files") {
                    SortKey::Files
                } else {
                    SortKey::Commits
                }
            },
            None => SortKey::Commits,
        };
        proof {
            assert(key == sort_key_of(self.args.sort));
        }
        let ghost restrict = opt_strs_view(restrict_authors);
        let mut stats: Vec<AuthorStats> = Vec::new();
        let mut global_commits: Vec<Vec<u8>> = Vec::new();
        let mut global_files: Vec<String> = Vec::new();
        let mut total_lines: usize = 0;
        let n = blame_entries.len();
        let mut i: usize = 0;
        while i < n
            invariant
                n == blame_entries@.len(),
                i <= n,
                restrict == opt_strs_view(restrict_authors),
                total_lines as int == sum_entry_lines(
                    included_recs(blame_entries@.take(i as int), restrict),
                ),
                sum_stats_lines(stats@) == total_lines as int,
                forall|k: int|
                    0 <= k < stats@.len() ==> partial_entry_ok(
                        included_recs(blame_entries@.take(i as int), restrict),
                        #[trigger] stats@[k],
                    ),
                forall|k: int, t: int|
                    0 <= k < t < stats@.len() ==> stats@[k].author@ != stats@[t].author@,
                forall|a: Seq<char>|
                    #[trigger] seq_has_author(
                        included_recs(blame_entries@.take(i as int), restrict),
                        a,
                    ) ==> exists|k: int| 0 <= k < stats@.len() && stats@[k].author@ == a,
                crate::utils::ids_sorted_distinct(global_commits@),
                forall|c: Seq<u8>|
                    #[trigger] crate::utils::id_seq_contains(global_commits@, c)
                        <==> seq_has_commit(
                        included_recs(blame_entries@.take(i as int), restrict),
                        c,
                    ),
                crate::utils::strs_sorted_distinct(global_files@),
                forall|f: Seq<char>|
                    #[trigger] crate::utils::str_seq_contains(global_files@, f) <==> seq_has_file(
                        included_recs(blame_entries@.take(i as int), restrict),
                        f,
                    ),
            decreases n - i,
        {
            let ghost pre = included_recs(blame_entries@.take(i as int), restrict);
            let ghost post = included_recs(blame_entries@.take(i as int + 1), restrict);
            let ghost rg = blame_entries@[i as int];
            proof {
                assert(blame_entries@.take(i as int + 1).drop_last() =~= blame_entries@.take(
                    i as int,
                ));
                assert(blame_entries@.take(i as int + 1).last() == rg);
            }
            let excluded_now: bool = match &restrict_authors {
                None => false,
                Some(v) => str_vec_contains(v, blame_entries[i].author.as_str()),
            };
            proof {
                assert(excluded_now == rec_excluded(rg, restrict));
            }
            if !excluded_now {
                proof {
                    assert(post == pre.push(rg));
                    assert(post.drop_last() =~= pre);
                    assert(post.last() == rg);
                    assert(sum_entry_lines(post) == sum_entry_lines(pre) + rg.lines);
                    assert forall|a: Seq<char>| #[trigger]
                        seq_has_author(post, a) implies seq_has_author(pre, a) || a
                        == rg.author@ by {
                        let t = choose|t: int| 0 <= t < post.len() && post[t].author@ == a;
                        if t < pre.len() {
                            assert(pre[t] == post[t]);
                        }
                    }
                    assert forall|a: Seq<char>| #[trigger]
                        seq_has_author(pre, a) implies seq_has_author(post, a) by {
                        let t = choose|t: int| 0 <= t < pre.len() && pre[t].author@ == a;
                        assert(post[t] == pre[t]);
                    }
                    assert(seq_has_author(post, rg.author@)) by {
                        assert(post[post.len() - 1].author@ == rg.author@);
                    }
                    assert forall|a: Seq<char>, c: Seq<u8>| #[trigger]
                        author_has_commit(post, a, c) implies author_has_commit(pre, a, c) || (a
                        == rg.author@ && c == rg.commit_id@) by {
                        let t = choose|t: int|
                            0 <= t < post.len() && post[t].author@ == a && post[t].commit_id@
                                == c;
                        if t < pre.len() {
                            assert(pre[t] == post[t]);
                        }
                    }
                    assert forall|a: Seq<char>, c: Seq<u8>| #[trigger]
                        author_has_commit(pre, a, c) implies author_has_commit(post, a, c) by {
                        let t = choose|t: int|
                            0 <= t < pre.len() && pre[t].author@ == a && pre[t].commit_id@ == c;
                        assert(post[t] == pre[t]);
                    }
                    assert(author_has_commit(post, rg.author@, rg.commit_id@)) by {
                        assert(post[post.len() - 1].author@ == rg.author@);
                    }
                    assert forall|a: Seq<char>, f: Seq<char>| #[trigger]
                        author_has_file(post, a, f) implies author_has_file(pre, a, f) || (a
                        == rg.author@ && f == rg.file_name@) by {
                        let t = choose|t: int|
                            0 <= t < post.len() && post[t].author@ == a && post[t].file_name@
                                == f;
                        if t < pre.len() {
                            assert(pre[t] == post[t]);
                        }
                    }
                    assert forall|a: Seq<char>, f: Seq<char>| #[trigger]
                        author_has_file(pre, a, f) implies author_has_file(post, a, f) by {
                        let t = choose|t: int|
                            0 <= t < pre.len() && pre[t].author@ == a && pre[t].file_name@ == f;
                        assert(post[t] == pre[t]);
                    }
                    assert(author_has_file(post, rg.author@, rg.file_name@)) by {
                        assert(post[post.len() - 1].author@ == rg.author@);
                    }
                    assert forall|c: Seq<u8>| #[trigger]
                        seq_has_commit(post, c) implies seq_has_commit(pre, c) || c
                        == rg.commit_id@ by {
                        let t = choose|t: int| 0 <= t < post.len() && post[t].commit_id@ == c;
                        if t < pre.len() {
                            assert(pre[t] == post[t]);
                        }
                    }
                    assert forall|c: Seq<u8>| #[trigger]
                        seq_has_commit(pre, c) implies seq_has_commit(post, c) by {
                        let t = choose|t: int| 0 <= t < pre.len() && pre[t].commit_id@ == c;
                        assert(post[t] == pre[t]);
                    }
                    assert(seq_has_commit(post, rg.commit_id@)) by {
                        assert(post[post.len() - 1].commit_id@ == rg.commit_id@);
                    }
                    assert forall|f: Seq<char>| #[trigger]
                        seq_has_file(post, f) implies seq_has_file(pre, f) || f
                        == rg.file_name@ by {
                        let t = choose|t: int| 0 <= t < post.len() && post[t].file_name@ == f;
                        if t < pre.len() {
                            assert(pre[t] == post[t]);
                        }
                    }
                    assert forall|f: Seq<char>| #[trigger]
                        seq_has_file(pre, f) implies seq_has_file(post, f) by {
                        let t = choose|t: int| 0 <= t < pre.len() && pre[t].file_name@ == f;
                        assert(post[t] == pre[t]);
                    }
                    assert(seq_has_file(post, rg.file_name@)) by {
                        assert(post[post.len() - 1].file_name@ == rg.file_name@);
                    }
                    assert forall|a: Seq<char>|
                        author_lines(post, a) == author_lines(pre, a) + (if a == rg.author@ {
                            rg.lines as int
                        } else {
                            0int
                        }) by {}
                }
                let rl = blame_entries[i].lines;
                let new_total = match total_lines.checked_add(rl) {
                    Some(t) => t,
                    None => {
                        proof {
                            lemma_included_sum_mono(blame_entries@, restrict, i as int + 1);
                        }
                        return Err(GritError::Overflow);
                    },
                };
                total_lines = new_total;
                insert_id_distinct(&mut global_commits, clone_id(&blame_entries[i].commit_id));
                insert_str_distinct(&mut global_files, clone_string(&blame_entries[i].file_name));
                let m = stats.len();
                let mut k: usize = 0;
                let mut found = false;
                while k < m && !found
                    invariant
                        n == blame_entries@.len(),
                        i < n,
                        m == stats@.len(),
                        k <= m,
                        !found ==> forall|t: int|
                            0 <= t < k ==> (#[trigger] stats@[t].author)@
                                != blame_entries@[i as int].author@,
                        found ==> k < m && stats@[k as int].author@
                            == blame_entries@[i as int].author@,
                    decreases m - k + (if found {
                        0int
                    } else {
                        1int
                    }),
                {
                    if crate::utils::str_eq(
                        stats[k].author.as_str(),
                        blame_entries[i].author.as_str(),
                    ) {
                        found = true;
                    } else {
                        k += 1;
                    }
                }
                let ghost stats0 = stats@;
                if found {
                    proof {
                        lemma_stats_entry_le_sum(stats@, k as int);
                    }
                    let mut e = stats.remove(k);
                    let ghost e0 = e;
                    e.lines = e.lines + rl;
                    insert_id_distinct(&mut e.commits, clone_id(&blame_entries[i].commit_id));
                    insert_str_distinct(
                        &mut e.filenames,
                        clone_string(&blame_entries[i].file_name),
                    );
                    let ghost e1 = e;
                    stats.insert(k, e);
                    proof {
                        assert(stats@ =~= stats0.update(k as int, e1));
                        lemma_sum_stats_update(stats0, k as int, e1);
                        assert(forall|t: int|
                            0 <= t < stats@.len() && t != k ==> #[trigger] stats@[t]
                                == stats0[t]);
                        assert(stats@[k as int] == e1);
                        assert(e1.author == e0.author && e0 == stats0[k as int]);
                        assert(e1.author@ == rg.author@);
                        assert forall|k2: int|
                            0 <= k2 < stats@.len() implies partial_entry_ok(
                            post,
                            #[trigger] stats@[k2],
                        ) by {
                            if k2 != k {
                                let a2 = stats@[k2].author@;
                                assert(a2 != rg.author@);
                                assert(author_lines(post, a2) == author_lines(pre, a2));
                                assert(partial_entry_ok(pre, stats0[k2]));
                                assert forall|c: Seq<u8>| #[trigger]
                                    crate::utils::id_seq_contains(stats@[k2].commits@, c)
                                        <==> author_has_commit(post, a2, c) by {}
                            } else {
                                assert(author_lines(post, e1.author@) == author_lines(
                                    pre,
                                    e1.author@,
                                ) + rg.lines);
                                assert(e1.lines == e0.lines + rl);
                            }
                        }
                        assert forall|a: Seq<char>| #[trigger]
                            seq_has_author(post, a) implies exists|k2: int|
                            0 <= k2 < stats@.len() && stats@[k2].author@ == a by {
                            if a == rg.author@ {
                                assert(stats@[k as int].author@ == a);
                            } else {
                                assert(seq_has_author(pre, a));
                                let k2 = choose|k2: int|
                                    0 <= k2 < stats0.len() && stats0[k2].author@ == a;
                                assert(stats@[k2].author@ == a);
                            }
                        }
                    }
                } else {
                    let mut one_commit: Vec<Vec<u8>> = Vec::new();
                    one_commit.push(clone_id(&blame_entries[i].commit_id));
                    let mut one_file: Vec<String> = Vec::new();
                    one_file.push(clone_string(&blame_entries[i].file_name));
                    let e = AuthorStats {
                        author: clone_string(&blame_entries[i].author),
                        lines: rl,
                        file_count: 0,
                        filenames: one_file,
                        commits: one_commit,
                        commits_count: 0,
                        perc_lines: Ratio { num: 0, den: 0 },
                        perc_files: Ratio { num: 0, den: 0 },
                        perc_commits: Ratio { num: 0, den: 0 },
                    };
                    let ghost eg = e;
                    stats.push(e);
                    proof {
                        assert(stats@.drop_last() =~= stats0);
                        assert(stats@[stats@.len() - 1] == eg);
                        assert(!seq_has_author(pre, rg.author@)) by {
                            if seq_has_author(pre, rg.author@) {
                                let k2 = choose|k2: int|
                                    0 <= k2 < stats0.len() && stats0[k2].author@ == rg.author@;
                                assert(stats0[k2].author@ == blame_entries@[i as int].author@);
                            }
                        }
                        lemma_no_author_no_lines(pre, rg.author@);
                        assert(partial_entry_ok(post, eg)) by {
                            assert(eg.author@ == rg.author@);
                            assert(eg.lines as int == author_lines(post, eg.author@));
                            assert(eg.commits@.len() == 1);
                            assert(crate::utils::ids_sorted_distinct(eg.commits@));
                            assert forall|c: Seq<u8>| #[trigger]
                                crate::utils::id_seq_contains(eg.commits@, c)
                                    <==> author_has_commit(post, eg.author@, c) by {
                                if crate::utils::id_seq_contains(eg.commits@, c) {
                                    let t = choose|t: int|
                                        0 <= t < eg.commits@.len() && eg.commits@[t]@ == c;
                                    assert(eg.commits@[0]@ == rg.commit_id@);
                                    assert(c == rg.commit_id@);
                                }
                                if author_has_commit(post, eg.author@, c) {
                                    if author_has_commit(pre, eg.author@, c) {
                                        let t = choose|t: int|
                                            0 <= t < pre.len() && pre[t].author@ == eg.author@
                                                && pre[t].commit_id@ == c;
                                        assert(seq_has_author(pre, rg.author@));
                                    } else {
                                        assert(c == rg.commit_id@);
                                        assert(eg.commits@[0]@ == c);
                                    }
                                }
                            }
                            assert(eg.filenames@.len() == 1);
                            assert(crate::utils::strs_sorted_distinct(eg.filenames@));
                            assert forall|f: Seq<char>| #[trigger]
                                crate::utils::str_seq_contains(eg.filenames@, f)
                                    <==> author_has_file(post, eg.author@, f) by {
                                if crate::utils::str_seq_contains(eg.filenames@, f) {
                                    let t = choose|t: int|
                                        0 <= t < eg.filenames@.len() && eg.filenames@[t]@ == f;
                                    assert(eg.filenames@[0]@ == rg.file_name@);
                                    assert(f == rg.file_name@);
                                }
                                if author_has_file(post, eg.author@, f) {
                                    if author_has_file(pre, eg.author@, f) {
                                        let t = choose|t: int|
                                            0 <= t < pre.len() && pre[t].author@ == eg.author@
                                                && pre[t].file_name@ == f;
                                        assert(seq_has_author(pre, rg.author@));
                                    } else {
                                        assert(f == rg.file_name@);
                                        assert(eg.filenames@[0]@ == f);
                                    }
                                }
                            }
                        }
                        assert forall|k2: int|
                            0 <= k2 < stats@.len() implies partial_entry_ok(
                            post,
                            #[trigger] stats@[k2],
                        ) by {
                            if k2 < stats0.len() {
                                let a2 = stats@[k2].author@;
                                assert(stats@[k2] == stats0[k2]);
                                assert(partial_entry_ok(pre, stats0[k2]));
                                assert(a2 != rg.author@) by {
                                    if a2 == rg.author@ {
                                        assert(seq_has_author(pre, rg.author@));
                                    }
                                }
                                assert(author_lines(post, a2) == author_lines(pre, a2));
                            }
                        }
                        assert forall|a: Seq<char>| #[trigger]
                            seq_has_author(post, a) implies exists|k2: int|
                            0 <= k2 < stats@.len() && stats@[k2].author@ == a by {
                            if a == rg.author@ {
                                assert(stats@[stats@.len() - 1].author@ == a);
                            } else {
                                assert(seq_has_author(pre, a));
                                let k2 = choose|k2: int|
                                    0 <= k2 < stats0.len() && stats0[k2].author@ == a;
                                assert(stats@[k2].author@ == a);
                            }
                        }
                        assert(forall|k2: int, t: int|
                            0 <= k2 < t < stats@.len() ==> stats@[k2].author@
                                != stats@[t].author@) by {
                            assert forall|k2: int, t: int|
                                0 <= k2 < t < stats@.len() implies stats@[k2].author@
                                != stats@[t].author@ by {
                                if t == stats@.len() - 1 {
                                    assert(stats@[k2] == stats0[k2]);
                                    assert(partial_entry_ok(pre, stats0[k2]));
                                    if stats@[k2].author@ == rg.author@ {
                                        assert(seq_has_author(pre, rg.author@));
                                    }
                                }
                            }
                        }
                    }
                }
            } else {
                proof {
                    assert(post == pre);
                }
            }
            i += 1;
        }
        proof {
            assert(blame_entries@.take(n as int) =~= blame_entries@);
        }
        let total_commits = global_commits.len();
        let total_files = global_files.len();
        let ghost recs = included_recs(blame_entries@, restrict);
        let ghost grouped = stats@;
        let mut finalized: Vec<AuthorStats> = Vec::new();
        while stats.len() > 0
            invariant
                finalized@.len() + stats@.len() == grouped.len(),
                forall|t: int|
                    0 <= t < stats@.len() ==> #[trigger] stats@[t] == grouped[finalized@.len()
                        + t],
                forall|t: int|
                    0 <= t < finalized@.len() ==> stats_entry_ok(
                        recs,
                        #[trigger] finalized@[t],
                        total_lines,
                        total_files,
                        total_commits,
                    ),
                forall|t: int|
                    0 <= t < finalized@.len() ==> (#[trigger] finalized@[t].author)@
                        == grouped[t].author@ && finalized@[t].lines == grouped[t].lines,
                forall|k: int|
                    0 <= k < grouped.len() ==> partial_entry_ok(recs, #[trigger] grouped[k]),
                forall|k: int, t: int|
                    0 <= k < t < grouped.len() ==> grouped[k].author@ != grouped[t].author@,
                sum_stats_lines(finalized@) + sum_stats_lines(stats@) == sum_stats_lines(grouped),
            decreases stats@.len(),
        {
            let ghost stats_before = stats@;
            proof {
                lemma_sum_stats_drop_first(stats_before);
            }
            let mut e = stats.remove(0);
            proof {
                assert(stats@ =~= stats_before.drop_first());
            }
            let ghost epos = finalized@.len();
            e.commits_count = e.commits.len();
            e.file_count = e.filenames.len();
            e.perc_lines = Ratio { num: e.lines, den: total_lines };
            e.perc_commits = Ratio { num: e.commits_count, den: total_commits };
            e.perc_files = Ratio { num: e.file_count, den: total_files };
            let ghost eg = e;
            let ghost fin0 = finalized@;
            finalized.push(e);
            proof {
                assert(finalized@.drop_last() =~= fin0);
                assert(sum_stats_lines(finalized@) == sum_stats_lines(fin0) + eg.lines);
                assert(eg.lines == stats_before[0].lines);
                assert(eg.author@ == grouped[epos as int].author@ && eg.lines
                    == grouped[epos as int].lines);
                assert(partial_entry_ok(recs, grouped[epos as int]));
                assert(partial_entry_ok(recs, eg)) by {
                    assert(eg.commits@ == grouped[epos as int].commits@);
                    assert(eg.filenames@ == grouped[epos as int].filenames@);
                }
                assert(stats_entry_ok(recs, eg, total_lines, total_files, total_commits));
            }
        }
        proof {
            assert(sum_stats_lines(stats@) == 0);
            assert(finalized@.len() == grouped.len());
            assert forall|a: Seq<char>| #[trigger]
                seq_has_author(recs, a) implies exists|k2: int|
                0 <= k2 < finalized@.len() && finalized@[k2].author@ == a by {
                let k2 = choose|k2: int| 0 <= k2 < grouped.len() && grouped[k2].author@ == a;
                assert(finalized@[k2].author@ == a);
            }
            assert(forall|k2: int, t: int|
                0 <= k2 < t < finalized@.len() ==> finalized@[k2].author@
                    != finalized@[t].author@);
        }
        let ghost finalized_view = finalized@;
        let sorted = sort_stats(finalized, key);
        proof {
            broadcast use vstd::seq_lib::group_to_multiset_ensures;
            broadcast use vstd::multiset::group_multiset_axioms;

            lemma_sum_stats_permutation(finalized_view, sorted@);
            assert forall|k2: int|
                0 <= k2 < sorted@.len() implies stats_entry_ok(
                recs,
                #[trigger] sorted@[k2],
                total_lines,
                total_files,
                total_commits,
            ) by {
                assert(sorted@.to_multiset().count(sorted@[k2]) > 0);
                assert(finalized_view.contains(sorted@[k2]));
                let t = choose|t: int|
                    0 <= t < finalized_view.len() && finalized_view[t] == sorted@[k2];
                assert(stats_entry_ok(
                    recs,
                    finalized_view[t],
                    total_lines,
                    total_files,
                    total_commits,
                ));
            }
            assert forall|a: Seq<char>| #[trigger]
                seq_has_author(recs, a) implies exists|k2: int|
                0 <= k2 < sorted@.len() && sorted@[k2].author@ == a by {
                let k2 = choose|k2: int|
                    0 <= k2 < finalized_view.len() && finalized_view[k2].author@ == a;
                assert(sorted@.to_multiset().count(finalized_view[k2]) > 0);
                assert(sorted@.contains(finalized_view[k2]));
                let t = choose|t: int|
                    0 <= t < sorted@.len() && sorted@[t] == finalized_view[k2];
                assert(sorted@[t].author@ == a);
            }
            assert forall|k2: int, t: int|
                0 <= k2 < t < sorted@.len() implies sorted@[k2].author@
                != sorted@[t].author@ by {
                if sorted@[k2].author@ == sorted@[t].author@ {
                    if sorted@[k2] == sorted@[t] {
                        let x = sorted@[k2];
                        assert(sorted@.remove(t).to_multiset() =~= sorted@.to_multiset().remove(
                            x,
                        ));
                        assert(sorted@.remove(t)[k2] == x);
                        assert(sorted@.remove(t).contains(x));
                        assert(sorted@.remove(t).to_multiset().count(x) > 0);
                        assert(sorted@.to_multiset().remove(x).count(x) == sorted@.to_multiset().count(
                            x,
                        ) - 1);
                        assert(sorted@.to_multiset().count(x) >= 2);
                        assert(finalized_view.to_multiset().count(x) >= 2);
                        assert(finalized_view.contains(x));
                        let p1 = choose|p1: int|
                            0 <= p1 < finalized_view.len() && finalized_view[p1] == x;
                        assert(finalized_view.remove(p1).to_multiset()
                            =~= finalized_view.to_multiset().remove(x));
                        assert(finalized_view.remove(p1).to_multiset().count(x) >= 1);
                        assert(finalized_view.remove(p1).contains(x));
                        let p2 = choose|p2: int|
                            0 <= p2 < finalized_view.remove(p1).len()
                                && finalized_view.remove(p1)[p2] == x;
                        if p2 < p1 {
                            assert(finalized_view[p2] == x);
                        } else {
                            assert(finalized_view[p2 + 1] == x);
                        }
                    } else {
                        let x = sorted@[k2];
                        let y = sorted@[t];
                        assert(sorted@.contains(x) && sorted@.contains(y));
                        assert(sorted@.to_multiset().count(x) > 0 && sorted@.to_multiset().count(y)
                            > 0);
                        assert(finalized_view.to_multiset().count(x) > 0
                            && finalized_view.to_multiset().count(y) > 0);
                        assert(finalized_view.contains(x) && finalized_view.contains(y));
                        let p1 = choose|p1: int|
                            0 <= p1 < finalized_view.len() && finalized_view[p1] == x;
                        let p2 = choose|p2: int|
                            0 <= p2 < finalized_view.len() && finalized_view[p2] == y;
                        assert(p1 != p2);
                    }
                }
            }
            assert(stats_post(
                blame_entries@,
                restrict,
                key,
                sorted@,
                total_lines,
                total_files,
                total_commits,
            )) by {
                assert(crate::utils::ids_sorted_distinct(global_commits@) && global_commits@.len()
                    == total_commits);
                assert(crate::utils::strs_sorted_distinct(global_files@) && global_files@.len()
                    == total_files);
            }
            lemma_included_sum_mono(blame_entries@, restrict, n as int);
        }
        Ok((sorted, total_lines, total_files, total_commits))
    }
}

/// Percentage sum: when the included line total is positive, the
/// authors' line fractions sum to exactly one — every row's
/// `perc_lines` has the global line total as its denominator and the
/// row's own lines as its numerator, and the numerators over all rows
/// sum to that denominator.
pub proof fn lemma_percentage_sum(
    records: Seq<BlameEntry>,
    restrict: Option<Seq<String>>,
    key: SortKey,
    out: Seq<AuthorStats>,
    tl: usize,
    tf: usize,
    tc: usize,
)
    requires
        stats_post(records, restrict, key, out, tl, tf, tc),
        tl > 0,
    ensures
        forall|i: int|
            0 <= i < out.len() ==> (#[trigger] out[i]).perc_lines == (Ratio {
                num: out[i].lines,
                den: tl,
            }),
        sum_stats_lines(out) == tl as int,
{
}

/// Sort correctness: sorting by lines of code yields a non-increasing
/// sequence of line totals across the output.
pub proof fn lemma_sort_by_loc_non_increasing(
    records: Seq<BlameEntry>,
    restrict: Option<Seq<String>>,
    out: Seq<AuthorStats>,
    tl: usize,
    tf: usize,
    tc: usize,
)
    requires
        stats_post(records, restrict, SortKey::Loc, out, tl, tf, tc),
    ensures
        forall|i: int, j: int| 0 <= i < j < out.len() ==> out[i].lines >= out[j].lines,
{
    assert forall|i: int, j: int| 0 <= i < j < out.len() implies out[i].lines >= out[j].lines by {
        assert(stats_le(SortKey::Loc, out[i], out[j]));
    }
}

/// The summation step over records, as a fold operator.
pub open spec fn entry_lines_step() -> spec_fn(BlameEntry, int) -> int {
    |e: BlameEntry, acc: int| acc + e.lines
}

proof fn lemma_sum_entry_as_fold(s: Seq<BlameEntry>, b: int)
    ensures
        s.fold_right(entry_lines_step(), b) == sum_entry_lines(s) + b,
    decreases s.len(),
{
    if s.len() > 0 {
        lemma_sum_entry_as_fold(s.drop_last(), b + s.last().lines);
    }
}

/// Reordering records does not change the line total.
proof fn lemma_sum_entry_permutation(s1: Seq<BlameEntry>, s2: Seq<BlameEntry>)
    requires
        s1.to_multiset() == s2.to_multiset(),
    ensures
        sum_entry_lines(s1) == sum_entry_lines(s2),
{
    assert(vstd::seq_lib::commutative_foldr(entry_lines_step()));
    vstd::seq_lib::lemma_fold_right_permutation(s1, s2, entry_lines_step(), 0);
    lemma_sum_entry_as_fold(s1, 0);
    lemma_sum_entry_as_fold(s2, 0);
}

/// The per-author summation step, as a fold operator.
pub open spec fn author_lines_step(a: Seq<char>) -> spec_fn(BlameEntry, int) -> int {
    |e: BlameEntry, acc: int|
        acc + if e.author@ == a {
            e.lines as int
        } else {
            0
        }
}

proof fn lemma_author_lines_as_fold(s: Seq<BlameEntry>, a: Seq<char>, b: int)
    ensures
        s.fold_right(author_lines_step(a), b) == author_lines(s, a) + b,
    decreases s.len(),
{
    if s.len() > 0 {
        lemma_author_lines_as_fold(
            s.drop_last(),
            a,
            b + if s.last().author@ == a {
                s.last().lines as int
            } else {
                0
            },
        );
    }
}

/// Reordering records does not change any author's line count.
proof fn lemma_author_lines_permutation(s1: Seq<BlameEntry>, s2: Seq<BlameEntry>, a: Seq<char>)
    requires
        s1.to_multiset() == s2.to_multiset(),
    ensures
        author_lines(s1, a) == author_lines(s2, a),
{
    assert(vstd::seq_lib::commutative_foldr(author_lines_step(a)));
    vstd::seq_lib::lemma_fold_right_permutation(s1, s2, author_lines_step(a), 0);
    lemma_author_lines_as_fold(s1, a, 0);
    lemma_author_lines_as_fold(s2, a, 0);
}

/// Author exclusion commutes with reordering: the included records of
/// two permuted record lists are again permutations.
proof fn lemma_included_multiset(s: Seq<BlameEntry>, restrict: Option<Seq<String>>)
    ensures
        included_recs(s, restrict).to_multiset() =~= s.to_multiset().filter(
            |e: BlameEntry| !rec_excluded(e, restrict),
        ),
    decreases s.len(),
{
    broadcast use vstd::seq_lib::group_to_multiset_ensures;
    broadcast use vstd::multiset::group_multiset_axioms;

    let pred = |e: BlameEntry| !rec_excluded(e, restrict);
    if s.len() == 0 {
        assert forall|v: BlameEntry|
            included_recs(s, restrict).to_multiset().count(v) == s.to_multiset().filter(
                pred,
            ).count(v) by {
            assert(s.to_multiset().count(v) == 0);
        }
    } else {
        lemma_included_multiset(s.drop_last(), restrict);
        let x = s.last();
        assert(s =~= s.drop_last().push(x));
        assert(s.to_multiset() =~= s.drop_last().to_multiset().insert(x));
        assert forall|v: BlameEntry|
            included_recs(s, restrict).to_multiset().count(v) == s.to_multiset().filter(
                pred,
            ).count(v) by {
            let dl = s.drop_last();
            if pred(x) {
                assert(included_recs(s, restrict) == included_recs(dl, restrict).push(x));
                assert(included_recs(s, restrict).to_multiset() =~= included_recs(
                    dl,
                    restrict,
                ).to_multiset().insert(x));
            } else {
                assert(included_recs(s, restrict) == included_recs(dl, restrict));
            }
        }
    }
}

/// Membership facts carry over between permuted record lists.
proof fn lemma_membership_transfer(s1: Seq<BlameEntry>, s2: Seq<BlameEntry>)
    requires
        s1.to_multiset() == s2.to_multiset(),
    ensures
        forall|a: Seq<char>| #[trigger] seq_has_author(s1, a) ==> seq_has_author(s2, a),
        forall|a: Seq<char>, c: Seq<u8>| #[trigger]
            author_has_commit(s1, a, c) ==> author_has_commit(s2, a, c),
        forall|a: Seq<char>, f: Seq<char>| #[trigger]
            author_has_file(s1, a, f) ==> author_has_file(s2, a, f),
        forall|c: Seq<u8>| #[trigger] seq_has_commit(s1, c) ==> seq_has_commit(s2, c),
        forall|f: Seq<char>| #[trigger] seq_has_file(s1, f) ==> seq_has_file(s2, f),
{
    broadcast use vstd::seq_lib::group_to_multiset_ensures;

    assert forall|a: Seq<char>| #[trigger] seq_has_author(s1, a) implies seq_has_author(
        s2,
        a,
    ) by {
        let i = choose|i: int| 0 <= i < s1.len() && s1[i].author@ == a;
        let e = s1[i];
        assert(s1.contains(e));
        assert(s2.to_multiset().count(e) > 0);
        assert(s2.contains(e));
        let j = choose|j: int| 0 <= j < s2.len() && s2[j] == e;
        assert(s2[j].author@ == a);
    }
    assert forall|a: Seq<char>, c: Seq<u8>| #[trigger]
        author_has_commit(s1, a, c) implies author_has_commit(s2, a, c) by {
        let i = choose|i: int| 0 <= i < s1.len() && s1[i].author@ == a && s1[i].commit_id@ == c;
        let e = s1[i];
        assert(s1.contains(e));
        assert(s2.to_multiset().count(e) > 0);
        assert(s2.contains(e));
        let j = choose|j: int| 0 <= j < s2.len() && s2[j] == e;
        assert(s2[j].author@ == a && s2[j].commit_id@ == c);
    }
    assert forall|a: Seq<char>, f: Seq<char>| #[trigger]
        author_has_file(s1, a, f) implies author_has_file(s2, a, f) by {
        let i = choose|i: int| 0 <= i < s1.len() && s1[i].author@ == a && s1[i].file_name@ == f;
        let e = s1[i];
        assert(s1.contains(e));
        assert(s2.to_multiset().count(e) > 0);
        assert(s2.contains(e));
        let j = choose|j: int| 0 <= j < s2.len() && s2[j] == e;
        assert(s2[j].author@ == a && s2[j].file_name@ == f);
    }
    assert forall|c: Seq<u8>| #[trigger] seq_has_commit(s1, c) implies seq_has_commit(s2, c) by {
        let i = choose|i: int| 0 <= i < s1.len() && s1[i].commit_id@ == c;
        let e = s1[i];
        assert(s1.contains(e));
        assert(s2.to_multiset().count(e) > 0);
        assert(s2.contains(e));
        let j = choose|j: int| 0 <= j < s2.len() && s2[j] == e;
        assert(s2[j].commit_id@ == c);
    }
    assert forall|f: Seq<char>| #[trigger] seq_has_file(s1, f) implies seq_has_file(s2, f) by {
        let i = choose|i: int| 0 <= i < s1.len() && s1[i].file_name@ == f;
        let e = s1[i];
        assert(s1.contains(e));
        assert(s2.to_multiset().count(e) > 0);
        assert(s2.contains(e));
        let j = choose|j: int| 0 <= j < s2.len() && s2[j] == e;
        assert(s2[j].file_name@ == f);
    }
}

/// Two canonical (strictly sorted) identifier sequences with the same
/// members are the same sequence of identifiers.
proof fn lemma_canonical_ids_unique(v1: Seq<Vec<u8>>, v2: Seq<Vec<u8>>)
    requires
        crate::utils::ids_sorted_distinct(v1),
        crate::utils::ids_sorted_distinct(v2),
        forall|c: Seq<u8>|
            #[trigger] crate::utils::id_seq_contains(v1, c) <==> crate::utils::id_seq_contains(
                v2,
                c,
            ),
    ensures
        v1.len() == v2.len(),
        forall|i: int| 0 <= i < v1.len() ==> (#[trigger] v1[i])@ == v2[i]@,
    decreases v1.len(),
{
    if v1.len() == 0 {
        if v2.len() > 0 {
            assert(crate::utils::id_seq_contains(v2, v2[0]@));
            assert(crate::utils::id_seq_contains(v1, v2[0]@));
            assert(false);
        }
    } else if v2.len() == 0 {
        assert(crate::utils::id_seq_contains(v1, v1[0]@));
        assert(crate::utils::id_seq_contains(v2, v1[0]@));
        assert(false);
    } else {
        let a = v1[0]@;
        let b = v2[0]@;
        assert(crate::utils::id_seq_contains(v1, a));
        assert(crate::utils::id_seq_contains(v2, b));
        assert(crate::utils::id_seq_contains(v2, a));
        assert(crate::utils::id_seq_contains(v1, b));
        let j = choose|j: int| 0 <= j < v2.len() && v2[j]@ == a;
        let t = choose|t: int| 0 <= t < v1.len() && v1[t]@ == b;
        assert(a == b) by {
            if j > 0 && t > 0 {
                assert(crate::utils::lex_lt(
                    crate::utils::byte_ints(v2[0]@),
                    crate::utils::byte_ints(v2[j]@),
                ));
                assert(crate::utils::lex_lt(
                    crate::utils::byte_ints(v1[0]@),
                    crate::utils::byte_ints(v1[t]@),
                ));
                crate::utils::lemma_lex_le_antisym(
                    crate::utils::byte_ints(a),
                    crate::utils::byte_ints(b),
                );
                crate::utils::lemma_byte_ints_injective(a, b);
            }
        }
        assert forall|c: Seq<u8>|
            #[trigger] crate::utils::id_seq_contains(v1.drop_first(), c)
                <==> crate::utils::id_seq_contains(v2.drop_first(), c) by {
            lemma_canonical_tail_membership(v1, c);
            lemma_canonical_tail_membership(v2, c);
        }
        assert(crate::utils::ids_sorted_distinct(v1.drop_first())) by {
            assert(forall|i: int|
                0 <= i < v1.drop_first().len() ==> #[trigger] v1.drop_first()[i] == v1[i + 1]);
        }
        assert(crate::utils::ids_sorted_distinct(v2.drop_first())) by {
            assert(forall|i: int|
                0 <= i < v2.drop_first().len() ==> #[trigger] v2.drop_first()[i] == v2[i + 1]);
        }
        lemma_canonical_ids_unique(v1.drop_first(), v2.drop_first());
        assert forall|i: int| 0 <= i < v1.len() implies (#[trigger] v1[i])@ == v2[i]@ by {
            if i > 0 {
                assert(v1.drop_first()[i - 1]@ == v2.drop_first()[i - 1]@);
            }
        }
    }
}

/// A canonical identifier sequence's tail holds exactly the members
/// other than the head.
proof fn lemma_canonical_tail_membership(v: Seq<Vec<u8>>, c: Seq<u8>)
    requires
        crate::utils::ids_sorted_distinct(v),
        v.len() > 0,
    ensures
        crate::utils::id_seq_contains(v.drop_first(), c) <==> (crate::utils::id_seq_contains(v, c)
            && c != v[0]@),
{
    if crate::utils::id_seq_contains(v.drop_first(), c) {
        let i = choose|i: int| 0 <= i < v.drop_first().len() && v.drop_first()[i]@ == c;
        assert(v[i + 1]@ == c);
        assert(crate::utils::lex_lt(
            crate::utils::byte_ints(v[0]@),
            crate::utils::byte_ints(v[i + 1]@),
        ));
        if c == v[0]@ {
            crate::utils::lemma_lex_le_refl(crate::utils::byte_ints(c));
        }
    }
    if crate::utils::id_seq_contains(v, c) && c != v[0]@ {
        let i = choose|i: int| 0 <= i < v.len() && v[i]@ == c;
        assert(i > 0);
        assert(v.drop_first()[i - 1]@ == c);
    }
}

/// Two canonical (strictly sorted) name sequences with the same
/// members are the same sequence of names.
proof fn lemma_canonical_strs_unique(v1: Seq<String>, v2: Seq<String>)
    requires
        crate::utils::strs_sorted_distinct(v1),
        crate::utils::strs_sorted_distinct(v2),
        forall|f: Seq<char>|
            #[trigger] crate::utils::str_seq_contains(v1, f) <==> crate::utils::str_seq_contains(
                v2,
                f,
            ),
    ensures
        v1.len() == v2.len(),
        forall|i: int| 0 <= i < v1.len() ==> (#[trigger] v1[i])@ == v2[i]@,
    decreases v1.len(),
{
    if v1.len() == 0 {
        if v2.len() > 0 {
            assert(crate::utils::str_seq_contains(v2, v2[0]@));
            assert(crate::utils::str_seq_contains(v1, v2[0]@));
            assert(false);
        }
    } else if v2.len() == 0 {
        assert(crate::utils::str_seq_contains(v1, v1[0]@));
        assert(crate::utils::str_seq_contains(v2, v1[0]@));
        assert(false);
    } else {
        let a = v1[0]@;
        let b = v2[0]@;
        assert(crate::utils::str_seq_contains(v1, a));
        assert(crate::utils::str_seq_contains(v2, b));
        assert(crate::utils::str_seq_contains(v2, a));
        assert(crate::utils::str_seq_contains(v1, b));
        let j = choose|j: int| 0 <= j < v2.len() && v2[j]@ == a;
        let t = choose|t: int| 0 <= t < v1.len() && v1[t]@ == b;
        assert(a == b) by {
            if j > 0 && t > 0 {
                assert(crate::utils::lex_lt(
                    crate::utils::char_ints(v2[0]@),
                    crate::utils::char_ints(v2[j]@),
                ));
                assert(crate::utils::lex_lt(
                    crate::utils::char_ints(v1[0]@),
                    crate::utils::char_ints(v1[t]@),
                ));
                crate::utils::lemma_lex_le_antisym(
                    crate::utils::char_ints(a),
                    crate::utils::char_ints(b),
                );
                crate::utils::lemma_char_ints_injective(a, b);
            }
        }
        assert forall|f: Seq<char>|
            #[trigger] crate::utils::str_seq_contains(v1.drop_first(), f)
                <==> crate::utils::str_seq_contains(v2.drop_first(), f) by {
            lemma_canonical_str_tail_membership(v1, f);
            lemma_canonical_str_tail_membership(v2, f);
        }
        assert(crate::utils::strs_sorted_distinct(v1.drop_first())) by {
            assert(forall|i: int|
                0 <= i < v1.drop_first().len() ==> #[trigger] v1.drop_first()[i] == v1[i + 1]);
        }
        assert(crate::utils::strs_sorted_distinct(v2.drop_first())) by {
            assert(forall|i: int|
                0 <= i < v2.drop_first().len() ==> #[trigger] v2.drop_first()[i] == v2[i + 1]);
        }
        lemma_canonical_strs_unique(v1.drop_first(), v2.drop_first());
        assert forall|i: int| 0 <= i < v1.len() implies (#[trigger] v1[i])@ == v2[i]@ by {
            if i > 0 {
                assert(v1.drop_first()[i - 1]@ == v2.drop_first()[i - 1]@);
            }
        }
    }
}

proof fn lemma_canonical_str_tail_membership(v: Seq<String>, f: Seq<char>)
    requires
        crate::utils::strs_sorted_distinct(v),
        v.len() > 0,
    ensures
        crate::utils::str_seq_contains(v.drop_first(), f) <==> (crate::utils::str_seq_contains(
            v,
            f,
        ) && f != v[0]@),
{
    if crate::utils::str_seq_contains(v.drop_first(), f) {
        let i = choose|i: int| 0 <= i < v.drop_first().len() && v.drop_first()[i]@ == f;
        assert(v[i + 1]@ == f);
        assert(crate::utils::lex_lt(
            crate::utils::char_ints(v[0]@),
            crate::utils::char_ints(v[i + 1]@),
        ));
        if f == v[0]@ {
            crate::utils::lemma_lex_le_refl(crate::utils::char_ints(f));
        }
    }
    if crate::utils::str_seq_contains(v, f) && f != v[0]@ {
        let i = choose|i: int| 0 <= i < v.len() && v[i]@ == f;
        assert(i > 0);
        assert(v.drop_first()[i - 1]@ == f);
    }
}

/// Some output row names this author.
pub open spec fn out_has_author(out: Seq<AuthorStats>, a: Seq<char>) -> bool {
    exists|i: int| 0 <= i < out.len() && out[i].author@ == a
}

/// The mathematical content of one output row.
pub ghost struct AuthorStatsView {
    pub author: Seq<char>,
    pub lines: int,
    pub commits: Seq<Seq<u8>>,
    pub filenames: Seq<Seq<char>>,
    pub commits_count: int,
    pub file_count: int,
    pub perc_lines: Ratio,
    pub perc_commits: Ratio,
    pub perc_files: Ratio,
}

pub open spec fn stats_view(e: AuthorStats) -> AuthorStatsView {
    AuthorStatsView {
        author: e.author@,
        lines: e.lines as int,
        commits: e.commits@.map_values(|v: Vec<u8>| v@),
        filenames: e.filenames@.map_values(|s: String| s@),
        commits_count: e.commits_count as int,
        file_count: e.file_count as int,
        perc_lines: e.perc_lines,
        perc_commits: e.perc_commits,
        perc_files: e.perc_files,
    }
}

pub open spec fn stats_views(s: Seq<AuthorStats>) -> Seq<AuthorStatsView> {
    s.map_values(|e: AuthorStats| stats_view(e))
}

/// Rows with the same author over permuted record lists have equal
/// content.
proof fn lemma_entry_view_determined(
    recs1: Seq<BlameEntry>,
    recs2: Seq<BlameEntry>,
    e1: AuthorStats,
    e2: AuthorStats,
    tl: usize,
    tf: usize,
    tc: usize,
)
    requires
        recs1.to_multiset() == recs2.to_multiset(),
        stats_entry_ok(recs1, e1, tl, tf, tc),
        stats_entry_ok(recs2, e2, tl, tf, tc),
        e1.author@ == e2.author@,
    ensures
        stats_view(e1) == stats_view(e2),
{
    let a = e1.author@;
    lemma_author_lines_permutation(recs1, recs2, a);
    lemma_membership_transfer(recs1, recs2);
    lemma_membership_transfer(recs2, recs1);
    assert forall|c: Seq<u8>|
        #[trigger] crate::utils::id_seq_contains(e1.commits@, c)
            <==> crate::utils::id_seq_contains(e2.commits@, c) by {
        assert(crate::utils::id_seq_contains(e1.commits@, c) <==> author_has_commit(recs1, a, c));
        assert(crate::utils::id_seq_contains(e2.commits@, c) <==> author_has_commit(recs2, a, c));
    }
    lemma_canonical_ids_unique(e1.commits@, e2.commits@);
    assert forall|f: Seq<char>|
        #[trigger] crate::utils::str_seq_contains(e1.filenames@, f)
            <==> crate::utils::str_seq_contains(e2.filenames@, f) by {
        assert(crate::utils::str_seq_contains(e1.filenames@, f) <==> author_has_file(recs1, a, f));
        assert(crate::utils::str_seq_contains(e2.filenames@, f) <==> author_has_file(recs2, a, f));
    }
    lemma_canonical_strs_unique(e1.filenames@, e2.filenames@);
    assert(stats_view(e1).commits =~= stats_view(e2).commits);
    assert(stats_view(e1).filenames =~= stats_view(e2).filenames);
}

/// Two sorted, author-distinct outputs over permuted record lists and
/// the same author set are row-for-row equal in content.
proof fn lemma_sorted_stats_unique(
    recs1: Seq<BlameEntry>,
    recs2: Seq<BlameEntry>,
    key: SortKey,
    out1: Seq<AuthorStats>,
    out2: Seq<AuthorStats>,
    tl: usize,
    tf: usize,
    tc: usize,
)
    requires
        recs1.to_multiset() == recs2.to_multiset(),
        forall|i: int| 0 <= i < out1.len() ==> stats_entry_ok(recs1, #[trigger] out1[i], tl, tf, tc),
        forall|i: int| 0 <= i < out2.len() ==> stats_entry_ok(recs2, #[trigger] out2[i], tl, tf, tc),
        forall|i: int, j: int| 0 <= i < j < out1.len() ==> out1[i].author@ != out1[j].author@,
        forall|i: int, j: int| 0 <= i < j < out2.len() ==> out2[i].author@ != out2[j].author@,
        forall|i: int, j: int| 0 <= i < j < out1.len() ==> stats_le(key, out1[i], out1[j]),
        forall|i: int, j: int| 0 <= i < j < out2.len() ==> stats_le(key, out2[i], out2[j]),
        forall|a: Seq<char>| #[trigger] out_has_author(out1, a) <==> out_has_author(out2, a),
    ensures
        stats_views(out1) =~= stats_views(out2),
    decreases out1.len(),
{
    if out1.len() == 0 {
        if out2.len() > 0 {
            assert(out_has_author(out2, out2[0].author@));
            assert(out_has_author(out1, out2[0].author@));
            let i = choose|i: int| 0 <= i < out1.len() && out1[i].author@ == out2[0].author@;
        }
        assert(stats_views(out1) =~= stats_views(out2));
    } else {
        assert(out2.len() > 0) by {
            assert(out_has_author(out1, out1[0].author@));
            assert(out_has_author(out2, out1[0].author@));
            let j = choose|j: int| 0 <= j < out2.len() && out2[j].author@ == out1[0].author@;
        }
        let a = out1[0].author@;
        let b = out2[0].author@;
        assert(out_has_author(out1, a));
        assert(out_has_author(out2, b));
        assert(out_has_author(out2, a));
        assert(out_has_author(out1, b));
        let j = choose|j: int| 0 <= j < out2.len() && out2[j].author@ == a;
        let t = choose|t: int| 0 <= t < out1.len() && out1[t].author@ == b;
        assert(a == b) by {
            if j > 0 && t > 0 {
                assert(stats_le(key, out2[0], out2[j]));
                assert(stats_le(key, out1[0], out1[t]));
                lemma_entry_view_determined(recs1, recs2, out1[0], out2[j], tl, tf, tc);
                lemma_entry_view_determined(recs2, recs1, out2[0], out1[t], tl, tf, tc);
                assert(key_val(key, out1[0]) == key_val(key, out2[j]));
                assert(key_val(key, out2[0]) == key_val(key, out1[t]));
                crate::utils::lemma_lex_le_antisym(
                    crate::utils::char_ints(a),
                    crate::utils::char_ints(b),
                );
                crate::utils::lemma_char_ints_injective(a, b);
            }
        }
        lemma_entry_view_determined(recs1, recs2, out1[0], out2[0], tl, tf, tc);
        assert forall|x: Seq<char>| #[trigger] out_has_author(out1.drop_first(), x)
            <==> out_has_author(out2.drop_first(), x) by {
            if out_has_author(out1.drop_first(), x) {
                let i = choose|i: int|
                    0 <= i < out1.drop_first().len() && out1.drop_first()[i].author@ == x;
                assert(out1[i + 1].author@ == x);
                assert(x != a);
                assert(out_has_author(out1, x));
                assert(out_has_author(out2, x));
                let j2 = choose|j2: int| 0 <= j2 < out2.len() && out2[j2].author@ == x;
                assert(j2 > 0);
                assert(out2.drop_first()[j2 - 1].author@ == x);
                assert(out_has_author(out2.drop_first(), x));
            }
            if out_has_author(out2.drop_first(), x) {
                let j2 = choose|j2: int|
                    0 <= j2 < out2.drop_first().len() && out2.drop_first()[j2].author@ == x;
                assert(out2[j2 + 1].author@ == x);
                assert(x != b);
                assert(out_has_author(out2, x));
                assert(out_has_author(out1, x));
                let i = choose|i: int| 0 <= i < out1.len() && out1[i].author@ == x;
                assert(i > 0);
                assert(out1.drop_first()[i - 1].author@ == x);
                assert(out_has_author(out1.drop_first(), x));
            }
        }
        assert(forall|i: int|
            0 <= i < out1.drop_first().len() ==> #[trigger] out1.drop_first()[i] == out1[i + 1]);
        assert(forall|i: int|
            0 <= i < out2.drop_first().len() ==> #[trigger] out2.drop_first()[i] == out2[i + 1]);
        lemma_sorted_stats_unique(
            recs1,
            recs2,
            key,
            out1.drop_first(),
            out2.drop_first(),
            tl,
            tf,
            tc,
        );
        assert forall|i: int|
            0 <= i < out1.len() implies #[trigger] stats_views(out1)[i] == stats_views(
            out2,
        )[i] by {
            if i == 0 {
                assert(stats_views(out1)[0] == stats_view(out1[0]));
                assert(stats_views(out2)[0] == stats_view(out2[0]));
            } else {
                assert(stats_views(out1.drop_first())[i - 1] == stats_views(
                    out2.drop_first(),
                )[i - 1]);
                assert(stats_views(out1.drop_first())[i - 1] == stats_view(out1[i]));
                assert(stats_views(out2.drop_first())[i - 1] == stats_view(out2[i]));
            }
        }
    }
}

/// Determinism: for a fixed record multiset, exclusion list and sort
/// key, any two outputs that meet the reducer contract agree row for
/// row in content and in every total — the order in which the blame
/// records were gathered, and hence the worker-pool size and task
/// completion order, cannot change the result.
pub proof fn lemma_stats_deterministic(
    records1: Seq<BlameEntry>,
    records2: Seq<BlameEntry>,
    restrict: Option<Seq<String>>,
    key: SortKey,
    out1: Seq<AuthorStats>,
    out2: Seq<AuthorStats>,
    tl1: usize,
    tf1: usize,
    tc1: usize,
    tl2: usize,
    tf2: usize,
    tc2: usize,
)
    requires
        records1.to_multiset() == records2.to_multiset(),
        stats_post(records1, restrict, key, out1, tl1, tf1, tc1),
        stats_post(records2, restrict, key, out2, tl2, tf2, tc2),
    ensures
        tl1 == tl2,
        tf1 == tf2,
        tc1 == tc2,
        stats_views(out1) =~= stats_views(out2),
{
    let recs1 = included_recs(records1, restrict);
    let recs2 = included_recs(records2, restrict);
    lemma_included_multiset(records1, restrict);
    lemma_included_multiset(records2, restrict);
    assert(recs1.to_multiset() == recs2.to_multiset());
    lemma_sum_entry_permutation(recs1, recs2);
    assert(tl1 == tl2);
    lemma_membership_transfer(recs1, recs2);
    lemma_membership_transfer(recs2, recs1);
    let gc1 = choose|gc: Seq<Vec<u8>>|
        crate::utils::ids_sorted_distinct(gc) && gc.len() == tc1 && forall|c: Seq<u8>|
            #[trigger] crate::utils::id_seq_contains(gc, c) <==> seq_has_commit(recs1, c);
    let gc2 = choose|gc: Seq<Vec<u8>>|
        crate::utils::ids_sorted_distinct(gc) && gc.len() == tc2 && forall|c: Seq<u8>|
            #[trigger] crate::utils::id_seq_contains(gc, c) <==> seq_has_commit(recs2, c);
    assert forall|c: Seq<u8>|
        #[trigger] crate::utils::id_seq_contains(gc1, c) <==> crate::utils::id_seq_contains(
            gc2,
            c,
        ) by {
        assert(crate::utils::id_seq_contains(gc1, c) <==> seq_has_commit(recs1, c));
        assert(crate::utils::id_seq_contains(gc2, c) <==> seq_has_commit(recs2, c));
    }
    lemma_canonical_ids_unique(gc1, gc2);
    assert(tc1 == tc2);
    let gf1 = choose|gf: Seq<String>|
        crate::utils::strs_sorted_distinct(gf) && gf.len() == tf1 && forall|f: Seq<char>|
            #[trigger] crate::utils::str_seq_contains(gf, f) <==> seq_has_file(recs1, f);
    let gf2 = choose|gf: Seq<String>|
        crate::utils::strs_sorted_distinct(gf) && gf.len() == tf2 && forall|f: Seq<char>|
            #[trigger] crate::utils::str_seq_contains(gf, f) <==> seq_has_file(recs2, f);
    assert forall|f: Seq<char>|
        #[trigger] crate::utils::str_seq_contains(gf1, f) <==> crate::utils::str_seq_contains(
            gf2,
            f,
        ) by {
        assert(crate::utils::str_seq_contains(gf1, f) <==> seq_has_file(recs1, f));
        assert(crate::utils::str_seq_contains(gf2, f) <==> seq_has_file(recs2, f));
    }
    lemma_canonical_strs_unique(gf1, gf2);
    assert(tf1 == tf2);
    assert forall|a: Seq<char>| #[trigger] out_has_author(out1, a) <==> out_has_author(
        out2,
        a,
    ) by {
        if out_has_author(out1, a) {
            let i = choose|i: int| 0 <= i < out1.len() && out1[i].author@ == a;
            assert(seq_has_author(recs1, a));
            assert(seq_has_author(recs2, a));
            let j = choose|j: int| 0 <= j < out2.len() && out2[j].author@ == a;
            assert(out_has_author(out2, a));
        }
        if out_has_author(out2, a) {
            let j = choose|j: int| 0 <= j < out2.len() && out2[j].author@ == a;
            assert(seq_has_author(recs2, a));
            assert(seq_has_author(recs1, a));
            let i = choose|i: int| 0 <= i < out1.len() && out1[i].author@ == a;
            assert(out_has_author(out1, a));
        }
    }
    lemma_sorted_stats_unique(recs1, recs2, key, out1, out2, tl1, tf1, tc1);
}

impl crate::Processable<(Vec<AuthorStats>, usize, usize, usize)> for Fame {
    /// The whole fame pipeline: resolve the commit range, list and
    /// filter the files, blame them all — a failure on one file drops
    /// only that file — and reduce the records to sorted per-author
    /// stats with exact totals and percentage fractions.  An error can
    /// only come from the repository, a filter pattern or an overflow
    /// of the line total: a per-file blame failure never surfaces as
    /// an error of the run.
    fn process(&self) -> (r: Result<(Vec<AuthorStats>, usize, usize, usize), crate::GritError>)
        ensures
            r matches Ok(t) ==> exists|records: Seq<BlameEntry>, restrict: Option<Vec<String>>|
                {
                    &&& crate::utils::opt_splits_into(self.args.restrict_authors, restrict)
                    &&& #[trigger] stats_post(
                        records,
                        opt_strs_view(restrict),
                        sort_key_of(self.args.sort),
                        t.0@,
                        t.1,
                        t.2,
                        t.3,
                    )
                },
            r matches Err(e) ==> (e is RepositoryAccess || e is FilterPattern || e is Overflow),
            r matches Err(e) && e is FilterPattern ==> (crate::utils::has_malformed_pattern(
                self.args.includes,
            ) || crate::utils::has_malformed_pattern(self.args.excludes)),
    {
        let range = crate::git_utils::find_commit_range(
            self.args.path.as_str(),
            self.args.start_date,
            self.args.end_date,
        )?;
        let ra_clone = crate::effort::clone_opt_string(&self.args.restrict_authors);
        let restrict_authors = crate::utils::convert_string_list_to_vec(ra_clone);
        proof {
            crate::utils::lemma_opt_splits_view(
                self.args.restrict_authors,
                ra_clone,
                restrict_authors,
            );
        }
        let inc_clone = crate::effort::clone_opt_string(&self.args.includes);
        let exc_clone = crate::effort::clone_opt_string(&self.args.excludes);
        proof {
            crate::utils::lemma_has_malformed_view(self.args.includes, inc_clone);
            crate::utils::lemma_has_malformed_view(self.args.excludes, exc_clone);
        }
        let file_names = crate::utils::generate_file_list(
            self.args.path.as_str(),
            inc_clone,
            exc_clone,
        )?;
        let blame_entries = self.process_files(file_names, range.earliest, range.latest)?;
        let ghost records = blame_entries@;
        let ghost restrict = restrict_authors;
        let t = self.calculate_stats(blame_entries, restrict_authors)?;
        proof {
            assert(crate::utils::opt_splits_into(self.args.restrict_authors, restrict));
            assert(stats_post(
                records,
                opt_strs_view(restrict),
                sort_key_of(self.args.sort),
                t.0@,
                t.1,
                t.2,
                t.3,
            ));
        }
        Ok(t)
    }
}

/// Copies an optional commit identifier.
pub fn clone_opt_id(id: &Option<Vec<u8>>) -> (r: Option<Vec<u8>>)
    ensures
        match r {
            Some(v) => id matches Some(w) && v@ == w@,
            None => id is None,
        },
{
    match id {
        None => None,
        Some(v) => Some(clone_id(v)),
    }
}

} // verus!
