use vstd::prelude::*;

use crate::GritError;
use git2::BlameOptions;
use git2::Oid;
use std::path::Path;

verus! {

#[verifier::external_type_specification]
#[verifier::external_body]
pub struct ExRepository(git2::Repository);

#[verifier::external_type_specification]
#[verifier::external_body]
pub struct ExBlameOptions(git2::BlameOptions);

/// Bounds on which commits are in scope.  `None` means "unbounded on
/// that side", which is distinct from naming the actual oldest or
/// newest commit of the repository.
#[derive(Debug)]
pub struct CommitRange {
    pub earliest: Option<Vec<u8>>,
    pub latest: Option<Vec<u8>>,
}

/// A commit identifier paired with its timestamp in seconds.
pub struct CommitTime {
    pub id: Vec<u8>,
    pub seconds: i64,
}

/// Relies on git2::Repository::open: opens the repository at `path`,
/// failing when there is none.
#[verifier::external_body]
pub fn get_repo(path: &str) -> (r: Result<git2::Repository, GritError>)
    ensures
        r matches Err(e) ==> e is RepositoryAccess,
{
    git2::Repository::open(path).map_err(|e| GritError::RepositoryAccess(e.message().to_string()))
}

/// Relies on git2::Repository::revwalk, Revwalk::set_sorting with a
/// time-based sort, Revwalk::push_head and Oid::as_bytes: the commit
/// identifiers reachable from the head, ordered oldest first or newest
/// first by commit time.
#[verifier::external_body]
pub(crate) fn revwalk_ids(repo: &git2::Repository, oldest_first: bool) -> (r: Result<
    Vec<Vec<u8>>,
    GritError,
>)
    ensures
        r matches Err(e) ==> e is RepositoryAccess,
{
    let conv = |e: git2::Error| GritError::RepositoryAccess(e.message().to_string());
    let mut walk = repo.revwalk().map_err(conv)?;
    let sort = if oldest_first {
        git2::Sort::REVERSE | git2::Sort::TIME
    } else {
        git2::Sort::NONE | git2::Sort::TIME
    };
    walk.set_sorting(sort).map_err(conv)?;
    walk.push_head().map_err(conv)?;
    walk.map(|id| id.map(|oid| oid.as_bytes().to_vec()).map_err(conv)).collect()
}

/// Relies on git2::Repository::find_commit and Commit::time: the commit
/// timestamp in seconds since the epoch.
#[verifier::external_body]
pub(crate) fn commit_seconds(repo: &git2::Repository, id: &Vec<u8>) -> (r: Result<i64, GritError>)
    ensures
        r matches Err(e) ==> e is RepositoryAccess,
{
    let conv = |e: git2::Error| GritError::RepositoryAccess(e.message().to_string());
    let oid = Oid::from_bytes(id).map_err(conv)?;
    let commit = repo.find_commit(oid).map_err(conv)?;
    Ok(commit.time().seconds())
}

/// Relies on git2::Repository::find_commit, Commit::author and
/// Signature::name_bytes: the author name of the commit, lossily
/// decoded as UTF-8.
#[verifier::external_body]
pub(crate) fn commit_author_name(repo: &git2::Repository, id: &Vec<u8>) -> (r: Result<String, GritError>)
    ensures
        r matches Err(e) ==> e is RepositoryAccess,
{
    let conv = |e: git2::Error| GritError::RepositoryAccess(e.message().to_string());
    let oid = Oid::from_bytes(id).map_err(conv)?;
    let commit = repo.find_commit(oid).map_err(conv)?;
    let name = String::from_utf8_lossy(commit.author().name_bytes()).into_owned();
    Ok(name)
}

/// One blame hunk of a file: the commit and author that last touched a
/// contiguous run of lines, and how many lines the run has.
pub struct BlameHunk {
    pub author: String,
    pub commit_id: Vec<u8>,
    pub lines: usize,
}

/// Relies on git2::BlameOptions and Oid::from_bytes: blame options
/// restricted to the commit range's bounds.
#[verifier::external_body]
pub(crate) fn blame_options(range: &CommitRange) -> (r: Result<git2::BlameOptions, GritError>)
    ensures
        r matches Err(e) ==> e is Blame,
{
    let conv = |e: git2::Error| GritError::Blame(e.message().to_string());
    let mut opts = BlameOptions::new();
    if let Some(v) = &range.earliest {
        opts.oldest_commit(Oid::from_bytes(v).map_err(conv)?);
    }
    if let Some(v) = &range.latest {
        opts.newest_commit(Oid::from_bytes(v).map_err(conv)?);
    }
    Ok(opts)
}

/// Relies on git2::Repository::blame_file and on
/// BlameHunk::final_signature, BlameHunk::final_commit_id and
/// BlameHunk::lines_in_hunk: one entry per hunk of the blamed file,
/// restricted by the given options.
#[verifier::external_body]
pub(crate) fn blame_hunks(repo: &git2::Repository, file_name: &str, opts: &mut git2::BlameOptions) -> (r:
    Result<Vec<BlameHunk>, GritError>)
    ensures
        r matches Err(e) ==> e is Blame,
{
    let conv = |e: git2::Error| GritError::Blame(e.message().to_string());
    let blame = repo.blame_file(Path::new(file_name), Some(opts)).map_err(conv)?;
    Ok(blame.iter().map(|h| BlameHunk {
        author: h.final_signature().map_or(String::new(), |s| String::from_utf8_lossy(s.name_bytes()).into_owned()),
        commit_id: h.final_commit_id().as_bytes().to_vec(),
        lines: h.lines_in_hunk(),
    }).collect())
}

/// Relies on git2::Repository::statuses with untracked, ignored and
/// unreadable entries excluded and unmodified entries included, and on
/// StatusEntry::path: the paths of the tracked files.
#[verifier::external_body]
pub(crate) fn list_tracked_files(repo: &git2::Repository) -> (r: Result<Vec<String>, GritError>)
    ensures
        r matches Err(e) ==> e is RepositoryAccess,
{
    let mut opts = git2::StatusOptions::new();
    opts.include_untracked(false).include_unmodified(true).include_ignored(false);
    opts.include_unreadable(false).exclude_submodules(true);
    let statuses = repo.statuses(Some(&mut opts)).map_err(
        |e| GritError::RepositoryAccess(e.message().to_string()),
    )?;
    Ok(statuses.iter().filter_map(|se| se.path().ok().map(|p| p.to_string())).collect())
}

/// Resolves optional timestamp bounds against a list of commits in
/// oldest-first order: the earliest bound becomes the first commit at
/// or after `start`, the latest bound the last commit at or before
/// `end`, and an absent bound stays absent.
pub fn resolve_commit_range(commits: &Vec<CommitTime>, start: Option<i64>, end: Option<i64>) -> (r:
    CommitRange)
    ensures
        start is None ==> r.earliest is None,
        end is None ==> r.latest is None,
        start matches Some(s) ==> match r.earliest {
            Some(id) => exists|i: int|
                0 <= i < commits@.len() && #[trigger] commits@[i].seconds >= s && commits@[i].id@
                    == id@ && forall|j: int| 0 <= j < i ==> #[trigger] commits@[j].seconds < s,
            None => forall|i: int| 0 <= i < commits@.len() ==> #[trigger] commits@[i].seconds < s,
        },
        end matches Some(e) ==> match r.latest {
            Some(id) => exists|i: int|
                0 <= i < commits@.len() && #[trigger] commits@[i].seconds <= e && commits@[i].id@
                    == id@ && forall|j: int|
                    i < j < commits@.len() ==> #[trigger] commits@[j].seconds > e,
            None => forall|i: int| 0 <= i < commits@.len() ==> #[trigger] commits@[i].seconds > e,
        },
{
    let n = commits.len();
    let earliest: Option<Vec<u8>> = match start {
        None => None,
        Some(s) => {
            let mut found: Option<Vec<u8>> = None;
            let mut i: usize = 0;
            while i < n && found.is_none()
                invariant
                    n == commits@.len(),
                    i <= n,
                    match found {
                        Some(id) => i > 0 && commits@[i - 1].seconds >= s && commits@[i - 1].id@
                            == id@ && forall|j: int|
                            0 <= j < i - 1 ==> #[trigger] commits@[j].seconds < s,
                        None => forall|j: int| 0 <= j < i ==> #[trigger] commits@[j].seconds < s,
                    },
                decreases n - i,
            {
                if commits[i].seconds >= s {
                    found = Some(clone_id(&commits[i].id));
                }
                i += 1;
            }
            found
        },
    };
    let latest: Option<Vec<u8>> = match end {
        None => None,
        Some(e) => {
            let mut found: Option<Vec<u8>> = None;
            let mut i: usize = n;
            while i > 0 && found.is_none()
                invariant
                    n == commits@.len(),
                    i <= n,
                    match found {
                        Some(id) => i < n && commits@[i as int].seconds <= e
                            && commits@[i as int].id@ == id@ && forall|j: int|
                            i < j < n ==> #[trigger] commits@[j].seconds > e,
                        None => forall|j: int| i <= j < n ==> #[trigger] commits@[j].seconds > e,
                    },
                decreases i,
            {
                i -= 1;
                if commits[i].seconds <= e {
                    found = Some(clone_id(&commits[i].id));
                }
            }
            found
        },
    };
    CommitRange { earliest, latest }
}

/// Copies a commit identifier.
pub fn clone_id(id: &Vec<u8>) -> (r: Vec<u8>)
    ensures
        r@ == id@,
{
    let mut out: Vec<u8> = Vec::new();
    let n = id.len();
    let mut i: usize = 0;
    while i < n
        invariant
            n == id@.len(),
            i <= n,
            out@ =~= id@.take(i as int),
        decreases n - i,
    {
        out.push(id[i]);
        proof {
            assert(out@ =~= id@.take(i as int + 1));
        }
        i += 1;
    }
    proof {
        assert(id@.take(n as int) =~= id@);
    }
    out
}

/// Walks the repository once and resolves the optional timestamp
/// bounds to a commit range, per `resolve_commit_range`.  An absent
/// bound always stays absent.
pub fn find_commit_range(repo_path: &str, start_sec: Option<i64>, end_sec: Option<i64>) -> (r:
    Result<CommitRange, GritError>)
    ensures
        r matches Ok(cr) ==> {
            &&& start_sec is None ==> cr.earliest is None
            &&& end_sec is None ==> cr.latest is None
        },
        r matches Err(e) ==> e is RepositoryAccess,
{
    let repo = get_repo(repo_path)?;
    if start_sec.is_none() && end_sec.is_none() {
        return Ok(CommitRange { earliest: None, latest: None });
    }
    let ids = revwalk_ids(&repo, true)?;
    let mut commits: Vec<CommitTime> = Vec::new();
    let n = ids.len();
    let mut i: usize = 0;
    while i < n
        invariant
            n == ids@.len(),
            i <= n,
        decreases n - i,
    {
        let seconds = commit_seconds(&repo, &ids[i])?;
        commits.push(CommitTime { id: clone_id(&ids[i]), seconds });
        i += 1;
    }
    Ok(resolve_commit_range(&commits, start_sec, end_sec))
}

} // verus!
