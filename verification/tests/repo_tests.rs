use grit::GritError;
use grit::git_utils::CommitTime;
use grit::git_utils::find_commit_range;
use grit::git_utils::get_repo;
use grit::git_utils::resolve_commit_range;
use chrono::TimeZone;
use grit::Processable;

fn init_empty_repo(name: &str) -> String {
    let path = format!("/tmp/{}", name);
    git2::Repository::init(&path).unwrap();
    path
}

fn init_repo_with_commit(name: &str) -> String {
    let path = format!("/tmp/{}", name);
    let repo = git2::Repository::init(&path).unwrap();
    if repo.head().is_ok() {
        return path;
    }
    let sig = git2::Signature::now("todd-bush", "todd@example.com").unwrap();
    let blob = repo.blob(b"hello world\n").unwrap();
    let mut builder = repo.treebuilder(None).unwrap();
    builder.insert("hello.txt", blob, 0o100644).unwrap();
    let tree_oid = builder.write().unwrap();
    let tree = repo.find_tree(tree_oid).unwrap();
    repo.commit(Some("HEAD"), &sig, &sig, "first", &tree, &[]).unwrap();
    path
}

#[test]
fn test_find_commit_range_no() {
    let path = init_empty_repo("range-repo-none");

    let range = find_commit_range(&path, None, None).unwrap();

    assert_eq!(range.earliest, None);
    assert_eq!(range.latest, None);
}

#[test]
fn test_find_commit_range_early() {
    let utc_dt = chrono::NaiveDate::parse_from_str("2020-03-26", "%Y-%m-%d").unwrap();
    let naive_dt = utc_dt.and_hms_opt(0, 0, 0).unwrap();
    let ed = chrono::Local.from_local_datetime(&naive_dt).unwrap();
    let path = init_repo_with_commit("range-repo-early");

    let range = find_commit_range(&path, Some(ed.timestamp()), None).unwrap();

    assert!(range.earliest.unwrap().len() > 0);
    assert_eq!(range.latest, None);
}

#[test]
fn test_resolve_commit_range_unbounded() {
    let commits = vec![
        CommitTime { id: vec![1u8; 20], seconds: 100 },
        CommitTime { id: vec![2u8; 20], seconds: 200 },
    ];
    let range = resolve_commit_range(&commits, None, None);
    assert!(range.earliest.is_none());
    assert!(range.latest.is_none());
}

#[test]
fn test_resolve_commit_range_bounds() {
    let commits = vec![
        CommitTime { id: vec![1u8; 20], seconds: 100 },
        CommitTime { id: vec![2u8; 20], seconds: 200 },
        CommitTime { id: vec![3u8; 20], seconds: 300 },
    ];
    let range = resolve_commit_range(&commits, Some(150), Some(250));
    assert_eq!(range.earliest, Some(vec![2u8; 20]));
    assert_eq!(range.latest, Some(vec![2u8; 20]));

    let none = resolve_commit_range(&commits, Some(400), Some(50));
    assert!(none.earliest.is_none());
    assert!(none.latest.is_none());
}

#[test]
fn test_get_repo_missing_path() {
    let r = get_repo("definitely/not/a/repository");
    assert!(matches!(r, Err(GritError::RepositoryAccess(_))));
}

#[test]
fn test_blame_missing_repo() {
    let p = grit::fame::BlameProcessor::new(String::from("definitely/not/a/repository"), None, None);
    assert!(p.process(String::from("file.rs")).is_err());
}

fn checked_out_repo(name: &str) -> String {
    let path = init_repo_with_commit(name);
    let repo = git2::Repository::open(&path).unwrap();
    let mut opts = git2::build::CheckoutBuilder::new();
    opts.force();
    repo.checkout_head(Some(&mut opts)).unwrap();
    path
}

#[test]
fn test_by_file() {
    let path = checked_out_repo("byfile-repo");

    let args = grit::by_file::ByFileArgs::new(path, String::from("hello.txt"), None, None);
    let bf = grit::by_file::ByFile::new(args);

    let contributions = bf.process().unwrap();
    assert_eq!(contributions.len(), 1);
    assert_eq!(contributions[0].author, "todd-bush");
    assert_eq!(contributions[0].lines, 1);
}

#[test]
fn test_process_fame() {
    let path = checked_out_repo("fame-repo");

    let args = grit::fame::FameArgs::new(
        path,
        Some("loc".to_string()),
        None,
        None,
        None,
        None,
        None,
        false,
        None,
    );
    let f = grit::fame::Fame::new(args);

    let (stats, total_lines, total_files, total_commits) = f.process().unwrap();
    assert_eq!(stats.len(), 1);
    assert_eq!(stats[0].author, "todd-bush");
    assert_eq!(stats[0].lines, 1);
    assert_eq!(total_lines, 1);
    assert_eq!(total_files, 1);
    assert_eq!(total_commits, 1);
    assert_eq!(stats[0].perc_lines, grit::fame::Ratio { num: 1, den: 1 });
}

#[test]
fn test_effort() {
    let path = checked_out_repo("effort-repo");

    let args = grit::effort::EffortArgs::new(path, None, None, false, None, None, None);
    let effort = grit::effort::Effort::new(args);

    let results = effort.process().unwrap();
    assert_eq!(results.len(), 1);
    assert_eq!(results[0].file, "hello.txt");
    assert_eq!(results[0].commits, 1);
    assert_eq!(results[0].active_days, 1);
}

#[test]
fn test_by_date_no_end() {
    let path = checked_out_repo("bydate-repo");

    let args = grit::by_date::ByDateArgs::new(path, None, false, false, false, false, None);
    let bd = grit::by_date::ByDate::new(args);

    let buckets = bd.process().unwrap();
    assert_eq!(buckets.len(), 1);
    assert_eq!(buckets[0].count, 1);
}

#[test]
fn test_restrict_author() {
    let path = checked_out_repo("bydate-restrict-repo");

    let args = grit::by_date::ByDateArgs::new(
        path,
        None,
        false,
        false,
        false,
        false,
        Some(String::from("todd-bush-ln")),
    );
    let bd = grit::by_date::ByDate::new(args);

    let buckets = bd.process().unwrap();
    assert_eq!(buckets.len(), 1);

    let all_path = checked_out_repo("bydate-restrict-all-repo");
    let all_args = grit::by_date::ByDateArgs::new(
        all_path,
        None,
        false,
        false,
        false,
        false,
        Some(String::from("todd-bush")),
    );
    let excluded = grit::by_date::ByDate::new(all_args).process().unwrap();
    assert!(excluded.is_empty());
}

#[test]
fn test_generate_file_list_rust() {
    let path = checked_out_repo("filelist-repo");

    let all = grit::utils::generate_file_list(&path, None, None).unwrap();
    assert_eq!(all, vec![String::from("hello.txt")]);

    let txt = grit::utils::generate_file_list(&path, Some(String::from("*.txt")), None).unwrap();
    assert!(txt.iter().all(|s| s.ends_with(".txt")));
    assert_eq!(txt.len(), 1);

    let none = grit::utils::generate_file_list(&path, None, Some(String::from("*.txt"))).unwrap();
    assert!(none.is_empty());
}

#[test]
fn test_find_commit_range_with_start_date() {
    let path = init_repo_with_commit("range-repo-start");
    let start_date = (chrono::Local::now() - chrono::Duration::days(365)).timestamp();

    let commit_range = find_commit_range(&path, Some(start_date), None).unwrap();

    assert!(commit_range.earliest.is_some());
}

#[test]
fn test_find_commit_range_with_end_date() {
    let path = init_repo_with_commit("range-repo-end");

    let commit_range =
        find_commit_range(&path, None, Some(chrono::Local::now().timestamp() + 60)).unwrap();

    assert!(commit_range.latest.is_some());
}

#[test]
fn test_find_commit_range_with_start_and_end_date() {
    let path = init_repo_with_commit("range-repo-both");
    let start_date = chrono::NaiveDate::parse_from_str("2020-10-10", "%Y-%m-%d")
        .unwrap()
        .and_hms_opt(21, 2, 20)
        .unwrap()
        .and_local_timezone(chrono::Local)
        .unwrap()
        .timestamp();

    let commit_range = find_commit_range(
        &path,
        Some(start_date),
        Some(chrono::Local::now().timestamp() + 60),
    )
    .unwrap();

    assert!(commit_range.earliest.is_some());
    assert!(commit_range.latest.is_some());
}
