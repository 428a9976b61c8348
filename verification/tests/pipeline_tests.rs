use chrono::TimeZone;
use grit::Processable;

fn fixture_repo(name: &str) -> String {
    let path = format!("/tmp/{}", name);
    let repo = git2::Repository::init(&path).unwrap();
    if repo.head().is_err() {
        let sig = git2::Signature::now("todd-bush", "todd@example.com").unwrap();
        let blob = repo.blob(b"hello world\n").unwrap();
        let mut builder = repo.treebuilder(None).unwrap();
        builder.insert("hello.txt", blob, 0o100644).unwrap();
        let tree_oid = builder.write().unwrap();
        let tree = repo.find_tree(tree_oid).unwrap();
        repo.commit(Some("HEAD"), &sig, &sig, "first", &tree, &[]).unwrap();
    }
    let mut opts = git2::build::CheckoutBuilder::new();
    opts.force();
    repo.checkout_head(Some(&mut opts)).unwrap();
    path
}

fn local_ts(date: &str) -> i64 {
    let day = chrono::NaiveDate::parse_from_str(date, "%Y-%m-%d").unwrap();
    let naive = day.and_hms_opt(0, 0, 0).unwrap();
    chrono::Local.from_local_datetime(&naive).unwrap().timestamp()
}

fn fame_args(path: String, start: Option<i64>, end: Option<i64>, inc: Option<String>, restrict: Option<String>) -> grit::fame::FameArgs {
    grit::fame::FameArgs::new(
        path,
        Some("loc".to_string()),
        start,
        end,
        inc,
        None,
        restrict,
        false,
        None,
    )
}

#[test]
fn test_process_fame_start_date() {
    let path = fixture_repo("fame-start-repo");
    let ed = local_ts("2020-03-26");

    let fame = grit::fame::Fame::new(fame_args(path, Some(ed), None, None, None));

    let result = fame.process();
    assert!(result.is_ok(), "test_process_fame_start_date result was {}", result.is_ok());
    let (stats, _, _, _) = result.unwrap();
    assert_eq!(stats.len(), 1);
}

#[test]
fn test_process_fame_end_date() {
    let path = fixture_repo("fame-end-repo");
    let ed = (chrono::Local::now() - chrono::Duration::days(30)).timestamp();

    let fame = grit::fame::Fame::new(fame_args(path, None, Some(ed), None, None));

    let result = fame.process();
    assert!(result.is_ok(), "test_process_fame_end_date result was {}", result.is_ok());
}

#[test]
fn test_process_fame_include() {
    let path = fixture_repo("fame-inc-repo");

    let fame = grit::fame::Fame::new(fame_args(
        path,
        None,
        None,
        Some("*.rs,*.md".to_string()),
        None,
    ));

    let result = fame.process();
    assert!(result.is_ok(), "test_process_fame_include result was {}", result.is_ok());
    let (stats, total_lines, _, _) = result.unwrap();
    assert!(stats.is_empty());
    assert_eq!(total_lines, 0);
}

#[test]
fn test_process_fame_restrict_author() {
    let path = fixture_repo("fame-restrict-repo");

    let fame = grit::fame::Fame::new(fame_args(
        path,
        None,
        None,
        None,
        Some(String::from("todd-bush")),
    ));

    let result = fame.process();
    assert!(
        result.is_ok(),
        "test_process_fame_restrict_author result was {}",
        result.is_ok()
    );
    let (stats, _, _, _) = result.unwrap();
    assert!(stats.is_empty());
}

#[test]
fn test_effort_include() {
    let path = fixture_repo("effort-inc-repo");
    let ea = grit::effort::EffortArgs::new(
        path,
        None,
        None,
        true,
        Some("*.rs,*.md".to_string()),
        None,
        None,
    );

    let results = grit::effort::Effort::new(ea).process().unwrap();
    assert!(results.is_empty());
}

#[test]
fn test_effort_restrict_author() {
    let path = fixture_repo("effort-restrict-repo");
    let ea = grit::effort::EffortArgs::new(
        path,
        None,
        None,
        true,
        None,
        None,
        Some(String::from("todd-bush-ln")),
    );

    let results = grit::effort::Effort::new(ea).process().unwrap();
    assert_eq!(results.len(), 1);
    assert_eq!(results[0].commits, 1);
}

#[test]
fn test_by_date_no_weekends() {
    let path = fixture_repo("bydate-noweekend-repo");

    let args = grit::by_date::ByDateArgs::new(path, None, false, true, true, false, None);
    let bd = grit::by_date::ByDate::new(args);

    let result = bd.process();
    assert!(result.is_ok(), "test_by_date_no_weekends resut {}", result.is_ok());
}

#[test]
fn test_by_date_end_date_only() {
    let path = fixture_repo("bydate-end-repo");

    let args = grit::by_date::ByDateArgs::new(path, None, false, false, false, false, None);
    let bd = grit::by_date::ByDate::new(args);

    let result = bd.process();
    assert!(result.is_ok(), "test_by_date_end_date_only resut {}", result.is_ok());
}

#[test]
fn test_find_people() {
    let args = grit::by_people::ByPeopleArgs { path: String::from(".") };
    let people = grit::by_people::find_people(args).unwrap();
    assert!(people.is_empty());
    let args_again = grit::by_people::ByPeopleArgs { path: String::from(".") };
    assert!(grit::by_people::process_people(args_again).is_ok());
}

#[test]
fn test_devs() {
    let path = fixture_repo("devs-repo");
    let args = grit::devs::DevsArgs::new(path, false, None, None);
    let _result = grit::devs::devs(args);
}
