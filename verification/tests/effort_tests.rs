use grit::by_file::ContribItem;
use grit::by_file::aggregate_contributions;
use grit::by_file::sort_contributions;
use grit::effort::EffortItem;
use grit::effort::EffortOutput;
use grit::effort::EffortProcessor;
use grit::effort::count_distinct_effort;
use grit::effort::sort_effort;

#[test]
fn test_count_distinct_effort() {
    let items = vec![
        EffortItem { commit_id: vec![1u8; 20], day: 100 },
        EffortItem { commit_id: vec![1u8; 20], day: 101 },
        EffortItem { commit_id: vec![2u8; 20], day: 100 },
    ];
    let (commits, active_days) = count_distinct_effort(&items);
    assert_eq!(commits, 2);
    assert_eq!(active_days, 2);
}

#[test]
fn test_count_distinct_effort_empty() {
    let (commits, active_days) = count_distinct_effort(&Vec::new());
    assert_eq!(commits, 0);
    assert_eq!(active_days, 0);
}

#[test]
fn test_sort_effort_descending() {
    let input = vec![
        EffortOutput { file: String::from("b.rs"), commits: 2, active_days: 1 },
        EffortOutput { file: String::from("a.rs"), commits: 5, active_days: 2 },
        EffortOutput { file: String::from("c.rs"), commits: 2, active_days: 3 },
    ];
    let out = sort_effort(input);
    assert_eq!(out[0].file, "a.rs");
    assert_eq!(out[1].file, "b.rs");
    assert_eq!(out[2].file, "c.rs");
    assert!(out[0].commits >= out[1].commits && out[1].commits >= out[2].commits);
}

#[test]
fn test_effort_processor_new() {
    let p = EffortProcessor::new(String::from("."), None, None, None);
    assert_eq!(p.path, ".");
    assert!(p.earliest_commit.is_none());
}

#[test]
fn test_aggregate_contributions() {
    let items = vec![
        ContribItem { author: String::from("ann"), day: 10, lines: 3 },
        ContribItem { author: String::from("ann"), day: 10, lines: 2 },
        ContribItem { author: String::from("ann"), day: 11, lines: 7 },
        ContribItem { author: String::from("bob"), day: 10, lines: 1 },
    ];
    let out = aggregate_contributions(&items).unwrap();
    assert_eq!(out.len(), 3);
    let total: usize = out.iter().map(|c| c.lines).sum();
    assert_eq!(total, 13);
    let ann10 = out.iter().find(|c| c.author == "ann" && c.day == 10).unwrap();
    assert_eq!(ann10.lines, 5);
}

#[test]
fn test_sort_contributions_by_day_descending() {
    let input = vec![
        grit::by_file::FileContribution { author: String::from("bob"), day: 10, lines: 1 },
        grit::by_file::FileContribution { author: String::from("ann"), day: 11, lines: 2 },
        grit::by_file::FileContribution { author: String::from("ann"), day: 10, lines: 3 },
    ];
    let out = sort_contributions(input);
    assert_eq!(out[0].day, 11);
    assert_eq!(out[1].author, "ann");
    assert_eq!(out[1].day, 10);
    assert_eq!(out[2].author, "bob");
}

#[test]
fn test_collect_effort_items() {
    let hunks = vec![
        grit::git_utils::BlameHunk {
            author: String::from("ann"),
            commit_id: vec![1u8; 20],
            lines: 3,
        },
        grit::git_utils::BlameHunk {
            author: String::from("bob"),
            commit_id: vec![2u8; 20],
            lines: 4,
        },
        grit::git_utils::BlameHunk {
            author: String::from("ann"),
            commit_id: vec![3u8; 20],
            lines: 5,
        },
    ];
    let days = vec![Some(100i64), Some(101), None];
    let restrict = Some(vec![String::from("bob")]);

    let items = grit::effort::collect_effort_items(&hunks, &days, &restrict);

    assert_eq!(items.len(), 1);
    assert_eq!(items[0].commit_id, vec![1u8; 20]);
    assert_eq!(items[0].day, 100);

    let unrestricted = grit::effort::collect_effort_items(&hunks, &days, &None);
    assert_eq!(unrestricted.len(), 2);
    assert_eq!(unrestricted[1].day, 101);
}
