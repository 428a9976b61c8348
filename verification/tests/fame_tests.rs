use grit::GritError;
use grit::fame::AuthorStats;
use grit::fame::BlameEntry;
use grit::fame::Fame;
use grit::fame::FameArgs;
use grit::fame::Ratio;
use grit::fame::aggregate_hunks;
use grit::git_utils::BlameHunk;

fn hunk(author: &str, commit: u8, lines: usize) -> BlameHunk {
    BlameHunk {
        author: author.to_string(),
        commit_id: vec![commit; 20],
        lines,
    }
}

fn entry(author: &str, commit: u8, lines: usize, file: &str) -> BlameEntry {
    BlameEntry {
        author: author.to_string(),
        commit_id: vec![commit; 20],
        lines,
        file_name: file.to_string(),
    }
}

fn fame_with_sort(sort: &str) -> Fame {
    Fame::new(FameArgs::new(
        String::from("."),
        Some(sort.to_string()),
        None,
        None,
        None,
        None,
        None,
        false,
        None,
    ))
}

#[test]
fn test_aggregate_hunks_conservation() {
    let hunks = vec![hunk("ann", 1, 3), hunk("ann", 1, 2), hunk("bob", 2, 5), hunk("ann", 2, 1)];
    let out = aggregate_hunks(&hunks, "file.rs").unwrap();
    assert_eq!(out.len(), 3);
    let total: usize = out.iter().map(|e| e.lines).sum();
    assert_eq!(total, 11);
    for e in &out {
        assert_eq!(e.file_name, "file.rs");
    }
    let ann_c1 = out
        .iter()
        .find(|e| e.author == "ann" && e.commit_id == vec![1u8; 20])
        .unwrap();
    assert_eq!(ann_c1.lines, 5);
}

#[test]
fn test_aggregate_hunks_overflow() {
    let hunks = vec![hunk("ann", 1, usize::MAX), hunk("bob", 2, usize::MAX)];
    let r = aggregate_hunks(&hunks, "big");
    assert!(matches!(r, Err(GritError::Overflow)));
}

#[test]
fn test_calculate_stats_totals_and_percentages() {
    let fame = fame_with_sort("loc");
    let records = vec![
        entry("ann", 1, 6, "a.rs"),
        entry("ann", 2, 4, "b.rs"),
        entry("bob", 2, 10, "a.rs"),
    ];
    let (stats, total_lines, total_files, total_commits) =
        fame.calculate_stats(records, None).unwrap();

    assert_eq!(total_lines, 20);
    assert_eq!(total_files, 2);
    assert_eq!(total_commits, 2);
    assert_eq!(stats.len(), 2);

    assert_eq!(stats[0].author, "ann");
    assert_eq!(stats[0].lines, 10);
    assert_eq!(stats[0].commits_count, 2);
    assert_eq!(stats[0].file_count, 2);
    assert_eq!(stats[0].perc_lines, Ratio { num: 10, den: 20 });
    assert_eq!(stats[0].perc_commits, Ratio { num: 2, den: 2 });
    assert_eq!(stats[0].perc_files, Ratio { num: 2, den: 2 });

    assert_eq!(stats[1].author, "bob");
    assert_eq!(stats[1].lines, 10);
    assert_eq!(stats[1].commits_count, 1);
    assert_eq!(stats[1].file_count, 1);
}

#[test]
fn test_percentage_sum_is_one() {
    let fame = fame_with_sort("loc");
    let records = vec![
        entry("ann", 1, 7, "a.rs"),
        entry("bob", 2, 5, "a.rs"),
        entry("cid", 3, 8, "b.rs"),
    ];
    let (stats, total_lines, _, _) = fame.calculate_stats(records, None).unwrap();
    let numerator_sum: usize = stats.iter().map(|s| s.perc_lines.num).sum();
    assert_eq!(numerator_sum, total_lines);
    for s in &stats {
        assert_eq!(s.perc_lines.den, total_lines);
    }
}

#[test]
fn test_sort_by_loc_non_increasing() {
    let fame = fame_with_sort("loc");
    let records = vec![
        entry("ann", 1, 2, "a.rs"),
        entry("bob", 2, 9, "a.rs"),
        entry("cid", 3, 5, "b.rs"),
        entry("dee", 4, 9, "c.rs"),
    ];
    let (stats, _, _, _) = fame.calculate_stats(records, None).unwrap();
    for w in stats.windows(2) {
        assert!(w[0].lines >= w[1].lines);
    }
    assert_eq!(stats[0].author, "bob");
    assert_eq!(stats[1].author, "dee");
}

#[test]
fn test_calculate_stats_deterministic() {
    let fame = fame_with_sort("commit");
    let records_one = vec![
        entry("ann", 1, 6, "a.rs"),
        entry("bob", 2, 10, "a.rs"),
        entry("ann", 2, 4, "b.rs"),
    ];
    let records_two = vec![
        entry("ann", 2, 4, "b.rs"),
        entry("ann", 1, 6, "a.rs"),
        entry("bob", 2, 10, "a.rs"),
    ];
    let (s1, tl1, tf1, tc1) = fame.calculate_stats(records_one, None).unwrap();
    let (s2, tl2, tf2, tc2) = fame.calculate_stats(records_two, None).unwrap();
    assert_eq!((tl1, tf1, tc1), (tl2, tf2, tc2));
    assert_eq!(s1.len(), s2.len());
    for (a, b) in s1.iter().zip(s2.iter()) {
        assert_eq!(a.author, b.author);
        assert_eq!(a.lines, b.lines);
        assert_eq!(a.commits, b.commits);
        assert_eq!(a.filenames, b.filenames);
        assert_eq!(a.commits_count, b.commits_count);
        assert_eq!(a.file_count, b.file_count);
        assert_eq!(a.perc_lines, b.perc_lines);
    }
}

#[test]
fn test_calculate_stats_restrict_author() {
    let fame = fame_with_sort("loc");
    let records = vec![entry("ann", 1, 6, "a.rs"), entry("bob", 2, 10, "a.rs")];
    let (stats, total_lines, _, _) = fame
        .calculate_stats(records, Some(vec![String::from("bob")]))
        .unwrap();
    assert_eq!(stats.len(), 1);
    assert_eq!(stats[0].author, "ann");
    assert_eq!(total_lines, 6);
}

#[test]
fn test_calculate_stats_zero_denominators() {
    let fame = fame_with_sort("loc");
    let (stats, total_lines, total_files, total_commits) =
        fame.calculate_stats(Vec::new(), None).unwrap();
    assert!(stats.is_empty());
    assert_eq!((total_lines, total_files, total_commits), (0, 0, 0));
}

#[test]
fn test_blame_entry_new() {
    let e = BlameEntry::new(String::from("ann"), vec![7u8; 20], String::from("f.rs"));
    assert_eq!(e.lines, 0);
    assert_eq!(e.author, "ann");
}

#[test]
fn test_author_stats_new() {
    let s = AuthorStats::new();
    assert_eq!(s.lines, 0);
    assert_eq!(s.commits_count, 0);
    assert!(s.filenames.is_empty());
    assert_eq!(s.perc_lines, Ratio { num: 0, den: 0 });
}
