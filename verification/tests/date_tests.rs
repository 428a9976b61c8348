use chrono::Datelike;
use grit::by_date::ByDate;
use grit::by_date::ByDateArgs;
use grit::by_date::DateBucket;
use grit::by_date::bucket_commit_days;
use grit::by_date::total_commit_count;
use grit::calendar::CivilDate;
use grit::calendar::is_weekend_day;
use grit::utils::convert_git_time;

fn day_of(y: i32, m: u8, d: u8) -> i64 {
    CivilDate::new(y, m, d).unwrap().day_number()
}

#[test]
fn test_is_weekend() {
    let args = ByDateArgs::new(String::from("path"), None, true, true, true, false, None);
    let bd = ByDate::new(args);

    let weekday = day_of(2020, 4, 20);
    assert!(!bd.is_weekend(weekday), "test_is_weekday");

    let weekend = day_of(2020, 4, 19);
    assert!(bd.is_weekend(weekend), "test_is_weekday");
}

#[test]
fn test_fill_date_gaps() {
    let args = ByDateArgs::new(String::from("path"), None, true, true, true, false, None);
    let bd = ByDate::new(args);

    let test_data: Vec<DateBucket> = vec![
        DateBucket { day: day_of(2020, 3, 13), count: 15 },
        DateBucket { day: day_of(2020, 3, 16), count: 45 },
    ];

    let test_out = bd.fill_date_gaps(test_data);

    assert_eq!(test_out.len(), 4);
    assert_eq!(test_out[2].count, 0);
}

#[test]
fn test_day_number_matches_calendar_library() {
    for (y, m, d) in [(2020, 3, 13), (1970, 1, 1), (2000, 2, 29), (2026, 12, 31)] {
        let mine = day_of(y, m as u8, d as u8);
        let theirs =
            chrono::NaiveDate::from_ymd_opt(y, m, d).unwrap().num_days_from_ce() as i64;
        assert_eq!(mine, theirs);
    }
}

#[test]
fn test_weekday_matches_calendar_library() {
    for (y, m, d) in [(2020, 4, 18), (2020, 4, 19), (2020, 4, 20), (2026, 10, 12)] {
        let date = chrono::NaiveDate::from_ymd_opt(y, m, d).unwrap();
        let expected = matches!(
            date.weekday(),
            chrono::Weekday::Sat | chrono::Weekday::Sun
        );
        assert_eq!(is_weekend_day(day_of(y, m as u8, d as u8)), expected);
    }
}

#[test]
fn test_convert_git_time_roundtrip() {
    let date = chrono::NaiveDate::from_ymd_opt(2021, 6, 15).unwrap();
    let noon = date.and_hms_opt(12, 0, 0).unwrap();
    let ts = noon.and_local_timezone(chrono::Local).unwrap().timestamp();
    assert_eq!(convert_git_time(ts), Some(day_of(2021, 6, 15)));
}

#[test]
fn test_bucket_commit_days_counts() {
    let monday = day_of(2020, 4, 20);
    let tuesday = day_of(2020, 4, 21);
    let days = vec![monday, tuesday, monday, monday];
    let out = bucket_commit_days(&days, false, false);
    assert_eq!(out.len(), 2);
    assert_eq!(out[0].day, monday);
    assert_eq!(out[0].count, 3);
    assert_eq!(out[1].day, tuesday);
    assert_eq!(out[1].count, 1);
}

#[test]
fn test_bucket_commit_days_weekend_exclusion() {
    let sunday = day_of(2020, 4, 19);
    let monday = day_of(2020, 4, 20);
    let out = bucket_commit_days(&vec![sunday, monday], true, false);
    assert_eq!(out.len(), 1);
    assert_eq!(out[0].day, monday);
}

#[test]
fn test_bucket_commit_days_gap_fill() {
    let friday = day_of(2020, 3, 13);
    let monday = day_of(2020, 3, 16);
    let out = bucket_commit_days(&vec![friday, monday, monday], false, true);
    assert_eq!(out.len(), 4);
    assert_eq!(out[0].count, 1);
    assert_eq!(out[1].count, 0);
    assert_eq!(out[2].count, 0);
    assert_eq!(out[3].count, 2);

    let excluded = bucket_commit_days(&vec![friday, monday, monday], true, true);
    assert_eq!(excluded.len(), 2);
    assert_eq!(excluded[0].day, friday);
    assert_eq!(excluded[1].day, monday);
}

#[test]
fn test_bucket_commit_days_empty() {
    let out = bucket_commit_days(&Vec::new(), false, true);
    assert_eq!(out.len(), 0);
}

#[test]
fn test_total_commit_count() {
    let buckets = vec![
        DateBucket { day: 1, count: 15 },
        DateBucket { day: 2, count: 0 },
        DateBucket { day: 3, count: 45 },
    ];
    assert_eq!(total_commit_count(&buckets), Some(60));
}

#[test]
fn test_calculate_chart_dimensions() {
    let args = ByDateArgs::new(String::from("path"), None, false, false, false, false, None);
    let bd = ByDate::new(args);
    assert_eq!(bd.calculate_chart_dimensions(61), (1920, 960));
    assert_eq!(bd.calculate_chart_dimensions(36), (1280, 960));
    assert_eq!(bd.calculate_chart_dimensions(10), (1027, 768));
}

#[test]
fn test_bucket_commit_days_all_weekend() {
    let saturday = day_of(2020, 4, 18);
    let sunday = day_of(2020, 4, 19);
    let out = bucket_commit_days(&vec![saturday, sunday], true, true);
    assert!(out.is_empty());
}

#[test]
fn test_fill_date_gaps_empty() {
    let args = ByDateArgs::new(String::from("path"), None, false, false, false, false, None);
    let bd = ByDate::new(args);
    let out = bd.fill_date_gaps(Vec::new());
    assert!(out.is_empty());
}

#[test]
fn test_fill_date_gaps_idempotent() {
    let args = ByDateArgs::new(String::from("path"), None, false, false, false, false, None);
    let bd = ByDate::new(args);

    let input: Vec<DateBucket> = vec![
        DateBucket { day: day_of(2020, 3, 13), count: 15 },
        DateBucket { day: day_of(2020, 3, 16), count: 45 },
    ];
    let once = bd.fill_date_gaps(input);
    let twice = bd.fill_date_gaps(once.clone());

    assert_eq!(once.len(), twice.len());
    for (a, b) in once.iter().zip(twice.iter()) {
        assert_eq!(a.day, b.day);
        assert_eq!(a.count, b.count);
    }
}
