use grit::GritError;
use grit::calendar::CivilDate;
use grit::cli::parse_log_level;
use grit::utils::check_file_type;
use grit::utils::compile_glob_list;
use grit::utils::convert_string_list_to_vec;
use grit::utils::filter_files;
use grit::utils::format_date;
use grit::utils::generate_file_list;
use grit::utils::get_filename_extension;
use grit::utils::split_commas;
use grit::utils::str_eq;
use grit::utils::str_le;
use grit::utils::strip_extension;

#[test]
fn test_convert_string_list_to_vec() {
    let test_vec: Vec<String> = vec![String::from("1"), String::from("2"), String::from("3")];

    assert_eq!(convert_string_list_to_vec(None), None);
    assert_eq!(
        convert_string_list_to_vec(Some(String::from("1,2,3"))),
        Some(test_vec)
    );
}

#[test]
fn test_check_filetype() {
    assert!(check_file_type("test.txt", "txt"));
    assert!(check_file_type("test.rs", "rs"));
    assert!(!check_file_type("test.rs", "txt"));
}

#[test]
fn test_check_filetype_ignores_case() {
    assert!(check_file_type("test.TXT", "txt"));
    assert!(check_file_type("test.txt", "TXT"));
    assert!(!check_file_type("test", "txt"));
}

#[test]
fn test_get_filename_extension() {
    assert_eq!(get_filename_extension("test.txt"), Some("txt"));
    assert_eq!(get_filename_extension("test"), None);
}

#[test]
fn test_strip_extension() {
    assert_eq!(strip_extension("test.txt"), Some("test"));
    assert_eq!(strip_extension("src/test.txt"), Some("test"));
}

#[test]
fn test_extension_corner_cases() {
    assert_eq!(get_filename_extension(".hidden"), None);
    assert_eq!(get_filename_extension("dir.v/file"), None);
    assert_eq!(get_filename_extension("a.b.c"), Some("c"));
    assert_eq!(strip_extension("a.b.c"), Some("a.b"));
}

#[test]
fn test_format_date() {
    let test_date = CivilDate::new(2020, 3, 13).unwrap();
    assert_eq!(format_date(test_date), "2020-03-13");
}

#[test]
fn test_split_commas_segments() {
    let out = split_commas(&String::from("a,,bc"));
    assert_eq!(out, vec![String::from("a"), String::from(""), String::from("bc")]);
    let single = split_commas(&String::from("alone"));
    assert_eq!(single, vec![String::from("alone")]);
}

#[test]
fn test_str_order() {
    assert!(str_le("abc", "abd"));
    assert!(!str_le("abd", "abc"));
    assert!(str_le("ab", "abc"));
    assert!(str_eq("same", "same"));
    assert!(!str_eq("same", "Same"));
}

#[test]
fn test_filter_files_include() {
    let files = vec![
        String::from("main.rs"),
        String::from("lib.py"),
        String::from("notes.md"),
    ];
    let inc = Some(vec![String::from("*.rs"), String::from("*.md")]);
    let out = filter_files(files, &inc, &None);
    assert_eq!(out, vec![String::from("main.rs"), String::from("notes.md")]);
}

#[test]
fn test_filter_files_exclude() {
    let files = vec![String::from("main.rs"), String::from("lib.py")];
    let exc = Some(vec![String::from("*.rs")]);
    let out = filter_files(files, &None, &exc);
    assert_eq!(out, vec![String::from("lib.py")]);
}

#[test]
fn test_compile_glob_list_rejects_malformed() {
    let r = compile_glob_list(&Some(String::from("[")));
    assert!(matches!(r, Err(GritError::FilterPattern(_))));
    let ok = compile_glob_list(&Some(String::from("*.rs,*.md"))).unwrap().unwrap();
    assert_eq!(ok.len(), 2);
    assert!(compile_glob_list(&None).unwrap().is_none());
}

#[test]
fn test_generate_file_list_bad_pattern_fails_fast() {
    let r = generate_file_list("no/such/repo", Some(String::from("[")), None);
    assert!(matches!(r, Err(GritError::FilterPattern(_))));
}

#[test]
fn test_parse_log_level() {
    assert_eq!(parse_log_level("info").unwrap(), "info");
    assert_eq!(parse_log_level("ERROR").unwrap(), "ERROR");
    assert!(parse_log_level("loud").is_err());
}

#[test]
fn test_error_message() {
    let e = GritError::RepositoryAccess(String::from("no repository"));
    assert_eq!(e.message(), "no repository");
}

#[test]
fn test_split_commas_empty_string() {
    assert_eq!(
        convert_string_list_to_vec(Some(String::new())),
        Some(vec![String::new()])
    );
}

#[test]
fn test_civil_date_validation() {
    assert!(CivilDate::new(2020, 2, 29).is_some());
    assert!(CivilDate::new(2021, 2, 29).is_none());
    assert!(CivilDate::new(2021, 13, 1).is_none());
    assert!(CivilDate::new(0, 1, 1).is_none());
}
