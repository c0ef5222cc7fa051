use diary_widget::config::diary_dir_from_env_path;
use diary_widget::diary::{date_title_and_filename, DiaryDate};
use diary_widget::entries::parse_diary_body_entries;
use diary_widget::markdown::shift_headings_down_one_if_has_h1;

use chrono::{Datelike, NaiveDate};

#[test]
fn shift_headings_no_h1_unchanged() {
    let text = "## title\ntext";
    let (shifted, applied) = shift_headings_down_one_if_has_h1(text);
    assert!(!applied);
    assert_eq!(shifted, text);
}

#[test]
fn shift_headings_with_h1_shift_all() {
    let text = "# h1\n## h2\n### h3";
    let (shifted, applied) = shift_headings_down_one_if_has_h1(text);
    assert!(applied);
    assert_eq!(shifted, "## h1\n### h2\n#### h3");
}

#[test]
fn shift_headings_h5_to_h6() {
    let text = "# root\n##### h5";
    let (shifted, applied) = shift_headings_down_one_if_has_h1(text);
    assert!(applied);
    assert_eq!(shifted, "## root\n###### h5");
}

#[test]
fn shift_headings_edge_cases() {
    let (a, b) = shift_headings_down_one_if_has_h1("");
    assert!(!b);
    assert_eq!(a, "");
    let (c, d) = shift_headings_down_one_if_has_h1("# only");
    assert!(d);
    assert_eq!(c, "## only");
}

#[test]
fn preserve_prefix_content() {
    let body = "前置说明\n\n# 09:30\nA\n\n# 11:00\nB";
    let (prefix, entries) = parse_diary_body_entries(body);
    assert_eq!(prefix, "前置说明");
    assert_eq!(entries.len(), 2);
}

#[test]
fn compare_sort_behavior_like_ts_logic() {
    let body = "# 11:00\nlate\n\n# 08:00\nearly";
    let (_prefix, mut entries) = parse_diary_body_entries(body);
    entries.sort_by_key(|e| e.time_minutes);
    assert!(entries[0].raw.contains("# 08:00"));
    assert!(entries[1].raw.contains("# 11:00"));
}

#[test]
fn file_name_format_matches_requirement() {
    let date = NaiveDate::from_ymd_opt(2026, 3, 27).expect("valid date");
    let diary_date = DiaryDate { year: date.year(), month: date.month(), day: date.day() };
    let (title, file) = date_title_and_filename(&diary_date);
    assert_eq!(title, "2026年3月27日日记");
    assert_eq!(file, "2026年3月27日日记.md");
    assert_eq!(date.year(), 2026);
}

#[test]
fn config_relative_rag_base_path_should_resolve_from_env_parent() {
    let raw = "RAG_BASE_PATH=./data/knowledge\n";
    let env_dir = std::path::Path::new("/tmp").join("diary_widget_test_env_relative");
    let real_env = env_dir.join(".env");
    let diary_dir = diary_dir_from_env_path(real_env.to_str().unwrap(), raw).expect("resolve diary dir");
    assert!(diary_dir.replace("\\", "/").ends_with("/data/knowledge/日记"));
}

#[test]
fn main_relative_rag_base_path_should_resolve_from_env_parent() {
    let raw = "RAG_BASE_PATH=./data/knowledge\n";
    let env_dir = std::path::Path::new("/tmp").join("diary_widget_test_env_relative_main");
    let real_env = env_dir.join(".env");
    let diary_dir = diary_dir_from_env_path(real_env.to_str().unwrap(), raw).expect("resolve diary dir");
    assert!(diary_dir.replace("\\", "/").ends_with("/data/knowledge/日记"));
}
