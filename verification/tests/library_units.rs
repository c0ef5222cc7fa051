//! The library's functions one by one, against exact expected values and
//! against std, chrono and regex where they do the same work.
use std::path::Path;

use chrono::NaiveDate;
use regex::Regex;

use diary_widget::config::{
    app_config_dir, app_config_file, diary_dir_from_env_path, parse_rag_base_path_from_env,
    ConfigResponse,
};
use diary_widget::diary::{
    build_entry_block, plan_entry, plan_entry_with_date, update_existing_diary, WriteDiaryPayload,
};
use diary_widget::entries::{parse_diary_body_entries, should_append_without_sorting, EntrySection};
use diary_widget::error::DiaryError;
use diary_widget::format::{format_iso_date, format_time, parse_time_of_day};
use diary_widget::frontmatter::{
    assemble_diary_file, frontmatter_for, new_file_frontmatter, split_frontmatter_text,
};
use diary_widget::readback::digit_class_holds;
use diary_widget::frontmatter::frontmatter_splits_back;
use diary_widget::diary::diary_file_text;
use diary_widget::markdown::shift_headings_down_one_if_has_h1;
use diary_widget::order::sort_entries_by_time;

fn payload(date: &str, time: &str, title: &str, content: &str) -> WriteDiaryPayload {
    WriteDiaryPayload {
        date: date.to_string(),
        time: time.to_string(),
        title: title.to_string(),
        content: content.to_string(),
    }
}

fn entry(minutes: i32, raw: &str) -> EntrySection {
    EntrySection { time_minutes: minutes, raw: raw.to_string() }
}

/// The diary directory as std's path rules give it, the way the widget's
/// configuration step computes it.
fn reference_diary_dir(env_path: &str, base: &str) -> Option<String> {
    let b = Path::new(base);
    let resolved = if b.is_absolute() { b.to_path_buf() } else { Path::new(env_path).parent()?.join(b) };
    Some(resolved.join("日记").to_string_lossy().to_string())
}

#[test]
fn diary_dir_follows_std_path_rules() {
    let envs = ["/a/b/.env", "/", "", ".env", "a/b/", "/a/./b/.", "a//b", "..", "./x/.env", "C:\\u\\kb\\.env"];
    let bases = ["/abs/kb", "data", "./data/knowledge", "C:\\kb", "a/../b", "x/"];
    for e in envs {
        for b in bases {
            let raw = format!("RAG_BASE_PATH={b}");
            let expected = reference_diary_dir(e, b).ok_or(DiaryError::EnvDirUnknown);
            assert_eq!(diary_dir_from_env_path(e, &raw), expected, "env {e:?} base {b:?}");
        }
    }
}

#[test]
fn env_value_is_read_from_the_first_setting_line() {
    assert_eq!(
        parse_rag_base_path_from_env("# comment\n\nRAG_BASE_PATH = \"/data/kb\"\n"),
        Ok("/data/kb".to_string())
    );
    assert_eq!(parse_rag_base_path_from_env("RAG_BASE_PATH='x'\nRAG_BASE_PATH=y"), Ok("x".to_string()));
    assert_eq!(parse_rag_base_path_from_env("  RAG_BASE_PATH  =  a=b  "), Ok("a=b".to_string()));
    assert_eq!(parse_rag_base_path_from_env("RAG_BASE_PATH=\"'x'\""), Ok("x".to_string()));
    assert_eq!(parse_rag_base_path_from_env("RAG_BASE_PATH='\"x\"'"), Ok("\"x\"".to_string()));
    assert_eq!(parse_rag_base_path_from_env("#RAG_BASE_PATH=a\nRAG_BASE_PATH=b"), Ok("b".to_string()));
    assert_eq!(parse_rag_base_path_from_env("RAG_BASE_PATH=a\r\nX=1\r\n"), Ok("a".to_string()));
    assert_eq!(parse_rag_base_path_from_env("NOEQUALS\nRAG_BASE_PATH=z"), Ok("z".to_string()));
}

#[test]
fn env_value_errors() {
    assert_eq!(parse_rag_base_path_from_env("RAG_BASE_PATH=\"\"\n"), Err(DiaryError::RagBasePathEmpty));
    assert_eq!(parse_rag_base_path_from_env("RAG_BASE_PATH=   \nRAG_BASE_PATH=b"), Err(DiaryError::RagBasePathEmpty));
    assert_eq!(parse_rag_base_path_from_env("OTHER=1\n"), Err(DiaryError::RagBasePathMissing));
    assert_eq!(parse_rag_base_path_from_env("rag_base_path=a"), Err(DiaryError::RagBasePathMissing));
    assert_eq!(parse_rag_base_path_from_env(""), Err(DiaryError::RagBasePathMissing));
}

#[test]
fn diary_dir_resolution() {
    assert_eq!(
        diary_dir_from_env_path("/home/u/proj/.env", "RAG_BASE_PATH=/abs/kb"),
        Ok("/abs/kb/日记".to_string())
    );
    assert_eq!(
        diary_dir_from_env_path("/home/u/proj/.env", "RAG_BASE_PATH=data"),
        Ok("/home/u/proj/data/日记".to_string())
    );
    assert_eq!(diary_dir_from_env_path(".env", "RAG_BASE_PATH=data"), Ok("data/日记".to_string()));
    assert_eq!(diary_dir_from_env_path("/", "RAG_BASE_PATH=data"), Err(DiaryError::EnvDirUnknown));
    assert_eq!(diary_dir_from_env_path("/", "RAG_BASE_PATH=/abs"), Ok("/abs/日记".to_string()));
    assert_eq!(diary_dir_from_env_path("/x/.env", "A=1"), Err(DiaryError::RagBasePathMissing));
    let r = ConfigResponse::for_env_file("/x/.env", "RAG_BASE_PATH=kb").unwrap();
    assert_eq!(r.diary_dir, "/x/kb/日记");
}

#[test]
fn config_dir_and_file() {
    assert_eq!(app_config_dir(None), Err(DiaryError::ConfigDirUnknown));
    let expected_dir = Path::new("/home/u/.config").join("diary-widget").to_string_lossy().to_string();
    assert_eq!(app_config_dir(Some("/home/u/.config")), Ok(expected_dir.clone()));
    let expected_file = Path::new(&expected_dir).join("config.json").to_string_lossy().to_string();
    assert_eq!(app_config_file(&expected_dir), expected_file);
}

#[test]
fn error_messages() {
    assert_eq!(DiaryError::ConfigDirUnknown.message(), "无法确定配置目录");
    assert_eq!(DiaryError::RagBasePathEmpty.message(), "RAG_BASE_PATH 为空");
    assert_eq!(DiaryError::RagBasePathMissing.message(), "未在 .env 中找到 RAG_BASE_PATH");
    assert_eq!(DiaryError::EnvDirUnknown.message(), "无法确定 .env 所在目录");
    assert_eq!(DiaryError::DateFormat.message(), "date 格式应为 YYYY-MM-DD");
    assert_eq!(DiaryError::TimeFormat.message(), "time 格式应为 HH:MM");
    assert_eq!(DiaryError::HourInvalid.message(), "time 小时无效");
    assert_eq!(DiaryError::MinuteInvalid.message(), "time 分钟无效");
    assert_eq!(DiaryError::TimeOutOfRange.message(), "time 超出有效范围");
}

#[test]
fn time_text_reads_back() {
    assert_eq!(format_time(9, 5), "09:05");
    assert_eq!(format_time(23, 59), "23:59");
    assert_eq!(format_time(0, 0), "00:00");
    for h in 0..24 {
        for m in [0, 1, 9, 10, 30, 59] {
            assert_eq!(parse_time_of_day(&format_time(h, m)), Ok((h, m)));
        }
    }
}

#[test]
fn time_parsing_cases() {
    assert_eq!(parse_time_of_day(" 9:30 "), Ok((9, 30)));
    assert_eq!(parse_time_of_day("+9:+30"), Ok((9, 30)));
    assert_eq!(parse_time_of_day("930"), Err(DiaryError::TimeFormat));
    assert_eq!(parse_time_of_day("9:30:00"), Err(DiaryError::TimeFormat));
    assert_eq!(parse_time_of_day("a:30"), Err(DiaryError::HourInvalid));
    assert_eq!(parse_time_of_day("09 :30"), Err(DiaryError::HourInvalid));
    assert_eq!(parse_time_of_day(":30"), Err(DiaryError::HourInvalid));
    assert_eq!(parse_time_of_day("9:b"), Err(DiaryError::MinuteInvalid));
    assert_eq!(parse_time_of_day("24:00"), Err(DiaryError::TimeOutOfRange));
    assert_eq!(parse_time_of_day("-1:00"), Err(DiaryError::TimeOutOfRange));
    assert_eq!(parse_time_of_day("99999999999:00"), Err(DiaryError::HourInvalid));
}

#[test]
fn iso_dates_as_chrono_writes_them() {
    for (y, m, d) in [(2026, 3, 7), (-5, 1, 1), (12345, 12, 31), (0, 2, 29), (999, 10, 10)] {
        let expected = NaiveDate::from_ymd_opt(y, m, d).unwrap().format("%Y-%m-%d").to_string();
        assert_eq!(format_iso_date(y, m, d), expected);
    }
}

#[test]
fn dates_are_read_by_chrono() {
    assert_eq!(plan_entry(&payload("2026-02-30", "09:30", "", "")).err(), Some(DiaryError::DateFormat));
    assert_eq!(plan_entry(&payload("2026/03/27", "09:30", "", "")).err(), Some(DiaryError::DateFormat));
    let plan = plan_entry(&payload(" 2026-03-27 ", "9:5", " t ", "c")).unwrap();
    assert_eq!(plan.diary_title, "2026年3月27日日记");
    assert_eq!(plan.file_name, "2026年3月27日日记.md");
    assert_eq!(plan.date_text, "2026-03-27");
    assert_eq!(plan.time_text, "09:05");
    assert_eq!(plan.time_minutes, 545);
    assert_eq!(plan.entry_block, "# 09:05\n\n## t\n\nc\n");
    // Without a readable date the request is refused before the time is read.
    assert_eq!(plan_entry_with_date(None, &payload("", "bad", "", "")).err(), Some(DiaryError::DateFormat));
    assert_eq!(
        plan_entry_with_date(Some((2026, 3, 27)), &payload("", "bad", "", "")).err(),
        Some(DiaryError::TimeFormat)
    );
}

#[test]
fn entry_blocks() {
    assert_eq!(build_entry_block("09:30", "text\n\n", "  T  "), "# 09:30\n\n## T\n\ntext\n");
    assert_eq!(build_entry_block("09:30", "  \n", "   "), "# 09:30\n");
    assert_eq!(build_entry_block("09:30", "  x", ""), "# 09:30\n\n  x\n");
}

#[test]
fn shifting_agrees_with_the_patterns() {
    let has_h1 = Regex::new(r"(?m)^#\s+[^#]").unwrap();
    let levels = Regex::new(r"(?m)^(#{1,5})\s+").unwrap();
    let cases = [
        "# a\n######## deep",
        "#   spaced",
        "# a\n#\nb",
        "# #x",
        "#  #x",
        "text\n# h\r\n## h2\t\n###### six",
        "#\n",
        "  # indented\n# real",
        "#\u{3000}全角",
        "",
    ];
    for c in cases {
        let expected = if has_h1.is_match(c) {
            (levels.replace_all(c, "#$1 ").to_string(), true)
        } else {
            (c.to_string(), false)
        };
        assert_eq!(shift_headings_down_one_if_has_h1(c), expected, "content {c:?}");
    }
}

#[test]
fn parsing_agrees_with_the_pattern() {
    let re = Regex::new(r"(?m)^#\s+(\d{1,2}):(\d{2})\s*$").unwrap();
    let cases = [
        "前言\n\n# 09:30\nA\n\n# 11:00 \nB\n",
        "# 9:05\nx",
        "#\n10:00\ny",
        "# 123:00\nnot a heading\n# 1:2\nnor this",
        "  \n\n# 07:00\n\n\n",
        "no headings at all",
        "# 99:99\nz",
        "# ١٢:٣٠\nArabic-Indic digits",
        "",
    ];
    for body in cases {
        let trimmed = body.trim();
        let (prefix, entries) = parse_diary_body_entries(body);
        let starts: Vec<usize> = re.find_iter(trimmed).map(|m| m.start()).collect();
        if starts.is_empty() {
            assert_eq!(prefix, trimmed, "body {body:?}");
            assert!(entries.is_empty());
            continue;
        }
        assert_eq!(prefix, trimmed[..starts[0]].trim_end(), "body {body:?}");
        assert_eq!(entries.len(), starts.len(), "body {body:?}");
        for (i, s) in starts.iter().enumerate() {
            let end = if i + 1 < starts.len() { starts[i + 1] } else { trimmed.len() };
            let caps = re.captures(&trimmed[*s..end]).unwrap();
            let h: i32 = caps[1].parse().unwrap_or(0);
            let m: i32 = caps[2].parse().unwrap_or(0);
            assert_eq!(entries[i].raw, trimmed[*s..end].trim_end(), "body {body:?}");
            assert_eq!(entries[i].time_minutes, h * 60 + m, "body {body:?}");
        }
    }
}

#[test]
fn non_ascii_digits_make_a_heading_worth_zero() {
    let (prefix, entries) = parse_diary_body_entries("# ١٢:٣٠\ntext");
    assert_eq!(prefix, "");
    assert_eq!(entries.len(), 1);
    assert_eq!(entries[0].time_minutes, 0);
    assert_eq!(entries[0].raw, "# ١٢:٣٠\ntext");
}

#[test]
fn append_decision() {
    assert!(!should_append_without_sorting(&[], 600));
    let es = [entry(540, "# 09:00"), entry(600, "# 10:00")];
    assert!(should_append_without_sorting(&es, 600));
    assert!(should_append_without_sorting(&es, 601));
    assert!(!should_append_without_sorting(&es, 599));
}

#[test]
fn sort_is_stable_by_time() {
    let v = vec![entry(600, "a"), entry(300, "b"), entry(600, "c"), entry(300, "d"), entry(0, "e")];
    let sorted = sort_entries_by_time(v);
    let got: Vec<(i32, &str)> = sorted.iter().map(|e| (e.time_minutes, e.raw.as_str())).collect();
    assert_eq!(got, vec![(0, "e"), (300, "b"), (300, "d"), (600, "a"), (600, "c")]);
}

#[test]
fn frontmatter_round_trip() {
    let file = assemble_diary_file("title: x\nentryCount: 1\n", "# 10:00\nbody\n\n\n");
    assert_eq!(file, "---\ntitle: x\nentryCount: 1\n\n---\n\n# 10:00\nbody\n");
    let (fm, body) = split_frontmatter_text(&file);
    assert_eq!(fm, "title: x\nentryCount: 1\n");
    assert_eq!(body, "# 10:00\nbody\n");
    let (fm2, body2) = split_frontmatter_text("no front matter\n---\n");
    assert_eq!(fm2, "");
    assert_eq!(body2, "no front matter\n---\n");
}

#[test]
fn frontmatter_split_agrees_with_the_pattern() {
    let re = Regex::new(r"(?s)^---\s*\n(.*?)\n---\s*\n?").unwrap();
    let cases = [
        "---\na: 1\n---\nbody",
        "---  \n\na: 1\n---\n\nbody",
        "---\n---\nx",
        "---\n\n---\nx",
        "---\na\n---b\nrest\n---\nmore",
        "---\na\n--- \n\nbody",
        "x---\na\n---\n",
        "---\nno closing",
        "",
    ];
    for text in cases {
        let expected = match re.captures(text) {
            Some(caps) => {
                let whole = caps.get(0).unwrap().as_str();
                (caps.get(1).unwrap().as_str().to_string(), text[whole.len()..].to_string())
            }
            None => (String::new(), text.to_string()),
        };
        assert_eq!(split_frontmatter_text(text), expected, "text {text:?}");
    }
}

#[test]
fn update_reads_and_merges() {
    let plan = plan_entry(&payload("2026-03-27", "10:00", "", "new")).unwrap();
    let u = update_existing_diary("---\n  \n---\n# 09:00\nold\n\n# 12:00\nlater\n", &plan);
    assert_eq!(u.frontmatter, None);
    assert_eq!(u.entry_count, 3);
    assert_eq!(u.body, "# 09:00\nold\n\n# 10:00\n\nnew\n\n# 12:00\nlater");
    let u2 = update_existing_diary("plain text, no entries", &plan);
    assert_eq!(u2.frontmatter, None);
    assert_eq!(u2.entry_count, 1);
    assert_eq!(u2.body, "plain text, no entries\n\n# 10:00\n\nnew");
    let u3 = update_existing_diary("---\nk: v\n---\n# 09:00\na", &plan);
    assert_eq!(u3.frontmatter, Some("k: v".to_string()));
    assert_eq!(u3.body, "# 09:00\na\n\n# 10:00\n\nnew");
}

#[test]
fn written_entry_reads_back() {
    let plan = plan_entry(&payload("2026-03-27", "08:15", "标题", "# 内容\n段落")).unwrap();
    let existing = "---\nk: v\n---\n序\n\n# 10:00\nA\n\n# 09:00\nB";
    let u = update_existing_diary(existing, &plan);
    let (prefix, entries) = parse_diary_body_entries(&u.body);
    assert_eq!(prefix, "序");
    let got: Vec<(i32, &str)> = entries.iter().map(|e| (e.time_minutes, e.raw.as_str())).collect();
    assert_eq!(
        got,
        vec![(495, "# 08:15\n\n## 标题\n\n## 内容\n段落"), (540, "# 09:00\nB"), (600, "# 10:00\nA")]
    );
}

#[test]
fn appending_agrees_with_sorting_on_ordered_entries() {
    let plan = plan_entry(&payload("2026-03-27", "10:00", "", "late")).unwrap();
    let existing = "# 08:00\na\n\n# 10:00\nb";
    let u = update_existing_diary(existing, &plan);
    let (_, entries) = parse_diary_body_entries(existing);
    let mut all = entries;
    all.push(entry(600, plan.entry_block.trim_end()));
    let sorted = sort_entries_by_time(all);
    let joined: Vec<String> = sorted.iter().map(|e| e.raw.clone()).collect();
    assert_eq!(u.body, joined.join("\n\n"));
}

#[test]
fn a_title_with_a_time_heading_line_splits_the_entry() {
    let plan = plan_entry(&payload("2026-03-27", "09:00", "x\n# 10:00", "body")).unwrap();
    assert_eq!(plan.entry_block, "# 09:00\n\n## x\n# 10:00\n\nbody\n");
    let (_, entries) = parse_diary_body_entries(&plan.entry_block);
    let got: Vec<(i32, &str)> = entries.iter().map(|e| (e.time_minutes, e.raw.as_str())).collect();
    assert_eq!(got, vec![(540, "# 09:00\n\n## x"), (600, "# 10:00\n\nbody")]);
}

#[test]
fn a_single_line_title_keeps_one_heading() {
    let plan = plan_entry(&payload("2026-03-27", "09:00", "# 10:00 at noon", "# 11:00\ntext")).unwrap();
    let (_, entries) = parse_diary_body_entries(&plan.entry_block);
    assert_eq!(entries.len(), 1);
    assert_eq!(entries[0].time_minutes, 540);
    assert_eq!(entries[0].raw, "# 09:00\n\n## # 10:00 at noon\n\n## 11:00\ntext");
}

/// The front matter that the widget writes back, computed with serde_yaml
/// the way the widget's write step does it.
fn reference_updated(existing: &str, title: &str, date: &str, count: usize, now: &str) -> String {
    let empty = || serde_yaml::Value::Mapping(serde_yaml::Mapping::new());
    let mut v = if existing.trim().is_empty() {
        empty()
    } else {
        serde_yaml::from_str::<serde_yaml::Value>(existing).unwrap_or_else(|_| empty())
    };
    if let serde_yaml::Value::Mapping(ref mut m) = v {
        let s = |t: &str| serde_yaml::Value::String(t.to_string());
        m.insert(s("title"), s(title));
        m.insert(s("date"), s(date));
        m.insert(s("tags"), serde_yaml::to_value(vec!["日记"]).unwrap());
        m.insert(s("entryCount"), serde_yaml::Value::Number(serde_yaml::Number::from(count as i64)));
        m.insert(s("lastModified"), s(now));
    }
    serde_yaml::to_string(&v).unwrap()
}

#[test]
fn updated_frontmatter_agrees_with_serde_yaml() {
    let plan = plan_entry(&payload("2026-03-27", "10:00", "", "x")).unwrap();
    let now = "2026-03-27T12:00:00+08:00";
    let cases = [
        "title: old\nextra: kept\n",
        "extra: [1, 2]\nentryCount: 7\nzeta: z\n",
        "",
        "   \n",
        "a: [",
        "just text",
        "- a\n- b\n",
        "1: numeric key\ntitle: t\n",
        "flag: true\nratio: 0.5\nnothing: null\nnested:\n  a: 1\n  b: [x, 2]\n? [k]\n: complex key\ntagged: !t v\n",
    ];
    for text in cases {
        let expected = reference_updated(text, &plan.diary_title, &plan.date_text, 3, now);
        assert_eq!(frontmatter_for(Some(text), &plan, 3, now), Ok(expected), "front matter {text:?}");
    }
    assert_eq!(
        frontmatter_for(None, &plan, 1, now),
        Ok(reference_updated("", &plan.diary_title, &plan.date_text, 1, now))
    );
}

#[test]
fn updated_frontmatter_keeps_other_fields_in_place() {
    let plan = plan_entry(&payload("2026-03-27", "10:00", "", "x")).unwrap();
    let out = frontmatter_for(Some("title: old\nextra: kept\n"), &plan, 2, "now").unwrap();
    assert_eq!(
        out,
        "title: 2026年3月27日日记\nextra: kept\ndate: 2026-03-27\ntags:\n- 日记\nentryCount: 2\nlastModified: now\n"
    );
    assert_eq!(frontmatter_for(Some("just text"), &plan, 2, "now").unwrap(), "just text\n");
}

#[test]
fn new_file_frontmatter_agrees_with_a_json_object() {
    let plan = plan_entry(&payload("2026-03-27", "10:00", "", "x")).unwrap();
    let now = "2026-03-27T12:00:00+08:00";
    let mut obj = serde_json::Map::new();
    obj.insert("title".to_string(), serde_json::Value::String(plan.diary_title.clone()));
    obj.insert("date".to_string(), serde_json::Value::String(plan.date_text.clone()));
    obj.insert(
        "tags".to_string(),
        serde_json::Value::Array(vec![serde_json::Value::String("日记".to_string())]),
    );
    obj.insert("entryCount".to_string(), serde_json::Value::from(1));
    obj.insert("lastModified".to_string(), serde_json::Value::String(now.to_string()));
    let expected = serde_yaml::to_string(&serde_json::Value::Object(obj)).unwrap();
    assert_eq!(new_file_frontmatter(&plan, now), Ok(expected));
    assert_eq!(
        new_file_frontmatter(&plan, "t").unwrap(),
        "date: 2026-03-27\nentryCount: 1\nlastModified: t\ntags:\n- 日记\ntitle: 2026年3月27日日记\n"
    );
}

#[test]
fn the_digit_class_facts_hold() {
    assert!(digit_class_holds());
}

#[test]
fn frontmatter_split_back_check() {
    assert!(frontmatter_splits_back("title: x\n"));
    assert!(!frontmatter_splits_back(""));
    assert!(!frontmatter_splits_back(" title: x"));
    assert!(!frontmatter_splits_back("a: |\n  x\n---\n"));
    assert!(frontmatter_splits_back("a: b\n--"));
    let plan = plan_entry(&payload("2026-03-27", "10:00", "", "x")).unwrap();
    let fm = new_file_frontmatter(&plan, "2026-03-27T12:00:00+08:00").unwrap();
    assert!(frontmatter_splits_back(&fm));
}

#[test]
fn whole_file_text() {
    let plan = plan_entry(&payload("2026-03-27", "10:00", "", "new")).unwrap();
    let now = "now";
    let fresh = diary_file_text(None, &plan, now).unwrap();
    assert_eq!(fresh, assemble_diary_file(&new_file_frontmatter(&plan, now).unwrap(), &plan.entry_block));
    assert!(fresh.ends_with("---\n\n# 10:00\n\nnew\n"));
    let existing = "---\nk: v\nflag: true\n---\n# 09:00\nold";
    let next = diary_file_text(Some(existing), &plan, now).unwrap();
    assert_eq!(
        next,
        "---\nk: v\nflag: true\ntitle: 2026年3月27日日记\ndate: 2026-03-27\ntags:\n- 日记\nentryCount: 2\nlastModified: now\n\n---\n\n# 09:00\nold\n\n# 10:00\n\nnew\n"
    );
}
