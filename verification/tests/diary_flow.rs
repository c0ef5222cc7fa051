//! A diary kept in memory, written the way the widget writes files: the
//! library plans the entry, merges it and writes the front matter.
use std::collections::HashMap;

use diary_widget::diary::{diary_file_text, plan_entry, WriteDiaryPayload};
use diary_widget::entries::parse_diary_body_entries;
use diary_widget::frontmatter::split_frontmatter_text;

fn write_entry(files: &mut HashMap<String, String>, dir: &str, p: WriteDiaryPayload) -> Result<String, String> {
    let now = "2026-03-27T12:00:00+08:00";
    let plan = plan_entry(&p).map_err(|e| e.message())?;
    let path = std::path::Path::new(dir).join(&plan.file_name).to_string_lossy().to_string();
    let raw = diary_file_text(files.get(&path).map(|s| s.as_str()), &plan, now)?;
    files.insert(path.clone(), raw);
    Ok(path)
}

fn payload(date: &str, time: &str, title: &str, content: &str) -> WriteDiaryPayload {
    WriteDiaryPayload {
        date: date.to_string(),
        time: time.to_string(),
        title: title.to_string(),
        content: content.to_string(),
    }
}

#[test]
fn write_diary_new_file_and_frontmatter() {
    let mut files = HashMap::new();
    let path = write_entry(&mut files, "/tmp/new_file", payload("2026-03-27", "09:30", "晨间", "今天状态不错")).expect("write");
    let raw = files.get(&path).expect("read");
    assert!(raw.contains("title: 2026年3月27日日记"));
    assert!(raw.contains("entryCount: 1"));
    assert!(raw.contains("# 09:30"));
}

#[test]
fn append_without_sorting_when_later() {
    let mut files = HashMap::new();
    let path = write_entry(&mut files, "/tmp/append_later", payload("2026-03-27", "09:30", "", "A")).expect("first");
    write_entry(&mut files, "/tmp/append_later", payload("2026-03-27", "10:30", "", "B")).expect("second");
    let raw = files.get(&path).expect("read");
    assert!(raw.find("# 09:30").unwrap() < raw.find("# 10:30").unwrap());
}

#[test]
fn insert_middle_and_sort() {
    let mut files = HashMap::new();
    let dir = "/tmp/insert_middle";
    let path = write_entry(&mut files, dir, payload("2026-03-27", "09:30", "", "A")).expect("first");
    write_entry(&mut files, dir, payload("2026-03-27", "11:30", "", "B")).expect("second");
    write_entry(&mut files, dir, payload("2026-03-27", "10:00", "", "C")).expect("third");
    let raw = files.get(&path).expect("read");
    let i1 = raw.find("# 09:30").unwrap();
    let i2 = raw.find("# 10:00").unwrap();
    let i3 = raw.find("# 11:30").unwrap();
    assert!(i1 < i2 && i2 < i3);
}

#[test]
fn written_file_reads_back_entries_in_order() {
    let mut files = HashMap::new();
    let dir = "/tmp/read_back";
    let path = write_entry(&mut files, dir, payload("2026-03-27", "11:30", "午后", "# 标题\n正文")).unwrap();
    write_entry(&mut files, dir, payload("2026-03-27", "8:05", "", "早")).unwrap();
    write_entry(&mut files, dir, payload("2026-03-27", "11:30", "", "同时")).unwrap();
    let raw = files.get(&path).unwrap();
    let (fm, body) = split_frontmatter_text(raw);
    assert!(fm.contains("entryCount: 3"));
    let (prefix, entries) = parse_diary_body_entries(&body);
    assert_eq!(prefix, "");
    let times: Vec<i32> = entries.iter().map(|e| e.time_minutes).collect();
    assert_eq!(times, vec![485, 690, 690]);
    assert_eq!(entries[0].raw, "# 08:05\n\n早");
    assert_eq!(entries[1].raw, "# 11:30\n\n## 午后\n\n## 标题\n正文");
    assert_eq!(entries[2].raw, "# 11:30\n\n同时");
    assert_eq!(
        raw.split("---\n\n").nth(1).unwrap(),
        "# 08:05\n\n早\n\n# 11:30\n\n## 午后\n\n## 标题\n正文\n\n# 11:30\n\n同时\n"
    );
}

#[test]
fn prefix_survives_an_insert() {
    let mut files = HashMap::new();
    let dir = "/tmp/prefix";
    let plan = plan_entry(&payload("2026-03-27", "10:00", "", "x")).unwrap();
    let path = std::path::Path::new(dir).join(&plan.file_name).to_string_lossy().to_string();
    files.insert(path.clone(), "---\ntitle: old\nextra: kept\n---\n\n前言\n\n# 11:00\nB\n".to_string());
    write_entry(&mut files, dir, payload("2026-03-27", "10:00", "", "A")).unwrap();
    let raw = files.get(&path).unwrap();
    assert!(raw.contains("extra: kept"));
    assert!(raw.contains("entryCount: 2"));
    assert!(raw.ends_with("---\n\n前言\n\n# 10:00\n\nA\n\n# 11:00\nB\n"));
}

#[test]
fn refused_requests_write_nothing() {
    let mut files = HashMap::new();
    assert_eq!(write_entry(&mut files, "/tmp/r", payload("2026/03/27", "09:30", "", "")), Err("date 格式应为 YYYY-MM-DD".to_string()));
    assert_eq!(write_entry(&mut files, "/tmp/r", payload("2026-03-27", "0930", "", "")), Err("time 格式应为 HH:MM".to_string()));
    assert_eq!(write_entry(&mut files, "/tmp/r", payload("2026-03-27", "1:2:3", "", "")), Err("time 格式应为 HH:MM".to_string()));
    assert_eq!(write_entry(&mut files, "/tmp/r", payload("2026-03-27", "x:30", "", "")), Err("time 小时无效".to_string()));
    assert_eq!(write_entry(&mut files, "/tmp/r", payload("2026-03-27", "09:y", "", "")), Err("time 分钟无效".to_string()));
    assert_eq!(write_entry(&mut files, "/tmp/r", payload("2026-03-27", "24:00", "", "")), Err("time 超出有效范围".to_string()));
    assert_eq!(write_entry(&mut files, "/tmp/r", payload("2026-03-27", "23:60", "", "")), Err("time 超出有效范围".to_string()));
    assert!(files.is_empty());
}
