//! Writing an entry into a day's diary file.
//!
//! A day's diary is a Markdown file named after the date. It opens with a
//! YAML front matter between `---` lines and holds one entry per time
//! heading, in time order. This module checks a request, builds the entry,
//! and computes the new text of the file; reading and writing files, the
//! clock and YAML are the caller's part.
use vstd::prelude::*;
use crate::entries::{EntrySection, entries_view, body_entries, parse_diary_body_entries, should_append_without_sorting};
use crate::error::DiaryError;
use crate::format::{
    decimal, decimal_signed, iso_date, time_text, parse_time, format_time, parse_time_of_day,
    format_iso_date, push_decimal, push_signed, lemma_decimal_value,
};
use crate::markdown::{shifted_content, shift_headings_down_one_if_has_h1};
use crate::order::{sort_by_time, sort_entries_by_time};
use crate::outside::{chrono_ymd, parse_ymd, chars_to_string};
use crate::text::{
    trim, trim_end, str_chars, push_all, trim_bounds, sub_vec, skip_ws_backward, find_char,
    lemma_find_char_at, all_ascii_digits, digits_value, is_ascii_digit,
};

verus! {

/// A calendar date, as chrono reads it.
pub struct DiaryDate {
    pub year: i32,
    pub month: u32,
    pub day: u32,
}

/// A request to write an entry.
pub struct WriteDiaryPayload {
    pub date: String,
    pub time: String,
    pub title: String,
    pub content: String,
}

/// The answer to a written entry: the file it went into.
pub struct WriteDiaryResponse {
    pub path: String,
}

/// The tag that every diary file carries.
pub const DIARY_TAG: &'static str = "日记";

/// The title of the diary for a date: `{year}年{month}月{day}日日记`.
pub open spec fn diary_title(year: int, month: nat, day: nat) -> Seq<char> {
    decimal_signed(year) + "年"@ + decimal(month) + "月"@ + decimal(day) + "日日记"@
}

/// The file name of the diary for a date: its title and `.md`.
pub open spec fn diary_file_name(year: int, month: nat, day: nat) -> Seq<char> {
    diary_title(year, month, day) + ".md"@
}

/// An entry's text: the time heading `# {time}`; then, where the trimmed
/// title is not empty, a blank line and `## {title}`; then, where the content
/// without trailing white space is not empty, a blank line and the content.
/// Each part ends with a line break.
pub open spec fn entry_block(time: Seq<char>, content: Seq<char>, title: Seq<char>) -> Seq<char> {
    let tt = trim(title);
    let body = trim_end(content);
    let head = seq!['#', ' '] + time + seq!['\n'];
    let with_title = if tt.len() > 0 {
        head + seq!['\n', '#', '#', ' '] + tt + seq!['\n']
    } else {
        head
    };
    if body.len() > 0 {
        with_title + seq!['\n'] + body + seq!['\n']
    } else {
        with_title
    }
}

/// The title and the file name of the diary for `date`.
pub fn date_title_and_filename(date: &DiaryDate) -> (r: (String, String))
    ensures
        r.0@ == diary_title(date.year as int, date.month as nat, date.day as nat),
        r.1@ == diary_file_name(date.year as int, date.month as nat, date.day as nat),
{
    let mut t: Vec<char> = Vec::new();
    push_signed(&mut t, date.year);
    push_all(&mut t, &str_chars("年"));
    push_decimal(&mut t, date.month as u64);
    push_all(&mut t, &str_chars("月"));
    push_decimal(&mut t, date.day as u64);
    push_all(&mut t, &str_chars("日日记"));
    let mut f: Vec<char> = Vec::new();
    push_all(&mut f, &t);
    push_all(&mut f, &str_chars(".md"));
    (chars_to_string(&t), chars_to_string(&f))
}

/// The text of an entry at `time` with content `shifted_content` and title
/// `title`, as `entry_block` states.
pub fn build_entry_block(time: &str, shifted_content: &str, title: &str) -> (r: String)
    ensures
        r@ == entry_block(time@, shifted_content@, title@),
{
    let mut out: Vec<char> = Vec::new();
    out.push('#');
    out.push(' ');
    push_all(&mut out, &str_chars(time));
    out.push('\n');
    let tc = str_chars(title);
    let (ta, tb) = trim_bounds(&tc, 0, tc.len());
    assert(tc@.subrange(0, tc.len() as int) =~= tc@);
    if ta < tb {
        out.push('\n');
        out.push('#');
        out.push('#');
        out.push(' ');
        push_all(&mut out, &sub_vec(&tc, ta, tb));
        out.push('\n');
    }
    let cc = str_chars(shifted_content);
    let cb = skip_ws_backward(&cc, 0, cc.len());
    assert(cc@.subrange(0, cc.len() as int) =~= cc@);
    if cb > 0 {
        out.push('\n');
        push_all(&mut out, &sub_vec(&cc, 0, cb));
        out.push('\n');
    }
    assert(out@ =~= entry_block(time@, shifted_content@, title@));
    chars_to_string(&out)
}

/// `s` trimmed, as a string of its own.
pub fn trim_string(s: &str) -> (r: String)
    ensures
        r@ == trim(s@),
{
    let c = str_chars(s);
    let (a, b) = trim_bounds(&c, 0, c.len());
    assert(c@.subrange(0, c.len() as int) =~= c@);
    chars_to_string(&sub_vec(&c, a, b))
}

/// Everything an entry needs once its request is checked.
pub struct EntryPlan {
    pub date: DiaryDate,
    /// The date as `YYYY-MM-DD`.
    pub date_text: String,
    pub diary_title: String,
    pub file_name: String,
    /// The time as `HH:MM`.
    pub time_text: String,
    pub time_minutes: i32,
    /// The entry's text.
    pub entry_block: String,
}

/// `p` is the plan for an entry on `(year, month, day)` at `hour:minute`
/// with content `content` and title `title`.
pub open spec fn plan_for(
    p: EntryPlan,
    date: (i32, u32, u32),
    hour: int,
    minute: int,
    content: Seq<char>,
    title: Seq<char>,
) -> bool {
    let (y, m, d) = date;
    &&& p.date.year == y && p.date.month == m && p.date.day == d
    &&& p.date_text@ == iso_date(y as int, m as nat, d as nat)
    &&& p.diary_title@ == diary_title(y as int, m as nat, d as nat)
    &&& p.file_name@ == diary_file_name(y as int, m as nat, d as nat)
    &&& p.time_text@ == time_text(hour as nat, minute as nat)
    &&& p.time_minutes == hour * 60 + minute
    &&& p.entry_block@ == entry_block(
        time_text(hour as nat, minute as nat),
        shifted_content(content).0,
        title,
    )
}

/// What checking a request gives, where its date reads as `date`: a date
/// that does not read is refused first, then a time that `parse_time`
/// refuses; otherwise the plan for the entry.
pub open spec fn plan_result(
    r: Result<EntryPlan, DiaryError>,
    date: Option<(i32, u32, u32)>,
    time: Seq<char>,
    content: Seq<char>,
    title: Seq<char>,
) -> bool {
    match date {
        None => r == Err::<EntryPlan, DiaryError>(DiaryError::DateFormat),
        Some(ymd) => match parse_time(time) {
            Err(e) => r == Err::<EntryPlan, DiaryError>(e),
            Ok((h, m)) => r matches Ok(p) && plan_for(p, ymd, h, m, content, title),
        },
    }
}

/// Checks a request whose date has been read as `date` and prepares its
/// entry.
pub fn plan_entry_with_date(date: Option<(i32, u32, u32)>, payload: &WriteDiaryPayload) -> (r:
    Result<EntryPlan, DiaryError>)
    ensures
        plan_result(r, date, payload.time@, payload.content@, payload.title@),
{
    let (y, m, d) = match date {
        None => {
            return Err(DiaryError::DateFormat);
        },
        Some(ymd) => ymd,
    };
    let (hour, minute) = match parse_time_of_day(payload.time.as_str()) {
        Err(e) => {
            return Err(e);
        },
        Ok(hm) => hm,
    };
    let time_text = format_time(hour, minute);
    let date = DiaryDate { year: y, month: m, day: d };
    let (diary_title, file_name) = date_title_and_filename(&date);
    let (shifted, _) = shift_headings_down_one_if_has_h1(payload.content.as_str());
    let entry_block = build_entry_block(time_text.as_str(), shifted.as_str(), payload.title.as_str());
    Ok(
        EntryPlan {
            date,
            date_text: format_iso_date(y, m, d),
            diary_title,
            file_name,
            time_text,
            time_minutes: hour * 60 + minute,
            entry_block,
        },
    )
}

/// Checks a request and prepares its entry. The date is the request's date,
/// trimmed, as chrono reads `%Y-%m-%d`.
pub fn plan_entry(payload: &WriteDiaryPayload) -> (r: Result<EntryPlan, DiaryError>)
    ensures
        plan_result(
            r,
            chrono_ymd(trim(payload.date@)),
            payload.time@,
            payload.content@,
            payload.title@,
        ),
{
    let date_text = trim_string(payload.date.as_str());
    let ymd = parse_ymd(date_text.as_str());
    plan_entry_with_date(ymd, payload)
}

/// Entry texts joined with a blank line between them.
pub open spec fn join_entries(es: Seq<(int, Seq<char>)>) -> Seq<char>
    decreases es.len(),
{
    if es.len() == 0 {
        Seq::empty()
    } else if es.len() == 1 {
        es[0].1
    } else {
        join_entries(es.drop_last()) + seq!['\n', '\n'] + es.last().1
    }
}

/// `text` after `prefix` and a blank line, or alone where `prefix` is empty.
pub open spec fn after_prefix(prefix: Seq<char>, text: Seq<char>) -> Seq<char> {
    if prefix.len() == 0 {
        text
    } else {
        prefix + seq!['\n', '\n'] + text
    }
}

/// The body after a new entry with text `block` at `minutes` is added to a
/// body with prefix `prefix` and entries `es`. Where there are entries and
/// the new one is not earlier than the last, it is appended after them;
/// otherwise all entries, the new one last, are ordered by time, stably.
pub open spec fn merged_body(
    prefix: Seq<char>,
    es: Seq<(int, Seq<char>)>,
    minutes: int,
    block: Seq<char>,
) -> Seq<char> {
    let b = trim_end(block);
    if es.len() > 0 && minutes >= es.last().0 {
        trim_end(after_prefix(prefix, join_entries(es))) + seq!['\n', '\n'] + b
    } else {
        after_prefix(prefix, join_entries(sort_by_time(es.push((minutes, b)))))
    }
}

/// The entry texts of `v`, joined with a blank line between them.
fn join_entry_texts(v: &Vec<EntrySection>) -> (r: Vec<char>)
    ensures
        r@ == join_entries(entries_view(v@)),
{
    let ghost es = entries_view(v@);
    let mut out: Vec<char> = Vec::new();
    let mut i: usize = 0;
    while i < v.len()
        invariant
            i <= v.len(),
            es == entries_view(v@),
            out@ == join_entries(es.subrange(0, i as int)),
        decreases v.len() - i,
    {
        let ghost next = es.subrange(0, i + 1);
        assert(next.drop_last() =~= es.subrange(0, i as int));
        assert(next.last() == v@[i as int]@);
        if i > 0 {
            out.push('\n');
            out.push('\n');
        }
        push_all(&mut out, &str_chars(v[i].raw.as_str()));
        if i == 0 {
            assert(out@ =~= join_entries(next));
        } else {
            assert(out@ =~= join_entries(next));
        }
        i = i + 1;
    }
    assert(es.subrange(0, v.len() as int) =~= es);
    out
}

fn push_after_prefix(out: &mut Vec<char>, prefix: &Vec<char>, text: &Vec<char>)
    ensures
        final(out)@ == old(out)@ + after_prefix(prefix@, text@),
{
    if prefix.len() > 0 {
        push_all(out, prefix);
        out.push('\n');
        out.push('\n');
    }
    push_all(out, text);
    assert(final(out)@ =~= old(out)@ + after_prefix(prefix@, text@));
}

/// The body after adding the entry `block` at `minutes`, as `merged_body`
/// states.
fn merge_body(prefix: &Vec<char>, entries: Vec<EntrySection>, minutes: i32, block: &Vec<char>) -> (r: Vec<char>)
    ensures
        r@ == merged_body(prefix@, entries_view(entries@), minutes as int, block@),
{
    let be = skip_ws_backward(block, 0, block.len());
    assert(block@.subrange(0, block.len() as int) =~= block@);
    let b = sub_vec(block, 0, be);
    let mut out: Vec<char> = Vec::new();
    if should_append_without_sorting(entries.as_slice(), minutes) {
        let joined = join_entry_texts(&entries);
        let mut base: Vec<char> = Vec::new();
        push_after_prefix(&mut base, prefix, &joined);
        assert(base@ =~= after_prefix(prefix@, joined@));
        let e = skip_ws_backward(&base, 0, base.len());
        assert(base@.subrange(0, base.len() as int) =~= base@);
        push_all(&mut out, &sub_vec(&base, 0, e));
        out.push('\n');
        out.push('\n');
        push_all(&mut out, &b);
        assert(out@ =~= merged_body(prefix@, entries_view(entries@), minutes as int, block@));
    } else {
        let ghost es = entries_view(entries@);
        let mut all = entries;
        all.push(EntrySection { time_minutes: minutes, raw: chars_to_string(&b) });
        assert(entries_view(all@) =~= es.push((minutes as int, b@)));
        let sorted = sort_entries_by_time(all);
        let joined = join_entry_texts(&sorted);
        push_after_prefix(&mut out, prefix, &joined);
        assert(out@ =~= merged_body(prefix@, es, minutes as int, block@));
    }
    out
}

/// What adding an entry makes of an existing diary file: the old front
/// matter (`None` where it is blank), the number of entries after the
/// addition, and the new body.
pub struct DiaryUpdate {
    pub frontmatter: Option<String>,
    pub entry_count: usize,
    pub body: String,
}

/// What adding the planned entry makes of the diary file whose text is
/// `existing`: its front matter and body are split apart, the body's entries
/// are read, and the entry is merged into them as `merged_body` states.
pub fn update_existing_diary(existing: &str, plan: &EntryPlan) -> (r: DiaryUpdate)
    ensures
        ({
            let (fm, body) = crate::frontmatter::split_frontmatter(existing@);
            let (prefix, es) = body_entries(body);
            &&& (trim(fm).len() == 0 ==> r.frontmatter is None)
            &&& (trim(fm).len() > 0 ==> (r.frontmatter matches Some(f) && f@ == fm))
            &&& r.entry_count == es.len() + 1
            &&& r.body@ == merged_body(prefix, es, plan.time_minutes as int, plan.entry_block@)
        }),
{
    let (fm, body) = crate::frontmatter::split_frontmatter_text(existing);
    let frontmatter = if trim_string(fm.as_str()).as_str().unicode_len() == 0 {
        None
    } else {
        Some(fm)
    };
    let (prefix, entries) = parse_diary_body_entries(body.as_str());
    let entry_count = entries.len() + 1;
    let merged = merge_body(
        &str_chars(prefix.as_str()),
        entries,
        plan.time_minutes,
        &str_chars(plan.entry_block.as_str()),
    );
    DiaryUpdate { frontmatter, entry_count, body: chars_to_string(&merged) }
}

/// `r` is the file of front matter `y` and body `body`, where `y` was
/// written; else `y`'s failure.
pub open spec fn file_from(r: Result<String, String>, y: Result<String, String>, body: Seq<char>) -> bool {
    match y {
        Ok(fm) => r matches Ok(f) && f@ == crate::frontmatter::assemble(fm@, body),
        Err(e) => r == Err::<String, String>(e),
    }
}

/// The text of the diary file after the entry of `plan` is written at time
/// `now_iso`, where the file held `existing` (`None` where there was no
/// file). A new file holds the new-file front matter and the entry's text.
/// An existing file keeps its front matter with the five fields set (the
/// entry count one more than the entries its body reads as) and gets the
/// merged body. Where the front matter cannot be written, its failure.
pub fn diary_file_text(existing: Option<&str>, plan: &EntryPlan, now_iso: &str) -> (r: Result<
    String,
    String,
>)
    ensures
        match existing {
            None => exists|y: Result<String, String>|
                #[trigger] crate::frontmatter::new_frontmatter(
                    y,
                    plan.diary_title@,
                    plan.date_text@,
                    now_iso@,
                ) && file_from(r, y, plan.entry_block@),
            Some(t) => {
                let (fm, body) = crate::frontmatter::split_frontmatter(t@);
                let (prefix, es) = body_entries(body);
                exists|y: Result<String, String>|
                    #[trigger] crate::frontmatter::updated_frontmatter(
                        y,
                        Some(fm),
                        plan.diary_title@,
                        plan.date_text@,
                        ((es.len() + 1) as i64) as int,
                        now_iso@,
                    ) && file_from(
                        r,
                        y,
                        merged_body(prefix, es, plan.time_minutes as int, plan.entry_block@),
                    )
            },
        },
{
    match existing {
        None => {
            let y = crate::frontmatter::new_file_frontmatter(plan, now_iso);
            let r = match &y {
                Ok(fm) => Ok(crate::frontmatter::assemble_diary_file(fm.as_str(), plan.entry_block.as_str())),
                Err(e) => Err(e.clone()),
            };
            assert(crate::frontmatter::new_frontmatter(
                y,
                plan.diary_title@,
                plan.date_text@,
                now_iso@,
            ) && file_from(r, y, plan.entry_block@));
            r
        },
        Some(t) => {
            let u = update_existing_diary(t, plan);
            let old = match &u.frontmatter {
                Some(f) => Some(f.as_str()),
                None => None,
            };
            let y = crate::frontmatter::frontmatter_for(old, plan, u.entry_count, now_iso);
            let r = match &y {
                Ok(fm) => Ok(crate::frontmatter::assemble_diary_file(fm.as_str(), u.body.as_str())),
                Err(e) => Err(e.clone()),
            };
            let ghost fm = crate::frontmatter::split_frontmatter(t@).0;
            assert(crate::frontmatter::old_frontmatter(crate::frontmatter::text_of(old))
                == crate::frontmatter::old_frontmatter(Some(fm)));
            let ghost es = body_entries(crate::frontmatter::split_frontmatter(t@).1).1;
            assert(u.entry_count == es.len() + 1);
            assert(crate::frontmatter::updated_frontmatter(
                y,
                Some(fm),
                plan.diary_title@,
                plan.date_text@,
                ((es.len() + 1) as i64) as int,
                now_iso@,
            ));
            assert(file_from(r, y, u.body@));
            r
        },
    }
}

/// What an entry's text holds, whatever its parts: it opens with the time
/// heading line `# {time}`; where the trimmed title is not empty, a blank
/// line and `## {title}` follow at once, whether or not there is content;
/// where the content without trailing white space is not empty, the text
/// ends with a blank line, that content and a line break; and it holds
/// nothing else.
pub proof fn law_entry_block_parts(time: Seq<char>, content: Seq<char>, title: Seq<char>)
    ensures
        ({
            let b = entry_block(time, content, title);
            let tt = trim(title);
            let body = trim_end(content);
            let head = seq!['#', ' '] + time + seq!['\n'];
            &&& b.len() == head.len() + (if tt.len() > 0 {
                tt.len() + 5
            } else {
                0
            }) + (if body.len() > 0 {
                body.len() + 2
            } else {
                0
            })
            &&& b.subrange(0, head.len() as int) == head
            &&& tt.len() > 0 ==> b.subrange(0, (head.len() + tt.len() + 5) as int) == head + seq![
                '\n',
                '#',
                '#',
                ' ',
            ] + tt + seq!['\n']
            &&& body.len() > 0 ==> b.subrange(b.len() - body.len() - 2, b.len() as int)
                == seq!['\n'] + body + seq!['\n']
        }),
{
    let b = entry_block(time, content, title);
    let tt = trim(title);
    let body = trim_end(content);
    let head = seq!['#', ' '] + time + seq!['\n'];
    let wt = head + seq!['\n', '#', '#', ' '] + tt + seq!['\n'];
    let w = if tt.len() > 0 {
        wt
    } else {
        head
    };
    assert(w.subrange(0, head.len() as int) =~= head);
    assert(wt.subrange(0, (head.len() + tt.len() + 5) as int) =~= wt);
    if body.len() > 0 {
        let tail = seq!['\n'] + body + seq!['\n'];
        assert(b =~= w + tail);
        assert(b.subrange(0, head.len() as int) =~= w.subrange(0, head.len() as int));
        if tt.len() > 0 {
            assert(b.subrange(0, (head.len() + tt.len() + 5) as int) =~= wt);
        }
        assert(b.subrange(b.len() - body.len() - 2, b.len() as int) =~= tail);
    } else {
        assert(b == w);
    }
}

/// A diary's title reads back as its date: the text before `年` is the
/// year in decimal (with `-` before a year below zero), the text between
/// `年` and `月` is the month in decimal, the text between `月` and the first
/// `日` is the day in decimal, and `日日记` ends the title. The file name is
/// the title and `.md`.
pub proof fn law_diary_title_reads_back(year: int, month: nat, day: nat)
    ensures
        ({
            let t = diary_title(year, month, day);
            let p = find_char(t, '年', 0);
            let q = find_char(t, '月', 0);
            let d = find_char(t, '日', 0);
            let ys = t.subrange(0, p);
            let ms = t.subrange(p + 1, q);
            let ds = t.subrange(q + 1, d);
            &&& 0 < p < q < d < t.len()
            &&& year >= 0 ==> all_ascii_digits(ys) && digits_value(ys) == year
            &&& year < 0 ==> ys.len() > 1 && ys[0] == '-' && all_ascii_digits(ys.drop_first())
                && digits_value(ys.drop_first()) == -year
            &&& ms.len() > 0 && all_ascii_digits(ms) && digits_value(ms) == month
            &&& ds.len() > 0 && all_ascii_digits(ds) && digits_value(ds) == day
            &&& t.subrange(d, t.len() as int) == seq!['日', '日', '记']
            &&& diary_file_name(year, month, day) == t + seq!['.', 'm', 'd']
        }),
{
    reveal_strlit("年");
    reveal_strlit("月");
    reveal_strlit("日日记");
    reveal_strlit(".md");
    let ya = if year < 0 {
        (-year) as nat
    } else {
        year as nat
    };
    lemma_decimal_value(ya);
    lemma_decimal_value(month);
    lemma_decimal_value(day);
    let y = decimal_signed(year);
    let m = decimal(month);
    let dd = decimal(day);
    let t = diary_title(year, month, day);
    assert(t =~= y + seq!['年'] + m + seq!['月'] + dd + seq!['日', '日', '记']);
    let p = y.len() as int;
    let q = p + 1 + m.len();
    let d = q + 1 + dd.len();
    assert(forall|k: int| 0 <= k < y.len() ==> #[trigger] y[k] == '-' || is_ascii_digit(y[k])) by {
        if year < 0 {
            assert forall|k: int| 0 <= k < y.len() implies #[trigger] y[k] == '-' || is_ascii_digit(y[k]) by {
                if k > 0 {
                    assert(y[k] == decimal(ya)[k - 1]);
                }
            }
        }
    }
    assert forall|j: int| 0 <= j < p implies t[j] != '年' && t[j] != '月' && t[j] != '日' by {
        assert(t[j] == y[j]);
    }
    assert forall|j: int| p < j < q implies t[j] != '月' && t[j] != '日' && is_ascii_digit(t[j]) by {
        assert(t[j] == m[j - p - 1]);
    }
    assert forall|j: int| q < j < d implies t[j] != '日' by {
        assert(t[j] == dd[j - q - 1]);
    }
    lemma_find_char_at(t, '年', 0, p);
    lemma_find_char_at(t, '月', 0, q);
    lemma_find_char_at(t, '日', 0, d);
    assert(t.subrange(0, p) =~= y);
    assert(t.subrange(p + 1, q) =~= m);
    assert(t.subrange(q + 1, d) =~= dd);
    assert(t.subrange(d, t.len() as int) =~= seq!['日', '日', '记']);
    if year < 0 {
        assert(y.drop_first() =~= decimal(ya));
    }
    assert(diary_file_name(year, month, day) =~= t + seq!['.', 'm', 'd']);
}

} // verus!
