//! The front matter of a diary file: text between a `---` line at the very
//! start and the next `---` line.
//!
//! The opening `---` may be followed by white space, of which the last line
//! break before the front matter ends the opening line; the front matter
//! runs to the first line break that is followed by `---`; white space after
//! that closing `---` belongs to neither part. Where several choices of the
//! opening line would do, the longest that still leaves a closing line is
//! taken.
//!
//! The front matter itself is YAML. When an entry is written the widget sets
//! five fields in it (title, date, tags, entry count, time of change) and
//! keeps every other field as it was.
use vstd::prelude::*;
use crate::diary::{EntryPlan, DIARY_TAG, trim_string};
use crate::outside::{
    ParsedYaml, mapping_entries, mapping_yaml, value_yaml, yaml_parse, parse_yaml, new_mapping,
    mapping_insert, mapping_to_yaml, value_to_yaml, chars_to_string,
};
use crate::yaml::{YamlEntry, YamlKey, YamlItem, FieldValue, set_entry, key_index, get_entry, law_set_entry};
use crate::markdown::{ws_run, count_ws, lemma_ws_run_bound};
use crate::text::{is_ws, trim_end, push_all, str_chars, sub_vec, skip_ws_backward};

verus! {

/// `s` holds `---` at `i`.
pub open spec fn dashes_at(s: Seq<char>, i: int) -> bool {
    0 <= i && i + 3 <= s.len() && s[i] == '-' && s[i + 1] == '-' && s[i + 2] == '-'
}

/// `s` holds a line break followed by `---` at `j`.
pub open spec fn closing_at(s: Seq<char>, j: int) -> bool {
    0 <= j && j < s.len() && s[j] == '\n' && dashes_at(s, j + 1)
}

/// The first closing line at or after `g`, or `s.len()`.
pub open spec fn first_closing(s: Seq<char>, g: int) -> int
    decreases s.len() - g,
{
    if g < 0 || g >= s.len() {
        s.len() as int
    } else if closing_at(s, g) {
        g
    } else {
        first_closing(s, g + 1)
    }
}

pub proof fn lemma_first_closing(s: Seq<char>, g: int)
    requires
        0 <= g,
    ensures
        first_closing(s, g) == s.len() || (g <= first_closing(s, g) && closing_at(
            s,
            first_closing(s, g),
        )),
        g <= s.len() ==> g <= first_closing(s, g) <= s.len(),
        forall|k: int| g <= k < first_closing(s, g) ==> !closing_at(s, k),
    decreases s.len() - g,
{
    if g < s.len() && !closing_at(s, g) {
        lemma_first_closing(s, g + 1);
    }
}

/// The longest opening `---` plus `t + 1` characters of white space, for a
/// `t` at most `t0`, that ends in a line break and leaves a closing line
/// after it.
pub open spec fn opening_choice(s: Seq<char>, t0: int) -> Option<int>
    decreases t0 + 1,
{
    if t0 < 0 {
        None
    } else if 3 + t0 < s.len() && s[3 + t0] == '\n' && first_closing(s, 4 + t0) < s.len() {
        Some(t0)
    } else {
        opening_choice(s, t0 - 1)
    }
}

/// Where the front matter of `s` starts and ends, and where the rest begins.
pub open spec fn frontmatter_bounds(s: Seq<char>) -> Option<(int, int, int)> {
    if !dashes_at(s, 0) {
        None
    } else {
        match opening_choice(s, ws_run(s, 3) - 1) {
            None => None,
            Some(t) => {
                let g = 4 + t;
                let j = first_closing(s, g);
                Some((g, j, j + 4 + ws_run(s, j + 4)))
            },
        }
    }
}

/// A diary file split into its front matter and the text after it; a file
/// without front matter is all body.
pub open spec fn split_frontmatter(s: Seq<char>) -> (Seq<char>, Seq<char>) {
    match frontmatter_bounds(s) {
        Some((g, j, e)) => (s.subrange(g, j), s.subrange(e, s.len() as int)),
        None => (Seq::empty(), s),
    }
}

/// A diary file from its front matter and its body: `---`, the front matter,
/// `---`, a blank line, the body without trailing white space, a line break.
pub open spec fn assemble(frontmatter: Seq<char>, body: Seq<char>) -> Seq<char> {
    seq!['-', '-', '-', '\n'] + frontmatter + seq!['\n', '-', '-', '-', '\n', '\n'] + trim_end(body)
        + seq!['\n']
}

pub proof fn lemma_opening_choice(s: Seq<char>, t0: int)
    ensures
        opening_choice(s, t0) matches Some(t) ==> 0 <= t <= t0 && 3 + t < s.len() && s[3 + t]
            == '\n' && first_closing(s, 4 + t) < s.len(),
    decreases t0 + 1,
{
    if t0 >= 0 && !(3 + t0 < s.len() && s[3 + t0] == '\n' && first_closing(s, 4 + t0)
        < s.len()) {
        lemma_opening_choice(s, t0 - 1);
    }
}

fn is_closing(s: &Vec<char>, j: usize) -> (r: bool)
    requires
        j <= s.len(),
    ensures
        r == closing_at(s@, j as int),
{
    j < s.len() && s[j] == '\n' && s.len() - j >= 4 && s[j + 1] == '-' && s[j + 2] == '-'
        && s[j + 3] == '-'
}

fn find_closing(s: &Vec<char>, g: usize) -> (r: usize)
    requires
        g <= s.len(),
    ensures
        r == first_closing(s@, g as int),
        g <= r <= s.len(),
{
    let mut j = g;
    while j < s.len() && !is_closing(s, j)
        invariant
            g <= j <= s.len(),
            first_closing(s@, g as int) == first_closing(s@, j as int),
        decreases s.len() - j,
    {
        j = j + 1;
    }
    j
}

/// The bounds of the front matter of `s` and the start of its body.
fn frontmatter_bounds_of(s: &Vec<char>) -> (r: Option<(usize, usize, usize)>)
    ensures
        match frontmatter_bounds(s@) {
            Some((g, j, e)) => r == Some((g as usize, j as usize, e as usize)) && 0 <= g <= j
                <= e <= s.len(),
            None => r is None,
        },
{
    if !(s.len() >= 3 && s[0] == '-' && s[1] == '-' && s[2] == '-') {
        return None;
    }
    let w = count_ws(s, 3);
    let mut t = w;
    while t > 0
        invariant
            t <= w,
            dashes_at(s@, 0),
            3 + w <= s.len(),
            w == ws_run(s@, 3),
            opening_choice(s@, t - 1) == opening_choice(s@, w - 1),
        decreases t,
    {
        if s[3 + t - 1] == '\n' && find_closing(s, 3 + t) < s.len() {
            let g = 3 + t;
            let j = find_closing(s, g);
            proof {
                lemma_first_closing(s@, g as int);
            }
            let k = count_ws(s, j + 4);
            return Some((g, j, j + 4 + k));
        }
        t = t - 1;
    }
    None
}

/// The front matter of a diary file and the text after it, as
/// `split_frontmatter` states.
pub fn split_frontmatter_text(existing: &str) -> (r: (String, String))
    ensures
        (r.0@, r.1@) == split_frontmatter(existing@),
{
    let s = str_chars(existing);
    match frontmatter_bounds_of(&s) {
        Some((g, j, e)) => (
            crate::outside::chars_to_string(&sub_vec(&s, g, j)),
            crate::outside::chars_to_string(&sub_vec(&s, e, s.len())),
        ),
        None => (String::new(), String::from_str(existing)),
    }
}

/// The text of a diary file from its front matter and body, as `assemble`
/// states.
pub fn assemble_diary_file(frontmatter_yaml: &str, body: &str) -> (r: String)
    ensures
        r@ == assemble(frontmatter_yaml@, body@),
{
    let mut out: Vec<char> = Vec::new();
    out.push('-');
    out.push('-');
    out.push('-');
    out.push('\n');
    push_all(&mut out, &str_chars(frontmatter_yaml));
    out.push('\n');
    out.push('-');
    out.push('-');
    out.push('-');
    out.push('\n');
    out.push('\n');
    let b = str_chars(body);
    let e = skip_ws_backward(&b, 0, b.len());
    assert(b@.subrange(0, b.len() as int) =~= b@);
    push_all(&mut out, &sub_vec(&b, 0, e));
    out.push('\n');
    assert(out@ =~= assemble(frontmatter_yaml@, body@));
    crate::outside::chars_to_string(&out)
}

/// The start of the message when the front matter of a new file cannot be
/// written.
pub const NEW_FRONTMATTER_FAILED: &'static str = "序列化 frontmatter 失败: ";

/// The start of the message when updated front matter cannot be written.
pub const UPDATED_FRONTMATTER_FAILED: &'static str = "写回 frontmatter 失败: ";

/// `es` with the diary's five fields set, in this order: title, date, tags
/// (the diary tag alone), entry count and time of change.
pub open spec fn with_diary_fields(
    es: Seq<YamlEntry>,
    title: Seq<char>,
    date: Seq<char>,
    count: int,
    now: Seq<char>,
) -> Seq<YamlEntry> {
    let a = set_entry(es, "title"@, YamlItem::Text(title));
    let b = set_entry(a, "date"@, YamlItem::Text(date));
    let c = set_entry(b, "tags"@, YamlItem::TextList(seq![DIARY_TAG@]));
    let d = set_entry(c, "entryCount"@, YamlItem::Count(count));
    set_entry(d, "lastModified"@, YamlItem::Text(now))
}

/// The front matter of a new diary file: the five fields in the order of
/// their names, with an entry count of one.
pub open spec fn new_file_fields(title: Seq<char>, date: Seq<char>, now: Seq<char>) -> Seq<
    YamlEntry,
> {
    seq![
        (YamlKey::Text("date"@), YamlItem::Text(date)),
        (YamlKey::Text("entryCount"@), YamlItem::Count(1)),
        (YamlKey::Text("lastModified"@), YamlItem::Text(now)),
        (YamlKey::Text("tags"@), YamlItem::TextList(seq![DIARY_TAG@])),
        (YamlKey::Text("title"@), YamlItem::Text(title)),
    ]
}

/// `r` is the text `t` where it was written, or, where writing failed, a
/// message that starts with `prefix`.
pub open spec fn written_as(r: Result<String, String>, t: Option<Seq<char>>, prefix: Seq<char>) -> bool {
    match r {
        Ok(s) => t == Some(s@),
        Err(e) => t is None && e@.len() >= prefix.len() && e@.subrange(0, prefix.len() as int)
            == prefix,
    }
}

/// What the old front matter is taken as: nothing where it is missing or
/// blank, else what it parses to.
pub open spec fn old_frontmatter(existing: Option<Seq<char>>) -> ParsedYaml {
    match existing {
        None => ParsedYaml::Invalid,
        Some(t) => if crate::text::trim(t).len() == 0 {
            ParsedYaml::Invalid
        } else {
            yaml_parse(t)
        },
    }
}

/// The text of an optional string.
pub open spec fn text_of(o: Option<&str>) -> Option<Seq<char>> {
    match o {
        Some(t) => Some(t@),
        None => None,
    }
}

/// The updated front matter, written: where the old one parses as a mapping,
/// that mapping with the five fields set and every other entry kept in its
/// place; where it parses as another YAML value, that value unchanged; where
/// it is missing, blank or not YAML, a mapping of the five fields alone.
pub open spec fn updated_frontmatter(
    r: Result<String, String>,
    existing: Option<Seq<char>>,
    title: Seq<char>,
    date: Seq<char>,
    count: int,
    now: Seq<char>,
) -> bool {
    let prefix = UPDATED_FRONTMATTER_FAILED@;
    match old_frontmatter(existing) {
        ParsedYaml::Other(v) => written_as(r, value_yaml(v), prefix),
        ParsedYaml::Mapping(m0) => exists|m: serde_yaml::Mapping|
            #[trigger] mapping_entries(m) == with_diary_fields(
                mapping_entries(m0),
                title,
                date,
                count,
                now,
            ) && written_as(r, mapping_yaml(m), prefix),
        ParsedYaml::Invalid => exists|m: serde_yaml::Mapping|
            #[trigger] mapping_entries(m) == with_diary_fields(Seq::empty(), title, date, count, now)
                && written_as(r, mapping_yaml(m), prefix),
    }
}

/// The list of the diary tag alone.
fn diary_tags() -> (r: FieldValue)
    ensures
        r.item() == YamlItem::TextList(seq![DIARY_TAG@]),
{
    let v: Vec<String> = vec![String::from_str(DIARY_TAG)];
    assert(v@.map_values(|t: String| t@) =~= seq![DIARY_TAG@]);
    FieldValue::TextList(v)
}

/// Sets the diary's five fields in `m`, as `with_diary_fields` states.
fn set_diary_fields(m: &mut serde_yaml::Mapping, title: &str, date: &str, count: i64, now: &str)
    ensures
        mapping_entries(*final(m)) == with_diary_fields(
            mapping_entries(*old(m)),
            title@,
            date@,
            count as int,
            now@,
        ),
{
    mapping_insert(m, "title", &FieldValue::Text(String::from_str(title)));
    mapping_insert(m, "date", &FieldValue::Text(String::from_str(date)));
    mapping_insert(m, "tags", &diary_tags());
    mapping_insert(m, "entryCount", &FieldValue::Count(count));
    mapping_insert(m, "lastModified", &FieldValue::Text(String::from_str(now)));
}

/// The writer's answer, with `prefix` put before its message where it
/// failed.
fn with_prefix(r: Result<String, String>, prefix: &str) -> (out: Result<String, String>)
    ensures
        match r {
            Ok(s) => out == Ok::<String, String>(s),
            Err(e) => out matches Err(e2) && e2@ == prefix@ + e@,
        },
        match out {
            Ok(_) => true,
            Err(e2) => e2@.len() >= prefix@.len() && e2@.subrange(0, prefix@.len() as int)
                == prefix@,
        },
{
    match r {
        Ok(s) => Ok(s),
        Err(e) => {
            let mut v = str_chars(prefix);
            push_all(&mut v, &str_chars(e.as_str()));
            assert(v@.subrange(0, prefix@.len() as int) =~= prefix@);
            Err(chars_to_string(&v))
        },
    }
}

/// The front matter to write back into a diary file whose old front matter
/// is `existing` (`None` where it has none or it is blank), after an entry
/// for `plan` is added and the file holds `entry_count` entries, at time
/// `now_iso`; as `updated_frontmatter` states.
pub fn frontmatter_for(
    existing: Option<&str>,
    plan: &EntryPlan,
    entry_count: usize,
    now_iso: &str,
) -> (r: Result<String, String>)
    ensures
        updated_frontmatter(
            r,
            text_of(existing),
            plan.diary_title@,
            plan.date_text@,
            (entry_count as i64) as int,
            now_iso@,
        ),
{
    let parsed = match existing {
        None => ParsedYaml::Invalid,
        Some(t) => if trim_string(t).as_str().unicode_len() == 0 {
            ParsedYaml::Invalid
        } else {
            parse_yaml(t)
        },
    };
    let count = entry_count as i64;
    let title = plan.diary_title.as_str();
    let date = plan.date_text.as_str();
    let prefix = UPDATED_FRONTMATTER_FAILED;
    assert(parsed == old_frontmatter(text_of(existing)));
    match parsed {
        ParsedYaml::Other(v) => with_prefix(value_to_yaml(&v), prefix),
        ParsedYaml::Mapping(m0) => {
            let mut m = m0;
            set_diary_fields(&mut m, title, date, count, now_iso);
            let r = with_prefix(mapping_to_yaml(&m), prefix);
            // `m` is the mapping that the contract speaks of.
            assert(mapping_entries(m) == mapping_entries(m));
            r
        },
        ParsedYaml::Invalid => {
            let mut m = new_mapping();
            assert(mapping_entries(m) =~= Seq::<YamlEntry>::empty());
            set_diary_fields(&mut m, title, date, count, now_iso);
            let r = with_prefix(mapping_to_yaml(&m), prefix);
            // `m` is the mapping that the contract speaks of.
            assert(mapping_entries(m) == mapping_entries(m));
            r
        },
    }
}

/// Setting a key that `es` does not hold adds it at the end.
proof fn lemma_set_new_key(es: Seq<YamlEntry>, k: Seq<char>, v: YamlItem)
    requires
        forall|i: int| 0 <= i < es.len() ==> es[i].0 != YamlKey::Text(k),
    ensures
        set_entry(es, k, v) == es.push((YamlKey::Text(k), v)),
    decreases es.len(),
{
    lemma_key_absent(es, k);
}

proof fn lemma_key_absent(es: Seq<YamlEntry>, k: Seq<char>)
    requires
        forall|i: int| 0 <= i < es.len() ==> es[i].0 != YamlKey::Text(k),
    ensures
        key_index(es, k) == es.len(),
    decreases es.len(),
{
    if es.len() > 0 {
        assert(es[0].0 != YamlKey::Text(k));
        assert forall|i: int| 0 <= i < es.drop_first().len() implies es.drop_first()[i].0 != YamlKey::Text(k) by {
            assert(es.drop_first()[i] == es[i + 1]);
        }
        lemma_key_absent(es.drop_first(), k);
    }
}

/// The front matter of a new diary file, written: a mapping of the five
/// fields in the order of their names.
pub open spec fn new_frontmatter(
    r: Result<String, String>,
    title: Seq<char>,
    date: Seq<char>,
    now: Seq<char>,
) -> bool {
    exists|m: serde_yaml::Mapping|
        #[trigger] mapping_entries(m) == new_file_fields(title, date, now) && written_as(
            r,
            mapping_yaml(m),
            NEW_FRONTMATTER_FAILED@,
        )
}

/// The front matter of a new diary file for `plan` at time `now_iso`, as
/// `new_frontmatter` states.
pub fn new_file_frontmatter(plan: &EntryPlan, now_iso: &str) -> (r: Result<String, String>)
    ensures
        new_frontmatter(r, plan.diary_title@, plan.date_text@, now_iso@),
{
    proof {
        lemma_field_names_differ();
    }
    let mut m = new_mapping();
    let ghost e0 = mapping_entries(m);
    assert(e0 =~= Seq::<YamlEntry>::empty());
    let date = FieldValue::Text(String::from_str(plan.date_text.as_str()));
    mapping_insert(&mut m, "date", &date);
    proof {
        lemma_set_new_key(e0, "date"@, date.item());
    }
    let ghost e1 = mapping_entries(m);
    let count = FieldValue::Count(1);
    mapping_insert(&mut m, "entryCount", &count);
    proof {
        lemma_set_new_key(e1, "entryCount"@, count.item());
    }
    let ghost e2 = mapping_entries(m);
    let now = FieldValue::Text(String::from_str(now_iso));
    mapping_insert(&mut m, "lastModified", &now);
    proof {
        assert forall|i: int| 0 <= i < e2.len() implies e2[i].0 != YamlKey::Text("lastModified"@) by {}
        lemma_set_new_key(e2, "lastModified"@, now.item());
    }
    let ghost e3 = mapping_entries(m);
    let tags = diary_tags();
    mapping_insert(&mut m, "tags", &tags);
    proof {
        assert forall|i: int| 0 <= i < e3.len() implies e3[i].0 != YamlKey::Text("tags"@) by {}
        lemma_set_new_key(e3, "tags"@, tags.item());
    }
    let ghost e4 = mapping_entries(m);
    let title = FieldValue::Text(String::from_str(plan.diary_title.as_str()));
    mapping_insert(&mut m, "title", &title);
    proof {
        assert forall|i: int| 0 <= i < e4.len() implies e4[i].0 != YamlKey::Text("title"@) by {}
        lemma_set_new_key(e4, "title"@, title.item());
    }
    assert(mapping_entries(m) =~= new_file_fields(plan.diary_title@, plan.date_text@, now_iso@));
    with_prefix(mapping_to_yaml(&m), NEW_FRONTMATTER_FAILED)
}

/// Where the widget sets its five fields, each has the value the widget
/// gives it (the entry count among them), and every other key keeps the
/// value it had.
pub proof fn law_diary_fields(
    es: Seq<YamlEntry>,
    title: Seq<char>,
    date: Seq<char>,
    count: int,
    now: Seq<char>,
    k: Seq<char>,
)
    ensures
        ({
            let r = with_diary_fields(es, title, date, count, now);
            &&& get_entry(r, "title"@) == Some(YamlItem::Text(title))
            &&& get_entry(r, "date"@) == Some(YamlItem::Text(date))
            &&& get_entry(r, "tags"@) == Some(YamlItem::TextList(seq![DIARY_TAG@]))
            &&& get_entry(r, "entryCount"@) == Some(YamlItem::Count(count))
            &&& get_entry(r, "lastModified"@) == Some(YamlItem::Text(now))
            &&& (k != "title"@ && k != "date"@ && k != "tags"@ && k != "entryCount"@ && k
                != "lastModified"@) ==> get_entry(r, k) == get_entry(es, k)
        }),
{
    lemma_field_names_differ();
    let a = set_entry(es, "title"@, YamlItem::Text(title));
    let b = set_entry(a, "date"@, YamlItem::Text(date));
    let c = set_entry(b, "tags"@, YamlItem::TextList(seq![DIARY_TAG@]));
    let d = set_entry(c, "entryCount"@, YamlItem::Count(count));
    let e = set_entry(d, "lastModified"@, YamlItem::Text(now));
    law_set_entry(es, "title"@, YamlItem::Text(title), "title"@);
    law_set_entry(es, "title"@, YamlItem::Text(title), "date"@);
    law_set_entry(es, "title"@, YamlItem::Text(title), "tags"@);
    law_set_entry(es, "title"@, YamlItem::Text(title), "entryCount"@);
    law_set_entry(es, "title"@, YamlItem::Text(title), "lastModified"@);
    law_set_entry(es, "title"@, YamlItem::Text(title), k);
    law_set_entry(a, "date"@, YamlItem::Text(date), "title"@);
    law_set_entry(a, "date"@, YamlItem::Text(date), "date"@);
    law_set_entry(a, "date"@, YamlItem::Text(date), "tags"@);
    law_set_entry(a, "date"@, YamlItem::Text(date), "entryCount"@);
    law_set_entry(a, "date"@, YamlItem::Text(date), "lastModified"@);
    law_set_entry(a, "date"@, YamlItem::Text(date), k);
    law_set_entry(b, "tags"@, YamlItem::TextList(seq![DIARY_TAG@]), "title"@);
    law_set_entry(b, "tags"@, YamlItem::TextList(seq![DIARY_TAG@]), "date"@);
    law_set_entry(b, "tags"@, YamlItem::TextList(seq![DIARY_TAG@]), "tags"@);
    law_set_entry(b, "tags"@, YamlItem::TextList(seq![DIARY_TAG@]), "entryCount"@);
    law_set_entry(b, "tags"@, YamlItem::TextList(seq![DIARY_TAG@]), "lastModified"@);
    law_set_entry(b, "tags"@, YamlItem::TextList(seq![DIARY_TAG@]), k);
    law_set_entry(c, "entryCount"@, YamlItem::Count(count), "title"@);
    law_set_entry(c, "entryCount"@, YamlItem::Count(count), "date"@);
    law_set_entry(c, "entryCount"@, YamlItem::Count(count), "tags"@);
    law_set_entry(c, "entryCount"@, YamlItem::Count(count), "entryCount"@);
    law_set_entry(c, "entryCount"@, YamlItem::Count(count), "lastModified"@);
    law_set_entry(c, "entryCount"@, YamlItem::Count(count), k);
    law_set_entry(d, "lastModified"@, YamlItem::Text(now), "title"@);
    law_set_entry(d, "lastModified"@, YamlItem::Text(now), "date"@);
    law_set_entry(d, "lastModified"@, YamlItem::Text(now), "tags"@);
    law_set_entry(d, "lastModified"@, YamlItem::Text(now), "entryCount"@);
    law_set_entry(d, "lastModified"@, YamlItem::Text(now), "lastModified"@);
    law_set_entry(d, "lastModified"@, YamlItem::Text(now), k);
}

/// The five field names differ from one another.
proof fn lemma_field_names_differ()
    ensures
        "date"@ != "entryCount"@ && "date"@ != "lastModified"@ && "date"@ != "tags"@ && "date"@
            != "title"@,
        "entryCount"@ != "lastModified"@ && "entryCount"@ != "tags"@ && "entryCount"@ != "title"@,
        "lastModified"@ != "tags"@ && "lastModified"@ != "title"@ && "tags"@ != "title"@,
{
    reveal_strlit("date");
    reveal_strlit("entryCount");
    reveal_strlit("lastModified");
    reveal_strlit("tags");
    reveal_strlit("title");
    assert("date"@.len() == 4 && "entryCount"@.len() == 10 && "lastModified"@.len() == 12);
    assert("tags"@.len() == 4 && "title"@.len() == 5);
    assert("date"@ != "tags"@) by {
        assert("date"@[0] != "tags"@[0]);
    }
}

/// Whether front matter `fm` splits back out of a file that
/// `assemble_diary_file` writes with it: it is not empty, does not start
/// with white space and holds no line break followed by `---` (the premises
/// of `law_frontmatter_round_trip`).
pub fn frontmatter_splits_back(fm: &str) -> (r: bool)
    ensures
        r == (fm@.len() > 0 && !is_ws(fm@[0]) && forall|j: int| !closing_at(fm@, j)),
{
    let s = str_chars(fm);
    if s.len() == 0 || crate::text::is_ws_char(s[0]) {
        return false;
    }
    let mut j: usize = 0;
    while j < s.len()
        invariant
            j <= s.len(),
            s@ == fm@,
            forall|k: int| 0 <= k < j ==> !closing_at(s@, k),
        decreases s.len() - j,
    {
        if s[j] == '\n' && s.len() - j >= 4 && s[j + 1] == '-' && s[j + 2] == '-' && s[j + 3]
            == '-' {
            assert(closing_at(s@, j as int));
            return false;
        }
        j = j + 1;
    }
    assert forall|k: int| !closing_at(fm@, k) by {
        if 0 <= k < s.len() {
        }
    }
    true
}

/// A file that does not start with `---`, or that holds no line break
/// followed by `---`, has no front matter: all of it is body.
pub proof fn law_no_frontmatter_all_body(s: Seq<char>)
    requires
        !dashes_at(s, 0) || forall|j: int| !closing_at(s, j),
    ensures
        split_frontmatter(s) == (Seq::<char>::empty(), s),
{
    if dashes_at(s, 0) {
        let t0 = ws_run(s, 3) - 1;
        lemma_opening_choice(s, t0);
        if let Some(t) = opening_choice(s, t0) {
            lemma_first_closing(s, 4 + t);
            assert(closing_at(s, first_closing(s, 4 + t)));
        }
    }
}

} // verus!
