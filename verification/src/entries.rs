//! The entries of a day's diary body.
//!
//! An entry begins at a line that holds only a time heading: `#`, white
//! space, one or two decimal digits, `:`, two decimal digits, and nothing but
//! white space up to the end of the line. The entry runs up to the next such
//! line. Text before the first entry is the body's prefix.
//!
//! Decimal digits here are those of the `\d` class of a Unicode regular
//! expression; a time field counts as its `i32` value when it is made of
//! ASCII digits and as zero otherwise.
use vstd::prelude::*;
use crate::markdown::{line_start, ws_run, count_ws, lemma_ws_run_bound};
use crate::outside::{regex_decimal_digit, is_regex_decimal_digit};
use crate::text::{
    is_ws, is_ws_char, trim, trim_end, parse_i32, parse_i32_in, str_chars, sub_vec, trim_bounds,
    skip_ws_backward,
};

verus! {

/// One entry of a diary body: the time of its heading in minutes after
/// midnight, and its text from the heading on, without trailing white space.
pub struct EntrySection {
    pub time_minutes: i32,
    pub raw: String,
}

impl View for EntrySection {
    type V = (int, Seq<char>);

    open spec fn view(&self) -> (int, Seq<char>) {
        (self.time_minutes as int, self.raw@)
    }
}

/// The entries as (minutes, text) pairs.
pub open spec fn entries_view(v: Seq<EntrySection>) -> Seq<(int, Seq<char>)> {
    v.map_values(|e: EntrySection| e@)
}

/// The number of consecutive decimal digits in `s` from `i`.
pub open spec fn digit_run(s: Seq<char>, i: int) -> nat
    decreases s.len() - i,
{
    if 0 <= i < s.len() && regex_decimal_digit(s[i]) {
        1 + digit_run(s, i + 1)
    } else {
        0
    }
}

/// From `e`, `s` holds only white space up to a line break or its end.
pub open spec fn blank_to_line_end(s: Seq<char>, e: int) -> bool
    decreases s.len() - e,
{
    if e < 0 || e >= s.len() {
        true
    } else if s[e] == '\n' {
        true
    } else if is_ws(s[e]) {
        blank_to_line_end(s, e + 1)
    } else {
        false
    }
}

/// Where the hour digits of a heading at `p` start.
pub open spec fn hour_start(s: Seq<char>, p: int) -> int {
    p + 1 + ws_run(s, p + 1)
}

/// Where the minute digits of a heading at `p` start.
pub open spec fn minute_start(s: Seq<char>, p: int) -> int {
    hour_start(s, p) + digit_run(s, hour_start(s, p)) + 1
}

/// A time heading starts at `p`.
#[verifier::opaque]
pub open spec fn entry_header_at(s: Seq<char>, p: int) -> bool {
    let b = hour_start(s, p);
    let d = digit_run(s, b);
    let c = minute_start(s, p);
    &&& 0 <= p < s.len()
    &&& line_start(s, p)
    &&& s[p] == '#'
    &&& ws_run(s, p + 1) >= 1
    &&& 1 <= d <= 2
    &&& b + d < s.len()
    &&& s[b + d] == ':'
    &&& c + 2 <= s.len()
    &&& regex_decimal_digit(s[c])
    &&& regex_decimal_digit(s[c + 1])
    &&& blank_to_line_end(s, c + 2)
}

/// A time field's value: its `i32` value, or zero where it does not parse.
pub open spec fn field_value(t: Seq<char>) -> int {
    match parse_i32(t) {
        Some(v) => v,
        None => 0,
    }
}

/// The minutes after midnight that the heading at `p` names.
pub open spec fn header_minutes(s: Seq<char>, p: int) -> int {
    let b = hour_start(s, p);
    let c = minute_start(s, p);
    field_value(s.subrange(b, b + digit_run(s, b))) * 60 + field_value(s.subrange(c, c + 2))
}

/// The first time heading at or after `i`, or the end of `s`.
pub open spec fn next_header(s: Seq<char>, i: int) -> int
    decreases s.len() - i,
{
    if i < 0 || i >= s.len() {
        s.len() as int
    } else if entry_header_at(s, i) {
        i
    } else {
        next_header(s, i + 1)
    }
}

pub proof fn lemma_next_header(s: Seq<char>, i: int)
    requires
        0 <= i,
    ensures
        next_header(s, i) == s.len() || (i <= next_header(s, i) < s.len() && entry_header_at(
            s,
            next_header(s, i),
        )),
        i <= s.len() ==> i <= next_header(s, i) <= s.len(),
        forall|k: int| i <= k < next_header(s, i) ==> !entry_header_at(s, k),
    decreases s.len() - i,
{
    if i < s.len() && !entry_header_at(s, i) {
        lemma_next_header(s, i + 1);
    }
}

/// The entries of `s` from the heading at `p` on.
pub open spec fn entries_from(s: Seq<char>, p: int) -> Seq<(int, Seq<char>)>
    decreases s.len() - p,
{
    if p < 0 || p >= s.len() {
        Seq::empty()
    } else {
        let n = next_header(s, p + 1);
        proof {
            lemma_next_header(s, p + 1);
        }
        seq![(header_minutes(s, p), trim_end(s.subrange(p, n)))] + entries_from(s, n)
    }
}

/// A body split into its prefix and its entries. The body is trimmed first;
/// the prefix is the text before the first time heading, without trailing
/// white space, or the whole trimmed body where it has no time heading.
pub open spec fn body_entries(body: Seq<char>) -> (Seq<char>, Seq<(int, Seq<char>)>) {
    let t = trim(body);
    let f = next_header(t, 0);
    if f >= t.len() {
        (t, Seq::empty())
    } else {
        (trim_end(t.subrange(0, f)), entries_from(t, f))
    }
}

fn count_digits(s: &Vec<char>, i: usize) -> (r: usize)
    requires
        i <= s.len(),
    ensures
        r == digit_run(s@, i as int),
        i + r <= s.len(),
{
    let mut j = i;
    while j < s.len() && is_regex_decimal_digit(s[j])
        invariant
            i <= j <= s.len(),
            digit_run(s@, i as int) == (j - i) + digit_run(s@, j as int),
        decreases s.len() - j,
    {
        j = j + 1;
    }
    j - i
}

fn blank_to_eol(s: &Vec<char>, e: usize) -> (r: bool)
    requires
        e <= s.len(),
    ensures
        r == blank_to_line_end(s@, e as int),
{
    let mut j = e;
    while j < s.len()
        invariant
            e <= j <= s.len(),
            blank_to_line_end(s@, e as int) == blank_to_line_end(s@, j as int),
        decreases s.len() - j,
    {
        if s[j] == '\n' {
            return true;
        }
        if !is_ws_char(s[j]) {
            return false;
        }
        j = j + 1;
    }
    true
}

/// The minutes of the time heading at `p`, or `None` where none starts there.
fn header_at(s: &Vec<char>, p: usize) -> (r: Option<i32>)
    requires
        p < s.len(),
    ensures
        r is Some <==> entry_header_at(s@, p as int),
        r matches Some(m) ==> m == header_minutes(s@, p as int),
{
    reveal(entry_header_at);
    if !(p == 0 || s[p - 1] == '\n') || s[p] != '#' {
        return None;
    }
    let w = count_ws(s, p + 1);
    if w < 1 {
        return None;
    }
    let b = p + 1 + w;
    let d = count_digits(s, b);
    if d < 1 || d > 2 || b + d >= s.len() || s[b + d] != ':' {
        return None;
    }
    let c = b + d + 1;
    if s.len() - c < 2 || !is_regex_decimal_digit(s[c]) || !is_regex_decimal_digit(s[c + 1])
        || !blank_to_eol(s, c + 2) {
        return None;
    }
    let hour = match parse_i32_in(s, b, b + d) {
        Some(v) => v,
        None => 0,
    };
    let minute = match parse_i32_in(s, c, c + 2) {
        Some(v) => v,
        None => 0,
    };
    proof {
        lemma_field_value_small(s@.subrange(b as int, (b + d) as int));
        lemma_field_value_small(s@.subrange(c as int, (c + 2) as int));
    }
    Some(hour * 60 + minute)
}

/// A field of at most two characters has a value of at most two digits.
proof fn lemma_field_value_small(t: Seq<char>)
    requires
        t.len() <= 2,
    ensures
        -99 <= field_value(t) <= 99,
{
    reveal_with_fuel(crate::text::digits_value, 3);
    let signed = t.len() > 0 && (t[0] == '+' || t[0] == '-');
    let d = if signed {
        t.drop_first()
    } else {
        t
    };
    if d.len() > 0 && crate::text::all_ascii_digits(d) {
        assert(crate::text::is_ascii_digit(d[d.len() - 1]));
        assert(crate::text::is_ascii_digit(d[0]));
        if d.len() == 2 {
            assert(d.drop_last().last() == d[0]);
            assert(d.drop_last().drop_last().len() == 0);
        } else {
            assert(d.drop_last().len() == 0);
        }
    }
}

/// The first time heading in `s` at or after `i`, or `s.len()`.
fn find_next_header(s: &Vec<char>, i: usize) -> (r: usize)
    requires
        i <= s.len(),
    ensures
        r == next_header(s@, i as int),
        i <= r <= s.len(),
{
    let mut j = i;
    while j < s.len()
        invariant
            i <= j <= s.len(),
            next_header(s@, i as int) == next_header(s@, j as int),
        decreases s.len() - j,
    {
        if header_at(s, j).is_some() {
            return j;
        }
        j = j + 1;
    }
    j
}

/// An entry list of a body has at most half as many entries as characters,
/// and then some.
proof fn lemma_entries_count(t: Seq<char>, p: int)
    requires
        0 <= p,
        p < t.len() ==> entry_header_at(t, p),
    ensures
        p <= t.len() ==> 2 * entries_from(t, p).len() <= t.len() - p + 1,
    decreases t.len() - p,
{
    if p < t.len() {
        let n = next_header(t, p + 1);
        lemma_next_header(t, p + 1);
        lemma_ws_run_bound(t, p + 1);
        if n == p + 1 {
            reveal(entry_header_at);
            assert(entry_header_at(t, n));
            assert(is_ws(t[p + 1]));
        }
        lemma_entries_count(t, n);
    }
}

/// Splits a diary body into the text before its first entry and its entries,
/// as `body_entries` states.
pub fn parse_diary_body_entries(body: &str) -> (r: (String, Vec<EntrySection>))
    ensures
        (r.0@, entries_view(r.1@)) == body_entries(body@),
        r.1@.len() < usize::MAX,
{
    let b = str_chars(body);
    let (lo, hi) = trim_bounds(&b, 0, b.len());
    let t = sub_vec(&b, lo, hi);
    assert(b@.subrange(0, b.len() as int) =~= b@);
    let f = find_next_header(&t, 0);
    if f >= t.len() {
        return (crate::outside::chars_to_string(&t), Vec::new());
    }
    let pe = skip_ws_backward(&t, 0, f);
    let prefix = sub_vec(&t, 0, pe);
    let mut entries: Vec<EntrySection> = Vec::new();
    let mut cur = f;
    proof {
        lemma_next_header(t@, 0);
    }
    while cur < t.len()
        invariant
            f <= cur <= t.len(),
            cur < t.len() ==> entry_header_at(t@, cur as int),
            entries_view(entries@) + entries_from(t@, cur as int) == entries_from(t@, f as int),
        decreases t.len() - cur,
    {
        let minutes = match header_at(&t, cur) {
            Some(m) => m,
            None => 0,
        };
        let n = find_next_header(&t, cur + 1);
        proof {
            lemma_next_header(t@, cur + 1);
        }
        let e = skip_ws_backward(&t, cur, n);
        let raw = sub_vec(&t, cur, e);
        let ghost old_entries = entries@;
        entries.push(EntrySection { time_minutes: minutes, raw: crate::outside::chars_to_string(&raw) });
        assert(entries_view(entries@) =~= entries_view(old_entries) + seq![
            (header_minutes(t@, cur as int), trim_end(t@.subrange(cur as int, n as int))),
        ]);
        cur = n;
    }
    assert(entries_view(entries@) + entries_from(t@, cur as int) =~= entries_view(entries@));
    proof {
        lemma_entries_count(t@, f as int);
        assert(entries_view(entries@).len() == entries@.len());
    }
    (crate::outside::chars_to_string(&prefix), entries)
}

/// Whether a new entry at `new_time_minutes` may go after the existing ones
/// without sorting: there is at least one entry, and the new time is not
/// earlier than the last entry's.
pub fn should_append_without_sorting(existing_entries: &[EntrySection], new_time_minutes: i32) -> (r: bool)
    ensures
        r == (existing_entries@.len() > 0 && new_time_minutes >= existing_entries@.last().time_minutes),
{
    if existing_entries.len() == 0 {
        return false;
    }
    let last = &existing_entries[existing_entries.len() - 1];
    new_time_minutes >= last.time_minutes
}

} // verus!
