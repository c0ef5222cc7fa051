//! What holds of the library across its functions: a diary file written by
//! it reads back as it was written, and the shortcut of appending a late
//! entry agrees with sorting.
use vstd::prelude::*;
use crate::diary::{join_entries, after_prefix, merged_body};
use crate::entries::{body_entries, entries_from, entry_header_at, header_minutes, next_header, lemma_next_header};
use crate::frontmatter::{assemble, split_frontmatter, closing_at, first_closing, dashes_at, opening_choice, frontmatter_bounds};
use crate::markdown::ws_run;
use crate::order::{sort_by_time, time_ordered, with_time, lemma_sort_ordered_is_identity, lemma_sort_by_time, lemma_sort_members};
use crate::block::{one_time_heading, lemma_written_entry_wf};
use crate::diary::entry_block;
use crate::format::time_text;
use crate::markdown::shifted_content;
use crate::readback::{digit_class_facts, wf_entry, lemma_body_entries_wf, lemma_reads_back};
use crate::text::{is_ws, trim, trim_start, trim_end};

verus! {

/// Every character of `w` is white space.
pub open spec fn all_ws(w: Seq<char>) -> bool {
    forall|k: int| 0 <= k < w.len() ==> is_ws(#[trigger] w[k])
}

proof fn lemma_trim_start_ws_prefix(w: Seq<char>, y: Seq<char>)
    requires
        all_ws(w),
    ensures
        trim_start(w + y) == trim_start(y),
    decreases w.len(),
{
    if w.len() > 0 {
        assert((w + y)[0] == w[0]);
        assert((w + y).drop_first() =~= w.drop_first() + y);
        lemma_trim_start_ws_prefix(w.drop_first(), y);
    } else {
        assert(w + y =~= y);
    }
}

proof fn lemma_trim_end_ws_suffix(y: Seq<char>, w: Seq<char>)
    requires
        all_ws(w),
    ensures
        trim_end(y + w) == trim_end(y),
    decreases w.len(),
{
    if w.len() > 0 {
        assert((y + w).last() == w.last());
        assert((y + w).drop_last() =~= y + w.drop_last());
        lemma_trim_end_ws_suffix(y, w.drop_last());
    } else {
        assert(y + w =~= y);
    }
}

proof fn lemma_trim_start_all_ws(w: Seq<char>)
    requires
        all_ws(w),
    ensures
        trim_start(w).len() == 0,
    decreases w.len(),
{
    if w.len() > 0 {
        lemma_trim_start_all_ws(w.drop_first());
    }
}

proof fn lemma_trim_start_then_suffix(y: Seq<char>, w: Seq<char>)
    requires
        !all_ws(y),
    ensures
        trim_start(y + w) == trim_start(y) + w,
    decreases y.len(),
{
    if is_ws(y[0]) {
        assert((y + w)[0] == y[0]);
        assert((y + w).drop_first() =~= y.drop_first() + w);
        assert(!all_ws(y.drop_first())) by {
            let k = choose|k: int| 0 <= k < y.len() && !is_ws(#[trigger] y[k]);
            assert(y.drop_first()[k - 1] == y[k]);
        }
        lemma_trim_start_then_suffix(y.drop_first(), w);
    } else {
        assert((y + w)[0] == y[0]);
    }
}

/// Trailing white space does not change what `trim` gives.
proof fn lemma_trim_ws_suffix(y: Seq<char>, w: Seq<char>)
    requires
        all_ws(w),
    ensures
        trim(y + w) == trim(y),
{
    if all_ws(y) {
        lemma_trim_start_ws_prefix(y, w);
        lemma_trim_start_all_ws(w);
        lemma_trim_start_all_ws(y);
    } else {
        lemma_trim_start_then_suffix(y, w);
        lemma_trim_end_ws_suffix(trim_start(y), w);
    }
}

proof fn lemma_trim_start_idempotent(x: Seq<char>)
    ensures
        trim_start(trim_start(x)) == trim_start(x),
    decreases x.len(),
{
    if x.len() > 0 && is_ws(x[0]) {
        lemma_trim_start_idempotent(x.drop_first());
    }
}

/// `s` is `trim_end(s)` followed by white space only.
proof fn lemma_trim_end_split(s: Seq<char>)
    ensures
        s == trim_end(s) + s.subrange(trim_end(s).len() as int, s.len() as int),
        all_ws(s.subrange(trim_end(s).len() as int, s.len() as int)),
    decreases s.len(),
{
    if s.len() > 0 && is_ws(s.last()) {
        let t = s.drop_last();
        lemma_trim_end_split(t);
        assert(trim_end(s) == trim_end(t));
        let n = trim_end(s).len() as int;
        crate::text::lemma_trim_end_prefix(t);
        assert(s.subrange(n, s.len() as int) =~= t.subrange(n, t.len() as int).push(s.last()));
        assert(s =~= t.push(s.last()));
        assert(t.push(s.last()) =~= (trim_end(t) + t.subrange(n, t.len() as int)).push(s.last()));
        assert(s =~= trim_end(s) + s.subrange(n, s.len() as int));
    } else {
        assert(s.subrange(s.len() as int, s.len() as int) =~= Seq::<char>::empty());
        assert(s =~= s + Seq::<char>::empty());
    }
}

/// White space around a text does not change what `trim` gives.
pub proof fn lemma_trim_surrounding_ws(w1: Seq<char>, y: Seq<char>, w2: Seq<char>)
    requires
        all_ws(w1),
        all_ws(w2),
    ensures
        trim(w1 + y + w2) == trim(y),
{
    assert(w1 + y + w2 =~= w1 + (y + w2));
    lemma_trim_start_ws_prefix(w1, y + w2);
    lemma_trim_ws_suffix(y, w2);
}

/// What `body_entries` reads depends only on the trimmed text.
proof fn lemma_body_entries_trim(a: Seq<char>, b: Seq<char>)
    requires
        trim(a) == trim(b),
    ensures
        body_entries(a) == body_entries(b),
{
}

/// The white space at `i` and after, dropped.
pub proof fn lemma_trim_start_at(s: Seq<char>, i: int)
    requires
        0 <= i <= s.len(),
    ensures
        trim_start(s.subrange(i, s.len() as int)) == s.subrange(i + ws_run(s, i), s.len() as int),
        i + ws_run(s, i) <= s.len(),
    decreases s.len() - i,
{
    let u = s.subrange(i, s.len() as int);
    if i < s.len() && is_ws(s[i]) {
        assert(u[0] == s[i]);
        assert(u.drop_first() =~= s.subrange(i + 1, s.len() as int));
        lemma_trim_start_at(s, i + 1);
    } else if i < s.len() {
        assert(u[0] == s[i]);
    }
}

/// A diary file assembled from front matter and a body splits back into the
/// same front matter, and its body reads as the same entries, where the
/// front matter is not empty, does not start with white space, and holds no
/// line break followed by `---`.
pub proof fn law_frontmatter_round_trip(fm: Seq<char>, body: Seq<char>)
    requires
        fm.len() > 0,
        !is_ws(fm[0]),
        forall|j: int| !closing_at(fm, j),
    ensures
        split_frontmatter(assemble(fm, body)).0 == fm,
        body_entries(split_frontmatter(assemble(fm, body)).1) == body_entries(body),
{
    let s = assemble(fm, body);
    let tb = trim_end(body);
    let n = fm.len() as int;
    let tail = seq!['\n', '-', '-', '-', '\n', '\n'] + tb + seq!['\n'];
    assert(s =~= seq!['-', '-', '-', '\n'] + fm + tail);
    assert(dashes_at(s, 0));
    assert(s[3] == '\n');
    assert(s[4] == fm[0]);
    assert(ws_run(s, 3) == 1) by {
        reveal_with_fuel(ws_run, 2);
    }
    // The first closing line is the one `assemble` writes.
    assert forall|j: int| 4 <= j < 4 + n implies !closing_at(s, j) by {
        if closing_at(s, j) {
            assert(s[j] == fm[j - 4]);
            if j + 3 < 4 + n {
                assert(s[j + 1] == fm[j - 3] && s[j + 2] == fm[j - 2] && s[j + 3] == fm[j - 1]);
                assert(closing_at(fm, j - 4));
            } else {
                let k = 4 + n;
                assert(s[k] == '\n');
                assert(j + 1 <= k <= j + 3);
            }
        }
    }
    assert(closing_at(s, 4 + n)) by {
        assert(s[4 + n] == '\n' && s[5 + n] == '-' && s[6 + n] == '-' && s[7 + n] == '-');
    }
    lemma_first_closing_at(s, 4, 4 + n);
    assert(opening_choice(s, 0) == Some(0int));
    assert(frontmatter_bounds(s) == Some((4int, 4 + n, 8 + n + ws_run(s, 8 + n))));
    assert(s.subrange(4, 4 + n) =~= fm);
    lemma_trim_start_at(s, 8 + n);
    let rest = seq!['\n', '\n'] + tb + seq!['\n'];
    assert(s.subrange(8 + n, s.len() as int) =~= rest);
    let back = split_frontmatter(s).1;
    assert(back == trim_start(rest));
    // The body read back trims to the same text as the body written.
    lemma_trim_start_idempotent(rest);
    assert(trim(back) == trim(rest));
    assert(all_ws(seq!['\n', '\n']));
    assert(all_ws(seq!['\n']));
    lemma_trim_surrounding_ws(seq!['\n', '\n'], tb, seq!['\n']);
    lemma_trim_end_split(body);
    lemma_trim_ws_suffix(tb, body.subrange(tb.len() as int, body.len() as int));
    lemma_body_entries_trim(back, body);
}

proof fn lemma_first_closing_at(s: Seq<char>, g: int, j: int)
    requires
        0 <= g <= j < s.len(),
        closing_at(s, j),
        forall|k: int| g <= k < j ==> !closing_at(s, k),
    ensures
        first_closing(s, g) == j,
    decreases j - g,
{
    if g < j {
        lemma_first_closing_at(s, g + 1, j);
    }
}

proof fn lemma_join_last(es: Seq<(int, Seq<char>)>)
    requires
        es.len() > 0,
        es.last().1.len() > 0,
    ensures
        join_entries(es).len() > 0,
        join_entries(es).last() == es.last().1.last(),
{
    if es.len() > 1 {
        let j = join_entries(es.drop_last()) + seq!['\n', '\n'] + es.last().1;
        assert(j.last() == es.last().1.last());
    }
}

/// Where the new entry is appended, the merged body is the prefix and the
/// entries with the new one joined after them.
proof fn lemma_append_body(prefix: Seq<char>, es: Seq<(int, Seq<char>)>, minutes: int, block: Seq<char>)
    requires
        es.len() > 0,
        minutes >= es.last().0,
        forall|i: int| 0 <= i < es.len() ==> (#[trigger] es[i]).1.len() > 0 && !is_ws(es[i].1.last()),
    ensures
        merged_body(prefix, es, minutes, block) == after_prefix(
            prefix,
            join_entries(es.push((minutes, trim_end(block)))),
        ),
{
    let b = trim_end(block);
    let s2 = es.push((minutes, b));
    assert(s2.drop_last() =~= es);
    let j = join_entries(es);
    assert(join_entries(s2) == j + seq!['\n', '\n'] + b);
    assert(es.last() == es[es.len() - 1]);
    lemma_join_last(es);
    let x = after_prefix(prefix, j);
    assert(x.len() > 0 && x.last() == j.last());
    assert(trim_end(x) == x);
    assert(after_prefix(prefix, j + seq!['\n', '\n'] + b) =~= x + seq!['\n', '\n'] + b);
}

/// Appending an entry that is not earlier than the last one, to entries in
/// time order, gives the same body as adding it and sorting all entries by
/// time. (Entry texts are not empty and end in a character other than white
/// space, as the parser gives them.)
pub proof fn law_append_agrees_with_sort(
    prefix: Seq<char>,
    es: Seq<(int, Seq<char>)>,
    minutes: int,
    block: Seq<char>,
)
    requires
        es.len() > 0,
        time_ordered(es),
        minutes >= es.last().0,
        forall|i: int| 0 <= i < es.len() ==> (#[trigger] es[i]).1.len() > 0 && !is_ws(es[i].1.last()),
    ensures
        merged_body(prefix, es, minutes, block) == after_prefix(
            prefix,
            join_entries(sort_by_time(es.push((minutes, trim_end(block))))),
        ),
{
    let b = trim_end(block);
    let s2 = es.push((minutes, b));
    assert(time_ordered(s2)) by {
        assert forall|i: int, j: int| 0 <= i <= j < s2.len() implies s2[i].0 <= s2[j].0 by {
            if j < es.len() {
                assert(s2[i] == es[i] && s2[j] == es[j]);
            } else if i < es.len() {
                assert(s2[i] == es[i]);
                assert(es[i].0 <= es[es.len() - 1].0);
            }
        }
    }
    lemma_sort_ordered_is_identity(s2);
    lemma_append_body(prefix, es, minutes, block);
}

/// The entries of a day after entry `e` is written into a body whose
/// entries are `es`: `e` after them where it is not earlier than the last
/// one, else all of them, `e` last, ordered by time, stably.
pub open spec fn entries_after_write(es: Seq<(int, Seq<char>)>, e: (int, Seq<char>)) -> Seq<
    (int, Seq<char>),
> {
    if es.len() > 0 && e.0 >= es.last().0 {
        es.push(e)
    } else {
        sort_by_time(es.push(e))
    }
}

/// Writing an entry into a day whose entries are in time order leaves them
/// in time order, and loses, repeats or reorders no entry of any one time:
/// for each time, the entries of that time are the old ones in their order,
/// with the new one last where it has that time.
pub proof fn law_write_keeps_time_order(es: Seq<(int, Seq<char>)>, e: (int, Seq<char>))
    requires
        time_ordered(es),
    ensures
        time_ordered(entries_after_write(es, e)),
        forall|k: int| #[trigger] with_time(entries_after_write(es, e), k) == with_time(es.push(e), k),
        entries_after_write(es, e).len() == es.len() + 1,
{
    let s2 = es.push(e);
    if es.len() > 0 && e.0 >= es.last().0 {
        assert forall|i: int, j: int| 0 <= i <= j < s2.len() implies s2[i].0 <= s2[j].0 by {
            if j < es.len() {
                assert(s2[i] == es[i] && s2[j] == es[j]);
            } else if i < es.len() {
                assert(s2[i] == es[i]);
                assert(es[i].0 <= es[es.len() - 1].0);
            }
        }
    } else {
        lemma_sort_by_time(s2);
    }
}

/// An entry written into a day's body reads back: the new body reads as the
/// old prefix and the old entries with the new entry added, appended or in
/// time order as `entries_after_write` says; so it holds one entry more than
/// before, the count that the front matter records. The new entry is its time in
/// minutes and its text as written, without trailing white space. This
/// holds where that text holds no time heading but its first (where the
/// trimmed title holds no line break, `law_single_line_title_one_heading`
/// shows it does not), and it rests on what `\d` matches, as
/// `digit_class_facts` states.
pub proof fn law_written_entry_reads_back(
    body: Seq<char>,
    hour: nat,
    minute: nat,
    content: Seq<char>,
    title: Seq<char>,
)
    requires
        digit_class_facts(),
        hour <= 23,
        minute <= 59,
        one_time_heading(
            trim_end(entry_block(time_text(hour, minute), shifted_content(content).0, title)),
        ),
    ensures
        ({
            let (p, es) = body_entries(body);
            let block = entry_block(time_text(hour, minute), shifted_content(content).0, title);
            let e = ((hour * 60 + minute) as int, trim_end(block));
            &&& body_entries(merged_body(p, es, e.0, block)) == (p, entries_after_write(es, e))
            &&& entries_after_write(es, e).len() == es.len() + 1
        }),
{
    let (p, es) = body_entries(body);
    let c = shifted_content(content).0;
    let block = entry_block(time_text(hour, minute), c, title);
    let e = ((hour * 60 + minute) as int, trim_end(block));
    lemma_body_entries_wf(body);
    lemma_written_entry_wf(hour, minute, c, title);
    let s2 = es.push(e);
    assert forall|i: int| 0 <= i < s2.len() implies wf_entry(#[trigger] s2[i]) by {
        if i < es.len() {
            assert(s2[i] == es[i]);
        }
    }
    if es.len() > 0 && e.0 >= es.last().0 {
        assert forall|i: int| 0 <= i < es.len() implies (#[trigger] es[i]).1.len() > 0 && !is_ws(
            es[i].1.last(),
        ) by {
            assert(wf_entry(es[i]));
        }
        lemma_append_body(p, es, e.0, block);
        lemma_reads_back(p, s2);
    } else {
        let sorted = sort_by_time(s2);
        lemma_sort_by_time(s2);
        lemma_sort_members(s2);
        assert forall|i: int| 0 <= i < sorted.len() implies wf_entry(#[trigger] sorted[i]) by {
            assert(s2.contains(sorted[i]));
            let j = choose|j: int| 0 <= j < s2.len() && s2[j] == sorted[i];
            assert(wf_entry(s2[j]));
        }
        lemma_reads_back(p, sorted);
    }
}

/// A diary file that an entry is written into reads back: where the new
/// front matter `fm` is not empty, does not start with white space and
/// holds no closing `---` line, and the entry's text holds no time heading
/// but its first, the new file splits into `fm` and a body
/// that reads as the old file's prefix and entries with the new entry
/// added, as `law_written_entry_reads_back` states.
pub proof fn law_written_file_reads_back(
    existing: Seq<char>,
    fm: Seq<char>,
    hour: nat,
    minute: nat,
    content: Seq<char>,
    title: Seq<char>,
)
    requires
        digit_class_facts(),
        hour <= 23,
        minute <= 59,
        one_time_heading(
            trim_end(entry_block(time_text(hour, minute), shifted_content(content).0, title)),
        ),
        fm.len() > 0,
        !is_ws(fm[0]),
        forall|j: int| !closing_at(fm, j),
    ensures
        ({
            let (p, es) = body_entries(split_frontmatter(existing).1);
            let block = entry_block(time_text(hour, minute), shifted_content(content).0, title);
            let e = ((hour * 60 + minute) as int, trim_end(block));
            let file = assemble(fm, merged_body(p, es, e.0, block));
            &&& split_frontmatter(file).0 == fm
            &&& body_entries(split_frontmatter(file).1) == (p, entries_after_write(es, e))
        }),
{
    let (p, es) = body_entries(split_frontmatter(existing).1);
    let block = entry_block(time_text(hour, minute), shifted_content(content).0, title);
    let e = ((hour * 60 + minute) as int, trim_end(block));
    law_written_entry_reads_back(split_frontmatter(existing).1, hour, minute, content, title);
    law_frontmatter_round_trip(fm, merged_body(p, es, e.0, block));
}

/// The positions of `t` from `i` on where a time heading starts, in order.
pub open spec fn heading_starts(t: Seq<char>, i: int) -> Seq<int>
    decreases t.len() - i,
{
    if i < 0 || i >= t.len() {
        Seq::empty()
    } else if entry_header_at(t, i) {
        seq![i] + heading_starts(t, i + 1)
    } else {
        heading_starts(t, i + 1)
    }
}

/// Positions without a time heading add none.
proof fn lemma_heading_starts_skip(t: Seq<char>, i: int, j: int)
    requires
        0 <= i <= j <= t.len(),
        forall|k: int| i <= k < j ==> !entry_header_at(t, k),
    ensures
        heading_starts(t, i) == heading_starts(t, j),
    decreases j - i,
{
    if i < j {
        lemma_heading_starts_skip(t, i + 1, j);
    }
}

/// The entries read from a heading at `p` on are cut at the headings from
/// `p` on.
proof fn lemma_entries_at_starts(t: Seq<char>, p: int)
    requires
        0 <= p,
        p < t.len() ==> entry_header_at(t, p),
    ensures
        ({
            let hs = heading_starts(t, p);
            let es = entries_from(t, p);
            &&& es.len() == hs.len()
            &&& forall|i: int|
                0 <= i < hs.len() ==> #[trigger] es[i] == (
                    header_minutes(t, hs[i]),
                    trim_end(
                        t.subrange(
                            hs[i],
                            if i + 1 < hs.len() {
                                hs[i + 1]
                            } else {
                                t.len() as int
                            },
                        ),
                    ),
                )
        }),
    decreases t.len() - p,
{
    if p < t.len() {
        let n = next_header(t, p + 1);
        lemma_next_header(t, p + 1);
        lemma_heading_starts_skip(t, p + 1, n);
        lemma_entries_at_starts(t, n);
        let hs = heading_starts(t, p);
        let hn = heading_starts(t, n);
        let es = entries_from(t, p);
        let en = entries_from(t, n);
        assert(hs == seq![p] + hn);
        assert(es == seq![(header_minutes(t, p), trim_end(t.subrange(p, n)))] + en);
        if n < t.len() {
            assert(hn[0] == n);
        } else {
            assert(hn.len() == 0);
        }
        assert forall|i: int| 0 <= i < hs.len() implies #[trigger] es[i] == (
            header_minutes(t, hs[i]),
            trim_end(
                t.subrange(
                    hs[i],
                    if i + 1 < hs.len() {
                        hs[i + 1]
                    } else {
                        t.len() as int
                    },
                ),
            ),
        ) by {
            if i > 0 {
                assert(es[i] == en[i - 1]);
                assert(hs[i] == hn[i - 1]);
                if i + 1 < hs.len() {
                    assert(hs[i + 1] == hn[i]);
                }
            }
        }
    }
}

/// A body reads at its time headings: with `t` the trimmed body and `hs`
/// the positions where a time heading starts in `t`, there are as many
/// entries as headings; entry `i` has the time that heading `i` names and
/// the text from heading `i` up to the next one (or the end), without
/// trailing white space; the prefix is the text before the first heading,
/// without trailing white space, or all of `t` where there is no heading.
pub proof fn law_entries_at_heading_starts(body: Seq<char>)
    ensures
        ({
            let t = trim(body);
            let hs = heading_starts(t, 0);
            let (p, es) = body_entries(body);
            &&& hs.len() == 0 ==> p == t
            &&& hs.len() > 0 ==> p == trim_end(t.subrange(0, hs[0]))
            &&& es.len() == hs.len()
            &&& forall|i: int|
                0 <= i < hs.len() ==> #[trigger] es[i] == (
                    header_minutes(t, hs[i]),
                    trim_end(
                        t.subrange(
                            hs[i],
                            if i + 1 < hs.len() {
                                hs[i + 1]
                            } else {
                                t.len() as int
                            },
                        ),
                    ),
                )
        }),
{
    let t = trim(body);
    let f = next_header(t, 0);
    lemma_next_header(t, 0);
    lemma_heading_starts_skip(t, 0, f);
    lemma_entries_at_starts(t, f);
    if f < t.len() {
        assert(heading_starts(t, f)[0] == f);
    }
}

} // verus!
