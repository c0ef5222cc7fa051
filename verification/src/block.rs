//! The text of a written entry: its first line is its time heading, which
//! names the entry's time, and no other line of it is a time heading, where
//! its title holds no line break.
use vstd::prelude::*;
use crate::diary::entry_block;
use crate::entries::{entry_header_at, header_minutes, digit_run, field_value};
use crate::format::{time_text, zero_padded, decimal, lemma_two_digits_parse};
use crate::markdown::{line_start, h1_shape, has_h1, ws_run, shifted_content, lemma_shift_leaves_no_h1};
use crate::readback::{
    digit_class_facts, wf_entry, lemma_header_h1, lemma_trim_end_of_nonws, lemma_trim_ends,
};
use crate::text::{is_ws, all_ascii_digits, parse_i32, trim, trim_end, lemma_trim_end_prefix};

verus! {

/// `s` holds no line break.
pub open spec fn single_line(s: Seq<char>) -> bool {
    forall|k: int| 0 <= k < s.len() ==> #[trigger] s[k] != '\n'
}

/// Each line of `x` after the first that opens with `#` goes on with a
/// character that is not white space.
spec fn quiet_lines(x: Seq<char>) -> bool {
    forall|i: int|
        0 < i < x.len() && x[i - 1] == '\n' && #[trigger] x[i] == '#' ==> i + 1 < x.len() && !is_ws(
            x[i + 1],
        )
}

proof fn lemma_trim_end_last(s: Seq<char>)
    ensures
        trim_end(s).len() > 0 ==> !is_ws(trim_end(s).last()),
    decreases s.len(),
{
    if s.len() > 0 && is_ws(s.last()) {
        lemma_trim_end_last(s.drop_last());
    }
}

/// Content without a level-one heading keeps none when its trailing white
/// space is cut.
proof fn lemma_trim_end_no_h1(c: Seq<char>)
    requires
        !has_h1(c),
    ensures
        !has_h1(trim_end(c)),
{
    let b = trim_end(c);
    lemma_trim_end_prefix(c);
    if has_h1(b) {
        let q = choose|q: int| line_start(b, q) && h1_shape(b, q);
        assert(b[q] == c[q] && b[q + 1] == c[q + 1] && b[q + 2] == c[q + 2]);
        if q > 0 {
            assert(b[q - 1] == c[q - 1]);
        }
        assert(line_start(c, q) && h1_shape(c, q));
    }
}

/// The content that goes into an entry has no level-one heading.
pub proof fn lemma_shifted_no_h1(content: Seq<char>)
    ensures
        !has_h1(shifted_content(content).0),
{
    if has_h1(content) {
        lemma_shift_leaves_no_h1(content);
    }
}

/// A line of `r` that agrees with `x` up to its end cannot open with a
/// level-one heading where `x` has none past its first line.
proof fn lemma_quiet_prefix(r: Seq<char>, x: Seq<char>, k: int)
    requires
        quiet_lines(x),
        0 < k < x.len(),
        forall|i: int| 0 <= i < x.len() && i < r.len() ==> r[i] == x[i],
    ensures
        !(line_start(r, k) && h1_shape(r, k)),
{
    if line_start(r, k) && h1_shape(r, k) {
        assert(r[k - 1] == x[k - 1]);
        assert(r[k] == x[k]);
        assert(x[k] == '#');
        assert(r[k + 1] == x[k + 1]);
    }
}

/// A line of `x + b` that starts inside `b`, where `x` ends a line, is a
/// line of `b`; so no level-one heading opens there where `b` has none.
proof fn lemma_body_region(x: Seq<char>, b: Seq<char>, k: int)
    requires
        x.len() > 0,
        x.last() == '\n',
        !has_h1(b),
        x.len() <= k,
    ensures
        !(line_start(x + b, k) && h1_shape(x + b, k)),
{
    let r = x + b;
    let j = k - x.len();
    if line_start(r, k) && h1_shape(r, k) {
        assert(r[k] == b[j] && r[k + 1] == b[j + 1] && r[k + 2] == b[j + 2]);
        if j > 0 {
            assert(r[k - 1] == b[j - 1]);
        }
        assert(line_start(b, j) && h1_shape(b, j));
    }
}

/// The heading line `# HH:MM` at the start of `r` is a time heading for
/// `hour:minute`.
proof fn lemma_time_line(r: Seq<char>, hour: nat, minute: nat)
    requires
        digit_class_facts(),
        hour <= 23,
        minute <= 59,
        r.len() >= 7,
        r.subrange(0, 7) == seq!['#', ' '] + time_text(hour, minute),
        r.len() == 7 || r[7] == '\n',
    ensures
        entry_header_at(r, 0),
        header_minutes(r, 0) == hour * 60 + minute,
{
    reveal(entry_header_at);
    let hs = zero_padded(decimal(hour), 2);
    let ms = zero_padded(decimal(minute), 2);
    lemma_two_digits_parse(hour);
    lemma_two_digits_parse(minute);
    let z = seq!['#', ' '] + time_text(hour, minute);
    assert(z =~= seq!['#', ' '] + hs + seq![':'] + ms);
    assert forall|i: int| 0 <= i < 7 implies r[i] == z[i] by {
        assert(r.subrange(0, 7)[i] == r[i]);
    }
    assert(z[0] == '#' && z[1] == ' ' && z[2] == hs[0] && z[3] == hs[1] && z[4] == ':');
    assert(z[5] == ms[0] && z[6] == ms[1]);
    assert(r[0] == '#' && r[1] == ' ');
    assert(r[2] == hs[0] && r[3] == hs[1] && r[4] == ':' && r[5] == ms[0] && r[6] == ms[1]);
    assert(crate::text::is_ascii_digit(hs[0]) && crate::text::is_ascii_digit(hs[1]));
    assert(crate::text::is_ascii_digit(ms[0]) && crate::text::is_ascii_digit(ms[1]));
    assert(ws_run(r, 1) == 1) by {
        reveal_with_fuel(ws_run, 2);
    }
    assert(digit_run(r, 2) == 2) by {
        reveal_with_fuel(digit_run, 3);
    }
    assert(r.subrange(2, 4) =~= hs);
    assert(r.subrange(5, 7) =~= ms);
    assert(field_value(hs) == hour);
    assert(field_value(ms) == minute);
}

/// `r` holds no time heading but at its start.
pub open spec fn one_time_heading(r: Seq<char>) -> bool {
    forall|k: int| 0 < k < r.len() ==> !entry_header_at(r, k)
}

/// The text of an entry written at `hour:minute`, as it stands in the
/// body, opens with a time heading for that time and does not end in white
/// space; where the content has no level-one heading and the trimmed title
/// holds no line break, it holds no other time heading.
#[verifier::spinoff_prover]
proof fn lemma_written_entry(hour: nat, minute: nat, c: Seq<char>, title: Seq<char>)
    requires
        digit_class_facts(),
        hour <= 23,
        minute <= 59,
    ensures
        ({
            let r = trim_end(entry_block(time_text(hour, minute), c, title));
            &&& r.len() > 0
            &&& !is_ws(r.last())
            &&& entry_header_at(r, 0)
            &&& header_minutes(r, 0) == hour * 60 + minute
            &&& (!has_h1(c) && single_line(trim(title))) ==> one_time_heading(r)
        }),
{
    let tm = time_text(hour, minute);
    lemma_two_digits_parse(hour);
    lemma_two_digits_parse(minute);
    let hs = zero_padded(decimal(hour), 2);
    let ms = zero_padded(decimal(minute), 2);
    assert(tm =~= hs + seq![':'] + ms);
    let tt = trim(title);
    let body = trim_end(c);
    lemma_trim_ends(title);
    lemma_trim_end_last(c);
    if !has_h1(c) {
        lemma_trim_end_no_h1(c);
    }
    let z = seq!['#', ' '] + tm;
    let head = z + seq!['\n'];
    let w = if tt.len() > 0 {
        head + seq!['\n', '#', '#', ' '] + tt + seq!['\n']
    } else {
        head
    };
    let x = w + seq!['\n'];
    let block = entry_block(tm, c, title);
    let r = trim_end(block);
    assert(!is_ws(tm[4]));
    // The shape of `x`: the heading line, then the title line where there is
    // one, then a blank line.
    if single_line(tt) {
        assert forall|i: int|
            0 < i < x.len() && x[i - 1] == '\n' && #[trigger] x[i] == '#' implies i + 1 < x.len()
            && !is_ws(x[i + 1]) by {
            assert(x[0] == '#' && x[1] == ' ');
            assert(x[2] == hs[0] && x[3] == hs[1] && x[4] == ':' && x[5] == ms[0] && x[6]
                == ms[1]);
            assert(x[7] == '\n' && x[8] == '\n');
            if tt.len() > 0 {
                assert(x[9] == '#' && x[10] == '#' && x[11] == ' ');
                if 12 <= i - 1 < 12 + tt.len() {
                    assert(x[i - 1] == tt[i - 13]);
                }
                if 12 <= i < 12 + tt.len() {
                    assert(x[i] == tt[i - 12]);
                }
                assert(x[12 + tt.len() as int] == '\n');
                assert(x[13 + tt.len() as int] == '\n');
                assert(x.len() == 14 + tt.len());
            } else {
                assert(x.len() == 9);
            }
        }
        assert(quiet_lines(x));
    }
    // `r` agrees with `x` as far as both go, and goes on with the content
    // only where there is some.
    if body.len() > 0 {
        assert(block =~= (x + body) + seq!['\n']);
        assert((x + body).last() == body.last());
        lemma_trim_end_of_nonws(x + body, seq!['\n']);
        assert(r == x + body);
    } else if tt.len() > 0 {
        let y = head + seq!['\n', '#', '#', ' '] + tt;
        assert(block =~= y + seq!['\n']);
        assert(y.last() == tt.last());
        lemma_trim_end_of_nonws(y, seq!['\n']);
        assert(r == y);
        assert(x =~= y + seq!['\n', '\n']);
    } else {
        assert(block =~= z + seq!['\n']);
        assert(z.last() == tm[4]);
        lemma_trim_end_of_nonws(z, seq!['\n']);
        assert(r == z);
        assert(x =~= z + seq!['\n', '\n']);
    }
    assert(forall|i: int| 0 <= i < x.len() && i < r.len() ==> r[i] == x[i]);
    assert(r.len() >= 7);
    assert(r.subrange(0, 7) =~= z);
    assert(r.len() == 7 || r[7] == '\n');
    lemma_time_line(r, hour, minute);
    assert(r.len() > 0 && !is_ws(r.last()));
    assert((!has_h1(c) && single_line(tt)) ==> one_time_heading(r)) by {
        if !has_h1(c) && single_line(tt) {
            assert forall|k: int| 0 < k < r.len() implies !entry_header_at(r, k) by {
                if entry_header_at(r, k) {
                    lemma_header_h1(r, k);
                    if k < x.len() {
                        lemma_quiet_prefix(r, x, k);
                    } else {
                        lemma_body_region(x, body, k);
                    }
                }
            }
        }
    }
}

/// The text of an entry written at `hour:minute`, as it stands in the
/// body, is a well-formed entry for that time where it holds no time
/// heading but its first.
pub proof fn lemma_written_entry_wf(hour: nat, minute: nat, c: Seq<char>, title: Seq<char>)
    requires
        digit_class_facts(),
        hour <= 23,
        minute <= 59,
        one_time_heading(trim_end(entry_block(time_text(hour, minute), c, title))),
    ensures
        wf_entry(((hour * 60 + minute) as int, trim_end(entry_block(time_text(hour, minute), c, title)))),
{
    lemma_written_entry(hour, minute, c, title);
}

/// An entry whose trimmed title holds no line break holds no time heading
/// but its first: the content written into it has no level-one heading, and
/// every time heading opens a level-one heading.
pub proof fn law_single_line_title_one_heading(
    hour: nat,
    minute: nat,
    content: Seq<char>,
    title: Seq<char>,
)
    requires
        digit_class_facts(),
        hour <= 23,
        minute <= 59,
        single_line(trim(title)),
    ensures
        one_time_heading(
            trim_end(entry_block(time_text(hour, minute), shifted_content(content).0, title)),
        ),
{
    lemma_shifted_no_h1(content);
    lemma_written_entry(hour, minute, shifted_content(content).0, title);
}

} // verus!
