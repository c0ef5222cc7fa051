//! Reading back what was written: after an entry is merged into a day's
//! body, the body reads as the old prefix and the merged entries.
//!
//! The proofs rest on four facts of the Unicode `Nd` class that `\d`
//! matches, gathered in `digit_class_facts`: the ASCII digits belong to it,
//! and no white-space character, `#` or `:` does.
use vstd::prelude::*;
use crate::entries::{
    digit_run, blank_to_line_end, entry_header_at, header_minutes, hour_start, minute_start,
    field_value,
};
use crate::markdown::{line_start, ws_run, lemma_ws_run_bound};
use crate::outside::{regex_decimal_digit, is_regex_decimal_digit};
use crate::text::{is_ws, is_ascii_digit};

verus! {

/// The facts of the `\d` class that reading back relies on.
pub open spec fn digit_class_facts() -> bool {
    &&& forall|c: char| #[trigger] is_ascii_digit(c) ==> regex_decimal_digit(c)
    &&& forall|c: char| #[trigger] is_ws(c) ==> !regex_decimal_digit(c)
    &&& !regex_decimal_digit('#')
    &&& !regex_decimal_digit(':')
}

/// Two characters with the same code are the same character.
proof fn lemma_same_code(c: char, d: char)
    requires
        c as u32 == d as u32,
    ensures
        c == d,
{
    assert(c == (c as u32) as char);
    assert(d == (d as u32) as char);
}

/// Asks the `regex` crate about every character that `digit_class_facts`
/// speaks of (the ten ASCII digits, every white-space character, `#` and
/// `:`) and tells whether those facts hold.
pub fn digit_class_holds() -> (r: bool)
    ensures
        r == digit_class_facts(),
{
    let _ = is_regex_decimal_digit('0');
    let _ = is_regex_decimal_digit('1');
    let _ = is_regex_decimal_digit('2');
    let _ = is_regex_decimal_digit('3');
    let _ = is_regex_decimal_digit('4');
    let _ = is_regex_decimal_digit('5');
    let _ = is_regex_decimal_digit('6');
    let _ = is_regex_decimal_digit('7');
    let _ = is_regex_decimal_digit('8');
    let _ = is_regex_decimal_digit('9');
    assert forall|c: char| #[trigger] is_ascii_digit(c) implies regex_decimal_digit(c) by {
        let u = c as u32;
        if u == 0x30 {
            lemma_same_code(c, '0');
        } else if u == 0x31 {
            lemma_same_code(c, '1');
        } else if u == 0x32 {
            lemma_same_code(c, '2');
        } else if u == 0x33 {
            lemma_same_code(c, '3');
        } else if u == 0x34 {
            lemma_same_code(c, '4');
        } else if u == 0x35 {
            lemma_same_code(c, '5');
        } else if u == 0x36 {
            lemma_same_code(c, '6');
        } else if u == 0x37 {
            lemma_same_code(c, '7');
        } else if u == 0x38 {
            lemma_same_code(c, '8');
        } else if u == 0x39 {
            lemma_same_code(c, '9');
        }
    }
    let ws: Vec<char> = vec![
        '\u{9}', '\u{a}', '\u{b}', '\u{c}', '\u{d}', '\u{20}', '\u{85}', '\u{a0}', '\u{1680}',
        '\u{2000}', '\u{2001}', '\u{2002}', '\u{2003}', '\u{2004}', '\u{2005}', '\u{2006}',
        '\u{2007}', '\u{2008}', '\u{2009}', '\u{200a}', '\u{2028}', '\u{2029}', '\u{202f}',
        '\u{205f}', '\u{3000}',
    ];
    let ghost wss = ws@;
    assert forall|c: char| #[trigger] is_ws(c) implies wss.contains(c) by {
        let u = c as u32;
        if 0x09 <= u <= 0x0d {
            if u == 0x9 {
                lemma_same_code(c, wss[0]);
            } else if u == 0xa {
                lemma_same_code(c, wss[1]);
            } else if u == 0xb {
                lemma_same_code(c, wss[2]);
            } else if u == 0xc {
                lemma_same_code(c, wss[3]);
            } else if u == 0xd {
                lemma_same_code(c, wss[4]);
            }
        } else if u == 0x20 {
            lemma_same_code(c, wss[5]);
        } else if u == 0x85 {
            lemma_same_code(c, wss[6]);
        } else if u == 0xa0 {
            lemma_same_code(c, wss[7]);
        } else if u == 0x1680 {
            lemma_same_code(c, wss[8]);
        } else if 0x2000 <= u <= 0x200a {
            if u == 0x2000 {
                lemma_same_code(c, wss[9]);
            } else if u == 0x2001 {
                lemma_same_code(c, wss[10]);
            } else if u == 0x2002 {
                lemma_same_code(c, wss[11]);
            } else if u == 0x2003 {
                lemma_same_code(c, wss[12]);
            } else if u == 0x2004 {
                lemma_same_code(c, wss[13]);
            } else if u == 0x2005 {
                lemma_same_code(c, wss[14]);
            } else if u == 0x2006 {
                lemma_same_code(c, wss[15]);
            } else if u == 0x2007 {
                lemma_same_code(c, wss[16]);
            } else if u == 0x2008 {
                lemma_same_code(c, wss[17]);
            } else if u == 0x2009 {
                lemma_same_code(c, wss[18]);
            } else if u == 0x200a {
                lemma_same_code(c, wss[19]);
            }
        } else if u == 0x2028 {
            lemma_same_code(c, wss[20]);
        } else if u == 0x2029 {
            lemma_same_code(c, wss[21]);
        } else if u == 0x202f {
            lemma_same_code(c, wss[22]);
        } else if u == 0x205f {
            lemma_same_code(c, wss[23]);
        } else {
            lemma_same_code(c, wss[24]);
        }
    }
    assert forall|j: int| 0 <= j < wss.len() implies is_ws(#[trigger] wss[j]) by {}
    let mut ok = true;
    let mut i: usize = 0;
    while i < ws.len()
        invariant
            i <= ws.len(),
            ws@ == wss,
            ok == forall|j: int| 0 <= j < i ==> !regex_decimal_digit(#[trigger] wss[j]),
        decreases ws.len() - i,
    {
        let b = is_regex_decimal_digit(ws[i]);
        ok = ok && !b;
        i = i + 1;
    }
    assert(ok == forall|c: char| #[trigger] is_ws(c) ==> !regex_decimal_digit(c)) by {
        if ok {
            assert forall|c: char| #[trigger] is_ws(c) implies !regex_decimal_digit(c) by {
                let j = choose|j: int| 0 <= j < wss.len() && wss[j] == c;
            }
        } else {
            let j = choose|j: int| 0 <= j < wss.len() && regex_decimal_digit(#[trigger] wss[j]);
            assert(is_ws(wss[j]));
        }
    }
    let hash = is_regex_decimal_digit('#');
    let colon = is_regex_decimal_digit(':');
    ok && !hash && !colon
}

pub proof fn lemma_ws_run_suffix(a: Seq<char>, b: Seq<char>, i: int)
    requires
        0 <= i,
    ensures
        ws_run(a + b, a.len() + i) == ws_run(b, i),
    decreases b.len() - i,
{
    if i < b.len() {
        assert((a + b)[a.len() + i] == b[i]);
        lemma_ws_run_suffix(a, b, i + 1);
    }
}

pub proof fn lemma_digit_run_suffix(a: Seq<char>, b: Seq<char>, i: int)
    requires
        0 <= i,
    ensures
        digit_run(a + b, a.len() + i) == digit_run(b, i),
    decreases b.len() - i,
{
    if i < b.len() {
        assert((a + b)[a.len() + i] == b[i]);
        lemma_digit_run_suffix(a, b, i + 1);
    }
}

pub proof fn lemma_blank_suffix(a: Seq<char>, b: Seq<char>, i: int)
    requires
        0 <= i,
    ensures
        blank_to_line_end(a + b, a.len() + i) == blank_to_line_end(b, i),
    decreases b.len() - i,
{
    if i < b.len() {
        assert((a + b)[a.len() + i] == b[i]);
        lemma_blank_suffix(a, b, i + 1);
    }
}

/// A time heading's test and value at a position depend only on the text
/// from there on, and on whether the position begins a line.
pub proof fn lemma_header_suffix(a: Seq<char>, b: Seq<char>, i: int)
    requires
        0 <= i < b.len(),
        i > 0 || a.len() == 0 || a.last() == '\n',
    ensures
        entry_header_at(a + b, a.len() + i) == entry_header_at(b, i),
        entry_header_at(b, i) ==> header_minutes(a + b, a.len() + i) == header_minutes(b, i),
{
    reveal(entry_header_at);
    let s = a + b;
    let p = a.len() + i;
    assert(s[p] == b[i]);
    if i > 0 {
        assert(s[p - 1] == b[i - 1]);
    } else if a.len() > 0 {
        assert(s[p - 1] == a.last());
    }
    lemma_ws_run_suffix(a, b, i + 1);
    let hb = hour_start(b, i);
    assert(hour_start(s, p) == a.len() + hb);
    lemma_digit_run_suffix(a, b, hb);
    let mb = minute_start(b, i);
    assert(minute_start(s, p) == a.len() + mb);
    lemma_blank_suffix(a, b, mb + 2);
    let d = digit_run(b, hb);
    if 0 <= hb && hb + d < b.len() {
        assert(s[a.len() + hb + d] == b[hb + d]);
    }
    if 0 <= mb && mb + 2 <= b.len() {
        assert(s[a.len() + mb] == b[mb]);
        assert(s[a.len() + mb + 1] == b[mb + 1]);
        assert(s.subrange(a.len() + mb, a.len() + mb + 2) =~= b.subrange(mb, mb + 2));
    }
    if 0 <= hb && hb + d <= b.len() {
        assert(s.subrange(a.len() + hb, a.len() + hb + d) =~= b.subrange(hb, hb + d));
    }
}

/// What may follow a text without changing its time headings: nothing, or
/// white space that reaches a line break before anything else, after which
/// the first character that is not white space, if any, is `#`.
pub open spec fn quiet_tail(t: Seq<char>) -> bool {
    t.len() == 0 || (is_ws(t[0]) && blank_to_line_end(t, 0) && (ws_run(t, 0) == t.len() || t[ws_run(
        t,
        0,
    ) as int] == '#'))
}

proof fn lemma_ws_run_extend(u: Seq<char>, t: Seq<char>, i: int)
    requires
        0 <= i <= u.len(),
    ensures
        ws_run(u + t, i) == if i + ws_run(u, i) == u.len() {
            (u.len() - i) + ws_run(t, 0)
        } else {
            ws_run(u, i) as int
        },
    decreases u.len() - i,
{
    if i == u.len() {
        lemma_ws_run_suffix(u, t, 0);
    } else {
        assert((u + t)[i] == u[i]);
        lemma_ws_run_extend(u, t, i + 1);
    }
}

proof fn lemma_digit_run_extend(u: Seq<char>, t: Seq<char>, i: int)
    requires
        0 <= i <= u.len(),
    ensures
        digit_run(u + t, i) == if i + digit_run(u, i) == u.len() {
            (u.len() - i) + digit_run(t, 0)
        } else {
            digit_run(u, i) as int
        },
    decreases u.len() - i,
{
    if i == u.len() {
        lemma_digit_run_suffix(u, t, 0);
    } else {
        assert((u + t)[i] == u[i]);
        lemma_digit_run_extend(u, t, i + 1);
    }
}

proof fn lemma_blank_extend(u: Seq<char>, t: Seq<char>, i: int)
    requires
        0 <= i <= u.len(),
        blank_to_line_end(t, 0),
    ensures
        blank_to_line_end(u + t, i) == blank_to_line_end(u, i),
    decreases u.len() - i,
{
    if i == u.len() {
        lemma_blank_suffix(u, t, 0);
    } else {
        assert((u + t)[i] == u[i]);
        lemma_blank_extend(u, t, i + 1);
    }
}

proof fn lemma_digit_run_bound(s: Seq<char>, i: int)
    requires
        0 <= i,
    ensures
        i + digit_run(s, i) <= s.len() || digit_run(s, i) == 0,
        forall|k: int| i <= k < i + digit_run(s, i) ==> regex_decimal_digit(#[trigger] s[k]),
        i + digit_run(s, i) < s.len() ==> !regex_decimal_digit(s[i + digit_run(s, i)]),
    decreases s.len() - i,
{
    if 0 <= i < s.len() && regex_decimal_digit(s[i]) {
        lemma_digit_run_bound(s, i + 1);
    }
}

/// A quiet tail leaves the time headings of a text, and their times, as
/// they were.
pub proof fn lemma_header_quiet_tail(u: Seq<char>, t: Seq<char>, p: int)
    requires
        digit_class_facts(),
        u.len() > 0,
        !is_ws(u.last()),
        quiet_tail(t),
        0 <= p < u.len(),
    ensures
        entry_header_at(u + t, p) == entry_header_at(u, p),
        entry_header_at(u, p) ==> header_minutes(u + t, p) == header_minutes(u, p),
{
    reveal(entry_header_at);
    let s = u + t;
    let n = u.len() as int;
    assert(s[p] == u[p]);
    if p > 0 {
        assert(s[p - 1] == u[p - 1]);
    }
    assert(s.len() == u.len() + t.len());
    if t.len() == 0 {
        assert(s =~= u);
    } else {
        assert(s[n] == t[0]);
        assert(!regex_decimal_digit(t[0]));
        lemma_ws_run_extend(u, t, p + 1);
        lemma_ws_run_bound(u, p + 1);
        if p + 1 == n {
            // A `#` at the very end: the white space after it runs into the
            // tail, which goes on with `#` or ends; no digit follows.
            lemma_ws_run_suffix(u, t, 0);
            lemma_ws_run_bound(t, 0);
            let w = ws_run(t, 0) as int;
            let b = n + w;
            assert(hour_start(s, p) == b);
            lemma_digit_run_suffix(u, t, w);
            if w < t.len() {
                assert(t[w] == '#');
                assert(s[b] == t[w]);
                assert(digit_run(s, b) == 0);
            } else {
                assert(digit_run(s, b) == 0);
            }
            assert(ws_run(u, p + 1) == 0);
        } else {
            // The white space after `#` stops inside `u`, whose last
            // character is not white space.
            assert(!is_ws(u[n - 1]));
            assert(p + 1 + ws_run(u, p + 1) < n) by {
                if p + 1 + ws_run(u, p + 1) >= n {
                    assert(p + 1 <= n - 1 < p + 1 + ws_run(u, p + 1));
                    assert(is_ws(u[n - 1]));
                }
            }
            assert(ws_run(s, p + 1) == ws_run(u, p + 1));
            let b = hour_start(u, p);
            assert(hour_start(s, p) == b);
            lemma_digit_run_extend(u, t, b);
            lemma_digit_run_bound(u, b);
            lemma_digit_run_suffix(u, t, 0);
            if b + digit_run(u, b) == n {
                // The hour digits reach the end of `u`; the tail starts with
                // white space, which is no digit and no `:`.
                assert(digit_run(t, 0) == 0);
                assert(digit_run(s, b) == digit_run(u, b));
                assert(s[n] != ':');
            } else {
                assert(digit_run(s, b) == digit_run(u, b));
                let d = digit_run(u, b);
                assert(s[b + d] == u[b + d]);
                let c = minute_start(u, p);
                assert(minute_start(s, p) == c);
                if c + 2 <= n {
                    assert(s[c] == u[c] && s[c + 1] == u[c + 1]);
                    lemma_blank_extend(u, t, c + 2);
                    assert(s.subrange(b, b + d) =~= u.subrange(b, b + d));
                    assert(s.subrange(c, c + 2) =~= u.subrange(c, c + 2));
                } else if c + 1 == n {
                    assert(s[c + 1] == t[0]);
                } else if c == n {
                    assert(s[c] == t[0]);
                }
            }
        }
    }
}

/// A time heading starts with `#`.
pub proof fn lemma_header_hash(s: Seq<char>, p: int)
    ensures
        entry_header_at(s, p) ==> 0 <= p < s.len() && s[p] == '#',
{
    reveal(entry_header_at);
}

/// An entry as the parser gives it: its text is not empty, does not end in
/// white space, starts with a time heading that names its time, and holds
/// no other time heading.
pub open spec fn wf_entry(e: (int, Seq<char>)) -> bool {
    &&& e.1.len() > 0
    &&& !is_ws(e.1.last())
    &&& entry_header_at(e.1, 0)
    &&& header_minutes(e.1, 0) == e.0
    &&& forall|k: int| 0 < k < e.1.len() ==> !entry_header_at(e.1, k)
}

/// A prefix as the parser gives it: empty, or without white space at either
/// end and without a time heading.
pub open spec fn wf_prefix(p: Seq<char>) -> bool {
    p.len() == 0 || (!is_ws(p[0]) && !is_ws(p.last()) && forall|k: int|
        0 <= k < p.len() ==> !entry_header_at(p, k))
}

/// Entry texts joined with a blank line between them, from the front.
pub open spec fn join_from(es: Seq<(int, Seq<char>)>) -> Seq<char>
    decreases es.len(),
{
    if es.len() == 0 {
        Seq::empty()
    } else if es.len() == 1 {
        es[0].1
    } else {
        es[0].1 + seq!['\n', '\n'] + join_from(es.drop_first())
    }
}

proof fn lemma_join_from_push(es: Seq<(int, Seq<char>)>, x: (int, Seq<char>))
    requires
        es.len() > 0,
    ensures
        join_from(es.push(x)) == join_from(es) + seq!['\n', '\n'] + x.1,
    decreases es.len(),
{
    let s = es.push(x);
    assert(s.drop_first() =~= es.drop_first().push(x));
    if es.len() == 1 {
        assert(s.drop_first() =~= seq![x]);
        assert(join_from(s.drop_first()) == x.1);
    } else {
        lemma_join_from_push(es.drop_first(), x);
        assert(join_from(s) =~= join_from(es) + seq!['\n', '\n'] + x.1);
    }
}

pub proof fn lemma_join_entries_from(es: Seq<(int, Seq<char>)>)
    ensures
        crate::diary::join_entries(es) == join_from(es),
    decreases es.len(),
{
    if es.len() > 1 {
        lemma_join_entries_from(es.drop_last());
        lemma_join_from_push(es.drop_last(), es.last());
        assert(es.drop_last().push(es.last()) =~= es);
    }
}

proof fn lemma_next_header_is(t: Seq<char>, i: int, j: int)
    requires
        0 <= i <= j <= t.len(),
        j < t.len() ==> entry_header_at(t, j),
        forall|k: int| i <= k < j ==> !entry_header_at(t, k),
    ensures
        crate::entries::next_header(t, i) == j,
    decreases j - i,
{
    if i < j {
        lemma_next_header_is(t, i + 1, j);
    }
}

pub proof fn lemma_trim_end_of_nonws(y: Seq<char>, w: Seq<char>)
    requires
        y.len() > 0,
        !is_ws(y.last()),
        forall|k: int| 0 <= k < w.len() ==> is_ws(#[trigger] w[k]),
    ensures
        crate::text::trim_end(y + w) == y,
    decreases w.len(),
{
    if w.len() > 0 {
        assert((y + w).last() == w.last());
        assert((y + w).drop_last() =~= y + w.drop_last());
        lemma_trim_end_of_nonws(y, w.drop_last());
    } else {
        assert(y + w =~= y);
    }
}

/// A blank line followed by an entry is a quiet tail.
proof fn lemma_blank_line_quiet(j: Seq<char>)
    requires
        j.len() > 0,
        j[0] == '#',
    ensures
        quiet_tail(seq!['\n', '\n'] + j),
{
    let rest = seq!['\n', '\n'] + j;
    assert(rest[0] == '\n' && rest[1] == '\n' && rest[2] == '#');
    assert(ws_run(rest, 0) == 2) by {
        reveal_with_fuel(ws_run, 3);
    }
}

/// Entries joined from the second on start with `#`.
proof fn lemma_join_starts_with_hash(es: Seq<(int, Seq<char>)>)
    requires
        es.len() > 0,
        forall|i: int| 0 <= i < es.len() ==> wf_entry(#[trigger] es[i]),
    ensures
        join_from(es).len() > 0,
        join_from(es)[0] == '#',
{
    lemma_join_first_last(es);
    assert(wf_entry(es[0]));
    lemma_header_hash(es[0].1, 0);
}

/// The first entry's heading, and no heading after it up to the next entry.
proof fn lemma_first_entry_headers(x: Seq<char>, r: Seq<char>, rest: Seq<char>)
    requires
        digit_class_facts(),
        wf_entry((header_minutes(r, 0), r)),
        quiet_tail(rest),
        rest.len() == 0 || (rest.len() >= 2 && rest[0] == '\n' && rest[1] == '\n'),
        x.len() == 0 || x.last() == '\n',
    ensures
        entry_header_at(x + (r + rest), x.len() as int),
        header_minutes(x + (r + rest), x.len() as int) == header_minutes(r, 0),
        forall|k: int|
            x.len() < k < x.len() + r.len() + rest.len() && k < x.len() + r.len() + 2
                ==> !entry_header_at(x + (r + rest), k),
{
    let t = x + (r + rest);
    let n = x.len() as int;
    lemma_header_suffix(x, r + rest, 0);
    lemma_header_quiet_tail(r, rest, 0);
    assert forall|k: int|
        n < k < n + r.len() + rest.len() && k < n + r.len() + 2 implies !entry_header_at(t, k) by {
        if k < n + r.len() {
            lemma_header_suffix(x, r + rest, k - n);
            lemma_header_quiet_tail(r, rest, k - n);
        } else {
            assert(t[k] == rest[k - n - r.len()]);
            lemma_header_hash(t, k);
        }
    }
}

/// One entry after a text that ends a line reads back as itself.
#[verifier::spinoff_prover]
proof fn lemma_entries_from_one(x: Seq<char>, e: (int, Seq<char>))
    requires
        digit_class_facts(),
        wf_entry(e),
        x.len() == 0 || x.last() == '\n',
    ensures
        entry_header_at(x + e.1, x.len() as int),
        crate::entries::entries_from(x + e.1, x.len() as int) == seq![e],
{
    let r = e.1;
    let t = x + r;
    let n = x.len() as int;
    let rest = Seq::<char>::empty();
    assert(t =~= x + (r + rest));
    lemma_first_entry_headers(x, r, rest);
    lemma_next_header_is(t, n + 1, t.len() as int);
    assert(t.subrange(n, t.len() as int) =~= r);
    lemma_trim_end_of_nonws(r, Seq::empty());
    assert(r + Seq::<char>::empty() =~= r);
    assert(crate::entries::entries_from(t, t.len() as int) == Seq::<(int, Seq<char>)>::empty());
    assert(crate::entries::entries_from(t, n) =~= seq![(header_minutes(t, n), r)]);
}

/// An entry, a blank line and entries that read back as themselves read
/// back as all of them.
#[verifier::spinoff_prover]
proof fn lemma_entries_from_step(x: Seq<char>, e: (int, Seq<char>), j2: Seq<char>, es2: Seq<(int, Seq<char>)>)
    requires
        digit_class_facts(),
        wf_entry(e),
        x.len() == 0 || x.last() == '\n',
        j2.len() > 0,
        j2[0] == '#',
        entry_header_at(x + e.1 + seq!['\n', '\n'] + j2, (x + e.1 + seq!['\n', '\n']).len() as int),
        crate::entries::entries_from(
            x + e.1 + seq!['\n', '\n'] + j2,
            (x + e.1 + seq!['\n', '\n']).len() as int,
        ) == es2,
    ensures
        entry_header_at(x + (e.1 + (seq!['\n', '\n'] + j2)), x.len() as int),
        crate::entries::entries_from(x + (e.1 + (seq!['\n', '\n'] + j2)), x.len() as int) == seq![e]
            + es2,
{
    let r = e.1;
    let n = x.len() as int;
    let rest = seq!['\n', '\n'] + j2;
    lemma_blank_line_quiet(j2);
    let t = x + (r + rest);
    lemma_first_entry_headers(x, r, rest);
    let x2 = x + r + seq!['\n', '\n'];
    assert(t =~= x2 + j2);
    let m = x2.len() as int;
    lemma_next_header_is(t, n + 1, m);
    assert(t.subrange(n, m) =~= r + seq!['\n', '\n']);
    lemma_trim_end_of_nonws(r, seq!['\n', '\n']);
    assert(crate::entries::entries_from(t, n) =~= seq![(header_minutes(t, n), r)] + es2);
}

/// Entries joined after a text that ends a line read back as themselves.
proof fn lemma_entries_from_join(x: Seq<char>, es: Seq<(int, Seq<char>)>)
    requires
        digit_class_facts(),
        es.len() > 0,
        forall|i: int| 0 <= i < es.len() ==> wf_entry(#[trigger] es[i]),
        x.len() == 0 || x.last() == '\n',
    ensures
        entry_header_at(x + join_from(es), x.len() as int),
        crate::entries::entries_from(x + join_from(es), x.len() as int) == es,
    decreases es.len(),
{
    assert(wf_entry(es[0]));
    if es.len() == 1 {
        assert(join_from(es) == es[0].1);
        lemma_entries_from_one(x, es[0]);
        assert(seq![es[0]] =~= es);
    } else {
        let es2 = es.drop_first();
        assert forall|i: int| 0 <= i < es2.len() implies wf_entry(#[trigger] es2[i]) by {
            assert(es2[i] == es[i + 1]);
        }
        let j2 = join_from(es2);
        lemma_join_starts_with_hash(es2);
        let x2 = x + es[0].1 + seq!['\n', '\n'];
        lemma_entries_from_join(x2, es2);
        lemma_entries_from_step(x, es[0], j2, es2);
        assert(join_from(es) == es[0].1 + (seq!['\n', '\n'] + j2));
        assert(seq![es[0]] + es2 =~= es);
    }
}

/// A text without white space at either end is its own trim.
pub proof fn lemma_trim_identity(s: Seq<char>)
    requires
        s.len() > 0,
        !is_ws(s[0]),
        !is_ws(s.last()),
    ensures
        crate::text::trim(s) == s,
{
    assert(crate::text::trim_start(s) == s);
    assert(crate::text::trim_end(s) == s);
}

/// A body made of a well-formed prefix and well-formed entries reads back
/// as that prefix and those entries.
pub proof fn lemma_reads_back(p: Seq<char>, es: Seq<(int, Seq<char>)>)
    requires
        digit_class_facts(),
        wf_prefix(p),
        es.len() > 0,
        forall|i: int| 0 <= i < es.len() ==> wf_entry(#[trigger] es[i]),
    ensures
        crate::entries::body_entries(crate::diary::after_prefix(p, crate::diary::join_entries(es)))
            == (p, es),
{
    lemma_join_entries_from(es);
    let j = join_from(es);
    let m = crate::diary::after_prefix(p, j);
    let x = if p.len() == 0 {
        Seq::<char>::empty()
    } else {
        p + seq!['\n', '\n']
    };
    assert(m =~= x + j);
    lemma_entries_from_join(x, es);
    assert(wf_entry(es[0]));
    assert(wf_entry(es[es.len() - 1]));
    // The body's ends are not white space.
    assert(j.len() > 0 && j[0] == es[0].1[0] && j.last() == es[es.len() - 1].1.last()) by {
        lemma_join_first_last(es);
    }
    assert(m[0] == if p.len() == 0 { j[0] } else { p[0] });
    assert(m.last() == j.last());
    assert(is_ws(m[0]) == false) by {
        if p.len() == 0 {
            lemma_header_hash(es[0].1, 0);
            assert(es[0].1[0] == '#');
        }
    }
    lemma_trim_identity(m);
    // No heading before the first entry.
    assert forall|k: int| 0 <= k < x.len() implies !entry_header_at(m, k) by {
        if k < p.len() {
            let tail = seq!['\n', '\n'] + j;
            assert(m =~= p + tail);
            lemma_join_starts_with_hash(es);
            lemma_blank_line_quiet(j);
            lemma_header_quiet_tail(p, tail, k);
        } else {
            assert(m[k] == '\n');
            lemma_header_hash(m, k);
        }
    }
    lemma_next_header_is(m, 0, x.len() as int);
    if p.len() > 0 {
        assert(m.subrange(0, x.len() as int) =~= p + seq!['\n', '\n']);
        lemma_trim_end_of_nonws(p, seq!['\n', '\n']);
    } else {
        assert(m.subrange(0, 0) =~= Seq::<char>::empty());
    }
}

proof fn lemma_join_first_last(es: Seq<(int, Seq<char>)>)
    requires
        es.len() > 0,
        forall|i: int| 0 <= i < es.len() ==> wf_entry(#[trigger] es[i]),
    ensures
        join_from(es).len() > 0,
        join_from(es)[0] == es[0].1[0],
        join_from(es).last() == es[es.len() - 1].1.last(),
    decreases es.len(),
{
    assert(wf_entry(es[0]));
    if es.len() > 1 {
        let es2 = es.drop_first();
        assert forall|i: int| 0 <= i < es2.len() implies wf_entry(#[trigger] es2[i]) by {
            assert(es2[i] == es[i + 1]);
        }
        lemma_join_first_last(es2);
        assert(es2[es2.len() - 1] == es[es.len() - 1]);
    }
}

/// A time heading begins a line with `#` and white space, and the character
/// after that is not `#`; where the text does not end in white space, that
/// character exists.
pub proof fn lemma_header_h1(s: Seq<char>, p: int)
    requires
        digit_class_facts(),
        s.len() > 0,
        !is_ws(s.last()),
        entry_header_at(s, p),
    ensures
        line_start(s, p),
        crate::markdown::h1_shape(s, p),
{
    reveal(entry_header_at);
    lemma_ws_run_bound(s, p + 1);
    assert(is_ws(s[p + 1]));
    assert(p + 2 < s.len()) by {
        if p + 2 >= s.len() {
            assert(s[p + 1] == s.last());
        }
    }
    if ws_run(s, p + 1) == 1 {
        lemma_digit_run_bound(s, p + 2);
        assert(regex_decimal_digit(s[p + 2]));
    } else {
        assert(is_ws(s[p + 2]));
    }
}

/// White space that reaches a line break, then `#`, is a quiet tail.
proof fn lemma_ws_then_hash_quiet(w: Seq<char>, rest: Seq<char>)
    requires
        w.len() > 0,
        forall|k: int| 0 <= k < w.len() ==> is_ws(#[trigger] w[k]),
        w.last() == '\n',
        rest.len() == 0 || rest[0] == '#',
    ensures
        quiet_tail(w + rest),
        rest.len() == 0 ==> quiet_tail(w),
{
    let t = w + rest;
    lemma_ws_prefix_run(w, rest, 0);
    lemma_blank_ws(w, rest, 0);
    assert(t[0] == w[0]);
    if rest.len() > 0 {
        assert(t[w.len() as int] == rest[0]);
    }
    assert(rest.len() == 0 ==> t =~= w);
}

proof fn lemma_ws_prefix_run(w: Seq<char>, rest: Seq<char>, i: int)
    requires
        0 <= i <= w.len(),
        forall|k: int| 0 <= k < w.len() ==> is_ws(#[trigger] w[k]),
        rest.len() == 0 || rest[0] == '#',
    ensures
        ws_run(w + rest, i) == w.len() - i,
    decreases w.len() - i,
{
    if i < w.len() {
        assert((w + rest)[i] == w[i]);
        lemma_ws_prefix_run(w, rest, i + 1);
    } else if rest.len() > 0 {
        assert((w + rest)[i] == rest[0]);
    }
}

proof fn lemma_blank_ws(w: Seq<char>, rest: Seq<char>, i: int)
    requires
        0 <= i < w.len(),
        forall|k: int| 0 <= k < w.len() ==> is_ws(#[trigger] w[k]),
        w.last() == '\n',
    ensures
        blank_to_line_end(w + rest, i),
    decreases w.len() - i,
{
    assert((w + rest)[i] == w[i]);
    if w[i] != '\n' {
        lemma_blank_ws(w, rest, i + 1);
    }
}

/// The text `t[q..]` splits into the entry text that the parser cuts there
/// and a quiet tail.
proof fn lemma_entry_cut(t: Seq<char>, q: int, n: int)
    requires
        digit_class_facts(),
        0 <= q < n <= t.len(),
        t.len() > 0,
        !is_ws(t.last()),
        t[q] == '#',
        n < t.len() ==> t[n] == '#' && t[n - 1] == '\n',
    ensures
        ({
            let r = crate::text::trim_end(t.subrange(q, n));
            &&& 0 < r.len() <= n - q
            &&& !is_ws(r.last())
            &&& r == t.subrange(q, q + r.len())
            &&& quiet_tail(t.subrange(q + r.len(), t.len() as int))
        }),
{
    let u = t.subrange(q, n);
    let r = crate::text::trim_end(u);
    crate::text::lemma_trim_end_prefix(u);
    lemma_trim_end_nonempty(u);
    assert(r =~= t.subrange(q, q + r.len()));
    let w = t.subrange(q + r.len(), n);
    lemma_trim_end_rest_ws(u);
    assert forall|k: int| 0 <= k < w.len() implies is_ws(#[trigger] w[k]) by {
        assert(w[k] == u[r.len() + k]);
    }
    let rest = t.subrange(n, t.len() as int);
    assert(t.subrange(q + r.len(), t.len() as int) =~= w + rest);
    if n < t.len() {
        assert(u.last() == '\n');
        assert(is_ws(u.last()));
        assert(r.len() < u.len()) by {
            if r.len() == u.len() {
                assert(r =~= u);
            }
        }
        assert(w.last() == t[n - 1]);
        assert(rest[0] == t[n]);
        lemma_ws_then_hash_quiet(w, rest);
    } else {
        assert(u.last() == t.last());
        assert(r.len() == u.len()) by {
            assert(!is_ws(u.last()));
        }
        assert(w.len() == 0);
        assert(rest.len() == 0);
        assert(w + rest =~= Seq::<char>::empty());
    }
}

pub proof fn lemma_trim_end_nonempty(u: Seq<char>)
    requires
        u.len() > 0,
        !is_ws(u[0]),
    ensures
        crate::text::trim_end(u).len() > 0,
        !is_ws(crate::text::trim_end(u).last()),
    decreases u.len(),
{
    if is_ws(u.last()) {
        assert(u.len() > 1);
        assert(u.drop_last()[0] == u[0]);
        lemma_trim_end_nonempty(u.drop_last());
    }
}

proof fn lemma_trim_end_rest_ws(u: Seq<char>)
    ensures
        forall|k: int|
            crate::text::trim_end(u).len() <= k < u.len() ==> is_ws(#[trigger] u[k]),
    decreases u.len(),
{
    if u.len() > 0 && is_ws(u.last()) {
        lemma_trim_end_rest_ws(u.drop_last());
        crate::text::lemma_trim_end_prefix(u.drop_last());
        assert forall|k: int|
            crate::text::trim_end(u).len() <= k < u.len() implies is_ws(#[trigger] u[k]) by {
            if k < u.len() - 1 {
                assert(u[k] == u.drop_last()[k]);
            }
        }
    }
}

/// The entry that the parser cuts at a heading of `t` is well-formed.
#[verifier::spinoff_prover]
proof fn lemma_entry_wf_at(t: Seq<char>, q: int)
    requires
        digit_class_facts(),
        t.len() > 0,
        !is_ws(t.last()),
        0 <= q < t.len(),
        entry_header_at(t, q),
    ensures
        wf_entry(
            (
                header_minutes(t, q),
                crate::text::trim_end(
                    t.subrange(q, crate::entries::next_header(t, q + 1)),
                ),
            ),
        ),
{
    let n = crate::entries::next_header(t, q + 1);
    crate::entries::lemma_next_header(t, q + 1);
    lemma_header_hash(t, q);
    if n < t.len() {
        lemma_header_hash(t, n);
        assert(t[n - 1] == '\n') by {
            reveal(entry_header_at);
        }
    }
    lemma_entry_cut(t, q, n);
    let r = crate::text::trim_end(t.subrange(q, n));
    assert(0 < r.len() <= n - q);
    assert(!is_ws(r.last()));
    assert(r == t.subrange(q, q + r.len()));
    let tail = t.subrange(q + r.len(), t.len() as int);
    assert(quiet_tail(tail));
    let a = t.subrange(0, q);
    assert(t =~= a + (r + tail));
    assert(q == 0 || a.last() == '\n') by {
        reveal(entry_header_at);
    }
    lemma_header_suffix(a, r + tail, 0);
    lemma_header_quiet_tail(r, tail, 0);
    assert forall|k: int| 0 < k < r.len() implies !entry_header_at(r, k) by {
        lemma_header_suffix(a, r + tail, k);
        lemma_header_quiet_tail(r, tail, k);
        assert(q + 1 <= q + k < n);
    }
}

/// Every entry that the parser reads from `t` at a heading on is
/// well-formed.
proof fn lemma_entries_from_wf(t: Seq<char>, q: int)
    requires
        digit_class_facts(),
        t.len() > 0,
        !is_ws(t.last()),
        0 <= q,
        q < t.len() ==> entry_header_at(t, q),
    ensures
        forall|i: int|
            0 <= i < crate::entries::entries_from(t, q).len() ==> wf_entry(
                #[trigger] crate::entries::entries_from(t, q)[i],
            ),
    decreases t.len() - q,
{
    if q < t.len() {
        let n = crate::entries::next_header(t, q + 1);
        crate::entries::lemma_next_header(t, q + 1);
        lemma_entry_wf_at(t, q);
        lemma_entries_from_wf(t, n);
        let es = crate::entries::entries_from(t, q);
        let e = (header_minutes(t, q), crate::text::trim_end(t.subrange(q, n)));
        assert(es == seq![e] + crate::entries::entries_from(t, n));
        assert forall|i: int| 0 <= i < es.len() implies wf_entry(#[trigger] es[i]) by {
            if i > 0 {
                assert(es[i] == crate::entries::entries_from(t, n)[i - 1]);
            }
        }
    }
}

pub proof fn lemma_trim_ends(s: Seq<char>)
    ensures
        crate::text::trim(s).len() > 0 ==> !is_ws(crate::text::trim(s)[0]) && !is_ws(
            crate::text::trim(s).last(),
        ),
{
    let a = crate::text::trim_start(s);
    lemma_trim_start_first(s);
    if crate::text::trim(s).len() > 0 {
        lemma_trim_end_nonempty(a);
        crate::text::lemma_trim_end_prefix(a);
        assert(crate::text::trim(s)[0] == a[0]);
    }
}

proof fn lemma_trim_start_first(s: Seq<char>)
    ensures
        crate::text::trim_start(s).len() > 0 ==> !is_ws(crate::text::trim_start(s)[0]),
    decreases s.len(),
{
    if s.len() > 0 && is_ws(s[0]) {
        lemma_trim_start_first(s.drop_first());
    }
}

/// What the parser reads from a body is a well-formed prefix and
/// well-formed entries.
pub proof fn lemma_body_entries_wf(body: Seq<char>)
    requires
        digit_class_facts(),
    ensures
        wf_prefix(crate::entries::body_entries(body).0),
        forall|i: int|
            0 <= i < crate::entries::body_entries(body).1.len() ==> wf_entry(
                #[trigger] crate::entries::body_entries(body).1[i],
            ),
{
    let t = crate::text::trim(body);
    let f = crate::entries::next_header(t, 0);
    crate::entries::lemma_next_header(t, 0);
    lemma_trim_ends(body);
    if f >= t.len() {
        if t.len() > 0 {
            assert forall|k: int| 0 <= k < t.len() implies !entry_header_at(t, k) by {}
        }
    } else {
        lemma_entries_from_wf(t, f);
        let p = crate::text::trim_end(t.subrange(0, f));
        if f > 0 {
            lemma_header_hash(t, f);
            assert(t[f - 1] == '\n') by {
                reveal(entry_header_at);
            }
            if p.len() > 0 {
                crate::text::lemma_trim_end_prefix(t.subrange(0, f));
                lemma_trim_end_rest_ws(t.subrange(0, f));
                assert(p[0] == t[0]);
                lemma_trim_end_nonempty(t.subrange(0, f));
                let w = t.subrange(p.len() as int, f);
                assert forall|k: int| 0 <= k < w.len() implies is_ws(#[trigger] w[k]) by {
                    assert(w[k] == t.subrange(0, f)[p.len() + k]);
                }
                assert(w.len() > 0) by {
                    if w.len() == 0 {
                        assert(p.last() == t[f - 1]);
                    }
                }
                assert(w.last() == t[f - 1]);
                let rest = t.subrange(f, t.len() as int);
                assert(rest[0] == t[f]);
                lemma_ws_then_hash_quiet(w, rest);
                assert(t =~= p + (w + rest));
                assert forall|k: int| 0 <= k < p.len() implies !entry_header_at(p, k) by {
                    lemma_header_quiet_tail(p, w + rest, k);
                    assert(p + (w + rest) == t);
                }
            }
        } else {
            assert(t.subrange(0, 0).len() == 0);
        }
    }
}

} // verus!
