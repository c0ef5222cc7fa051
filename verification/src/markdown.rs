//! Markdown headings inside an entry's content.
//!
//! The diary keeps one level-one heading per entry (`# HH:MM`), so content
//! that brings its own level-one heading has all its headings moved one level
//! down before it is written.
//!
//! Lines start at the beginning of the text and after each `\n`. White space
//! is the Unicode `White_Space` set, and a run of it may cross line breaks.
use vstd::prelude::*;
use crate::text::{is_ws, is_ws_char, str_chars};

verus! {

/// Position `p` begins a line of `s`.
pub open spec fn line_start(s: Seq<char>, p: int) -> bool {
    p == 0 || (0 < p <= s.len() && s[p - 1] == '\n')
}

/// At `q`, `t` holds `#`, one white-space character and a character other
/// than `#`: the shape of a level-one heading when `q` begins a line.
pub open spec fn h1_shape(t: Seq<char>, q: int) -> bool {
    &&& 0 <= q
    &&& q + 2 < t.len()
    &&& t[q] == '#'
    &&& is_ws(t[q + 1])
    &&& t[q + 2] != '#'
}

/// Some line of `s` opens with a level-one heading: `#`, then white space,
/// then a character other than `#`.
pub open spec fn has_h1(s: Seq<char>) -> bool {
    exists|q: int| line_start(s, q) && h1_shape(s, q)
}

/// The number of consecutive `#` in `s` from position `i`.
pub open spec fn hash_run(s: Seq<char>, i: int) -> nat
    decreases s.len() - i,
{
    if 0 <= i < s.len() && s[i] == '#' {
        1 + hash_run(s, i + 1)
    } else {
        0
    }
}

/// The number of consecutive white-space characters in `s` from position `i`.
pub open spec fn ws_run(s: Seq<char>, i: int) -> nat
    decreases s.len() - i,
{
    if 0 <= i < s.len() && is_ws(s[i]) {
        1 + ws_run(s, i + 1)
    } else {
        0
    }
}

/// A heading of level one to five starts at `i`: a line opens with one to
/// five `#` followed by white space.
pub open spec fn heading_at(s: Seq<char>, i: int) -> bool {
    &&& line_start(s, i)
    &&& 1 <= hash_run(s, i) <= 5
    &&& ws_run(s, i + hash_run(s, i)) >= 1
}

/// `n` copies of `#`.
pub open spec fn hashes(n: nat) -> Seq<char> {
    Seq::new(n, |k: int| '#')
}

/// The text of `s` from `i` on, with each heading of level one to five turned
/// into a heading one level deeper: its `#` run gains one `#`, and the white
/// space after it (all of it, line breaks included) becomes one space.
pub open spec fn shift_from(s: Seq<char>, i: int) -> Seq<char>
    decreases s.len() - i,
{
    if i < 0 || i >= s.len() {
        Seq::empty()
    } else if heading_at(s, i) {
        let h = hash_run(s, i);
        let w = ws_run(s, i + h);
        proof {
            lemma_hash_run_bound(s, i);
            lemma_ws_run_bound(s, i + h);
        }
        hashes(h + 1) + seq![' '] + shift_from(s, i + h + w)
    } else {
        seq![s[i]] + shift_from(s, i + 1)
    }
}

/// Every heading of level one to five in `s`, one level deeper.
pub open spec fn shift_headings(s: Seq<char>) -> Seq<char> {
    shift_from(s, 0)
}

/// The content as it is written into an entry, and whether it was changed:
/// content with a level-one heading has its headings shifted, other content
/// stays as it is.
pub open spec fn shifted_content(s: Seq<char>) -> (Seq<char>, bool) {
    if has_h1(s) {
        (shift_headings(s), true)
    } else {
        (s, false)
    }
}

pub proof fn lemma_hash_run_bound(s: Seq<char>, i: int)
    requires
        0 <= i,
    ensures
        i + hash_run(s, i) <= s.len() || hash_run(s, i) == 0,
        forall|k: int| i <= k < i + hash_run(s, i) ==> #[trigger] s[k] == '#',
        i + hash_run(s, i) < s.len() ==> s[i + hash_run(s, i)] != '#',
    decreases s.len() - i,
{
    if 0 <= i < s.len() && s[i] == '#' {
        lemma_hash_run_bound(s, i + 1);
    }
}

pub proof fn lemma_ws_run_bound(s: Seq<char>, i: int)
    requires
        0 <= i,
    ensures
        i + ws_run(s, i) <= s.len() || ws_run(s, i) == 0,
        forall|k: int| i <= k < i + ws_run(s, i) ==> is_ws(#[trigger] s[k]),
        i + ws_run(s, i) < s.len() ==> !is_ws(s[i + ws_run(s, i)]),
    decreases s.len() - i,
{
    if 0 <= i < s.len() && is_ws(s[i]) {
        lemma_ws_run_bound(s, i + 1);
    }
}

/// The number of `#` in `s` from `i`, computed.
pub fn count_hashes(s: &Vec<char>, i: usize) -> (r: usize)
    requires
        i <= s.len(),
    ensures
        r == hash_run(s@, i as int),
        i + r <= s.len(),
{
    let mut j = i;
    while j < s.len() && s[j] == '#'
        invariant
            i <= j <= s.len(),
            hash_run(s@, i as int) == (j - i) + hash_run(s@, j as int),
        decreases s.len() - j,
    {
        j = j + 1;
    }
    j - i
}

/// The number of white-space characters in `s` from `i`, computed.
pub fn count_ws(s: &Vec<char>, i: usize) -> (r: usize)
    requires
        i <= s.len(),
    ensures
        r == ws_run(s@, i as int),
        i + r <= s.len(),
{
    let mut j = i;
    while j < s.len() && is_ws_char(s[j])
        invariant
            i <= j <= s.len(),
            ws_run(s@, i as int) == (j - i) + ws_run(s@, j as int),
        decreases s.len() - j,
    {
        j = j + 1;
    }
    j - i
}

fn is_line_start(s: &Vec<char>, p: usize) -> (r: bool)
    requires
        p <= s.len(),
    ensures
        r == line_start(s@, p as int),
{
    p == 0 || s[p - 1] == '\n'
}

fn heading_len(s: &Vec<char>, i: usize) -> (r: Option<(usize, usize)>)
    requires
        i < s.len(),
    ensures
        r is Some <==> heading_at(s@, i as int),
        r matches Some((h, w)) ==> h == hash_run(s@, i as int) && w == ws_run(
            s@,
            i + hash_run(s@, i as int),
        ) && i + h + w <= s.len(),
{
    if !is_line_start(s, i) {
        return None;
    }
    let h = count_hashes(s, i);
    if h < 1 || h > 5 {
        return None;
    }
    let w = count_ws(s, i + h);
    if w < 1 {
        return None;
    }
    Some((h, w))
}

/// Whether some line of `s` opens with a level-one heading.
pub fn contains_h1(s: &Vec<char>) -> (r: bool)
    ensures
        r == has_h1(s@),
{
    let mut p: usize = 0;
    while p < s.len()
        invariant
            p <= s.len(),
            forall|q: int| 0 <= q < p ==> !(line_start(s@, q) && h1_shape(s@, q)),
        decreases s.len() - p,
    {
        if is_line_start(s, p) && s[p] == '#' && 2 < s.len() - p && is_ws_char(s[p + 1]) && s[p
            + 2] != '#' {
            assert(line_start(s@, p as int) && h1_shape(s@, p as int));
            return true;
        }
        p = p + 1;
    }
    assert forall|q: int| line_start(s@, q) && h1_shape(s@, q) implies false by {
        assert(0 <= q < p);
    }
    false
}

/// `s` with every heading of level one to five moved one level down.
pub fn shift_all_headings(s: &Vec<char>) -> (r: Vec<char>)
    ensures
        r@ == shift_headings(s@),
{
    let mut out: Vec<char> = Vec::new();
    let mut i: usize = 0;
    while i < s.len()
        invariant
            i <= s.len(),
            out@ + shift_from(s@, i as int) == shift_headings(s@),
        decreases s.len() - i,
    {
        let ghost old_out = out@;
        match heading_len(s, i) {
            Some((h, w)) => {
                let mut k: usize = 0;
                while k <= h
                    invariant
                        k <= h + 1,
                        h <= 5,
                        out@ == old_out + hashes(k as nat),
                    decreases h + 1 - k,
                {
                    out.push('#');
                    assert(out@ =~= old_out + hashes((k + 1) as nat));
                    k = k + 1;
                }
                out.push(' ');
                assert(out@ =~= old_out + hashes((h + 1) as nat) + seq![' ']);
                i = i + h + w;
            },
            None => {
                out.push(s[i]);
                i = i + 1;
            },
        }
    }
    assert(out@ + shift_from(s@, i as int) =~= out@);
    out
}

/// The line-start facts of `shift_from(s, i)` that rule out a level-one
/// heading in it.
proof fn lemma_shift_from_no_h1(s: Seq<char>, i: int)
    requires
        0 <= i,
    ensures
        line_start(s, i) ==> !h1_shape(shift_from(s, i), 0),
        forall|q: int|
            0 < q && #[trigger] line_start(shift_from(s, i), q) ==> !h1_shape(
                shift_from(s, i),
                q,
            ),
    decreases s.len() - i,
{
    let t = shift_from(s, i);
    if i >= s.len() {
    } else if heading_at(s, i) {
        let h = hash_run(s, i);
        let w = ws_run(s, i + h);
        lemma_hash_run_bound(s, i);
        lemma_ws_run_bound(s, i + h);
        lemma_shift_from_no_h1(s, i + h + w);
        let p = hashes(h + 1) + seq![' '];
        let rest = shift_from(s, i + h + w);
        assert(t == p + rest);
        assert(t[1] == '#');
        assert forall|q: int| 0 < q && #[trigger] line_start(t, q) implies !h1_shape(t, q) by {
            if q <= h + 2 {
                assert(t[q - 1] == p[q - 1]);
            } else {
                let q2 = q - (h + 2);
                assert(t[q - 1] == rest[q2 - 1]);
                assert(line_start(rest, q2));
                if h1_shape(t, q) {
                    assert(t[q] == rest[q2]);
                    assert(t[q + 1] == rest[q2 + 1]);
                    assert(t[q + 2] == rest[q2 + 2]);
                    assert(h1_shape(rest, q2));
                }
            }
        }
    } else {
        lemma_shift_from_no_h1(s, i + 1);
        let rest = shift_from(s, i + 1);
        assert(t == seq![s[i]] + rest);
        if line_start(s, i) && h1_shape(t, 0) {
            lemma_hash_run_bound(s, i);
            assert(s[i] == '#');
            assert(!line_start(s, i + 1));
            assert(i + 1 < s.len());
            if s[i + 1] == '#' {
                assert(!heading_at(s, i + 1));
                assert(rest[0] == s[i + 1]);
            } else {
                assert(hash_run(s, i + 1) == 0);
                assert(hash_run(s, i) == 1);
                assert(ws_run(s, i + 1) == 0);
                assert(!heading_at(s, i + 1));
                assert(rest[0] == s[i + 1]);
            }
        }
        assert forall|q: int| 0 < q && #[trigger] line_start(t, q) implies !h1_shape(t, q) by {
            let q2 = q - 1;
            assert(t[q - 1] == seq![s[i]][0] || q2 > 0);
            if q2 == 0 {
                assert(t[0] == s[i]);
                assert(s[i] == '\n');
                assert(line_start(s, i + 1));
                if h1_shape(t, q) {
                    assert(t[q] == rest[0]);
                    assert(t[q + 1] == rest[1]);
                    assert(t[q + 2] == rest[2]);
                }
            } else {
                assert(t[q - 1] == rest[q2 - 1]);
                assert(line_start(rest, q2));
                if h1_shape(t, q) {
                    assert(t[q] == rest[q2]);
                    assert(t[q + 1] == rest[q2 + 1]);
                    assert(t[q + 2] == rest[q2 + 2]);
                }
            }
        }
    }
}

/// After the shift, no line opens with a level-one heading.
pub proof fn lemma_shift_leaves_no_h1(s: Seq<char>)
    ensures
        !has_h1(shift_headings(s)),
{
    lemma_shift_from_no_h1(s, 0);
    let t = shift_headings(s);
    assert forall|q: int| line_start(t, q) implies !h1_shape(t, q) by {
        if q == 0 {
            assert(line_start(s, 0));
        }
    }
}

/// The content to write into an entry, and whether its headings were moved:
/// content with a level-one heading has every heading of level one to five
/// moved one level down; other content is returned as it is.
pub fn shift_headings_down_one_if_has_h1(content: &str) -> (r: (String, bool))
    ensures
        (r.0@, r.1) == shifted_content(content@),
{
    let s = str_chars(content);
    if !contains_h1(&s) {
        return (String::from_str(content), false);
    }
    let shifted = shift_all_headings(&s);
    (crate::outside::chars_to_string(&shifted), true)
}

proof fn lemma_hash_run_suffix(a: Seq<char>, b: Seq<char>, i: int)
    requires
        0 <= i,
    ensures
        hash_run(a + b, a.len() + i) == hash_run(b, i),
    decreases b.len() - i,
{
    if i < b.len() {
        assert((a + b)[a.len() + i] == b[i]);
        lemma_hash_run_suffix(a, b, i + 1);
    }
}

/// Counting `#` inside `a` is not changed by what follows, where that does
/// not go on with `#`.
proof fn lemma_hash_run_prefix(a: Seq<char>, b: Seq<char>, i: int)
    requires
        0 <= i <= a.len(),
        b.len() == 0 || b[0] != '#',
    ensures
        hash_run(a + b, i) == hash_run(a, i),
    decreases a.len() - i,
{
    if i < a.len() {
        assert((a + b)[i] == a[i]);
        lemma_hash_run_prefix(a, b, i + 1);
    } else if b.len() > 0 {
        assert((a + b)[i] == b[0]);
    }
}

proof fn lemma_hash_run_hashes(k: nat, i: int)
    requires
        0 <= i <= k,
    ensures
        hash_run(hashes(k), i) == k - i,
    decreases k - i,
{
    if i < k {
        lemma_hash_run_hashes(k, i + 1);
    }
}

/// White space up to the end of `a` and none after it: the run is the rest
/// of `a`.
proof fn lemma_ws_run_upto(a: Seq<char>, b: Seq<char>, i: int)
    requires
        0 <= i <= a.len(),
        forall|k: int| 0 <= k < a.len() ==> is_ws(#[trigger] a[k]),
        b.len() > 0 && !is_ws(b[0]),
    ensures
        ws_run(a + b, i) == a.len() - i,
    decreases a.len() - i,
{
    if i < a.len() {
        assert((a + b)[i] == a[i]);
        lemma_ws_run_upto(a, b, i + 1);
    } else {
        assert((a + b)[i] == b[0]);
    }
}

/// Shifting the text after a line break does not depend on what comes
/// before the line break.
proof fn lemma_shift_suffix(a: Seq<char>, b: Seq<char>, i: int)
    requires
        0 <= i,
        i > 0 || a.len() == 0 || a.last() == '\n',
    ensures
        shift_from(a + b, a.len() + i) == shift_from(b, i),
    decreases b.len() - i,
{
    let s = a + b;
    let p = a.len() + i;
    if i < b.len() {
        assert(s[p] == b[i]);
        if i > 0 {
            assert(s[p - 1] == b[i - 1]);
        } else if a.len() > 0 {
            assert(s[p - 1] == a.last());
        }
        lemma_hash_run_suffix(a, b, i);
        let h = hash_run(b, i);
        crate::readback::lemma_ws_run_suffix(a, b, i + h);
        assert(heading_at(s, p) == heading_at(b, i));
        if heading_at(b, i) {
            lemma_hash_run_bound(b, i);
            lemma_ws_run_bound(b, i + h);
            lemma_shift_suffix(a, b, i + h + ws_run(b, i + h));
        } else {
            lemma_shift_suffix(a, b, i + 1);
        }
    }
}

/// Positions that open no heading are copied as they are.
proof fn lemma_shift_copy(s: Seq<char>, i: int, j: int)
    requires
        0 <= i <= j <= s.len(),
        forall|p: int| i <= p < j ==> !heading_at(s, p),
    ensures
        shift_from(s, i) == s.subrange(i, j) + shift_from(s, j),
    decreases j - i,
{
    if i < j {
        lemma_shift_copy(s, i + 1, j);
        assert(s.subrange(i, j) =~= seq![s[i]] + s.subrange(i + 1, j));
    } else {
        assert(s.subrange(i, j) =~= Seq::<char>::empty());
    }
}

/// A line that does not open with one to five `#` followed by white space
/// (a line break counts) is kept character for character, and the text
/// after it is shifted as if it stood alone. So `#tag`, `######## x` and
/// `text # x` lines are never touched.
pub proof fn law_shift_keeps_plain_line(l: Seq<char>, rest: Seq<char>)
    requires
        forall|k: int| 0 <= k < l.len() ==> l[k] != '\n',
        !(1 <= hash_run(l, 0) <= 5 && (hash_run(l, 0) == l.len() || is_ws(
            l[hash_run(l, 0) as int],
        ))),
    ensures
        shift_headings(l + seq!['\n'] + rest) == l + seq!['\n'] + shift_headings(rest),
{
    let a = l + seq!['\n'];
    let s = a + rest;
    assert(s =~= l + (seq!['\n'] + rest));
    lemma_hash_run_prefix(l, seq!['\n'] + rest, 0);
    lemma_hash_run_bound(l, 0);
    let h = hash_run(l, 0);
    assert forall|p: int| 0 <= p < a.len() implies !heading_at(s, p) by {
        if p == 0 {
            if 1 <= h <= 5 {
                assert(h < l.len());
                assert(s[h as int] == l[h as int]);
                assert(!is_ws(s[h as int]));
            }
        } else if p < l.len() {
            assert(s[p - 1] == l[p - 1]);
        } else {
            assert(s[p] == '\n');
        }
    }
    lemma_shift_copy(s, 0, a.len() as int);
    assert(s.subrange(0, a.len() as int) =~= a);
    lemma_shift_suffix(a, rest, 0);
}

/// A text that is one line and does not open with one to five `#` followed
/// by white space is kept as it is.
pub proof fn law_shift_keeps_plain_last_line(l: Seq<char>)
    requires
        forall|k: int| 0 <= k < l.len() ==> l[k] != '\n',
        !(1 <= hash_run(l, 0) <= 5 && hash_run(l, 0) < l.len() && is_ws(l[hash_run(l, 0) as int])),
    ensures
        shift_headings(l) == l,
{
    lemma_hash_run_bound(l, 0);
    assert forall|p: int| 0 <= p < l.len() implies !heading_at(l, p) by {
        if p > 0 {
            assert(l[p - 1] != '\n');
        } else {
            lemma_ws_run_bound(l, hash_run(l, 0) as int);
        }
    }
    lemma_shift_copy(l, 0, l.len() as int);
    assert(l.subrange(0, l.len() as int) =~= l);
}

/// A heading line of one to five `#`, white space within the line and a
/// title becomes one level deeper: one more `#`, a single space, the title
/// as it was; the text after it is shifted as if it stood alone.
pub proof fn law_shift_heading_line(k: nat, w: Seq<char>, l: Seq<char>, rest: Seq<char>)
    requires
        1 <= k <= 5,
        w.len() > 0,
        forall|j: int| 0 <= j < w.len() ==> is_ws(#[trigger] w[j]) && w[j] != '\n',
        l.len() > 0,
        !is_ws(l[0]),
        forall|j: int| 0 <= j < l.len() ==> l[j] != '\n',
    ensures
        shift_headings(hashes(k) + w + l + seq!['\n'] + rest) == hashes((k + 1) as nat) + seq![' '] + l
            + seq!['\n'] + shift_headings(rest),
{
    let hk = hashes(k);
    let a = hk + w + l + seq!['\n'];
    let s = a + rest;
    let x = w + (l + seq!['\n'] + rest);
    assert(s =~= hk + x);
    assert(x[0] == w[0]);
    assert(w[0] != '#');
    lemma_hash_run_prefix(hk, x, 0);
    lemma_hash_run_hashes(k, 0);
    crate::readback::lemma_ws_run_suffix(hk, x, 0);
    assert(x =~= w + (l + seq!['\n'] + rest));
    assert((l + seq!['\n'] + rest)[0] == l[0]);
    lemma_ws_run_upto(w, l + seq!['\n'] + rest, 0);
    assert(heading_at(s, 0));
    let q = (k + w.len()) as int;
    assert(shift_from(s, 0) == hashes((k + 1) as nat) + seq![' '] + shift_from(s, q));
    assert forall|p: int| q <= p < a.len() implies !heading_at(s, p) by {
        if p == q {
            assert(s[p - 1] == w.last());
        } else if p < a.len() - 1 {
            assert(s[p - 1] == l[p - 1 - q]);
        } else {
            assert(s[p] == '\n');
        }
    }
    lemma_shift_copy(s, q, a.len() as int);
    assert(s.subrange(q, a.len() as int) =~= l + seq!['\n']);
    lemma_shift_suffix(a, rest, 0);
    assert(shift_headings(s) =~= hashes((k + 1) as nat) + seq![' '] + l + seq!['\n'] + shift_headings(rest));
}

/// A last line that is a heading of one to five `#`, white space within
/// the line and a title becomes one level deeper: one more `#`, a single
/// space, the title as it was.
pub proof fn law_shift_heading_last_line(k: nat, w: Seq<char>, l: Seq<char>)
    requires
        1 <= k <= 5,
        w.len() > 0,
        forall|j: int| 0 <= j < w.len() ==> is_ws(#[trigger] w[j]) && w[j] != '\n',
        l.len() > 0,
        !is_ws(l[0]),
        forall|j: int| 0 <= j < l.len() ==> l[j] != '\n',
    ensures
        shift_headings(hashes(k) + w + l) == hashes((k + 1) as nat) + seq![' '] + l,
{
    let hk = hashes(k);
    let s = hk + w + l;
    let x = w + l;
    assert(s =~= hk + x);
    assert(x[0] == w[0]);
    lemma_hash_run_prefix(hk, x, 0);
    lemma_hash_run_hashes(k, 0);
    crate::readback::lemma_ws_run_suffix(hk, x, 0);
    lemma_ws_run_upto(w, l, 0);
    assert(heading_at(s, 0));
    let q = (k + w.len()) as int;
    assert(shift_from(s, 0) == hashes((k + 1) as nat) + seq![' '] + shift_from(s, q));
    assert forall|p: int| q <= p < s.len() implies !heading_at(s, p) by {
        if p == q {
            assert(s[p - 1] == w.last());
        } else {
            assert(s[p - 1] == l[p - 1 - q]);
        }
    }
    lemma_shift_copy(s, q, s.len() as int);
    assert(s.subrange(q, s.len() as int) =~= l);
    assert(shift_from(s, s.len() as int) =~= Seq::<char>::empty());
    assert(shift_headings(s) =~= hashes((k + 1) as nat) + seq![' '] + l);
}

/// Content in which no line opens with `#`, a white-space character and a
/// character other than `#` is written as it is, and marked unchanged.
pub proof fn law_content_without_h1_kept(s: Seq<char>)
    requires
        forall|q: int|
            0 <= q && q + 2 < s.len() && (q == 0 || s[q - 1] == '\n') && s[q] == '#' && is_ws(
                #[trigger] s[q + 1],
            ) ==> s[q + 2] == '#',
    ensures
        shifted_content(s) == (s, false),
{
    if has_h1(s) {
        let q = choose|q: int| line_start(s, q) && h1_shape(s, q);
        assert(is_ws(s[q + 1]));
    }
}

/// Content in which some line opens with `#`, a white-space character and a
/// character other than `#` has its headings shifted, and is marked
/// changed; afterwards no line opens a level-one heading.
pub proof fn law_content_with_h1_shifted(s: Seq<char>, q: int)
    requires
        0 <= q,
        q + 2 < s.len(),
        q == 0 || s[q - 1] == '\n',
        s[q] == '#',
        is_ws(s[q + 1]),
        s[q + 2] != '#',
    ensures
        shifted_content(s) == (shift_headings(s), true),
        !has_h1(shifted_content(s).0),
{
    assert(line_start(s, q) && h1_shape(s, q));
    lemma_shift_leaves_no_h1(s);
}

} // verus!
