//! Ordering entries by their time, stably: entries with equal times keep the
//! order they had.
use vstd::prelude::*;
use crate::entries::{EntrySection, entries_view};

verus! {

/// The entries of `s` whose time is `k`, in their order.
pub open spec fn with_time(s: Seq<(int, Seq<char>)>, k: int) -> Seq<(int, Seq<char>)>
    decreases s.len(),
{
    if s.len() == 0 {
        s
    } else if s.last().0 == k {
        with_time(s.drop_last(), k).push(s.last())
    } else {
        with_time(s.drop_last(), k)
    }
}

/// The entries of `s` whose time is not `k`, in their order.
pub open spec fn without_time(s: Seq<(int, Seq<char>)>, k: int) -> Seq<(int, Seq<char>)>
    decreases s.len(),
{
    if s.len() == 0 {
        s
    } else if s.last().0 != k {
        without_time(s.drop_last(), k).push(s.last())
    } else {
        without_time(s.drop_last(), k)
    }
}

/// The earliest time in a nonempty `s`.
pub open spec fn earliest(s: Seq<(int, Seq<char>)>) -> int
    decreases s.len(),
{
    if s.len() <= 1 {
        s[0].0
    } else {
        let m = earliest(s.drop_last());
        if s.last().0 < m {
            s.last().0
        } else {
            m
        }
    }
}

/// `s` ordered by time, stably: first every entry with the earliest time, in
/// the order they had, then the other entries ordered the same way.
pub open spec fn sort_by_time(s: Seq<(int, Seq<char>)>) -> Seq<(int, Seq<char>)>
    decreases s.len(),
{
    if s.len() == 0 {
        s
    } else {
        let k = earliest(s);
        proof {
            lemma_earliest(s);
            lemma_split_len(s, k);
        }
        with_time(s, k) + sort_by_time(without_time(s, k))
    }
}

/// The times of `s` never decrease.
pub open spec fn time_ordered(s: Seq<(int, Seq<char>)>) -> bool {
    forall|i: int, j: int| 0 <= i <= j < s.len() ==> s[i].0 <= s[j].0
}

/// Every time in `s` is at least `lo`.
pub open spec fn times_at_least(s: Seq<(int, Seq<char>)>, lo: int) -> bool {
    forall|i: int| 0 <= i < s.len() ==> lo <= #[trigger] s[i].0
}

pub proof fn lemma_earliest(s: Seq<(int, Seq<char>)>)
    requires
        s.len() > 0,
    ensures
        times_at_least(s, earliest(s)),
        exists|i: int| 0 <= i < s.len() && #[trigger] s[i].0 == earliest(s),
    decreases s.len(),
{
    if s.len() > 1 {
        let t = s.drop_last();
        lemma_earliest(t);
        let i0 = choose|i: int| 0 <= i < t.len() && #[trigger] t[i].0 == earliest(t);
        assert(s[i0] == t[i0]);
        assert forall|i: int| 0 <= i < s.len() implies earliest(s) <= #[trigger] s[i].0 by {
            if i < t.len() {
                assert(s[i] == t[i]);
            }
        }
        if s.last().0 < earliest(t) {
            assert(s[s.len() - 1].0 == earliest(s));
        } else {
            assert(s[i0].0 == earliest(s));
        }
    } else {
        assert(s[0].0 == earliest(s));
    }
}

pub proof fn lemma_split_len(s: Seq<(int, Seq<char>)>, k: int)
    ensures
        with_time(s, k).len() + without_time(s, k).len() == s.len(),
        (exists|i: int| 0 <= i < s.len() && #[trigger] s[i].0 == k) ==> without_time(s, k).len()
            < s.len(),
    decreases s.len(),
{
    if s.len() > 0 {
        let t = s.drop_last();
        lemma_split_len(t, k);
        if exists|i: int| 0 <= i < s.len() && #[trigger] s[i].0 == k {
            let i = choose|i: int| 0 <= i < s.len() && #[trigger] s[i].0 == k;
            if i < t.len() {
                assert(t[i] == s[i]);
            }
        }
    }
}

pub proof fn lemma_with_time_add(a: Seq<(int, Seq<char>)>, b: Seq<(int, Seq<char>)>, k: int)
    ensures
        with_time(a + b, k) == with_time(a, k) + with_time(b, k),
        without_time(a + b, k) == without_time(a, k) + without_time(b, k),
    decreases b.len(),
{
    if b.len() == 0 {
        assert(a + b =~= a);
        assert(with_time(a, k) + with_time(b, k) =~= with_time(a, k));
        assert(without_time(a, k) + without_time(b, k) =~= without_time(a, k));
    } else {
        assert((a + b).drop_last() =~= a + b.drop_last());
        assert((a + b).last() == b.last());
        lemma_with_time_add(a, b.drop_last(), k);
        assert(with_time(a, k) + with_time(b.drop_last(), k).push(b.last()) =~= (with_time(a, k)
            + with_time(b.drop_last(), k)).push(b.last()));
        assert(without_time(a, k) + without_time(b.drop_last(), k).push(b.last()) =~= (
        without_time(a, k) + without_time(b.drop_last(), k)).push(b.last()));
    }
}

/// Selecting a time from a selection.
pub proof fn lemma_with_time_twice(s: Seq<(int, Seq<char>)>, k: int, k2: int)
    ensures
        with_time(with_time(s, k), k2) == if k == k2 {
            with_time(s, k)
        } else {
            Seq::<(int, Seq<char>)>::empty()
        },
        with_time(without_time(s, k), k2) == if k == k2 {
            Seq::<(int, Seq<char>)>::empty()
        } else {
            with_time(s, k2)
        },
    decreases s.len(),
{
    if s.len() > 0 {
        lemma_with_time_twice(s.drop_last(), k, k2);
        let t = s.drop_last();
        if s.last().0 == k {
            assert(with_time(s, k).drop_last() =~= with_time(t, k));
            assert(without_time(s, k) == without_time(t, k));
        } else {
            assert(with_time(s, k) == with_time(t, k));
            assert(without_time(s, k).drop_last() =~= without_time(t, k));
        }
    }
}

/// The sort keeps, for each time, exactly the entries of that time in their
/// order; and it puts no entry before one with an earlier time.
pub proof fn lemma_sort_by_time(s: Seq<(int, Seq<char>)>)
    ensures
        time_ordered(sort_by_time(s)),
        forall|k: int| #[trigger] with_time(sort_by_time(s), k) == with_time(s, k),
        forall|lo: int| times_at_least(s, lo) ==> times_at_least(sort_by_time(s), lo),
        sort_by_time(s).len() == s.len(),
    decreases s.len(),
{
    if s.len() > 0 {
        let k = earliest(s);
        lemma_earliest(s);
        lemma_split_len(s, k);
        let a = with_time(s, k);
        let rest = without_time(s, k);
        lemma_sort_by_time(rest);
        let b = sort_by_time(rest);
        let out = a + b;
        assert(sort_by_time(s) == out);
        lemma_times_of_selection(s, k);
        assert(times_at_least(b, k)) by {
            assert(times_at_least(rest, k));
        }
        assert forall|i: int, j: int| 0 <= i <= j < out.len() implies out[i].0 <= out[j].0 by {
            if i < a.len() {
                assert(out[i] == a[i]);
                if j < a.len() {
                    assert(out[j] == a[j]);
                } else {
                    assert(out[j] == b[j - a.len()]);
                }
            } else {
                assert(out[i] == b[i - a.len()]);
                assert(out[j] == b[j - a.len()]);
            }
        }
        assert forall|k2: int| #[trigger] with_time(out, k2) == with_time(s, k2) by {
            lemma_with_time_add(a, b, k2);
            lemma_with_time_twice(s, k, k2);
            assert(with_time(b, k2) == with_time(rest, k2));
            if k == k2 {
                assert(with_time(a, k2) + Seq::<(int, Seq<char>)>::empty() =~= with_time(a, k2));
            } else {
                assert(Seq::<(int, Seq<char>)>::empty() + with_time(s, k2) =~= with_time(s, k2));
            }
        }
        assert forall|lo: int| times_at_least(s, lo) implies times_at_least(out, lo) by {
            assert(times_at_least(rest, lo));
            assert forall|i: int| 0 <= i < out.len() implies lo <= #[trigger] out[i].0 by {
                if i < a.len() {
                    assert(out[i] == a[i]);
                } else {
                    assert(out[i] == b[i - a.len()]);
                }
            }
        }
    }
}

/// Each entry picked out of `s`, with time `k` or without it, is an entry
/// of `s`.
proof fn lemma_selection_members(s: Seq<(int, Seq<char>)>, k: int)
    ensures
        forall|i: int| 0 <= i < with_time(s, k).len() ==> s.contains(#[trigger] with_time(s, k)[i]),
        forall|i: int|
            0 <= i < without_time(s, k).len() ==> s.contains(#[trigger] without_time(s, k)[i]),
    decreases s.len(),
{
    if s.len() > 0 {
        let t = s.drop_last();
        lemma_selection_members(t, k);
        assert(s.contains(s.last())) by {
            assert(s[s.len() - 1] == s.last());
        }
        assert forall|x: (int, Seq<char>)| t.contains(x) implies s.contains(x) by {
            let j = choose|j: int| 0 <= j < t.len() && t[j] == x;
            assert(s[j] == x);
        }
        let a = with_time(s, k);
        let b = without_time(s, k);
        assert forall|i: int| 0 <= i < a.len() implies s.contains(#[trigger] a[i]) by {
            if s.last().0 == k && i == a.len() - 1 {
            } else {
                assert(a[i] == with_time(t, k)[i]);
            }
        }
        assert forall|i: int| 0 <= i < b.len() implies s.contains(#[trigger] b[i]) by {
            if s.last().0 != k && i == b.len() - 1 {
            } else {
                assert(b[i] == without_time(t, k)[i]);
            }
        }
    }
}

/// Every entry that the sort gives back is an entry of its input.
pub proof fn lemma_sort_members(s: Seq<(int, Seq<char>)>)
    ensures
        forall|i: int| 0 <= i < sort_by_time(s).len() ==> s.contains(#[trigger] sort_by_time(s)[i]),
    decreases s.len(),
{
    if s.len() > 0 {
        let k = earliest(s);
        lemma_earliest(s);
        lemma_split_len(s, k);
        let a = with_time(s, k);
        let rest = without_time(s, k);
        lemma_sort_members(rest);
        lemma_selection_members(s, k);
        let out = sort_by_time(s);
        assert(out == a + sort_by_time(rest));
        assert forall|i: int| 0 <= i < out.len() implies s.contains(#[trigger] out[i]) by {
            if i < a.len() {
                assert(out[i] == a[i]);
            } else {
                let x = out[i];
                assert(x == sort_by_time(rest)[i - a.len()]);
                assert(rest.contains(x));
                let j = choose|j: int| 0 <= j < rest.len() && rest[j] == x;
                assert(s.contains(rest[j]));
            }
        }
    }
}

/// The entries selected with time `k` have time `k`; those left out keep the
/// lower bounds of `s`.
pub proof fn lemma_times_of_selection(s: Seq<(int, Seq<char>)>, k: int)
    ensures
        forall|i: int| 0 <= i < with_time(s, k).len() ==> #[trigger] with_time(s, k)[i].0 == k,
        forall|lo: int| times_at_least(s, lo) ==> times_at_least(without_time(s, k), lo),
    decreases s.len(),
{
    if s.len() > 0 {
        let t = s.drop_last();
        lemma_times_of_selection(t, k);
        assert forall|i: int| 0 <= i < with_time(s, k).len() implies #[trigger] with_time(
            s,
            k,
        )[i].0 == k by {
            if s.last().0 == k && i < with_time(t, k).len() {
                assert(with_time(s, k)[i] == with_time(t, k)[i]);
            }
        }
        assert forall|lo: int| times_at_least(s, lo) implies times_at_least(
            without_time(s, k),
            lo,
        ) by {
            assert(times_at_least(t, lo)) by {
                assert forall|i: int| 0 <= i < t.len() implies lo <= #[trigger] t[i].0 by {
                    assert(t[i] == s[i]);
                }
            }
            let w = without_time(s, k);
            assert forall|i: int| 0 <= i < w.len() implies lo <= #[trigger] w[i].0 by {
                if s.last().0 != k && i < without_time(t, k).len() {
                    assert(w[i] == without_time(t, k)[i]);
                }
                if s.last().0 != k && i == without_time(t, k).len() {
                    assert(w[i] == s[s.len() - 1]);
                }
            }
        }
    }
}

/// A sequence already ordered by time splits into the entries of its
/// earliest time followed by the rest.
proof fn lemma_ordered_split(s: Seq<(int, Seq<char>)>)
    requires
        s.len() > 0,
        time_ordered(s),
    ensures
        earliest(s) == s[0].0,
        s == with_time(s, s[0].0) + without_time(s, s[0].0),
    decreases s.len(),
{
    let k = s[0].0;
    let t = s.drop_last();
    if s.len() == 1 {
        assert(t.len() == 0);
        assert(with_time(t, k) == t);
        assert(without_time(t, k) == t);
        assert(with_time(s, k) =~= s);
        assert(without_time(s, k).len() == 0);
        assert(s =~= with_time(s, k) + without_time(s, k));
    } else {
        assert(time_ordered(t)) by {
            assert forall|i: int, j: int| 0 <= i <= j < t.len() implies t[i].0 <= t[j].0 by {
                assert(t[i] == s[i] && t[j] == s[j]);
            }
        }
        lemma_ordered_split(t);
        assert(t[0] == s[0]);
        assert(s[0].0 <= s[s.len() - 1].0);
        if s.last().0 == k {
            assert(without_time(t, k).len() == 0) by {
                lemma_split_len(t, k);
                if without_time(t, k).len() > 0 {
                    lemma_times_of_selection(t, k);
                    let w = without_time(t, k);
                    // every entry of t has time k: it lies between s[0] and s.last()
                    assert forall|i: int| 0 <= i < t.len() implies t[i].0 == k by {
                        assert(t[i] == s[i]);
                        assert(s[0].0 <= s[i].0 <= s[s.len() - 1].0);
                    }
                    lemma_all_same_time(t, k);
                }
            }
            assert(with_time(s, k) == with_time(t, k).push(s.last()));
            assert(without_time(s, k) == without_time(t, k));
            assert(t =~= with_time(t, k));
            assert(s =~= t.push(s.last()));
            assert(s =~= with_time(s, k) + without_time(s, k));
        } else {
            assert(with_time(s, k) == with_time(t, k));
            assert(without_time(s, k) == without_time(t, k).push(s.last()));
            assert(s =~= t.push(s.last()));
            assert(s =~= with_time(s, k) + without_time(s, k));
        }
    }
}

/// Where every entry has time `k`, none is left out by selecting `k`.
proof fn lemma_all_same_time(s: Seq<(int, Seq<char>)>, k: int)
    requires
        forall|i: int| 0 <= i < s.len() ==> s[i].0 == k,
    ensures
        without_time(s, k).len() == 0,
    decreases s.len(),
{
    if s.len() > 0 {
        let t = s.drop_last();
        assert forall|i: int| 0 <= i < t.len() implies t[i].0 == k by {
            assert(t[i] == s[i]);
        }
        lemma_all_same_time(t, k);
    }
}

/// Sorting entries that are already in time order leaves them as they are.
pub proof fn lemma_sort_ordered_is_identity(s: Seq<(int, Seq<char>)>)
    requires
        time_ordered(s),
    ensures
        sort_by_time(s) == s,
    decreases s.len(),
{
    if s.len() > 0 {
        lemma_ordered_split(s);
        let k = s[0].0;
        let a = with_time(s, k);
        let rest = without_time(s, k);
        assert(rest =~= s.subrange(a.len() as int, s.len() as int));
        assert(time_ordered(rest)) by {
            assert forall|i: int, j: int| 0 <= i <= j < rest.len() implies rest[i].0
                <= rest[j].0 by {
                assert(rest[i] == s[i + a.len()]);
                assert(rest[j] == s[j + a.len()]);
            }
        }
        lemma_split_len(s, k);
        lemma_sort_ordered_is_identity(rest);
    }
}

/// A copy of an entry.
pub fn copy_entry(e: &EntrySection) -> (r: EntrySection)
    ensures
        r@ == e@,
{
    EntrySection { time_minutes: e.time_minutes, raw: e.raw.clone() }
}

fn earliest_time(v: &Vec<EntrySection>) -> (r: i32)
    requires
        v.len() > 0,
    ensures
        r == earliest(entries_view(v@)),
{
    let ghost s = entries_view(v@);
    let mut m = v[0].time_minutes;
    let mut i: usize = 1;
    assert(s.subrange(0, 1).drop_last().len() == 0);
    while i < v.len()
        invariant
            1 <= i <= v.len(),
            s == entries_view(v@),
            m == earliest(s.subrange(0, i as int)),
        decreases v.len() - i,
    {
        let ghost p = s.subrange(0, i + 1);
        assert(p.drop_last() =~= s.subrange(0, i as int));
        if v[i].time_minutes < m {
            m = v[i].time_minutes;
        }
        i = i + 1;
    }
    assert(s.subrange(0, v.len() as int) =~= s);
    m
}

/// Entries in time order, stably.
pub fn sort_entries_by_time(v: Vec<EntrySection>) -> (r: Vec<EntrySection>)
    ensures
        entries_view(r@) == sort_by_time(entries_view(v@)),
{
    let mut out: Vec<EntrySection> = Vec::new();
    let mut rem = v;
    while rem.len() > 0
        invariant
            entries_view(out@) + sort_by_time(entries_view(rem@)) == sort_by_time(
                entries_view(v@),
            ),
        decreases rem.len(),
    {
        let ghost s = entries_view(rem@);
        let k = earliest_time(&rem);
        let mut keep: Vec<EntrySection> = Vec::new();
        let mut other: Vec<EntrySection> = Vec::new();
        let mut i: usize = 0;
        while i < rem.len()
            invariant
                i <= rem.len(),
                s == entries_view(rem@),
                entries_view(keep@) == with_time(s.subrange(0, i as int), k as int),
                entries_view(other@) == without_time(s.subrange(0, i as int), k as int),
            decreases rem.len() - i,
        {
            let ghost p = s.subrange(0, i + 1);
            assert(p.drop_last() =~= s.subrange(0, i as int));
            let e = copy_entry(&rem[i]);
            if e.time_minutes == k {
                keep.push(e);
                assert(entries_view(keep@) =~= with_time(p, k as int));
            } else {
                other.push(e);
                assert(entries_view(other@) =~= without_time(p, k as int));
            }
            i = i + 1;
        }
        assert(s.subrange(0, rem.len() as int) =~= s);
        proof {
            lemma_earliest(s);
            lemma_split_len(s, k as int);
            assert(entries_view(out@) + entries_view(keep@) + sort_by_time(entries_view(other@))
                =~= entries_view(out@) + sort_by_time(s));
        }
        let ghost old_out = out@;
        let mut j: usize = 0;
        while j < keep.len()
            invariant
                j <= keep.len(),
                entries_view(out@) == entries_view(old_out) + entries_view(keep@).subrange(
                    0,
                    j as int,
                ),
            decreases keep.len() - j,
        {
            let ghost prev = out@;
            out.push(copy_entry(&keep[j]));
            assert(out@ == prev.push(out@[prev.len() as int]));
            assert(entries_view(out@) =~= entries_view(prev).push(entries_view(keep@)[j as int]));
            assert(entries_view(out@) =~= entries_view(old_out) + entries_view(keep@).subrange(
                0,
                j + 1,
            ));
            j = j + 1;
        }
        assert(entries_view(keep@).subrange(0, keep.len() as int) =~= entries_view(keep@));
        rem = other;
    }
    assert(entries_view(out@) + sort_by_time(entries_view(rem@)) =~= entries_view(out@));
    out
}

} // verus!
