//! Numbers, times and dates as the diary writes them.
use vstd::prelude::*;
use crate::error::DiaryError;
use crate::text::{trim, find_char, parse_i32, is_ascii_digit, all_ascii_digits, digits_value};

verus! {

/// The ASCII digit for `d` below ten.
pub open spec fn digit(d: nat) -> char {
    if d == 0 {
        '0'
    } else if d == 1 {
        '1'
    } else if d == 2 {
        '2'
    } else if d == 3 {
        '3'
    } else if d == 4 {
        '4'
    } else if d == 5 {
        '5'
    } else if d == 6 {
        '6'
    } else if d == 7 {
        '7'
    } else if d == 8 {
        '8'
    } else {
        '9'
    }
}

/// `n` in base ten, without leading zeros.
pub open spec fn decimal(n: nat) -> Seq<char>
    decreases n,
{
    if n < 10 {
        seq![digit(n)]
    } else {
        decimal(n / 10) + seq![digit(n % 10)]
    }
}

/// An integer as `Display` writes it: a `-` before negative numbers.
pub open spec fn decimal_signed(v: int) -> Seq<char> {
    if v < 0 {
        seq!['-'] + decimal((-v) as nat)
    } else {
        decimal(v as nat)
    }
}

/// `s` with `0` in front up to `width` characters.
pub open spec fn zero_padded(s: Seq<char>, width: nat) -> Seq<char> {
    if s.len() >= width {
        s
    } else {
        Seq::new((width - s.len()) as nat, |k: int| '0') + s
    }
}

/// A time as `HH:MM`, each part zero-padded to two digits.
pub open spec fn time_text(hour: nat, minute: nat) -> Seq<char> {
    zero_padded(decimal(hour), 2) + seq![':'] + zero_padded(decimal(minute), 2)
}

/// A date as chrono writes `%Y-%m-%d`: the year zero-padded to four digits,
/// with a sign in front where it is below zero or above 9999; month and day
/// zero-padded to two digits.
pub open spec fn iso_date(year: int, month: nat, day: nat) -> Seq<char> {
    year_text(year) + seq!['-'] + zero_padded(decimal(month), 2) + seq!['-'] + zero_padded(decimal(day), 2)
}

/// A year as chrono's `%Y` writes it: zero-padded to four digits, with a
/// sign in front where it is below zero or above 9999.
pub open spec fn year_text(year: int) -> Seq<char> {
    if 0 <= year <= 9999 {
        zero_padded(decimal(year as nat), 4)
    } else if year < 0 {
        seq!['-'] + zero_padded(decimal((-year) as nat), 4)
    } else {
        seq!['+'] + zero_padded(decimal(year as nat), 4)
    }
}

/// A time of day `HH:MM` as the diary reads it: the text is trimmed and must
/// hold exactly one `:`; the parts before and after it must parse as `i32`
/// (the hour checked first); then the hour must be in 0..=23 and the minute
/// in 0..=59.
pub open spec fn parse_time(time: Seq<char>) -> Result<(int, int), DiaryError> {
    let t = trim(time);
    let k = find_char(t, ':', 0);
    if k >= t.len() || find_char(t, ':', k + 1) < t.len() {
        Err(DiaryError::TimeFormat)
    } else {
        match parse_i32(t.subrange(0, k)) {
            None => Err(DiaryError::HourInvalid),
            Some(h) => match parse_i32(t.subrange(k + 1, t.len() as int)) {
                None => Err(DiaryError::MinuteInvalid),
                Some(m) => if 0 <= h <= 23 && 0 <= m <= 59 {
                    Ok((h, m))
                } else {
                    Err(DiaryError::TimeOutOfRange)
                },
            },
        }
    }
}

fn digit_char(d: u64) -> (r: char)
    requires
        d < 10,
    ensures
        r == digit(d as nat),
{
    if d == 0 {
        '0'
    } else if d == 1 {
        '1'
    } else if d == 2 {
        '2'
    } else if d == 3 {
        '3'
    } else if d == 4 {
        '4'
    } else if d == 5 {
        '5'
    } else if d == 6 {
        '6'
    } else if d == 7 {
        '7'
    } else if d == 8 {
        '8'
    } else {
        '9'
    }
}

/// Appends `n` in base ten.
pub fn push_decimal(out: &mut Vec<char>, n: u64)
    ensures
        final(out)@ == old(out)@ + decimal(n as nat),
    decreases n,
{
    if n >= 10 {
        push_decimal(out, n / 10);
    }
    out.push(digit_char(n % 10));
    if n >= 10 {
        assert(final(out)@ =~= old(out)@ + decimal(n as nat));
    } else {
        assert(final(out)@ =~= old(out)@ + decimal(n as nat));
    }
}

/// Appends `n` in base ten, zero-padded to `width` digits.
pub fn push_padded(out: &mut Vec<char>, n: u64, width: usize)
    ensures
        final(out)@ == old(out)@ + zero_padded(decimal(n as nat), width as nat),
{
    let mut digits: Vec<char> = Vec::new();
    push_decimal(&mut digits, n);
    assert(digits@ =~= decimal(n as nat));
    let ghost start = out@;
    if digits.len() < width {
        let mut k: usize = 0;
        while k < width - digits.len()
            invariant
                digits.len() < width,
                k <= width - digits.len(),
                out@ == start + Seq::new(k as nat, |i: int| '0'),
            decreases width - digits.len() - k,
        {
            out.push('0');
            assert(out@ =~= start + Seq::new((k + 1) as nat, |i: int| '0'));
            k = k + 1;
        }
    }
    let ghost mid = out@;
    crate::text::push_all(out, &digits);
    assert(out@ =~= start + zero_padded(decimal(n as nat), width as nat));
}

/// `HH:MM` for a valid time.
pub fn format_time(hour: i32, minute: i32) -> (r: String)
    requires
        0 <= hour <= 23,
        0 <= minute <= 59,
    ensures
        r@ == time_text(hour as nat, minute as nat),
{
    let mut out: Vec<char> = Vec::new();
    push_padded(&mut out, hour as u64, 2);
    out.push(':');
    push_padded(&mut out, minute as u64, 2);
    assert(out@ =~= time_text(hour as nat, minute as nat));
    crate::outside::chars_to_string(&out)
}

/// Reads a time of day `HH:MM` as `parse_time` states.
pub fn parse_time_of_day(time: &str) -> (r: Result<(i32, i32), DiaryError>)
    ensures
        match parse_time(time@) {
            Ok((h, m)) => r == Ok::<(i32, i32), DiaryError>((h as i32, m as i32)),
            Err(e) => r == Err::<(i32, i32), DiaryError>(e),
        },
{
    let s = crate::text::str_chars(time);
    let (a, b) = crate::text::trim_bounds(&s, 0, s.len());
    assert(s@.subrange(0, s.len() as int) =~= s@);
    let t = crate::text::sub_vec(&s, a, b);
    assert(t@.subrange(0, t.len() as int) =~= t@);
    let k = crate::text::find_char_in(&t, ':', 0, t.len());
    if k >= t.len() {
        return Err(DiaryError::TimeFormat);
    }
    let k2 = crate::text::find_char_in(&t, ':', k + 1, t.len());
    if k2 < t.len() {
        return Err(DiaryError::TimeFormat);
    }
    let h = match crate::text::parse_i32_in(&t, 0, k) {
        None => {
            return Err(DiaryError::HourInvalid);
        },
        Some(h) => h,
    };
    let m = match crate::text::parse_i32_in(&t, k + 1, t.len()) {
        None => {
            return Err(DiaryError::MinuteInvalid);
        },
        Some(m) => m,
    };
    if 0 <= h && h <= 23 && 0 <= m && m <= 59 {
        Ok((h, m))
    } else {
        Err(DiaryError::TimeOutOfRange)
    }
}

/// A two-digit number written with `zero_padded` reads back as itself.
pub proof fn lemma_two_digits_parse(n: nat)
    requires
        n < 100,
    ensures
        zero_padded(decimal(n), 2).len() == 2,
        all_ascii_digits(zero_padded(decimal(n), 2)),
        parse_i32(zero_padded(decimal(n), 2)) == Some(n as int),
        forall|k: int| 0 <= k < 2 ==> #[trigger] zero_padded(decimal(n), 2)[k] != ':',
{
    let s = zero_padded(decimal(n), 2);
    reveal_with_fuel(decimal, 2);
    reveal_with_fuel(digits_value, 3);
    let a = n / 10;
    let b = n % 10;
    if n < 10 {
        assert(decimal(n) == seq![digit(n)]);
        assert(s =~= seq!['0', digit(n)]);
    } else {
        assert(decimal(n / 10) == seq![digit(n / 10)]);
        assert(s =~= seq![digit(a), digit(b)]);
    }
    assert(s =~= seq![digit(a), digit(b)]);
    assert(is_ascii_digit(digit(a)) && is_ascii_digit(digit(b)));
    assert(s.drop_last() =~= seq![digit(a)]);
    assert(s.drop_last().drop_last().len() == 0);
    assert((digit(a) as u32) - 0x30 == a);
    assert((digit(b) as u32) - 0x30 == b);
    assert(s[0] != '+' && s[0] != '-');
}

/// A time written by `format_time` reads back as the same hour and minute.
pub proof fn lemma_time_text_parse(hour: nat, minute: nat)
    requires
        hour <= 23,
        minute <= 59,
    ensures
        parse_time(time_text(hour, minute)) == Ok::<(int, int), DiaryError>((hour as int, minute as int)),
{
    let t = time_text(hour, minute);
    let hs = zero_padded(decimal(hour), 2);
    let ms = zero_padded(decimal(minute), 2);
    lemma_two_digits_parse(hour);
    lemma_two_digits_parse(minute);
    assert(t =~= hs + seq![':'] + ms);
    assert(t.len() == 5);
    assert(!crate::text::is_ws(t[0]));
    assert(!crate::text::is_ws(t[4]));
    assert(crate::text::trim_start(t) == t);
    assert(crate::text::trim_end(t) == t);
    assert(trim(t) == t);
    assert(t[0] == hs[0] && t[1] == hs[1] && t[2] == ':');
    assert(find_char(t, ':', 0) == 2) by {
        reveal_with_fuel(find_char, 3);
    }
    assert(t[3] == ms[0] && t[4] == ms[1]);
    assert(find_char(t, ':', 3) == 5) by {
        reveal_with_fuel(find_char, 3);
    }
    assert(t.subrange(0, 2) =~= hs);
    assert(t.subrange(3, 5) =~= ms);
}

/// Appends a year as chrono's `%Y` writes it.
fn push_year(out: &mut Vec<char>, year: i32)
    ensures
        final(out)@ == old(out)@ + year_text(year as int),
{
    if 0 <= year && year <= 9999 {
        push_padded(out, year as u64, 4);
    } else if year < 0 {
        out.push('-');
        let v: i64 = 0 - (year as i64);
        push_padded(out, v as u64, 4);
        assert(final(out)@ =~= old(out)@ + year_text(year as int));
    } else {
        out.push('+');
        push_padded(out, year as u64, 4);
        assert(final(out)@ =~= old(out)@ + year_text(year as int));
    }
}

/// The date as chrono's `%Y-%m-%d` writes it.
pub fn format_iso_date(year: i32, month: u32, day: u32) -> (r: String)
    ensures
        r@ == iso_date(year as int, month as nat, day as nat),
{
    let mut out: Vec<char> = Vec::new();
    push_year(&mut out, year);
    out.push('-');
    push_padded(&mut out, month as u64, 2);
    out.push('-');
    push_padded(&mut out, day as u64, 2);
    assert(out@ =~= iso_date(year as int, month as nat, day as nat));
    crate::outside::chars_to_string(&out)
}

/// Appends an `i32` as `Display` writes it.
pub fn push_signed(out: &mut Vec<char>, v: i32)
    ensures
        final(out)@ == old(out)@ + decimal_signed(v as int),
{
    if v < 0 {
        out.push('-');
        let w: i64 = 0 - (v as i64);
        push_decimal(out, w as u64);
        assert(final(out)@ =~= old(out)@ + decimal_signed(v as int));
    } else {
        push_decimal(out, v as u64);
    }
}

/// The decimal form of `n` is one or more ASCII digits that read back as
/// `n`.
pub proof fn lemma_decimal_value(n: nat)
    ensures
        decimal(n).len() >= 1,
        all_ascii_digits(decimal(n)),
        digits_value(decimal(n)) == n,
    decreases n,
{
    let s = decimal(n);
    if n < 10 {
        assert(s == seq![digit(n)]);
        assert(s.drop_last() =~= Seq::<char>::empty());
        assert(digits_value(Seq::<char>::empty()) == 0);
        assert((digit(n) as u32) - 0x30 == n);
        assert(digits_value(s) == digits_value(s.drop_last()) * 10 + ((s.last() as u32) - 0x30) as nat);
    } else {
        lemma_decimal_value(n / 10);
        let a = decimal(n / 10);
        assert(s == a + seq![digit(n % 10)]);
        assert(s.drop_last() =~= a);
        assert((digit(n % 10) as u32) - 0x30 == n % 10);
        assert forall|k: int| 0 <= k < s.len() implies is_ascii_digit(#[trigger] s[k]) by {
            if k < a.len() {
                assert(s[k] == a[k]);
            }
        }
        assert(digits_value(s) == digits_value(a) * 10 + ((s.last() as u32) - 0x30) as nat);
        assert(n == (n / 10) * 10 + n % 10);
    }
}

/// A time that is accepted has its hour in 0..=23 and its minute in
/// 0..=59.
pub proof fn law_parse_time_in_range(time: Seq<char>)
    ensures
        parse_time(time) matches Ok((h, m)) ==> 0 <= h <= 23 && 0 <= m <= 59,
{
}

/// The decimal form of a small number parses back as that number.
proof fn lemma_parse_decimal(n: nat)
    requires
        n <= i32::MAX,
    ensures
        parse_i32(decimal(n)) == Some(n as int),
{
    lemma_decimal_value(n);
    let s = decimal(n);
    assert(is_ascii_digit(s[0]));
    assert(s[0] != '+' && s[0] != '-');
}

/// An hour and a minute written in decimal without padding, around a `:`
/// and with white space on either side, read as that hour and minute, where
/// both are in range.
pub proof fn law_time_reads_unpadded(hour: nat, minute: nat, w1: Seq<char>, w2: Seq<char>)
    requires
        hour <= 23,
        minute <= 59,
        forall|k: int| 0 <= k < w1.len() ==> crate::text::is_ws(#[trigger] w1[k]),
        forall|k: int| 0 <= k < w2.len() ==> crate::text::is_ws(#[trigger] w2[k]),
    ensures
        parse_time(w1 + decimal(hour) + seq![':'] + decimal(minute) + w2) == Ok::<
            (int, int),
            DiaryError,
        >((hour as int, minute as int)),
{
    lemma_decimal_value(hour);
    lemma_decimal_value(minute);
    lemma_parse_decimal(hour);
    lemma_parse_decimal(minute);
    let a = decimal(hour);
    let b = decimal(minute);
    let t = a + seq![':'] + b;
    assert(crate::laws::all_ws(w1) && crate::laws::all_ws(w2));
    crate::laws::lemma_trim_surrounding_ws(w1, t, w2);
    assert(is_ascii_digit(a[0]) && is_ascii_digit(b[b.len() - 1]));
    assert(t[0] == a[0] && t.last() == b.last());
    crate::readback::lemma_trim_identity(t);
    assert(trim(w1 + t + w2) == t);
    assert(w1 + a + seq![':'] + b + w2 =~= w1 + t + w2);
    let k = a.len() as int;
    assert forall|j: int| 0 <= j < k implies t[j] != ':' by {
        assert(t[j] == a[j]);
        assert(is_ascii_digit(a[j]));
    }
    assert(t[k] == ':');
    crate::text::lemma_find_char_at(t, ':', 0, k);
    crate::text::lemma_find_char(t, ':', k + 1);
    assert forall|j: int| k < j < t.len() implies t[j] != ':' by {
        assert(t[j] == b[j - k - 1]);
        assert(is_ascii_digit(b[j - k - 1]));
    }
    assert(find_char(t, ':', k + 1) == t.len());
    assert(t.subrange(0, k) =~= a);
    assert(t.subrange(k + 1, t.len() as int) =~= b);
}

proof fn lemma_leading_zero(s: Seq<char>)
    requires
        all_ascii_digits(s),
    ensures
        all_ascii_digits(seq!['0'] + s),
        digits_value(seq!['0'] + s) == digits_value(s),
    decreases s.len(),
{
    let z = seq!['0'] + s;
    assert forall|k: int| 0 <= k < z.len() implies is_ascii_digit(#[trigger] z[k]) by {
        if k > 0 {
            assert(z[k] == s[k - 1]);
        }
    }
    if s.len() == 0 {
        assert(z.drop_last() =~= Seq::<char>::empty());
        assert(digits_value(Seq::<char>::empty()) == 0);
        assert(digits_value(z) == digits_value(z.drop_last()) * 10 + ((z.last() as u32) - 0x30) as nat);
    } else {
        let t = s.drop_last();
        assert(all_ascii_digits(t)) by {
            assert forall|k: int| 0 <= k < t.len() implies is_ascii_digit(#[trigger] t[k]) by {
                assert(t[k] == s[k]);
            }
        }
        lemma_leading_zero(t);
        assert(z.drop_last() =~= seq!['0'] + t);
        assert(z.last() == s.last());
    }
}

/// Zeros in front change neither that a text is digits nor its value.
proof fn lemma_zero_padded_value(s: Seq<char>, width: nat)
    requires
        all_ascii_digits(s),
    ensures
        all_ascii_digits(zero_padded(s, width)),
        digits_value(zero_padded(s, width)) == digits_value(s),
        zero_padded(s, width).len() == if s.len() >= width {
            s.len()
        } else {
            width as nat
        },
    decreases width,
{
    if s.len() < width {
        let z = Seq::new((width - s.len()) as nat, |k: int| '0');
        let w1 = (width - 1) as nat;
        lemma_zero_padded_value(s, w1);
        if s.len() < w1 {
            let z1 = Seq::new((w1 - s.len()) as nat, |k: int| '0');
            assert(z + s =~= seq!['0'] + (z1 + s));
            lemma_leading_zero(z1 + s);
        } else {
            assert(z + s =~= seq!['0'] + s);
            lemma_leading_zero(s);
        }
    }
}

/// A date as written reads back: the last six characters are `-`, the
/// month in two digits, `-` and the day in two digits; before them stands
/// the year, in four digits where it is in 0..=9999, else with its sign and
/// at least four digits.
pub proof fn law_iso_date_reads_back(year: int, month: nat, day: nat)
    requires
        1 <= month <= 12,
        1 <= day <= 31,
    ensures
        ({
            let t = iso_date(year, month, day);
            let n = t.len() - 6;
            let y = t.subrange(0, n);
            &&& n >= 4
            &&& t[n] == '-' && t[n + 3] == '-'
            &&& all_ascii_digits(t.subrange(n + 1, n + 3)) && digits_value(t.subrange(n + 1, n + 3)) == month
            &&& all_ascii_digits(t.subrange(n + 4, n + 6)) && digits_value(t.subrange(n + 4, n + 6)) == day
            &&& 0 <= year <= 9999 ==> n == 4 && all_ascii_digits(y) && digits_value(y) == year
            &&& year < 0 ==> y[0] == '-' && all_ascii_digits(y.drop_first()) && digits_value(y.drop_first()) == -year
            &&& year > 9999 ==> y[0] == '+' && all_ascii_digits(y.drop_first()) && digits_value(y.drop_first()) == year
        }),
{
    lemma_decimal_value(month);
    lemma_decimal_value(day);
    lemma_zero_padded_value(decimal(month), 2);
    lemma_zero_padded_value(decimal(day), 2);
    let ya = if year < 0 {
        (-year) as nat
    } else {
        year as nat
    };
    lemma_decimal_value(ya);
    lemma_zero_padded_value(decimal(ya), 4);
    let yt = year_text(year);
    let ms = zero_padded(decimal(month), 2);
    let ds = zero_padded(decimal(day), 2);
    assert(decimal(month).len() <= 2) by {
        reveal_with_fuel(decimal, 2);
    }
    assert(decimal(day).len() <= 2) by {
        reveal_with_fuel(decimal, 2);
    }
    assert(ms.len() == 2 && ds.len() == 2);
    if 0 <= year <= 9999 {
        assert(decimal(ya).len() <= 4) by {
            reveal_with_fuel(decimal, 4);
        }
        assert(yt.len() == 4);
    } else {
        assert(yt.len() >= 5);
        assert(yt[0] == '-' || yt[0] == '+');
    }
    let t = iso_date(year, month, day);
    assert(t =~= yt + seq!['-'] + ms + seq!['-'] + ds);
    let n = yt.len() as int;
    assert(t.len() == n + 6);
    assert(t[n] == '-' && t[n + 3] == '-');
    assert(t.subrange(0, n) =~= yt);
    assert(t.subrange(n + 1, n + 3) =~= ms);
    assert(t.subrange(n + 4, n + 6) =~= ds);
    if year < 0 || year > 9999 {
        assert(yt.drop_first() =~= zero_padded(decimal(ya), 4));
        assert(t.subrange(0, n)[0] == yt[0]);
    }
}

} // verus!
