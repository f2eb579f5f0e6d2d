//! The canonical wire encoding of instants: RFC 3339 date-time strings.
//!
//! `get_datetime_string` renders a stored instant as UTC-normalized RFC 3339
//! (always with a trailing `Z`); `parse_datetime_string` accepts any RFC 3339
//! date-time — an offset is folded into the UTC fields, a fractional second
//! is truncated to the store's second precision — and rejects everything
//! else. Both directions are pinned to spec-level functions over character
//! sequences, and `lemma_parse_render_round_trip` proves that parsing a
//! rendered instant gives the instant back.

use vstd::prelude::*;

use crate::instant::{days_in_month, days_in_month_exec, valid_date, Instant};

verus! {

/// A time string that is not an RFC 3339 date-time, or one whose instant
/// falls outside years 0000-9999 after UTC normalization.
#[derive(Clone, Copy, Debug, PartialEq, Eq, Structural)]
pub struct TimeFormatError;

/// ASCII decimal digit.
pub open spec fn is_digit(c: char) -> bool {
    ('0' as int) <= (c as int) && (c as int) <= ('9' as int)
}

/// Value of an ASCII decimal digit.
pub open spec fn dv(c: char) -> int {
    (c as int) - ('0' as int)
}

/// The ASCII digit with the given value (0 to 9).
pub open spec fn digit_char(d: int) -> char {
    if d == 0 {
        '0'
    } else if d == 1 {
        '1'
    } else if d == 2 {
        '2'
    } else if d == 3 {
        '3'
    } else if d == 4 {
        '4'
    } else if d == 5 {
        '5'
    } else if d == 6 {
        '6'
    } else if d == 7 {
        '7'
    } else if d == 8 {
        '8'
    } else {
        '9'
    }
}

/// Two-digit zero-padded decimal rendering.
pub open spec fn num2_seq(n: int) -> Seq<char> {
    seq![digit_char(n / 10), digit_char(n % 10)]
}

/// Four-digit zero-padded decimal rendering.
pub open spec fn num4_seq(n: int) -> Seq<char> {
    seq![
        digit_char(n / 1000),
        digit_char((n / 100) % 10),
        digit_char((n / 10) % 10),
        digit_char(n % 10),
    ]
}

/// The canonical wire form of a well-formed instant:
/// `YYYY-MM-DDThh:mm:ssZ`.
pub open spec fn render_spec(x: Instant) -> Seq<char> {
    num4_seq(x.year as int) + seq!['-'] + num2_seq(x.month as int) + seq!['-'] + num2_seq(
        x.day as int,
    ) + seq!['T'] + num2_seq(x.hour as int) + seq![':'] + num2_seq(x.minute as int) + seq![':']
        + num2_seq(x.second as int) + seq!['Z']
}

proof fn lemma_digit_char_value(d: int)
    requires
        0 <= d <= 9,
    ensures
        is_digit(digit_char(d)),
        dv(digit_char(d)) == d,
{
}

/// A number below 10000 is recovered from its four zero-padded digits.
proof fn lemma_num4_digits(n: int)
    requires
        0 <= n <= 9999,
    ensures
        (n / 1000) * 1000 + ((n / 100) % 10) * 100 + ((n / 10) % 10) * 10 + n % 10 == n,
        0 <= n / 1000 <= 9,
        0 <= (n / 100) % 10 <= 9,
        0 <= (n / 10) % 10 <= 9,
        0 <= n % 10 <= 9,
{
    vstd::arithmetic::div_mod::lemma_fundamental_div_mod(n, 10);
    vstd::arithmetic::div_mod::lemma_fundamental_div_mod(n / 10, 10);
    vstd::arithmetic::div_mod::lemma_fundamental_div_mod(n / 100, 10);
    vstd::arithmetic::div_mod::lemma_div_denominator(n, 10, 10);
    vstd::arithmetic::div_mod::lemma_div_denominator(n, 100, 10);
    assert(n / 10 / 10 == n / 100);
    assert(n / 100 / 10 == n / 1000);
    vstd::arithmetic::div_mod::lemma_div_is_ordered(n, 9999, 1000);
    vstd::arithmetic::div_mod::lemma_div_pos_is_pos(n, 1000);
}

/// A number below 100 is recovered from its two zero-padded digits.
proof fn lemma_num2_digits(n: int)
    requires
        0 <= n <= 99,
    ensures
        (n / 10) * 10 + n % 10 == n,
        0 <= n / 10 <= 9,
        0 <= n % 10 <= 9,
{
    vstd::arithmetic::div_mod::lemma_fundamental_div_mod(n, 10);
    vstd::arithmetic::div_mod::lemma_div_is_ordered(n, 99, 10);
    vstd::arithmetic::div_mod::lemma_div_pos_is_pos(n, 10);
}

/// Appends one decimal digit.
fn push_digit(s: &mut String, d: u32)
    requires
        d <= 9,
    ensures
        final(s)@ == old(s)@.push(digit_char(d as int)),
{
    if d == 0 {
        s.append("0");
        proof {
            reveal_strlit("0");
            assert(s@ =~= old(s)@.push('0'));
        }
    } else if d == 1 {
        s.append("1");
        proof {
            reveal_strlit("1");
            assert(s@ =~= old(s)@.push('1'));
        }
    } else if d == 2 {
        s.append("2");
        proof {
            reveal_strlit("2");
            assert(s@ =~= old(s)@.push('2'));
        }
    } else if d == 3 {
        s.append("3");
        proof {
            reveal_strlit("3");
            assert(s@ =~= old(s)@.push('3'));
        }
    } else if d == 4 {
        s.append("4");
        proof {
            reveal_strlit("4");
            assert(s@ =~= old(s)@.push('4'));
        }
    } else if d == 5 {
        s.append("5");
        proof {
            reveal_strlit("5");
            assert(s@ =~= old(s)@.push('5'));
        }
    } else if d == 6 {
        s.append("6");
        proof {
            reveal_strlit("6");
            assert(s@ =~= old(s)@.push('6'));
        }
    } else if d == 7 {
        s.append("7");
        proof {
            reveal_strlit("7");
            assert(s@ =~= old(s)@.push('7'));
        }
    } else if d == 8 {
        s.append("8");
        proof {
            reveal_strlit("8");
            assert(s@ =~= old(s)@.push('8'));
        }
    } else {
        s.append("9");
        proof {
            reveal_strlit("9");
            assert(s@ =~= old(s)@.push('9'));
        }
    }
}

/// Appends a number below 100 as two zero-padded digits.
fn push_num2(s: &mut String, n: u32)
    requires
        n <= 99,
    ensures
        final(s)@ == old(s)@ + num2_seq(n as int),
{
    proof {
        lemma_num2_digits(n as int);
    }
    push_digit(s, n / 10);
    push_digit(s, n % 10);
    proof {
        assert(s@ =~= old(s)@ + num2_seq(n as int));
    }
}

/// Appends a number below 10000 as four zero-padded digits.
fn push_num4(s: &mut String, n: u32)
    requires
        n <= 9999,
    ensures
        final(s)@ == old(s)@ + num4_seq(n as int),
{
    proof {
        lemma_num4_digits(n as int);
    }
    push_digit(s, n / 1000);
    push_digit(s, (n / 100) % 10);
    push_digit(s, (n / 10) % 10);
    push_digit(s, n % 10);
    proof {
        assert(s@ =~= old(s)@ + num4_seq(n as int));
    }
}

/// Renders an instant in its canonical RFC 3339 form, UTC with a trailing
/// `Z`: `YYYY-MM-DDThh:mm:ssZ`.
pub fn get_datetime_string(t: &Instant) -> (r: String)
    requires
        t.wf(),
    ensures
        r@ == render_spec(*t),
{
    let mut s = String::new();
    push_num4(&mut s, t.year);
    s.append("-");
    push_num2(&mut s, t.month);
    s.append("-");
    push_num2(&mut s, t.day);
    s.append("T");
    push_num2(&mut s, t.hour);
    s.append(":");
    push_num2(&mut s, t.minute);
    s.append(":");
    push_num2(&mut s, t.second);
    s.append("Z");
    proof {
        reveal_strlit("-");
        reveal_strlit("T");
        reveal_strlit(":");
        reveal_strlit("Z");
        assert(s@ =~= render_spec(*t));
    }
    s
}

/// Both characters at `i` and `i + 1` are digits.
pub open spec fn digits2_at(s: Seq<char>, i: int) -> bool {
    is_digit(s[i]) && is_digit(s[i + 1])
}

/// All four characters at `i` to `i + 3` are digits.
pub open spec fn digits4_at(s: Seq<char>, i: int) -> bool {
    is_digit(s[i]) && is_digit(s[i + 1]) && is_digit(s[i + 2]) && is_digit(s[i + 3])
}

/// The two-digit number starting at `i`.
pub open spec fn num2_at(s: Seq<char>, i: int) -> int {
    dv(s[i]) * 10 + dv(s[i + 1])
}

/// The four-digit number starting at `i`.
pub open spec fn num4_at(s: Seq<char>, i: int) -> int {
    dv(s[i]) * 1000 + dv(s[i + 1]) * 100 + dv(s[i + 2]) * 10 + dv(s[i + 3])
}

/// The fixed `YYYY-MM-DDThh:mm:ss` skeleton of an RFC 3339 date-time
/// (the date/time separator may be `T` or `t`).
pub open spec fn date_time_shape(s: Seq<char>) -> bool {
    s.len() >= 20 && digits4_at(s, 0) && s[4] == '-' && digits2_at(s, 5) && s[7] == '-'
        && digits2_at(s, 8) && (s[10] == 'T' || s[10] == 't') && digits2_at(s, 11) && s[13] == ':'
        && digits2_at(s, 14) && s[16] == ':' && digits2_at(s, 17)
}

/// First position at or after `i` that does not hold a digit.
pub open spec fn frac_end(s: Seq<char>, i: int) -> int
    decreases s.len() - i,
{
    if i < s.len() && is_digit(s[i]) {
        frac_end(s, i + 1)
    } else {
        i
    }
}

/// Where the offset part starts: right after the seconds, or after the
/// optional fractional second.
pub open spec fn offset_start(s: Seq<char>) -> int {
    if s[19] == '.' {
        frac_end(s, 20)
    } else {
        19
    }
}

/// If a fractional second is announced by a point, it carries at least one
/// digit.
pub open spec fn frac_ok(s: Seq<char>) -> bool {
    s[19] != '.' || frac_end(s, 20) > 20
}

/// The offset part at position `p`: `Z`/`z`, or a signed `hh:mm` offset,
/// in either case ending the string.
pub open spec fn offset_shape(s: Seq<char>, p: int) -> bool {
    (p == s.len() - 1 && (s[p] == 'Z' || s[p] == 'z')) || (p + 6 == s.len() && (s[p] == '+' || s[p]
        == '-') && digits2_at(s, p + 1) && s[p + 3] == ':' && digits2_at(s, p + 4) && num2_at(
        s,
        p + 1,
    ) <= 23 && num2_at(s, p + 4) <= 59)
}

/// The offset in signed minutes east of UTC.
pub open spec fn offset_minutes(s: Seq<char>, p: int) -> int {
    if s[p] == 'Z' || s[p] == 'z' {
        0
    } else if s[p] == '+' {
        num2_at(s, p + 1) * 60 + num2_at(s, p + 4)
    } else {
        -(num2_at(s, p + 1) * 60 + num2_at(s, p + 4))
    }
}

/// Field ranges of a parsed date-time (the year is bounded by its four
/// digits already).
pub open spec fn fields_valid(y: int, mo: int, d: int, h: int, mi: int, sec: int) -> bool {
    valid_date(y, mo, d) && h <= 23 && mi <= 59 && sec <= 59
}

/// The calendar day before the given one.
pub open spec fn prev_date(y: int, mo: int, d: int) -> (int, int, int) {
    if d > 1 {
        (y, mo, d - 1)
    } else if mo > 1 {
        (y, mo - 1, days_in_month(y, mo - 1))
    } else {
        (y - 1, 12, 31)
    }
}

/// The calendar day after the given one.
pub open spec fn next_date(y: int, mo: int, d: int) -> (int, int, int) {
    if d < days_in_month(y, mo) {
        (y, mo, d + 1)
    } else if mo < 12 {
        (y, mo + 1, 1)
    } else {
        (y + 1, 1, 1)
    }
}

/// Folds a signed offset (in minutes) into a local civil date-time, giving
/// the UTC instant, or nothing when that instant leaves years 0000-9999.
pub open spec fn apply_offset(
    y: int,
    mo: int,
    d: int,
    h: int,
    mi: int,
    sec: int,
    off: int,
) -> Option<Instant> {
    let total = h * 60 + mi - off;
    if total < 0 {
        if y == 0 && mo == 1 && d == 1 {
            None
        } else {
            let (py, pmo, pd) = prev_date(y, mo, d);
            let t2 = total + 1440;
            Some(
                Instant {
                    year: py as u32,
                    month: pmo as u32,
                    day: pd as u32,
                    hour: (t2 / 60) as u32,
                    minute: (t2 % 60) as u32,
                    second: sec as u32,
                },
            )
        }
    } else if total >= 1440 {
        if y == 9999 && mo == 12 && d == 31 {
            None
        } else {
            let (ny, nmo, nd) = next_date(y, mo, d);
            let t2 = total - 1440;
            Some(
                Instant {
                    year: ny as u32,
                    month: nmo as u32,
                    day: nd as u32,
                    hour: (t2 / 60) as u32,
                    minute: (t2 % 60) as u32,
                    second: sec as u32,
                },
            )
        }
    } else {
        Some(
            Instant {
                year: y as u32,
                month: mo as u32,
                day: d as u32,
                hour: (total / 60) as u32,
                minute: (total % 60) as u32,
                second: sec as u32,
            },
        )
    }
}

/// What parsing a time string yields: the UTC instant of an RFC 3339
/// date-time within years 0000-9999, or nothing.
pub open spec fn parse_spec(s: Seq<char>) -> Option<Instant> {
    if !date_time_shape(s) || !frac_ok(s) {
        None
    } else {
        let p = offset_start(s);
        if !offset_shape(s, p) {
            None
        } else {
            let y = num4_at(s, 0);
            let mo = num2_at(s, 5);
            let d = num2_at(s, 8);
            let h = num2_at(s, 11);
            let mi = num2_at(s, 14);
            let sec = num2_at(s, 17);
            if !fields_valid(y, mo, d, h, mi, sec) {
                None
            } else {
                apply_offset(y, mo, d, h, mi, sec, offset_minutes(s, p))
            }
        }
    }
}

/// Reads the digit at `i`, if there is one.
fn digit_at(s: &str, i: usize) -> (r: Option<u32>)
    requires
        i < s@.len(),
    ensures
        match r {
            Some(v) => is_digit(s@[i as int]) && v == dv(s@[i as int]),
            None => !is_digit(s@[i as int]),
        },
{
    let c = s.get_char(i);
    let u = c as u32;
    if 48 <= u && u <= 57 {
        Some(u - 48)
    } else {
        None
    }
}

/// Reads the two-digit number at `i`, if both characters are digits.
fn num2_exec(s: &str, len: usize, i: usize) -> (r: Option<u32>)
    requires
        len == s@.len(),
        i + 1 < len,
    ensures
        match r {
            Some(v) => digits2_at(s@, i as int) && v == num2_at(s@, i as int) && v <= 99,
            None => !digits2_at(s@, i as int),
        },
{
    match (digit_at(s, i), digit_at(s, i + 1)) {
        (Some(a), Some(b)) => Some(a * 10 + b),
        _ => None,
    }
}

/// Reads the four-digit number at `i`, if all four characters are digits.
fn num4_exec(s: &str, len: usize, i: usize) -> (r: Option<u32>)
    requires
        len == s@.len(),
        i + 3 < len,
    ensures
        match r {
            Some(v) => digits4_at(s@, i as int) && v == num4_at(s@, i as int) && v <= 9999,
            None => !digits4_at(s@, i as int),
        },
{
    match (digit_at(s, i), digit_at(s, i + 1), digit_at(s, i + 2), digit_at(s, i + 3)) {
        (Some(a), Some(b), Some(c), Some(d)) => Some(a * 1000 + b * 100 + c * 10 + d),
        _ => None,
    }
}

/// First position at or after `start` that does not hold a digit.
fn scan_digits(s: &str, len: usize, start: usize) -> (j: usize)
    requires
        len == s@.len(),
        start <= len,
    ensures
        start <= j <= len,
        forall|k: int| start <= k < j ==> is_digit(s@[k]),
        j == s@.len() || !is_digit(s@[j as int]),
{
    let mut j = start;
    loop
        invariant
            start <= j <= len,
            len == s@.len(),
            forall|k: int| start <= k < j ==> is_digit(s@[k]),
        decreases len - j,
    {
        if j == len {
            return j;
        }
        if digit_at(s, j).is_none() {
            return j;
        }
        j += 1;
    }
}

proof fn lemma_frac_end(s: Seq<char>, i: int, j: int)
    requires
        0 <= i <= j <= s.len(),
        forall|k: int| i <= k < j ==> is_digit(s[k]),
        j == s.len() || !is_digit(s[j]),
    ensures
        frac_end(s, i) == j,
    decreases j - i,
{
    if i < j {
        lemma_frac_end(s, i + 1, j);
    }
}

/// The calendar day before, for a valid date other than the very first one.
fn prev_date_exec(y: u32, mo: u32, d: u32) -> (r: (u32, u32, u32))
    requires
        valid_date(y as int, mo as int, d as int),
        !(y == 0 && mo == 1 && d == 1),
    ensures
        (r.0 as int, r.1 as int, r.2 as int) == prev_date(y as int, mo as int, d as int),
        valid_date(r.0 as int, r.1 as int, r.2 as int),
{
    if d > 1 {
        (y, mo, d - 1)
    } else if mo > 1 {
        (y, mo - 1, days_in_month_exec(y, mo - 1))
    } else {
        (y - 1, 12, 31)
    }
}

/// The calendar day after, for a valid date other than the very last one.
fn next_date_exec(y: u32, mo: u32, d: u32) -> (r: (u32, u32, u32))
    requires
        valid_date(y as int, mo as int, d as int),
        !(y == 9999 && mo == 12 && d == 31),
    ensures
        (r.0 as int, r.1 as int, r.2 as int) == next_date(y as int, mo as int, d as int),
        valid_date(r.0 as int, r.1 as int, r.2 as int),
{
    if d < days_in_month_exec(y, mo) {
        (y, mo, d + 1)
    } else if mo < 12 {
        (y, mo + 1, 1)
    } else {
        (y + 1, 1, 1)
    }
}

/// Parses an RFC 3339 date-time into its UTC instant at second precision.
///
/// Any offset is folded into the fields; a fractional second is truncated;
/// anything that is not an RFC 3339 date-time — or whose UTC instant falls
/// outside years 0000-9999 — is rejected. This runs before any value
/// reaches the store, so a malformed time string never becomes a query
/// comparison value.
pub fn parse_datetime_string(s: &str) -> (r: Result<Instant, TimeFormatError>)
    ensures
        r is Ok <==> parse_spec(s@) is Some,
        r matches Ok(x) ==> parse_spec(s@) == Some(x) && x.wf(),
{
    let len = s.unicode_len();
    if len < 20 {
        return Err(TimeFormatError);
    }
    let y = match num4_exec(s, len, 0) {
        Some(v) => v,
        None => {
            return Err(TimeFormatError);
        },
    };
    let mo = match num2_exec(s, len, 5) {
        Some(v) => v,
        None => {
            return Err(TimeFormatError);
        },
    };
    let d = match num2_exec(s, len, 8) {
        Some(v) => v,
        None => {
            return Err(TimeFormatError);
        },
    };
    let h = match num2_exec(s, len, 11) {
        Some(v) => v,
        None => {
            return Err(TimeFormatError);
        },
    };
    let mi = match num2_exec(s, len, 14) {
        Some(v) => v,
        None => {
            return Err(TimeFormatError);
        },
    };
    let sec = match num2_exec(s, len, 17) {
        Some(v) => v,
        None => {
            return Err(TimeFormatError);
        },
    };
    if s.get_char(4) != '-' || s.get_char(7) != '-' {
        return Err(TimeFormatError);
    }
    let t_sep = s.get_char(10);
    if t_sep != 'T' && t_sep != 't' {
        return Err(TimeFormatError);
    }
    if s.get_char(13) != ':' || s.get_char(16) != ':' {
        return Err(TimeFormatError);
    }
    assert(date_time_shape(s@));
    // Optional fractional second, truncated to the store's precision.
    let p: usize = if s.get_char(19) == '.' {
        let j = scan_digits(s, len, 20);
        proof {
            lemma_frac_end(s@, 20, j as int);
        }
        if j == 20 {
            return Err(TimeFormatError);
        }
        j
    } else {
        19
    };
    assert(frac_ok(s@));
    assert(p as int == offset_start(s@));
    if p == len {
        return Err(TimeFormatError);
    }
    // Offset part: `Z`, or a signed hh:mm offset, ending the string.
    let oc = s.get_char(p);
    let off: i32 = if oc == 'Z' || oc == 'z' {
        if len - p != 1 {
            return Err(TimeFormatError);
        }
        0
    } else if oc == '+' || oc == '-' {
        if len - p != 6 {
            return Err(TimeFormatError);
        }
        let oh = match num2_exec(s, len, p + 1) {
            Some(v) => v,
            None => {
                return Err(TimeFormatError);
            },
        };
        let om = match num2_exec(s, len, p + 4) {
            Some(v) => v,
            None => {
                return Err(TimeFormatError);
            },
        };
        if s.get_char(p + 3) != ':' {
            return Err(TimeFormatError);
        }
        if oh > 23 || om > 59 {
            return Err(TimeFormatError);
        }
        if oc == '+' {
            (oh * 60 + om) as i32
        } else {
            -((oh * 60 + om) as i32)
        }
    } else {
        return Err(TimeFormatError);
    };
    assert(offset_shape(s@, p as int));
    assert(off as int == offset_minutes(s@, p as int));
    // Field ranges.
    if mo < 1 || mo > 12 || d < 1 || d > days_in_month_exec(y, mo) {
        return Err(TimeFormatError);
    }
    if h > 23 || mi > 59 || sec > 59 {
        return Err(TimeFormatError);
    }
    assert(fields_valid(y as int, mo as int, d as int, h as int, mi as int, sec as int));
    // Fold the offset into the civil fields.
    let total: i32 = (h * 60 + mi) as i32 - off;
    let x = if total < 0 {
        if y == 0 && mo == 1 && d == 1 {
            return Err(TimeFormatError);
        }
        let (py, pmo, pd) = prev_date_exec(y, mo, d);
        let t2 = (total + 1440) as u32;
        Instant { year: py, month: pmo, day: pd, hour: t2 / 60, minute: t2 % 60, second: sec }
    } else if total >= 1440 {
        if y == 9999 && mo == 12 && d == 31 {
            return Err(TimeFormatError);
        }
        let (ny, nmo, nd) = next_date_exec(y, mo, d);
        let t2 = (total - 1440) as u32;
        Instant { year: ny, month: nmo, day: nd, hour: t2 / 60, minute: t2 % 60, second: sec }
    } else {
        let t2 = total as u32;
        Instant { year: y, month: mo, day: d, hour: t2 / 60, minute: t2 % 60, second: sec }
    };
    proof {
        lemma_minutes_split(total as int);
        assert(Some(x) == apply_offset(
            y as int,
            mo as int,
            d as int,
            h as int,
            mi as int,
            sec as int,
            off as int,
        ));
        assert(x.wf());
    }
    Ok(x)
}

/// Round trip: parsing the canonical rendering of any well-formed instant
/// gives that instant back. Rendering is UTC-normalized, so every instant
/// the store can hold survives the trip to the wire and back unchanged.
pub proof fn lemma_parse_render_round_trip(x: Instant)
    requires
        x.wf(),
    ensures
        parse_spec(render_spec(x)) == Some(x),
{
    let s = render_spec(x);
    let y = x.year as int;
    let mo = x.month as int;
    let d = x.day as int;
    let h = x.hour as int;
    let mi = x.minute as int;
    let sec = x.second as int;
    lemma_num4_digits(y);
    lemma_num2_digits(mo);
    lemma_num2_digits(d);
    lemma_num2_digits(h);
    lemma_num2_digits(mi);
    lemma_num2_digits(sec);
    lemma_digit_char_value(y / 1000);
    lemma_digit_char_value((y / 100) % 10);
    lemma_digit_char_value((y / 10) % 10);
    lemma_digit_char_value(y % 10);
    lemma_digit_char_value(mo / 10);
    lemma_digit_char_value(mo % 10);
    lemma_digit_char_value(d / 10);
    lemma_digit_char_value(d % 10);
    lemma_digit_char_value(h / 10);
    lemma_digit_char_value(h % 10);
    lemma_digit_char_value(mi / 10);
    lemma_digit_char_value(mi % 10);
    lemma_digit_char_value(sec / 10);
    lemma_digit_char_value(sec % 10);
    assert(s.len() == 20);
    assert(s[0] == digit_char(y / 1000));
    assert(s[1] == digit_char((y / 100) % 10));
    assert(s[2] == digit_char((y / 10) % 10));
    assert(s[3] == digit_char(y % 10));
    assert(s[4] == '-');
    assert(s[5] == digit_char(mo / 10));
    assert(s[6] == digit_char(mo % 10));
    assert(s[7] == '-');
    assert(s[8] == digit_char(d / 10));
    assert(s[9] == digit_char(d % 10));
    assert(s[10] == 'T');
    assert(s[11] == digit_char(h / 10));
    assert(s[12] == digit_char(h % 10));
    assert(s[13] == ':');
    assert(s[14] == digit_char(mi / 10));
    assert(s[15] == digit_char(mi % 10));
    assert(s[16] == ':');
    assert(s[17] == digit_char(sec / 10));
    assert(s[18] == digit_char(sec % 10));
    assert(s[19] == 'Z');
    assert(date_time_shape(s));
    assert(num4_at(s, 0) == y);
    assert(num2_at(s, 5) == mo);
    assert(num2_at(s, 8) == d);
    assert(num2_at(s, 11) == h);
    assert(num2_at(s, 14) == mi);
    assert(num2_at(s, 17) == sec);
    assert(frac_ok(s));
    assert(offset_start(s) == 19);
    assert(offset_shape(s, 19));
    assert(offset_minutes(s, 19) == 0);
    assert(fields_valid(y, mo, d, h, mi, sec));
    let total = h * 60 + mi;
    assert(0 <= total < 1440);
    vstd::arithmetic::div_mod::lemma_fundamental_div_mod_converse(total, 60, h, mi);
    assert(apply_offset(y, mo, d, h, mi, sec, 0) == Some(x));
}

/// A count of minutes within a day splits into an hour below 24 and a
/// minute below 60.
proof fn lemma_minutes_split(total: int)
    ensures
        -1440 <= total < 0 ==> {
            let t2 = total + 1440;
            0 <= t2 / 60 <= 23 && 0 <= t2 % 60 <= 59
        },
        1440 <= total < 2880 ==> {
            let t2 = total - 1440;
            0 <= t2 / 60 <= 23 && 0 <= t2 % 60 <= 59
        },
        0 <= total < 1440 ==> 0 <= total / 60 <= 23 && 0 <= total % 60 <= 59,
{
    if -1440 <= total < 0 {
        vstd::arithmetic::div_mod::lemma_div_is_ordered(total + 1440, 1439, 60);
        vstd::arithmetic::div_mod::lemma_div_pos_is_pos(total + 1440, 60);
    }
    if 1440 <= total < 2880 {
        vstd::arithmetic::div_mod::lemma_div_is_ordered(total - 1440, 1439, 60);
        vstd::arithmetic::div_mod::lemma_div_pos_is_pos(total - 1440, 60);
    }
    if 0 <= total < 1440 {
        vstd::arithmetic::div_mod::lemma_div_is_ordered(total, 1439, 60);
        vstd::arithmetic::div_mod::lemma_div_pos_is_pos(total, 60);
    }
}

} // verus!
