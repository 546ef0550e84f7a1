//! UTC calendar date and time of a UNIX timestamp, through `chrono`.
use vstd::prelude::*;
use chrono::{DateTime, Datelike, NaiveDate, NaiveDateTime, Timelike, Utc};
use crate::decimal::{all_digits, digits_value, nat_digits};

verus! {

/// A date and time of day in UTC, on the proleptic Gregorian calendar, as
/// `chrono` reports it field by field.
#[derive(Clone, Copy, Debug, PartialEq, Eq)]
pub struct UtcDateTime {
    pub year: i32,
    pub month: u32,
    pub day: u32,
    pub hour: u32,
    pub minute: u32,
    pub second: u32,
}

impl View for UtcDateTime {
    type V = (i32, u32, u32, u32, u32, u32);

    open spec fn view(&self) -> (i32, u32, u32, u32, u32, u32) {
        (self.year, self.month, self.day, self.hour, self.minute, self.second)
    }
}

/// Whether `y` is a leap year of the proleptic Gregorian calendar.
pub open spec fn is_leap_year(y: int) -> bool {
    y % 4 == 0 && (y % 100 != 0 || y % 400 == 0)
}

/// The number of days of month `m` (1 to 12) of year `y`.
pub open spec fn days_in_month(y: int, m: int) -> int {
    if m == 2 {
        if is_leap_year(y) { 29 } else { 28 }
    } else if m == 4 || m == 6 || m == 9 || m == 11 {
        30
    } else {
        31
    }
}

/// The number of days from 1970-01-01 to the date `y`-`m`-`d` (negative
/// before it), on the proleptic Gregorian calendar.
pub open spec fn days_from_civil(y: int, m: int, d: int) -> int {
    let y1 = if m <= 2 { y - 1 } else { y };
    let era = y1 / 400;
    let yoe = y1 % 400;
    let mp = if m > 2 { m - 3 } else { m + 9 };
    let doy = (153 * mp + 2) / 5 + d - 1;
    let doe = yoe * 365 + yoe / 4 - yoe / 100 + doy;
    era * 146097 + doe - 719468
}

/// Whether the fields name a real date between the years -262143 and 262142
/// (the dates `chrono` represents) and a time of day without leap second.
pub open spec fn is_calendar_time(t: (i32, u32, u32, u32, u32, u32)) -> bool {
    &&& -262143 <= t.0 <= 262142
    &&& 1 <= t.1 <= 12
    &&& 1 <= t.2 <= days_in_month(t.0 as int, t.1 as int)
    &&& t.3 < 24
    &&& t.4 < 60
    &&& t.5 < 60
}

/// The UNIX timestamp of a date and time: seconds since 1970-01-01 00:00:00 UTC.
pub open spec fn seconds_since_epoch(t: (i32, u32, u32, u32, u32, u32)) -> int {
    days_from_civil(t.0 as int, t.1 as int, t.2 as int) * 86400 + t.3 * 3600 + t.4 * 60 + t.5
}

/// Whether `t` is a date and time `chrono` represents whose UNIX timestamp is `secs`.
pub open spec fn is_time_of(t: (i32, u32, u32, u32, u32, u32), secs: int) -> bool {
    is_calendar_time(t) && seconds_since_epoch(t) == secs
}

/// Whether some date and time that `chrono` represents has the timestamp `secs`.
pub open spec fn has_calendar_time(secs: int) -> bool {
    exists|t: (i32, u32, u32, u32, u32, u32)| #[trigger] is_time_of(t, secs)
}

/// The date and time of the timestamp `secs`, when it has one (there is at
/// most one: `lemma_seconds_unique`).
pub open spec fn calendar_time_of(secs: int) -> (i32, u32, u32, u32, u32, u32) {
    choose|t: (i32, u32, u32, u32, u32, u32)| #[trigger] is_time_of(t, secs)
}

/// `chrono::NaiveDateTime::from_timestamp_opt(secs, 0)`, read out field by
/// field. Trusted, as chrono documents it: the result is the UTC date and
/// time whose UNIX timestamp is `secs`, and `None` exactly when that date
/// lies outside the years -262143 to 262142 that chrono represents; so it is
/// `Some` for every timestamp within about 253,000 years of 1970.
#[verifier::external_body]
#[allow(deprecated)]
fn utc_from_timestamp(secs: i64) -> (found: Option<UtcDateTime>)
    ensures
        found is Some <==> has_calendar_time(secs as int),
        found matches Some(t) ==> is_time_of(t@, secs as int),
        -8_000_000_000_000 <= secs <= 8_000_000_000_000 ==> found is Some,
{
    match NaiveDateTime::from_timestamp_opt(secs, 0) {
        Some(t) => Some(UtcDateTime {
            year: t.year(),
            month: t.month(),
            day: t.day(),
            hour: t.hour(),
            minute: t.minute(),
            second: t.second(),
        }),
        None => None,
    }
}

/// `n` in decimal, with zeros in front up to `width` digits.
pub open spec fn zero_padded(n: nat, width: nat) -> Seq<char> {
    let digits = nat_digits(n);
    if digits.len() < width {
        Seq::new((width - digits.len()) as nat, |i: int| '0') + digits
    } else {
        digits
    }
}

/// How `chrono` writes a year for `%Y`: four digits with leading zeros for
/// the years 0 to 9999, else a sign and at least four digits.
pub open spec fn year_text(y: int) -> Seq<char> {
    if 0 <= y <= 9999 {
        zero_padded(y as nat, 4)
    } else if y < 0 {
        seq!['-'] + zero_padded((-y) as nat, 4)
    } else {
        seq!['+'] + zero_padded(y as nat, 4)
    }
}

/// The text of `t` from its minutes on.
pub open spec fn minute_part(t: (i32, u32, u32, u32, u32, u32)) -> Seq<char> {
    zero_padded(t.4 as nat, 2) + (seq![':'] + zero_padded(t.5 as nat, 2))
}

/// The text of `t` from its hour on.
pub open spec fn hour_part(t: (i32, u32, u32, u32, u32, u32)) -> Seq<char> {
    zero_padded(t.3 as nat, 2) + (seq![':'] + minute_part(t))
}

/// The text of `t` from its day on.
pub open spec fn day_part(t: (i32, u32, u32, u32, u32, u32)) -> Seq<char> {
    zero_padded(t.2 as nat, 2) + (seq![' '] + hour_part(t))
}

/// The text of `t` after its year and the `-` that follows.
pub open spec fn after_year(t: (i32, u32, u32, u32, u32, u32)) -> Seq<char> {
    zero_padded(t.1 as nat, 2) + (seq!['-'] + day_part(t))
}

/// The text `chrono` writes for the pattern `%Y-%m-%d %H:%M:%S`: the year,
/// then month, day, hour, minute and second zero-padded to two digits, with
/// `-`, `-`, ` `, `:`, `:` between them.
pub open spec fn date_time_text(t: (i32, u32, u32, u32, u32, u32)) -> Seq<char> {
    year_text(t.0 as int) + (seq!['-'] + after_year(t))
}

/// The pattern of the explorer's dates: `%Y-%m-%d %H:%M:%S`.
pub open spec fn date_time_pattern() -> Seq<char> {
    seq!['%', 'Y', '-', '%', 'm', '-', '%', 'd', ' ', '%', 'H', ':', '%', 'M', ':', '%', 'S']
}

/// `DateTime::<Utc>::from_naive_utc_and_offset(..).format(pattern).to_string()`
/// on the date and time `t`, with the pattern `%Y-%m-%d %H:%M:%S`. Trusted: the
/// text is what chrono documents for these specifiers (zero-padded numbers,
/// and a sign on years outside 0 to 9999; see `date_time_text`). The date is
/// rebuilt with `NaiveDate::from_ymd_opt(..).and_hms_opt(..)`, which succeed on
/// the calendar times that `requires` admits.
#[verifier::external_body]
fn format_date_time(t: &UtcDateTime, pattern: &str) -> (text: String)
    requires
        is_calendar_time(t@),
        pattern@ == date_time_pattern(),
    ensures
        text@ == date_time_text(t@),
{
    let date = NaiveDate::from_ymd_opt(t.year, t.month, t.day).unwrap();
    let naive = date.and_hms_opt(t.hour, t.minute, t.second).unwrap();
    DateTime::<Utc>::from_naive_utc_and_offset(naive, Utc).format(pattern).to_string()
}

/// The UTC date and time of the UNIX timestamp `secs`, written
/// `YYYY-MM-DD hh:mm:ss`; `None` when `chrono` has no date for it.
pub fn timestamp_text(secs: i64) -> (text: Option<String>)
    ensures
        text is Some <==> has_calendar_time(secs as int),
        text matches Some(s) ==> s@ == date_time_text(calendar_time_of(secs as int)),
        has_calendar_time(secs as int) ==> is_time_of(calendar_time_of(secs as int), secs as int),
        -8_000_000_000_000 <= secs <= 8_000_000_000_000 ==> text is Some,
{
    match utc_from_timestamp(secs) {
        None => None,
        Some(t) => {
            proof {
                lemma_seconds_unique(t@, calendar_time_of(secs as int));
            }
            let pattern = "%Y-%m-%d %H:%M:%S";
            proof {
                reveal_strlit("%Y-%m-%d %H:%M:%S");
            }
            assert(pattern@ =~= date_time_pattern());
            Some(format_date_time(&t, pattern))
        },
    }
}

/// `10` to the power `k`.
pub open spec fn pow10(k: nat) -> nat
    decreases k,
{
    if k == 0 {
        1
    } else {
        10 * pow10((k - 1) as nat)
    }
}

proof fn lemma_nat_digits_len(n: nat, k: nat)
    requires
        k >= 1,
        n < pow10(k),
    ensures
        nat_digits(n).len() <= k,
    decreases k,
{
    if n >= 10 {
        assert(k >= 2) by {
            if k == 1 {
                assert(pow10(0) == 1);
            }
        }
        assert(n / 10 < pow10((k - 1) as nat));
        lemma_nat_digits_len(n / 10, (k - 1) as nat);
    }
}

proof fn lemma_zero_padded_len(n: nat, k: nat)
    requires
        k >= 1,
        n < pow10(k),
    ensures
        zero_padded(n, k).len() == k,
{
    lemma_nat_digits_len(n, k);
}

/// Law: a date of the years 0 to 9999 is written in 19 characters, as
/// `YYYY-MM-DD hh:mm:ss`.
pub proof fn lemma_date_time_text_layout(t: (i32, u32, u32, u32, u32, u32))
    requires
        is_calendar_time(t),
        0 <= t.0 <= 9999,
    ensures
        date_time_text(t).len() == 19,
        date_time_text(t)[4] == '-',
        date_time_text(t)[7] == '-',
        date_time_text(t)[10] == ' ',
        date_time_text(t)[13] == ':',
        date_time_text(t)[16] == ':',
{
    reveal_with_fuel(pow10, 5);
    lemma_zero_padded_len(t.0 as nat, 4);
    lemma_zero_padded_len(t.1 as nat, 2);
    lemma_zero_padded_len(t.2 as nat, 2);
    lemma_zero_padded_len(t.3 as nat, 2);
    lemma_zero_padded_len(t.4 as nat, 2);
    lemma_zero_padded_len(t.5 as nat, 2);
}

/* The calendar count of days grows with the date. */

/// The count of days of the year-cycle arithmetic in `days_from_civil` for
/// the year `y1` counted from March.
spec fn years_days(y1: int) -> int {
    (y1 / 400) * 146097 + (y1 % 400) * 365 + (y1 % 400) / 4 - (y1 % 400) / 100
}

proof fn lemma_year_length(y: int)
    ensures
        years_days(y) - years_days(y - 1) == if is_leap_year(y) { 366int } else { 365int },
{
    let e = y / 400;
    let r = y % 400;
    assert(y == 400 * e + r && 0 <= r < 400);
    assert(y % 4 == r % 4 && y % 100 == r % 100) by {
        assert((400 * e + r) % 4 == r % 4) by (nonlinear_arith)
            requires 0 <= r < 400;
        assert((400 * e + r) % 100 == r % 100) by (nonlinear_arith)
            requires 0 <= r < 400;
    }
    if r >= 1 {
        assert((y - 1) / 400 == e && (y - 1) % 400 == r - 1);
    } else {
        assert((y - 1) / 400 == e - 1 && (y - 1) % 400 == 399);
    }
}

proof fn lemma_days_from_civil_day(y: int, m: int, d: int)
    ensures
        days_from_civil(y, m, d) == days_from_civil(y, m, 1) + d - 1,
{
}

proof fn lemma_month_step(y: int, m: int)
    requires
        1 <= m <= 11,
    ensures
        days_from_civil(y, m + 1, 1) == days_from_civil(y, m, 1) + days_in_month(y, m),
{
    if m == 2 {
        lemma_year_length(y);
        assert(days_from_civil(y, 2, 1) == years_days(y - 1) + 337 - 719468);
        assert(days_from_civil(y, 3, 1) == years_days(y) - 719468);
    }
}

proof fn lemma_year_step(y: int)
    ensures
        days_from_civil(y + 1, 1, 1) == days_from_civil(y, 12, 1) + 31,
{
}

proof fn lemma_months_chain(y: int, m1: int, m2: int)
    requires
        1 <= m1 < m2 <= 12,
    ensures
        days_from_civil(y, m1, 1) + days_in_month(y, m1) <= days_from_civil(y, m2, 1),
    decreases m2 - m1,
{
    lemma_month_step(y, m2 - 1);
    if m2 > m1 + 1 {
        lemma_months_chain(y, m1, m2 - 1);
    }
}

proof fn lemma_years_chain(y1: int, y2: int)
    requires
        y1 < y2,
    ensures
        days_from_civil(y1, 12, 1) + 31 <= days_from_civil(y2, 1, 1),
    decreases y2 - y1,
{
    lemma_year_step(y1);
    if y2 > y1 + 1 {
        lemma_months_chain(y1 + 1, 1, 12);
        lemma_years_chain(y1 + 1, y2);
    }
}

/// Whether the date and time `a` comes before `b`: field by field, year first.
pub open spec fn calendar_before(
    a: (i32, u32, u32, u32, u32, u32),
    b: (i32, u32, u32, u32, u32, u32),
) -> bool {
    ||| a.0 < b.0
    ||| a.0 == b.0 && a.1 < b.1
    ||| a.0 == b.0 && a.1 == b.1 && a.2 < b.2
    ||| a.0 == b.0 && a.1 == b.1 && a.2 == b.2 && a.3 < b.3
    ||| a.0 == b.0 && a.1 == b.1 && a.2 == b.2 && a.3 == b.3 && a.4 < b.4
    ||| a.0 == b.0 && a.1 == b.1 && a.2 == b.2 && a.3 == b.3 && a.4 == b.4 && a.5 < b.5
}

proof fn lemma_days_increase(a: (i32, u32, u32, u32, u32, u32), b: (i32, u32, u32, u32, u32, u32))
    requires
        is_calendar_time(a),
        is_calendar_time(b),
        a.0 < b.0 || (a.0 == b.0 && a.1 < b.1) || (a.0 == b.0 && a.1 == b.1 && a.2 < b.2),
    ensures
        days_from_civil(a.0 as int, a.1 as int, a.2 as int) < days_from_civil(
            b.0 as int,
            b.1 as int,
            b.2 as int,
        ),
{
    let (ya, ma, da) = (a.0 as int, a.1 as int, a.2 as int);
    let (yb, mb, db) = (b.0 as int, b.1 as int, b.2 as int);
    lemma_days_from_civil_day(ya, ma, da);
    lemma_days_from_civil_day(yb, mb, db);
    if ya < yb {
        if ma < 12 {
            lemma_months_chain(ya, ma, 12);
        }
        lemma_years_chain(ya, yb);
        if mb > 1 {
            lemma_months_chain(yb, 1, mb);
        }
    } else if ma < mb {
        lemma_months_chain(ya, ma, mb);
    }
}

/// Law: a date and time that comes before another has the smaller timestamp.
pub proof fn lemma_seconds_increase(a: (i32, u32, u32, u32, u32, u32), b: (i32, u32, u32, u32, u32, u32))
    requires
        is_calendar_time(a),
        is_calendar_time(b),
        calendar_before(a, b),
    ensures
        seconds_since_epoch(a) < seconds_since_epoch(b),
{
    let da = days_from_civil(a.0 as int, a.1 as int, a.2 as int);
    let db = days_from_civil(b.0 as int, b.1 as int, b.2 as int);
    if a.0 < b.0 || (a.0 == b.0 && a.1 < b.1) || (a.0 == b.0 && a.1 == b.1 && a.2 < b.2) {
        lemma_days_increase(a, b);
        assert(da * 86400 + 86400 <= db * 86400);
    }
}

/// Law: a timestamp is the timestamp of at most one date and time.
pub proof fn lemma_seconds_unique(a: (i32, u32, u32, u32, u32, u32), b: (i32, u32, u32, u32, u32, u32))
    requires
        is_calendar_time(a),
        is_calendar_time(b),
        seconds_since_epoch(a) == seconds_since_epoch(b),
    ensures
        a == b,
{
    if calendar_before(a, b) {
        lemma_seconds_increase(a, b);
    } else if calendar_before(b, a) {
        lemma_seconds_increase(b, a);
    }
}

/* Texts of dates compare as the dates do. */

/// Whether the text `a` comes before `b` in dictionary order, character by
/// character (a proper prefix comes first).
pub open spec fn text_less(a: Seq<char>, b: Seq<char>) -> bool
    decreases a.len(),
{
    if a.len() == 0 || b.len() == 0 {
        a.len() < b.len()
    } else if a[0] != b[0] {
        a[0] < b[0]
    } else {
        text_less(a.drop_first(), b.drop_first())
    }
}

proof fn lemma_text_less_irreflexive(a: Seq<char>)
    ensures
        !text_less(a, a),
    decreases a.len(),
{
    if a.len() > 0 {
        lemma_text_less_irreflexive(a.drop_first());
    }
}

proof fn lemma_text_less_asymmetric(a: Seq<char>, b: Seq<char>)
    requires
        text_less(a, b),
    ensures
        !text_less(b, a),
    decreases a.len(),
{
    if a.len() > 0 && b.len() > 0 && a[0] == b[0] {
        lemma_text_less_asymmetric(a.drop_first(), b.drop_first());
    }
}

proof fn lemma_text_less_concat(a1: Seq<char>, b1: Seq<char>, a2: Seq<char>, b2: Seq<char>)
    requires
        a1.len() == a2.len(),
        text_less(a1, a2) || (a1 == a2 && text_less(b1, b2)),
    ensures
        text_less(a1 + b1, a2 + b2),
    decreases a1.len(),
{
    if a1.len() == 0 {
        assert(a1 + b1 =~= b1);
        assert(a2 + b2 =~= b2);
    } else {
        assert((a1 + b1)[0] == a1[0]);
        assert((a2 + b2)[0] == a2[0]);
        if a1[0] == a2[0] {
            assert((a1 + b1).drop_first() =~= a1.drop_first() + b1);
            assert((a2 + b2).drop_first() =~= a2.drop_first() + b2);
            lemma_text_less_concat(a1.drop_first(), b1, a2.drop_first(), b2);
        }
    }
}

proof fn lemma_single_less(c1: char, c2: char)
    requires
        c1 < c2,
    ensures
        text_less(seq![c1], seq![c2]),
{
}

proof fn lemma_zero_padded_push(n: nat, w: nat)
    requires
        w >= 2,
        n < pow10(w),
    ensures
        zero_padded(n, w) == zero_padded(n / 10, (w - 1) as nat).push(digit_char_of(n % 10)),
{
    lemma_nat_digits_len(n, w);
    if n >= 10 {
        let q = nat_digits(n / 10);
        assert(nat_digits(n) == q.push(digit_char_of(n % 10)));
        let k = (w - q.len() - 1) as nat;
        assert(Seq::new(k, |i: int| '0') + q.push(digit_char_of(n % 10)) =~= (Seq::new(
            k,
            |i: int| '0',
        ) + q).push(digit_char_of(n % 10)));
    } else {
        assert(digit_char_of(0) == '0');
        assert(nat_digits(0) == seq!['0']);
        assert(zero_padded(0, (w - 1) as nat) =~= Seq::new((w - 1) as nat, |i: int| '0'));
        assert(zero_padded(n, w) =~= Seq::new((w - 1) as nat, |i: int| '0').push(
            digit_char_of(n),
        ));
    }
}

/// The digit character of `d`, as `nat_digits` writes it.
spec fn digit_char_of(d: nat) -> char {
    crate::decimal::digit_char(d as int)
}

#[verifier::rlimit(40)]
proof fn lemma_zero_padded_less(n1: nat, n2: nat, w: nat)
    requires
        w >= 1,
        n1 < n2 < pow10(w),
    ensures
        text_less(zero_padded(n1, w), zero_padded(n2, w)),
    decreases w,
{
    if w == 1 {
        assert(pow10(1) == 10) by {
            assert(pow10(0) == 1);
        }
        lemma_single_less(digit_char_of(n1), digit_char_of(n2));
    } else {
        lemma_zero_padded_push(n1, w);
        lemma_zero_padded_push(n2, w);
        let (q1, q2) = (n1 / 10, n2 / 10);
        assert(q2 < pow10((w - 1) as nat));
        lemma_zero_padded_len(q1, (w - 1) as nat);
        lemma_zero_padded_len(q2, (w - 1) as nat);
        let (p1, p2) = (zero_padded(q1, (w - 1) as nat), zero_padded(q2, (w - 1) as nat));
        if q1 < q2 {
            lemma_zero_padded_less(q1, q2, (w - 1) as nat);
        } else {
            lemma_single_less(digit_char_of(n1 % 10), digit_char_of(n2 % 10));
        }
        lemma_text_less_concat(p1, seq![digit_char_of(n1 % 10)], p2, seq![digit_char_of(n2 % 10)]);
        assert(p1.push(digit_char_of(n1 % 10)) =~= p1 + seq![digit_char_of(n1 % 10)]);
        assert(p2.push(digit_char_of(n2 % 10)) =~= p2 + seq![digit_char_of(n2 % 10)]);
    }
}

/// `p1 + tail1` comes before `p2 + tail2` when `n1 < n2`, or when `n1 == n2`
/// and the tails are in order; `p` is `n` zero-padded to `w` digits.
proof fn lemma_field_then(
    n1: nat,
    n2: nat,
    w: nat,
    sep: char,
    tail1: Seq<char>,
    tail2: Seq<char>,
)
    requires
        w >= 1,
        n1 < pow10(w),
        n2 < pow10(w),
        n1 < n2 || (n1 == n2 && text_less(tail1, tail2)),
    ensures
        text_less(
            zero_padded(n1, w) + (seq![sep] + tail1),
            zero_padded(n2, w) + (seq![sep] + tail2),
        ),
{
    lemma_zero_padded_len(n1, w);
    lemma_zero_padded_len(n2, w);
    if n1 < n2 {
        lemma_zero_padded_less(n1, n2, w);
    } else {
        lemma_text_less_concat(seq![sep], tail1, seq![sep], tail2);
    }
    lemma_text_less_concat(
        zero_padded(n1, w),
        seq![sep] + tail1,
        zero_padded(n2, w),
        seq![sep] + tail2,
    );
}

proof fn lemma_date_time_text_nested(t: (i32, u32, u32, u32, u32, u32))
    requires
        0 <= t.0 <= 9999,
    ensures
        date_time_text(t) == zero_padded(t.0 as nat, 4) + (seq!['-'] + after_year(t)),
{
}

#[verifier::rlimit(40)]
proof fn lemma_text_follows_time(a: (i32, u32, u32, u32, u32, u32), b: (i32, u32, u32, u32, u32, u32))
    requires
        is_calendar_time(a),
        is_calendar_time(b),
        0 <= a.0 <= 9999,
        0 <= b.0 <= 9999,
        calendar_before(a, b),
    ensures
        text_less(date_time_text(a), date_time_text(b)),
{
    reveal_with_fuel(pow10, 5);
    lemma_date_time_text_nested(a);
    lemma_date_time_text_nested(b);
    let (m1, m2) = (zero_padded(a.5 as nat, 2), zero_padded(b.5 as nat, 2));
    if a.5 < b.5 {
        lemma_zero_padded_less(a.5 as nat, b.5 as nat, 2);
    }
    if a.4 < b.4 || (a.4 == b.4 && text_less(m1, m2)) {
        lemma_field_then(a.4 as nat, b.4 as nat, 2, ':', m1, m2);
    }
    if a.3 < b.3 || (a.3 == b.3 && text_less(minute_part(a), minute_part(b))) {
        lemma_field_then(a.3 as nat, b.3 as nat, 2, ':', minute_part(a), minute_part(b));
    }
    if a.2 < b.2 || (a.2 == b.2 && text_less(hour_part(a), hour_part(b))) {
        lemma_field_then(a.2 as nat, b.2 as nat, 2, ' ', hour_part(a), hour_part(b));
    }
    if a.1 < b.1 || (a.1 == b.1 && text_less(day_part(a), day_part(b))) {
        lemma_field_then(a.1 as nat, b.1 as nat, 2, '-', day_part(a), day_part(b));
    }
    lemma_field_then(a.0 as nat, b.0 as nat, 4, '-', after_year(a), after_year(b));
}

proof fn lemma_year_within_four_digits(t: (i32, u32, u32, u32, u32, u32))
    requires
        is_calendar_time(t),
        0 <= seconds_since_epoch(t) <= 253402300799,
    ensures
        0 <= t.0 <= 9999,
{
    let first: (i32, u32, u32, u32, u32, u32) = (0, 1, 1, 0, 0, 0);
    let last: (i32, u32, u32, u32, u32, u32) = (10000, 1, 1, 0, 0, 0);
    assert(days_from_civil(0, 1, 1) == -719528);
    assert(days_from_civil(10000, 1, 1) == 2932897);
    if t.0 < 0 {
        lemma_seconds_increase(t, first);
    }
    if t.0 > 9999 {
        lemma_seconds_increase(last, t);
    }
}

/// Law: the texts of the timestamps 0 to 253402300799 (the years 1970 to
/// 9999) have 19 characters each, come in the order of the timestamps, and
/// are equal only for equal timestamps.
#[verifier::rlimit(40)]
pub proof fn lemma_timestamp_texts_ordered(s1: int, s2: int)
    requires
        0 <= s1 <= s2 <= 253402300799,
        has_calendar_time(s1),
        has_calendar_time(s2),
    ensures
        date_time_text(calendar_time_of(s1)).len() == 19,
        date_time_text(calendar_time_of(s2)).len() == 19,
        !text_less(date_time_text(calendar_time_of(s2)), date_time_text(calendar_time_of(s1))),
        date_time_text(calendar_time_of(s1)) == date_time_text(calendar_time_of(s2)) <==> s1 == s2,
{
    let (a, b) = (calendar_time_of(s1), calendar_time_of(s2));
    assert(is_time_of(a, s1));
    assert(is_time_of(b, s2));
    lemma_year_within_four_digits(a);
    lemma_year_within_four_digits(b);
    lemma_date_time_text_layout(a);
    lemma_date_time_text_layout(b);
    let (ta, tb) = (date_time_text(a), date_time_text(b));
    if s1 == s2 {
        lemma_seconds_unique(a, b);
        lemma_text_less_irreflexive(ta);
    } else {
        if calendar_before(b, a) {
            lemma_seconds_increase(b, a);
        }
        if a == b {
        }
        assert(calendar_before(a, b));
        lemma_text_follows_time(a, b);
        lemma_text_less_asymmetric(ta, tb);
        if ta == tb {
            lemma_text_less_irreflexive(ta);
        }
    }
}

proof fn lemma_zero_padded_reads_back(n: nat, w: nat)
    requires
        w >= 1,
        n < pow10(w),
    ensures
        all_digits(zero_padded(n, w)),
        digits_value(zero_padded(n, w)) == n,
{
    crate::decimal::lemma_nat_digits_read_back(n);
    lemma_nat_digits_len(n, w);
    let d = nat_digits(n);
    if d.len() < w {
        let k = (w - d.len()) as nat;
        crate::decimal::lemma_leading_zeros_value(k, d);
        assert(zero_padded(n, w) =~= crate::decimal::zeros(k) + d);
    }
}

/// Law: the text of a date of the years 0 to 9999 reads back as the date:
/// its characters 0-3, 5-6, 8-9, 11-12, 14-15 and 17-18 are the decimal
/// digits of the year, month, day, hour, minute and second.
pub proof fn lemma_date_time_text_fields(t: (i32, u32, u32, u32, u32, u32))
    requires
        is_calendar_time(t),
        0 <= t.0 <= 9999,
    ensures
        all_digits(date_time_text(t).subrange(0, 4)),
        digits_value(date_time_text(t).subrange(0, 4)) == t.0,
        all_digits(date_time_text(t).subrange(5, 7)),
        digits_value(date_time_text(t).subrange(5, 7)) == t.1,
        all_digits(date_time_text(t).subrange(8, 10)),
        digits_value(date_time_text(t).subrange(8, 10)) == t.2,
        all_digits(date_time_text(t).subrange(11, 13)),
        digits_value(date_time_text(t).subrange(11, 13)) == t.3,
        all_digits(date_time_text(t).subrange(14, 16)),
        digits_value(date_time_text(t).subrange(14, 16)) == t.4,
        all_digits(date_time_text(t).subrange(17, 19)),
        digits_value(date_time_text(t).subrange(17, 19)) == t.5,
{
    reveal_with_fuel(pow10, 5);
    let text = date_time_text(t);
    let y = zero_padded(t.0 as nat, 4);
    let mo = zero_padded(t.1 as nat, 2);
    let d = zero_padded(t.2 as nat, 2);
    let h = zero_padded(t.3 as nat, 2);
    let mi = zero_padded(t.4 as nat, 2);
    let se = zero_padded(t.5 as nat, 2);
    lemma_zero_padded_len(t.0 as nat, 4);
    lemma_zero_padded_len(t.1 as nat, 2);
    lemma_zero_padded_len(t.2 as nat, 2);
    lemma_zero_padded_len(t.3 as nat, 2);
    lemma_zero_padded_len(t.4 as nat, 2);
    lemma_zero_padded_len(t.5 as nat, 2);
    lemma_zero_padded_reads_back(t.0 as nat, 4);
    lemma_zero_padded_reads_back(t.1 as nat, 2);
    lemma_zero_padded_reads_back(t.2 as nat, 2);
    lemma_zero_padded_reads_back(t.3 as nat, 2);
    lemma_zero_padded_reads_back(t.4 as nat, 2);
    lemma_zero_padded_reads_back(t.5 as nat, 2);
    let m = minute_part(t);
    let hp = hour_part(t);
    let dp = day_part(t);
    let ay = after_year(t);
    assert(text.subrange(0, 4) =~= y);
    assert(text.subrange(5, 19) =~= ay);
    assert(ay.subrange(0, 2) =~= mo);
    assert(ay.subrange(3, 14) =~= dp);
    assert(dp.subrange(0, 2) =~= d);
    assert(dp.subrange(3, 11) =~= hp);
    assert(hp.subrange(0, 2) =~= h);
    assert(hp.subrange(3, 8) =~= m);
    assert(m.subrange(0, 2) =~= mi);
    assert(m.subrange(3, 5) =~= se);
    assert(text.subrange(5, 7) =~= mo);
    assert(text.subrange(8, 10) =~= d);
    assert(text.subrange(11, 13) =~= h);
    assert(text.subrange(14, 16) =~= mi);
    assert(text.subrange(17, 19) =~= se);
}

} // verus!
