//! Calendar dates: a plain `(year, month, day)` value that is always a real
//! day of the proleptic Gregorian calendar, with what chrono computes of it
//! (its ISO week, its `%Y-%m-%d` text, parsing such text) and decimal text.
use vstd::prelude::*;

verus! {

/// Whether `y` is a leap year of the proleptic Gregorian calendar.
pub open spec fn is_leap(y: int) -> bool {
    (y % 4 == 0 && y % 100 != 0) || y % 400 == 0
}

/// The number of days of month `m` of year `y`.
pub open spec fn days_in_month(y: int, m: int) -> int {
    if m == 2 {
        if is_leap(y) {
            29
        } else {
            28
        }
    } else if m == 4 || m == 6 || m == 9 || m == 11 {
        30
    } else {
        31
    }
}

/// The earliest year that chrono's `NaiveDate` holds.
pub open spec fn min_year() -> int {
    -262143
}

/// The latest year that chrono's `NaiveDate` holds.
pub open spec fn max_year() -> int {
    262142
}

/// `(y, m, d)` is a day that chrono's `NaiveDate` can hold.
pub open spec fn is_calendar_date(y: int, m: int, d: int) -> bool {
    &&& min_year() <= y <= max_year()
    &&& 1 <= m <= 12
    &&& 1 <= d <= days_in_month(y, m)
}

/// A calendar date.
#[derive(Clone, Copy, Debug, PartialEq, Eq, Structural)]
pub struct Date {
    year: i32,
    month: u32,
    day: u32,
}

impl Date {
    #[verifier::type_invariant]
    spec fn valid(self) -> bool {
        is_calendar_date(self.year as int, self.month as int, self.day as int)
    }

    /// The year.
    pub closed spec fn y(self) -> i32 {
        self.year
    }

    /// The month, 1 to 12.
    pub closed spec fn m(self) -> u32 {
        self.month
    }

    /// The day of the month, from 1.
    pub closed spec fn d(self) -> u32 {
        self.day
    }

    /// The date `year-month-day`, if that day exists (`NaiveDate::from_ymd_opt`).
    pub fn from_ymd(year: i32, month: u32, day: u32) -> (r: Option<Date>)
        ensures
            r is Some <==> is_calendar_date(year as int, month as int, day as int),
            r matches Some(d) ==> d.y() == year && d.m() == month && d.d() == day,
    {
        if chrono_date_exists(year, month, day) {
            Some(Date { year, month, day })
        } else {
            None
        }
    }

    /// The year.
    pub fn year(&self) -> (r: i32)
        ensures
            r == self.y(),
    {
        self.year
    }

    /// The month.
    pub fn month(&self) -> (r: u32)
        ensures
            r == self.m(),
    {
        self.month
    }

    /// The day of the month.
    pub fn day(&self) -> (r: u32)
        ensures
            r == self.d(),
    {
        self.day
    }

    /// `self` comes before `other`, or is the same day.
    pub open spec fn le(self, other: Date) -> bool {
        ||| self.y() < other.y()
        ||| self.y() == other.y() && self.m() < other.m()
        ||| self.y() == other.y() && self.m() == other.m() && self.d() <= other.d()
    }

    /// Two dates are the same exactly when their year, month and day are.
    pub proof fn lemma_same_date(self, other: Date)
        ensures
            (self.y() == other.y() && self.m() == other.m() && self.d() == other.d()) == (self == other),
    {
    }

    /// Chronological order: `self` is on or before `other`.
    pub fn on_or_before(&self, other: &Date) -> (r: bool)
        ensures
            r == self.le(*other),
    {
        self.year < other.year || (self.year == other.year && self.month < other.month) || (
        self.year == other.year && self.month == other.month && self.day <= other.day)
    }

    /// The ISO week-numbering year and ISO week of this date.
    pub fn iso_week(&self) -> (r: (i32, u32))
        ensures
            r == iso_week_of(self.y(), self.m(), self.d()),
            1 <= r.1 <= 53,
    {
        proof {
            use_type_invariant(self);
        }
        chrono_iso_week(self.year, self.month, self.day)
    }

    /// The date as `%Y-%m-%d` text.
    pub fn to_ymd_string(&self) -> (r: String)
        ensures
            r@ == ymd_text(self.y() as int, self.m() as int, self.d() as int),
    {
        proof {
            use_type_invariant(self);
        }
        chrono_ymd_text(self.year, self.month, self.day)
    }

    /// Parse a `%Y-%m-%d` date (`NaiveDate::parse_from_str`).
    pub fn parse_ymd(s: &str) -> (r: Option<Date>)
        ensures
            r is Some <==> parse_ymd_of(s@) is Some,
            r matches Some(d) ==> parse_ymd_of(s@) == Some((d.y(), d.m(), d.d())),
            forall|y: i32, m: u32, d: u32| #[trigger] plain_ymd(s@, y, m, d) ==> (r matches Some(x) && x.y()
                == y && x.m() == m && x.d() == d),
    {
        match chrono_parse_ymd(s) {
            Some(t) => {
                let (year, month, day) = t;
                Some(Date { year, month, day })
            },
            None => None,
        }
    }
}

/// Whether chrono's `NaiveDate::from_ymd_opt(year, month, day)` gives a date.
///
/// Trusted: chrono returns `None` exactly when the month or day is invalid,
/// the day does not exist in that month, or the year lies outside
/// `MIN_YEAR..=MAX_YEAR` (-262143..=262142 in the version used).
#[verifier::external_body]
fn chrono_date_exists(year: i32, month: u32, day: u32) -> (r: bool)
    ensures
        r == is_calendar_date(year as int, month as int, day as int),
{
    chrono::NaiveDate::from_ymd_opt(year, month, day).is_some()
}

/// The days from 0001-01-01 to the first day of year `y` (negative for the
/// years before).
pub open spec fn days_before_year(y: int) -> int {
    let p = y - 1;
    365 * p + p / 4 - p / 100 + p / 400
}

/// The days of the months of year `y` before month `m`.
pub open spec fn days_before_month(y: int, m: int) -> int {
    let base = seq![0int, 31, 59, 90, 120, 151, 181, 212, 243, 273, 304, 334][m - 1];
    if m > 2 && is_leap(y) {
        base + 1
    } else {
        base
    }
}

/// The number of the day `(y, m, d)`: the days since 0001-01-01, which is a
/// Monday, so that the number modulo 7 counts the weekday from Monday.
pub open spec fn day_number(y: int, m: int, d: int) -> int {
    days_before_year(y) + days_before_month(y, m) + d - 1
}

/// The ISO 8601 week-numbering year and week of the date `(y, m, d)`: weeks
/// run from Monday to Sunday and belong to the year that holds their
/// Thursday; week 1 is the week of that year's first Thursday. (Opaque to
/// proofs, which need only that it depends on the date alone.)
#[verifier::opaque]
pub open spec fn iso_week_of(y: i32, m: u32, d: u32) -> (i32, u32) {
    let n = day_number(y as int, m as int, d as int);
    let thursday = n - n % 7 + 3;
    let year = if thursday < days_before_year(y as int) {
        y - 1
    } else if thursday >= days_before_year(y + 1) {
        y + 1
    } else {
        y as int
    };
    (year as i32, ((thursday - days_before_year(year)) / 7 + 1) as u32)
}

/// chrono's `NaiveDate::iso_week`, as `(year, week)`.
///
/// Trusted: chrono documents `iso_week` as the ISO 8601 week date of the
/// day (stated as `iso_week_of`), with the week ranging from 1 to 53.
#[verifier::external_body]
fn chrono_iso_week(y: i32, m: u32, d: u32) -> (r: (i32, u32))
    requires
        is_calendar_date(y as int, m as int, d as int),
    ensures
        r == iso_week_of(y, m, d),
        1 <= r.1 <= 53,
{
    let w = chrono::Datelike::iso_week(&chrono::NaiveDate::from_ymd_opt(y, m, d).unwrap());
    (w.year(), w.week())
}

/// The character of the decimal digit `n`.
pub open spec fn digit(n: int) -> char {
    seq!['0', '1', '2', '3', '4', '5', '6', '7', '8', '9'][n]
}

/// The decimal digits of `n`, without leading zeros.
pub open spec fn decimal(n: nat) -> Seq<char>
    decreases n,
{
    if n < 10 {
        seq![digit(n as int)]
    } else {
        decimal(n / 10).push(digit((n % 10) as int))
    }
}

/// `s` padded with leading `'0'`s to at least `w` characters.
pub open spec fn zero_pad(s: Seq<char>, w: nat) -> Seq<char> {
    if s.len() >= w {
        s
    } else {
        Seq::new((w - s.len()) as nat, |_i: int| '0') + s
    }
}

/// The decimal text of `n`, with a leading `-` when it is negative
/// (`to_string` of an integer).
pub open spec fn int_text(n: int) -> Seq<char> {
    if n < 0 {
        seq!['-'] + decimal((-n) as nat)
    } else {
        decimal(n as nat)
    }
}

/// `%Y`: the year zero-padded to four digits, with a sign when it is outside
/// `0..=9999`.
pub open spec fn year_text(y: int) -> Seq<char> {
    if 0 <= y <= 9999 {
        zero_pad(decimal(y as nat), 4)
    } else if y < 0 {
        seq!['-'] + zero_pad(decimal((-y) as nat), 4)
    } else {
        seq!['+'] + zero_pad(decimal(y as nat), 4)
    }
}

/// `%Y-%m-%d`.
pub open spec fn ymd_text(y: int, m: int, d: int) -> Seq<char> {
    year_text(y) + seq!['-'] + zero_pad(decimal(m as nat), 2) + seq!['-'] + zero_pad(
        decimal(d as nat),
        2,
    )
}

/// chrono's `NaiveDate::format("%Y-%m-%d")` of the date `(y, m, d)`.
///
/// Trusted: chrono documents `%Y` as the year zero-padded to 4 digits, with
/// an explicit sign before 1 BCE or after 9999 CE, and `%m`, `%d` as
/// zero-padded to 2 digits; its formatting code writes exactly that.
#[verifier::external_body]
fn chrono_ymd_text(y: i32, m: u32, d: u32) -> (r: String)
    requires
        is_calendar_date(y as int, m as int, d as int),
    ensures
        r@ == ymd_text(y as int, m as int, d as int),
{
    chrono::NaiveDate::from_ymd_opt(y, m, d).unwrap().format("%Y-%m-%d").to_string()
}

/// What chrono's `NaiveDate::parse_from_str(s, "%Y-%m-%d")` gives for `s`, as
/// `(year, month, day)`.
pub uninterp spec fn parse_ymd_of(s: Seq<char>) -> Option<(i32, u32, u32)>;

/// `s` is the `%Y-%m-%d` text of the day `y-m-d` of one of the years 0 to
/// 9999 (four digits, no sign).
pub open spec fn plain_ymd(s: Seq<char>, y: i32, m: u32, d: u32) -> bool {
    &&& 0 <= y <= 9999
    &&& is_calendar_date(y as int, m as int, d as int)
    &&& s == ymd_text(y as int, m as int, d as int)
}

/// chrono's `NaiveDate::parse_from_str(s, "%Y-%m-%d")`, as `(year, month, day)`.
///
/// Trusted: the result is a function of `s` alone (named `parse_ymd_of`),
/// and a parsed `NaiveDate` is always a day that `NaiveDate` can hold. The
/// `%Y-%m-%d` text that chrono writes for a day of the years 0 to 9999
/// (four digits, a `-`, two digits, a `-`, two digits) parses back to that
/// day: `%Y` without a sign reads up to four digits, `%m` and `%d` up to two.
/// Which other texts parse is not stated here.
#[verifier::external_body]
fn chrono_parse_ymd(s: &str) -> (r: Option<(i32, u32, u32)>)
    ensures
        r == parse_ymd_of(s@),
        r matches Some(t) ==> is_calendar_date(t.0 as int, t.1 as int, t.2 as int),
        forall|y: i32, m: u32, d: u32| #[trigger] plain_ymd(s@, y, m, d) ==> r == Some((y, m, d)),
{
    match chrono::NaiveDate::parse_from_str(s, "%Y-%m-%d") {
        Ok(d) => Some((chrono::Datelike::year(&d), chrono::Datelike::month(&d), chrono::Datelike::day(&d))),
        Err(_) => None,
    }
}

/// The character of the decimal digit `d`.
fn digit_char(d: u64) -> (c: char)
    requires
        d < 10,
    ensures
        c == digit(d as int),
{
    match d {
        0 => '0',
        1 => '1',
        2 => '2',
        3 => '3',
        4 => '4',
        5 => '5',
        6 => '6',
        7 => '7',
        8 => '8',
        _ => '9',
    }
}

/// Appends the decimal digits of `n`.
pub fn push_decimal(out: &mut Vec<char>, n: u64)
    ensures
        final(out)@ == old(out)@ + decimal(n as nat),
    decreases n,
{
    if n >= 10 {
        push_decimal(out, n / 10);
    }
    out.push(digit_char(n % 10));
    proof {
        if n < 10 {
            assert(n % 10 == n);
        }
    }
}

proof fn lemma_decimal_len(n: nat)
    ensures
        decimal(n).len() >= 1,
        n < 10 ==> decimal(n).len() == 1,
        n < 100 ==> decimal(n).len() <= 2,
    decreases n,
{
    if n >= 10 {
        lemma_decimal_len(n / 10);
    }
}

/// Appends the decimal digits of `n`, zero-padded to at least `w` characters.
pub fn push_padded(out: &mut Vec<char>, n: u64, w: usize)
    requires
        w <= 4,
    ensures
        final(out)@ == old(out)@ + zero_pad(decimal(n as nat), w as nat),
{
    let mut digits: Vec<char> = Vec::new();
    push_decimal(&mut digits, n);
    assert(digits@ =~= decimal(n as nat));
    let ghost start = out@;
    if digits.len() < w {
        let mut k = digits.len();
        while k < w
            invariant
                digits.len() <= k <= w,
                out@ == start + Seq::new((k - digits.len()) as nat, |_i: int| '0'),
            decreases w - k,
        {
            out.push('0');
            proof {
                assert(start + Seq::new((k + 1 - digits.len()) as nat, |_i: int| '0') =~= start
                    + Seq::new((k - digits.len()) as nat, |_i: int| '0') + seq!['0']);
            }
            k = k + 1;
        }
    }
    crate::text::push_all(out, &digits);
    proof {
        if digits.len() < w {
            assert(out@ =~= start + zero_pad(decimal(n as nat), w as nat));
        } else {
            assert(out@ =~= start + zero_pad(decimal(n as nat), w as nat));
        }
    }
}

/// Appends `int_text(n)`.
pub fn push_int(out: &mut Vec<char>, n: i64)
    ensures
        final(out)@ == old(out)@ + int_text(n as int),
{
    if n < 0 {
        out.push('-');
        let m: u64 = if n == i64::MIN {
            9223372036854775808u64
        } else {
            (-n) as u64
        };
        let ghost mid = out@;
        push_decimal(out, m);
        proof {
            assert(m == -n);
            assert(out@ =~= old(out)@ + int_text(n as int));
        }
    } else {
        push_decimal(out, n as u64);
    }
}

proof fn lemma_digit_is_digit(k: int)
    requires
        0 <= k < 10,
    ensures
        '0' <= digit(k) <= '9',
{
    let ds = seq!['0', '1', '2', '3', '4', '5', '6', '7', '8', '9'];
    assert(digit(k) == ds[k]);
    if k == 0 {
    } else if k == 1 {
    } else if k == 2 {
    } else if k == 3 {
    } else if k == 4 {
    } else if k == 5 {
    } else if k == 6 {
    } else if k == 7 {
    } else if k == 8 {
    } else {
    }
}

/// The decimal text of `n` is made of digits, four at most below 10000 and
/// two at most below 100.
pub proof fn lemma_decimal_digits(n: nat)
    ensures
        decimal(n).len() >= 1,
        n < 10000 ==> decimal(n).len() <= 4,
        n < 1000 ==> decimal(n).len() <= 3,
        n < 100 ==> decimal(n).len() <= 2,
        n < 10 ==> decimal(n).len() == 1,
        forall|i: int| 0 <= i < decimal(n).len() ==> '0' <= #[trigger] decimal(n)[i] <= '9',
    decreases n,
{
    if n < 10 {
        lemma_digit_is_digit(n as int);
        assert(decimal(n) =~= seq![digit(n as int)]);
    } else {
        lemma_decimal_digits(n / 10);
        lemma_digit_is_digit((n % 10) as int);
        assert(n < 10000 ==> n / 10 < 1000);
        assert(n < 1000 ==> n / 10 < 100);
        assert(n < 100 ==> n / 10 < 10);
        let s = decimal(n);
        assert(s =~= decimal(n / 10).push(digit((n % 10) as int)));
        assert forall|i: int| 0 <= i < s.len() implies '0' <= #[trigger] s[i] <= '9' by {
            if i < s.len() - 1 {
                assert(s[i] == decimal(n / 10)[i]);
            }
        }
    }
}

/// `zero_pad` of digits to `w`, when they are no more than `w`, is `w`
/// digits.
pub proof fn lemma_pad_digits(s: Seq<char>, w: nat)
    requires
        s.len() <= w,
        forall|i: int| 0 <= i < s.len() ==> '0' <= #[trigger] s[i] <= '9',
    ensures
        zero_pad(s, w).len() == w,
        forall|i: int| 0 <= i < w ==> '0' <= #[trigger] zero_pad(s, w)[i] <= '9',
{
    let p = zero_pad(s, w);
    if s.len() < w {
        let z = Seq::new((w - s.len()) as nat, |_i: int| '0');
        assert(p == z + s);
        assert forall|i: int| 0 <= i < w implies '0' <= #[trigger] p[i] <= '9' by {
            if i >= z.len() {
                assert(p[i] == s[i - z.len()]);
            }
        }
    }
}

/// The `%Y-%m-%d` text of a day of the years 0 to 9999 is ten ASCII
/// characters: digits, with `-` at positions 4 and 7.
pub proof fn lemma_ymd_shape(y: int, m: int, d: int)
    requires
        0 <= y <= 9999,
        1 <= m <= 12,
        1 <= d <= 31,
    ensures
        ymd_text(y, m, d).len() == 10,
        forall|i: int|
            0 <= i < 10 && i != 4 && i != 7 ==> '0' <= #[trigger] ymd_text(y, m, d)[i] <= '9',
        ymd_text(y, m, d)[4] == '-',
        ymd_text(y, m, d)[7] == '-',
{
    lemma_decimal_digits(y as nat);
    lemma_decimal_digits(m as nat);
    lemma_decimal_digits(d as nat);
    lemma_pad_digits(decimal(y as nat), 4);
    lemma_pad_digits(decimal(m as nat), 2);
    lemma_pad_digits(decimal(d as nat), 2);
    let yt = zero_pad(decimal(y as nat), 4);
    let mt = zero_pad(decimal(m as nat), 2);
    let dt = zero_pad(decimal(d as nat), 2);
    let t = ymd_text(y, m, d);
    assert(t == yt + seq!['-'] + mt + seq!['-'] + dt);
    assert forall|i: int| 0 <= i < 10 && i != 4 && i != 7 implies '0' <= #[trigger] t[i] <= '9' by {
        if i < 4 {
            assert(t[i] == yt[i]);
        } else if i < 7 {
            assert(t[i] == mt[i - 5]);
        } else {
            assert(t[i] == dt[i - 8]);
        }
    }
}

} // verus!
