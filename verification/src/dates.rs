use vstd::prelude::*;
use chrono::Datelike;

verus! {

/// Smallest year a date can have.
pub const MIN_YEAR: i32 = -262143;

/// Largest year a date can have.
pub const MAX_YEAR: i32 = 262142;

/// Day number of the earliest date, January 1 of `MIN_YEAR`.
pub const MIN_DAY_NUMBER: i32 = -95746129;

/// Day number of the latest date, December 31 of `MAX_YEAR`.
pub const MAX_DAY_NUMBER: i32 = 95745399;

/// Leap years of the proleptic Gregorian calendar.
pub open spec fn is_leap_year(y: int) -> bool {
    y % 4 == 0 && (y % 100 != 0 || y % 400 == 0)
}

/// Number of days in month `m` (1 to 12) of year `y`.
pub open spec fn days_in_month(y: int, m: int) -> int {
    if m == 2 {
        if is_leap_year(y) {
            29
        } else {
            28
        }
    } else if m == 4 || m == 6 || m == 9 || m == 11 {
        30
    } else {
        31
    }
}

/// `(y, m, d)` names an existing calendar day inside the supported years.
pub open spec fn valid_ymd(y: int, m: int, d: int) -> bool {
    &&& MIN_YEAR <= y <= MAX_YEAR
    &&& 1 <= m <= 12
    &&& 1 <= d <= days_in_month(y, m)
}

/// Days of year `y` that come before the first of month `m`.
pub open spec fn days_before_month(y: int, m: int) -> int {
    let common: int = if m == 1 {
        0
    } else if m == 2 {
        31
    } else if m == 3 {
        59
    } else if m == 4 {
        90
    } else if m == 5 {
        120
    } else if m == 6 {
        151
    } else if m == 7 {
        181
    } else if m == 8 {
        212
    } else if m == 9 {
        243
    } else if m == 10 {
        273
    } else if m == 11 {
        304
    } else {
        334
    };
    if m > 2 && is_leap_year(y) {
        common + 1
    } else {
        common
    }
}

/// Number of a day in the proleptic Gregorian calendar, counting January 1 of
/// year 1 as day 1 (days before it are zero or negative).
pub open spec fn day_number(y: int, m: int, d: int) -> int {
    let p = y - 1;
    365 * p + p / 4 - p / 100 + p / 400 + days_before_month(y, m) + d
}

/// Day of the week of a day number, Monday = 1 through Sunday = 7
/// (day 1, January 1 of year 1, is a Monday).
pub open spec fn weekday_of(day: int) -> int {
    (day - 1) % 7 + 1
}

/// Monday to Friday.
pub open spec fn is_business_day(day: int) -> bool {
    weekday_of(day) <= 5
}

/// A calendar date, held as its day number.
#[derive(Clone, Copy, Debug, PartialEq, Eq, Structural)]
pub struct Date {
    day: i32,
}

impl View for Date {
    type V = int;

    closed spec fn view(&self) -> int {
        self.day as int
    }
}

impl Date {
    #[verifier::type_invariant]
    spec fn in_range(self) -> bool {
        MIN_DAY_NUMBER <= self.day <= MAX_DAY_NUMBER
    }

    /// The date with the given year, month and day; `None` where no such day
    /// exists or the year is outside the supported range.
    pub fn from_ymd(year: i32, month: u32, day: u32) -> (r: Option<Date>)
        ensures
            r is Some <==> valid_ymd(year as int, month as int, day as int),
            r matches Some(d) ==> d@ == day_number(year as int, month as int, day as int),
    {
        chrono_from_ymd(year, month, day)
    }

    /// Day number of the date (January 1 of year 1 is day 1).
    pub fn num_days_from_ce(&self) -> (r: i32)
        ensures
            r == self@,
            MIN_DAY_NUMBER <= r <= MAX_DAY_NUMBER,
    {
        proof {
            use_type_invariant(self);
        }
        self.day
    }

    /// Year, month and day of the date.
    pub fn ymd(&self) -> (r: (i32, u32, u32))
        ensures
            valid_ymd(r.0 as int, r.1 as int, r.2 as int),
            day_number(r.0 as int, r.1 as int, r.2 as int) == self@,
    {
        proof {
            use_type_invariant(self);
        }
        chrono_ymd(*self)
    }

    /// Day of the week, Monday = 1 through Sunday = 7.
    pub fn weekday_from_monday(&self) -> (r: u32)
        ensures
            r == weekday_of(self@),
            1 <= r <= 7,
    {
        proof {
            use_type_invariant(self);
        }
        chrono_weekday(*self)
    }
}

/// Calls `chrono::NaiveDate::from_ymd_opt` and reads the day number of the result
/// with `Datelike::num_days_from_ce`.
/// Claimed: a date comes back exactly for existing days of the proleptic
/// Gregorian calendar in the supported years, and its day number counts
/// January 1 of year 1 as day 1.
#[verifier::external_body]
fn chrono_from_ymd(year: i32, month: u32, day: u32) -> (r: Option<Date>)
    ensures
        r is Some <==> valid_ymd(year as int, month as int, day as int),
        r matches Some(d) ==> d@ == day_number(year as int, month as int, day as int),
{
    match chrono::NaiveDate::from_ymd_opt(year, month, day) {
        Some(d) => Some(Date { day: d.num_days_from_ce() }),
        None => None,
    }
}

/// Calls `chrono::NaiveDate::from_num_days_from_ce_opt` and then
/// `Datelike::year`, `month` and `day`.
/// Claimed: the returned triple is a valid calendar day whose day number is the
/// argument's.
#[verifier::external_body]
fn chrono_ymd(d: Date) -> (r: (i32, u32, u32))
    requires
        MIN_DAY_NUMBER <= d@ <= MAX_DAY_NUMBER,
    ensures
        valid_ymd(r.0 as int, r.1 as int, r.2 as int),
        day_number(r.0 as int, r.1 as int, r.2 as int) == d@,
{
    let nd = chrono::NaiveDate::from_num_days_from_ce_opt(d.day).unwrap();
    (nd.year(), nd.month(), nd.day())
}

/// Calls `chrono::NaiveDate::from_num_days_from_ce_opt`, `Datelike::weekday`
/// and `Weekday::number_from_monday`.
/// Claimed: Monday is 1 and Sunday 7, and day 1 (January 1 of year 1) is a
/// Monday in the proleptic Gregorian calendar.
#[verifier::external_body]
fn chrono_weekday(d: Date) -> (r: u32)
    requires
        MIN_DAY_NUMBER <= d@ <= MAX_DAY_NUMBER,
    ensures
        r == weekday_of(d@),
{
    chrono::NaiveDate::from_num_days_from_ce_opt(d.day).unwrap().weekday().number_from_monday()
}

/// Calls `NaiveDate + TimeDelta::days(n)` (`Add<TimeDelta> for NaiveDate`).
/// Claimed: the result is `n` days later (earlier for negative `n`). The call is
/// only made where that day is in the supported range; the outside code panics
/// otherwise.
#[verifier::external_body]
fn chrono_add_days(d: Date, n: i64) -> (r: Date)
    requires
        MIN_DAY_NUMBER <= d@ <= MAX_DAY_NUMBER,
        MIN_DAY_NUMBER <= d@ + n <= MAX_DAY_NUMBER,
    ensures
        r@ == d@ + n,
{
    let nd = chrono::NaiveDate::from_num_days_from_ce_opt(d.day).unwrap();
    Date { day: (nd + chrono::TimeDelta::days(n)).num_days_from_ce() }
}

/// Calls `NaiveDate - NaiveDate` (`Sub<NaiveDate> for NaiveDate`) and
/// `TimeDelta::num_days`.
/// Claimed: the result is the number of days from `start` to `end`.
#[verifier::external_body]
fn chrono_days_between(start: Date, end: Date) -> (r: i64)
    requires
        MIN_DAY_NUMBER <= start@ <= MAX_DAY_NUMBER,
        MIN_DAY_NUMBER <= end@ <= MAX_DAY_NUMBER,
    ensures
        r == end@ - start@,
{
    let s = chrono::NaiveDate::from_num_days_from_ce_opt(start.day).unwrap();
    let e = chrono::NaiveDate::from_num_days_from_ce_opt(end.day).unwrap();
    (e - s).num_days()
}

/// `days_count` consecutive dates starting at `start` (like NumPy's `arange`
/// on `datetime64`).
pub fn date_range(start: Date, days_count: usize) -> (res: Vec<Date>)
    requires
        days_count == 0 || start@ + days_count - 1 <= MAX_DAY_NUMBER,
    ensures
        res.len() == days_count,
        forall|i: int| 0 <= i < days_count ==> #[trigger] res[i]@ == start@ + i,
{
    proof {
        use_type_invariant(&start);
    }
    let mut dates: Vec<Date> = Vec::new();
    for i in 0..days_count
        invariant
            dates.len() == i,
            MIN_DAY_NUMBER <= start@ <= MAX_DAY_NUMBER,
            days_count == 0 || start@ + days_count - 1 <= MAX_DAY_NUMBER,
            forall|k: int| 0 <= k < i ==> #[trigger] dates[k]@ == start@ + k,
    {
        dates.push(chrono_add_days(start, i as i64));
    }
    dates
}

/// Every date moved by `days` days.
pub fn add_days(dates: &Vec<Date>, days: i64) -> (res: Vec<Date>)
    requires
        forall|i: int|
            0 <= i < dates.len() ==> MIN_DAY_NUMBER <= #[trigger] dates[i]@ + days
                <= MAX_DAY_NUMBER,
    ensures
        res.len() == dates.len(),
        forall|i: int| 0 <= i < dates.len() ==> #[trigger] res[i]@ == dates[i]@ + days,
{
    let mut out: Vec<Date> = Vec::new();
    for i in 0..dates.len()
        invariant
            out.len() == i,
            forall|k: int|
                0 <= k < dates.len() ==> MIN_DAY_NUMBER <= #[trigger] dates[k]@ + days
                    <= MAX_DAY_NUMBER,
            forall|k: int| 0 <= k < i ==> #[trigger] out[k]@ == dates[k]@ + days,
    {
        let d = dates[i];
        proof {
            use_type_invariant(&d);
        }
        out.push(chrono_add_days(d, days));
    }
    out
}

/// Days from each start date to the matching end date; like a zip, only the
/// common prefix of the two arrays is used.
pub fn date_difference_days(start_dates: &Vec<Date>, end_dates: &Vec<Date>) -> (res: Vec<i64>)
    ensures
        res.len() == if start_dates.len() <= end_dates.len() {
            start_dates.len()
        } else {
            end_dates.len()
        },
        forall|i: int| 0 <= i < res.len() ==> #[trigger] res[i] == end_dates[i]@ - start_dates[i]@,
{
    let n = if start_dates.len() <= end_dates.len() {
        start_dates.len()
    } else {
        end_dates.len()
    };
    let mut out: Vec<i64> = Vec::new();
    for i in 0..n
        invariant
            n <= start_dates.len(),
            n <= end_dates.len(),
            out.len() == i,
            forall|k: int| 0 <= k < i ==> #[trigger] out[k] == end_dates[k]@ - start_dates[k]@,
    {
        let s = start_dates[i];
        let e = end_dates[i];
        proof {
            use_type_invariant(&s);
            use_type_invariant(&e);
        }
        out.push(chrono_days_between(s, e));
    }
    out
}

/// Positions among the first `n` dates that fall on business days, in order.
pub open spec fn business_positions(dates: Seq<Date>, n: nat) -> Seq<int>
    decreases n,
{
    if n == 0 {
        Seq::empty()
    } else {
        let before = business_positions(dates, (n - 1) as nat);
        if is_business_day(dates[n - 1]@) {
            before.push(n - 1)
        } else {
            before
        }
    }
}

/// The dates that fall on Monday to Friday, with the values at the same
/// positions; like a zip, only the common prefix of the two arrays is used.
pub fn filter_business_days<V: Copy>(dates: &Vec<Date>, values: &Vec<V>) -> (res: (
    Vec<Date>,
    Vec<V>,
))
    ensures
        ({
            let n = if dates.len() <= values.len() {
                dates.len()
            } else {
                values.len()
            };
            let kept = business_positions(dates@, n as nat);
            &&& res.0.len() == kept.len()
            &&& res.1.len() == kept.len()
            &&& forall|j: int| 0 <= j < kept.len() ==> #[trigger] res.0[j] == dates[kept[j]]
            &&& forall|j: int| 0 <= j < kept.len() ==> #[trigger] res.1[j] == values[kept[j]]
        }),
{
    let n = if dates.len() <= values.len() {
        dates.len()
    } else {
        values.len()
    };
    let mut filtered_dates: Vec<Date> = Vec::new();
    let mut filtered_values: Vec<V> = Vec::new();
    for i in 0..n
        invariant
            n <= dates.len(),
            n <= values.len(),
            filtered_dates.len() == business_positions(dates@, i as nat).len(),
            filtered_values.len() == filtered_dates.len(),
            forall|j: int|
                0 <= j < filtered_dates.len() ==> #[trigger] filtered_dates[j]
                    == dates[business_positions(dates@, i as nat)[j]],
            forall|j: int|
                0 <= j < filtered_values.len() ==> #[trigger] filtered_values[j]
                    == values[business_positions(dates@, i as nat)[j]],
    {
        let d = dates[i];
        let v = values[i];
        let weekday = d.weekday_from_monday();
        let ghost before = business_positions(dates@, i as nat);
        assert(business_positions(dates@, (i + 1) as nat) == if is_business_day(dates@[i as int]@) {
            before.push(i as int)
        } else {
            before
        });
        if weekday <= 5 {
            filtered_dates.push(d);
            filtered_values.push(v);
        }
    }
    (filtered_dates, filtered_values)
}

/// Law: the positions kept by `filter_business_days` are increasing, and a
/// position below `n` is kept exactly when its date is a business day.
pub proof fn lemma_business_positions(dates: Seq<Date>, n: nat)
    requires
        n <= dates.len(),
    ensures
        forall|i: int, j: int|
            0 <= i < j < business_positions(dates, n).len() ==> business_positions(dates, n)[i]
                < business_positions(dates, n)[j],
        forall|j: int|
            0 <= j < business_positions(dates, n).len() ==> 0 <= #[trigger] business_positions(
                dates,
                n,
            )[j] < n,
        forall|k: int|
            0 <= k < n ==> (business_positions(dates, n).contains(k) <==> is_business_day(
                #[trigger] dates[k]@,
            )),
    decreases n,
{
    if n > 0 {
        let m = (n - 1) as nat;
        lemma_business_positions(dates, m);
        let before = business_positions(dates, m);
        let now = business_positions(dates, n);
        assert forall|k: int| 0 <= k < n implies (now.contains(k) <==> is_business_day(
            #[trigger] dates[k]@,
        )) by {
            if k < m {
                if now.contains(k) {
                    let j = choose|j: int| 0 <= j < now.len() && now[j] == k;
                    if j < before.len() {
                        assert(before[j] == k);
                    }
                }
                if before.contains(k) {
                    let j = choose|j: int| 0 <= j < before.len() && before[j] == k;
                    assert(now[j] == k);
                }
            } else {
                if is_business_day(dates[k]@) {
                    assert(now[now.len() - 1] == k);
                } else if now.contains(k) {
                    let j = choose|j: int| 0 <= j < now.len() && now[j] == k;
                    assert(before[j] < m);
                }
            }
        }
    }
}

/// Law: shifting dates by `n` days and then measuring from the unshifted dates gives
/// `n` for every date (`date_difference_days(d, add_days(d, n))`).
pub proof fn lemma_shift_then_difference(
    dates: Seq<Date>,
    shifted: Seq<Date>,
    diffs: Seq<i64>,
    n: int,
)
    requires
        shifted.len() == dates.len(),
        forall|i: int| 0 <= i < dates.len() ==> #[trigger] shifted[i]@ == dates[i]@ + n,
        diffs.len() == dates.len(),
        forall|i: int| 0 <= i < diffs.len() ==> #[trigger] diffs[i] == shifted[i]@ - dates[i]@,
    ensures
        forall|i: int| 0 <= i < diffs.len() ==> #[trigger] diffs[i] == n,
{
    assert forall|i: int| 0 <= i < diffs.len() implies #[trigger] diffs[i] == n by {
        assert(shifted[i]@ == dates[i]@ + n);
    }
}

/// Law: shifting by `a` days and then by `b` days lands on the same days as
/// shifting once by `a + b` days.
pub proof fn lemma_shifts_compose(
    dates: Seq<Date>,
    once: Seq<Date>,
    twice: Seq<Date>,
    direct: Seq<Date>,
    a: int,
    b: int,
)
    requires
        once.len() == dates.len(),
        twice.len() == dates.len(),
        direct.len() == dates.len(),
        forall|i: int| 0 <= i < dates.len() ==> #[trigger] once[i]@ == dates[i]@ + a,
        forall|i: int| 0 <= i < dates.len() ==> #[trigger] twice[i]@ == once[i]@ + b,
        forall|i: int| 0 <= i < dates.len() ==> #[trigger] direct[i]@ == dates[i]@ + (a + b),
    ensures
        forall|i: int| 0 <= i < dates.len() ==> #[trigger] twice[i]@ == direct[i]@,
{
    assert forall|i: int| 0 <= i < dates.len() implies #[trigger] twice[i]@ == direct[i]@ by {
        assert(once[i]@ == dates[i]@ + a);
    }
}

/// Law: the day of the week repeats every seven days and lies between 1 and 7.
pub proof fn lemma_weekday_period(day: int)
    ensures
        1 <= weekday_of(day) <= 7,
        weekday_of(day + 7) == weekday_of(day),
{
    vstd::arithmetic::div_mod::lemma_mod_bound(day - 1, 7);
    vstd::arithmetic::div_mod::lemma_mod_add_multiples_vanish(day - 1, 7);
}

/// Law: among seven consecutive dates, exactly five are business days, so
/// `filter_business_days` keeps five entries of any full week.
pub proof fn lemma_week_has_five_business_days(dates: Seq<Date>)
    requires
        dates.len() == 7,
        forall|i: int| 0 <= i < 7 ==> #[trigger] dates[i]@ == dates[0]@ + i,
    ensures
        business_positions(dates, 7).len() == 5,
{
    let s = dates[0]@;
    let r = (s - 1) % 7;
    vstd::arithmetic::div_mod::lemma_fundamental_div_mod(s - 1, 7);
    vstd::arithmetic::div_mod::lemma_mod_bound(s - 1, 7);
    let q = (s - 1) / 7;
    assert forall|i: int| 0 <= i < 7 implies #[trigger] weekday_of(dates[i]@) == (r + i) % 7 + 1
        by {
        assert(dates[i]@ - 1 == 7 * q + (r + i));
        vstd::arithmetic::div_mod::lemma_mod_multiples_vanish(q, r + i, 7);
    }
    reveal_with_fuel(business_positions, 8);
    assert(weekday_of(dates[0]@) == (r + 0) % 7 + 1);
    assert(weekday_of(dates[1]@) == (r + 1) % 7 + 1);
    assert(weekday_of(dates[2]@) == (r + 2) % 7 + 1);
    assert(weekday_of(dates[3]@) == (r + 3) % 7 + 1);
    assert(weekday_of(dates[4]@) == (r + 4) % 7 + 1);
    assert(weekday_of(dates[5]@) == (r + 5) % 7 + 1);
    assert(weekday_of(dates[6]@) == (r + 6) % 7 + 1);
}

/// Number of days in year `y`.
pub open spec fn days_in_year(y: int) -> int {
    if is_leap_year(y) {
        366
    } else {
        365
    }
}

proof fn lemma_div_step(y: int, k: int)
    requires
        k > 0,
    ensures
        y / k - (y - 1) / k == if y % k == 0 { 1int } else { 0int },
{
    vstd::arithmetic::div_mod::lemma_fundamental_div_mod(y, k);
    vstd::arithmetic::div_mod::lemma_fundamental_div_mod(y - 1, k);
    vstd::arithmetic::div_mod::lemma_mod_bound(y, k);
    vstd::arithmetic::div_mod::lemma_mod_bound(y - 1, k);
    let q1 = y / k;
    let r1 = y % k;
    let q0 = (y - 1) / k;
    let r0 = (y - 1) % k;
    assert(k * (q1 - q0) == 1 + r0 - r1) by (nonlinear_arith)
        requires
            y == k * q1 + r1,
            y - 1 == k * q0 + r0,
    ;
    if r1 == 0 {
        assert(q1 - q0 == 1) by (nonlinear_arith)
            requires
                k * (q1 - q0) == 1 + r0,
                0 <= r0 < k,
        ;
    } else {
        assert(r0 == r1 - 1) by (nonlinear_arith)
            requires
                k * (q1 - q0) == 1 + r0 - r1,
                0 <= r0 < k,
                0 < r1 < k,
        ;
        assert(q1 - q0 == 0) by (nonlinear_arith)
            requires
                k * (q1 - q0) == 0,
                k > 0,
        ;
    }
}

proof fn lemma_next_year_start(y: int)
    ensures
        day_number(y + 1, 1, 1) == day_number(y, 1, 1) + days_in_year(y),
{
    lemma_div_step(y, 4);
    lemma_div_step(y, 100);
    lemma_div_step(y, 400);
}

proof fn lemma_day_within_year(y: int, m: int, d: int)
    requires
        1 <= m <= 12,
        1 <= d <= days_in_month(y, m),
    ensures
        day_number(y, 1, 1) <= day_number(y, m, d) < day_number(y, 1, 1) + days_in_year(y),
{
}

proof fn lemma_year_starts_increase(y1: int, y2: int)
    requires
        y1 < y2,
    ensures
        day_number(y1, 1, 1) + days_in_year(y1) <= day_number(y2, 1, 1),
    decreases y2 - y1,
{
    lemma_next_year_start(y1);
    if y1 + 1 < y2 {
        lemma_year_starts_increase(y1 + 1, y2);
    }
}

/// Law: distinct calendar days have distinct day numbers, so the year, month and
/// day that `Date::ymd` reports are those the date was made from with
/// `Date::from_ymd`.
pub proof fn lemma_day_number_injective(y1: int, m1: int, d1: int, y2: int, m2: int, d2: int)
    requires
        valid_ymd(y1, m1, d1),
        valid_ymd(y2, m2, d2),
        day_number(y1, m1, d1) == day_number(y2, m2, d2),
    ensures
        y1 == y2 && m1 == m2 && d1 == d2,
{
    lemma_day_within_year(y1, m1, d1);
    lemma_day_within_year(y2, m2, d2);
    if y1 < y2 {
        lemma_year_starts_increase(y1, y2);
    } else if y2 < y1 {
        lemma_year_starts_increase(y2, y1);
    }
}

} // verus!
