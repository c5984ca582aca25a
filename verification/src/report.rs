//! The report engine: turns a period token and a reference date into a
//! half-open UTC window plus its calendar days, filters records by
//! start time, and sums durations overall, per category and per day.
//!
//! Sums saturate at the 32-bit ceiling instead of overflowing.

use vstd::prelude::*;
use vstd::string::*;

use crate::category::PomodoroType;
use crate::error::StoreError;
use crate::record::{record_valid, Pomodoro};
use crate::store::records_valid;
use crate::time::{
    date_index, date_valid, day_index, days_before_month, days_before_year, days_from_sunday,
    days_in_month, format_date, lemma_day_index_range, lemma_dbm_bounds, lemma_dby_mono,
    lemma_year_days, next_day, parse_date, prev_day, spec_days_from_sunday, spec_days_in_month,
    spec_fmt_date, spec_next_day, spec_parse_date, spec_prev_day, total_secs, ts_total_secs, Date,
};

verus! {

/// Total minutes per category, one entry per category.
pub struct CategoryTotal {
    pub pomodoro_type: PomodoroType,
    pub minutes: u32,
}

/// One calendar day's totals inside a report window.
pub struct DailyTotal {
    pub date: String,
    pub minutes: u32,
    pub count: u32,
}

/// A period's aggregates: overall totals, per-category totals (every
/// category present, zero or not), and per-day totals covering every
/// calendar day of the window.
pub struct ReportData {
    pub period: String,
    pub total_minutes: u32,
    pub total_pomodoros: u32,
    pub by_type: Vec<CategoryTotal>,
    pub daily_totals: Vec<DailyTotal>,
}

/// Saturation at the 32-bit ceiling.
pub open spec fn sat32(x: int) -> int {
    if x > 0xffffffff {
        0xffffffff
    } else {
        x
    }
}

/// Whether a record falls in the half-open window `[lo, hi)` of total
/// seconds: the start bound is included, the end bound excluded.
pub open spec fn in_window(p: Pomodoro, lo: int, hi: int) -> bool {
    lo <= ts_total_secs(p.start_time) < hi
}

/// Whether a record is counted by a tally: in the window, of the given
/// category if one is given, and starting on the given calendar day if
/// one is given.
pub open spec fn tallied(
    p: Pomodoro,
    lo: int,
    hi: int,
    cat: Option<PomodoroType>,
    day: Option<Date>,
) -> bool {
    &&& in_window(p, lo, hi)
    &&& (cat matches Some(c) ==> p.pomodoro_type == c)
    &&& (day matches Some(d) ==> p.start_time.date == d)
}

/// The saturating sum of the durations of the tallied records.
pub open spec fn sum_minutes(
    s: Seq<Pomodoro>,
    lo: int,
    hi: int,
    cat: Option<PomodoroType>,
    day: Option<Date>,
) -> int
    decreases s.len(),
{
    if s.len() == 0 {
        0
    } else {
        let rest = sum_minutes(s.drop_last(), lo, hi, cat, day);
        if tallied(s.last(), lo, hi, cat, day) {
            sat32(rest + s.last().duration_minutes)
        } else {
            rest
        }
    }
}

/// The saturating count of the tallied records.
pub open spec fn count_tallied(
    s: Seq<Pomodoro>,
    lo: int,
    hi: int,
    cat: Option<PomodoroType>,
    day: Option<Date>,
) -> int
    decreases s.len(),
{
    if s.len() == 0 {
        0
    } else {
        let rest = count_tallied(s.drop_last(), lo, hi, cat, day);
        if tallied(s.last(), lo, hi, cat, day) {
            sat32(rest + 1)
        } else {
            rest
        }
    }
}

/// The day `k` days before `d`.
pub open spec fn back_days(d: Date, k: int) -> Date
    decreases k,
{
    if k <= 0 {
        d
    } else {
        spec_prev_day(back_days(d, k - 1))
    }
}

/// The day `k` days after `d`.
pub open spec fn fwd_days(d: Date, k: int) -> Date
    decreases k,
{
    if k <= 0 {
        d
    } else {
        spec_next_day(fwd_days(d, k - 1))
    }
}

/// The window a period token denotes for a reference date: its first
/// day and its day count. `day` is the date itself; `week` starts at
/// the preceding (or same) Sunday and spans 7 days; `month` starts at
/// the first of the month and spans the whole calendar month. Any
/// other token denotes nothing.
pub open spec fn spec_window(period: Seq<char>, d0: Date) -> Option<(Date, int)> {
    if period == "day"@ {
        Some((d0, 1))
    } else if period == "week"@ {
        Some((back_days(d0, spec_days_from_sunday(d0)), 7))
    } else if period == "month"@ {
        Some(
            (
                Date { year: d0.year, month: d0.month, day: 1 },
                spec_days_in_month(d0.year as int, d0.month as int),
            ),
        )
    } else {
        None
    }
}

/// Whether the period's window lies inside the supported day range: a
/// week reaching before 0000-01-01 or past 10000-01-01 does not.
pub open spec fn window_fits(period: Seq<char>, d0: Date) -> bool {
    if period == "week"@ {
        &&& spec_days_from_sunday(d0) <= day_index(d0)
        &&& day_index(d0) - spec_days_from_sunday(d0) + 7 <= days_before_year(10000)
    } else {
        true
    }
}

/// Counts and sums the records a tally selects.
fn tally(
    records: &Vec<Pomodoro>,
    lo: u64,
    hi: u64,
    cat: Option<PomodoroType>,
    day: Option<&Date>,
) -> (r: (u32, u32))
    requires
        records_valid(records@),
    ensures
        r.0 == sum_minutes(records@, lo as int, hi as int, cat, match day {
            Some(d) => Some(*d),
            None => None,
        }),
        r.1 == count_tallied(records@, lo as int, hi as int, cat, match day {
            Some(d) => Some(*d),
            None => None,
        }),
{
    let ghost day_v: Option<Date> = match day {
        Some(d) => Some(*d),
        None => None,
    };
    let mut minutes: u32 = 0;
    let mut count: u32 = 0;
    let n = records.len();
    let mut i: usize = 0;
    while i < n
        invariant
            0 <= i <= n,
            n == records@.len(),
            records_valid(records@),
            minutes == sum_minutes(records@.subrange(0, i as int), lo as int, hi as int, cat, day_v),
            count == count_tallied(records@.subrange(0, i as int), lo as int, hi as int, cat, day_v),
            day_v == (match day {
                Some(d) => Some(*d),
                None => None::<Date>,
            }),
        decreases n - i,
    {
        let p = &records[i];
        proof {
            assert(record_valid(records@[i as int]@));
        }
        let total = total_secs(&p.start_time);
        let mut selected = lo <= total && total < hi;
        if selected {
            match cat {
                Some(c) => {
                    if !(p.pomodoro_type == c) {
                        selected = false;
                    }
                },
                None => {},
            }
        }
        if selected {
            match day {
                Some(d) => {
                    if !(p.start_time.date == *d) {
                        selected = false;
                    }
                },
                None => {},
            }
        }
        if selected {
            proof {
                assert(tallied(records@[i as int], lo as int, hi as int, cat, day_v));
            }
            if minutes > 0xffffffffu32 - p.duration_minutes {
                minutes = 0xffffffffu32;
            } else {
                minutes = minutes + p.duration_minutes;
            }
            if count == 0xffffffffu32 {
            } else {
                count = count + 1;
            }
        } else {
            proof {
                assert(!tallied(records@[i as int], lo as int, hi as int, cat, day_v));
            }
        }
        proof {
            let longer = records@.subrange(0, i as int + 1);
            assert(longer.drop_last() =~= records@.subrange(0, i as int));
            assert(longer.last() == records@[i as int]);
        }
        i = i + 1;
    }
    proof {
        assert(records@.subrange(0, n as int) =~= records@);
    }
    (minutes, count)
}

/// Builds a period report over the given records (normally the
/// store's `read_all` output; the result does not depend on their
/// order beyond what the sums state).
///
/// The reference date is checked first: a malformed date or an unknown
/// period token is an invalid argument, as is a week window that would
/// leave the supported range of days.
pub fn get_report_data(period: &str, date: &str, records: &Vec<Pomodoro>) -> (r: Result<
    ReportData,
    StoreError,
>)
    requires
        records_valid(records@),
    ensures
        r is Ok <==> (spec_parse_date(date@) is Some && spec_window(period@, spec_parse_date(date@).unwrap()) is Some
            && window_fits(period@, spec_parse_date(date@).unwrap())),
        r matches Err(e) ==> e is InvalidArgument,
        r matches Ok(rep) ==> ({
            let d0 = spec_parse_date(date@).unwrap();
            let w0 = spec_window(period@, d0).unwrap().0;
            let nd = spec_window(period@, d0).unwrap().1;
            let lo = day_index(w0) * 86400;
            let hi = (day_index(w0) + nd) * 86400;
            &&& rep.period@ == period@
            &&& date_valid(w0)
            &&& rep.total_minutes == sum_minutes(records@, lo, hi, None, None)
            &&& rep.total_pomodoros == count_tallied(records@, lo, hi, None, None)
            &&& rep.by_type@.len() == 10
            &&& (forall|i: int| 0 <= i < 10 ==> (#[trigger] rep.by_type@[i]).pomodoro_type
                == PomodoroType::spec_all()[i])
            &&& (forall|i: int| 0 <= i < 10 ==> (#[trigger] rep.by_type@[i]).minutes
                == sum_minutes(records@, lo, hi, Some(PomodoroType::spec_all()[i]), None))
            &&& rep.daily_totals@.len() == nd
            &&& (forall|i: int| 0 <= i < nd ==> (#[trigger] rep.daily_totals@[i]).date@
                == spec_fmt_date(fwd_days(w0, i)))
            &&& (forall|i: int| 0 <= i < nd ==> (#[trigger] rep.daily_totals@[i]).minutes
                == sum_minutes(records@, lo, hi, None, Some(fwd_days(w0, i))))
            &&& (forall|i: int| 0 <= i < nd ==> (#[trigger] rep.daily_totals@[i]).count
                == count_tallied(records@, lo, hi, None, Some(fwd_days(w0, i))))
        }),
{
    let d0 = match parse_date(date) {
        Some(d) => d,
        None => {
            return Err(StoreError::InvalidArgument(String::from_str("Invalid date format")));
        },
    };
    let period_owned = String::from_str(period);
    let is_day = period_owned == String::from_str("day");
    let is_week = period_owned == String::from_str("week");
    let is_month = period_owned == String::from_str("month");
    let (w0, nd): (Date, u32) = if is_day {
        (d0, 1)
    } else if is_week {
        let k = days_from_sunday(&d0);
        let di = date_index(&d0);
        proof {
            lemma_day_index_range(d0);
        }
        if di < k as u64 {
            return Err(StoreError::InvalidArgument(String::from_str("Date out of range for week")));
        }
        let limit = date_index(&Date { year: 10000, month: 1, day: 1 });
        if di - k as u64 + 7 > limit {
            return Err(StoreError::InvalidArgument(String::from_str("Date out of range for week")));
        }
        let mut w = d0;
        let mut j: u32 = 0;
        while j < k
            invariant
                0 <= j <= k,
                k < 7,
                date_valid(w),
                w.year <= 9999,
                w == back_days(d0, j as int),
                day_index(w) == day_index(d0) - j,
                day_index(d0) >= k,
            decreases k - j,
        {
            w = prev_day(&w);
            j = j + 1;
        }
        (w, 7)
    } else if is_month {
        (Date { year: d0.year, month: d0.month, day: 1 }, days_in_month(d0.year, d0.month))
    } else {
        return Err(StoreError::InvalidArgument(String::from_str("Invalid period. Use 'day', 'week', or 'month'")));
    };
    proof {
        reveal_strlit("day");
        reveal_strlit("week");
        reveal_strlit("month");
        assert("day"@.len() == 3 && "week"@.len() == 4 && "month"@.len() == 5);
        assert(spec_window(period@, d0) == Some((w0, nd as int)));
        assert(window_fits(period@, d0));
        lemma_day_index_range(d0);
        lemma_day_index_range(w0);
        crate::time::lemma_dby_bounds(10000);
        assert(days_before_month(10000, 1) == 0);
        assert(day_index(Date { year: 10000, month: 1, day: 1 }) == days_before_year(10000));
        if is_month {
            lemma_dbm_bounds(d0.year as int, d0.month as int);
            lemma_year_days(d0.year as int);
            assert(days_before_year(d0.year as int + 1) == days_before_year(d0.year as int)
                + crate::time::spec_year_len(d0.year as int));
            if d0.year as int + 1 < 10000 {
                lemma_dby_mono(d0.year as int + 1, 10000);
            }
            assert(day_index(w0) + nd <= days_before_year(10000));
        }
        assert(day_index(w0) + nd <= days_before_year(10000));
    }
    let wi = date_index(&w0);
    let lo: u64 = wi * 86400;
    let hi: u64 = (wi + nd as u64) * 86400;
    let ghost lo_i = day_index(w0) * 86400;
    let ghost hi_i = (day_index(w0) + nd as int) * 86400;
    let (total_minutes, total_pomodoros) = tally(records, lo, hi, None, None);
    let cats = PomodoroType::all();
    let mut by_type: Vec<CategoryTotal> = Vec::new();
    let mut ci: usize = 0;
    while ci < cats.len()
        invariant
            0 <= ci <= cats@.len(),
            cats@ == PomodoroType::spec_all(),
            records_valid(records@),
            by_type@.len() == ci,
            forall|i: int| 0 <= i < ci ==> (#[trigger] by_type@[i]).pomodoro_type
                == PomodoroType::spec_all()[i],
            forall|i: int| 0 <= i < ci ==> (#[trigger] by_type@[i]).minutes == sum_minutes(
                records@,
                lo_i,
                hi_i,
                Some(PomodoroType::spec_all()[i]),
                None,
            ),
            lo == lo_i,
            hi == hi_i,
        decreases cats@.len() - ci,
    {
        let c = cats[ci];
        let (mins, _cnt) = tally(records, lo, hi, Some(c), None);
        by_type.push(CategoryTotal { pomodoro_type: c, minutes: mins });
        ci = ci + 1;
    }
    let mut daily_totals: Vec<DailyTotal> = Vec::new();
    let mut day = w0;
    let mut di: u32 = 0;
    while di < nd
        invariant
            0 <= di <= nd,
            records_valid(records@),
            date_valid(day),
            day == fwd_days(w0, di as int),
            day_index(day) == day_index(w0) + di,
            day_index(w0) >= 0,
            day_index(w0) + nd <= days_before_year(10000),
            date_valid(w0),
            daily_totals@.len() == di,
            forall|i: int| 0 <= i < di ==> (#[trigger] daily_totals@[i]).date@ == spec_fmt_date(
                fwd_days(w0, i),
            ),
            forall|i: int| 0 <= i < di ==> (#[trigger] daily_totals@[i]).minutes == sum_minutes(
                records@,
                lo_i,
                hi_i,
                None,
                Some(fwd_days(w0, i)),
            ),
            forall|i: int| 0 <= i < di ==> (#[trigger] daily_totals@[i]).count == count_tallied(
                records@,
                lo_i,
                hi_i,
                None,
                Some(fwd_days(w0, i)),
            ),
            lo == lo_i,
            hi == hi_i,
        decreases nd - di,
    {
        proof {
            if day.year == 10000 {
                assert(days_before_month(10000, 1) == 0);
                assert(day_index(day) == days_before_year(10000));
                assert(false);
            }
        }
        let (mins, cnt) = tally(records, lo, hi, None, Some(&day));
        let date_str = format_date(&day);
        daily_totals.push(DailyTotal { date: date_str, minutes: mins, count: cnt });
        di = di + 1;
        day = next_day(&day);
    }
    Ok(
        ReportData {
            period: period_owned,
            total_minutes,
            total_pomodoros,
            by_type,
            daily_totals,
        },
    )
}

} // verus!
