//! Calendar timestamps for quotes, compared lexicographically by field.
//!
//! The archive records when a quote was written and buckets counts by the
//! first day of each month.  A timestamp here is plain calendar data in UTC;
//! reading the clock and parsing date text belong to the callers.

use vstd::prelude::*;

verus! {

/// A calendar timestamp: year, month, day, hour, minute and second.
/// Comparisons are lexicographic over the fields in that order.
#[derive(Clone, Copy, Debug, PartialEq, Eq, Structural)]
pub struct Date {
    pub year: u64,
    pub month: u64,
    pub day: u64,
    pub hour: u64,
    pub minute: u64,
    pub second: u64,
}

impl DeepView for Date {
    type V = Date;

    open spec fn deep_view(&self) -> Date {
        *self
    }
}

impl Date {
    /// True when the fields lie in calendar range.
    pub open spec fn valid(self) -> bool {
        &&& 1 <= self.month <= 12
        &&& 1 <= self.day <= 31
        &&& self.hour < 24
        &&& self.minute < 60
        &&& self.second < 60
    }

    /// Lexicographic strict order on the fields.
    pub open spec fn lt_spec(self, other: Date) -> bool {
        if self.year != other.year {
            self.year < other.year
        } else if self.month != other.month {
            self.month < other.month
        } else if self.day != other.day {
            self.day < other.day
        } else if self.hour != other.hour {
            self.hour < other.hour
        } else if self.minute != other.minute {
            self.minute < other.minute
        } else {
            self.second < other.second
        }
    }

    /// Lexicographic order on the fields, allowing equality.
    pub open spec fn le_spec(self, other: Date) -> bool {
        self.lt_spec(other) || self == other
    }

    /// The first instant of this timestamp's month.
    pub open spec fn month_start_spec(self) -> Date {
        Date { year: self.year, month: self.month, day: 1, hour: 0, minute: 0, second: 0 }
    }

    /// Builds a timestamp from its fields.
    pub fn new(year: u64, month: u64, day: u64, hour: u64, minute: u64, second: u64) -> (r: Date)
        ensures
            r == (Date { year, month, day, hour, minute, second }),
    {
        Date { year, month, day, hour, minute, second }
    }

    /// Compares two timestamps strictly.
    pub fn lt(&self, other: &Date) -> (r: bool)
        ensures
            r == self.lt_spec(*other),
    {
        if self.year != other.year {
            self.year < other.year
        } else if self.month != other.month {
            self.month < other.month
        } else if self.day != other.day {
            self.day < other.day
        } else if self.hour != other.hour {
            self.hour < other.hour
        } else if self.minute != other.minute {
            self.minute < other.minute
        } else {
            self.second < other.second
        }
    }

    /// Compares two timestamps, allowing equality.
    pub fn le(&self, other: &Date) -> (r: bool)
        ensures
            r == self.le_spec(*other),
    {
        if self.lt(other) {
            true
        } else {
            self.year == other.year && self.month == other.month && self.day == other.day
                && self.hour == other.hour && self.minute == other.minute && self.second
                == other.second
        }
    }

    /// The first instant of this timestamp's month.
    pub fn month_start(&self) -> (r: Date)
        ensures
            r == self.month_start_spec(),
    {
        Date { year: self.year, month: self.month, day: 1, hour: 0, minute: 0, second: 0 }
    }
}

/// The earliest timestamp the archive uses.
pub open spec fn min_date_spec() -> Date {
    Date { year: 0, month: 1, day: 1, hour: 0, minute: 0, second: 0 }
}

/// The latest timestamp the archive uses.
pub open spec fn max_date_spec() -> Date {
    Date { year: u64::MAX, month: 12, day: 31, hour: 23, minute: 59, second: 59 }
}

/// The earliest timestamp the archive uses.
pub fn min_date() -> (r: Date)
    ensures
        r == min_date_spec(),
{
    Date { year: 0, month: 1, day: 1, hour: 0, minute: 0, second: 0 }
}

/// The latest timestamp the archive uses.
pub fn max_date() -> (r: Date)
    ensures
        r == max_date_spec(),
{
    Date { year: u64::MAX, month: 12, day: 31, hour: 23, minute: 59, second: 59 }
}

/// The start of a date range: the given date, or the earliest timestamp.
pub fn date_start(from_date: Option<Date>) -> (r: Date)
    ensures
        r == match from_date {
            Some(d) => d,
            None => min_date_spec(),
        },
{
    match from_date {
        Some(d) => d,
        None => min_date(),
    }
}

/// The end of a date range: the given date, or the latest timestamp.
pub fn date_end(to_date: Option<Date>) -> (r: Date)
    ensures
        r == match to_date {
            Some(d) => d,
            None => max_date_spec(),
        },
{
    match to_date {
        Some(d) => d,
        None => max_date(),
    }
}

/// The month-start dates of one calendar year from `from` through `to`.
pub open spec fn year_months(year: u64, from: u64, to: u64) -> Seq<Date> {
    Seq::new(
        if from <= to {
            (to - from + 1) as nat
        } else {
            0
        },
        |i: int| Date { year, month: (from + i) as u64, day: 1, hour: 0, minute: 0, second: 0 },
    )
}

/// The month axis drawn under the dashboard's bar charts: the months of the
/// starting year from the starting month on, then every month of each year
/// before the final year counting from the starting year again, then the
/// months of the final year up to the final month.
pub open spec fn months_axis(min: Date, max: Date) -> Seq<Date>
    decreases (if min.year <= max.year {
        max.year - min.year
    } else {
        0
    }),
{
    if min.year >= max.year {
        year_months(min.year, min.month, 12) + year_months(max.year, 1, max.month)
    } else {
        year_months(min.year, min.month, 12) + middle_years(min.year, max.year) + year_months(
            max.year,
            1,
            max.month,
        )
    }
}

/// Every month of the years from `from` up to but excluding `to`.
pub open spec fn middle_years(from: u64, to: u64) -> Seq<Date>
    decreases (if from <= to {
        to - from
    } else {
        0
    }),
{
    if from >= to {
        Seq::empty()
    } else {
        year_months(from, 1, 12) + middle_years((from + 1) as u64, to)
    }
}

/// The month-start dates drawn on the dashboard's axis between two dates.
pub fn get_months(min_date: Date, max_date: Date) -> (r: Vec<Date>)
    requires
        min_date.valid(),
        max_date.valid(),
    ensures
        r@ == months_axis(min_date, max_date),
{
    let mut months: Vec<Date> = Vec::new();
    push_year_months(&mut months, min_date.year, min_date.month, 12);
    if min_date.year < max_date.year {
        let mut year = min_date.year;
        proof {
            assert(middle_years(min_date.year, min_date.year) =~= Seq::<Date>::empty());
            assert(months@ =~= year_months(min_date.year, min_date.month, 12) + middle_years(
                min_date.year,
                min_date.year,
            ));
        }
        while year < max_date.year
            invariant
                min_date.year <= year <= max_date.year,
                months@ =~= year_months(min_date.year, min_date.month, 12) + middle_years(
                    min_date.year,
                    year,
                ),
            decreases max_date.year - year,
        {
            push_year_months(&mut months, year, 1, 12);
            proof {
                lemma_middle_years_snoc(min_date.year, year);
            }
            year += 1;
        }
    }
    push_year_months(&mut months, max_date.year, 1, max_date.month);
    proof {
        if min_date.year >= max_date.year {
            assert(months@ =~= months_axis(min_date, max_date));
        } else {
            assert(months@ =~= months_axis(min_date, max_date));
        }
    }
    months
}

/// Extending the middle years by one more year appends that year's months.
pub proof fn lemma_middle_years_snoc(from: u64, year: u64)
    requires
        from <= year < u64::MAX,
    ensures
        middle_years(from, (year + 1) as u64) =~= middle_years(from, year) + year_months(
            year,
            1,
            12,
        ),
    decreases year - from,
{
    if from == year {
        assert(middle_years(from, year) =~= Seq::<Date>::empty());
        assert(middle_years((from + 1) as u64, (year + 1) as u64) =~= Seq::<Date>::empty());
        assert(middle_years(from, (year + 1) as u64) =~= year_months(from, 1, 12));
        assert(middle_years(from, year) + year_months(year, 1, 12) =~= year_months(year, 1, 12));
    } else {
        lemma_middle_years_snoc((from + 1) as u64, year);
        assert(middle_years(from, (year + 1) as u64) =~= year_months(from, 1, 12) + middle_years(
            (from + 1) as u64,
            (year + 1) as u64,
        ));
        assert(year_months(from, 1, 12) + (middle_years((from + 1) as u64, year) + year_months(
            year,
            1,
            12,
        )) =~= (year_months(from, 1, 12) + middle_years((from + 1) as u64, year)) + year_months(
            year,
            1,
            12,
        ));
    }
}

/// Appends the month starts of `year` from month `from` through `to`.
fn push_year_months(months: &mut Vec<Date>, year: u64, from: u64, to: u64)
    requires
        1 <= from,
        to <= 12,
    ensures
        final(months)@ == old(months)@ + year_months(year, from, to),
{
    let ghost base = months@;
    let ghost total = year_months(year, from, to);
    if from > to {
        assert(months@ =~= base + total);
        return ;
    }
    let mut m = from;
    assert(months@ =~= base + total.take(0));
    while m <= to
        invariant
            1 <= from <= m <= to + 1,
            to <= 12,
            total == year_months(year, from, to),
            base == old(months)@,
            months@ =~= base + total.take(m - from),
        decreases to + 1 - m,
    {
        months.push(Date { year, month: m, day: 1, hour: 0, minute: 0, second: 0 });
        proof {
            assert(total[m - from] == (Date {
                year,
                month: m,
                day: 1,
                hour: 0,
                minute: 0,
                second: 0,
            }));
            assert(total.take(m - from + 1) =~= total.take(m - from).push(total[m - from]));
            assert(months@ =~= base + total.take(m - from + 1));
        }
        m += 1;
    }
    proof {
        assert(total.take(to + 1 - from) =~= total);
    }
    assert(months@ =~= base + total);
}

} // verus!
