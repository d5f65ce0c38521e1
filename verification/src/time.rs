use vstd::prelude::*;

verus! {

/// Number of days before month `m` (1-based) in the 365-day simulation calendar;
/// `days_before_month(13)` is the length of the whole year.
pub open spec fn days_before_month(m: int) -> int {
    if m <= 1 { 0 }
    else if m == 2 { 31 }
    else if m == 3 { 59 }
    else if m == 4 { 90 }
    else if m == 5 { 120 }
    else if m == 6 { 151 }
    else if m == 7 { 181 }
    else if m == 8 { 212 }
    else if m == 9 { 243 }
    else if m == 10 { 273 }
    else if m == 11 { 304 }
    else if m == 12 { 334 }
    else { 365 }
}

/// Length of month `m` (1-based).
pub open spec fn month_length_spec(m: int) -> int {
    days_before_month(m + 1) - days_before_month(m)
}

/// The month (1..=12) that contains a day of year in `1..=365`.
pub open spec fn month_of_day(day: int) -> int {
    if day <= 31 { 1 }
    else if day <= 59 { 2 }
    else if day <= 90 { 3 }
    else if day <= 120 { 4 }
    else if day <= 151 { 5 }
    else if day <= 181 { 6 }
    else if day <= 212 { 7 }
    else if day <= 243 { 8 }
    else if day <= 273 { 9 }
    else if day <= 304 { 10 }
    else if day <= 334 { 11 }
    else { 12 }
}

/// The day within its month of a day of year.
pub open spec fn day_of_month_spec(day: int) -> int {
    day - days_before_month(month_of_day(day))
}

/// The day of year reached by moving a day of year one month forward, clamping
/// the day of month to the length of the target month (January for December).
pub open spec fn next_month_day_of_year(day: int) -> int {
    let m = month_of_day(day);
    let d = day_of_month_spec(day);
    if m == 12 {
        if d < 31 { d } else { 31 }
    } else {
        let len = month_length_spec(m + 1);
        days_before_month(m + 1) + if d < len { d } else { len }
    }
}

/// A date in the simplified 365-day simulation calendar.
#[derive(Clone, Copy, Debug, PartialEq, Eq, Structural, PartialOrd, Ord, Hash)]
pub struct SimDate {
    year: i32,
    day_of_year: u16,
}

/// A rejected date or an unrepresentable year.
#[derive(Clone, Copy, Debug, PartialEq, Eq)]
pub enum TimeError {
    InvalidDayOfYear(u16),
    YearOverflow,
}

/// The length of month `index + 1` (zero-based `index`).
pub fn month_length(index: usize) -> (r: u16)
    requires
        index < 12,
    ensures
        r == month_length_spec(index + 1),
{
    match index {
        0 => 31,
        1 => 28,
        2 => 31,
        3 => 30,
        4 => 31,
        5 => 30,
        6 => 31,
        7 => 31,
        8 => 30,
        9 => 31,
        10 => 30,
        _ => 31,
    }
}

impl SimDate {
    pub const DAYS_PER_YEAR: u16 = 365;

    pub closed spec fn spec_year(self) -> i32 {
        self.year
    }

    pub closed spec fn spec_day_of_year(self) -> u16 {
        self.day_of_year
    }

    #[verifier::type_invariant]
    closed spec fn valid(self) -> bool {
        1 <= self.day_of_year <= 365
    }

    /// Creates a date, rejecting a day of year outside `1..=365`.
    pub fn new(year: i32, day_of_year: u16) -> (r: Result<Self, TimeError>)
        ensures
            1 <= day_of_year <= 365 ==> (r matches Ok(d) && d.spec_year() == year
                && d.spec_day_of_year() == day_of_year),
            !(1 <= day_of_year <= 365) ==> r == Err::<Self, TimeError>(
                TimeError::InvalidDayOfYear(day_of_year),
            ),
    {
        if day_of_year < 1 || day_of_year > Self::DAYS_PER_YEAR {
            return Err(TimeError::InvalidDayOfYear(day_of_year));
        }
        Ok(SimDate { year, day_of_year })
    }

    pub fn year(self) -> (r: i32)
        ensures
            r == self.spec_year(),
    {
        self.year
    }

    pub fn day_of_year(self) -> (r: u16)
        ensures
            r == self.spec_day_of_year(),
            1 <= r <= 365,
    {
        proof {
            use_type_invariant(&self);
        }
        self.day_of_year
    }

    /// The calendar month, 1 to 12.
    pub fn month(self) -> (r: u8)
        ensures
            r == month_of_day(self.spec_day_of_year() as int),
            1 <= r <= 12,
    {
        proof {
            use_type_invariant(&self);
        }
        let day = self.day_of_year;
        let mut remaining: u16 = day;
        let mut index: usize = 0;
        while index < 12
            invariant
                1 <= day <= 365,
                day == self.spec_day_of_year(),
                index <= 12,
                remaining as int == day - days_before_month(index + 1),
                day > days_before_month(index + 1),
            decreases 12 - index,
        {
            let length = month_length(index);
            if remaining <= length {
                assert(month_of_day(day as int) == index + 1);
                return (index + 1) as u8;
            }
            remaining = remaining - length;
            index = index + 1;
        }
        12
    }

    /// The day within the month, 1 to 31.
    pub fn day_of_month(self) -> (r: u8)
        ensures
            r == day_of_month_spec(self.spec_day_of_year() as int),
            1 <= r <= 31,
    {
        proof {
            use_type_invariant(&self);
        }
        let day = self.day_of_year;
        let mut remaining: u16 = day;
        let mut index: usize = 0;
        while index < 12
            invariant
                1 <= day <= 365,
                day == self.spec_day_of_year(),
                index <= 12,
                remaining as int == day - days_before_month(index + 1),
                day > days_before_month(index + 1),
            decreases 12 - index,
        {
            let length = month_length(index);
            if remaining <= length {
                assert(month_of_day(day as int) == index + 1);
                return remaining as u8;
            }
            remaining = remaining - length;
            index = index + 1;
        }
        31
    }

    /// Advances by one calendar month, clamping the day to the target month length.
    /// Fails with `YearOverflow`, leaving the date unchanged, when December cannot
    /// roll into a representable year.
    pub fn advance_one_month(&mut self) -> (r: Result<(), TimeError>)
        ensures
            month_of_day(old(self).spec_day_of_year() as int) == 12
                && old(self).spec_year() == i32::MAX ==> (r == Err::<(), TimeError>(
                TimeError::YearOverflow) && *final(self) == *old(self)),
            !(month_of_day(old(self).spec_day_of_year() as int) == 12 && old(self).spec_year()
                == i32::MAX) ==> r is Ok,
            r is Ok ==> final(self).spec_day_of_year() == next_month_day_of_year(
                old(self).spec_day_of_year() as int,
            ),
            r is Ok ==> final(self).spec_year() == if month_of_day(
                old(self).spec_day_of_year() as int,
            ) == 12 {
                old(self).spec_year() + 1
            } else {
                old(self).spec_year() as int
            },
    {
        proof {
            use_type_invariant(&*self);
        }
        let month = self.month();
        let day = self.day_of_month() as u16;
        if month == 12 {
            if self.year == i32::MAX {
                return Err(TimeError::YearOverflow);
            }
            let first = month_length(0);
            let new_day = if day < first { day } else { first };
            *self = SimDate { year: self.year + 1, day_of_year: new_day };
            return Ok(());
        }
        let target_index = month as usize;
        let target_length = month_length(target_index);
        let target_day = if day < target_length { day } else { target_length };
        let mut preceding: u16 = 0;
        let mut index: usize = 0;
        while index < target_index
            invariant
                target_index <= 11,
                index <= target_index,
                preceding as int == days_before_month(index + 1),
            decreases target_index - index,
        {
            preceding = preceding + month_length(index);
            index = index + 1;
        }
        *self = SimDate { year: self.year, day_of_year: preceding + target_day };
        Ok(())
    }

    /// Advances the calendar by exactly one day; fails with `YearOverflow`, leaving
    /// the date unchanged, when the year boundary cannot be crossed.
    pub fn advance_one_day(&mut self) -> (r: Result<(), TimeError>)
        ensures
            old(self).spec_day_of_year() < 365 ==> (r is Ok && final(self).spec_year()
                == old(self).spec_year() && final(self).spec_day_of_year()
                == old(self).spec_day_of_year() + 1),
            old(self).spec_day_of_year() == 365 && old(self).spec_year() < i32::MAX ==> (r is Ok
                && final(self).spec_year() == old(self).spec_year() + 1
                && final(self).spec_day_of_year() == 1),
            old(self).spec_day_of_year() == 365 && old(self).spec_year() == i32::MAX ==> (r
                == Err::<(), TimeError>(TimeError::YearOverflow) && *final(self) == *old(self)),
    {
        proof {
            use_type_invariant(&*self);
        }
        if self.day_of_year == Self::DAYS_PER_YEAR {
            if self.year == i32::MAX {
                return Err(TimeError::YearOverflow);
            }
            *self = SimDate { year: self.year + 1, day_of_year: 1 };
        } else {
            *self = SimDate { year: self.year, day_of_year: self.day_of_year + 1 };
        }
        Ok(())
    }

    /// The same day of the year, `years` years later.
    pub closed spec fn spec_years_later(self, years: int) -> SimDate {
        SimDate { year: (self.year + years) as i32, day_of_year: self.day_of_year }
    }

    /// A date `years` years later keeps its day of the year and, where the year fits,
    /// lies in the year `years` on.
    pub proof fn lemma_years_later(self, years: int)
        ensures
            self.spec_years_later(years).spec_day_of_year() == self.spec_day_of_year(),
            i32::MIN <= self.spec_year() + years <= i32::MAX ==> self.spec_years_later(years).spec_year()
                == self.spec_year() + years,
    {
    }

    /// Advances by whole years without changing the day of year; fails with
    /// `YearOverflow`, leaving the date unchanged, when the year is unrepresentable.
    pub fn advance_years(&mut self, years: u32) -> (r: Result<(), TimeError>)
        ensures
            years <= i32::MAX && old(self).spec_year() + years <= i32::MAX ==> (r is Ok && final(self).spec_year()
                == old(self).spec_year() + years && final(self).spec_day_of_year()
                == old(self).spec_day_of_year() && *final(self) == old(self).spec_years_later(
                years as int,
            )),
            years > i32::MAX || old(self).spec_year() + years > i32::MAX ==> (r == Err::<(), TimeError>(
                TimeError::YearOverflow) && *final(self) == *old(self)),
    {
        proof {
            use_type_invariant(&*self);
        }
        if years > i32::MAX as u32 {
            return Err(TimeError::YearOverflow);
        }
        let years = years as i32;
        match self.year.checked_add(years) {
            Some(year) => {
                *self = SimDate { year, day_of_year: self.day_of_year };
                Ok(())
            },
            None => Err(TimeError::YearOverflow),
        }
    }
}

} // verus!
