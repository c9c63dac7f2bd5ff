use vstd::prelude::*;

use crate::bank_holidays::BankHoliday;
use crate::data_source::{strictly_ascending, DataSource};
use crate::dates::{date_of, lemma_date_of, Date, FIRST_DAY, LAST_DAY};
use crate::divisions::{division_at, division_index, lemma_division_index, Division};
use crate::work_days::{MonToFriWorkDays, WorkDays};

verus! {

/// Some holiday of the list falls on day number `n`.
pub open spec fn has_date(holidays: Seq<BankHoliday>, n: int) -> bool {
    exists|i: int| 0 <= i < holidays.len() && #[trigger] holidays[i].date@ == n
}

/// Some date of the list has day number `n`.
pub open spec fn in_dates(dates: Seq<Date>, n: int) -> bool {
    exists|i: int| 0 <= i < dates.len() && #[trigger] dates[i]@ == n
}

/// Day number `n` is a holiday in every division present, and at least one is present.
pub open spec fn common_date(regions: Map<Division, Seq<BankHoliday>>, n: int) -> bool {
    (exists|d: Division| #[trigger] regions.contains_key(d)) && forall|d: Division|
        #[trigger] regions.contains_key(d) ==> has_date(regions[d], n)
}

/// The division whose wording is used for holidays common to all divisions:
/// England and Wales where present, else the first present in canonical order.
pub open spec fn default_division(regions: Map<Division, Seq<BankHoliday>>) -> Option<Division> {
    if regions.contains_key(Division::EnglandAndWales) {
        Some(Division::EnglandAndWales)
    } else if regions.contains_key(Division::Scotland) {
        Some(Division::Scotland)
    } else if regions.contains_key(Division::NorthernIreland) {
        Some(Division::NorthernIreland)
    } else {
        None
    }
}

/// The holidays of a list, in order, whose dates are common to all divisions.
pub open spec fn only_common(
    holidays: Seq<BankHoliday>,
    regions: Map<Division, Seq<BankHoliday>>,
) -> Seq<BankHoliday>
    decreases holidays.len(),
{
    if holidays.len() == 0 {
        holidays
    } else {
        let rest = only_common(holidays.drop_last(), regions);
        if common_date(regions, holidays.last().date@) {
            rest.push(holidays.last())
        } else {
            rest
        }
    }
}

/// The holidays that a list of references points to.
pub open spec fn values(refs: Seq<&BankHoliday>) -> Seq<BankHoliday> {
    Seq::new(refs.len(), |i: int| *refs[i])
}

/// The holidays of a list, in order, dated after day number `n`.
pub open spec fn dated_after(holidays: Seq<BankHoliday>, n: int) -> Seq<BankHoliday>
    decreases holidays.len(),
{
    if holidays.len() == 0 {
        holidays
    } else {
        let rest = dated_after(holidays.drop_first(), n);
        if holidays[0].date@ > n {
            seq![holidays[0]] + rest
        } else {
            rest
        }
    }
}

/// The holidays of a list, in order, dated before day number `n`.
pub open spec fn dated_before(holidays: Seq<BankHoliday>, n: int) -> Seq<BankHoliday>
    decreases holidays.len(),
{
    if holidays.len() == 0 {
        holidays
    } else {
        let rest = dated_before(holidays.drop_last(), n);
        if holidays.last().date@ < n {
            rest.push(holidays.last())
        } else {
            rest
        }
    }
}

/// A list of holidays in reverse order.
pub open spec fn reversed(holidays: Seq<BankHoliday>) -> Seq<BankHoliday> {
    Seq::new(holidays.len(), |i: int| holidays[holidays.len() - 1 - i])
}

/// Calendar of known bank holidays.
///
/// Bank holidays vary between parts of the UK. Methods taking an
/// `Option<Division>` consider only the bank holidays common to all divisions
/// present if `None` is given.
pub struct BankHolidayCalendar<W: WorkDays> {
    holiday_map: DataSource,
    holidays_common_to_all_divisions: Vec<Date>,
    work_days: W,
}

impl<W: WorkDays> BankHolidayCalendar<W> {
    /// Holidays of each division present.
    pub closed spec fn regions(&self) -> Map<Division, Seq<BankHoliday>> {
        self.holiday_map@
    }

    /// The work day policy in use.
    pub closed spec fn policy(&self) -> W {
        self.work_days
    }

    /// The stored common dates are exactly those common to all divisions present.
    pub closed spec fn wf(&self) -> bool {
        forall|n: int|
            #[trigger] in_dates(self.holidays_common_to_all_divisions@, n) == common_date(
                self.regions(),
                n,
            )
    }

    /// Every division's holidays are strictly ascending by date, as after sorting
    /// a data source without two holidays on one date in a division.
    pub open spec fn sorted_regions(&self) -> bool {
        forall|d: Division| #[trigger]
            self.regions().contains_key(d) ==> strictly_ascending(self.regions()[d])
    }

    /// Whether `date` is a holiday in `division`, or in all divisions for `None`.
    pub open spec fn holiday_on(&self, date: Date, division: Option<Division>) -> bool {
        match division {
            Some(d) => self.regions().contains_key(d) && has_date(self.regions()[d], date@),
            None => common_date(self.regions(), date@),
        }
    }

    /// Whether `date` is a work day in `division`, or in all divisions for `None`.
    pub open spec fn work_day_on(&self, date: Date, division: Option<Division>) -> bool {
        self.policy().spec_is_work_day(date) && !self.holiday_on(date, division)
    }

    /// The holidays listed for `division`: its own list, or for `None` those of
    /// the default division whose dates are common to all divisions.
    pub open spec fn listed(&self, division: Option<Division>) -> Seq<BankHoliday> {
        match division {
            Some(d) => if self.regions().contains_key(d) {
                self.regions()[d]
            } else {
                Seq::empty()
            },
            None => match default_division(self.regions()) {
                Some(d) => only_common(self.regions()[d], self.regions()),
                None => Seq::empty(),
            },
        }
    }

    /// The holidays after `date`, nearest first, as a traversal yields them.
    pub open spec fn holidays_after(&self, date: Date, division: Option<Division>) -> Seq<
        BankHoliday,
    > {
        dated_after(self.listed(division), date@)
    }

    /// The holidays before `date`, nearest first, as a traversal yields them.
    pub open spec fn holidays_before(&self, date: Date, division: Option<Division>) -> Seq<
        BankHoliday,
    > {
        reversed(dated_before(self.listed(division), date@))
    }

    /// The first work day after day number `n` (before it where `forward` is
    /// false) within the range of dates, if there is one.
    pub open spec fn next_work_day(&self, n: int, division: Option<Division>, forward: bool) -> Option<
        int,
    >
        decreases (if forward {
            LAST_DAY - n
        } else {
            n - FIRST_DAY
        }),
    {
        let step = if forward {
            n + 1
        } else {
            n - 1
        };
        if step < FIRST_DAY || step > LAST_DAY {
            None
        } else if self.work_day_on(date_of(step), division) {
            Some(step)
        } else {
            self.next_work_day(step, division, forward)
        }
    }

    /// Builds a calendar from a data source and a work day policy.
    pub fn new(data_source: DataSource, work_days: W) -> (r: Self)
        ensures
            r.wf(),
            r.regions() == data_source@,
            r.policy() == work_days,
    {
        let divisions = Division::all();
        let mut common: Vec<Date> = Vec::new();
        let mut started = false;
        let mut i: usize = 0;
        while i < 3
            invariant
                0 <= i <= 3,
                forall|k: int| 0 <= k < 3 ==> #[trigger] divisions@[k] == division_at(k),
                started == exists|d: Division|
                    #[trigger] data_source@.contains_key(d) && division_index(d) < i,
                forall|n: int|
                    #[trigger] in_dates(common@, n) == (started && forall|d: Division|
                        #[trigger] data_source@.contains_key(d) && division_index(d) < i
                            ==> has_date(data_source@[d], n)),
            decreases 3 - i,
        {
            let division = divisions[i];
            proof {
                lemma_division_index(division);
            }
            match data_source.get(division) {
                Some(holidays) => {
                    if started {
                        common = keep_dates_of(&common, holidays);
                    } else {
                        common = dates_of(holidays);
                        started = true;
                    }
                    proof {
                        assert forall|d: Division|
                            #[trigger] data_source@.contains_key(d) && division_index(d) < i + 1
                                implies division_index(d) < i || d == division by {
                            lemma_division_index(d);
                        }
                    }
                },
                None => {
                    proof {
                        assert forall|d: Division|
                            #[trigger] data_source@.contains_key(d) && division_index(d) < i + 1
                                implies division_index(d) < i by {
                            lemma_division_index(d);
                        }
                    }
                },
            }
            i = i + 1;
        }
        proof {
            assert forall|d: Division| #![auto] true implies division_index(d) < 3 by {
                lemma_division_index(d);
            }
        }
        BankHolidayCalendar {
            holiday_map: data_source,
            holidays_common_to_all_divisions: common,
            work_days,
        }
    }

    /// Whether `date` is a bank holiday in `division`, or common to all divisions for `None`.
    pub fn is_holiday(&self, date: Date, division: Option<Division>) -> (r: bool)
        requires
            self.wf(),
        ensures
            r == self.holiday_on(date, division),
    {
        match division {
            Some(division) => match self.holiday_map.get(division) {
                Some(holidays) => has_holiday_on(holidays, date),
                None => false,
            },
            None => contains_date(&self.holidays_common_to_all_divisions, date),
        }
    }

    /// Whether `date` is a work day in `division`, or in all divisions for `None`:
    /// the policy holds for it and it is not a holiday there.
    pub fn is_work_day(&self, date: Date, division: Option<Division>) -> (r: bool)
        requires
            self.wf(),
        ensures
            r == (self.policy().spec_is_work_day(date) && !self.holiday_on(date, division)),
            r == self.work_day_on(date, division),
    {
        self.work_days.is_work_day(date) && !self.is_holiday(date, division)
    }

    /// All known holidays of `division`; for `None`, those of the default
    /// division whose dates are common to all divisions, with that division's wording.
    pub fn holidays(&self, division: Option<Division>) -> (r: Vec<&BankHoliday>)
        requires
            self.wf(),
        ensures
            values(r@) == self.listed(division),
    {
        let mut holidays: Vec<&BankHoliday> = Vec::new();
        match division {
            Some(division) => {
                if let Some(bank_holidays) = self.holiday_map.get(division) {
                    let mut i: usize = 0;
                    while i < bank_holidays.len()
                        invariant
                            i <= bank_holidays@.len(),
                            values(holidays@) == bank_holidays@.take(i as int),
                        decreases bank_holidays@.len() - i,
                    {
                        let ghost before = holidays@;
                        let bank_holiday = &bank_holidays[i];
                        holidays.push(bank_holiday);
                        assert(*bank_holiday == bank_holidays@[i as int]);
                        assert(values(before) == bank_holidays@.take(i as int));
                        assert(holidays@ == before.push(bank_holiday));
                        assert(values(before).len() == before.len());
                        assert(before.len() == i);
                        assert(holidays@.len() == i + 1);
                        assert(values(holidays@) =~= bank_holidays@.take(i + 1));
                        i = i + 1;
                    }
                    assert(bank_holidays@.take(i as int) =~= bank_holidays@);
                }
            },
            None => {
                let source = match self.holiday_map.get(Division::EnglandAndWales) {
                    Some(v) => Some(v),
                    None => match self.holiday_map.get(Division::Scotland) {
                        Some(v) => Some(v),
                        None => self.holiday_map.get(Division::NorthernIreland),
                    },
                };
                if let Some(bank_holidays) = source {
                    let ghost regions = self.regions();
                    let mut i: usize = 0;
                    assert(bank_holidays@.take(0) =~= Seq::<BankHoliday>::empty());
                    while i < bank_holidays.len()
                        invariant
                            self.wf(),
                            regions == self.regions(),
                            i <= bank_holidays@.len(),
                            values(holidays@) == only_common(bank_holidays@.take(i as int), regions),
                        decreases bank_holidays@.len() - i,
                    {
                        let bank_holiday = &bank_holidays[i];
                        proof {
                            let t = bank_holidays@.take(i + 1);
                            assert(t.drop_last() =~= bank_holidays@.take(i as int));
                            assert(t.last() == bank_holidays@[i as int]);
                        }
                        if contains_date(&self.holidays_common_to_all_divisions, bank_holiday.date) {
                            holidays.push(bank_holiday);
                        }
                        i = i + 1;
                    }
                    assert(bank_holidays@.take(i as int) =~= bank_holidays@);
                }
            },
        }
        assert(values(holidays@) =~= self.listed(division));
        holidays
    }

    /// Holidays after `date` in `division`, or common to all divisions for
    /// `None`, nearest first.
    pub fn iter_holidays_after(&self, date: Date, division: Option<Division>) -> (r: HolidayIter<'_>)
        requires
            self.wf(),
        ensures
            r.remaining() == self.holidays_after(date, division),
    {
        let listed = self.holidays(division);
        let ghost all = values(listed@);
        let n = date.day_number();
        let mut holidays: Vec<&BankHoliday> = Vec::new();
        let mut k: usize = listed.len();
        assert(all.skip(k as int) =~= Seq::<BankHoliday>::empty());
        while k > 0
            invariant
                k <= listed@.len(),
                all == values(listed@),
                n as int == date@,
                reversed(values(holidays@)) == dated_after(all.skip(k as int), n as int),
            decreases k,
        {
            k = k - 1;
            let bank_holiday = listed[k];
            let ghost before = holidays@;
            proof {
                assert(all.skip(k as int).drop_first() =~= all.skip(k + 1));
                assert(all.skip(k as int)[0] == all[k as int]);
                assert(*bank_holiday == all[k as int]);
            }
            if bank_holiday.date.day_number() > n {
                holidays.push(bank_holiday);
                assert(reversed(values(holidays@)) =~= seq![*bank_holiday] + reversed(
                    values(before),
                ));
            }
        }
        assert(all.skip(0) =~= all);
        HolidayIter { holidays }
    }

    /// Holidays before `date` in `division`, or common to all divisions for
    /// `None`, nearest first.
    pub fn iter_holidays_before(&self, date: Date, division: Option<Division>) -> (r: HolidayIter<
        '_,
    >)
        requires
            self.wf(),
        ensures
            r.remaining() == self.holidays_before(date, division),
    {
        let listed = self.holidays(division);
        let ghost all = values(listed@);
        let n = date.day_number();
        let mut holidays: Vec<&BankHoliday> = Vec::new();
        let mut i: usize = 0;
        assert(all.take(0) =~= Seq::<BankHoliday>::empty());
        assert(values(holidays@) =~= Seq::<BankHoliday>::empty());
        while i < listed.len()
            invariant
                i <= listed@.len(),
                all == values(listed@),
                n as int == date@,
                values(holidays@) == dated_before(all.take(i as int), n as int),
            decreases listed@.len() - i,
        {
            let bank_holiday = listed[i];
            let ghost before = holidays@;
            proof {
                assert(all.take(i + 1).drop_last() =~= all.take(i as int));
                assert(all.take(i + 1).last() == all[i as int]);
                assert(*bank_holiday == all[i as int]);
            }
            if bank_holiday.date.day_number() < n {
                holidays.push(bank_holiday);
                assert(values(holidays@) =~= values(before).push(*bank_holiday));
            }
            i = i + 1;
        }
        assert(all.take(i as int) =~= all);
        HolidayIter { holidays }
    }

    /// Work days after `date`, skipping bank holidays in `division` or common to
    /// all divisions for `None`, nearest first.
    pub fn iter_work_days_after(&self, date: Date, division: Option<Division>) -> (r: WorkDayIter<
        '_,
        W,
    >)
        ensures
            r.source() == *self,
            r.cursor() == date,
            r.filter() == division,
            r.is_forward(),
    {
        WorkDayIter { calendar: self, date, division, forward: true }
    }

    /// Work days before `date`, skipping bank holidays in `division` or common to
    /// all divisions for `None`, nearest first.
    pub fn iter_work_days_before(&self, date: Date, division: Option<Division>) -> (r: WorkDayIter<
        '_,
        W,
    >)
        ensures
            r.source() == *self,
            r.cursor() == date,
            r.filter() == division,
            !r.is_forward(),
    {
        WorkDayIter { calendar: self, date, division, forward: false }
    }

    /// The work day policy.
    pub fn work_days(&self) -> (r: &W)
        ensures
            *r == self.policy(),
    {
        &self.work_days
    }

    /// The work day policy, for replacing or changing it.
    pub fn work_days_mut(&mut self) -> (r: &mut W)
        ensures
            *r == old(self).policy(),
            final(self).policy() == *final(r),
            final(self).regions() == old(self).regions(),
            old(self).wf() ==> final(self).wf(),
    {
        &mut self.work_days
    }
}

impl BankHolidayCalendar<MonToFriWorkDays> {
    /// Builds a calendar from a data source, with a Monday to Friday work week.
    pub fn from_data_source(data_source: DataSource) -> (r: Self)
        ensures
            r.wf(),
            r.regions() == data_source@,
    {
        BankHolidayCalendar::new(data_source, MonToFriWorkDays)
    }
}

/// Traversal over a fixed list of holidays, nearest to its cutoff date first.
pub struct HolidayIter<'a> {
    holidays: Vec<&'a BankHoliday>,
}

impl<'a> HolidayIter<'a> {
    /// The holidays still to come, in the order they are yielded.
    pub closed spec fn remaining(&self) -> Seq<BankHoliday> {
        reversed(values(self.holidays@))
    }

    /// The next holiday, if any is left.
    pub fn next(&mut self) -> (r: Option<&'a BankHoliday>)
        ensures
            r.is_some() == (old(self).remaining().len() > 0),
            r matches Some(h) ==> *h == old(self).remaining()[0] && final(self).remaining()
                == old(self).remaining().drop_first(),
            r.is_none() ==> final(self).remaining() == old(self).remaining(),
    {
        let ghost before = values(self.holidays@);
        let r = self.holidays.pop();
        proof {
            if r.is_some() {
                assert(values(self.holidays@) =~= before.drop_last());
                assert(reversed(values(self.holidays@)) =~= reversed(before).drop_first());
            }
        }
        r
    }

    /// Number of holidays still to come.
    pub fn len(&self) -> (r: usize)
        ensures
            r == self.remaining().len(),
    {
        self.holidays.len()
    }

}

/// Traversal over work days from a date, one calendar day at a time. It has
/// no end of its own: only the range of dates bounds it, so callers bound how
/// many they take.
pub struct WorkDayIter<'a, W: WorkDays> {
    calendar: &'a BankHolidayCalendar<W>,
    date: Date,
    division: Option<Division>,
    forward: bool,
}

impl<'a, W: WorkDays> WorkDayIter<'a, W> {
    /// The calendar traversed.
    pub closed spec fn source(&self) -> BankHolidayCalendar<W> {
        *self.calendar
    }

    /// The date last reached; the next work day is looked for past it.
    pub closed spec fn cursor(&self) -> Date {
        self.date
    }

    /// The division whose holidays are skipped, or `None` for common ones.
    pub closed spec fn filter(&self) -> Option<Division> {
        self.division
    }

    /// Whether the traversal goes forward in time.
    pub closed spec fn is_forward(&self) -> bool {
        self.forward
    }

    /// Moves one day in the traversal's direction, unless the range of dates ends there.
    fn advance_date(&mut self) -> (moved: bool)
        ensures
            final(self).calendar == old(self).calendar,
            final(self).division == old(self).division,
            final(self).forward == old(self).forward,
            moved == (if old(self).forward {
                old(self).date@ < LAST_DAY
            } else {
                old(self).date@ > FIRST_DAY
            }),
            moved ==> final(self).date == date_of(
                if old(self).forward {
                    old(self).date@ + 1
                } else {
                    old(self).date@ - 1
                },
            ),
            !moved ==> final(self).date == old(self).date,
    {
        let n = self.date.day_number();
        if self.forward {
            if n < LAST_DAY {
                self.date = self.date.next_day();
                true
            } else {
                false
            }
        } else {
            if n > FIRST_DAY {
                self.date = self.date.previous_day();
                true
            } else {
                false
            }
        }
    }

    /// The next work day: the first date past the cursor, in the traversal's
    /// direction, that is a work day. `None` only where the range of dates ends
    /// before one.
    pub fn next(&mut self) -> (r: Option<Date>)
        requires
            old(self).source().wf(),
        ensures
            final(self).source() == old(self).source(),
            final(self).filter() == old(self).filter(),
            final(self).is_forward() == old(self).is_forward(),
            r matches Some(d) ==> old(self).source().next_work_day(
                old(self).cursor()@,
                old(self).filter(),
                old(self).is_forward(),
            ) == Some(d@) && final(self).cursor() == d,
            r.is_none() ==> old(self).source().next_work_day(
                old(self).cursor()@,
                old(self).filter(),
                old(self).is_forward(),
            ) is None,
    {
        let ghost calendar = *self.calendar;
        let ghost division = self.division;
        let ghost forward = self.forward;
        let ghost start = self.date@;
        let _ = self.date.day_number();
        loop
            invariant
                calendar == *old(self).calendar,
                division == old(self).division,
                forward == old(self).forward,
                start == old(self).date@,
                *self.calendar == calendar,
                calendar.wf(),
                self.division == division,
                self.forward == forward,
                calendar.next_work_day(self.date@, division, forward) == calendar.next_work_day(
                    start,
                    division,
                    forward,
                ),
                FIRST_DAY <= self.date@ <= LAST_DAY,
            decreases (if forward {
                LAST_DAY - self.date@
            } else {
                self.date@ - FIRST_DAY
            }),
        {
            let ghost here = self.date@;
            if !self.advance_date() {
                return None;
            }
            let ghost step = if forward {
                here + 1
            } else {
                here - 1
            };
            proof {
                lemma_date_of(self.date, step);
                assert(self.date@ == step);
            }
            if self.calendar.is_work_day(self.date, self.division) {
                return Some(self.date);
            }
        }
    }
}

/// Whether some holiday of the list falls on `date`.
fn has_holiday_on(holidays: &Vec<BankHoliday>, date: Date) -> (r: bool)
    ensures
        r == has_date(holidays@, date@),
{
    let n = date.day_number();
    let mut i: usize = 0;
    while i < holidays.len()
        invariant
            i <= holidays@.len(),
            n as int == date@,
            forall|k: int| 0 <= k < i ==> holidays@[k].date@ != n,
        decreases holidays@.len() - i,
    {
        if holidays[i].date.day_number() == n {
            assert(holidays@[i as int].date@ == n);
            return true;
        }
        i = i + 1;
    }
    false
}

/// Whether the list holds a date equal to `date`.
fn contains_date(dates: &Vec<Date>, date: Date) -> (r: bool)
    ensures
        r == in_dates(dates@, date@),
{
    let n = date.day_number();
    let mut i: usize = 0;
    while i < dates.len()
        invariant
            i <= dates@.len(),
            n as int == date@,
            forall|k: int| 0 <= k < i ==> dates@[k]@ != n,
        decreases dates@.len() - i,
    {
        if dates[i].day_number() == n {
            assert(dates@[i as int]@ == n);
            return true;
        }
        i = i + 1;
    }
    false
}

/// The dates of a list of holidays.
fn dates_of(holidays: &Vec<BankHoliday>) -> (r: Vec<Date>)
    ensures
        forall|n: int| #[trigger] in_dates(r@, n) == has_date(holidays@, n),
{
    let mut r: Vec<Date> = Vec::new();
    let mut i: usize = 0;
    while i < holidays.len()
        invariant
            i <= holidays@.len(),
            r@.len() == i,
            forall|k: int| 0 <= k < i ==> #[trigger] r@[k] == holidays@[k].date,
        decreases holidays@.len() - i,
    {
        r.push(holidays[i].date);
        i = i + 1;
    }
    proof {
        assert forall|n: int| #[trigger] in_dates(r@, n) == has_date(holidays@, n) by {
            if has_date(holidays@, n) {
                let k = choose|k: int| 0 <= k < holidays@.len() && #[trigger] holidays@[k].date@ == n;
                assert(r@[k]@ == n);
            }
        }
    }
    r
}

/// The dates of `dates` on which some holiday of the list falls.
fn keep_dates_of(dates: &Vec<Date>, holidays: &Vec<BankHoliday>) -> (r: Vec<Date>)
    ensures
        forall|n: int| #[trigger] in_dates(r@, n) == (in_dates(dates@, n) && has_date(holidays@, n)),
{
    let mut r: Vec<Date> = Vec::new();
    let mut i: usize = 0;
    while i < dates.len()
        invariant
            i <= dates@.len(),
            forall|n: int| #[trigger] in_dates(r@, n) == (in_dates(dates@.take(i as int), n)
                && has_date(holidays@, n)),
        decreases dates@.len() - i,
    {
        let date = dates[i];
        let ghost before = r@;
        if has_holiday_on(holidays, date) {
            r.push(date);
        }
        proof {
            assert(dates@.take(i + 1) =~= dates@.take(i as int).push(date));
            assert forall|n: int| #[trigger] in_dates(r@, n) == (in_dates(dates@.take(i + 1), n)
                && has_date(holidays@, n)) by {
                let t = dates@.take(i + 1);
                if in_dates(t, n) {
                    let k = choose|k: int| 0 <= k < t.len() && #[trigger] t[k]@ == n;
                    if k < i {
                        assert(dates@.take(i as int)[k]@ == n);
                    }
                }
                if in_dates(dates@.take(i as int), n) {
                    let k = choose|k: int| 0 <= k < i && #[trigger] dates@.take(i as int)[k]@ == n;
                    assert(t[k]@ == n);
                }
                if in_dates(r@, n) {
                    let k = choose|k: int| 0 <= k < r@.len() && #[trigger] r@[k]@ == n;
                    if k < before.len() {
                        assert(before[k]@ == n);
                    }
                }
                if in_dates(before, n) {
                    let k = choose|k: int| 0 <= k < before.len() && #[trigger] before[k]@ == n;
                    assert(r@[k]@ == n);
                }
                if n == date@ && has_date(holidays@, n) {
                    assert(r@[r@.len() - 1]@ == n);
                    assert(t[i as int]@ == n);
                }
            }
        }
        i = i + 1;
    }
    assert(dates@.take(dates@.len() as int) =~= dates@);
    r
}

/// Keeping only the common dates keeps a list strictly ascending, and keeps
/// only holidays of the list.
proof fn lemma_only_common_ascending(holidays: Seq<BankHoliday>, regions: Map<Division, Seq<BankHoliday>>)
    requires
        strictly_ascending(holidays),
    ensures
        strictly_ascending(only_common(holidays, regions)),
        forall|k: int|
            0 <= k < only_common(holidays, regions).len() ==> holidays.contains(
                #[trigger] only_common(holidays, regions)[k],
            ),
    decreases holidays.len(),
{
    if holidays.len() > 0 {
        let init = holidays.drop_last();
        lemma_only_common_ascending(init, regions);
        let rest = only_common(init, regions);
        assert forall|k: int| 0 <= k < rest.len() implies #[trigger] rest[k].date@
            < holidays.last().date@ && holidays.contains(rest[k]) by {
            let i = choose|i: int| 0 <= i < init.len() && init[i] == rest[k];
            assert(holidays[i] == rest[k]);
        }
        assert(holidays.contains(holidays.last())) by {
            assert(holidays[holidays.len() - 1] == holidays.last());
        }
    }
}

/// Keeping the holidays dated after a day keeps a list strictly ascending.
proof fn lemma_dated_after_ascending(holidays: Seq<BankHoliday>, n: int)
    requires
        strictly_ascending(holidays),
    ensures
        strictly_ascending(dated_after(holidays, n)),
        forall|k: int|
            0 <= k < dated_after(holidays, n).len() ==> #[trigger] dated_after(holidays, n)[k].date@
                > n,
        forall|k: int|
            0 <= k < dated_after(holidays, n).len() ==> holidays.contains(
                #[trigger] dated_after(holidays, n)[k],
            ),
    decreases holidays.len(),
{
    if holidays.len() > 0 {
        let tail = holidays.drop_first();
        lemma_dated_after_ascending(tail, n);
        let rest = dated_after(tail, n);
        let r = dated_after(holidays, n);
        assert forall|k: int| 0 <= k < rest.len() implies #[trigger] rest[k].date@
            > holidays[0].date@ && holidays.contains(rest[k]) by {
            let i = choose|i: int| 0 <= i < tail.len() && tail[i] == rest[k];
            assert(holidays[i + 1] == rest[k]);
        }
        if holidays[0].date@ > n {
            assert forall|k: int| 0 <= k < r.len() implies #[trigger] r[k].date@ > n
                && holidays.contains(r[k]) by {
                if k > 0 {
                    assert(r[k] == rest[k - 1]);
                } else {
                    assert(holidays[0] == r[0]);
                }
            }
            assert forall|i: int, j: int| 0 <= i < j < r.len() implies r[i].date@ < r[j].date@ by {
                assert(r[j] == rest[j - 1]);
                if i > 0 {
                    assert(r[i] == rest[i - 1]);
                }
            }
        }
    }
}

/// Keeping the holidays dated before a day keeps a list strictly ascending.
proof fn lemma_dated_before_ascending(holidays: Seq<BankHoliday>, n: int)
    requires
        strictly_ascending(holidays),
    ensures
        strictly_ascending(dated_before(holidays, n)),
        forall|k: int|
            0 <= k < dated_before(holidays, n).len() ==> #[trigger] dated_before(
                holidays,
                n,
            )[k].date@ < n,
        forall|k: int|
            0 <= k < dated_before(holidays, n).len() ==> holidays.contains(
                #[trigger] dated_before(holidays, n)[k],
            ),
    decreases holidays.len(),
{
    if holidays.len() > 0 {
        let init = holidays.drop_last();
        lemma_dated_before_ascending(init, n);
        let rest = dated_before(init, n);
        assert forall|k: int| 0 <= k < rest.len() implies #[trigger] rest[k].date@
            < holidays.last().date@ && holidays.contains(rest[k]) by {
            let i = choose|i: int| 0 <= i < init.len() && init[i] == rest[k];
            assert(holidays[i] == rest[k]);
        }
        assert(holidays.contains(holidays.last())) by {
            assert(holidays[holidays.len() - 1] == holidays.last());
        }
    }
}

/// Every date common to all divisions is a holiday in each division present;
/// a date that some present division lacks is not common.
pub proof fn lemma_common_dates<W: WorkDays>(calendar: BankHolidayCalendar<W>, date: Date)
    ensures
        calendar.holiday_on(date, None) ==> forall|d: Division| #[trigger]
            calendar.regions().contains_key(d) ==> has_date(calendar.regions()[d], date@),
        (exists|d: Division| #[trigger]
            calendar.regions().contains_key(d) && !has_date(calendar.regions()[d], date@))
            ==> !calendar.holiday_on(date, None),
{
}

/// Where every division's holidays are strictly ascending by date, the
/// holidays after a date come in strictly increasing order, all after it, and
/// those before a date in strictly decreasing order, all before it: nearest
/// first either way.
pub proof fn lemma_holiday_traversal_order<W: WorkDays>(
    calendar: BankHolidayCalendar<W>,
    date: Date,
    division: Option<Division>,
)
    requires
        calendar.sorted_regions(),
    ensures
        forall|i: int, j: int|
            0 <= i < j < calendar.holidays_after(date, division).len() ==> calendar.holidays_after(
                date,
                division,
            )[i].date@ < calendar.holidays_after(date, division)[j].date@,
        forall|i: int|
            0 <= i < calendar.holidays_after(date, division).len() ==> #[trigger] calendar.holidays_after(
                date,
                division,
            )[i].date@ > date@,
        forall|i: int, j: int|
            0 <= i < j < calendar.holidays_before(date, division).len()
                ==> calendar.holidays_before(date, division)[i].date@ > calendar.holidays_before(
                date,
                division,
            )[j].date@,
        forall|i: int|
            0 <= i < calendar.holidays_before(date, division).len() ==> #[trigger] calendar.holidays_before(
                date,
                division,
            )[i].date@ < date@,
{
    let regions = calendar.regions();
    let listed = calendar.listed(division);
    match division {
        Some(d) => {},
        None => {
            if let Some(d) = default_division(regions) {
                lemma_only_common_ascending(regions[d], regions);
            }
        },
    }
    assert(strictly_ascending(listed));
    lemma_dated_after_ascending(listed, date@);
    lemma_dated_before_ascending(listed, date@);
    let before = dated_before(listed, date@);
    assert forall|i: int| 0 <= i < before.len() implies #[trigger] reversed(before)[i].date@
        < date@ by {
        assert(reversed(before)[i] == before[before.len() - 1 - i]);
    }
}

/// The work day a traversal yields is a work day, strictly past its start in
/// the traversal's direction; so is the next one, past the first: successive
/// work days move strictly away from the start.
pub proof fn lemma_work_day_traversal<W: WorkDays>(
    calendar: BankHolidayCalendar<W>,
    start: int,
    division: Option<Division>,
    forward: bool,
)
    ensures
        calendar.next_work_day(start, division, forward) matches Some(m) ==> (FIRST_DAY <= m
            <= LAST_DAY && calendar.work_day_on(date_of(m), division) && (if forward {
            m > start
        } else {
            m < start
        }) && (calendar.next_work_day(m, division, forward) matches Some(k) ==> (
        calendar.work_day_on(date_of(k), division) && (if forward {
            k > m
        } else {
            k < m
        })))),
{
    lemma_next_work_day(calendar, start, division, forward);
    if let Some(m) = calendar.next_work_day(start, division, forward) {
        lemma_next_work_day(calendar, m, division, forward);
    }
}

/// One step of the work day traversal lands on a work day past its start.
proof fn lemma_next_work_day<W: WorkDays>(
    calendar: BankHolidayCalendar<W>,
    start: int,
    division: Option<Division>,
    forward: bool,
)
    ensures
        calendar.next_work_day(start, division, forward) matches Some(m) ==> (FIRST_DAY <= m
            <= LAST_DAY && calendar.work_day_on(date_of(m), division) && (if forward {
            m > start
        } else {
            m < start
        })),
    decreases (if forward {
        LAST_DAY - start
    } else {
        start - FIRST_DAY
    }),
{
    let step = if forward {
        start + 1
    } else {
        start - 1
    };
    if FIRST_DAY <= step <= LAST_DAY && !calendar.work_day_on(date_of(step), division) {
        lemma_next_work_day(calendar, step, division, forward);
    }
}

} // verus!
