use vstd::multiset::Multiset;
use vstd::prelude::*;

use crate::bank_holidays::BankHoliday;
use crate::divisions::Division;

verus! {

/// Dates increase strictly along a list of holidays: it is sorted and has no two
/// holidays on one date.
pub open spec fn strictly_ascending(s: Seq<BankHoliday>) -> bool {
    forall|i: int, j: int| 0 <= i < j < s.len() ==> s[i].date@ < s[j].date@
}

/// Titles in lexicographic order of their characters, by code point.
pub open spec fn title_before(a: Seq<char>, b: Seq<char>) -> bool
    decreases a.len(),
{
    if a.len() == 0 {
        b.len() > 0
    } else if b.len() == 0 {
        false
    } else if a[0] != b[0] {
        a[0] < b[0]
    } else {
        title_before(a.drop_first(), b.drop_first())
    }
}

/// Order of holidays: by date, then by title.
pub open spec fn holiday_before(a: BankHoliday, b: BankHoliday) -> bool {
    a.date@ < b.date@ || (a.date@ == b.date@ && title_before(a.title@, b.title@))
}

/// A list of holidays in order of date, then title.
pub open spec fn sorted_by_date_and_title(s: Seq<BankHoliday>) -> bool {
    forall|i: int, j: int| 0 <= i < j < s.len() ==> !holiday_before(s[j], s[i])
}

/// Merge of two lists of holidays sorted by date: walks both from the front,
/// taking the earlier holiday each time, and the one of `incoming` where both
/// lists have a holiday on the same date.
pub open spec fn merge_holidays(existing: Seq<BankHoliday>, incoming: Seq<BankHoliday>) -> Seq<
    BankHoliday,
>
    decreases existing.len() + incoming.len(),
{
    if existing.len() == 0 {
        incoming
    } else if incoming.len() == 0 {
        existing
    } else if existing[0].date@ < incoming[0].date@ {
        seq![existing[0]] + merge_holidays(existing.drop_first(), incoming)
    } else if existing[0].date@ == incoming[0].date@ {
        seq![incoming[0]] + merge_holidays(existing.drop_first(), incoming.drop_first())
    } else {
        seq![incoming[0]] + merge_holidays(existing, incoming.drop_first())
    }
}

/// The mapping that a list of (division, holidays) pairs describes; where a
/// division appears more than once, its last pair counts.
pub open spec fn map_of_entries(entries: Seq<(Division, Vec<BankHoliday>)>) -> Map<
    Division,
    Seq<BankHoliday>,
>
    decreases entries.len(),
{
    if entries.len() == 0 {
        Map::empty()
    } else {
        let rest = map_of_entries(entries.drop_first());
        if rest.contains_key(entries[0].0) {
            rest
        } else {
            rest.insert(entries[0].0, entries[0].1@)
        }
    }
}

/// Every division present, with an empty list where one was missing.
pub open spec fn completed(m: Map<Division, Seq<BankHoliday>>) -> Map<Division, Seq<BankHoliday>> {
    Map::new(
        |d: Division| true,
        |d: Division|
            if m.contains_key(d) {
                m[d]
            } else {
                Seq::empty()
            },
    )
}

/// Division by division merge of two mappings, `incoming` overriding `existing`
/// on equal dates; a division on one side only is taken as it is.
pub open spec fn merged(
    existing: Map<Division, Seq<BankHoliday>>,
    incoming: Map<Division, Seq<BankHoliday>>,
) -> Map<Division, Seq<BankHoliday>> {
    Map::new(
        |d: Division| existing.contains_key(d) || incoming.contains_key(d),
        |d: Division|
            if existing.contains_key(d) && incoming.contains_key(d) {
                merge_holidays(existing[d], incoming[d])
            } else if existing.contains_key(d) {
                existing[d]
            } else {
                incoming[d]
            },
    )
}

/// A mapping of divisions to lists of bank holidays, from which a calendar is built.
///
/// Lists are expected in date order; call `sort` where they might not be.
pub struct DataSource {
    england_and_wales: Option<Vec<BankHoliday>>,
    scotland: Option<Vec<BankHoliday>>,
    northern_ireland: Option<Vec<BankHoliday>>,
}

impl View for DataSource {
    type V = Map<Division, Seq<BankHoliday>>;

    closed spec fn view(&self) -> Map<Division, Seq<BankHoliday>> {
        Map::new(|d: Division| self.slot(d) is Some, |d: Division| self.slot(d)->0@)
    }
}

impl DataSource {
    spec fn slot(&self, d: Division) -> Option<Vec<BankHoliday>> {
        match d {
            Division::EnglandAndWales => self.england_and_wales,
            Division::Scotland => self.scotland,
            Division::NorthernIreland => self.northern_ireland,
        }
    }

    /// A data source without any division.
    pub fn empty() -> (r: DataSource)
        ensures
            r@ == Map::<Division, Seq<BankHoliday>>::empty(),
    {
        let r = DataSource { england_and_wales: None, scotland: None, northern_ireland: None };
        assert(r@ =~= Map::<Division, Seq<BankHoliday>>::empty());
        r
    }

    /// Holidays of a division, if it is present.
    pub fn get(&self, division: Division) -> (r: Option<&Vec<BankHoliday>>)
        ensures
            r.is_some() == self@.contains_key(division),
            r matches Some(v) ==> v@ == self@[division],
    {
        match division {
            Division::EnglandAndWales => self.england_and_wales.as_ref(),
            Division::Scotland => self.scotland.as_ref(),
            Division::NorthernIreland => self.northern_ireland.as_ref(),
        }
    }

    /// Sets the holidays of a division, replacing any it had.
    pub fn insert(&mut self, division: Division, holidays: Vec<BankHoliday>)
        ensures
            final(self)@ == old(self)@.insert(division, holidays@),
    {
        match division {
            Division::EnglandAndWales => self.england_and_wales = Some(holidays),
            Division::Scotland => self.scotland = Some(holidays),
            Division::NorthernIreland => self.northern_ireland = Some(holidays),
        }
        assert(final(self)@ =~= old(self)@.insert(division, holidays@));
    }

    /// Removes a division and hands back its holidays, if it was present.
    fn take(&mut self, division: Division) -> (r: Option<Vec<BankHoliday>>)
        ensures
            r.is_some() == old(self)@.contains_key(division),
            r matches Some(v) ==> v@ == old(self)@[division],
            final(self)@ == old(self)@.remove(division),
    {
        let r = match division {
            Division::EnglandAndWales => self.england_and_wales.take(),
            Division::Scotland => self.scotland.take(),
            Division::NorthernIreland => self.northern_ireland.take(),
        };
        assert(final(self)@ =~= old(self)@.remove(division));
        r
    }

    /// Data source from pairs of a division and its holidays; where a division
    /// appears more than once, its last pair counts.
    pub fn new(holiday_map: Vec<(Division, Vec<BankHoliday>)>) -> (r: DataSource)
        ensures
            r@ == map_of_entries(holiday_map@),
    {
        let ghost entries = holiday_map@;
        let mut rest = holiday_map;
        let mut r = DataSource::empty();
        assert(entries.skip(entries.len() as int) =~= Seq::<(Division, Vec<BankHoliday>)>::empty());
        while rest.len() > 0
            invariant
                rest@ == entries.take(rest@.len() as int),
                rest@.len() <= entries.len(),
                r@ == map_of_entries(entries.skip(rest@.len() as int)),
            decreases rest@.len(),
        {
            let (division, holidays) = rest.pop().unwrap();
            let k = rest.len();
            proof {
                assert(entries.skip(k as int).drop_first() =~= entries.skip(k + 1));
                assert(entries.skip(k as int)[0] == entries[k as int]);
                assert(rest@ =~= entries.take(k as int));
            }
            if r.get(division).is_none() {
                r.insert(division, holidays);
            }
        }
        assert(entries.skip(0) =~= entries);
        r
    }

    /// Ensures all divisions are present, adding an empty list for each missing one.
    pub fn add_missing_divisions(&mut self)
        ensures
            final(self)@ == completed(old(self)@),
    {
        if self.england_and_wales.is_none() {
            self.england_and_wales = Some(Vec::new());
        }
        if self.scotland.is_none() {
            self.scotland = Some(Vec::new());
        }
        if self.northern_ireland.is_none() {
            self.northern_ireland = Some(Vec::new());
        }
        assert(final(self)@ =~= completed(old(self)@));
    }

    /// Sorts each division's holidays by date, then title.
    pub fn sort(&mut self)
        ensures
            final(self)@.dom() == old(self)@.dom(),
            forall|d: Division| #[trigger]
                final(self)@.contains_key(d) ==> final(self)@[d].to_multiset()
                    == old(self)@[d].to_multiset() && sorted_by_date_and_title(final(self)@[d]),
    {
        let ghost start = self@;
        if let Some(events) = self.england_and_wales.take() {
            self.england_and_wales = Some(sort_holidays(events));
        }
        if let Some(events) = self.scotland.take() {
            self.scotland = Some(sort_holidays(events));
        }
        if let Some(events) = self.northern_ireland.take() {
            self.northern_ireland = Some(sort_holidays(events));
        }
        assert(self@.dom() =~= start.dom());
    }

    /// Merges with another data source, division by division, with `other`
    /// overriding this one where the same date appears in both.
    pub fn merge(&mut self, other: DataSource)
        ensures
            final(self)@ == merged(old(self)@, other@),
    {
        let mut other = other;
        let ghost incoming = other@;
        let divisions = Division::all();
        let mut i: usize = 0;
        while i < 3
            invariant
                0 <= i <= 3,
                forall|k: int| 0 <= k < 3 ==> #[trigger] divisions@[k] == crate::divisions::division_at(k),
                forall|d: Division| #[trigger] self@.contains_key(d) ==> (
                    if crate::divisions::division_index(d) < i {
                        merged(old(self)@, incoming).contains_key(d)
                            && self@[d] == merged(old(self)@, incoming)[d]
                    } else {
                        old(self)@.contains_key(d) && self@[d] == old(self)@[d]
                    }),
                forall|d: Division| #[trigger] self@.contains_key(d) <==> (
                    if crate::divisions::division_index(d) < i {
                        merged(old(self)@, incoming).contains_key(d)
                    } else {
                        old(self)@.contains_key(d)
                    }),
                forall|d: Division| #[trigger] other@.contains_key(d) <==> (
                    crate::divisions::division_index(d) >= i && incoming.contains_key(d)),
                forall|d: Division| #[trigger] other@.contains_key(d) ==> other@[d] == incoming[d],
            decreases 3 - i,
        {
            let division = divisions[i];
            proof {
                crate::divisions::lemma_division_index(division);
            }
            match other.take(division) {
                Some(incoming_events) => {
                    match self.take(division) {
                        Some(events) => {
                            let combined = merge_sorted(&events, &incoming_events);
                            self.insert(division, combined);
                        },
                        None => {
                            self.insert(division, incoming_events);
                        },
                    }
                },
                None => {},
            }
            i = i + 1;
        }
        proof {
            assert forall|d: Division| #![auto] true implies crate::divisions::division_index(d) < 3 by {
                crate::divisions::lemma_division_index(d);
            }
        }
        assert(self@ =~= merged(old(self)@, incoming));
    }
}

/// Relies on `PartialOrd for String`: strings compare lexicographically by
/// their UTF-8 bytes, which orders them as their characters by code point.
#[verifier::external_body]
fn title_precedes(a: &String, b: &String) -> (r: bool)
    ensures
        r == title_before(a@, b@),
{
    a < b
}

/// Whether `a` comes before `b` in order of date, then title.
fn precedes(a: &BankHoliday, b: &BankHoliday) -> (r: bool)
    ensures
        r == holiday_before(*a, *b),
{
    let x = a.date.day_number();
    let y = b.date.day_number();
    x < y || (x == y && title_precedes(&a.title, &b.title))
}

/// Title order is a strict total order.
proof fn lemma_title_order(a: Seq<char>, b: Seq<char>, c: Seq<char>)
    ensures
        !title_before(a, a),
        title_before(a, b) ==> !title_before(b, a),
        title_before(a, b) && title_before(b, c) ==> title_before(a, c),
        a != b ==> title_before(a, b) || title_before(b, a),
    decreases a.len(),
{
    if a.len() > 0 && b.len() > 0 && c.len() > 0 {
        lemma_title_order(a.drop_first(), b.drop_first(), c.drop_first());
    }
    if a.len() > 0 && b.len() > 0 && a[0] == b[0] && a != b {
        assert(a =~= seq![a[0]] + a.drop_first());
        assert(b =~= seq![b[0]] + b.drop_first());
    }
    if a.len() > 0 {
        lemma_title_order(a.drop_first(), a.drop_first(), a.drop_first());
    }
    if a.len() > 0 && b.len() > 0 {
        lemma_title_order(a.drop_first(), b.drop_first(), b.drop_first());
    }
    if a.len() == 0 && b.len() == 0 {
        assert(a =~= b);
    }
}

/// Holiday order is a strict total order up to equal date and title; so "not
/// after" is transitive.
proof fn lemma_holiday_order(a: BankHoliday, b: BankHoliday, c: BankHoliday)
    ensures
        holiday_before(a, b) ==> !holiday_before(b, a),
        !holiday_before(b, a) && !holiday_before(c, b) ==> !holiday_before(c, a),
        holiday_before(a, b) && !holiday_before(c, b) ==> !holiday_before(c, a),
{
    lemma_title_order(a.title@, b.title@, c.title@);
    lemma_title_order(b.title@, a.title@, c.title@);
    lemma_title_order(c.title@, b.title@, a.title@);
    lemma_title_order(a.title@, c.title@, b.title@);
    lemma_title_order(b.title@, c.title@, a.title@);
    lemma_title_order(c.title@, a.title@, b.title@);
}

/// Sorts holidays by date, then title, by insertion.
fn sort_holidays(events: Vec<BankHoliday>) -> (r: Vec<BankHoliday>)
    ensures
        r@.to_multiset() == events@.to_multiset(),
        sorted_by_date_and_title(r@),
{
    broadcast use vstd::seq_lib::group_to_multiset_ensures;

    let ghost all = events@;
    let mut rest = events;
    let mut out: Vec<BankHoliday> = Vec::new();
    assert(out@.to_multiset() =~= Multiset::<BankHoliday>::empty());
    assert(out@.to_multiset().add(rest@.to_multiset()) =~= all.to_multiset());
    while rest.len() > 0
        invariant
            out@.to_multiset().add(rest@.to_multiset()) == all.to_multiset(),
            sorted_by_date_and_title(out@),
        decreases rest@.len(),
    {
        let ghost rest_before = rest@;
        let x = rest.pop().unwrap();
        proof {
            assert(rest_before =~= rest@.push(x));
        }
        let mut p: usize = out.len();
        while p > 0 && !precedes(&out[p - 1], &x)
            invariant
                p <= out@.len(),
                sorted_by_date_and_title(out@),
                forall|k: int| p <= k < out@.len() ==> !holiday_before(#[trigger] out@[k], x),
            decreases p,
        {
            p = p - 1;
        }
        let ghost out_before = out@;
        out.insert(p, x);
        proof {
            assert forall|i: int, j: int| 0 <= i < j < out@.len() implies !holiday_before(
                out@[j],
                out@[i],
            ) by {
                if j == p as int {
                    if p > 0 {
                        lemma_holiday_order(out_before[p - 1], x, out_before[i]);
                        lemma_holiday_order(out_before[i], out_before[p - 1], x);
                    }
                } else if i == p as int {
                    assert(out@[j] == out_before[j - 1]);
                } else {
                    let i0 = if i < p { i } else { i - 1 };
                    let j0 = if j < p { j } else { j - 1 };
                    assert(out@[i] == out_before[i0]);
                    assert(out@[j] == out_before[j0]);
                }
            }
            vstd::seq_lib::to_multiset_insert(out_before, p as int, x);
            vstd::seq_lib::to_multiset_build(rest@, x);
            assert(out@.to_multiset().add(rest@.to_multiset()) =~= all.to_multiset());
        }
    }
    assert(rest@.to_multiset() =~= Multiset::<BankHoliday>::empty());
    assert(out@.to_multiset() =~= all.to_multiset());
    out
}

/// Merges two lists of holidays sorted by date, `incoming` winning on equal dates.
fn merge_sorted(existing: &Vec<BankHoliday>, incoming: &Vec<BankHoliday>) -> (r: Vec<BankHoliday>)
    ensures
        r@ == merge_holidays(existing@, incoming@),
{
    let mut out: Vec<BankHoliday> = Vec::new();
    let mut i: usize = 0;
    let mut j: usize = 0;
    assert(existing@.skip(0) =~= existing@);
    assert(incoming@.skip(0) =~= incoming@);
    assert(out@ + merge_holidays(existing@, incoming@) =~= merge_holidays(existing@, incoming@));
    while i < existing.len() || j < incoming.len()
        invariant
            i <= existing@.len(),
            j <= incoming@.len(),
            out@ + merge_holidays(existing@.skip(i as int), incoming@.skip(j as int))
                == merge_holidays(existing@, incoming@),
        decreases existing@.len() - i + incoming@.len() - j,
    {
        let ghost a = existing@.skip(i as int);
        let ghost b = incoming@.skip(j as int);
        let ghost before = out@;
        if i == existing.len() {
            out.push(incoming[j].clone());
            proof {
                assert(b.drop_first() =~= incoming@.skip(j + 1));
                assert(a.len() == 0);
                assert(merge_holidays(a, b.drop_first()) == b.drop_first());
                assert(b =~= seq![incoming@[j as int]] + b.drop_first());
            }
            j = j + 1;
        } else if j == incoming.len() {
            out.push(existing[i].clone());
            proof {
                assert(a.drop_first() =~= existing@.skip(i + 1));
                assert(a =~= seq![existing@[i as int]] + a.drop_first());
            }
            i = i + 1;
        } else if existing[i].date.day_number() < incoming[j].date.day_number() {
            out.push(existing[i].clone());
            proof {
                assert(a.drop_first() =~= existing@.skip(i + 1));
            }
            i = i + 1;
        } else if existing[i].date.day_number() == incoming[j].date.day_number() {
            out.push(incoming[j].clone());
            proof {
                assert(a.drop_first() =~= existing@.skip(i + 1));
                assert(b.drop_first() =~= incoming@.skip(j + 1));
            }
            i = i + 1;
            j = j + 1;
        } else {
            out.push(incoming[j].clone());
            proof {
                assert(b.drop_first() =~= incoming@.skip(j + 1));
            }
            j = j + 1;
        }
        proof {
            assert(out@ + merge_holidays(existing@.skip(i as int), incoming@.skip(j as int))
                =~= before + merge_holidays(a, b));
        }
    }
    proof {
        assert(existing@.skip(i as int) =~= Seq::<BankHoliday>::empty());
        assert(out@ + merge_holidays(existing@.skip(i as int), incoming@.skip(j as int)) =~= out@);
    }
    out
}

/// Every holiday of a merge lies after a date that all holidays of both lists lie after.
proof fn lemma_merge_after(existing: Seq<BankHoliday>, incoming: Seq<BankHoliday>, bound: int)
    requires
        forall|i: int| 0 <= i < existing.len() ==> existing[i].date@ > bound,
        forall|i: int| 0 <= i < incoming.len() ==> incoming[i].date@ > bound,
    ensures
        forall|k: int|
            0 <= k < merge_holidays(existing, incoming).len() ==> #[trigger] merge_holidays(
                existing,
                incoming,
            )[k].date@ > bound,
    decreases existing.len() + incoming.len(),
{
    if existing.len() > 0 && incoming.len() > 0 {
        let m = merge_holidays(existing, incoming);
        let (a, b) = if existing[0].date@ < incoming[0].date@ {
            (existing.drop_first(), incoming)
        } else if existing[0].date@ == incoming[0].date@ {
            (existing.drop_first(), incoming.drop_first())
        } else {
            (existing, incoming.drop_first())
        };
        lemma_merge_after(a, b, bound);
        let rest = merge_holidays(a, b);
        assert forall|k: int| 0 <= k < m.len() implies #[trigger] m[k].date@ > bound by {
            if k > 0 {
                assert(m[k] == rest[k - 1]);
            }
        }
    }
}

/// Every holiday of `incoming` appears in the merge.
proof fn lemma_merge_keeps_incoming(existing: Seq<BankHoliday>, incoming: Seq<BankHoliday>)
    ensures
        forall|j: int|
            0 <= j < incoming.len() ==> merge_holidays(existing, incoming).contains(
                #[trigger] incoming[j],
            ),
    decreases existing.len() + incoming.len(),
{
    let m = merge_holidays(existing, incoming);
    if existing.len() > 0 && incoming.len() > 0 {
        if existing[0].date@ < incoming[0].date@ {
            lemma_merge_keeps_incoming(existing.drop_first(), incoming);
            let rest = merge_holidays(existing.drop_first(), incoming);
            assert forall|j: int| 0 <= j < incoming.len() implies m.contains(
                #[trigger] incoming[j],
            ) by {
                let k = choose|k: int| 0 <= k < rest.len() && rest[k] == incoming[j];
                assert(m[k + 1] == incoming[j]);
            }
        } else {
            let e = if existing[0].date@ == incoming[0].date@ {
                existing.drop_first()
            } else {
                existing
            };
            lemma_merge_keeps_incoming(e, incoming.drop_first());
            let rest = merge_holidays(e, incoming.drop_first());
            assert(m == seq![incoming[0]] + rest);
            assert forall|j: int| 0 <= j < incoming.len() implies m.contains(
                #[trigger] incoming[j],
            ) by {
                if j == 0 {
                    assert(m[0] == incoming[0]);
                } else {
                    assert(incoming.drop_first()[j - 1] == incoming[j]);
                    let k = choose|k: int| 0 <= k < rest.len() && rest[k] == incoming[j];
                    assert(m[k + 1] == incoming[j]);
                }
            }
        }
    }
}

/// Merging keeps lists strictly ascending by date.
proof fn lemma_merge_ascending(existing: Seq<BankHoliday>, incoming: Seq<BankHoliday>)
    requires
        strictly_ascending(existing),
        strictly_ascending(incoming),
    ensures
        strictly_ascending(merge_holidays(existing, incoming)),
    decreases existing.len() + incoming.len(),
{
    if existing.len() > 0 && incoming.len() > 0 {
        let a1 = existing.drop_first();
        let b1 = incoming.drop_first();
        if existing[0].date@ < incoming[0].date@ {
            lemma_merge_ascending(a1, incoming);
            lemma_merge_after(a1, incoming, existing[0].date@);
        } else if existing[0].date@ == incoming[0].date@ {
            lemma_merge_ascending(a1, b1);
            lemma_merge_after(a1, b1, incoming[0].date@);
        } else {
            lemma_merge_ascending(existing, b1);
            lemma_merge_after(existing, b1, incoming[0].date@);
        }
    }
}

/// Merging two lists that are strictly ascending by date gives a list that is
/// strictly ascending by date, so without two holidays on one date; where a
/// date appears in both lists, the merged holiday on that date is the one of
/// `incoming`.
pub proof fn lemma_merge_sorted_and_overriding(existing: Seq<BankHoliday>, incoming: Seq<BankHoliday>)
    requires
        strictly_ascending(existing),
        strictly_ascending(incoming),
    ensures
        strictly_ascending(merge_holidays(existing, incoming)),
        forall|k: int, j: int|
            0 <= k < merge_holidays(existing, incoming).len() && 0 <= j < incoming.len()
                && #[trigger] merge_holidays(existing, incoming)[k].date@
                == #[trigger] incoming[j].date@ ==> merge_holidays(existing, incoming)[k]
                == incoming[j],
{
    let m = merge_holidays(existing, incoming);
    lemma_merge_ascending(existing, incoming);
    lemma_merge_keeps_incoming(existing, incoming);
    assert forall|k: int, j: int|
        0 <= k < m.len() && 0 <= j < incoming.len() && #[trigger] m[k].date@
            == #[trigger] incoming[j].date@ implies m[k] == incoming[j] by {
        assert(m.contains(incoming[j]));
        let k2 = choose|k2: int| 0 <= k2 < m.len() && m[k2] == incoming[j];
        assert(k2 == k);
    }
}

/// Merging a list with itself gives it back.
pub proof fn lemma_merge_idempotent(holidays: Seq<BankHoliday>)
    ensures
        merge_holidays(holidays, holidays) == holidays,
    decreases holidays.len(),
{
    if holidays.len() > 0 {
        lemma_merge_idempotent(holidays.drop_first());
        assert(holidays =~= seq![holidays[0]] + holidays.drop_first());
    }
}

} // verus!
