//! The activity ledger: minutes per activity per date.
use vstd::prelude::*;
use vstd::string::*;

use crate::date::{
    date_text, parse_date, days_after, is_valid, lemma_ordinal_order, lemma_step_ordinal, lemma_view_injective, next_day, ordinal, precedes, Date, Ymd,
};
use crate::keyed::{
    keys_distinct, lemma_pairs_map_absent, lemma_pairs_map_index, lemma_pairs_map_remove,
    lemma_pairs_map_dom, lemma_pairs_map_update, lemma_push_distinct, pairs_map,
};
use crate::text::{decimal, decimal_string, push_decimal};
use vstd::utf8::encode_utf8;

verus! {

/// The most minutes one activity can hold on one date.
pub const MAX_DAILY_MINUTES: u16 = 1440;

/// What a ledger holds: for each date, the minutes of each activity.
pub type Ledger = Map<Ymd, Map<Seq<char>, u16>>;

/// The activities of one date as a map from name to minutes.
pub open spec fn activity_pairs(v: Seq<(String, u16)>) -> Seq<(Seq<char>, u16)> {
    v.map_values(|p: (String, u16)| (p.0@, p.1))
}

pub open spec fn activity_map(v: Seq<(String, u16)>) -> Map<Seq<char>, u16> {
    pairs_map(activity_pairs(v))
}

pub open spec fn day_pairs(v: Seq<(Date, Vec<(String, u16)>)>) -> Seq<(Ymd, Map<Seq<char>, u16>)> {
    v.map_values(|p: (Date, Vec<(String, u16)>)| (p.0@, activity_map(p.1@)))
}

/// Every date holds at least one activity, and no activity more than a day's minutes.
pub open spec fn ledger_ok(m: Ledger) -> bool {
    forall|d: Ymd|
        #[trigger] m.contains_key(d) ==> m[d] != Map::<Seq<char>, u16>::empty() && (forall|
            a: Seq<char>,
        | #[trigger] m[d].contains_key(a) ==> m[d][a] <= MAX_DAILY_MINUTES)
}

/// The minutes recorded for an activity on a date; zero when there are none.
pub open spec fn minutes_on(m: Ledger, d: Ymd, a: Seq<char>) -> int {
    if m.contains_key(d) && m[d].contains_key(a) {
        m[d][a] as int
    } else {
        0
    }
}

/// The activities recorded on a date; none when the date is absent.
pub open spec fn day_or_empty(m: Ledger, d: Ymd) -> Map<Seq<char>, u16> {
    if m.contains_key(d) {
        m[d]
    } else {
        Map::empty()
    }
}

/// The ledger after adding minutes, or `None` when the activity's total for
/// the date would exceed a day's minutes.
pub open spec fn added(m: Ledger, d: Ymd, a: Seq<char>, minutes: int) -> Option<Ledger> {
    let total = minutes_on(m, d, a) + minutes;
    if total > MAX_DAILY_MINUTES {
        None
    } else {
        Some(m.insert(d, day_or_empty(m, d).insert(a, total as u16)))
    }
}

/// The ledger after subtracting minutes from a recorded activity: what is left,
/// or the activity taken out, and the date too when nothing is left on it.
pub open spec fn subtracted(m: Ledger, d: Ymd, a: Seq<char>, minutes: int) -> Ledger {
    let day = m[d];
    if minutes < day[a] {
        m.insert(d, day.insert(a, (day[a] - minutes) as u16))
    } else if day.remove(a) == Map::<Seq<char>, u16>::empty() {
        m.remove(d)
    } else {
        m.insert(d, day.remove(a))
    }
}

pub open spec fn add_error_text(a: Seq<char>, d: Ymd) -> Seq<char> {
    "Add error: total minutes exceeds 1440 for "@ + a + " on "@ + date_text(d)
}

pub open spec fn no_date_text(d: Ymd) -> Seq<char> {
    "Subtract error: no activities recorded for "@ + date_text(d)
}

pub open spec fn no_activity_text(a: Seq<char>, d: Ymd) -> Seq<char> {
    "Subtract error: no minutes recorded for "@ + a + " on "@ + date_text(d)
}

/// `cur` is a valid date on or before the valid date `end`.
pub open spec fn in_range(cur: Ymd, end: Ymd) -> bool {
    is_valid(cur) && is_valid(end) && !precedes(end, cur)
}

/// The minutes of an activity over the days from `cur` to `end`.
pub open spec fn range_minutes(m: Ledger, cur: Ymd, end: Ymd, a: Seq<char>) -> int
    decreases ordinal(end) + 4 - ordinal(cur),
{
    if in_range(cur, end) {
        proof {
            if next_day(cur) is Some {
                lemma_step_ordinal(cur, end);
            }
        }
        minutes_on(m, cur, a) + match next_day(cur) {
            Some(n) => range_minutes(m, n, end, a),
            None => 0,
        }
    } else {
        0
    }
}

/// How many of the days from `cur` to `end` have anything recorded.
pub open spec fn range_days(m: Ledger, cur: Ymd, end: Ymd) -> int
    decreases ordinal(end) + 4 - ordinal(cur),
{
    if in_range(cur, end) {
        proof {
            if next_day(cur) is Some {
                lemma_step_ordinal(cur, end);
            }
        }
        (if m.contains_key(cur) {
            1int
        } else {
            0int
        }) + match next_day(cur) {
            Some(n) => range_days(m, n, end),
            None => 0,
        }
    } else {
        0
    }
}

/// The activities recorded on any of the days from `cur` to `end`.
pub open spec fn range_names(m: Ledger, cur: Ymd, end: Ymd) -> Set<Seq<char>>
    decreases ordinal(end) + 4 - ordinal(cur),
{
    if in_range(cur, end) {
        proof {
            if next_day(cur) is Some {
                lemma_step_ordinal(cur, end);
            }
        }
        day_or_empty(m, cur).dom().union(
            match next_day(cur) {
                Some(n) => range_names(m, n, end),
                None => Set::empty(),
            },
        )
    } else {
        Set::empty()
    }
}

/// Two tabs after a field shorter than eight, else one.
pub open spec fn pad(width: int) -> Seq<char> {
    if width < 8 {
        "\t\t"@
    } else {
        "\t"@
    }
}

/// One line of a summary: name, total and average, the width of the name
/// counted in UTF-8 bytes.
pub open spec fn summary_row(name: Seq<char>, total: int, days: int) -> Seq<char> {
    name + pad(encode_utf8(name).len() as int) + decimal(total as nat) + pad(
        decimal(total as nat).len() as int,
    ) + decimal((total / days) as nat)
}

/// The lines of a summary for the given activities, in that order, each after a newline.
pub open spec fn summary_rows(
    m: Ledger,
    start: Ymd,
    end: Ymd,
    names: Seq<Seq<char>>,
    days: int,
) -> Seq<char>
    decreases names.len(),
{
    if names.len() == 0 {
        Seq::empty()
    } else {
        summary_rows(m, start, end, names.drop_last(), days) + "\n"@ + summary_row(
            names.last(),
            range_minutes(m, start, end, names.last()),
            days,
        )
    }
}

pub open spec fn summary_header(start: Ymd, end: Ymd) -> Seq<char> {
    "Summary from "@ + date_text(start) + " to "@ + date_text(end)
        + ":\n\nACTIVITY\tTOTAL TIME\tAVG TIME"@
}

/// The summary of the days from `start` to `end`, with the activities in the given order.
pub open spec fn summary_text(m: Ledger, start: Ymd, end: Ymd, names: Seq<Seq<char>>) -> Seq<
    char,
> {
    summary_header(start, end) + summary_rows(m, start, end, names, range_days(m, start, end))
}

pub open spec fn order_error_text(start: Ymd, end: Ymd) -> Seq<char> {
    "Summarize error: end date "@ + date_text(end) + " is before start date "@ + date_text(start)
}

pub open spec fn no_data_text(start: Ymd, end: Ymd) -> Seq<char> {
    "Summarize error: no data for "@ + date_text(start) + " to "@ + date_text(end)
}

/// Running totals as pairs of name and minutes.
pub open spec fn total_pairs(v: Seq<(String, u64)>) -> Seq<(Seq<char>, u64)> {
    v.map_values(|p: (String, u64)| (p.0@, p.1))
}

pub open spec fn value_or_zero<V>(m: Map<Seq<char>, V>, a: Seq<char>, f: spec_fn(V) -> int) -> int {
    if m.contains_key(a) {
        f(m[a])
    } else {
        0
    }
}

spec fn running(v: Seq<(String, u64)>, a: Seq<char>) -> int {
    value_or_zero(pairs_map(total_pairs(v)), a, |x: u64| x as int)
}

spec fn day_minutes(acts: Map<Seq<char>, u16>, a: Seq<char>) -> int {
    value_or_zero(acts, a, |x: u16| x as int)
}

/// Entries as read from a structured value: date text, and for each activity
/// its name and its minutes when they were a `u16`.
pub open spec fn entries_view(v: Seq<(String, Vec<(String, Option<u16>)>)>) -> Seq<
    (Seq<char>, Seq<(Seq<char>, Option<u16>)>),
> {
    v.map_values(
        |e: (String, Vec<(String, Option<u16>)>)|
            (e.0@, e.1@.map_values(|a: (String, Option<u16>)| (a.0@, a.1))),
    )
}

/// The activities that an entry yields: those with minutes that are a `u16`
/// no larger than a day's minutes; a later name wins over an earlier one.
pub open spec fn entry_activities(acts: Seq<(Seq<char>, Option<u16>)>) -> Map<Seq<char>, u16>
    decreases acts.len(),
{
    if acts.len() == 0 {
        Map::empty()
    } else {
        let rest = entry_activities(acts.drop_last());
        let last = acts.last();
        if last.1 is Some && last.1->0 <= MAX_DAILY_MINUTES {
            rest.insert(last.0, last.1->0)
        } else {
            rest
        }
    }
}

/// The ledger that entries yield: those whose text is a date and which yield
/// an activity; a later date wins over an earlier one.
pub open spec fn entries_ledger(es: Seq<(Seq<char>, Seq<(Seq<char>, Option<u16>)>)>) -> Ledger
    decreases es.len(),
{
    if es.len() == 0 {
        Map::empty()
    } else {
        let rest = entries_ledger(es.drop_last());
        let last = es.last();
        let acts = entry_activities(last.1);
        if parse_date(last.0) is Ok && acts != Map::<Seq<char>, u16>::empty() {
            rest.insert(parse_date(last.0)->Ok_0, acts)
        } else {
            rest
        }
    }
}

pub open spec fn no_entries_text() -> Seq<char> {
    "From JSON error: JSON cannot be interpreted as TrackerData"@
}

/// Minutes per activity per date.
pub struct TrackerData {
    data: Vec<(Date, Vec<(String, u16)>)>,
}

impl View for TrackerData {
    type V = Ledger;

    closed spec fn view(&self) -> Ledger {
        pairs_map(day_pairs(self.data@))
    }
}

impl TrackerData {
    /// Dates are distinct, and so are the activities of each date; every date
    /// holds an activity, and none holds more than a day's minutes.
    pub closed spec fn wf(&self) -> bool {
        &&& keys_distinct(day_pairs(self.data@))
        &&& forall|i: int| 0 <= i < self.data@.len() ==> Self::day_ok(#[trigger] self.data@[i].1@)
    }

    spec fn day_ok(acts: Seq<(String, u16)>) -> bool {
        &&& acts.len() > 0
        &&& keys_distinct(activity_pairs(acts))
        &&& forall|j: int| 0 <= j < acts.len() ==> #[trigger] acts[j].1 <= MAX_DAILY_MINUTES
    }

    proof fn lemma_day_ok_view(acts: Seq<(String, u16)>)
        requires
            Self::day_ok(acts),
        ensures
            activity_map(acts) != Map::<Seq<char>, u16>::empty(),
            forall|a: Seq<char>| #[trigger]
                activity_map(acts).contains_key(a) ==> activity_map(acts)[a] <= MAX_DAILY_MINUTES,
    {
        let p = activity_pairs(acts);
        lemma_pairs_map_index(p, 0);
        assert(!Map::<Seq<char>, u16>::empty().contains_key(p[0].0));
        assert forall|a: Seq<char>| #[trigger]
            activity_map(acts).contains_key(a) implies activity_map(acts)[a] <= MAX_DAILY_MINUTES by {
            crate::keyed::lemma_pairs_map_dom(p, a);
            let j = choose|j: int| 0 <= j < p.len() && #[trigger] p[j].0 == a;
            lemma_pairs_map_index(p, j);
            assert(acts[j].1 <= MAX_DAILY_MINUTES);
        }
    }

    /// A well-formed ledger's view has no empty date and no overfull activity.
    pub proof fn lemma_wf_ledger_ok(&self)
        requires
            self.wf(),
        ensures
            ledger_ok(self@),
    {
        let p = day_pairs(self.data@);
        assert forall|d: Ymd| #[trigger] self@.contains_key(d) implies self@[d]
            != Map::<Seq<char>, u16>::empty() && (forall|a: Seq<char>| #[trigger]
            self@[d].contains_key(a) ==> self@[d][a] <= MAX_DAILY_MINUTES) by {
            crate::keyed::lemma_pairs_map_dom(p, d);
            let i = choose|i: int| 0 <= i < p.len() && #[trigger] p[i].0 == d;
            lemma_pairs_map_index(p, i);
            Self::lemma_day_ok_view(self.data@[i].1@);
        }
    }

    /// An empty ledger.
    pub fn new() -> (r: TrackerData)
        ensures
            r.wf(),
            r@ == Ledger::empty(),
    {
        let r = TrackerData { data: Vec::new() };
        assert(day_pairs(r.data@) =~= Seq::empty());
        r
    }

    fn find_day(&self, date: &Date) -> (r: Option<usize>)
        ensures
            match r {
                Some(i) => i < self.data@.len() && self.data@[i as int].0@ == date@,
                None => forall|i: int| 0 <= i < self.data@.len() ==> #[trigger] self.data@[i].0@ != date@,
            },
    {
        let mut i: usize = 0;
        while i < self.data.len()
            invariant
                i <= self.data@.len(),
                forall|k: int| 0 <= k < i ==> #[trigger] self.data@[k].0@ != date@,
            decreases self.data@.len() - i,
        {
            if self.data[i].0 == *date {
                return Some(i);
            }
            proof {
                lemma_view_injective(self.data@[i as int].0, *date);
            }
            i = i + 1;
        }
        None
    }

    /// Whether the view holds the date, and which entry holds it.
    proof fn lemma_find_day(&self, date: Ymd, r: Option<usize>)
        requires
            self.wf(),
            match r {
                Some(i) => i < self.data@.len() && self.data@[i as int].0@ == date,
                None => forall|i: int| 0 <= i < self.data@.len() ==> #[trigger] self.data@[i].0@ != date,
            },
        ensures
            match r {
                Some(i) => self@.contains_key(date) && self@[date] == activity_map(
                    self.data@[i as int].1@,
                ),
                None => !self@.contains_key(date),
            },
    {
        let p = day_pairs(self.data@);
        match r {
            Some(i) => {
                lemma_pairs_map_index(p, i as int);
            },
            None => {
                assert forall|k: int| 0 <= k < p.len() implies #[trigger] p[k].0 != date by {
                    assert(p[k].0 == self.data@[k].0@);
                }
                lemma_pairs_map_absent(p, date);
            },
        }
    }

    /// The minutes recorded for an activity on a date, if any are.
    pub fn minutes_for(&self, date: &Date, activity: &String) -> (r: Option<u16>)
        requires
            self.wf(),
        ensures
            r == (if self@.contains_key(date@) && self@[date@].contains_key(activity@) {
                Some(self@[date@][activity@])
            } else {
                None::<u16>
            }),
    {
        let found = self.find_day(date);
        proof {
            self.lemma_find_day(date@, found);
        }
        match found {
            Some(i) => {
                let found_act = find_activity(&self.data[i].1, activity);
                proof {
                    assert(Self::day_ok(self.data@[i as int].1@));
                    lemma_find_activity(self.data@[i as int].1@, activity@, found_act);
                }
                match found_act {
                    Some(j) => Some(self.data[i].1[j].1),
                    None => None,
                }
            },
            None => None,
        }
    }

    /// Adds minutes to an activity on a date. Fails, and changes nothing, when
    /// the activity's total for that date would exceed a day's minutes.
    pub fn add(&mut self, date: Date, activity: String, minutes: u16) -> (r: Result<(), String>)
        requires
            old(self).wf(),
        ensures
            final(self).wf(),
            match added(old(self)@, date@, activity@, minutes as int) {
                Some(m) => r is Ok && final(self)@ == m,
                None => r matches Err(e) && e@ == add_error_text(activity@, date@) && final(self)@
                    == old(self)@,
            },
    {
        let ghost m = self@;
        let found = self.find_day(&date);
        proof {
            self.lemma_find_day(date@, found);
        }
        match found {
            Some(i) => {
                let found_act = find_activity(&self.data[i].1, &activity);
                let ghost acts = self.data@[i as int].1@;
                proof {
                    lemma_find_activity(acts, activity@, found_act);
                    assert(Self::day_ok(acts));
                }
                let current: u16 = match found_act {
                    Some(j) => self.data[i].1[j].1,
                    None => 0,
                };
                if current as u32 + minutes as u32 > MAX_DAILY_MINUTES as u32 {
                    return Err(add_error(&activity, &date));
                }
                let total = current + minutes;
                let (d, mut acts_vec) = self.data.remove(i);
                proof {
                    assert(acts_vec@ == acts);
                }
                match found_act {
                    Some(j) => {
                        let (name, _) = acts_vec.remove(j);
                        acts_vec.insert(j, (name, total));
                        proof {
                            assert(acts_vec@ =~= acts.update(j as int, (name, total)));
                            assert(activity_pairs(acts_vec@) =~= activity_pairs(acts).update(
                                j as int,
                                (activity_pairs(acts)[j as int].0, total),
                            ));
                            lemma_pairs_map_update(activity_pairs(acts), j as int, total);
                        }
                    },
                    None => {
                        acts_vec.push((activity, total));
                        proof {
                            assert(activity_pairs(acts_vec@) =~= activity_pairs(acts).push(
                                (activity@, total),
                            ));
                            lemma_push_distinct(activity_pairs(acts), (activity@, total));
                        }
                    },
                }
                let ghost new_acts = acts_vec@;
                self.data.insert(i, (d, acts_vec));
                proof {
                    let old_data = old(self).data@;
                    assert(self.data@ =~= old_data.update(i as int, (d, acts_vec)));
                    assert(day_pairs(self.data@) =~= day_pairs(old_data).update(
                        i as int,
                        (day_pairs(old_data)[i as int].0, activity_map(new_acts)),
                    ));
                    lemma_pairs_map_update(day_pairs(old_data), i as int, activity_map(new_acts));
                    assert(Self::day_ok(new_acts)) by {
                        assert forall|k: int| 0 <= k < new_acts.len() implies #[trigger] new_acts[k].1
                            <= MAX_DAILY_MINUTES by {
                            if k != j_or_len(found_act, acts.len()) {
                                assert(new_acts[k] == acts[k]);
                            }
                        }
                    }
                    assert forall|k: int| 0 <= k < self.data@.len() implies Self::day_ok(
                        #[trigger] self.data@[k].1@,
                    ) by {
                        if k != i {
                            assert(self.data@[k] == old_data[k]);
                        }
                    }
                    assert(self@ =~= m.insert(date@, day_or_empty(m, date@).insert(activity@, total)));
                }
            },
            None => {
                if minutes > MAX_DAILY_MINUTES {
                    return Err(add_error(&activity, &date));
                }
                let ghost name = activity@;
                self.data.push((date, vec![(activity, minutes)]));
                proof {
                    let old_data = old(self).data@;
                    let acts = self.data@[old_data.len() as int].1@;
                    assert(activity_pairs(acts) =~= Seq::<(Seq<char>, u16)>::empty().push(
                        (name, minutes),
                    ));
                    assert(activity_pairs(acts).drop_last() =~= Seq::<(Seq<char>, u16)>::empty());
                    assert(activity_map(acts) =~= Map::<Seq<char>, u16>::empty().insert(
                        name,
                        minutes,
                    )) by {
                        reveal_with_fuel(pairs_map, 2);
                    }
                    assert(day_pairs(self.data@) =~= day_pairs(old_data).push(
                        (date@, activity_map(acts)),
                    ));
                    assert forall|k: int| 0 <= k < day_pairs(old_data).len() implies #[trigger] day_pairs(
                        old_data,
                    )[k].0 != date@ by {
                        assert(day_pairs(old_data)[k].0 == old_data[k].0@);
                    }
                    lemma_push_distinct(day_pairs(old_data), (date@, activity_map(acts)));
                    assert forall|k: int| 0 <= k < self.data@.len() implies Self::day_ok(
                        #[trigger] self.data@[k].1@,
                    ) by {
                        if k < old_data.len() {
                            assert(self.data@[k] == old_data[k]);
                        } else {
                            assert(keys_distinct(activity_pairs(acts)));
                        }
                    }
                    assert(self@ =~= m.insert(date@, day_or_empty(m, date@).insert(name, minutes)));
                }
            },
        }
        Ok(())
    }

    /// Subtracts minutes from a recorded activity on a date. What would go
    /// below zero takes the activity out, and the date with its last activity.
    pub fn subtract(&mut self, date: Date, activity: String, minutes: u16) -> (r: Result<
        (),
        String,
    >)
        requires
            old(self).wf(),
        ensures
            final(self).wf(),
            !old(self)@.contains_key(date@) ==> (r matches Err(e) && e@ == no_date_text(date@)
                && final(self)@ == old(self)@),
            old(self)@.contains_key(date@) && !old(self)@[date@].contains_key(activity@) ==> (
            r matches Err(e) && e@ == no_activity_text(activity@, date@) && final(self)@
                == old(self)@),
            old(self)@.contains_key(date@) && old(self)@[date@].contains_key(activity@) ==> r is Ok
                && final(self)@ == subtracted(old(self)@, date@, activity@, minutes as int),
    {
        let ghost m = self@;
        let found = self.find_day(&date);
        proof {
            self.lemma_find_day(date@, found);
        }
        let i = match found {
            Some(i) => i,
            None => {
                return Err(no_date_error(&date));
            },
        };
        let found_act = find_activity(&self.data[i].1, &activity);
        let ghost acts = self.data@[i as int].1@;
        proof {
            lemma_find_activity(acts, activity@, found_act);
            assert(Self::day_ok(acts));
        }
        let j = match found_act {
            Some(j) => j,
            None => {
                return Err(no_activity_error(&activity, &date));
            },
        };
        let (d, mut acts_vec) = self.data.remove(i);
        let (name, stored) = acts_vec.remove(j);
        proof {
            assert(acts_vec@ =~= acts.remove(j as int));
            assert(activity_pairs(acts_vec@) =~= activity_pairs(acts).remove(j as int));
            lemma_pairs_map_remove(activity_pairs(acts), j as int);
        }
        if minutes < stored {
            acts_vec.insert(j, (name, stored - minutes));
            proof {
                let left = (stored - minutes) as u16;
                assert(acts_vec@ =~= acts.update(j as int, (name, left)));
                assert(activity_pairs(acts_vec@) =~= activity_pairs(acts).update(
                    j as int,
                    (activity_pairs(acts)[j as int].0, left),
                ));
                lemma_pairs_map_update(activity_pairs(acts), j as int, left);
            }
        }
        let ghost new_acts = acts_vec@;
        let ghost removed_data = self.data@;
        proof {
            let old_data = old(self).data@;
            assert(removed_data =~= old_data.remove(i as int));
            assert(day_pairs(removed_data) =~= day_pairs(old_data).remove(i as int));
            lemma_pairs_map_remove(day_pairs(old_data), i as int);
            assert(forall|k: int| 0 <= k < new_acts.len() ==> #[trigger] new_acts[k].1 <= MAX_DAILY_MINUTES)
                by {
                assert forall|k: int| 0 <= k < new_acts.len() implies #[trigger] new_acts[k].1
                    <= MAX_DAILY_MINUTES by {
                    if minutes < stored && k == j {
                    } else if k < j {
                        assert(new_acts[k] == acts[k]);
                    } else if minutes < stored {
                        assert(new_acts[k] == acts[k]);
                    } else {
                        assert(new_acts[k] == acts[k + 1]);
                    }
                }
            }
        }
        if acts_vec.len() > 0 {
            self.data.insert(i, (d, acts_vec));
            proof {
                let old_data = old(self).data@;
                let entry = self.data@[i as int];
                assert(entry.1@ == new_acts);
                assert(self.data@ =~= old_data.update(i as int, entry));
                assert(day_pairs(self.data@) =~= day_pairs(old_data).update(
                    i as int,
                    (day_pairs(old_data)[i as int].0, activity_map(new_acts)),
                ));
                lemma_pairs_map_update(day_pairs(old_data), i as int, activity_map(new_acts));
                Self::lemma_day_ok_view(new_acts);
                assert forall|k: int| 0 <= k < self.data@.len() implies Self::day_ok(
                    #[trigger] self.data@[k].1@,
                ) by {
                    if k != i {
                        assert(self.data@[k] == old_data[k]);
                    }
                }
                assert(self@ =~= subtracted(m, date@, activity@, minutes as int));
            }
        } else {
            proof {
                let old_data = old(self).data@;
                assert(activity_pairs(new_acts) =~= Seq::<(Seq<char>, u16)>::empty());
                assert(activity_map(new_acts) =~= Map::<Seq<char>, u16>::empty());
                assert forall|k: int| 0 <= k < self.data@.len() implies Self::day_ok(
                    #[trigger] self.data@[k].1@,
                ) by {
                    if k < i {
                        assert(self.data@[k] == old_data[k]);
                    } else {
                        assert(self.data@[k] == old_data[k + 1]);
                    }
                }
                assert(self@ =~= subtracted(m, date@, activity@, minutes as int));
            }
        }
        Ok(())
    }
}

/// The index that `found` holds, or `len` when it holds none.
spec fn j_or_len(found: Option<usize>, len: nat) -> int {
    match found {
        Some(j) => j as int,
        None => len as int,
    }
}

fn find_activity(acts: &Vec<(String, u16)>, name: &String) -> (r: Option<usize>)
    ensures
        match r {
            Some(j) => j < acts@.len() && acts@[j as int].0@ == name@,
            None => forall|j: int| 0 <= j < acts@.len() ==> #[trigger] acts@[j].0@ != name@,
        },
{
    let mut j: usize = 0;
    while j < acts.len()
        invariant
            j <= acts@.len(),
            forall|k: int| 0 <= k < j ==> #[trigger] acts@[k].0@ != name@,
        decreases acts@.len() - j,
    {
        if acts[j].0 == *name {
            return Some(j);
        }
        j = j + 1;
    }
    None
}

proof fn lemma_find_activity(acts: Seq<(String, u16)>, name: Seq<char>, r: Option<usize>)
    requires
        keys_distinct(activity_pairs(acts)),
        match r {
            Some(j) => j < acts.len() && acts[j as int].0@ == name,
            None => forall|j: int| 0 <= j < acts.len() ==> #[trigger] acts[j].0@ != name,
        },
    ensures
        match r {
            Some(j) => activity_map(acts).contains_key(name) && activity_map(acts)[name]
                == acts[j as int].1,
            None => !activity_map(acts).contains_key(name),
        },
{
    let p = activity_pairs(acts);
    match r {
        Some(j) => {
            lemma_pairs_map_index(p, j as int);
        },
        None => {
            assert forall|k: int| 0 <= k < p.len() implies #[trigger] p[k].0 != name by {
                assert(p[k].0 == acts[k].0@);
            }
            lemma_pairs_map_absent(p, name);
        },
    }
}

fn add_error(activity: &String, date: &Date) -> (r: String)
    ensures
        r@ == add_error_text(activity@, date@),
{
    let mut s = String::from_str("Add error: total minutes exceeds 1440 for ");
    s.append(activity.as_str());
    s.append(" on ");
    s.append(date.to_string().as_str());
    s
}

fn no_date_error(date: &Date) -> (r: String)
    ensures
        r@ == no_date_text(date@),
{
    let mut s = String::from_str("Subtract error: no activities recorded for ");
    s.append(date.to_string().as_str());
    s
}

fn no_activity_error(activity: &String, date: &Date) -> (r: String)
    ensures
        r@ == no_activity_text(activity@, date@),
{
    let mut s = String::from_str("Subtract error: no minutes recorded for ");
    s.append(activity.as_str());
    s.append(" on ");
    s.append(date.to_string().as_str());
    s
}

impl TrackerData {
    /// A report of the minutes per activity over the days from `start_date`
    /// to `end_date`, both included: for each activity recorded on any of
    /// them, its total, and that total divided by the number of days that
    /// have anything recorded. The order of the activities is not specified.
    pub fn summarize(&self, start_date: Date, end_date: Date) -> (r: Result<String, String>)
        requires
            self.wf(),
        ensures
            precedes(end_date@, start_date@) ==> (r matches Err(e) && e@ == order_error_text(
                start_date@,
                end_date@,
            )),
            !precedes(end_date@, start_date@) && range_days(self@, start_date@, end_date@) == 0
                ==> (r matches Err(e) && e@ == no_data_text(start_date@, end_date@)),
            !precedes(end_date@, start_date@) && range_days(self@, start_date@, end_date@) > 0
                ==> (r matches Ok(s) && exists|names: Seq<Seq<char>>|
                #![trigger summary_text(self@, start_date@, end_date@, names)]
                names.no_duplicates() && names.to_set() == range_names(
                self@,
                start_date@,
                end_date@,
            ) && s@ == summary_text(self@, start_date@, end_date@, names)),
    {
        if end_date.is_before(&start_date) {
            return Err(order_error(&start_date, &end_date));
        }
        let ghost m = self@;
        let ghost start = start_date@;
        let ghost end = end_date@;
        proof {
            use_type_invariant(&start_date);
            use_type_invariant(&end_date);
        }
        let mut totals: Vec<(String, u64)> = Vec::new();
        let mut num_days: u64 = 0;
        let mut cur = start_date;
        let mut done = false;
        let ghost mut steps: int = 0;
        proof {
            assert(total_pairs(totals@) =~= Seq::empty());
            lemma_ordinal_order(start, end);
        }
        while !done
            invariant
                self.wf(),
                m == self@,
                is_valid(start),
                is_valid(end),
                !precedes(end, start),
                start == start_date@,
                end == end_date@,
                is_valid(cur@),
                ordinal(cur@) <= ordinal(end) + 4,
                keys_distinct(total_pairs(totals@)),
                forall|a: Seq<char>|
                    #![trigger range_minutes(m, cur@, end, a)]
                    #![trigger range_minutes(m, start, end, a)]
                    range_minutes(m, start, end, a) == running(totals@, a) + (if done {
                        0
                    } else {
                        range_minutes(m, cur@, end, a)
                    }),
                range_days(m, start, end) == num_days + (if done {
                    0
                } else {
                    range_days(m, cur@, end)
                }),
                range_names(m, start, end) == pairs_map(total_pairs(totals@)).dom().union(
                    if done {
                        Set::empty()
                    } else {
                        range_names(m, cur@, end)
                    },
                ),
                0 <= steps <= ordinal(cur@) - ordinal(start) + (if done {
                    1int
                } else {
                    0
                }),
                num_days <= steps,
                forall|k: int| 0 <= k < totals@.len() ==> #[trigger] totals@[k].1 <= 1440 * steps,
            decreases (if done {
                0
            } else {
                ordinal(end) + 5 - ordinal(cur@)
            }),
        {
            if end_date.is_before(&cur) {
                done = true;
            } else {
                let ghost here = cur@;
                proof {
                    lemma_ordinal_order(here, end);
                }
                proof {
                    self.lemma_wf_ledger_ok();
                }
                let found = self.find_day(&cur);
                proof {
                    self.lemma_find_day(here, found);
                    assert(ordinal(here) <= 65535 * 372 + 11 * 31 + 31);
                    assert(ordinal(start) >= 1);
                }
                match found {
                    Some(i) => {
                        proof {
                            assert(Self::day_ok(self.data@[i as int].1@));
                        }
                        add_day_totals(&mut totals, &self.data[i].1, Ghost(1440 * steps));
                        num_days = num_days + 1;
                    },
                    None => {},
                }
                match cur.add_days(1) {
                    Ok(n) => {
                        proof {
                            reveal_with_fuel(days_after, 2);
                            lemma_step_ordinal(here, end);
                        }
                        cur = n;
                    },
                    Err(_) => {
                        proof {
                            reveal_with_fuel(days_after, 2);
                        }
                        done = true;
                    },
                }
                proof {
                    steps = steps + 1;
                    assert forall|a: Seq<char>|
                        #![trigger range_minutes(m, cur@, end, a)]
                        #![trigger range_minutes(m, start, end, a)]
                        range_minutes(m, start, end, a) == running(totals@, a) + (if done {
                            0
                        } else {
                            range_minutes(m, cur@, end, a)
                        }) by {
                        assert(range_minutes(m, here, end, a) == minutes_on(m, here, a) + match next_day(here) {
                            Some(n) => range_minutes(m, n, end, a),
                            None => 0,
                        });
                    }
                    assert(range_days(m, here, end) == (if m.contains_key(here) {
                        1int
                    } else {
                        0int
                    }) + match next_day(here) {
                        Some(n) => range_days(m, n, end),
                        None => 0,
                    });
                    assert(range_names(m, here, end) == day_or_empty(m, here).dom().union(
                        match next_day(here) {
                            Some(n) => range_names(m, n, end),
                            None => Set::empty(),
                        },
                    ));
                }
            }
        }
        if num_days == 0 {
            return Err(no_data_error(&start_date, &end_date));
        }
        let ghost names = total_pairs(totals@).map_values(|p: (Seq<char>, u64)| p.0);
        let mut out = String::from_str("Summary from ");
        out.append(start_date.to_string().as_str());
        out.append(" to ");
        out.append(end_date.to_string().as_str());
        out.append(":\n\nACTIVITY\tTOTAL TIME\tAVG TIME");
        let mut k: usize = 0;
        while k < totals.len()
            invariant
                k <= totals@.len(),
                num_days > 0,
                num_days == range_days(m, start, end),
                names == total_pairs(totals@).map_values(|p: (Seq<char>, u64)| p.0),
                keys_distinct(total_pairs(totals@)),
                forall|a: Seq<char>| #[trigger]
                    range_minutes(m, start, end, a) == running(totals@, a),
                out@ == summary_header(start, end) + summary_rows(
                    m,
                    start,
                    end,
                    names.take(k as int),
                    num_days as int,
                ),
            decreases totals@.len() - k,
        {
            let ghost old_out = out@;
            let name = totals[k].0.as_str();
            let total = totals[k].1;
            let total_text = decimal_string(total);
            out.append("\n");
            out.append(name);
            out.append(pad_text(name.as_bytes().len()));
            out.append(total_text.as_str());
            out.append(pad_text(total_text.as_str().unicode_len()));
            push_decimal(&mut out, total / num_days);
            proof {
                let p = total_pairs(totals@);
                lemma_pairs_map_index(p, k as int);
                assert(range_minutes(m, start, end, names[k as int]) == total);
                assert(names.take(k + 1).drop_last() =~= names.take(k as int));
                assert(names.take(k + 1).last() == names[k as int]);
                assert(names[k as int] == name@);
                assert(total_text@ == decimal(total as nat));
                assert(decimal((total / num_days) as nat) == decimal(
                    (range_minutes(m, start, end, names[k as int]) / (num_days as int)) as nat,
                ));
                assert(out@ =~= old_out + "\n"@ + summary_row(
                    names[k as int],
                    range_minutes(m, start, end, names[k as int]),
                    num_days as int,
                ));
                assert(out@ =~= summary_header(start, end) + summary_rows(
                    m,
                    start,
                    end,
                    names.take(k + 1),
                    num_days as int,
                ));
            }
            k = k + 1;
        }
        proof {
            assert(names.take(totals@.len() as int) =~= names);
            let p = total_pairs(totals@);
            assert(names.no_duplicates()) by {
                assert forall|x: int, y: int|
                    0 <= x < names.len() && 0 <= y < names.len() && x != y implies names[x]
                    != names[y] by {
                    assert(names[x] == p[x].0 && names[y] == p[y].0);
                }
            }
            assert(names.to_set() =~= range_names(m, start, end)) by {
                assert forall|a: Seq<char>| names.to_set().contains(a) <==> pairs_map(p).contains_key(
                    a,
                ) by {
                    lemma_pairs_map_dom(p, a);
                    if pairs_map(p).contains_key(a) {
                        let i = choose|i: int| 0 <= i < p.len() && #[trigger] p[i].0 == a;
                        assert(names[i] == a);
                    }
                    if names.to_set().contains(a) {
                        let i = choose|i: int| 0 <= i < names.len() && names[i] == a;
                        assert(p[i].0 == a);
                    }
                }
            }
            assert(out@ == summary_text(m, start, end, names));
        }
        Ok(out)
    }
}

/// Adds one date's minutes to the running totals, keeping names distinct.
fn add_day_totals(totals: &mut Vec<(String, u64)>, acts: &Vec<(String, u16)>, cap: Ghost<int>)
    requires
        keys_distinct(total_pairs(old(totals)@)),
        keys_distinct(activity_pairs(acts@)),
        forall|j: int| 0 <= j < acts@.len() ==> #[trigger] acts@[j].1 <= MAX_DAILY_MINUTES,
        0 <= cap@ <= u64::MAX - 1440,
        forall|k: int| 0 <= k < old(totals)@.len() ==> #[trigger] old(totals)@[k].1 <= cap@,
    ensures
        keys_distinct(total_pairs(final(totals)@)),
        forall|a: Seq<char>| #[trigger]
            running(final(totals)@, a) == running(old(totals)@, a) + day_minutes(
                activity_map(acts@),
                a,
            ),
        pairs_map(total_pairs(final(totals)@)).dom() == pairs_map(total_pairs(old(totals)@)).dom().union(
            activity_map(acts@).dom(),
        ),
        forall|k: int| 0 <= k < final(totals)@.len() ==> #[trigger] final(totals)@[k].1 <= cap@ + 1440,
{
    let ghost start = totals@;
    let ghost p = activity_pairs(acts@);
    let mut j: usize = 0;
    proof {
        assert(p.take(0) =~= Seq::empty());
    }
    while j < acts.len()
        invariant
            j <= acts@.len(),
            p == activity_pairs(acts@),
            keys_distinct(p),
            forall|i: int| 0 <= i < acts@.len() ==> #[trigger] acts@[i].1 <= MAX_DAILY_MINUTES,
            0 <= cap@ <= u64::MAX - 1440,
            forall|k: int| 0 <= k < start.len() ==> #[trigger] start[k].1 <= cap@,
            keys_distinct(total_pairs(start)),
            keys_distinct(total_pairs(totals@)),
            forall|a: Seq<char>| #[trigger]
                running(totals@, a) == running(start, a) + day_minutes(pairs_map(p.take(j as int)), a),
            pairs_map(total_pairs(totals@)).dom() == pairs_map(total_pairs(start)).dom().union(
                pairs_map(p.take(j as int)).dom(),
            ),
            forall|k: int| 0 <= k < totals@.len() ==> #[trigger] totals@[k].1 <= cap@ + 1440,
        decreases acts@.len() - j,
    {
        let name = &acts[j].0;
        let minutes = acts[j].1;
        let ghost before = totals@;
        let ghost a = name@;
        proof {
            assert(p.take(j + 1).drop_last() =~= p.take(j as int));
            assert(p.take(j + 1).last() == (a, minutes));
            assert forall|i: int| 0 <= i < p.take(j as int).len() implies #[trigger] p.take(
                j as int,
            )[i].0 != a by {
                assert(p[i].0 != p[j as int].0);
            }
            lemma_pairs_map_absent(p.take(j as int), a);
            // What this name held before this date.
            if pairs_map(total_pairs(start)).contains_key(a) {
                lemma_pairs_map_dom(total_pairs(start), a);
                let i = choose|i: int| 0 <= i < total_pairs(start).len() && #[trigger] total_pairs(
                    start,
                )[i].0 == a;
                lemma_pairs_map_index(total_pairs(start), i);
            }
        }
        match find_total(totals, name) {
            Some(k) => {
                let current = totals[k].1;
                proof {
                    lemma_pairs_map_index(total_pairs(before), k as int);
                    assert(running(before, a) == current);
                }
                let (held, _) = totals.remove(k);
                totals.insert(k, (held, current + minutes as u64));
                proof {
                    let q = total_pairs(before);
                    assert(totals@ =~= before.update(k as int, (held, (current + minutes) as u64)));
                    assert(total_pairs(totals@) =~= q.update(k as int, (q[k as int].0, (current + minutes) as u64)));
                    lemma_pairs_map_update(q, k as int, (current + minutes) as u64);
                    assert(q[k as int].0 == a);
                    assert forall|i: int| 0 <= i < totals@.len() implies #[trigger] totals@[i].1 <= cap@ + 1440 by {
                        if i != k {
                            assert(totals@[i] == before[i]);
                        }
                    }
                    assert(pairs_map(total_pairs(totals@)).dom() =~= pairs_map(total_pairs(start)).dom().union(
                        pairs_map(p.take(j + 1)).dom(),
                    ));
                }
            },
            None => {
                totals.push((name.clone(), minutes as u64));
                proof {
                    let q = total_pairs(before);
                    assert(total_pairs(totals@) =~= q.push((a, minutes as u64)));
                    assert forall|i: int| 0 <= i < q.len() implies #[trigger] q[i].0 != a by {
                        assert(q[i].0 == before[i].0@);
                    }
                    lemma_pairs_map_absent(q, a);
                    lemma_push_distinct(q, (a, minutes as u64));
                    assert(running(before, a) == 0);
                    assert forall|i: int| 0 <= i < totals@.len() implies #[trigger] totals@[i].1 <= cap@ + 1440 by {
                        if i < before.len() {
                            assert(totals@[i] == before[i]);
                        }
                    }
                    assert(pairs_map(total_pairs(totals@)).dom() =~= pairs_map(total_pairs(start)).dom().union(
                        pairs_map(p.take(j + 1)).dom(),
                    ));
                }
            },
        }
        proof {
            assert(pairs_map(p.take(j + 1)) == pairs_map(p.take(j as int)).insert(a, minutes));
            assert(pairs_map(total_pairs(totals@)) == pairs_map(total_pairs(before)).insert(
                a,
                (running(before, a) + minutes) as u64,
            ));
            assert forall|b: Seq<char>| #[trigger]
                running(totals@, b) == running(start, b) + day_minutes(pairs_map(p.take(j + 1)), b) by {
                if b != a {
                    assert(running(totals@, b) == running(before, b));
                }
            }
        }
        j = j + 1;
    }
    proof {
        assert(p.take(acts@.len() as int) =~= p);
    }
}

fn find_total(totals: &Vec<(String, u64)>, name: &String) -> (r: Option<usize>)
    ensures
        match r {
            Some(k) => k < totals@.len() && totals@[k as int].0@ == name@,
            None => forall|k: int| 0 <= k < totals@.len() ==> #[trigger] totals@[k].0@ != name@,
        },
{
    let mut k: usize = 0;
    while k < totals.len()
        invariant
            k <= totals@.len(),
            forall|i: int| 0 <= i < k ==> #[trigger] totals@[i].0@ != name@,
        decreases totals@.len() - k,
    {
        if totals[k].0 == *name {
            return Some(k);
        }
        k = k + 1;
    }
    None
}

fn pad_text(width: usize) -> (r: &'static str)
    ensures
        r@ == pad(width as int),
{
    if width < 8 {
        "\t\t"
    } else {
        "\t"
    }
}

fn order_error(start: &Date, end: &Date) -> (r: String)
    ensures
        r@ == order_error_text(start@, end@),
{
    let mut s = String::from_str("Summarize error: end date ");
    s.append(end.to_string().as_str());
    s.append(" is before start date ");
    s.append(start.to_string().as_str());
    s
}

fn no_data_error(start: &Date, end: &Date) -> (r: String)
    ensures
        r@ == no_data_text(start@, end@),
{
    let mut s = String::from_str("Summarize error: no data for ");
    s.append(start.to_string().as_str());
    s.append(" to ");
    s.append(end.to_string().as_str());
    s
}

impl TrackerData {
    /// Sets the date's activities, replacing what it held.
    fn put_day(&mut self, date: Date, acts: Vec<(String, u16)>)
        requires
            old(self).wf(),
            Self::day_ok(acts@),
        ensures
            final(self).wf(),
            final(self)@ == old(self)@.insert(date@, activity_map(acts@)),
    {
        let ghost new_acts = acts@;
        let found = self.find_day(&date);
        let ghost old_data = self.data@;
        match found {
            Some(i) => {
                self.data.remove(i);
                self.data.insert(i, (date, acts));
                proof {
                    let entry = self.data@[i as int];
                    assert(self.data@ =~= old_data.update(i as int, entry));
                    assert(day_pairs(self.data@) =~= day_pairs(old_data).update(
                        i as int,
                        (day_pairs(old_data)[i as int].0, activity_map(new_acts)),
                    ));
                    lemma_pairs_map_update(day_pairs(old_data), i as int, activity_map(new_acts));
                    assert forall|k: int| 0 <= k < self.data@.len() implies Self::day_ok(
                        #[trigger] self.data@[k].1@,
                    ) by {
                        if k != i {
                            assert(self.data@[k] == old_data[k]);
                        }
                    }
                }
            },
            None => {
                self.data.push((date, acts));
                proof {
                    assert(day_pairs(self.data@) =~= day_pairs(old_data).push(
                        (date@, activity_map(new_acts)),
                    ));
                    assert forall|k: int| 0 <= k < day_pairs(old_data).len() implies #[trigger] day_pairs(
                        old_data,
                    )[k].0 != date@ by {
                        assert(day_pairs(old_data)[k].0 == old_data[k].0@);
                    }
                    lemma_push_distinct(day_pairs(old_data), (date@, activity_map(new_acts)));
                    assert forall|k: int| 0 <= k < self.data@.len() implies Self::day_ok(
                        #[trigger] self.data@[k].1@,
                    ) by {
                        if k < old_data.len() {
                            assert(self.data@[k] == old_data[k]);
                        }
                    }
                }
            },
        }
        assert(self@ =~= old(self)@.insert(date@, activity_map(new_acts)));
    }

    /// Replaces the contents with what the entries yield: each entry is a
    /// date text with its activities, and the activity minutes that could be
    /// read as a `u16`. Entries whose text is not a date are skipped, and so
    /// are minutes that were not a `u16` or exceed a day's minutes, and dates
    /// left without activities. When nothing is left the ledger stays as it was.
    pub fn from_entries(&mut self, entries: &Vec<(String, Vec<(String, Option<u16>)>)>) -> (r: Result<
        (),
        String,
    >)
        requires
            old(self).wf(),
        ensures
            final(self).wf(),
            entries_ledger(entries_view(entries@)) == Ledger::empty() ==> (r matches Err(e) && e@
                == no_entries_text() && final(self)@ == old(self)@),
            entries_ledger(entries_view(entries@)) != Ledger::empty() ==> (r is Ok && final(self)@
                == entries_ledger(entries_view(entries@))),
    {
        let ghost es = entries_view(entries@);
        let mut fresh = TrackerData::new();
        let mut i: usize = 0;
        proof {
            assert(es.take(0) =~= Seq::empty());
        }
        while i < entries.len()
            invariant
                i <= entries@.len(),
                es == entries_view(entries@),
                fresh.wf(),
                fresh@ == entries_ledger(es.take(i as int)),
            decreases entries@.len() - i,
        {
            proof {
                assert(es.take(i + 1).drop_last() =~= es.take(i as int));
                assert(es.take(i + 1).last() == es[i as int]);
            }
            match Date::new_from_string(entries[i].0.as_str()) {
                Ok(date) => {
                    let acts = collect_activities(&entries[i].1);
                    proof {
                        assert(entries@[i as int].1@.map_values(
                            |a: (String, Option<u16>)| (a.0@, a.1),
                        ) == es[i as int].1);
                    }
                    if acts.len() > 0 {
                        proof {
                            Self::lemma_day_ok_view(acts@);
                        }
                        fresh.put_day(date, acts);
                    } else {
                        proof {
                            assert(activity_pairs(acts@) =~= Seq::empty());
                            assert(activity_map(acts@) =~= Map::<Seq<char>, u16>::empty());
                        }
                    }
                },
                Err(_) => {},
            }
            i = i + 1;
        }
        proof {
            assert(es.take(entries@.len() as int) =~= es);
        }
        if fresh.data.len() == 0 {
            proof {
                assert(day_pairs(fresh.data@) =~= Seq::empty());
                assert(fresh@ =~= Ledger::empty());
            }
            return Err(String::from_str("From JSON error: JSON cannot be interpreted as TrackerData"));
        }
        proof {
            lemma_pairs_map_index(day_pairs(fresh.data@), 0);
            assert(!Ledger::empty().contains_key(day_pairs(fresh.data@)[0].0));
        }
        *self = fresh;
        Ok(())
    }

    /// Each date as text with its activities, one entry per date; the order of
    /// the dates is not specified.
    pub fn to_entries(&self) -> (r: Vec<(String, Vec<(String, u16)>)>)
        requires
            self.wf(),
        ensures
            exists|days: Seq<(Ymd, Map<Seq<char>, u16>)>|
                #![trigger pairs_map(days)]
                days.len() == r@.len() && keys_distinct(days) && pairs_map(days) == self@ && (forall|
                    i: int,
                | 0 <= i < r@.len() ==> (#[trigger] r@[i]).0@ == date_text(days[i].0)
                    && activity_map(r@[i].1@) == days[i].1 && keys_distinct(activity_pairs(r@[i].1@))
                    && r@[i].1@.len() > 0 && is_valid(days[i].0)),
    {
        let mut r: Vec<(String, Vec<(String, u16)>)> = Vec::new();
        let mut i: usize = 0;
        let ghost days = day_pairs(self.data@);
        while i < self.data.len()
            invariant
                i <= self.data@.len(),
                r@.len() == i,
                self.wf(),
                days == day_pairs(self.data@),
                forall|k: int|
                    0 <= k < i ==> (#[trigger] r@[k]).0@ == date_text(days[k].0) && activity_map(
                        r@[k].1@,
                    ) == days[k].1 && keys_distinct(activity_pairs(r@[k].1@)) && r@[k].1@.len() > 0
                        && is_valid(days[k].0),
            decreases self.data@.len() - i,
        {
            let date = &self.data[i].0;
            proof {
                use_type_invariant(date);
            }
            let acts = copy_activities(&self.data[i].1);
            proof {
                assert(Self::day_ok(self.data@[i as int].1@));
            }
            r.push((self.data[i].0.to_string(), acts));
            i = i + 1;
        }
        assert(pairs_map(days) == self@);
        r
    }
}

fn copy_activities(acts: &Vec<(String, u16)>) -> (r: Vec<(String, u16)>)
    ensures
        activity_pairs(r@) == activity_pairs(acts@),
        r@.len() == acts@.len(),
{
    let mut r: Vec<(String, u16)> = Vec::new();
    let mut j: usize = 0;
    while j < acts.len()
        invariant
            j <= acts@.len(),
            r@.len() == j,
            forall|k: int| 0 <= k < j ==> (#[trigger] r@[k]).0@ == acts@[k].0@ && r@[k].1 == acts@[k].1,
        decreases acts@.len() - j,
    {
        r.push((acts[j].0.clone(), acts[j].1));
        j = j + 1;
    }
    assert(activity_pairs(r@) =~= activity_pairs(acts@));
    r
}

/// The activities of an entry with minutes that are a `u16` no larger than a
/// day's minutes, a later name replacing an earlier one.
fn collect_activities(entry: &Vec<(String, Option<u16>)>) -> (r: Vec<(String, u16)>)
    ensures
        keys_distinct(activity_pairs(r@)),
        forall|j: int| 0 <= j < r@.len() ==> #[trigger] r@[j].1 <= MAX_DAILY_MINUTES,
        activity_map(r@) == entry_activities(
            entry@.map_values(|a: (String, Option<u16>)| (a.0@, a.1)),
        ),
{
    let ghost es = entry@.map_values(|a: (String, Option<u16>)| (a.0@, a.1));
    let mut r: Vec<(String, u16)> = Vec::new();
    let mut i: usize = 0;
    proof {
        assert(es.take(0) =~= Seq::empty());
        assert(activity_pairs(r@) =~= Seq::empty());
    }
    while i < entry.len()
        invariant
            i <= entry@.len(),
            es == entry@.map_values(|a: (String, Option<u16>)| (a.0@, a.1)),
            keys_distinct(activity_pairs(r@)),
            forall|j: int| 0 <= j < r@.len() ==> #[trigger] r@[j].1 <= MAX_DAILY_MINUTES,
            activity_map(r@) == entry_activities(es.take(i as int)),
        decreases entry@.len() - i,
    {
        proof {
            assert(es.take(i + 1).drop_last() =~= es.take(i as int));
            assert(es.take(i + 1).last() == es[i as int]);
        }
        match entry[i].1 {
            Some(minutes) => {
                if minutes <= MAX_DAILY_MINUTES {
                    let ghost before = r@;
                    let name = &entry[i].0;
                    match find_activity(&r, name) {
                        Some(j) => {
                            let (held, _) = r.remove(j);
                            r.insert(j, (held, minutes));
                            proof {
                                let q = activity_pairs(before);
                                assert(r@ =~= before.update(j as int, (held, minutes)));
                                assert(activity_pairs(r@) =~= q.update(j as int, (q[j as int].0, minutes)));
                                lemma_pairs_map_update(q, j as int, minutes);
                                assert forall|k: int| 0 <= k < r@.len() implies #[trigger] r@[k].1
                                    <= MAX_DAILY_MINUTES by {
                                    if k != j {
                                        assert(r@[k] == before[k]);
                                    }
                                }
                            }
                        },
                        None => {
                            r.push((name.clone(), minutes));
                            proof {
                                let q = activity_pairs(before);
                                assert(activity_pairs(r@) =~= q.push((name@, minutes)));
                                assert forall|k: int| 0 <= k < q.len() implies #[trigger] q[k].0 != name@ by {
                                    assert(q[k].0 == before[k].0@);
                                }
                                lemma_push_distinct(q, (name@, minutes));
                                assert forall|k: int| 0 <= k < r@.len() implies #[trigger] r@[k].1
                                    <= MAX_DAILY_MINUTES by {
                                    if k < before.len() {
                                        assert(r@[k] == before[k]);
                                    }
                                }
                            }
                        },
                    }
                }
            },
            None => {},
        }
        i = i + 1;
    }
    proof {
        assert(es.take(entry@.len() as int) =~= es);
    }
    r
}

} // verus!
