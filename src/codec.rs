//! The ledger as a JSON value and as JSON text, through the `json` crate.
use vstd::prelude::*;
use vstd::string::*;

use json::JsonValue;

use crate::date::{
    date_text, is_valid, lemma_date_text_injective, lemma_text_round_trip, parse_date, Ymd,
};
use crate::keyed::{keys_distinct, lemma_pairs_map_dom, lemma_pairs_map_index, pairs_map};
use crate::tracker_data::{
    activity_map, activity_pairs, entries_ledger, entries_view, entry_activities, ledger_ok,
    no_entries_text, Ledger, TrackerData, MAX_DAILY_MINUTES,
};

verus! {

#[verifier::external_type_specification]
#[verifier::external_body]
pub struct ExJsonValue(json::JsonValue);

/// The value that `json::parse` reads from the text, when it reads one; it
/// depends on the text alone.
pub uninterp spec fn parse_result(text: Seq<char>) -> Option<JsonValue>;

/// The key-value pairs of a JSON object in their order; a key occurs once.
pub uninterp spec fn object_entries(v: JsonValue) -> Seq<(Seq<char>, JsonValue)>;

/// The value as a `u16`, as `JsonValue::as_u16` reads it.
pub uninterp spec fn number_u16(v: JsonValue) -> Option<u16>;

/// Whether the value is a JSON object.
pub uninterp spec fn is_object(v: JsonValue) -> bool;

/// The JSON text that `JsonValue::pretty` writes for the value.
pub uninterp spec fn pretty_text(v: JsonValue, spaces: u16) -> Seq<char>;

/// The pairs after setting `k` to `v`: an existing key keeps its place and
/// takes the new value, a new key goes last.
pub open spec fn with_entry(s: Seq<(Seq<char>, JsonValue)>, k: Seq<char>, v: JsonValue) -> Seq<
    (Seq<char>, JsonValue),
> {
    if exists|i: int| 0 <= i < s.len() && #[trigger] s[i].0 == k {
        let i = choose|i: int| 0 <= i < s.len() && #[trigger] s[i].0 == k;
        s.update(i, (k, v))
    } else {
        s.push((k, v))
    }
}

/// A JSON value read as the ledger's entries: each key with the keys of its
/// value and what each of those holds as a `u16`.
pub open spec fn json_view(j: JsonValue) -> Seq<(Seq<char>, Seq<(Seq<char>, Option<u16>)>)> {
    object_entries(j).map_values(
        |p: (Seq<char>, JsonValue)|
            (p.0, object_entries(p.1).map_values(|q: (Seq<char>, JsonValue)| (q.0, number_u16(q.1)))),
    )
}

/// The entries of one date: each activity of `acts` once, with its minutes.
pub open spec fn entry_matches(acts: Map<Seq<char>, u16>, e: Seq<(Seq<char>, Option<u16>)>) -> bool {
    &&& keys_distinct(e)
    &&& forall|m: int|
        0 <= m < e.len() ==> acts.contains_key(#[trigger] e[m].0) && e[m].1 == Some(acts[e[m].0])
    &&& forall|a: Seq<char>|
        #[trigger] acts.contains_key(a) ==> exists|m: int| 0 <= m < e.len() && #[trigger] e[m].0 == a
}

/// `es` lists each date of the ledger once, as its text, with its activities.
pub open spec fn renders(m: Ledger, es: Seq<(Seq<char>, Seq<(Seq<char>, Option<u16>)>)>) -> bool {
    exists|days: Seq<(Ymd, Map<Seq<char>, u16>)>|
        #![trigger pairs_map(days)]
        days.len() == es.len() && keys_distinct(days) && pairs_map(days) == m && forall|i: int|
            0 <= i < es.len() ==> (#[trigger] es[i]).0 == date_text(days[i].0) && is_valid(days[i].0)
                && entry_matches(days[i].1, es[i].1)
}

proof fn lemma_entry_read_back(acts: Map<Seq<char>, u16>, e: Seq<(Seq<char>, Option<u16>)>, n: int)
    requires
        entry_matches(acts, e),
        forall|a: Seq<char>| #[trigger] acts.contains_key(a) ==> acts[a] <= MAX_DAILY_MINUTES,
        0 <= n <= e.len(),
    ensures
        forall|a: Seq<char>|
            #[trigger] entry_activities(e.take(n)).contains_key(a) <==> exists|j: int|
                0 <= j < n && #[trigger] e[j].0 == a,
        forall|a: Seq<char>|
            #[trigger] entry_activities(e.take(n)).contains_key(a) ==> entry_activities(e.take(n))[a]
                == acts[a],
    decreases n,
{
    if n > 0 {
        lemma_entry_read_back(acts, e, n - 1);
        let t = e.take(n);
        assert(t.drop_last() =~= e.take(n - 1));
        assert(t.last() == e[n - 1]);
        assert(acts.contains_key(e[n - 1].0));
        assert(e[n - 1].1 == Some(acts[e[n - 1].0]));
        assert(acts[e[n - 1].0] <= MAX_DAILY_MINUTES);
        assert(entry_activities(t) == entry_activities(e.take(n - 1)).insert(
            e[n - 1].0,
            acts[e[n - 1].0],
        ));
        assert forall|a: Seq<char>|
            #[trigger] entry_activities(t).contains_key(a) implies exists|j: int|
                0 <= j < n && #[trigger] e[j].0 == a by {
            if a == e[n - 1].0 {
                assert(e[n - 1].0 == a);
            } else {
                assert(entry_activities(e.take(n - 1)).contains_key(a));
            }
        }
        assert forall|a: Seq<char>|
            (exists|j: int| 0 <= j < n && #[trigger] e[j].0 == a) implies #[trigger] entry_activities(
                t,
            ).contains_key(a) by {
            let j = choose|j: int| 0 <= j < n && #[trigger] e[j].0 == a;
            if j < n - 1 {
                assert(entry_activities(e.take(n - 1)).contains_key(a));
            }
        }
    } else {
        assert(e.take(0) =~= Seq::<(Seq<char>, Option<u16>)>::empty());
    }
}

/// Reading back the entries that a ledger renders to gives the same ledger:
/// JSON from `to_json`, read by `from_json`, restores what was written.
pub proof fn lemma_rendered_read_back(m: Ledger, es: Seq<(Seq<char>, Seq<(Seq<char>, Option<u16>)>)>)
    requires
        ledger_ok(m),
        renders(m, es),
    ensures
        entries_ledger(es) == m,
{
    let days = choose|days: Seq<(Ymd, Map<Seq<char>, u16>)>|
        #![trigger pairs_map(days)]
        days.len() == es.len() && keys_distinct(days) && pairs_map(days) == m && forall|i: int|
            0 <= i < es.len() ==> (#[trigger] es[i]).0 == date_text(days[i].0) && is_valid(days[i].0)
                && entry_matches(days[i].1, es[i].1);
    assert(days.len() == es.len() && keys_distinct(days) && pairs_map(days) == m);
    assert forall|i: int| 0 <= i < es.len() implies (#[trigger] es[i]).0 == date_text(days[i].0)
        && is_valid(days[i].0) && entry_matches(days[i].1, es[i].1) by {
        assert(es[i].0 == date_text(days[i].0));
    }
    lemma_prefix_read_back(m, es, days, es.len() as int);
    assert(es.take(es.len() as int) =~= es);
    assert(days.take(es.len() as int) =~= days);
}

proof fn lemma_prefix_read_back(
    m: Ledger,
    es: Seq<(Seq<char>, Seq<(Seq<char>, Option<u16>)>)>,
    days: Seq<(Ymd, Map<Seq<char>, u16>)>,
    n: int,
)
    requires
        0 <= n <= es.len(),
        days.len() == es.len(),
        keys_distinct(days),
        pairs_map(days) == m,
        ledger_ok(m),
        forall|i: int|
            0 <= i < es.len() ==> (#[trigger] es[i]).0 == date_text(days[i].0) && is_valid(days[i].0)
                && entry_matches(days[i].1, es[i].1),
    ensures
        entries_ledger(es.take(n)) == pairs_map(days.take(n)),
    decreases n,
{
    if n == 0 {
        assert(es.take(0) =~= Seq::<(Seq<char>, Seq<(Seq<char>, Option<u16>)>)>::empty());
        assert(days.take(0) =~= Seq::<(Ymd, Map<Seq<char>, u16>)>::empty());
    } else {
        let k = n - 1;
        lemma_prefix_read_back(m, es, days, k);
        let d = days[k].0;
        let acts = days[k].1;
        lemma_pairs_map_index(days, k);
        assert(m.contains_key(d) && m[d] == acts);
        lemma_text_round_trip(d.0 as u16, d.1 as u16, d.2 as u16);
        assert(parse_date(es[k].0) == Ok::<Ymd, &'static str>(d));
        lemma_entry_read_back(acts, es[k].1, es[k].1.len() as int);
        assert(es[k].1.take(es[k].1.len() as int) =~= es[k].1);
        assert(entry_activities(es[k].1) =~= acts);
        assert(es.take(n).drop_last() =~= es.take(k));
        assert(es.take(n).last() == es[k]);
        assert(days.take(n).drop_last() =~= days.take(k));
        assert(days.take(n).last() == days[k]);
    }
}

/// A JSON object that holds the given activities, in order, as numbers.
pub open spec fn entry_json(v: JsonValue, acts: Seq<(String, u16)>) -> bool {
    &&& object_entries(v).len() == acts.len()
    &&& forall|m: int|
        0 <= m < acts.len() ==> (#[trigger] object_entries(v)[m]).0 == acts[m].0@ && number_u16(
            object_entries(v)[m].1,
        ) == Some(acts[m].1)
}

/// How many `'0'` bytes in a row make a number that `json::parse` cannot read
/// without overflowing its exponent.
pub const ZERO_RUN_LIMIT: usize = 32000;

/// `ZERO_RUN_LIMIT` `'0'` bytes in a row start at `i`.
pub open spec fn zero_run_at(b: Seq<u8>, i: int) -> bool {
    0 <= i && i + ZERO_RUN_LIMIT <= b.len() && forall|k: int|
        0 <= k < ZERO_RUN_LIMIT ==> #[trigger] b[i + k] == 48u8
}

/// The bytes hold `ZERO_RUN_LIMIT` `'0'` bytes in a row.
pub open spec fn has_long_zero_run(b: Seq<u8>) -> bool {
    exists|i: int| #[trigger] zero_run_at(b, i)
}

/// Relies on `JsonValue::new_object`: a new object without entries.
pub assume_specification[ json::JsonValue::new_object ]() -> (r: json::JsonValue)
    ensures
        is_object(r),
        object_entries(r) == Seq::<(Seq<char>, JsonValue)>::empty(),
;

/// Relies on `JsonValue::as_u16`: the value as a `u16` when it is a number that
/// is one, else `None`.
pub assume_specification[ json::JsonValue::as_u16 ](v: &json::JsonValue) -> (r: Option<u16>)
    ensures
        r == number_u16(*v),
;

/// Relies on `JsonValue::pretty`: the value as JSON text, indented by the
/// given number of spaces.
pub assume_specification[ json::JsonValue::pretty ](v: &json::JsonValue, spaces: u16) -> (r: String)
    ensures
        r@ == pretty_text(*v, spaces),
;

/// Relies on `json::parse`: the JSON value that the text holds, when it holds
/// one. A number with tens of thousands of zeros after its decimal point
/// overflows the parser's exponent, so such text is left out.
#[verifier::external_body]
fn parse_json(text: &str) -> (r: Option<JsonValue>)
    requires
        !has_long_zero_run(text.spec_bytes()),
    ensures
        r == parse_result(text@),
{
    json::parse(text).ok()
}

/// Relies on `JsonValue::entries`: the key-value pairs of an object, in order,
/// and none for any other value.
#[verifier::external_body]
fn json_entries(v: &JsonValue) -> (r: Vec<(String, JsonValue)>)
    ensures
        r@.len() == object_entries(*v).len(),
        forall|i: int|
            0 <= i < r@.len() ==> (#[trigger] r@[i]).0@ == object_entries(*v)[i].0 && r@[i].1
                == object_entries(*v)[i].1,
{
    v.entries().map(|(k, x)| (k.to_string(), x.clone())).collect()
}

/// Relies on `JsonValue::insert`: on an object it sets the key to the value,
/// in place when the key is there and last when it is new; on any other value
/// it fails and changes nothing.
#[verifier::external_body]
fn json_insert(target: &mut JsonValue, key: &str, value: JsonValue) -> (r: bool)
    ensures
        is_object(*old(target)) ==> r && is_object(*final(target)) && object_entries(*final(target))
            == with_entry(object_entries(*old(target)), key@, value),
        !is_object(*old(target)) ==> !r && *final(target) == *old(target),
{
    target.insert(key, value).is_ok()
}

/// Relies on `JsonValue::from` for `u16`: a number that reads back as `n`.
#[verifier::external_body]
fn json_number(n: u16) -> (r: JsonValue)
    ensures
        number_u16(r) == Some(n),
{
    JsonValue::from(n)
}

/// Whether the bytes hold `ZERO_RUN_LIMIT` `'0'` bytes in a row.
pub fn long_zero_run(b: &[u8]) -> (r: bool)
    ensures
        r == has_long_zero_run(b@),
{
    let n = b.len();
    let mut run: usize = 0;
    let mut i: usize = 0;
    while i < n
        invariant
            i <= n,
            n == b@.len(),
            run <= i,
            run < ZERO_RUN_LIMIT,
            forall|k: int| i - run <= k < i ==> b@[k] == 48u8,
            run < i ==> b@[i - run - 1] != 48u8,
            forall|j: int| j + ZERO_RUN_LIMIT <= i ==> !#[trigger] zero_run_at(b@, j),
        decreases n - i,
    {
        if b[i] == 48 {
            run = run + 1;
            if run == ZERO_RUN_LIMIT {
                proof {
                    let j = i + 1 - ZERO_RUN_LIMIT;
                    assert forall|k: int| 0 <= k < ZERO_RUN_LIMIT implies #[trigger] b@[j + k] == 48u8 by {
                        assert(i - (run - 1) <= j + k <= i);
                    }
                    assert(zero_run_at(b@, j));
                }
                return true;
            }
        } else {
            run = 0;
        }
        proof {
            assert forall|j: int| j + ZERO_RUN_LIMIT <= i + 1 implies !#[trigger] zero_run_at(b@, j) by {
                if j + ZERO_RUN_LIMIT == i + 1 && 0 <= j {
                    if b@[i as int] != 48u8 {
                        assert(b@[j + (ZERO_RUN_LIMIT - 1)] != 48u8);
                    } else {
                        let z = i - run;
                        assert(b@[j + (z - j)] != 48u8);
                    }
                }
            }
        }
        i = i + 1;
    }
    assert forall|j: int| !#[trigger] zero_run_at(b@, j) by {
        if zero_run_at(b@, j) {
            assert(j + ZERO_RUN_LIMIT <= n);
        }
    }
    false
}

pub open spec fn unparsable_text(filename: Seq<char>) -> Seq<char> {
    "Load from file error: cannot parse contents of \""@ + filename + "\""@
}

impl TrackerData {
    /// Replaces the contents with what a JSON object of date texts to objects
    /// of activity names to minutes holds, skipping what does not fit that
    /// shape; when nothing fits, the ledger stays as it was and this fails.
    pub fn from_json(&mut self, tracker_json: &JsonValue) -> (r: Result<(), String>)
        requires
            old(self).wf(),
        ensures
            final(self).wf(),
            entries_ledger(json_view(*tracker_json)) == Ledger::empty() ==> (r matches Err(e) && e@
                == no_entries_text() && final(self)@ == old(self)@),
            entries_ledger(json_view(*tracker_json)) != Ledger::empty() ==> (r is Ok && final(self)@
                == entries_ledger(json_view(*tracker_json))),
    {
        let ghost es = json_view(*tracker_json);
        let outer = json_entries(tracker_json);
        let ghost outer_view = object_entries(*tracker_json);
        let mut entries: Vec<(String, Vec<(String, Option<u16>)>)> = Vec::new();
        let mut i: usize = 0;
        while i < outer.len()
            invariant
                i <= outer@.len(),
                es == json_view(*tracker_json),
                outer_view == object_entries(*tracker_json),
                es.len() == outer@.len(),
                outer@.len() == outer_view.len(),
                forall|k: int|
                    0 <= k < outer@.len() ==> (#[trigger] outer@[k]).0@ == outer_view[k].0
                        && outer@[k].1 == outer_view[k].1,
                entries@.len() == i,
                forall|k: int|
                    0 <= k < i ==> (#[trigger] entries@[k]).0@ == es[k].0 && entries@[k].1@.len()
                        == es[k].1.len() && forall|m: int|
                        0 <= m < entries@[k].1@.len() ==> (#[trigger] entries@[k].1@[m]).0@
                            == es[k].1[m].0 && entries@[k].1@[m].1 == es[k].1[m].1,
            decreases outer@.len() - i,
        {
            let inner = json_entries(&outer[i].1);
            let ghost inner_view = object_entries(outer@[i as int].1);
            let ghost target = es[i as int].1;
            proof {
                assert(es[i as int] == (outer_view[i as int].0, inner_view.map_values(
                    |q: (Seq<char>, JsonValue)| (q.0, number_u16(q.1)),
                )));
            }
            let mut acts: Vec<(String, Option<u16>)> = Vec::new();
            let mut j: usize = 0;
            while j < inner.len()
                invariant
                    j <= inner@.len(),
                    inner@.len() == inner_view.len(),
                    target.len() == inner_view.len(),
                    forall|m: int|
                        0 <= m < inner@.len() ==> (#[trigger] inner@[m]).0@ == inner_view[m].0
                            && inner@[m].1 == inner_view[m].1,
                    forall|m: int|
                        0 <= m < target.len() ==> #[trigger] target[m] == (
                        inner_view[m].0,
                        number_u16(inner_view[m].1),
                    ),
                    acts@.len() == j,
                    forall|m: int|
                        0 <= m < j ==> (#[trigger] acts@[m]).0@ == target[m].0 && acts@[m].1
                            == target[m].1,
                decreases inner@.len() - j,
            {
                let name = inner[j].0.clone();
                let minutes = inner[j].1.as_u16();
                acts.push((name, minutes));
                j = j + 1;
            }
            let key = outer[i].0.clone();
            entries.push((key, acts));
            i = i + 1;
        }
        proof {
            assert(entries_view(entries@) =~= es) by {
                assert forall|k: int| 0 <= k < es.len() implies #[trigger] entries_view(entries@)[k]
                    == es[k] by {
                    let inner = entries@[k].1@;
                    assert(inner.map_values(|a: (String, Option<u16>)| (a.0@, a.1)) =~= es[k].1);
                }
            }
        }
        self.from_entries(&entries)
    }

    /// The ledger as a JSON object of date texts to objects of activity names
    /// to minutes; the order of the dates and of the activities is not specified.
    pub fn to_json(&self) -> (r: Result<JsonValue, String>)
        requires
            self.wf(),
        ensures
            r matches Ok(j) && is_object(j) && renders(self@, json_view(j)),
    {
        let entries = self.to_entries();
        let ghost days = choose|days: Seq<(Ymd, Map<Seq<char>, u16>)>|
            #![trigger pairs_map(days)]
            days.len() == entries@.len() && keys_distinct(days) && pairs_map(days) == self@ && (forall|
                i: int,
            | 0 <= i < entries@.len() ==> (#[trigger] entries@[i]).0@ == date_text(days[i].0)
                && activity_map(entries@[i].1@) == days[i].1 && keys_distinct(
                activity_pairs(entries@[i].1@),
            ) && entries@[i].1@.len() > 0 && is_valid(days[i].0));
        let mut tracker_json = JsonValue::new_object();
        let mut i: usize = 0;
        while i < entries.len()
            invariant
                i <= entries@.len(),
                days.len() == entries@.len(),
                keys_distinct(days),
                forall|k: int|
                    0 <= k < entries@.len() ==> (#[trigger] entries@[k]).0@ == date_text(days[k].0)
                        && keys_distinct(activity_pairs(entries@[k].1@)) && is_valid(days[k].0)
                        && activity_map(entries@[k].1@) == days[k].1,
                pairs_map(days) == self@,
                is_object(tracker_json),
                object_entries(tracker_json).len() == i,
                forall|k: int|
                    0 <= k < i ==> #[trigger] object_entries(tracker_json)[k].0 == entries@[k].0@
                        && entry_json(object_entries(tracker_json)[k].1, entries@[k].1@),
            decreases entries@.len() - i,
        {
            let acts = &entries[i].1;
            let mut activities_json = JsonValue::new_object();
            let mut j: usize = 0;
            proof {
                assert(keys_distinct(activity_pairs(acts@)));
            }
            while j < acts.len()
                invariant
                    j <= acts@.len(),
                    keys_distinct(activity_pairs(acts@)),
                    is_object(activities_json),
                    object_entries(activities_json).len() == j,
                    forall|m: int|
                        0 <= m < j ==> (#[trigger] object_entries(activities_json)[m]).0
                            == acts@[m].0@ && number_u16(object_entries(activities_json)[m].1)
                            == Some(acts@[m].1),
                decreases acts@.len() - j,
            {
                let ghost before = object_entries(activities_json);
                proof {
                    assert forall|m: int| 0 <= m < before.len() implies #[trigger] before[m].0
                        != acts@[j as int].0@ by {
                        assert(activity_pairs(acts@)[m].0 != activity_pairs(acts@)[j as int].0);
                    }
                }
                let value = json_number(acts[j].1);
                if !json_insert(&mut activities_json, acts[j].0.as_str(), value) {
                    return Err(String::from_str("To JSON error: TrackerData cannot be interpreted as JSON"));
                }
                j = j + 1;
            }
            let ghost inner = activities_json;
            let ghost before = object_entries(tracker_json);
            proof {
                assert forall|k: int| 0 <= k < before.len() implies #[trigger] before[k].0
                    != entries@[i as int].0@ by {
                    if before[k].0 == entries@[i as int].0@ {
                        lemma_date_text_injective(days[k].0, days[i as int].0);
                        assert(days[k].0 != days[i as int].0);
                    }
                }
            }
            if !json_insert(&mut tracker_json, entries[i].0.as_str(), activities_json) {
                return Err(String::from_str("To JSON error: TrackerData cannot be interpreted as JSON"));
            }
            proof {
                assert(object_entries(tracker_json)[i as int] == (entries@[i as int].0@, inner));
                assert(entry_json(inner, entries@[i as int].1@));
            }
            i = i + 1;
        }
        proof {
            let es = json_view(tracker_json);
            assert(es.len() == entries@.len());
            assert forall|k: int| 0 <= k < es.len() implies (#[trigger] es[k]).0 == date_text(
                days[k].0,
            ) && keys_distinct(es[k].1) && entry_matches(days[k].1, es[k].1) by {
                let acts = entries@[k].1@;
                let oe = object_entries(object_entries(tracker_json)[k].1);
                let ps = activity_pairs(acts);
                assert(object_entries(tracker_json)[k].0 == entries@[k].0@);
                assert(entry_json(object_entries(tracker_json)[k].1, acts));
                assert(es[k].1.len() == ps.len());
                assert forall|m: int| 0 <= m < es[k].1.len() implies #[trigger] es[k].1[m] == (
                    ps[m].0,
                    Some(ps[m].1),
                ) by {
                    assert(es[k].1[m] == (oe[m].0, number_u16(oe[m].1)));
                }
                assert forall|a: int, b: int|
                    0 <= a < es[k].1.len() && 0 <= b < es[k].1.len() && a != b implies es[k].1[a].0
                    != es[k].1[b].0 by {
                    assert(es[k].1[a] == (ps[a].0, Some(ps[a].1)));
                    assert(es[k].1[b] == (ps[b].0, Some(ps[b].1)));
                }
                assert forall|m: int| 0 <= m < es[k].1.len() implies days[k].1.contains_key(
                    #[trigger] es[k].1[m].0,
                ) && es[k].1[m].1 == Some(days[k].1[es[k].1[m].0]) by {
                    assert(es[k].1[m] == (ps[m].0, Some(ps[m].1)));
                    lemma_pairs_map_index(ps, m);
                }
                assert forall|a: Seq<char>| #[trigger] days[k].1.contains_key(a) implies exists|
                    m: int,
                | 0 <= m < es[k].1.len() && #[trigger] es[k].1[m].0 == a by {
                    lemma_pairs_map_dom(ps, a);
                    let m = choose|m: int| 0 <= m < ps.len() && #[trigger] ps[m].0 == a;
                    assert(es[k].1[m] == (ps[m].0, Some(ps[m].1)));
                    assert(es[k].1[m].0 == a);
                }
                assert(is_valid(days[k].0));
            }
            assert(pairs_map(days) == self@);
        }
        Ok(tracker_json)
    }

    /// Loads the ledger from the JSON text of a file. Empty text leaves it as
    /// it was; text that is not JSON, or that holds a number too long for the
    /// parser, fails, naming the file; JSON is read as by `from_json`, and
    /// when it holds no dates the ledger stays as it was.
    pub fn load_from_text(&mut self, contents: &str, filename: &str) -> (r: Result<(), String>)
        requires
            old(self).wf(),
        ensures
            final(self).wf(),
            contents@.len() == 0 ==> r is Ok && final(self)@ == old(self)@,
            contents@.len() > 0 && (has_long_zero_run(contents.spec_bytes())
                || parse_result(contents@) is None) ==> (r matches Err(e) && e@ == unparsable_text(
                filename@,
            ) && final(self)@ == old(self)@),
            contents@.len() > 0 && !has_long_zero_run(contents.spec_bytes()) && parse_result(
                contents@,
            ) is Some ==> r is Ok && (if entries_ledger(json_view(parse_result(contents@)->0))
                == Ledger::empty() {
                final(self)@ == old(self)@
            } else {
                final(self)@ == entries_ledger(json_view(parse_result(contents@)->0))
            }),
    {
        if contents.is_empty() {
            return Ok(());
        }
        let parsed = if long_zero_run(contents.as_bytes()) {
            None
        } else {
            parse_json(contents)
        };
        match parsed {
            Some(value) => {
                let _ = self.from_json(&value);
                Ok(())
            },
            None => {
                let mut e = String::from_str("Load from file error: cannot parse contents of \"");
                e.append(filename);
                e.append("\"");
                Err(e)
            },
        }
    }

    /// The ledger as JSON text indented by four spaces.
    pub fn to_json_text(&self) -> (r: Result<String, String>)
        requires
            self.wf(),
        ensures
            r matches Ok(t) && exists|j: JsonValue|
                #![trigger pretty_text(j, 4)]
                is_object(j) && renders(self@, json_view(j)) && t@ == pretty_text(j, 4),
    {
        let tracker_json = self.to_json()?;
        let text = tracker_json.pretty(4);
        assert(pretty_text(tracker_json, 4) == text@);
        Ok(text)
    }
}

} // verus!
