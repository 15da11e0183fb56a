use json::JsonValue;
use tracker::args::{parse_add_sub_args, parse_sum_args};
use tracker::codec::long_zero_run;
use tracker::date::Date;
use tracker::tracker_data::TrackerData;

fn activities(pairs: &[(&str, u16)]) -> JsonValue {
    let mut obj = JsonValue::new_object();
    for (name, minutes) in pairs {
        obj.insert(name, *minutes).unwrap();
    }
    obj
}

fn ledger_json(days: &[(&str, JsonValue)]) -> JsonValue {
    let mut obj = JsonValue::new_object();
    for (date, acts) in days {
        obj.insert(date, acts.clone()).unwrap();
    }
    obj
}

fn base_json() -> JsonValue {
    ledger_json(&[
        ("2023-2-1", activities(&[("guitar", 30), ("school", 180)])),
        ("2023-3-1", activities(&[("school", 210), ("work", 120)])),
    ])
}

fn minutes(data: &TrackerData, date: &Date, activity: &str) -> Option<u16> {
    data.minutes_for(date, &String::from(activity))
}

#[test]
fn from_to_json() {
    // Create valid data
    let valid_json = base_json();
    let mut tracker_data = TrackerData::new();
    // Use from_json and to_json methods on this data
    assert_eq!(tracker_data.from_json(&valid_json), Ok(()));
    assert_eq!(tracker_data.to_json(), Ok(valid_json.clone()));

    // Create invalid data
    let mut hello = JsonValue::new_object();
    hello.insert("guitar", "hello").unwrap();
    let mut list = JsonValue::new_array();
    list.push("school").unwrap();
    list.push(60).unwrap();
    list.push("guitar").unwrap();
    list.push(45).unwrap();
    let invalid_json = ledger_json(&[
        ("2023-2-1", hello),
        ("2023.3.1", activities(&[("school", 210), ("work", 120)])),
        ("2023-4-1", list),
    ]);
    // Use from_json on this data (should return error without changing the data)
    assert_eq!(tracker_data.from_json(&invalid_json),
                Err(String::from("From JSON error: JSON cannot be interpreted as TrackerData")));
    assert_eq!(tracker_data.to_json(), Ok(valid_json.clone()));
}

#[test]
fn add() {
    let valid_json = base_json();
    let mut tracker_data = TrackerData::new();
    assert_eq!(tracker_data.from_json(&valid_json), Ok(()));

    // Add time to an existing activity
    let date = Date::new_from_string("2023-2-1").unwrap();
    assert_eq!(tracker_data.add(date.clone(), String::from("guitar"), 15), Ok(()));
    assert_eq!(minutes(&tracker_data, &date, "guitar"), Some(45));

    // Add a new activity on an existing date
    assert_eq!(tracker_data.add(date.clone(), String::from("work"), 180), Ok(()));
    assert_eq!(minutes(&tracker_data, &date, "work"), Some(180));

    // Add a new activity on a new date
    let new_date = Date::new_from_string("2023-4-1").unwrap();
    assert_eq!(tracker_data.add(new_date.clone(), String::from("school"), 60), Ok(()));
    assert_eq!(minutes(&tracker_data, &new_date, "school"), Some(60));

    // Try to add more than a day's worth of time to an activity
    assert_eq!(tracker_data.add(new_date.clone(), String::from("school"), 1440),
                Err(String::from("Add error: total minutes exceeds 1440 for school on 2023-4-1")));
}

#[test]
fn subtract() {
    let valid_json = base_json();
    let mut tracker_data = TrackerData::new();
    assert_eq!(tracker_data.from_json(&valid_json), Ok(()));

    // Subtract time from an existing activity
    let date = Date::new_from_string("2023-2-1").unwrap();
    assert_eq!(tracker_data.subtract(date.clone(), String::from("guitar"), 15), Ok(()));
    assert_eq!(minutes(&tracker_data, &date, "guitar"), Some(15));

    // Subtract all time from an existing activity (it should no longer exist)
    assert_eq!(tracker_data.subtract(date.clone(), String::from("school"), 200), Ok(()));
    assert_eq!(minutes(&tracker_data, &date, "school"), None);

    // Try to subtract time from a non-existent activity on an existing date
    assert_eq!(tracker_data.subtract(date.clone(), String::from("work"), 30),
                Err(String::from("Subtract error: no minutes recorded for work on 2023-2-1")));

    // Try to subtract time from a non-existent activity on a non-existent date
    let new_date = Date::new_from_string("2023-4-1").unwrap();
    assert_eq!(tracker_data.subtract(new_date.clone(), String::from("work"), 30),
                Err(String::from("Subtract error: no activities recorded for 2023-4-1")));
}

#[test]
fn summarize() {
    let valid_json = ledger_json(&[
        ("2023-2-1", activities(&[("guitar", 30), ("school", 180)])),
        ("2023-3-1", activities(&[("school", 210)])),
    ]);
    let mut tracker_data = TrackerData::new();
    assert_eq!(tracker_data.from_json(&valid_json), Ok(()));

    // Summarize a valid date range
    let date1 = Date::new_from_string("2023-2-1").unwrap();
    let date2 = Date::new_from_string("2023-4-1").unwrap();
    let summary1 = "Summary from 2023-2-1 to 2023-4-1:

ACTIVITY\tTOTAL TIME\tAVG TIME
guitar\t\t30\t\t15
school\t\t390\t\t195";
    let summary2 = "Summary from 2023-2-1 to 2023-4-1:

ACTIVITY\tTOTAL TIME\tAVG TIME
school\t\t390\t\t195
guitar\t\t30\t\t15";
    let summarize_result = tracker_data.summarize(date1.clone(), date2.clone());
    assert!(summarize_result.clone() == Ok(String::from(summary1)) ||
            summarize_result.clone() == Ok(String::from(summary2)));

    // Try to summarize an invalid date range
    assert_eq!(tracker_data.summarize(date2.clone(), date1.clone()),
                Err(String::from("Summarize error: end date 2023-2-1 is before start date 2023-4-1")));

    // Try to summarize a date range with no data
    let date3 = Date::new_from_string("2023-5-1").unwrap();
    assert_eq!(tracker_data.summarize(date2.clone(), date3.clone()),
                Err(String::from("Summarize error: no data for 2023-4-1 to 2023-5-1")));
}

#[test]
fn adding_up_to_a_full_day() {
    let mut data = TrackerData::new();
    let date = Date::new_from_ints(2023, 6, 1).unwrap();
    assert_eq!(data.add(date, String::from("sleep"), 1000), Ok(()));
    assert_eq!(data.add(date, String::from("sleep"), 441),
                Err(String::from("Add error: total minutes exceeds 1440 for sleep on 2023-6-1")));
    assert_eq!(minutes(&data, &date, "sleep"), Some(1000));
    assert_eq!(data.add(date, String::from("sleep"), 440), Ok(()));
    assert_eq!(minutes(&data, &date, "sleep"), Some(1440));
    assert_eq!(data.add(date, String::from("sleep"), 0), Ok(()));
    assert_eq!(data.add(date, String::from("sleep"), 1),
                Err(String::from("Add error: total minutes exceeds 1440 for sleep on 2023-6-1")));
    // A new activity cannot start above a day's minutes either.
    assert_eq!(data.add(date, String::from("read"), 1441),
                Err(String::from("Add error: total minutes exceeds 1440 for read on 2023-6-1")));
    assert_eq!(minutes(&data, &date, "read"), None);
    let other = Date::new_from_ints(2023, 6, 2).unwrap();
    assert_eq!(data.add(other, String::from("read"), 1441),
                Err(String::from("Add error: total minutes exceeds 1440 for read on 2023-6-2")));
    assert_eq!(data.summarize(other, other),
                Err(String::from("Summarize error: no data for 2023-6-2 to 2023-6-2")));
    assert_eq!(data.add(other, String::from("read"), 1440), Ok(()));
}

#[test]
fn subtracting_the_last_activity_removes_the_date() {
    let mut data = TrackerData::new();
    let date = Date::new_from_ints(2023, 6, 1).unwrap();
    assert_eq!(data.add(date, String::from("guitar"), 30), Ok(()));
    assert_eq!(data.add(date, String::from("school"), 60), Ok(()));
    assert_eq!(data.subtract(date, String::from("guitar"), 29), Ok(()));
    assert_eq!(minutes(&data, &date, "guitar"), Some(1));
    assert_eq!(data.subtract(date, String::from("guitar"), 1), Ok(()));
    assert_eq!(minutes(&data, &date, "guitar"), None);
    assert_eq!(minutes(&data, &date, "school"), Some(60));
    assert_eq!(data.subtract(date, String::from("school"), 60), Ok(()));
    assert_eq!(data.subtract(date, String::from("school"), 1),
                Err(String::from("Subtract error: no activities recorded for 2023-6-1")));
    assert_eq!(data.summarize(date, date),
                Err(String::from("Summarize error: no data for 2023-6-1 to 2023-6-1")));
}

#[test]
fn summary_without_any_data() {
    let data = TrackerData::new();
    let start = Date::new_from_ints(2023, 1, 1).unwrap();
    let end = Date::new_from_ints(2023, 12, 31).unwrap();
    assert_eq!(data.summarize(start, end),
                Err(String::from("Summarize error: no data for 2023-1-1 to 2023-12-31")));
    assert_eq!(data.summarize(end, start),
                Err(String::from("Summarize error: end date 2023-1-1 is before start date 2023-12-31")));
}

#[test]
fn summary_layout_and_averages() {
    let mut data = TrackerData::new();
    let d1 = Date::new_from_ints(2023, 12, 31).unwrap();
    let d2 = Date::new_from_ints(2024, 1, 2).unwrap();
    assert_eq!(data.add(d1, String::from("programming"), 100), Ok(()));
    assert_eq!(data.add(d2, String::from("programming"), 1), Ok(()));
    let report = data.summarize(d1, d2).unwrap();
    assert_eq!(report,
               "Summary from 2023-12-31 to 2024-1-2:\n\nACTIVITY\tTOTAL TIME\tAVG TIME\nprogramming\t101\t\t50");
    // A single day, and a range that only starts on a day with data.
    assert_eq!(data.summarize(d2, d2).unwrap(),
               "Summary from 2024-1-2 to 2024-1-2:\n\nACTIVITY\tTOTAL TIME\tAVG TIME\nprogramming\t1\t\t1");
    // Names are measured in bytes: seven letters, one of them two bytes wide.
    assert_eq!(data.add(d2, String::from("caf\u{e9}123"), 5), Ok(()));
    let report = data.summarize(d2, d2).unwrap();
    assert!(report.contains("\ncaf\u{e9}123\t5\t\t5"));
}

#[test]
fn summary_reaching_the_last_date() {
    let mut data = TrackerData::new();
    let last = Date::new_from_ints(65535, 12, 31).unwrap();
    let before = Date::new_from_ints(65535, 12, 30).unwrap();
    assert_eq!(data.add(last, String::from("x"), 10), Ok(()));
    assert_eq!(data.summarize(before, last).unwrap(),
               "Summary from 65535-12-30 to 65535-12-31:\n\nACTIVITY\tTOTAL TIME\tAVG TIME\nx\t\t10\t\t10");
}

#[test]
fn loading_from_json_skips_malformed_entries() {
    let mut hello = JsonValue::new_object();
    hello.insert("guitar", "hello").unwrap();
    hello.insert("piano", 20).unwrap();
    hello.insert("drums", -5).unwrap();
    hello.insert("bass", 2.5).unwrap();
    hello.insert("voice", 5000).unwrap();
    let json = ledger_json(&[
        ("2023-2-1", hello),
        ("not a date", activities(&[("school", 210)])),
        ("2023-2-2", JsonValue::new_object()),
    ]);
    let mut data = TrackerData::new();
    assert_eq!(data.from_json(&json), Ok(()));
    let date = Date::new_from_ints(2023, 2, 1).unwrap();
    assert_eq!(minutes(&data, &date, "piano"), Some(20));
    assert_eq!(minutes(&data, &date, "guitar"), None);
    assert_eq!(minutes(&data, &date, "drums"), None);
    assert_eq!(minutes(&data, &date, "bass"), None);
    assert_eq!(minutes(&data, &date, "voice"), None);
    let expected = ledger_json(&[("2023-2-1", activities(&[("piano", 20)]))]);
    assert_eq!(data.to_json(), Ok(expected));
}

#[test]
fn entries_with_equal_dates() {
    let mut data = TrackerData::new();
    let entries = vec![
        (String::from("2023-2-1"), vec![(String::from("a"), Some(1u16))]),
        (String::from("2023-02-01"), vec![(String::from("b"), Some(2u16)), (String::from("b"), Some(3u16))]),
    ];
    assert_eq!(data.from_entries(&entries), Ok(()));
    let date = Date::new_from_ints(2023, 2, 1).unwrap();
    assert_eq!(minutes(&data, &date, "a"), None);
    assert_eq!(minutes(&data, &date, "b"), Some(3));
    let rendered = data.to_entries();
    assert_eq!(rendered, vec![(String::from("2023-2-1"), vec![(String::from("b"), 3u16)])]);
    let nothing = vec![(String::from("2023-2-1"), vec![(String::from("a"), None)])];
    assert_eq!(data.from_entries(&nothing),
                Err(String::from("From JSON error: JSON cannot be interpreted as TrackerData")));
    assert_eq!(minutes(&data, &date, "b"), Some(3));
}

#[test]
fn json_text_round_trip() {
    let mut data = TrackerData::new();
    assert_eq!(data.load_from_text("", "tracker_data.json"), Ok(()));
    assert_eq!(data.load_from_text("{not json", "tracker_data.json"),
                Err(String::from("Load from file error: cannot parse contents of \"tracker_data.json\"")));
    let text = "{\"2023-2-1\": {\"guitar\": 30}, \"2023-3-1\": {\"school\": 210}}";
    assert_eq!(data.load_from_text(text, "tracker_data.json"), Ok(()));
    let date = Date::new_from_ints(2023, 3, 1).unwrap();
    assert_eq!(minutes(&data, &date, "school"), Some(210));
    let saved = data.to_json_text().unwrap();
    assert!(saved.contains("\n    \"2023-2-1\": {\n        \"guitar\": 30\n    }"));
    let mut again = TrackerData::new();
    assert_eq!(again.load_from_text(&saved, "copy.json"), Ok(()));
    assert_eq!(again.to_json(), data.to_json());
    // JSON without any date leaves the ledger as it was.
    assert_eq!(again.load_from_text("[1, 2]", "copy.json"), Ok(()));
    assert_eq!(again.to_json(), data.to_json());
}

fn strings(items: &[&str]) -> Vec<String> {
    items.iter().map(|s| String::from(*s)).collect()
}

#[test]
fn reading_add_and_sub_arguments() {
    let (date, activity, minutes) = parse_add_sub_args(strings(&["2023-5-31", "guitar", "45"])).unwrap();
    assert_eq!(date.to_tuple(), (2023, 5, 31));
    assert_eq!(activity, "guitar");
    assert_eq!(minutes, 45);
    assert_eq!(parse_add_sub_args(strings(&["2023-5-31", "guitar"])).unwrap_err(),
               "Parse arguments error: not enough arguments for \"add\" or \"sub\" function");
    assert_eq!(parse_add_sub_args(strings(&["2023-5-32", "guitar", "45"])).unwrap_err(),
               "Parse arguments error: \"2023-5-32\" cannot be interpreted as a date");
    assert_eq!(parse_add_sub_args(strings(&["2023-5-31", "guitar", "lots"])).unwrap_err(),
               "Parse arguments error: \"lots\" cannot be interpreted as an integer");
}

#[test]
fn reading_sum_arguments() {
    let (start, end) = parse_sum_args(strings(&["2023-5-31"])).unwrap();
    assert_eq!(start, end);
    assert_eq!(start.to_tuple(), (2023, 5, 31));
    let (start, end) = parse_sum_args(strings(&["2023-5-1", "2023-5-31", "extra"])).unwrap();
    assert_eq!((start.to_tuple(), end.to_tuple()), ((2023, 5, 1), (2023, 5, 31)));
    assert_eq!(parse_sum_args(Vec::new()).unwrap_err(),
               "Parse arguments error: not enough arguments for \"sum\" function");
    assert_eq!(parse_sum_args(strings(&["x"])).unwrap_err(),
               "Parse arguments error: \"x\" cannot be interpreted as a date");
    assert_eq!(parse_sum_args(strings(&["2023-5-1", "y"])).unwrap_err(),
               "Parse arguments error: \"y\" cannot be interpreted as a date");
}

#[test]
fn text_with_an_overlong_number_is_refused() {
    let mut data = TrackerData::new();
    assert_eq!(data.load_from_text("{\"2023-2-1\": {\"guitar\": 30}}", "t.json"), Ok(()));
    let zeros = "0".repeat(32000);
    let text = format!("{{\"2023-2-1\": {{\"guitar\": 0.{}1}}}}", zeros);
    assert_eq!(data.load_from_text(&text, "t.json"),
                Err(String::from("Load from file error: cannot parse contents of \"t.json\"")));
    let date = Date::new_from_ints(2023, 2, 1).unwrap();
    assert_eq!(minutes(&data, &date, "guitar"), Some(30));
    // A shorter run is read as usual: the value is not a whole number, so it is skipped.
    let text = format!("{{\"2023-3-1\": {{\"piano\": 0.{}1, \"voice\": 7}}}}", "0".repeat(31999));
    assert_eq!(data.load_from_text(&text, "t.json"), Ok(()));
    let date = Date::new_from_ints(2023, 3, 1).unwrap();
    assert_eq!(minutes(&data, &date, "voice"), Some(7));
    assert_eq!(minutes(&data, &date, "piano"), None);
}

#[test]
fn zero_runs_are_counted_in_a_row() {
    assert!(!long_zero_run(b""));
    assert!(!long_zero_run("0".repeat(31999).as_bytes()));
    assert!(long_zero_run("0".repeat(32000).as_bytes()));
    let split = format!("{}1{}", "0".repeat(20000), "0".repeat(20000));
    assert!(!long_zero_run(split.as_bytes()));
    let late = format!("x{}", "0".repeat(32001));
    assert!(long_zero_run(late.as_bytes()));
}

#[test]
fn written_json_reads_back_to_the_same_ledger() {
    let mut data = TrackerData::new();
    let d1 = Date::new_from_ints(2024, 2, 29).unwrap();
    let d2 = Date::new_from_ints(1999, 12, 31).unwrap();
    assert_eq!(data.add(d1, String::from("guitar"), 30), Ok(()));
    assert_eq!(data.add(d1, String::from("work"), 1440), Ok(()));
    assert_eq!(data.add(d2, String::from("party"), 0), Ok(()));
    let json = data.to_json().unwrap();
    let mut copy = TrackerData::new();
    assert_eq!(copy.from_json(&json), Ok(()));
    assert_eq!(minutes(&copy, &d1, "guitar"), Some(30));
    assert_eq!(minutes(&copy, &d1, "work"), Some(1440));
    assert_eq!(minutes(&copy, &d2, "party"), Some(0));
    assert_eq!(copy.to_json(), Ok(json));
}
