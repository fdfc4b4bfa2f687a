use hamster_export::fact::Fact;
use hamster_export::instant::{MAX_INSTANT, MIN_INSTANT};

fn strings(items: &[&str]) -> Vec<String> {
    items.iter().map(|s| s.to_string()).collect()
}

fn local(seconds: i64) -> String {
    time::at(time::Timespec::new(seconds, 0)).rfc3339().to_string()
}

#[test]
fn new_keeps_what_it_is_given() {
    let fact = Fact::new(
        "work".to_string(),
        1_420_106_400,
        Some(1_420_110_000),
        strings(&["a", "b"]),
        Some("notes".to_string()),
    );
    assert_eq!(fact.activity(), "work");
    assert_eq!(fact.start_time(), 1_420_106_400);
    assert_eq!(fact.end_time(), Some(1_420_110_000));
    assert_eq!(fact.duration(), Some(60));
    assert_eq!(fact.tags(), &strings(&["a", "b"]));
    assert_eq!(fact.description(), &Some("notes".to_string()));
}

#[test]
fn duration_of_ninety_seconds_is_one_minute() {
    let start = 1_420_106_400;
    let fact = Fact::new("work".to_string(), start, Some(start + 90), Vec::new(), None);
    assert_eq!(fact.duration(), Some(1));
    let line = fact.render_with("S", "E");
    let fields: Vec<&str> = line.split('\t').collect();
    assert_eq!(fields[3], "1");
}

#[test]
fn an_open_fact_has_no_duration() {
    let fact = Fact::new("work".to_string(), 1_420_106_400, None, Vec::new(), None);
    assert_eq!(fact.end_time(), None);
    assert_eq!(fact.duration(), None);
    let line = fact.render_with("S", "");
    let fields: Vec<&str> = line.split('\t').collect();
    assert_eq!(fields.len(), 6);
    assert_eq!(fields[2], "");
    assert_eq!(fields[3], "");
}

#[test]
fn duration_is_never_taken_from_outside() {
    let fact = Fact::new("a".to_string(), 0, Some(7_200), Vec::new(), None);
    assert_eq!(fact.duration(), Some(120));
    let backward = Fact::new("a".to_string(), 90, Some(0), Vec::new(), None);
    assert_eq!(backward.duration(), Some(-1));
    let far = Fact::new("a".to_string(), i64::MIN, Some(i64::MAX), Vec::new(), None);
    assert_eq!(far.duration(), Some(307_445_734_561_825_860));
}

#[test]
fn a_tag_given_twice_is_kept_once() {
    let fact = Fact::new("a".to_string(), 0, None, strings(&["x", "y", "x", "z", "y", "x"]), None);
    assert_eq!(fact.tags(), &strings(&["x", "y", "z"]));
}

#[test]
fn facts_are_equal_by_activity_and_start() {
    let a = Fact::new("work".to_string(), 100, Some(200), strings(&["t"]), Some("one".to_string()));
    let b = Fact::new("work".to_string(), 100, None, Vec::new(), None);
    assert!(a == b);
    assert_eq!(a, b);
}

#[test]
fn facts_differ_by_activity_or_start() {
    let a = Fact::new("work".to_string(), 100, Some(200), strings(&["t"]), None);
    let other_activity = Fact::new("rest".to_string(), 100, Some(200), strings(&["t"]), None);
    let other_start = Fact::new("work".to_string(), 101, Some(200), strings(&["t"]), None);
    assert!(a != other_activity);
    assert!(a != other_start);
}

#[test]
fn equal_facts_have_equal_hashes() {
    let a = Fact::new("work".to_string(), 100, Some(200), strings(&["t"]), Some("one".to_string()));
    let b = Fact::new("work".to_string(), 100, None, Vec::new(), None);
    assert!(a == b);
    assert_eq!(a.hash(), b.hash());
}

#[test]
fn the_hash_reads_activity_and_start() {
    let a = Fact::new("work".to_string(), 100, None, Vec::new(), None);
    let other_activity = Fact::new("worj".to_string(), 100, None, Vec::new(), None);
    let other_start = Fact::new("work".to_string(), 101, None, Vec::new(), None);
    assert_ne!(a.hash(), other_activity.hash());
    assert_ne!(a.hash(), other_start.hash());
}

#[test]
fn the_hash_has_known_values() {
    let empty = Fact::new(String::new(), 0, None, Vec::new(), None);
    assert_eq!(empty.hash(), 3_414_781_078_840_391_647);
    let work = Fact::new("work".to_string(), 1_420_106_400, Some(5), strings(&["x"]), None);
    assert_eq!(work.hash(), 3_772_813_252_157_943_840);
    let cafe = Fact::new("caf\u{e9}".to_string(), -1, None, Vec::new(), None);
    assert_eq!(cafe.hash(), 3_948_831_986_887_230_073);
}

#[test]
fn render_with_writes_six_fields_in_order() {
    let fact = Fact::new(
        "work".to_string(),
        1_420_106_400,
        Some(1_420_106_490),
        strings(&["home", "deep"]),
        Some("first draft".to_string()),
    );
    let line = fact.render_with("2015-01-01T10:00:00Z", "2015-01-01T10:01:30Z");
    assert_eq!(
        line,
        "work\t2015-01-01T10:00:00Z\t2015-01-01T10:01:30Z\t1\thome;deep\tfirst draft"
    );
}

#[test]
fn render_with_leaves_absent_fields_empty() {
    let fact = Fact::new("work".to_string(), 0, None, Vec::new(), None);
    assert_eq!(fact.render_with("1970-01-01T00:00:00Z", ""), "work\t1970-01-01T00:00:00Z\t\t\t\t");
}

#[test]
fn render_with_joins_one_tag_without_separator() {
    let fact = Fact::new("work".to_string(), 0, None, strings(&["only"]), None);
    assert_eq!(fact.render_with("S", ""), "work\tS\t\t\tonly\t");
}

#[test]
fn a_semicolon_in_a_tag_becomes_a_comma() {
    let fact = Fact::new("work".to_string(), 0, None, strings(&["x;y", "z"]), None);
    let line = fact.render_with("S", "");
    let fields: Vec<&str> = line.split('\t').collect();
    assert_eq!(fields[4], "x,y;z");
    assert_eq!(fields[4].split(';').count(), 2);
    assert_eq!(fact.tags(), &strings(&["x;y", "z"]));
}

#[test]
fn the_description_is_escaped() {
    let fact = Fact::new("work".to_string(), 0, None, Vec::new(), Some("a\tb\rc\nd".to_string()));
    let line = fact.render_with("S", "");
    let fields: Vec<&str> = line.split('\t').collect();
    assert_eq!(fields.len(), 6);
    assert_eq!(fields[5], "a        bc\\\\d");
    assert!(!line.contains('\n'));
    assert!(!line.contains('\r'));
}

#[test]
fn a_line_has_six_fields_whatever_the_description() {
    let descriptions = ["", "\t", "\t\t\t\t\t\t", "\n\n", "a\tb\tc\td\te\tf\tg", "\r\n\t\r\n"];
    for description in descriptions {
        let fact = Fact::new(
            "work".to_string(),
            0,
            Some(60),
            strings(&["a", "b;c"]),
            Some(description.to_string()),
        );
        let line = fact.render().unwrap();
        assert_eq!(line.split('\t').count(), 6);
        assert_eq!(line.matches('\t').count(), 5);
        assert!(!line.contains('\n'));
        assert!(!line.contains('\r'));
    }
}

#[test]
fn a_negative_duration_is_written_with_its_sign() {
    let fact = Fact::new("work".to_string(), 600, Some(0), Vec::new(), None);
    assert_eq!(fact.render_with("S", "E"), "work\tS\tE\t-10\t\t");
}

#[test]
fn render_writes_local_timestamps() {
    let start = 1_420_106_400;
    let end = start + 90;
    let fact = Fact::new(
        "work".to_string(),
        start,
        Some(end),
        strings(&["t1", "t;2"]),
        Some("d\tx".to_string()),
    );
    let expected = format!("work\t{}\t{}\t1\tt1;t,2\td        x", local(start), local(end));
    assert_eq!(fact.render(), Some(expected));
    assert_eq!(fact.render(), Some(fact.render_with(&local(start), &local(end))));
}

#[test]
fn render_of_an_open_fact_leaves_the_end_empty() {
    let fact = Fact::new("work".to_string(), 0, None, Vec::new(), None);
    let line = fact.render().unwrap();
    let fields: Vec<&str> = line.split('\t').collect();
    assert_eq!(fields.len(), 6);
    assert_eq!(fields[0], "work");
    assert_eq!(fields[1], local(0));
    assert_eq!(fields[2], "");
    assert_eq!(fields[3], "");
    assert_eq!(fields[4], "");
    assert_eq!(fields[5], "");
}

#[test]
fn render_twice_gives_the_same_line() {
    let fact = Fact::new("work".to_string(), 1_000_000, Some(1_000_600), strings(&["a"]), None);
    assert_eq!(fact.render(), fact.render());
}

#[test]
fn a_fact_outside_the_calendar_is_not_rendered() {
    let early = Fact::new("work".to_string(), MIN_INSTANT - 1, None, Vec::new(), None);
    assert!(!early.is_renderable());
    assert_eq!(early.render(), None);
    let late_end = Fact::new("work".to_string(), 0, Some(MAX_INSTANT + 1), Vec::new(), None);
    assert!(!late_end.is_renderable());
    assert_eq!(late_end.render(), None);
}

#[test]
fn a_fact_at_the_bounds_of_the_calendar_is_rendered() {
    let fact = Fact::new("work".to_string(), MIN_INSTANT, Some(MAX_INSTANT), Vec::new(), None);
    assert!(fact.is_renderable());
    let line = fact.render().unwrap();
    assert_eq!(line.split('\t').count(), 6);
}

#[test]
fn the_activity_is_written_as_it_is() {
    let fact = Fact::new("a\tb".to_string(), 0, None, Vec::new(), None);
    assert_eq!(fact.render_with("S", ""), "a\tb\tS\t\t\t\t");
}

#[test]
fn facts_with_the_same_tags_in_another_order_are_written_alike() {
    let a = Fact::new(
        "work".to_string(),
        100,
        Some(700),
        strings(&["x;y", "b", "a"]),
        Some("d\tz".to_string()),
    );
    let b = Fact::new(
        "work".to_string(),
        100,
        Some(700),
        strings(&["a", "x;y", "b"]),
        Some("d\tz".to_string()),
    );
    let line_a = a.render_with("S", "E");
    let line_b = b.render_with("S", "E");
    let fields_a: Vec<&str> = line_a.split('\t').collect();
    let fields_b: Vec<&str> = line_b.split('\t').collect();
    for field in [0, 1, 2, 3, 5] {
        assert_eq!(fields_a[field], fields_b[field]);
    }
    let mut labels_a: Vec<&str> = fields_a[4].split(';').collect();
    let mut labels_b: Vec<&str> = fields_b[4].split(';').collect();
    labels_a.sort();
    labels_b.sort();
    assert_eq!(labels_a, vec!["a", "b", "x,y"]);
    assert_eq!(labels_a, labels_b);
}

#[test]
fn facts_that_hold_the_same_give_the_same_line() {
    let make = || Fact::new("work".to_string(), 100, Some(700), strings(&["a", "b"]), None);
    assert_eq!(make().render_with("S", "E"), make().render_with("S", "E"));
    let one = make();
    assert_eq!(one.render_with("S", "E"), one.render_with("S", "E"));
}
