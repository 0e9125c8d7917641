use part_store::entity::{parse_part, Part, RawPart};
use part_store::filter::{FilterMethod, RangeFilter};
use part_store::parsing::{i64_to_string, parse_i64};
use part_store::remote::err_is_access;

#[test]
fn parse_i64_reads_plain_decimals() {
    assert_eq!(parse_i64("0"), Some(0));
    assert_eq!(parse_i64("123"), Some(123));
    assert_eq!(parse_i64("+42"), Some(42));
    assert_eq!(parse_i64("-17"), Some(-17));
    assert_eq!(parse_i64("007"), Some(7));
}

#[test]
fn parse_i64_handles_the_extremes() {
    assert_eq!(parse_i64("9223372036854775807"), Some(i64::MAX));
    assert_eq!(parse_i64("-9223372036854775808"), Some(i64::MIN));
    assert_eq!(parse_i64("9223372036854775808"), None);
    assert_eq!(parse_i64("-9223372036854775809"), None);
    assert_eq!(parse_i64("99999999999999999999999"), None);
}

#[test]
fn parse_i64_rejects_malformed_text() {
    assert_eq!(parse_i64(""), None);
    assert_eq!(parse_i64("+"), None);
    assert_eq!(parse_i64("-"), None);
    assert_eq!(parse_i64("12a"), None);
    assert_eq!(parse_i64(" 12"), None);
    assert_eq!(parse_i64("1 2"), None);
    assert_eq!(parse_i64("--1"), None);
}

#[test]
fn parse_i64_matches_the_standard_reading() {
    for text in ["0", "-1", "+250", "misc", "9223372036854775807", "12.5", ""] {
        assert_eq!(parse_i64(text), text.parse::<i64>().ok(), "on {:?}", text);
    }
}

#[test]
fn integers_write_in_canonical_decimal() {
    assert_eq!(i64_to_string(0), "0");
    assert_eq!(i64_to_string(7), "7");
    assert_eq!(i64_to_string(-7), "-7");
    assert_eq!(i64_to_string(1234567890), "1234567890");
    assert_eq!(i64_to_string(i64::MAX), "9223372036854775807");
    assert_eq!(i64_to_string(i64::MIN), "-9223372036854775808");
}

#[test]
fn written_integers_read_back() {
    for v in [0, 1, -1, 99, -100, 10_000_000_000, i64::MAX, i64::MIN] {
        assert_eq!(parse_i64(&i64_to_string(v)), Some(v));
    }
}

#[test]
fn parts_round_trip_through_the_wire_schema() {
    let part = Part {
        id: -3,
        name: String::from("task"),
        description: Some(String::from("notes")),
        deadline: Some(7200),
        completed_at: None,
        parent_id: Some(12),
    };
    let raw = part.to_raw();
    assert_eq!(raw.id, "-3");
    assert_eq!(raw.deadline.as_deref(), Some("7200"));
    assert_eq!(raw.completed_at, None);
    assert_eq!(raw.parent_id.as_deref(), Some("12"));
    assert_eq!(parse_part(&raw), Some(part));
}

#[test]
fn parse_part_reads_a_full_record() {
    let raw = RawPart {
        id: String::from("12"),
        name: String::from("task"),
        description: Some(String::from("details")),
        deadline: Some(String::from("3600")),
        completed_at: Some(String::from("-60")),
        parent_id: Some(String::from("3")),
    };
    let part = parse_part(&raw).unwrap();
    assert_eq!(part.id, 12);
    assert_eq!(part.name, "task");
    assert_eq!(part.description.as_deref(), Some("details"));
    assert_eq!(part.deadline, Some(3600));
    assert_eq!(part.completed_at, Some(-60));
    assert_eq!(part.parent_id, Some(3));
}

#[test]
fn parse_part_fails_on_any_malformed_field() {
    let good = RawPart {
        id: String::from("1"),
        name: String::from("n"),
        description: None,
        deadline: None,
        completed_at: None,
        parent_id: None,
    };
    assert!(parse_part(&good).is_some());
    let mut bad = good.clone();
    bad.id = String::from("?");
    assert!(parse_part(&bad).is_none());
    let mut bad = good.clone();
    bad.deadline = Some(String::from("noon"));
    assert!(parse_part(&bad).is_none());
    let mut bad = good.clone();
    bad.completed_at = Some(String::from("9223372036854775807"));
    assert!(parse_part(&bad).is_none());
    let mut bad = good;
    bad.parent_id = Some(String::from("4.5"));
    assert!(parse_part(&bad).is_none());
}

#[test]
fn timestamps_render_at_an_offset() {
    let part = Part {
        id: 1,
        name: String::from("n"),
        description: None,
        deadline: Some(0),
        completed_at: Some(3600),
        parent_id: None,
    };
    assert_eq!(part.deadline_to_string(0), "00:00 Jan 01, 1970");
    assert_eq!(part.deadline_to_input(0), "1970-01-01T00:00");
    assert_eq!(part.completed_at_to_string(0), "01:00 Jan 01, 1970");
    assert_eq!(part.completed_at_to_input(-3600), "1970-01-01T00:00");
    let unset = Part { deadline: None, completed_at: None, ..part };
    assert_eq!(unset.deadline_to_string(0), "");
    assert_eq!(unset.completed_at_to_input(0), "");
}

#[test]
fn form_values_read_back_as_timestamps() {
    assert_eq!(Part::dtl_from_input("1970-01-01T00:00", 0), Some(0));
    assert_eq!(Part::dtl_from_input("1970-01-01T01:00", 0), Some(3600));
    // a form filled at UTC+1 denotes an earlier instant
    assert_eq!(Part::dtl_from_input("1970-01-01T00:00", 3600), Some(-3600));
    assert_eq!(Part::dtl_from_input("not a date", 0), None);
    assert_eq!(Part::dtl_from_input("1970-01-01T00:00", 90000), None);
}

#[test]
fn filter_bounds_render_as_form_values() {
    let fm = FilterMethod {
        deadline: RangeFilter::Ranged(0, 3600),
        completed_at: RangeFilter::Unconstrained,
    };
    assert_eq!(fm.deadline_start_to_input(0), "1970-01-01T00:00");
    assert_eq!(fm.deadline_end_to_input(0), "1970-01-01T01:00");
    assert_eq!(fm.completed_at_start_to_input(0), "");
    assert_eq!(fm.completed_at_end_to_input(0), "");
    // the full-range "must be set" bounds are not calendar-representable
    let must = FilterMethod {
        deadline: RangeFilter::MustBeSet,
        completed_at: RangeFilter::MustBeSet,
    };
    assert!(must.has_deadline());
    assert!(must.all_completed());
    assert_eq!(must.deadline_start_to_input(0), "");
    assert_eq!(must.completed_at_end_to_input(0), "");
}

#[test]
fn default_policies_allow_everything() {
    let fm = FilterMethod::default();
    assert!(fm.allows_all());
    let part = Part::default();
    assert_eq!(part.id, 0);
    assert_eq!(part.name, "");
    assert!(part.parent_id.is_none());
    assert!(fm.passes_filter(&part));
}

#[test]
fn access_errors_are_recognized_by_suffix() {
    assert!(err_is_access("graphql: Access denied"));
    assert!(err_is_access("Access denied"));
    assert!(!err_is_access("Access denied."));
    assert!(!err_is_access("access denied"));
    assert!(!err_is_access(""));
    assert!(!err_is_access("denied"));
}
