//! Tests for the per-category duration accounting, the classifier-line
//! escaping, and the ledger line bookkeeping.

use star::{escape_opt_str, CategoryDurationCounter, LineCounts, UniqueCategories};

fn names(list: &[&str]) -> Vec<String> {
    list.iter().map(|s| String::from(*s)).collect()
}

#[test]
fn unique_categories_reject_duplicates() {
    assert!(UniqueCategories::from_unique(names(&["work", "play"])).is_ok());
    match UniqueCategories::from_unique(names(&["work", "play", "work"])) {
        Err(j) => assert_eq!(j, 2),
        Ok(_) => panic!("a duplicate must be reported"),
    }
}

#[test]
fn counter_records_into_current_category() {
    let cats = UniqueCategories::from_unique(names(&["work", "play"])).expect("unique");
    let mut counter = CategoryDurationCounter::new(cats, 1000);
    assert_eq!(counter.durations().as_slice(), &[0, 0]);

    // no category active: time passes unaccounted
    counter.record_current_duration(1500);
    assert_eq!(counter.durations().as_slice(), &[0, 0]);

    counter.category_changed(Some(&String::from("work")), 2000);
    counter.record_current_duration(2700);
    assert_eq!(counter.durations().as_slice(), &[700, 0]);

    // switching folds the running time into the previous category first
    counter.category_changed(Some(&String::from("play")), 3000);
    assert_eq!(counter.durations().as_slice(), &[1000, 0]);
    counter.category_changed(None, 3250);
    assert_eq!(counter.durations().as_slice(), &[1000, 250]);

    counter.reset_durations();
    assert_eq!(counter.durations().as_slice(), &[0, 0]);

    counter.set_durations(vec![40, 2]);
    assert_eq!(counter.durations().as_slice(), &[40, 2]);
}

#[test]
fn escaping_replaces_tabs_and_newlines() {
    let text: Vec<u8> = b"a\tb\nc".to_vec();
    assert_eq!(escape_opt_str(Some(&text)), b"a b c".to_vec());
    assert_eq!(escape_opt_str(None), Vec::<u8>::new());
    let clean: Vec<u8> = b"plain".to_vec();
    assert_eq!(escape_opt_str(Some(&clean)), b"plain".to_vec());
}

#[test]
fn line_counts_track_the_last_line() {
    let mut counts = LineCounts::new();
    assert_eq!(counts.cursor(), 0);
    counts.advance(10);
    assert_eq!(counts.cursor(), 10);
    assert_eq!(counts.last_line_start_offset, 0);
    counts.advance(4);
    assert_eq!(counts.last_line_start_offset, 10);
    assert_eq!(counts.cursor(), 14);
    assert_eq!(counts.line_nb, 2);
    counts.ignore_last_line();
    assert_eq!(counts.last_line_start_offset, 14);
    assert_eq!(counts.last_line_len, 0);
    assert_eq!(counts.cursor(), 14);
}

#[test]
fn entry_line_codec_round_trips() {
    let line = star::format_entry_line(b"2024-05-01T00:00:00Z", &vec![0, 61, 3600]);
    assert_eq!(line, b"2024-05-01T00:00:00Z\t0\t61\t3600\n".to_vec());

    let body = &line[..line.len() - 1];
    let fields = star::split_tabs(body);
    assert_eq!(fields.len(), 4);
    assert_eq!(fields[0], b"2024-05-01T00:00:00Z".to_vec());
    let seconds = star::parse_seconds(&fields, 1).expect("numeric fields");
    assert_eq!(seconds, vec![0, 61, 3600]);
}

#[test]
fn decimal_codec_exact_values() {
    assert_eq!(star::format_u64(0), b"0".to_vec());
    assert_eq!(star::format_u64(18446744073709551615), b"18446744073709551615".to_vec());
    assert_eq!(star::parse_u64(b"12034"), Some(12034));
    assert_eq!(star::parse_u64(b""), None);
    assert_eq!(star::parse_u64(b"12x4"), None);
    // one past the largest representable value
    assert_eq!(star::parse_u64(b"18446744073709551616"), None);
    assert_eq!(star::parse_u64(b"18446744073709551615"), Some(u64::MAX));
}

#[test]
fn split_tabs_keeps_empty_fields() {
    let fields = star::split_tabs(b"a\t\tbc");
    assert_eq!(fields.len(), 3);
    assert_eq!(fields[0], b"a".to_vec());
    assert_eq!(fields[1], Vec::<u8>::new());
    assert_eq!(fields[2], b"bc".to_vec());
    assert_eq!(star::split_tabs(b"").len(), 1);
}

#[test]
fn classifier_line_is_tab_separated_and_escaped() {
    let title: Vec<u8> = b"a\ttitle".to_vec();
    let class: Vec<u8> = b"term\ninal".to_vec();
    let line = star::classifier_line(17, Some(&title), Some(&class));
    assert_eq!(line, b"17\ta title\tterm inal\n".to_vec());
    let line = star::classifier_line(3, None, None);
    assert_eq!(line, b"3\t\t\n".to_vec());
}
