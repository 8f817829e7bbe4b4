use eqfit::report::{describe, push_decimal, push_filter_line, Entry};

fn entry(rank: i64, center: &str, gain: &str, quality: &str) -> Entry {
    Entry {
        rank,
        center: center.to_string(),
        gain: gain.to_string(),
        quality: quality.to_string(),
    }
}

fn decimal(n: usize) -> String {
    let mut out = String::new();
    push_decimal(&mut out, n);
    out
}

#[test]
fn describe_one_filter() {
    let bank = vec![entry(1000, "1000", "3", "1")];
    assert_eq!(describe("-3", &bank), "Preamp: -3 dB\nFilter 1: ON PK Fc 1000 Hz Gain 3 dB Q 1");
}

#[test]
fn describe_orders_filters_by_centre() {
    let bank = vec![
        entry(2000, "2000", "1.5", "0.7"),
        entry(150, "150", "-4", "2"),
        entry(9000, "9000", "0.25", "5"),
    ];
    assert_eq!(
        describe("-1.5", &bank),
        "Preamp: -1.5 dB\n\
         Filter 1: ON PK Fc 150 Hz Gain -4 dB Q 2\n\
         Filter 2: ON PK Fc 2000 Hz Gain 1.5 dB Q 0.7\n\
         Filter 3: ON PK Fc 9000 Hz Gain 0.25 dB Q 5"
    );
}

#[test]
fn describe_keeps_filters_of_one_centre_in_their_order() {
    let bank = vec![
        entry(500, "500", "2", "1"),
        entry(100, "100", "0", "1"),
        entry(500, "500", "-2", "3"),
    ];
    assert_eq!(
        describe("0", &bank),
        "Preamp: 0 dB\n\
         Filter 1: ON PK Fc 100 Hz Gain 0 dB Q 1\n\
         Filter 2: ON PK Fc 500 Hz Gain 2 dB Q 1\n\
         Filter 3: ON PK Fc 500 Hz Gain -2 dB Q 3"
    );
}

#[test]
fn describe_an_empty_bank() {
    assert_eq!(describe("0", &Vec::new()), "Preamp: 0 dB\n");
}

#[test]
fn describe_numbers_past_nine() {
    let mut bank: Vec<Entry> = Vec::new();
    for i in 0..12 {
        bank.push(entry(100 - i, "c", "g", "q"));
    }
    let text = describe("0", &bank);
    let lines: Vec<&str> = text.split('\n').collect();
    assert_eq!(lines.len(), 13);
    assert_eq!(lines[9], "Filter 9: ON PK Fc c Hz Gain g dB Q q");
    assert_eq!(lines[10], "Filter 10: ON PK Fc c Hz Gain g dB Q q");
    assert_eq!(lines[12], "Filter 12: ON PK Fc c Hz Gain g dB Q q");
}

#[test]
fn filter_line_is_appended() {
    let mut out = String::from("> ");
    push_filter_line(&mut out, 20, &entry(0, "2000", "1", "1"));
    assert_eq!(out, "> Filter 20: ON PK Fc 2000 Hz Gain 1 dB Q 1");
}

#[test]
fn decimal_digits() {
    assert_eq!(decimal(0), "0");
    assert_eq!(decimal(7), "7");
    assert_eq!(decimal(10), "10");
    assert_eq!(decimal(109), "109");
    assert_eq!(decimal(1234567890), "1234567890");
    assert_eq!(decimal(usize::MAX), usize::MAX.to_string());
}
