use eqfit::fields::{is_marked, rows, Mark, Row, Span};

fn chars(text: &str) -> Vec<char> {
    text.chars().collect()
}

fn words(text: &str) -> Vec<(String, String)> {
    let all = chars(text);
    rows(&all)
        .iter()
        .map(|row| {
            (
                all[row.first.start..row.first.end].iter().collect::<String>(),
                all[row.second.start..row.second.end].iter().collect::<String>(),
            )
        })
        .collect()
}

fn pair(a: &str, b: &str) -> (String, String) {
    (a.to_string(), b.to_string())
}

#[test]
fn rows_of_a_plain_measurement() {
    assert_eq!(words("20 1.5\n30 -2.25\n"), vec![pair("20", "1.5"), pair("30", "-2.25")]);
}

#[test]
fn rows_give_places_in_the_text() {
    let all = chars("20 1.5\n30,2");
    assert_eq!(
        rows(&all),
        vec![
            Row { first: Span { start: 0, end: 2 }, second: Span { start: 3, end: 6 } },
            Row { first: Span { start: 7, end: 9 }, second: Span { start: 10, end: 11 } },
        ]
    );
}

#[test]
fn rows_split_at_commas_and_blanks() {
    assert_eq!(words("20,1.5\n30\t2.5\n40 , 3.5\n,,50,,4.5,,"), vec![
        pair("20", "1.5"),
        pair("30", "2.5"),
        pair("40", "3.5"),
        pair("50", "4.5"),
    ]);
}

#[test]
fn rows_take_the_first_two_fields() {
    assert_eq!(words("20 1.5 extra 7\n"), vec![pair("20", "1.5")]);
}

#[test]
fn rows_drop_lines_with_fewer_than_two_fields() {
    assert_eq!(words("frequency\n\n   \n20 1.5\n30\n,\n40 2"), vec![
        pair("20", "1.5"),
        pair("40", "2"),
    ]);
}

#[test]
fn rows_keep_fields_that_are_no_numbers() {
    assert_eq!(words("freq gain\n20 1.5"), vec![pair("freq", "gain"), pair("20", "1.5")]);
}

#[test]
fn rows_of_an_empty_text() {
    assert_eq!(rows(&chars("")), Vec::<Row>::new());
    assert_eq!(rows(&chars("\n\n")), Vec::<Row>::new());
}

#[test]
fn rows_without_a_final_line_break() {
    assert_eq!(words("20 1.5"), vec![pair("20", "1.5")]);
}

#[test]
fn rows_with_carriage_returns() {
    assert_eq!(words("20 1.5\r\n30 2.5\r\n"), vec![pair("20", "1.5"), pair("30", "2.5")]);
}

#[test]
fn rows_never_join_two_lines() {
    assert_eq!(words("20\n1.5\n"), Vec::<(String, String)>::new());
}

#[test]
fn rows_split_at_blanks_beyond_ascii() {
    assert_eq!(words("20\u{a0}1.5\n30\u{3000}2.5\n40\u{2003}3.5"), vec![
        pair("20", "1.5"),
        pair("30", "2.5"),
        pair("40", "3.5"),
    ]);
}

#[test]
fn blanks_are_the_white_space_characters() {
    for code in 0u32..0x3100 {
        if let Some(c) = char::from_u32(code) {
            assert_eq!(is_marked(Mark::Separator, c), c.is_whitespace() || c == ',');
            assert_eq!(is_marked(Mark::Field, c), !(c.is_whitespace() || c == ','));
            assert_eq!(is_marked(Mark::Newline, c), c == '\n');
        }
    }
}
