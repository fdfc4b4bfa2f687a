use hamster_export::text::{clear_tabs, decimal, replace_semicolons};

#[test]
fn clear_tabs_widens_tabs_drops_returns_and_marks_newlines() {
    assert_eq!(clear_tabs("a\tb\rc\nd"), "a        bc\\\\d");
}

#[test]
fn clear_tabs_turns_a_tab_into_eight_spaces() {
    let out = clear_tabs("\t");
    assert_eq!(out, "        ");
    assert_eq!(out.len(), 8);
}

#[test]
fn clear_tabs_turns_a_newline_into_two_backslashes() {
    let out = clear_tabs("\n");
    assert_eq!(out.chars().collect::<Vec<char>>(), vec!['\\', '\\']);
}

#[test]
fn clear_tabs_removes_carriage_returns() {
    assert_eq!(clear_tabs("\r\r"), "");
    assert_eq!(clear_tabs("a\r\nb"), "a\\\\b");
}

#[test]
fn clear_tabs_keeps_other_text() {
    assert_eq!(clear_tabs(""), "");
    assert_eq!(clear_tabs("plain text; with, marks"), "plain text; with, marks");
    assert_eq!(clear_tabs("caf\u{e9} \\ \u{1F600}"), "caf\u{e9} \\ \u{1F600}");
}

#[test]
fn clear_tabs_leaves_nothing_that_breaks_a_field() {
    let out = clear_tabs("\t\ta\n\r\n\tb\r");
    assert!(!out.contains('\t'));
    assert!(!out.contains('\r'));
    assert!(!out.contains('\n'));
}

#[test]
fn clear_tabs_agrees_with_three_replacements() {
    let samples = ["", "a\tb\rc\nd", "\\\n\\", "\r\n\t", "x\ty\tz", "no specials"];
    for sample in samples {
        let expected = sample.replace("\t", "        ").replace("\r", "").replace("\n", "\\\\");
        assert_eq!(clear_tabs(sample), expected);
    }
}

#[test]
fn replace_semicolons_puts_commas() {
    assert_eq!(replace_semicolons("x;y"), "x,y");
    assert_eq!(replace_semicolons(";;"), ",,");
    assert_eq!(replace_semicolons("a,b;c"), "a,b,c");
}

#[test]
fn replace_semicolons_keeps_other_text() {
    assert_eq!(replace_semicolons(""), "");
    assert_eq!(replace_semicolons("tag"), "tag");
    assert_eq!(replace_semicolons("a\tb"), "a\tb");
}

#[test]
fn decimal_writes_small_numbers() {
    assert_eq!(decimal(0), "0");
    assert_eq!(decimal(1), "1");
    assert_eq!(decimal(9), "9");
    assert_eq!(decimal(10), "10");
    assert_eq!(decimal(90), "90");
    assert_eq!(decimal(1234567890), "1234567890");
}

#[test]
fn decimal_writes_negative_numbers() {
    assert_eq!(decimal(-1), "-1");
    assert_eq!(decimal(-10), "-10");
    assert_eq!(decimal(-907), "-907");
}

#[test]
fn decimal_writes_the_limits() {
    assert_eq!(decimal(i64::MAX), "9223372036854775807");
    assert_eq!(decimal(i64::MIN), "-9223372036854775808");
}

#[test]
fn decimal_agrees_with_the_standard_notation() {
    let samples = [0i64, 5, -5, 60, 99, 100, 101, -100, 1 << 40, -(1 << 40), i64::MAX, i64::MIN];
    for sample in samples {
        assert_eq!(decimal(sample), format!("{}", sample));
    }
}
