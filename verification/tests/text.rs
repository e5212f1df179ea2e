use async_tqsm::budget::fits_scan_budget;
use async_tqsm::text::{slice_text, split_text, trim_text};

#[test]
fn split_text_cuts_at_a_byte_offset() {
    assert_eq!(split_text("Hello there", 5), Some(("Hello", " there")));
    assert_eq!(split_text("Hello", 0), Some(("", "Hello")));
    assert_eq!(split_text("Hello", 5), Some(("Hello", "")));
}

#[test]
fn split_text_refuses_an_offset_behind_the_end() {
    assert_eq!(split_text("Hello", 6), None);
    assert_eq!(split_text("", 1), None);
}

#[test]
fn split_text_refuses_an_offset_inside_a_character() {
    // 'é' takes the bytes 1 and 2.
    assert_eq!(split_text("héllo", 2), None);
    assert_eq!(split_text("héllo", 1), Some(("h", "éllo")));
    assert_eq!(split_text("héllo", 3), Some(("hé", "llo")));
}

#[test]
fn slice_text_takes_the_part_between_two_offsets() {
    assert_eq!(slice_text("Hello there", 2, 7), Some("llo t"));
    assert_eq!(slice_text("héllo", 1, 3), Some("é"));
    assert_eq!(slice_text("héllo", 3, 3), Some(""));
    assert_eq!(slice_text("héllo", 0, 6), Some("héllo"));
}

#[test]
fn slice_text_refuses_offsets_that_do_not_fit() {
    assert_eq!(slice_text("héllo", 3, 1), None);
    assert_eq!(slice_text("héllo", 2, 3), None);
    assert_eq!(slice_text("héllo", 1, 2), None);
    assert_eq!(slice_text("héllo", 1, 7), None);
}

#[test]
fn trim_text_removes_spaces_at_both_ends() {
    assert_eq!(trim_text("  How are you?  "), "How are you?");
    assert_eq!(trim_text(" a b "), "a b");
    assert_eq!(trim_text("plain"), "plain");
    assert_eq!(trim_text("x "), "x");
    assert_eq!(trim_text(" x"), "x");
}

#[test]
fn trim_text_of_nothing_but_spaces_is_empty() {
    assert_eq!(trim_text(""), "");
    assert_eq!(trim_text(" "), "");
    assert_eq!(trim_text("     "), "");
}

#[test]
fn trim_text_leaves_other_white_space() {
    assert_eq!(trim_text("\tline\n"), "\tline\n");
    assert_eq!(trim_text(" \tline\n "), "\tline\n");
    assert_eq!(trim_text("\u{a0}wide\u{a0}"), "\u{a0}wide\u{a0}");
}

#[test]
fn trim_text_counts_characters_not_bytes() {
    assert_eq!(trim_text("  é ü  "), "é ü");
    assert_eq!(trim_text(" 日本語 "), "日本語");
}

#[test]
fn trim_text_agrees_with_the_standard_library() {
    for text in ["", " ", "a", " a", "a ", "  a  b  ", " . ", "é ", " \n "] {
        assert_eq!(trim_text(text), text.trim_matches(' '));
    }
}

#[test]
fn plain_text_fits_the_scan_budget() {
    assert!(fits_scan_budget(""));
    assert!(fits_scan_budget("Hello Mr. Smith. How are you today?"));
    assert!(fits_scan_budget(&"a".repeat(8192)));
    // 3 * 333332 + 3 = 999999
    assert!(fits_scan_budget(&"a".repeat(333_332)));
    assert!(!fits_scan_budget(&"a".repeat(333_333)));
}

#[test]
fn closed_brackets_cost_nothing() {
    assert!(fits_scan_budget(&format!("{}{}", "(a) ".repeat(30), "a".repeat(8192 - 120))));
    assert!(fits_scan_budget(&"(a)".repeat(2700)));
    assert!(fits_scan_budget(&"[a} {b] <c）".repeat(700)));
    assert!(fits_scan_budget(&format!("{})", "(".repeat(1500))));
    assert!(fits_scan_budget(&format!("<{})", "\\<".repeat(30))));
}

#[test]
fn open_brackets_are_charged_to_the_end_of_their_line() {
    // 997 * 997 + 6 * 997 + 3 = 999994, and 998 * 998 + 6 * 998 + 3 = 1001995
    assert!(fits_scan_budget(&"<".repeat(997)));
    assert!(!fits_scan_budget(&"<".repeat(998)));
    assert!(!fits_scan_budget(&"(".repeat(3000)));
    // A bracket is not closed from the next line.
    assert!(!fits_scan_budget(&format!("{}\n)", "(".repeat(998))));
    assert!(fits_scan_budget(&format!("{})\n", "(".repeat(998))));
    // Three lines of 570 come to 984969, three of 575 to 1002234.
    assert!(fits_scan_budget(&["<".repeat(570), "<".repeat(570), "<".repeat(570)].join("\n")));
    assert!(!fits_scan_budget(&["<".repeat(575), "<".repeat(575), "<".repeat(575)].join("\n")));
    // An angle bracket is never closed by its partner.
    assert!(!fits_scan_budget(&"<p>text</p> ".repeat(600)));
    assert!(fits_scan_budget(&"<p>text</p>\n".repeat(600)));
}

#[test]
fn full_width_brackets_count_and_other_full_width_signs_do_not() {
    assert!(fits_scan_budget(&"（".repeat(400)));
    assert!(!fits_scan_budget(&"（".repeat(600)));
    assert!(fits_scan_budget(&"（）".repeat(2000)));
    assert!(fits_scan_budget(&"，".repeat(2000)));
}

#[test]
fn escaped_brackets_double_the_charge_of_an_open_bracket() {
    // 852056 with thirteen escaped brackets behind the open one.
    assert!(fits_scan_budget(&format!("<{}", "\\<".repeat(13))));
    assert!(!fits_scan_budget(&format!("<{}", "\\<".repeat(14))));
    assert!(!fits_scan_budget(&format!("({}", "\\(".repeat(22))));
}

#[test]
fn other_backslashes_cost_nothing() {
    assert!(fits_scan_budget(&format!("(see C:{}", "\\dir".repeat(40))));
    assert!(fits_scan_budget(&"\\".repeat(4000)));
    // A backslash at the very end escapes nothing.
    assert!(fits_scan_budget("(\\"));
}
