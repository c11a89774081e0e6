use fode::text::{
    chars_of, decimal_text, slice_chars, split_at_last, str_eq, str_lt, text_after_last,
    text_contains, text_first_line, text_starts_with, text_trim_char, text_trim_start_char,
    trim_space_between,
};

fn trimmed(text: &str) -> String {
    let cs = chars_of(text);
    trim_space_between(text, &cs, 0, cs.len())
}

#[test]
fn first_line_stops_at_the_line_feed() {
    assert_eq!(text_first_line("func Foo() {\n\treturn\n}"), "func Foo() {");
    assert_eq!(text_first_line("one line"), "one line");
    assert_eq!(text_first_line(""), "");
    assert_eq!(text_first_line("\nsecond"), "");
}

#[test]
fn first_line_drops_one_carriage_return_before_the_line_feed() {
    assert_eq!(text_first_line("a\r\nb"), "a");
    assert_eq!(text_first_line("a\r\r\nb"), "a\r");
    assert_eq!(text_first_line("a\r"), "a\r");
}

#[test]
fn first_line_agrees_with_the_standard_line_iterator() {
    for text in ["", "x", "x\n", "x\r\n", "\r\n", "x\ry\n", "é\nü", "a\r"] {
        assert_eq!(text_first_line(text), text.lines().next().unwrap_or(""));
    }
}

#[test]
fn after_last_takes_the_final_segment() {
    assert_eq!(text_after_last("internal/controller", '/'), "controller");
    assert_eq!(text_after_last("controller", '/'), "controller");
    assert_eq!(text_after_last("a/b/", '/'), "");
    assert_eq!(text_after_last("", '/'), "");
}

#[test]
fn split_at_last_splits_once_at_the_final_separator() {
    assert_eq!(
        split_at_last("a.b.c", '.'),
        Some(("a.b".to_string(), "c".to_string()))
    );
    assert_eq!(split_at_last(".c", '.'), Some(("".to_string(), "c".to_string())));
    assert_eq!(split_at_last("c.", '.'), Some(("c".to_string(), "".to_string())));
    assert_eq!(split_at_last("abc", '.'), None);
}

#[test]
fn trimming_a_character_strips_both_ends_only() {
    assert_eq!(text_trim_char("\"fmt\"", '"'), "fmt");
    assert_eq!(text_trim_char("\"\"a\"b\"\"", '"'), "a\"b");
    assert_eq!(text_trim_char("\"\"", '"'), "");
    assert_eq!(text_trim_char("fmt", '"'), "fmt");
    assert_eq!(text_trim_start_char("//a/b/", '/'), "a/b/");
    assert_eq!(text_trim_start_char("///", '/'), "");
}

#[test]
fn trimming_white_space_goes_by_unicode() {
    assert_eq!(trimmed("  example.com/m \t"), "example.com/m");
    assert_eq!(trimmed("\u{a0}x\u{2003}"), "x");
    assert_eq!(trimmed(" \n "), "");
    assert_eq!(trimmed("a b"), "a b");
    let cs = chars_of("x  y z  w");
    assert_eq!(trim_space_between("x  y z  w", &cs, 1, 7), "y z");
}

#[test]
fn prefix_and_containment_tests() {
    assert!(text_starts_with("module x", "module "));
    assert!(!text_starts_with("mod", "module "));
    assert!(text_starts_with("abc", ""));
    assert!(text_contains("handler", "and"));
    assert!(text_contains("handler", ""));
    assert!(text_contains("handler", "handler"));
    assert!(!text_contains("handler", "handlers"));
    assert!(!text_contains("", "a"));
    assert!(text_contains("żółw", "ół"));
}

#[test]
fn equality_and_order_of_texts() {
    assert!(str_eq("abc", "abc"));
    assert!(!str_eq("abc", "abd"));
    assert!(!str_eq("abc", "ab"));
    assert!(str_lt("a", "b"));
    assert!(str_lt("a", "ab"));
    assert!(!str_lt("ab", "a"));
    assert!(!str_lt("a", "a"));
    assert!(str_lt("", "a"));
    assert!(str_lt("Z", "a"));
    assert!(str_lt("z", "é"));
}

#[test]
fn order_of_texts_agrees_with_the_standard_order() {
    let samples = ["", "a", "ab", "b", "B", "é", "z", "zz", "日本", "main", "Main"];
    for a in samples {
        for b in samples {
            assert_eq!(str_lt(a, b), a < b);
        }
    }
}

#[test]
fn numbers_are_written_in_decimal() {
    assert_eq!(decimal_text(0), "0");
    assert_eq!(decimal_text(7), "7");
    assert_eq!(decimal_text(10), "10");
    assert_eq!(decimal_text(905), "905");
    assert_eq!(decimal_text(1234567890), "1234567890");
    assert_eq!(decimal_text(usize::MAX), usize::MAX.to_string());
}

#[test]
fn characters_and_slices() {
    assert_eq!(chars_of("héllo"), vec!['h', 'é', 'l', 'l', 'o']);
    assert_eq!(slice_chars("héllo", 1, 3), "él");
    assert_eq!(slice_chars("héllo", 0, 0), "");
}

#[test]
fn white_space_is_the_unicode_property() {
    let listed = |c: char| {
        let code = c as u32;
        (0x0009..=0x000D).contains(&code)
            || code == 0x0020
            || code == 0x0085
            || code == 0x00A0
            || code == 0x1680
            || (0x2000..=0x200A).contains(&code)
            || code == 0x2028
            || code == 0x2029
            || code == 0x202F
            || code == 0x205F
            || code == 0x3000
    };
    for code in 0..=0x10FFFFu32 {
        if let Some(c) = char::from_u32(code) {
            let text = c.to_string();
            let stripped = trimmed(&text).is_empty();
            assert_eq!(stripped, listed(c), "U+{:04X}", code);
        }
    }
}
