use bumbling::text::{
    is_whitespace, same_text, to_chars, to_decimal, to_lower, to_lower_word, to_string,
    to_strings, to_upper, to_words, trim, FOUND_MARKER, LINE_END,
};

fn chars(s: &str) -> Vec<char> {
    s.chars().collect()
}

fn all_chars() -> impl Iterator<Item = char> {
    (0u32..=0x10ffff).filter_map(char::from_u32)
}

#[test]
fn the_marker_is_a_plus_and_the_line_end_a_newline() {
    assert_eq!(FOUND_MARKER, '+');
    assert_eq!(LINE_END, '\n');
}

#[test]
fn lowering_agrees_with_ascii_lowercase() {
    for c in all_chars() {
        assert_eq!(to_lower(c), c.to_ascii_lowercase());
    }
    assert_eq!(to_lower('A'), 'a');
    assert_eq!(to_lower('Z'), 'z');
    assert_eq!(to_lower('a'), 'a');
    assert_eq!(to_lower('@'), '@');
    assert_eq!(to_lower('['), '[');
    assert_eq!(to_lower('É'), 'É');
}

#[test]
fn raising_agrees_with_ascii_uppercase() {
    for c in all_chars() {
        assert_eq!(to_upper(c), c.to_ascii_uppercase());
    }
    assert_eq!(to_upper('a'), 'A');
    assert_eq!(to_upper('z'), 'Z');
    assert_eq!(to_upper('`'), '`');
    assert_eq!(to_upper('{'), '{');
}

#[test]
fn white_space_agrees_with_the_characters_own_test() {
    let mut count = 0;
    for c in all_chars() {
        assert_eq!(is_whitespace(c), c.is_whitespace(), "{:?}", c);
        if is_whitespace(c) {
            count += 1;
        }
    }
    assert_eq!(count, 25);
}

#[test]
fn trimming_agrees_with_the_strings_own_trim() {
    for text in [
        "",
        " ",
        "cat",
        "  cat",
        "cat  ",
        " \t\r\n cat \u{a0}\u{3000}",
        " a b ",
        "\n\n",
        "\u{2003}x\u{2028}",
        "\u{200b}x\u{200b}",
        " é ",
    ] {
        let got: String = trim(&chars(text)).into_iter().collect();
        assert_eq!(got, text.trim(), "{:?}", text);
    }
}

#[test]
fn strings_and_characters_pass_into_each_other() {
    for text in ["", "cat", "cat+\ndog\n", "日本語 é"] {
        assert_eq!(to_chars(text), chars(text));
        assert_eq!(to_string(&chars(text)), text);
    }
    let words = vec!["cat".to_string(), "".to_string(), "é+".to_string()];
    let lists = to_words(&words);
    assert_eq!(lists, vec![chars("cat"), chars(""), chars("é+")]);
    assert_eq!(to_strings(&lists), words);
}

#[test]
fn a_word_is_lowered_character_by_character() {
    let got: String = to_lower_word(&chars("CaT+É")).into_iter().collect();
    assert_eq!(got, "cat+É");
}

#[test]
fn texts_are_the_same_when_their_characters_are() {
    assert!(same_text("", ""));
    assert!(same_text("id", "id"));
    assert!(!same_text("id", "ID"));
    assert!(!same_text("id", "idx"));
    assert!(!same_text("idx", "id"));
    assert!(!same_text("ia", "id"));
}

#[test]
fn numbers_are_written_in_decimal() {
    for n in [0usize, 1, 9, 10, 11, 99, 100, 101, 12345, 1_000_000, usize::MAX] {
        let got: String = to_decimal(n).into_iter().collect();
        assert_eq!(got, n.to_string());
    }
}
