use bumbling::codec::{deserialize, read_words, serialize, split};
use bumbling::ledger::FoundLedger;
use bumbling::puzzle::lines;

fn entry(word: &str, found: bool) -> (String, bool) {
    (word.to_string(), found)
}

fn chars(s: &str) -> Vec<char> {
    s.chars().collect()
}

#[test]
fn save_round_trip_of_two_words() {
    let mut ledger = FoundLedger::new();
    ledger.insert("dog", false);
    ledger.insert("cat", true);
    let text = serialize(&ledger);
    assert_eq!(text, "cat+\ndog\n");
    let back = deserialize(&text);
    assert_eq!(back.iter_ordered(), ledger.iter_ordered());
    assert_eq!(back.iter_ordered(), vec![entry("cat", true), entry("dog", false)]);
}

#[test]
fn an_empty_ledger_saves_as_nothing() {
    let ledger = FoundLedger::new();
    assert_eq!(serialize(&ledger), "");
    let back = deserialize("");
    assert_eq!(back.total(), 0);
}

#[test]
fn the_empty_word_is_left_out_of_the_save_text() {
    let mut ledger = FoundLedger::new();
    ledger.insert("", true);
    ledger.insert("cat", false);
    assert_eq!(serialize(&ledger), "cat\n");
    let mut ledger = FoundLedger::new();
    ledger.insert("", false);
    assert_eq!(serialize(&ledger), "");
}

#[test]
fn lines_are_read_as_words_and_markers_as_flags() {
    let ledger = deserialize("dog\ncat+\n\nemu");
    assert_eq!(
        ledger.iter_ordered(),
        vec![entry("cat", true), entry("dog", false), entry("emu", false)]
    );
}

#[test]
fn every_marker_at_the_end_is_taken_off() {
    let ledger = deserialize("cat++\ndog+++\n");
    assert_eq!(ledger.iter_ordered(), vec![entry("cat", true), entry("dog", true)]);
}

#[test]
fn a_marker_inside_a_word_stays() {
    let ledger = deserialize("c+at\n");
    assert_eq!(ledger.iter_ordered(), vec![entry("c+at", false)]);
}

#[test]
fn a_line_of_markers_gives_the_empty_word() {
    let ledger = deserialize("+\ncat\n");
    assert_eq!(ledger.iter_ordered(), vec![entry("", true), entry("cat", false)]);
    assert_eq!(serialize(&ledger), "cat\n");
}

#[test]
fn of_two_equal_lines_the_later_decides() {
    let ledger = deserialize("cat+\ncat\n");
    assert_eq!(ledger.iter_ordered(), vec![entry("cat", false)]);
    let ledger = deserialize("cat\nCat+\n");
    assert_eq!(ledger.iter_ordered(), vec![entry("cat", true)]);
}

#[test]
fn a_text_has_one_line_more_than_line_ends() {
    assert_eq!(lines(""), vec![""]);
    assert_eq!(lines("a"), vec!["a"]);
    assert_eq!(lines("a\n"), vec!["a", ""]);
    assert_eq!(lines("a\nb"), vec!["a", "b"]);
    assert_eq!(lines("\n"), vec!["", ""]);
    assert_eq!(lines("\n\na\n\n"), vec!["", "", "a", "", ""]);
    assert_eq!(lines("a\r\nb"), vec!["a\r", "b"]);
}

#[test]
fn lines_agree_with_split() {
    for text in ["", "\n", "cat+\ndog\n", "a\n\nb", "x", "é\n日本\n", "\n\n\n", "ab\ncd\nef"] {
        let expected: Vec<String> = text.split("\n").map(|l| l.to_string()).collect();
        assert_eq!(lines(text), expected);
        let pieces: Vec<String> =
            split(&chars(text)).into_iter().map(|l| l.into_iter().collect()).collect();
        assert_eq!(pieces, expected);
    }
}

#[test]
fn words_are_read_in_order() {
    let list: Vec<Vec<char>> = ["dog", "", "Cat+", "dog+"].iter().map(|w| chars(w)).collect();
    let ledger = read_words(&list);
    assert_eq!(ledger.iter_ordered(), vec![entry("cat", true), entry("dog", true)]);
}

#[test]
fn saving_and_reading_gives_the_ledger_back() {
    let mut ledger = FoundLedger::new();
    let words = [
        "bumbling", "bling", "big", "glib", "lung", "mug", "numb", "limb", "bulb", "gull", "gum",
        "a", "zz",
    ];
    for (i, word) in words.iter().enumerate() {
        ledger.insert(word, i % 2 == 0);
    }
    let text = serialize(&ledger);
    let back = deserialize(&text);
    assert_eq!(back.iter_ordered(), ledger.iter_ordered());
    assert_eq!(back.count_found(), ledger.count_found());
    assert_eq!(serialize(&back), text);
    assert_eq!(text.lines().count(), words.len());
    assert!(text.ends_with('\n'));
}
