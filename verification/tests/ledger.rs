use bumbling::ledger::{order, FoundLedger, Order};

fn chars(s: &str) -> Vec<char> {
    s.chars().collect()
}

fn listing(ledger: &FoundLedger) -> Vec<(String, bool)> {
    ledger.iter_ordered()
}

fn entry(word: &str, found: bool) -> (String, bool) {
    (word.to_string(), found)
}

#[test]
fn a_new_ledger_is_empty() {
    let ledger = FoundLedger::new();
    assert_eq!(ledger.total(), 0);
    assert_eq!(ledger.count_found(), 0);
    assert!(listing(&ledger).is_empty());
    assert!(!ledger.contains("cat"));
    assert_eq!(ledger.is_found("cat"), None);
}

#[test]
fn words_are_listed_in_lexicographic_order() {
    let mut ledger = FoundLedger::new();
    for word in ["dog", "cat", "b", "ab", "a", "cow", "catch", "abc"] {
        ledger.insert(word, false);
    }
    let words: Vec<String> = listing(&ledger).into_iter().map(|e| e.0).collect();
    assert_eq!(words, vec!["a", "ab", "abc", "b", "cat", "catch", "cow", "dog"]);
    let mut sorted = words.clone();
    sorted.sort();
    assert_eq!(words, sorted);
    assert_eq!(ledger.total(), 8);
}

#[test]
fn a_word_stands_once_and_the_later_flag_stays() {
    let mut ledger = FoundLedger::new();
    ledger.insert("cat", false);
    ledger.insert("cat", true);
    assert_eq!(listing(&ledger), vec![entry("cat", true)]);
    ledger.insert("cat", false);
    assert_eq!(listing(&ledger), vec![entry("cat", false)]);
    assert_eq!(ledger.total(), 1);
}

#[test]
fn capitals_are_made_small_on_entry() {
    let mut ledger = FoundLedger::new();
    ledger.insert("Cat", false);
    ledger.insert("CAT", true);
    ledger.insert("dOg", false);
    assert_eq!(listing(&ledger), vec![entry("cat", true), entry("dog", false)]);
    assert!(ledger.contains("cat"));
    assert!(!ledger.contains("Cat"));
}

#[test]
fn marking_an_unknown_word_changes_nothing() {
    let mut ledger = FoundLedger::new();
    ledger.insert("cat", true);
    ledger.insert("dog", false);
    let before = listing(&ledger);
    assert!(!ledger.mark_found("cow"));
    assert!(!ledger.mark_found(""));
    assert!(!ledger.mark_found("ca"));
    assert!(!ledger.mark_found("cats"));
    assert!(!ledger.mark_found("DOG"));
    assert_eq!(listing(&ledger), before);
    assert_eq!(ledger.count_found(), 1);
    assert_eq!(ledger.total(), 2);
}

#[test]
fn marking_an_unfound_word_adds_one_and_once_more_adds_nothing() {
    let mut ledger = FoundLedger::new();
    ledger.insert("cat", true);
    ledger.insert("dog", false);
    ledger.insert("emu", false);
    assert_eq!(ledger.count_found(), 1);
    assert!(ledger.mark_found("dog"));
    assert_eq!(ledger.count_found(), 2);
    assert_eq!(ledger.is_found("dog"), Some(true));
    assert!(!ledger.mark_found("dog"));
    assert_eq!(ledger.count_found(), 2);
    assert_eq!(ledger.total(), 3);
    assert_eq!(
        listing(&ledger),
        vec![entry("cat", true), entry("dog", true), entry("emu", false)]
    );
}

#[test]
fn marking_a_found_word_says_no() {
    let mut ledger = FoundLedger::new();
    ledger.insert("cat", true);
    assert!(!ledger.mark_found("cat"));
    assert_eq!(ledger.is_found("cat"), Some(true));
    assert_eq!(ledger.count_found(), 1);
}

#[test]
fn entries_are_reached_by_place() {
    let mut ledger = FoundLedger::new();
    ledger.insert("dog", false);
    ledger.insert("cat", true);
    assert_eq!(ledger.entry(0), entry("cat", true));
    assert_eq!(ledger.entry(1), entry("dog", false));
}

#[test]
fn the_empty_word_can_be_entered() {
    let mut ledger = FoundLedger::new();
    ledger.insert("b", false);
    ledger.insert("", true);
    assert_eq!(listing(&ledger), vec![entry("", true), entry("b", false)]);
    assert_eq!(ledger.count_found(), 1);
}

#[test]
fn order_is_that_of_the_characters() {
    assert!(matches!(order(&chars("a"), &chars("b")), Order::Before));
    assert!(matches!(order(&chars("b"), &chars("a")), Order::After));
    assert!(matches!(order(&chars("ab"), &chars("ab")), Order::Same));
    assert!(matches!(order(&chars(""), &chars("")), Order::Same));
    assert!(matches!(order(&chars(""), &chars("a")), Order::Before));
    assert!(matches!(order(&chars("a"), &chars("")), Order::After));
    assert!(matches!(order(&chars("ab"), &chars("abc")), Order::Before));
    assert!(matches!(order(&chars("abd"), &chars("abc")), Order::After));
    assert!(matches!(order(&chars("Z"), &chars("a")), Order::Before));
}

#[test]
fn order_agrees_with_the_order_of_strings() {
    let samples = [
        "", "a", "A", "ab", "abc", "abd", "b", "z", "zebra", "+", "a+", "é", "e", "ez", "日本",
        "日", "\u{10ffff}", "\u{e000}", "\u{d7ff}", "~", " ",
    ];
    for a in samples {
        for b in samples {
            let got = order(&chars(a), &chars(b));
            if a < b {
                assert!(matches!(got, Order::Before), "{a:?} {b:?}");
            } else if a == b {
                assert!(matches!(got, Order::Same), "{a:?} {b:?}");
            } else {
                assert!(matches!(got, Order::After), "{a:?} {b:?}");
            }
        }
    }
}

#[test]
fn many_words_stay_sorted_and_counted() {
    let mut ledger = FoundLedger::new();
    let mut expected: Vec<String> = Vec::new();
    let mut seed: u32 = 12345;
    for _ in 0..500 {
        seed = seed.wrapping_mul(1103515245).wrapping_add(12345);
        let len = 1 + (seed >> 16) % 4;
        let mut word = String::new();
        for k in 0..len {
            seed = seed.wrapping_mul(1103515245).wrapping_add(12345);
            word.push((b'a' + ((seed >> 16) % 5) as u8 + (k % 2) as u8) as char);
        }
        ledger.insert(&word, false);
        expected.push(word);
    }
    expected.sort();
    expected.dedup();
    let words: Vec<String> = listing(&ledger).into_iter().map(|e| e.0).collect();
    assert_eq!(words, expected);
    assert_eq!(ledger.total(), expected.len());
    let mut marked = 0;
    for (i, word) in expected.iter().enumerate() {
        if i % 3 == 0 {
            assert!(ledger.mark_found(word));
            marked += 1;
        }
    }
    assert_eq!(ledger.count_found(), marked);
    for (i, word) in expected.iter().enumerate() {
        assert_eq!(ledger.is_found(word), Some(i % 3 == 0));
    }
}
