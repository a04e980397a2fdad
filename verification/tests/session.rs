use bumbling::ledger::FoundLedger;
use bumbling::letters::LetterSet;
use bumbling::session::{Event, Key, Session};

fn session() -> Session {
    let letters = LetterSet::new(['g', 'b', 'i', 'l', 'm', 'n', 'u']).expect("valid letters");
    let mut ledger = FoundLedger::new();
    ledger.insert("bling", false);
    ledger.insert("big", true);
    ledger.insert("mug", false);
    Session::new(letters, ledger)
}

fn text(s: &str) -> Event {
    Event::TextInput(s.to_string())
}

fn key(key: Key) -> Event {
    Event::KeyDown { key, repeat: false }
}

#[test]
fn a_new_session_runs_with_an_empty_guess() {
    let s = session();
    assert!(s.is_running());
    assert_eq!(s.guess(), "");
    assert_eq!(s.letters().center(), 'g');
    assert_eq!(s.ledger().total(), 3);
    assert_eq!(s.ledger().count_found(), 1);
}

#[test]
fn typed_letters_of_the_puzzle_join_the_guess() {
    let mut s = session();
    s.handle(&text("m"));
    s.handle(&text("ug"));
    assert_eq!(s.guess(), "mug");
}

#[test]
fn other_characters_are_dropped() {
    let mut s = session();
    s.handle(&text("maxug!? 1é"));
    assert_eq!(s.guess(), "mug");
    s.handle(&text(""));
    assert_eq!(s.guess(), "mug");
    s.handle(&text("xyz"));
    assert_eq!(s.guess(), "mug");
}

#[test]
fn capitals_are_typed_as_small_letters() {
    let mut s = session();
    s.handle(&text("MuG"));
    assert_eq!(s.guess(), "mug");
    s.handle(&text("A"));
    assert_eq!(s.guess(), "mug");
}

#[test]
fn backspace_takes_the_last_character() {
    let mut s = session();
    s.handle(&text("mug"));
    s.handle(&key(Key::Backspace));
    assert_eq!(s.guess(), "mu");
    s.handle(&key(Key::Backspace));
    s.handle(&key(Key::Backspace));
    assert_eq!(s.guess(), "");
    s.handle(&key(Key::Backspace));
    assert_eq!(s.guess(), "");
}

#[test]
fn return_on_an_answer_marks_it_and_empties_the_guess() {
    let mut s = session();
    s.handle(&text("mug"));
    s.handle(&key(Key::Return));
    assert_eq!(s.guess(), "");
    assert_eq!(s.ledger().is_found("mug"), Some(true));
    assert_eq!(s.ledger().count_found(), 2);
    assert_eq!(s.ledger().total(), 3);
}

#[test]
fn return_on_anything_else_leaves_the_guess() {
    let mut s = session();
    s.handle(&text("mu"));
    s.handle(&key(Key::Return));
    assert_eq!(s.guess(), "mu");
    assert_eq!(s.ledger().count_found(), 1);
    s.handle(&text("gg"));
    s.handle(&key(Key::Return));
    assert_eq!(s.guess(), "mugg");
    assert_eq!(s.ledger().count_found(), 1);
}

#[test]
fn return_on_an_empty_guess_does_nothing() {
    let mut s = session();
    s.handle(&key(Key::Return));
    assert_eq!(s.guess(), "");
    assert_eq!(s.ledger().count_found(), 1);
}

#[test]
fn return_on_a_found_answer_empties_the_guess() {
    let mut s = session();
    s.handle(&text("big"));
    s.handle(&key(Key::Return));
    assert_eq!(s.guess(), "");
    assert_eq!(s.ledger().count_found(), 1);
}

#[test]
fn escape_empties_the_guess() {
    let mut s = session();
    s.handle(&text("bli"));
    s.handle(&key(Key::Escape));
    assert_eq!(s.guess(), "");
    s.handle(&key(Key::Escape));
    assert_eq!(s.guess(), "");
}

#[test]
fn a_repeating_key_does_nothing() {
    let mut s = session();
    s.handle(&text("mug"));
    s.handle(&Event::KeyDown { key: Key::Backspace, repeat: true });
    assert_eq!(s.guess(), "mug");
    s.handle(&Event::KeyDown { key: Key::Escape, repeat: true });
    assert_eq!(s.guess(), "mug");
    s.handle(&Event::KeyDown { key: Key::Return, repeat: true });
    assert_eq!(s.guess(), "mug");
    assert_eq!(s.ledger().count_found(), 1);
}

#[test]
fn other_keys_and_events_do_nothing() {
    let mut s = session();
    s.handle(&text("mug"));
    s.handle(&key(Key::Other));
    s.handle(&Event::Other);
    assert_eq!(s.guess(), "mug");
    assert!(s.is_running());
}

#[test]
fn quit_stops_the_session_for_good() {
    let mut s = session();
    s.handle(&text("mug"));
    s.handle(&Event::Quit);
    assert!(!s.is_running());
    s.handle(&key(Key::Return));
    s.handle(&text("g"));
    s.handle(&key(Key::Escape));
    assert_eq!(s.guess(), "mug");
    assert_eq!(s.ledger().count_found(), 1);
    assert!(!s.is_running());
}

#[test]
fn control_takes_the_events_of_a_turn_in_order() {
    let mut s = session();
    let goes_on = s.control(&vec![
        text("bl"),
        text("ing"),
        key(Key::Return),
        text("mux"),
        key(Key::Backspace),
    ]);
    assert!(goes_on);
    assert_eq!(s.guess(), "m");
    assert_eq!(s.ledger().is_found("bling"), Some(true));
    assert!(s.control(&vec![]));
    assert_eq!(s.guess(), "m");
}

#[test]
fn control_stops_at_a_quit_event() {
    let mut s = session();
    let goes_on = s.control(&vec![text("mug"), Event::Quit, key(Key::Return), text("g")]);
    assert!(!goes_on);
    assert_eq!(s.guess(), "mug");
    assert_eq!(s.ledger().is_found("mug"), Some(false));
    assert!(!s.control(&vec![text("b")]));
    assert_eq!(s.guess(), "mug");
}

#[test]
fn the_ledger_is_handed_out_at_the_end() {
    let mut s = session();
    s.control(&vec![text("mug"), key(Key::Return), Event::Quit]);
    let ledger = s.into_ledger();
    assert_eq!(
        ledger.iter_ordered(),
        vec![
            ("big".to_string(), true),
            ("bling".to_string(), false),
            ("mug".to_string(), true)
        ]
    );
}
