//! The interactive session: the guess that is being typed, the ledger and
//! the letters, and what each input event does to them.

use crate::ledger::{marked, FoundLedger};
use crate::letters::LetterSet;
use crate::text::{lower, to_chars, to_lower, to_string};
use vstd::prelude::*;

verus! {

/// The keys that a session tells apart.
pub enum Key {
    Backspace,
    Return,
    Escape,
    Other,
}

/// An input event.
pub enum Event {
    /// The player wants to leave.
    Quit,
    /// Text was typed.
    TextInput(String),
    /// A key went down; `repeat` says that it is held down and repeats.
    KeyDown { key: Key, repeat: bool },
    /// Anything else.
    Other,
}

/// What a session consists of.
pub ghost struct SessionState {
    /// The seven letters, the center first.
    pub letters: Seq<char>,
    /// The guess typed so far.
    pub guess: Seq<char>,
    /// The ledger's mapping.
    pub ledger: Map<Seq<char>, bool>,
    /// The session goes on: no quit event has come.
    pub running: bool,
}

/// `guess` after `text` was typed: each character of `text`, made small,
/// joins the guess where it is one of `letters`.
pub open spec fn typed(letters: Seq<char>, guess: Seq<char>, text: Seq<char>) -> Seq<char>
    decreases text.len(),
{
    if text.len() == 0 {
        guess
    } else {
        let before = typed(letters, guess, text.drop_last());
        let c = lower(text.last());
        if letters.contains(c) {
            before.push(c)
        } else {
            before
        }
    }
}

/// Every character of `guess` is one of `letters`.
pub open spec fn made_of(guess: Seq<char>, letters: Seq<char>) -> bool {
    forall|i: int| 0 <= i < guess.len() ==> letters.contains(#[trigger] guess[i])
}

/// The session after a key went down. Backspace takes the last character
/// off the guess; return marks the guess found and empties it where the
/// ledger has the guess as a word, and does nothing else; escape empties
/// the guess.
pub open spec fn after_key(state: SessionState, key: Key) -> SessionState {
    match key {
        Key::Backspace => SessionState {
            guess: if state.guess.len() > 0 {
                state.guess.drop_last()
            } else {
                state.guess
            },
            ..state
        },
        Key::Return => if state.ledger.contains_key(state.guess) {
            SessionState {
                guess: Seq::empty(),
                ledger: marked(state.ledger, state.guess),
                ..state
            }
        } else {
            state
        },
        Key::Escape => SessionState { guess: Seq::empty(), ..state },
        Key::Other => state,
    }
}

/// The session after `event`. A session that has stopped stays as it is; a
/// key that repeats does nothing.
pub open spec fn after(state: SessionState, event: Event) -> SessionState {
    if !state.running {
        state
    } else {
        match event {
            Event::Quit => SessionState { running: false, ..state },
            Event::TextInput(text) => SessionState {
                guess: typed(state.letters, state.guess, text@),
                ..state
            },
            Event::KeyDown { key, repeat } => if repeat {
                state
            } else {
                after_key(state, key)
            },
            Event::Other => state,
        }
    }
}

/// The session after `events`, one after another.
pub open spec fn after_all(state: SessionState, events: Seq<Event>) -> SessionState
    decreases events.len(),
{
    if events.len() == 0 {
        state
    } else {
        after(after_all(state, events.drop_last()), events.last())
    }
}

/// An interactive session on one puzzle.
pub struct Session {
    letters: LetterSet,
    guess: Vec<char>,
    ledger: FoundLedger,
    running: bool,
}

impl View for Session {
    type V = SessionState;

    closed spec fn view(&self) -> SessionState {
        SessionState {
            letters: self.letters@,
            guess: self.guess@,
            ledger: self.ledger@,
            running: self.running,
        }
    }
}

impl Session {
    /// The session's ledger.
    pub closed spec fn ledger_view(&self) -> FoundLedger {
        self.ledger
    }

    /// The session's invariant: letters and ledger are valid, the ledger is
    /// the one that the state speaks of, and the guess is made of the
    /// puzzle's letters.
    pub open spec fn wf(&self) -> bool {
        &&& self.ledger_view().wf()
        &&& self.ledger_view()@ == self@.ledger
        &&& crate::letters::valid_letters(self@.letters)
        &&& made_of(self@.guess, self@.letters)
    }

    /// A running session with an empty guess.
    pub fn new(letters: LetterSet, ledger: FoundLedger) -> (r: Session)
        requires
            letters.wf(),
            ledger.wf(),
        ensures
            r.wf(),
            r.ledger_view() == ledger,
            r@ == (SessionState {
                letters: letters@,
                guess: Seq::empty(),
                ledger: ledger@,
                running: true,
            }),
    {
        Session { letters, guess: Vec::new(), ledger, running: true }
    }

    /// Whether no quit event has come yet.
    pub fn is_running(&self) -> (r: bool)
        ensures
            r == self@.running,
    {
        self.running
    }

    /// The guess typed so far.
    pub fn guess(&self) -> (r: String)
        ensures
            r@ == self@.guess,
    {
        to_string(&self.guess)
    }

    /// The letters.
    pub fn letters(&self) -> (r: &LetterSet)
        ensures
            r@ == self@.letters,
    {
        &self.letters
    }

    /// The ledger.
    pub fn ledger(&self) -> (r: &FoundLedger)
        ensures
            *r == self.ledger_view(),
    {
        &self.ledger
    }

    /// Ends the session and hands out its ledger.
    pub fn into_ledger(self) -> (r: FoundLedger)
        ensures
            r == self.ledger_view(),
    {
        self.ledger
    }

    /// Takes the characters of `text` into the guess.
    fn type_text(&mut self, text: &Vec<char>)
        requires
            old(self).wf(),
        ensures
            final(self).wf(),
            final(self)@ == (SessionState {
                guess: typed(old(self)@.letters, old(self)@.guess, text@),
                ..old(self)@
            }),
    {
        let mut i: usize = 0;
        proof {
            assert(text@.take(0) =~= Seq::<char>::empty());
        }
        while i < text.len()
            invariant
                i <= text.len(),
                self.wf(),
                self@ == (SessionState {
                    guess: typed(old(self)@.letters, old(self)@.guess, text@.take(i as int)),
                    ..old(self)@
                }),
            decreases text.len() - i,
        {
            let c = to_lower(text[i]);
            proof {
                assert(text@.take(i + 1).drop_last() =~= text@.take(i as int));
                assert(text@.take(i + 1).last() == text@[i as int]);
            }
            let mut at: usize = 0;
            let mut hit = false;
            while at < 7 && !hit
                invariant
                    at <= 7,
                    self.letters@.len() == 7,
                    hit ==> self.letters@.contains(c),
                    !hit ==> forall|k: int| 0 <= k < at ==> self.letters@[k] != c,
                decreases 7 - at + if hit { 0int } else { 1int },
            {
                if self.letters.letter(at) == c {
                    hit = true;
                    proof {
                        assert(self.letters@[at as int] == c);
                    }
                } else {
                    at += 1;
                }
            }
            if hit {
                let ghost before = self.guess@;
                self.guess.push(c);
                proof {
                    assert forall|k: int| 0 <= k < self.guess@.len() implies self.letters@.contains(
                        #[trigger] self.guess@[k],
                    ) by {
                        if k < before.len() {
                            assert(self.guess@[k] == before[k]);
                        }
                    }
                }
            }
            i += 1;
        }
        proof {
            assert(text@.take(i as int) =~= text@);
        }
    }

    /// Takes one input event.
    pub fn handle(&mut self, event: &Event)
        requires
            old(self).wf(),
        ensures
            final(self).wf(),
            final(self)@ == after(old(self)@, *event),
    {
        if !self.running {
            return ;
        }
        let ghost before = self.guess@;
        match event {
            Event::Quit => {
                self.running = false;
            },
            Event::TextInput(text) => {
                let chars = to_chars(text.as_str());
                self.type_text(&chars);
            },
            Event::KeyDown { key, repeat } => {
                if !*repeat {
                    match key {
                        Key::Backspace => {
                            if self.guess.len() > 0 {
                                self.guess.pop();
                                proof {
                                    assert forall|k: int|
                                        0 <= k < self.guess@.len() implies self.letters@.contains(
                                        #[trigger] self.guess@[k],
                                    ) by {
                                        assert(self.guess@[k] == before[k]);
                                    }
                                }
                            }
                        },
                        Key::Return => {
                            if self.ledger.has_word(&self.guess) {
                                self.ledger.mark(&self.guess);
                                self.guess.clear();
                            }
                        },
                        Key::Escape => {
                            self.guess.clear();
                        },
                        Key::Other => {},
                    }
                }
            },
            Event::Other => {},
        }
    }

    /// Takes the input events of one turn, in order. Says whether the
    /// session goes on; events behind a quit event change nothing.
    pub fn control(&mut self, events: &Vec<Event>) -> (r: bool)
        requires
            old(self).wf(),
        ensures
            final(self).wf(),
            final(self)@ == after_all(old(self)@, events@),
            r == final(self)@.running,
    {
        let mut i: usize = 0;
        proof {
            assert(events@.take(0) =~= Seq::<Event>::empty());
        }
        while i < events.len()
            invariant
                i <= events.len(),
                self.wf(),
                self@ == after_all(old(self)@, events@.take(i as int)),
            decreases events.len() - i,
        {
            proof {
                assert(events@.take(i + 1).drop_last() =~= events@.take(i as int));
                assert(events@.take(i + 1).last() == events@[i as int]);
            }
            self.handle(&events[i]);
            i += 1;
        }
        proof {
            assert(events@.take(i as int) =~= events@);
        }
        self.running
    }
}

} // verus!
