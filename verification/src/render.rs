//! What a session draws: the list of drawing commands for one frame.

use crate::ledger::{found_in, FoundLedger};
use crate::session::Session;
use crate::text::{decimal, push_char, to_decimal, to_upper, upper};
use vstd::prelude::*;

verus! {

/// A colour in red, green and blue.
#[derive(Clone, Copy, Debug, PartialEq, Eq)]
pub struct Color {
    pub r: u8,
    pub g: u8,
    pub b: u8,
}

/// A rectangle: its upper left corner, its width and its height.
#[derive(Clone, Copy, Debug, PartialEq, Eq)]
pub struct Rect {
    pub x: i32,
    pub y: i32,
    pub w: u32,
    pub h: u32,
}

/// One drawing command.
#[derive(Debug, PartialEq, Eq)]
pub enum DrawCommand {
    /// Fill the whole surface with the colour.
    Clear(Color),
    /// Fill the rectangle with the colour.
    FillRect(Rect, Color),
    /// Draw the text fitted into the rectangle.
    DrawText(String, Rect),
}

/// A drawing command as a plain value.
pub ghost enum Drawn {
    Clear(Color),
    FillRect(Rect, Color),
    DrawText(Seq<char>, Rect),
}

impl View for DrawCommand {
    type V = Drawn;

    open spec fn view(&self) -> Drawn {
        match *self {
            DrawCommand::Clear(color) => Drawn::Clear(color),
            DrawCommand::FillRect(rect, color) => Drawn::FillRect(rect, color),
            DrawCommand::DrawText(text, rect) => Drawn::DrawText(text@, rect),
        }
    }
}

/// The commands as plain values.
pub open spec fn drawn(commands: Seq<DrawCommand>) -> Seq<Drawn> {
    commands.map_values(|c: DrawCommand| c@)
}

/// The number of rows in a column of the list of found words.
pub const LIST_ROWS: usize = 22;

/// The frame rate that the session aims at, in frames per second.
pub const FRAMERATE: u32 = 128;

/// The colour of the background.
pub open spec fn background() -> Color {
    Color { r: 0, g: 0, b: 0 }
}

/// The colour of the six outer tiles and of the list's panel.
pub open spec fn plain() -> Color {
    Color { r: 0x44, g: 0x44, b: 0x44 }
}

/// The colour of the center tile.
pub open spec fn highlight() -> Color {
    Color { r: 0x66, g: 0x66, b: 0 }
}

/// The tile of the letter at place `i`: the center tile in the middle, the
/// others around it.
pub open spec fn tile(i: int) -> Rect {
    if i == 0 {
        Rect { x: 110, y: 195, w: 90, h: 90 }
    } else if i == 1 {
        Rect { x: 60, y: 95, w: 90, h: 90 }
    } else if i == 2 {
        Rect { x: 160, y: 95, w: 90, h: 90 }
    } else if i == 3 {
        Rect { x: 10, y: 195, w: 90, h: 90 }
    } else if i == 4 {
        Rect { x: 210, y: 195, w: 90, h: 90 }
    } else if i == 5 {
        Rect { x: 60, y: 295, w: 90, h: 90 }
    } else {
        Rect { x: 160, y: 295, w: 90, h: 90 }
    }
}

/// The panel behind the list of found words.
pub open spec fn panel() -> Rect {
    Rect { x: 310, y: 10, w: 320, h: 460 }
}

/// Where the guess is drawn.
pub open spec fn guess_place() -> Rect {
    Rect { x: 10, y: 10, w: 290, h: 75 }
}

/// Where the progress is drawn.
pub open spec fn progress_place() -> Rect {
    Rect { x: 10, y: 395, w: 290, h: 75 }
}

/// The place of the found word number `k`, from 0: the words fill a column
/// from the top, then the next column to the right.
pub open spec fn slot(k: nat) -> Rect {
    Rect {
        x: (310 + (k / LIST_ROWS as nat) * 80) as i32,
        y: (10 + (k % LIST_ROWS as nat) * 20) as i32,
        w: 80,
        h: 20,
    }
}

/// The list of found words has a place for `n` words: the column of the
/// last one is not beyond what a coordinate can hold.
pub open spec fn listable(n: nat) -> bool {
    310 + (n / LIST_ROWS as nat) * 80 <= i32::MAX
}

/// The fills of the six outer tiles.
pub open spec fn tile_fills() -> Seq<Drawn> {
    Seq::new(6, |i: int| Drawn::FillRect(tile(i + 1), plain()))
}

/// The seven letters as capitals, each on its tile.
pub open spec fn tile_texts(letters: Seq<char>) -> Seq<Drawn> {
    Seq::new(7, |i: int| Drawn::DrawText(seq![upper(letters[i])], tile(i)))
}

/// The found words of `list` in the order of the list, each at its place.
pub open spec fn found_texts(list: Seq<(Seq<char>, bool)>) -> Seq<Drawn>
    decreases list.len(),
{
    if list.len() == 0 {
        Seq::empty()
    } else {
        let before = found_texts(list.drop_last());
        if list.last().1 {
            before.push(Drawn::DrawText(list.last().0, slot(found_in(list.drop_last()))))
        } else {
            before
        }
    }
}

/// The progress: the number of found words, a stroke, the number of words.
pub open spec fn progress_text(found: nat, total: nat) -> Seq<char> {
    decimal(found) + seq!['/'] + decimal(total)
}

/// The guess, where there is one.
pub open spec fn guess_text(guess: Seq<char>) -> Seq<Drawn> {
    if guess.len() > 0 {
        seq![Drawn::DrawText(guess, guess_place())]
    } else {
        Seq::empty()
    }
}

/// The commands of one frame: the cleared background, the six outer tiles,
/// the panel, the center tile, the letters, the guess, the found words and
/// the progress.
pub open spec fn drawing(letters: Seq<char>, guess: Seq<char>, list: Seq<(Seq<char>, bool)>) -> Seq<
    Drawn,
> {
    seq![Drawn::Clear(background())] + tile_fills() + seq![
        Drawn::FillRect(panel(), plain()),
        Drawn::FillRect(tile(0), highlight()),
    ] + tile_texts(letters) + guess_text(guess) + found_texts(list) + seq![
        Drawn::DrawText(progress_text(found_in(list), list.len()), progress_place()),
    ]
}

/// The tile of the letter at place `i`.
pub fn letrec(i: usize) -> (r: Rect)
    requires
        i < 7,
    ensures
        r == tile(i as int),
{
    if i == 0 {
        Rect { x: 110, y: 195, w: 90, h: 90 }
    } else if i == 1 {
        Rect { x: 60, y: 95, w: 90, h: 90 }
    } else if i == 2 {
        Rect { x: 160, y: 95, w: 90, h: 90 }
    } else if i == 3 {
        Rect { x: 10, y: 195, w: 90, h: 90 }
    } else if i == 4 {
        Rect { x: 210, y: 195, w: 90, h: 90 }
    } else if i == 5 {
        Rect { x: 60, y: 295, w: 90, h: 90 }
    } else {
        Rect { x: 160, y: 295, w: 90, h: 90 }
    }
}

/// The time from one frame to the next, in nanoseconds.
pub fn frame_nanos() -> (r: u32)
    ensures
        r == 1_000_000_000u32 / FRAMERATE,
{
    1_000_000_000u32 / FRAMERATE
}

/// The string of the progress.
fn progress(found: usize, total: usize) -> (r: String)
    ensures
        r@ == progress_text(found as nat, total as nat),
{
    let first = to_decimal(found);
    let second = to_decimal(total);
    let mut out = String::new();
    let mut i: usize = 0;
    while i < first.len()
        invariant
            i <= first.len(),
            out@ == first@.take(i as int),
        decreases first.len() - i,
    {
        push_char(&mut out, first[i]);
        i += 1;
    }
    push_char(&mut out, '/');
    let ghost start = out@;
    proof {
        assert(start =~= first@ + seq!['/']);
    }
    let mut j: usize = 0;
    while j < second.len()
        invariant
            j <= second.len(),
            out@ == start + second@.take(j as int),
        decreases second.len() - j,
    {
        push_char(&mut out, second[j]);
        proof {
            assert(out@ =~= start + second@.take(j + 1));
        }
        j += 1;
    }
    proof {
        assert(second@.take(j as int) =~= second@);
    }
    out
}

/// Whether `render` can draw the session: whether the list has a place for
/// every found word.
pub fn can_render(session: &Session) -> (r: bool)
    requires
        session.wf(),
    ensures
        r == listable(found_in(session.ledger_view().listing())),
{
    let found = session.ledger().count_found();
    found / LIST_ROWS <= 26843541
}

/// The commands that draw the session as it is.
pub fn render(session: &Session) -> (r: Vec<DrawCommand>)
    requires
        session.wf(),
        listable(found_in(session.ledger_view().listing())),
    ensures
        drawn(r@) == drawing(session@.letters, session@.guess, session.ledger_view().listing()),
{
    let ledger: &FoundLedger = session.ledger();
    let ghost list = ledger.listing();
    let ghost letters = session@.letters;
    let mut out: Vec<DrawCommand> = Vec::new();
    out.push(DrawCommand::Clear(Color { r: 0, g: 0, b: 0 }));
    let mut i: usize = 1;
    while i < 7
        invariant
            1 <= i <= 7,
            drawn(out@) == seq![Drawn::Clear(background())] + tile_fills().take(i - 1),
        decreases 7 - i,
    {
        let ghost before = out@;
        out.push(DrawCommand::FillRect(letrec(i), Color { r: 0x44, g: 0x44, b: 0x44 }));
        proof {
            lemma_drawn_push(before, out@[before.len() as int]);
            assert(tile_fills().take(i as int) =~= tile_fills().take(i - 1).push(
                tile_fills()[i - 1],
            ));
        }
        i += 1;
    }
    let ghost fills = out@;
    out.push(
        DrawCommand::FillRect(
            Rect { x: 310, y: 10, w: 320, h: 460 },
            Color { r: 0x44, g: 0x44, b: 0x44 },
        ),
    );
    let ghost paneled = out@;
    out.push(DrawCommand::FillRect(letrec(0), Color { r: 0x66, g: 0x66, b: 0 }));
    let ghost head = seq![Drawn::Clear(background())] + tile_fills() + seq![
        Drawn::FillRect(panel(), plain()),
        Drawn::FillRect(tile(0), highlight()),
    ];
    proof {
        lemma_drawn_push(fills, paneled[fills.len() as int]);
        lemma_drawn_push(paneled, out@[paneled.len() as int]);
        assert(tile_fills().take(6) =~= tile_fills());
        assert(drawn(out@) =~= head);
    }
    let mut k: usize = 0;
    while k < 7
        invariant
            k <= 7,
            letters == session@.letters,
            letters.len() == 7,
            drawn(out@) == head + tile_texts(letters).take(k as int),
        decreases 7 - k,
    {
        let mut text = String::new();
        push_char(&mut text, to_upper(session.letters().letter(k)));
        proof {
            assert(text@ =~= seq![upper(letters[k as int])]);
        }
        let ghost before = out@;
        out.push(DrawCommand::DrawText(text, letrec(k)));
        proof {
            lemma_drawn_push(before, out@[before.len() as int]);
            assert(tile_texts(letters).take(k + 1) =~= tile_texts(letters).take(k as int).push(
                tile_texts(letters)[k as int],
            ));
            assert(drawn(out@) =~= head + tile_texts(letters).take(k + 1));
        }
        k += 1;
    }
    let guess = session.guess();
    let ghost lettered = out@;
    if guess.as_str().unicode_len() > 0 {
        out.push(DrawCommand::DrawText(guess, Rect { x: 10, y: 10, w: 290, h: 75 }));
        proof {
            lemma_drawn_push(lettered, out@[lettered.len() as int]);
        }
    }
    let ghost top = head + tile_texts(letters) + guess_text(session@.guess);
    proof {
        assert(tile_texts(letters).take(7) =~= tile_texts(letters));
        assert(drawn(out@) =~= top);
    }
    let mut found: usize = 0;
    let mut n: usize = 0;
    proof {
        assert(list.take(0) =~= Seq::<(Seq<char>, bool)>::empty());
        lemma_found_in_rises(list, 0);
    }
    while n < ledger.len()
        invariant
            n <= list.len(),
            list == ledger.listing(),
            listable(found_in(list)),
            found == found_in(list.take(n as int)),
            found <= n,
            drawn(out@) == top + found_texts(list.take(n as int)),
        decreases list.len() - n,
    {
        proof {
            assert(list.take(n + 1).drop_last() =~= list.take(n as int));
            assert(list.take(n + 1).last() == list[n as int]);
            lemma_found_in_rises(list, n + 1);
        }
        if ledger.found_at(n) {
            let text = crate::text::to_string(ledger.word_at(n));
            let column: usize = found / LIST_ROWS;
            let row: usize = found % LIST_ROWS;
            assert(column <= 26843541 && row < 22) by {
                assert(found_in(list.take(n + 1)) == found + 1);
                assert(found < found_in(list));
                assert(found / 22 <= found_in(list) / 22) by (nonlinear_arith)
                    requires
                        found < found_in(list),
                ;
            }
            let x: i32 = 310 + (column as i32) * 80;
            let y: i32 = 10 + (row as i32) * 20;
            let ghost before = out@;
            out.push(DrawCommand::DrawText(text, Rect { x, y, w: 80, h: 20 }));
            proof {
                lemma_drawn_push(before, out@[before.len() as int]);
                assert(drawn(out@) =~= top + found_texts(list.take(n + 1)));
            }
            found += 1;
        }
        n += 1;
    }
    proof {
        assert(list.take(n as int) =~= list);
    }
    let ghost body = out@;
    out.push(
        DrawCommand::DrawText(progress(found, ledger.len()), Rect { x: 10, y: 395, w: 290, h: 75 }),
    );
    proof {
        lemma_drawn_push(body, out@[body.len() as int]);
        assert(drawn(out@) =~= drawing(letters, session@.guess, list));
    }
    out
}

/// One more command is one more plain value.
proof fn lemma_drawn_push(commands: Seq<DrawCommand>, command: DrawCommand)
    ensures
        drawn(commands.push(command)) == drawn(commands).push(command@),
{
    assert(drawn(commands.push(command)) =~= drawn(commands).push(command@));
}

/// A longer list has at least as many found entries as its beginning.
proof fn lemma_found_in_rises(list: Seq<(Seq<char>, bool)>, n: int)
    requires
        0 <= n <= list.len(),
    ensures
        found_in(list.take(n)) <= found_in(list),
    decreases list.len() - n,
{
    if n == list.len() {
        assert(list.take(n) =~= list);
    } else {
        lemma_found_in_rises(list, n + 1);
        assert(list.take(n + 1).drop_last() =~= list.take(n));
    }
}

} // verus!
