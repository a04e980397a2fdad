//! The save text: one word on each line, with a marker behind a word that
//! has been found. Words come into the ledger the same way from a save text
//! and from a fresh answer list.

use crate::ledger::{
    lemma_insert_at, lemma_listing_unique, listed, mapping, precedes, sorted, FoundLedger,
};
use crate::text::{
    is_normal, lower_word, push_char, to_chars, to_lower, word_views, FOUND_MARKER, LINE_END,
};
use vstd::prelude::*;

verus! {

/// `word` without the markers at its end.
pub open spec fn strip_markers(word: Seq<char>) -> Seq<char>
    decreases word.len(),
{
    if word.len() > 0 && word.last() == FOUND_MARKER {
        strip_markers(word.drop_last())
    } else {
        word
    }
}

/// The ledger's word for `word`: the markers at its end taken off, capitals
/// made small.
pub open spec fn word_key(word: Seq<char>) -> Seq<char> {
    lower_word(strip_markers(word))
}

/// `word` is given as found: it ends with the marker.
pub open spec fn word_found(word: Seq<char>) -> bool {
    word.len() > 0 && word.last() == FOUND_MARKER
}

/// The ledger that `words` give: each word but the empty ones is entered,
/// in order, so that of two equal words the later one decides the flag.
pub open spec fn ledger_of(words: Seq<Seq<char>>) -> Map<Seq<char>, bool>
    decreases words.len(),
{
    if words.len() == 0 {
        Map::empty()
    } else {
        let before = ledger_of(words.drop_last());
        let word = words.last();
        if word.len() == 0 {
            before
        } else {
            before.insert(word_key(word), word_found(word))
        }
    }
}

/// The pieces of `text` between its line ends. There is always one piece
/// more than there are line ends, so a text that ends with a line end has an
/// empty last piece.
pub open spec fn split_lines(text: Seq<char>) -> Seq<Seq<char>>
    decreases text.len(),
{
    if text.len() == 0 {
        seq![Seq::empty()]
    } else {
        let before = split_lines(text.drop_last());
        if text.last() == LINE_END {
            before.push(Seq::empty())
        } else {
            before.drop_last().push(before.last().push(text.last()))
        }
    }
}

/// What an entry reads as on its line, without the line end.
pub open spec fn line_of(entry: (Seq<char>, bool)) -> Seq<char> {
    if entry.1 {
        entry.0.push(FOUND_MARKER)
    } else {
        entry.0
    }
}

/// The save text of one entry: its line and a line end, and nothing for the
/// empty word.
pub open spec fn save_line(entry: (Seq<char>, bool)) -> Seq<char> {
    if entry.0.len() == 0 {
        Seq::empty()
    } else {
        line_of(entry).push(LINE_END)
    }
}

/// The save text of a listing: the entries' texts one after another.
pub open spec fn save_text(list: Seq<(Seq<char>, bool)>) -> Seq<char>
    decreases list.len(),
{
    if list.len() == 0 {
        Seq::empty()
    } else {
        save_text(list.drop_last()) + save_line(list.last())
    }
}

/// `word` can stand in a save text and be read back: it is not empty and
/// holds neither the marker nor a line end. Every word made of letters alone
/// is such a word.
pub open spec fn is_plain(word: Seq<char>) -> bool {
    &&& word.len() > 0
    &&& forall|i: int| 0 <= i < word.len() ==> word[i] != FOUND_MARKER && word[i] != LINE_END
}

/// The lines of the listing's entries.
pub open spec fn lines_of(list: Seq<(Seq<char>, bool)>) -> Seq<Seq<char>> {
    list.map_values(|e: (Seq<char>, bool)| line_of(e))
}

/// Characters other than line ends go to the last line.
proof fn lemma_split_append(text: Seq<char>, tail: Seq<char>)
    requires
        forall|i: int| 0 <= i < tail.len() ==> tail[i] != LINE_END,
    ensures
        split_lines(text).len() > 0,
        split_lines(text + tail) == split_lines(text).drop_last().push(
            split_lines(text).last() + tail,
        ),
    decreases tail.len(),
{
    lemma_split_some(text);
    let lines = split_lines(text);
    if tail.len() == 0 {
        assert(text + tail =~= text);
        assert(lines.last() + tail =~= lines.last());
        assert(lines.drop_last().push(lines.last()) =~= lines);
    } else {
        let short = tail.drop_last();
        lemma_split_append(text, short);
        assert((text + tail).drop_last() =~= text + short);
        assert((text + tail).last() == tail.last());
        let before = split_lines(text + short);
        assert(before.drop_last() =~= lines.drop_last());
        assert(before.last().push(tail.last()) =~= lines.last() + tail);
    }
}

/// A text has at least one line.
proof fn lemma_split_some(text: Seq<char>)
    ensures
        split_lines(text).len() > 0,
    decreases text.len(),
{
    if text.len() > 0 {
        lemma_split_some(text.drop_last());
    }
}

/// The save text of plain words splits into the entries' lines and one
/// empty line.
proof fn lemma_split_save(list: Seq<(Seq<char>, bool)>)
    requires
        forall|i: int| 0 <= i < list.len() ==> is_plain(#[trigger] list[i].0),
    ensures
        split_lines(save_text(list)) == lines_of(list).push(Seq::empty()),
    decreases list.len(),
{
    if list.len() == 0 {
        assert(lines_of(list).push(Seq::empty()) =~= seq![Seq::<char>::empty()]);
    } else {
        let rest = list.drop_last();
        let last = list.last();
        assert forall|i: int| 0 <= i < rest.len() implies is_plain(#[trigger] rest[i].0) by {
            assert(rest[i] == list[i]);
        }
        lemma_split_save(rest);
        assert(is_plain(list[list.len() - 1].0));
        let text = save_text(rest);
        let line = line_of(last);
        lemma_split_append(text, line);
        assert(save_text(list) =~= (text + line).push(LINE_END));
        assert(save_text(list).drop_last() =~= text + line);
        let lines = split_lines(text);
        assert(lines.last() + line =~= line);
        assert(lines.drop_last() =~= lines_of(rest));
        assert(lines_of(list) =~= lines_of(rest).push(line));
    }
}

/// A plain small word on its line is read back as itself, with its flag.
proof fn lemma_read_line(entry: (Seq<char>, bool))
    requires
        is_plain(entry.0),
        is_normal(entry.0),
    ensures
        line_of(entry).len() > 0,
        word_key(line_of(entry)) == entry.0,
        word_found(line_of(entry)) == entry.1,
{
    let word = entry.0;
    assert(word[word.len() - 1] != FOUND_MARKER);
    assert(strip_markers(word) == word);
    if entry.1 {
        assert(line_of(entry).drop_last() =~= word);
    }
    assert(lower_word(word) =~= word);
}

/// The lines of a sorted listing of plain small words give the listing's
/// mapping.
proof fn lemma_read_lines(list: Seq<(Seq<char>, bool)>)
    requires
        sorted(list),
        forall|i: int| 0 <= i < list.len() ==> is_plain(#[trigger] list[i].0) && is_normal(list[i].0),
    ensures
        ledger_of(lines_of(list)) == mapping(list),
    decreases list.len(),
{
    if list.len() == 0 {
        assert(mapping(list) =~= Map::<Seq<char>, bool>::empty());
    } else {
        let rest = list.drop_last();
        let last = list.last();
        assert(sorted(rest)) by {
            assert forall|i: int, j: int| 0 <= i < j < rest.len() implies precedes(
                #[trigger] rest[i].0,
                #[trigger] rest[j].0,
            ) by {
                assert(precedes(list[i].0, list[j].0));
            }
        }
        assert forall|i: int| 0 <= i < rest.len() implies is_plain(#[trigger] rest[i].0)
            && is_normal(rest[i].0) by {
            assert(rest[i] == list[i]);
        }
        lemma_read_lines(rest);
        assert(is_plain(list[list.len() - 1].0));
        lemma_read_line(last);
        assert(lines_of(list).drop_last() =~= lines_of(rest));
        assert(lines_of(list).last() == line_of(last));
        assert forall|i: int| 0 <= i < rest.len() implies precedes(#[trigger] rest[i].0, last.0) by {
            assert(precedes(list[i].0, list[list.len() - 1].0));
        }
        lemma_insert_at(rest, rest.len() as int, last.0, last.1);
        assert(list =~= rest.insert(rest.len() as int, last));
    }
}

/// Saving and reading back gives the same ledger: where every word of
/// `ledger` is plain, as every word made of letters alone is, a ledger that
/// is read from the save text of `ledger` has the same mapping and the same
/// listing.
pub proof fn lemma_save_round_trip(ledger: FoundLedger, read: FoundLedger)
    requires
        ledger.wf(),
        forall|word: Seq<char>| ledger@.contains_key(word) ==> is_plain(word),
        read.wf(),
        read@ == ledger_of(split_lines(save_text(ledger.listing()))),
    ensures
        read@ == ledger@,
        read.listing() == ledger.listing(),
{
    let list = ledger.listing();
    assert forall|i: int| 0 <= i < list.len() implies is_plain(#[trigger] list[i].0) && is_normal(
        list[i].0,
    ) by {
        assert(listed(list, list[i].0));
    }
    lemma_split_save(list);
    lemma_read_lines(list);
    let lines = lines_of(list).push(Seq::empty());
    assert(lines.drop_last() =~= lines_of(list));
    lemma_listing_unique(read.listing(), list);
}

/// The ledger's word and flag for `word`.
fn entry_of(word: &Vec<char>) -> (r: (Vec<char>, bool))
    ensures
        r.0@ == word_key(word@),
        r.1 == word_found(word@),
        is_normal(r.0@),
{
    let mut n: usize = word.len();
    proof {
        assert(word@.take(n as int) =~= word@);
    }
    while n > 0 && word[n - 1] == FOUND_MARKER
        invariant
            n <= word.len(),
            strip_markers(word@) == strip_markers(word@.take(n as int)),
        decreases n,
    {
        proof {
            assert(word@.take(n as int).drop_last() =~= word@.take(n - 1));
        }
        n -= 1;
    }
    let found = word.len() > 0 && word[word.len() - 1] == FOUND_MARKER;
    let mut key: Vec<char> = Vec::new();
    let mut i: usize = 0;
    while i < n
        invariant
            i <= n <= word.len(),
            key@ == lower_word(word@.take(i as int)),
            is_normal(key@),
        decreases n - i,
    {
        key.push(to_lower(word[i]));
        proof {
            assert(key@ =~= lower_word(word@.take(i + 1)));
        }
        i += 1;
    }
    (key, found)
}

/// The ledger of the words of an answer list or of the lines of a save
/// text.
pub fn read_words(words: &Vec<Vec<char>>) -> (r: FoundLedger)
    ensures
        r.wf(),
        r@ == ledger_of(word_views(words@)),
{
    let ghost all = word_views(words@);
    let mut ledger = FoundLedger::new();
    let mut i: usize = 0;
    proof {
        assert(all.take(0) =~= Seq::<Seq<char>>::empty());
    }
    while i < words.len()
        invariant
            i <= words.len(),
            all == word_views(words@),
            ledger.wf(),
            ledger@ == ledger_of(all.take(i as int)),
        decreases words.len() - i,
    {
        proof {
            assert(all.take(i + 1).drop_last() =~= all.take(i as int));
            assert(all.take(i + 1).last() == words[i as int]@);
        }
        if words[i].len() > 0 {
            let (key, found) = entry_of(&words[i]);
            ledger.enter(key, found);
        }
        i += 1;
    }
    proof {
        assert(all.take(i as int) =~= all);
    }
    ledger
}

/// The lines of `text`.
pub fn split(text: &Vec<char>) -> (r: Vec<Vec<char>>)
    ensures
        word_views(r@) == split_lines(text@),
{
    let mut lines: Vec<Vec<char>> = Vec::new();
    let mut line: Vec<char> = Vec::new();
    let mut i: usize = 0;
    proof {
        assert(text@.take(0) =~= Seq::<char>::empty());
        assert(word_views(lines@).push(line@) =~= split_lines(text@.take(0)));
    }
    while i < text.len()
        invariant
            i <= text.len(),
            word_views(lines@).push(line@) == split_lines(text@.take(i as int)),
        decreases text.len() - i,
    {
        let c = text[i];
        let ghost before = split_lines(text@.take(i as int));
        let ghost done = word_views(lines@);
        proof {
            assert(text@.take(i + 1).drop_last() =~= text@.take(i as int));
            assert(text@.take(i + 1).last() == c);
            assert(before.drop_last() =~= done);
            assert(before.last() == line@);
        }
        if c == LINE_END {
            let ghost full = line@;
            lines.push(line);
            line = Vec::new();
            proof {
                assert(word_views(lines@) =~= done.push(full));
                assert(word_views(lines@).push(line@) =~= before.push(
                    Seq::empty(),
                ));
            }
        } else {
            line.push(c);
        }
        i += 1;
    }
    let ghost done = word_views(lines@);
    let ghost last = line@;
    lines.push(line);
    proof {
        assert(text@.take(i as int) =~= text@);
        assert(word_views(lines@) =~= done.push(last));
    }
    lines
}

/// The ledger that the save text `text` holds.
pub fn deserialize(text: &str) -> (r: FoundLedger)
    ensures
        r.wf(),
        r@ == ledger_of(split_lines(text@)),
{
    let chars = to_chars(text);
    let lines = split(&chars);
    read_words(&lines)
}

/// The save text of `ledger`: its entries in the order of the listing, each
/// as the word, the marker where the word is found, and a line end; the
/// empty word is left out.
pub fn serialize(ledger: &FoundLedger) -> (r: String)
    ensures
        r@ == save_text(ledger.listing()),
{
    let ghost list = ledger.listing();
    let mut out = String::new();
    let mut i: usize = 0;
    proof {
        assert(list.take(0) =~= Seq::<(Seq<char>, bool)>::empty());
    }
    while i < ledger.len()
        invariant
            i <= list.len(),
            list == ledger.listing(),
            out@ == save_text(list.take(i as int)),
        decreases list.len() - i,
    {
        let word = ledger.word_at(i);
        proof {
            assert(list.take(i + 1).drop_last() =~= list.take(i as int));
            assert(list.take(i + 1).last() == list[i as int]);
        }
        if word.len() > 0 {
            let ghost start = out@;
            let mut j: usize = 0;
            while j < word.len()
                invariant
                    j <= word.len(),
                    out@ == start + word@.take(j as int),
                decreases word.len() - j,
            {
                push_char(&mut out, word[j]);
                proof {
                    assert(out@ =~= start + word@.take(j + 1));
                }
                j += 1;
            }
            if ledger.found_at(i) {
                push_char(&mut out, FOUND_MARKER);
            }
            push_char(&mut out, LINE_END);
            proof {
                assert(word@.take(j as int) =~= word@);
                assert(out@ =~= start + save_line(list[i as int]));
            }
        } else {
            proof {
                assert(out@ =~= out@ + save_line(list[i as int]));
            }
        }
        i += 1;
    }
    proof {
        assert(list.take(i as int) =~= list);
    }
    out
}

} // verus!
