//! The puzzle's letters, worked out from its answer list: seven distinct
//! letters, of which the one that every answer holds stands first.

use crate::text::{is_lower, lower, to_chars, to_lower, word_views};
use vstd::prelude::*;

verus! {

/// The number of letters of a puzzle.
pub const LETTER_COUNT: usize = 7;

/// The letters of `word`, each as a small letter.
pub open spec fn letters_of(word: Seq<char>) -> Set<char> {
    Set::new(
        |c: char| is_lower(c) && exists|i: int| 0 <= i < word.len() && lower(#[trigger] word[i]) == c,
    )
}

/// The letters of all `words` together.
pub open spec fn letters_of_all(words: Seq<Seq<char>>) -> Set<char> {
    Set::new(
        |c: char| exists|k: int| 0 <= k < words.len() && #[trigger] letters_of(words[k]).contains(c),
    )
}

/// `seen`, followed by the letters of `text` that are new, in the order in
/// which `text` brings them, for as long as there are fewer than seven.
pub open spec fn gather(seen: Seq<char>, text: Seq<char>) -> Seq<char>
    decreases text.len(),
{
    if text.len() == 0 {
        seen
    } else {
        let before = gather(seen, text.drop_last());
        let c = lower(text.last());
        if is_lower(c) && !before.contains(c) && before.len() < LETTER_COUNT {
            before.push(c)
        } else {
            before
        }
    }
}

/// The first seven distinct letters of `words`, in order of first
/// appearance; fewer where the words hold fewer.
pub open spec fn collected(words: Seq<Seq<char>>) -> Seq<char>
    decreases words.len(),
{
    if words.len() == 0 {
        Seq::empty()
    } else {
        gather(collected(words.drop_last()), words.last())
    }
}

/// `s` with the characters at `i` and `j` exchanged.
pub open spec fn exchanged(s: Seq<char>, i: int, j: int) -> Seq<char> {
    s.update(i, s[j]).update(j, s[i])
}

/// One word's elimination. The candidates are `letters[..live]`; from index
/// `at` on, a candidate that is not in `present` trades places with the last
/// candidate and leaves with it. The result is the letters and the number of
/// candidates that stay.
pub open spec fn sift(letters: Seq<char>, live: nat, at: nat, present: Set<char>) -> (
    Seq<char>,
    nat,
)
    decreases live - at,
{
    if at >= live {
        (letters, live)
    } else if present.contains(letters[at as int]) {
        sift(letters, live, at + 1, present)
    } else {
        sift(exchanged(letters, at as int, live - 1), (live - 1) as nat, at, present)
    }
}

/// The elimination over all `words` in order, starting with every letter of
/// `letters` a candidate. An empty word eliminates nothing.
pub open spec fn reduce(letters: Seq<char>, words: Seq<Seq<char>>) -> (Seq<char>, nat)
    decreases words.len(),
{
    if words.len() == 0 {
        (letters, letters.len())
    } else {
        let before = reduce(letters, words.drop_last());
        if words.last().len() == 0 {
            before
        } else {
            sift(before.0, before.1, 0, letters_of(words.last()))
        }
    }
}

/// `c` is one of the first `live` letters of `letters`.
pub open spec fn is_candidate(letters: Seq<char>, live: nat, c: char) -> bool {
    exists|i: int| 0 <= i < live && i < letters.len() && letters[i] == c
}

/// Every word but the empty ones holds the letter `c`.
pub open spec fn in_every_word(c: char, words: Seq<Seq<char>>) -> bool {
    forall|k: int| 0 <= k < words.len() && words[k].len() > 0 ==> letters_of(#[trigger] words[k]).contains(c)
}

/// `word` uses every letter of `letters` and no other.
pub open spec fn is_pangram(word: Seq<char>, letters: Seq<char>) -> bool {
    forall|c: char| letters_of(word).contains(c) <==> letters.contains(c)
}

/// How many of `words` are pangrams of `letters`.
pub open spec fn pangram_count(words: Seq<Seq<char>>, letters: Seq<char>) -> nat
    decreases words.len(),
{
    if words.len() == 0 {
        0
    } else {
        pangram_count(words.drop_last(), letters) + if is_pangram(words.last(), letters) {
            1nat
        } else {
            0nat
        }
    }
}

/// Some word holds a letter that is not among `letters`.
pub open spec fn has_stray_letter(words: Seq<Seq<char>>, letters: Seq<char>) -> bool {
    exists|c: char| #[trigger] letters_of_all(words).contains(c) && !letters.contains(c)
}

/// Bit `k` of `mask` is set.
pub open spec fn bit(mask: u32, k: u32) -> bool {
    (mask >> k) & 1 == 1
}

/// The place of the small letter `c` in the alphabet, from 0.
pub open spec fn place(c: char) -> u32 {
    ((c as u32) - 97) as u32
}

/// `mask` has the bits of exactly the small letters in `set`.
pub open spec fn mask_of(mask: u32, set: Set<char>) -> bool {
    forall|c: char| is_lower(c) ==> (bit(mask, #[trigger] place(c)) <==> set.contains(c))
}

/// Setting bit `i` sets that bit and changes no other.
proof fn lemma_bit_set(mask: u32, i: u32, k: u32)
    by (bit_vector)
    requires
        i < 32,
        k < 32,
    ensures
        bit(mask | (1u32 << i), k) == (bit(mask, k) || i == k),
{
}

/// Masking with bit `k` alone tells whether bit `k` is set.
proof fn lemma_bit_test(mask: u32, k: u32)
    by (bit_vector)
    requires
        k < 32,
    ensures
        (mask & (1u32 << k) != 0) == bit(mask, k),
{
}

/// The empty mask has no bit set.
proof fn lemma_bit_none(k: u32)
    by (bit_vector)
    requires
        k < 32,
    ensures
        !bit(0u32, k),
{
}

/// Whether the small letter `c` is in the mask.
fn mask_has(mask: u32, c: char) -> (r: bool)
    requires
        is_lower(c),
    ensures
        r == bit(mask, place(c)),
{
    let k: u32 = c as u32 - 97;
    proof {
        lemma_bit_test(mask, k);
    }
    mask & (1u32 << k) != 0
}

/// The mask with the small letter `c` added.
fn mask_with(mask: u32, c: char) -> (r: u32)
    requires
        is_lower(c),
    ensures
        forall|d: char| is_lower(d) ==> bit(r, #[trigger] place(d)) == (bit(mask, place(d)) || d == c),
{
    let k: u32 = c as u32 - 97;
    let r = mask | (1u32 << k);
    assert forall|d: char| is_lower(d) implies bit(r, #[trigger] place(d)) == (bit(mask, place(d))
        || d == c) by {
        lemma_bit_set(mask, k, place(d));
    }
    r
}

/// Where `seen` holds small letters, no letter twice and at most seven,
/// `gather` keeps that, keeps `seen` at the front, adds only letters of
/// `text`, and misses a letter of `text` only when it has reached seven.
pub proof fn lemma_gather(seen: Seq<char>, text: Seq<char>)
    requires
        seen.no_duplicates(),
        seen.len() <= LETTER_COUNT,
        forall|i: int| 0 <= i < seen.len() ==> is_lower(#[trigger] seen[i]),
    ensures
        gather(seen, text).no_duplicates(),
        seen.len() <= gather(seen, text).len() <= LETTER_COUNT,
        forall|i: int| 0 <= i < gather(seen, text).len() ==> is_lower(#[trigger] gather(seen, text)[i]),
        forall|i: int| 0 <= i < seen.len() ==> #[trigger] gather(seen, text)[i] == seen[i],
        forall|c: char| #[trigger]
            gather(seen, text).contains(c) ==> seen.contains(c) || letters_of(text).contains(c),
        gather(seen, text).len() < LETTER_COUNT ==> forall|c: char| #[trigger]
            letters_of(text).contains(c) ==> gather(seen, text).contains(c),
    decreases text.len(),
{
    if text.len() > 0 {
        let rest = text.drop_last();
        let before = gather(seen, rest);
        let c = lower(text.last());
        lemma_gather(seen, rest);
        assert forall|d: char| #[trigger] letters_of(rest).contains(d) implies letters_of(
            text,
        ).contains(d) by {
            let i = choose|i: int| 0 <= i < rest.len() && lower(#[trigger] rest[i]) == d;
            assert(lower(text[i]) == d);
        }
        assert(is_lower(c) ==> letters_of(text).contains(c)) by {
            assert(lower(text[text.len() - 1]) == c);
        }
        assert forall|d: char| #[trigger] letters_of(text).contains(d) implies letters_of(
            rest,
        ).contains(d) || d == c by {
            let i = choose|i: int| 0 <= i < text.len() && lower(#[trigger] text[i]) == d;
            if i < rest.len() {
                assert(lower(rest[i]) == d);
            }
        }
        let after = gather(seen, text);
        if is_lower(c) && !before.contains(c) && before.len() < LETTER_COUNT {
            assert(after == before.push(c));
            assert forall|d: char| #[trigger] after.contains(d) implies seen.contains(d)
                || letters_of(text).contains(d) by {
                let i = choose|i: int| 0 <= i < after.len() && after[i] == d;
                if i < before.len() {
                    assert(before.contains(d));
                }
            }
            assert forall|d: char| #[trigger] letters_of(text).contains(d) implies after.contains(
                d,
            ) by {
                if d == c {
                    assert(after[before.len() as int] == c);
                } else {
                    let i = choose|i: int| 0 <= i < before.len() && before[i] == d;
                    assert(after[i] == d);
                }
            }
        }
    } else {
        assert forall|c: char| #[trigger] letters_of(text).contains(c) implies gather(
            seen,
            text,
        ).contains(c) by {}
    }
}

/// A full collection takes no further letter.
pub proof fn lemma_gather_full(seen: Seq<char>, text: Seq<char>)
    requires
        seen.len() >= LETTER_COUNT,
    ensures
        gather(seen, text) == seen,
    decreases text.len(),
{
    if text.len() > 0 {
        lemma_gather_full(seen, text.drop_last());
    }
}

/// Once the collection over a prefix of `text` is full, the rest of `text`
/// adds nothing.
pub proof fn lemma_gather_prefix(seen: Seq<char>, text: Seq<char>, n: int)
    requires
        0 <= n <= text.len(),
        gather(seen, text.take(n)).len() >= LETTER_COUNT,
    ensures
        gather(seen, text) == gather(seen, text.take(n)),
    decreases text.len() - n,
{
    if n == text.len() {
        assert(text.take(n) == text);
    } else {
        assert(text.drop_last().take(n) == text.take(n));
        lemma_gather_prefix(seen, text.drop_last(), n);
    }
}

/// The collected letters are small letters of the words, no letter twice and
/// at most seven; with fewer than seven, they are all the letters there are.
pub proof fn lemma_collected(words: Seq<Seq<char>>)
    ensures
        collected(words).no_duplicates(),
        collected(words).len() <= LETTER_COUNT,
        forall|i: int| 0 <= i < collected(words).len() ==> is_lower(#[trigger] collected(words)[i]),
        forall|c: char| #[trigger]
            collected(words).contains(c) ==> letters_of_all(words).contains(c),
        collected(words).len() < LETTER_COUNT ==> forall|c: char| #[trigger]
            letters_of_all(words).contains(c) ==> collected(words).contains(c),
    decreases words.len(),
{
    if words.len() > 0 {
        let rest = words.drop_last();
        let seen = collected(rest);
        lemma_collected(rest);
        lemma_gather(seen, words.last());
        let all = collected(words);
        assert forall|c: char| #[trigger] all.contains(c) implies letters_of_all(words).contains(
            c,
        ) by {
            if seen.contains(c) {
                let k = choose|k: int| 0 <= k < rest.len() && #[trigger] letters_of(
                    rest[k],
                ).contains(c);
                assert(letters_of(words[k]).contains(c));
            } else {
                assert(letters_of(words[words.len() - 1]).contains(c));
            }
        }
        if all.len() < LETTER_COUNT {
            assert forall|c: char| #[trigger] letters_of_all(words).contains(c) implies all.contains(
                c,
            ) by {
                let k = choose|k: int| 0 <= k < words.len() && #[trigger] letters_of(
                    words[k],
                ).contains(c);
                if k < rest.len() {
                    assert(letters_of(rest[k]).contains(c));
                    assert(letters_of_all(rest).contains(c));
                    let i = choose|i: int| 0 <= i < seen.len() && seen[i] == c;
                    assert(all[i] == c);
                }
            }
        }
    }
}

/// Once the collection over the first `n` words is full, the other words add
/// nothing.
pub proof fn lemma_collected_prefix(words: Seq<Seq<char>>, n: int)
    requires
        0 <= n <= words.len(),
        collected(words.take(n)).len() >= LETTER_COUNT,
    ensures
        collected(words) == collected(words.take(n)),
    decreases words.len() - n,
{
    if n == words.len() {
        assert(words.take(n) == words);
    } else {
        assert(words.drop_last().take(n) == words.take(n));
        lemma_collected_prefix(words.drop_last(), n);
        lemma_gather_full(collected(words.drop_last()), words.last());
    }
}

/// Exchanging two letters keeps the letters and keeps them distinct.
pub proof fn lemma_exchanged(s: Seq<char>, i: int, j: int)
    requires
        0 <= i < s.len(),
        0 <= j < s.len(),
    ensures
        exchanged(s, i, j).len() == s.len(),
        forall|c: char| exchanged(s, i, j).contains(c) <==> s.contains(c),
        s.no_duplicates() ==> exchanged(s, i, j).no_duplicates(),
{
    let t = exchanged(s, i, j);
    assert forall|c: char| t.contains(c) <==> s.contains(c) by {
        if t.contains(c) {
            let k = choose|k: int| 0 <= k < t.len() && t[k] == c;
            let m = if k == i {
                j
            } else if k == j {
                i
            } else {
                k
            };
            assert(s[m] == c);
        }
        if s.contains(c) {
            let k = choose|k: int| 0 <= k < s.len() && s[k] == c;
            let m = if k == i {
                j
            } else if k == j {
                i
            } else {
                k
            };
            assert(t[m] == c);
        }
    }
    if s.no_duplicates() {
        assert forall|a: int, b: int| 0 <= a < t.len() && 0 <= b < t.len() && a != b implies t[a]
            != t[b] by {
            let ma = if a == i {
                j
            } else if a == j {
                i
            } else {
                a
            };
            let mb = if b == i {
                j
            } else if b == j {
                i
            } else {
                b
            };
            assert(t[a] == s[ma] && t[b] == s[mb]);
        }
    }
}

/// What one word's elimination leaves: the same distinct letters, the ones
/// before `at` where they were, and as candidates those that were candidates
/// and either stood before `at` or are in `present`.
pub proof fn lemma_sift(letters: Seq<char>, live: nat, at: nat, present: Set<char>)
    requires
        at <= live <= letters.len(),
        letters.no_duplicates(),
    ensures
        sift(letters, live, at, present).0.len() == letters.len(),
        at <= sift(letters, live, at, present).1 <= live,
        sift(letters, live, at, present).0.no_duplicates(),
        forall|c: char|
            sift(letters, live, at, present).0.contains(c) <==> letters.contains(c),
        forall|i: int| 0 <= i < at ==> #[trigger] sift(letters, live, at, present).0[i] == letters[i],
        forall|c: char| #[trigger]
            is_candidate(
                sift(letters, live, at, present).0,
                sift(letters, live, at, present).1,
                c,
            ) <==> is_candidate(letters, live, c) && (is_candidate(letters, at, c)
                || present.contains(c)),
    decreases live - at,
{
    let r = sift(letters, live, at, present);
    if at >= live {
    } else if present.contains(letters[at as int]) {
        let next = (at + 1) as nat;
        lemma_sift(letters, live, next, present);
        assert(r == sift(letters, live, next, present));
        assert forall|c: char| #[trigger]
            is_candidate(r.0, r.1, c) <==> is_candidate(letters, live, c) && (is_candidate(
                letters,
                at,
                c,
            ) || present.contains(c)) by {
            assert(is_candidate(r.0, r.1, c) <==> is_candidate(letters, live, c) && (is_candidate(
                letters,
                next,
                c,
            ) || present.contains(c)));
            if is_candidate(letters, next, c) && !is_candidate(letters, at, c) {
                let k = choose|k: int| 0 <= k < next && k < letters.len() && letters[k] == c;
                assert(k == at);
            }
            if is_candidate(letters, at, c) {
                let k = choose|k: int| 0 <= k < at && k < letters.len() && letters[k] == c;
                assert(letters[k] == c);
            }
        }
    } else {
        let last = (live - 1) as nat;
        let moved = exchanged(letters, at as int, last as int);
        lemma_exchanged(letters, at as int, last as int);
        lemma_sift(moved, last, at, present);
        assert(r == sift(moved, last, at, present));
        assert forall|c: char| is_candidate(moved, at, c) <==> is_candidate(letters, at, c) by {
            if is_candidate(moved, at, c) {
                let k = choose|k: int| 0 <= k < at && k < moved.len() && moved[k] == c;
                assert(letters[k] == c);
            }
            if is_candidate(letters, at, c) {
                let k = choose|k: int| 0 <= k < at && k < letters.len() && letters[k] == c;
                assert(moved[k] == c);
            }
        }
        assert forall|c: char|
            is_candidate(moved, last, c) <==> is_candidate(letters, live, c) && c
                != letters[at as int] by {
            if is_candidate(moved, last, c) {
                let k = choose|k: int| 0 <= k < last && k < moved.len() && moved[k] == c;
                let m = if k == at {
                    last as int
                } else {
                    k
                };
                assert(letters[m] == c);
                assert(moved[last as int] == letters[at as int]);
            }
            if is_candidate(letters, live, c) && c != letters[at as int] {
                let k = choose|k: int| 0 <= k < live && k < letters.len() && letters[k] == c;
                let m = if k == last {
                    at as int
                } else {
                    k
                };
                assert(moved[m] == c);
            }
        }
        assert(!is_candidate(letters, at, letters[at as int]));
        assert(is_candidate(letters, live, letters[at as int]));
        assert forall|i: int| 0 <= i < at implies #[trigger] r.0[i] == letters[i] by {
            assert(moved[i] == letters[i]);
        }
        assert forall|c: char| #[trigger]
            is_candidate(r.0, r.1, c) <==> is_candidate(letters, live, c) && (is_candidate(
                letters,
                at,
                c,
            ) || present.contains(c)) by {
            assert(is_candidate(r.0, r.1, c) <==> is_candidate(moved, last, c) && (is_candidate(
                moved,
                at,
                c,
            ) || present.contains(c)));
        }
    }
}

/// What the elimination over all words leaves: the same distinct letters,
/// and as candidates exactly those that every word but the empty ones holds.
pub proof fn lemma_reduce(letters: Seq<char>, words: Seq<Seq<char>>)
    requires
        letters.no_duplicates(),
    ensures
        reduce(letters, words).0.len() == letters.len(),
        reduce(letters, words).1 <= letters.len(),
        reduce(letters, words).0.no_duplicates(),
        forall|c: char| reduce(letters, words).0.contains(c) <==> letters.contains(c),
        forall|c: char| #[trigger]
            is_candidate(reduce(letters, words).0, reduce(letters, words).1, c) <==> (
            letters.contains(c) && in_every_word(c, words)),
    decreases words.len(),
{
    let r = reduce(letters, words);
    if words.len() == 0 {
    } else {
        let rest = words.drop_last();
        let before = reduce(letters, rest);
        lemma_reduce(letters, rest);
        assert forall|c: char| in_every_word(c, words) <==> in_every_word(c, rest) && (
        words.last().len() > 0 ==> letters_of(words.last()).contains(c)) by {
            if in_every_word(c, words) {
                assert forall|k: int| 0 <= k < rest.len() && rest[k].len() > 0 implies letters_of(
                    #[trigger] rest[k],
                ).contains(c) by {
                    assert(rest[k] == words[k]);
                }
                assert(words[words.len() - 1] == words.last());
            }
            if in_every_word(c, rest) && (words.last().len() > 0 ==> letters_of(
                words.last(),
            ).contains(c)) {
                assert forall|k: int| 0 <= k < words.len() && words[k].len() > 0 implies letters_of(
                    #[trigger] words[k],
                ).contains(c) by {
                    if k < rest.len() {
                        assert(rest[k] == words[k]);
                    }
                }
            }
        }
        if words.last().len() > 0 {
            lemma_sift(before.0, before.1, 0, letters_of(words.last()));
            assert forall|c: char| #[trigger]
                is_candidate(r.0, r.1, c) <==> (letters.contains(c) && in_every_word(c, words)) by {
                assert(is_candidate(r.0, r.1, c) <==> is_candidate(before.0, before.1, c) && (
                is_candidate(before.0, 0, c) || letters_of(words.last()).contains(c)));
            }
        }
    }
}

/// Seven distinct small letters.
pub open spec fn valid_letters(letters: Seq<char>) -> bool {
    &&& letters.len() == LETTER_COUNT
    &&& letters.no_duplicates()
    &&& forall|i: int| 0 <= i < letters.len() ==> is_lower(#[trigger] letters[i])
}

/// The collection pass: the first seven distinct letters of the words, and
/// their mask.
fn collect(words: &Vec<Vec<char>>) -> (r: (Vec<char>, u32))
    ensures
        r.0@ == collected(word_views(words@)),
        mask_of(r.1, r.0@.to_set()),
{
    let ghost all = word_views(words@);
    let mut letters: Vec<char> = Vec::new();
    let mut mask: u32 = 0;
    let mut i: usize = 0;
    proof {
        assert(all.take(0) == Seq::<Seq<char>>::empty());
        assert forall|c: char| is_lower(c) implies (bit(mask, #[trigger] place(c))
            <==> letters@.to_set().contains(c)) by {
            lemma_bit_none(place(c));
        }
    }
    while i < words.len() && letters.len() < LETTER_COUNT
        invariant
            i <= words.len(),
            all == word_views(words@),
            letters@ == collected(all.take(i as int)),
            mask_of(mask, letters@.to_set()),
        decreases words.len() - i,
    {
        let word = &words[i];
        let ghost start = letters@;
        let mut j: usize = 0;
        proof {
            assert(word@.take(0) == Seq::<char>::empty());
        }
        while j < word.len() && letters.len() < LETTER_COUNT
            invariant
                j <= word.len(),
                letters@ == gather(start, word@.take(j as int)),
                mask_of(mask, letters@.to_set()),
            decreases word.len() - j,
        {
            let c = to_lower(word[j]);
            proof {
                assert(word@.take(j + 1).drop_last() == word@.take(j as int));
                assert(word@.take(j + 1).last() == word@[j as int]);
            }
            if 'a' <= c && c <= 'z' && !mask_has(mask, c) {
                let ghost before = letters@;
                mask = mask_with(mask, c);
                letters.push(c);
                proof {
                    assert forall|d: char| is_lower(d) implies (bit(mask, #[trigger] place(d))
                        <==> letters@.to_set().contains(d)) by {
                        if before.contains(d) {
                            let k = choose|k: int| 0 <= k < before.len() && before[k] == d;
                            assert(letters@[k] == d);
                        }
                        if d == c {
                            assert(letters@[before.len() as int] == d);
                        }
                        assert(before.to_set().contains(d) == before.contains(d));
                    }
                }
            } else {
                proof {
                    if is_lower(c) {
                        assert(letters@.to_set().contains(c) == letters@.contains(c));
                    }
                }
            }
            j += 1;
        }
        proof {
            if j < word.len() {
                lemma_gather_prefix(start, word@, j as int);
            } else {
                assert(word@.take(j as int) == word@);
            }
            assert(all.take(i + 1).drop_last() == all.take(i as int));
            assert(all.take(i + 1).last() == word@);
        }
        i += 1;
    }
    proof {
        if i < words.len() {
            lemma_collected_prefix(all, i as int);
        } else {
            assert(all.take(i as int) == all);
        }
    }
    (letters, mask)
}

/// One word's own mask, and whether the word holds a letter that the mask
/// `seven` lacks.
fn survey(word: &Vec<char>, seven: u32, Ghost(letters): Ghost<Seq<char>>) -> (r: (u32, bool))
    requires
        mask_of(seven, letters.to_set()),
    ensures
        mask_of(r.0, letters_of(word@)),
        r.1 == exists|c: char| #[trigger] letters_of(word@).contains(c) && !letters.contains(c),
{
    let mut mask: u32 = 0;
    let mut stray = false;
    let mut j: usize = 0;
    let ghost mut witness: char = 'a';
    proof {
        assert forall|c: char| is_lower(c) implies (bit(mask, #[trigger] place(c)) <==> letters_of(
            word@.take(0),
        ).contains(c)) by {
            lemma_bit_none(place(c));
        }
    }
    while j < word.len()
        invariant
            j <= word.len(),
            mask_of(seven, letters.to_set()),
            mask_of(mask, letters_of(word@.take(j as int))),
            stray ==> letters_of(word@.take(j as int)).contains(witness) && !letters.contains(
                witness,
            ),
            !stray ==> forall|c: char| #[trigger]
                letters_of(word@.take(j as int)).contains(c) ==> letters.contains(c),
        decreases word.len() - j,
    {
        let c = to_lower(word[j]);
        let ghost before = word@.take(j as int);
        let ghost after = word@.take(j + 1);
        proof {
            assert forall|d: char| letters_of(after).contains(d) <==> letters_of(before).contains(d)
                || (is_lower(c) && d == c) by {
                if letters_of(after).contains(d) {
                    let k = choose|k: int| 0 <= k < after.len() && lower(#[trigger] after[k]) == d;
                    if k < j {
                        assert(lower(before[k]) == d);
                    }
                }
                if letters_of(before).contains(d) {
                    let k = choose|k: int| 0 <= k < before.len() && lower(#[trigger] before[k]) == d;
                    assert(lower(after[k]) == d);
                }
                if is_lower(c) && d == c {
                    assert(lower(after[j as int]) == d);
                }
            }
        }
        if 'a' <= c && c <= 'z' {
            mask = mask_with(mask, c);
            if !mask_has(seven, c) {
                proof {
                    assert(letters.to_set().contains(c) == letters.contains(c));
                    witness = c;
                }
                stray = true;
            } else {
                proof {
                    assert(letters.to_set().contains(c) == letters.contains(c));
                }
            }
        }
        j += 1;
    }
    proof {
        assert(word@.take(j as int) == word@);
    }
    (mask, stray)
}

/// One word's elimination on the candidates `letters[..live]`; `present` is
/// the word's mask. Returns the number of candidates that stay.
fn eliminate(letters: &mut Vec<char>, live: usize, present: u32, Ghost(word): Ghost<Set<char>>) -> (n:
    usize)
    requires
        live <= old(letters).len(),
        mask_of(present, word),
        forall|i: int| 0 <= i < old(letters).len() ==> is_lower(#[trigger] old(letters)[i]),
    ensures
        (final(letters)@, n as nat) == sift(old(letters)@, live as nat, 0, word),
        forall|i: int| 0 <= i < final(letters).len() ==> is_lower(#[trigger] final(letters)[i]),
        final(letters).len() == old(letters).len(),
{
    let mut n: usize = live;
    let mut at: usize = 0;
    while at < n
        invariant
            at <= n <= letters.len(),
            letters.len() == old(letters).len(),
            mask_of(present, word),
            forall|i: int| 0 <= i < letters.len() ==> is_lower(#[trigger] letters[i]),
            sift(letters@, n as nat, at as nat, word) == sift(old(letters)@, live as nat, 0, word),
        decreases n - at,
    {
        if mask_has(present, letters[at]) {
            at += 1;
        } else {
            n -= 1;
            if at != n {
                let gone = letters[at];
                let kept = letters[n];
                letters.set(at, kept);
                letters.set(n, gone);
            }
            proof {
                let before = if at != n {
                    letters@.update(at as int, letters@[n as int]).update(n as int, letters@[at as int])
                } else {
                    letters@
                };
                assert(letters@ == exchanged(before, at as int, n as int));
            }
        }
    }
    n
}

/// Whether the mask `present` has every one of `letters`.
fn holds_all(letters: &Vec<char>, present: u32) -> (r: bool)
    requires
        forall|i: int| 0 <= i < letters.len() ==> is_lower(#[trigger] letters[i]),
    ensures
        r == forall|i: int| 0 <= i < letters.len() ==> bit(present, place(#[trigger] letters[i])),
{
    let mut i: usize = 0;
    while i < letters.len()
        invariant
            i <= letters.len(),
            forall|k: int| 0 <= k < letters.len() ==> is_lower(#[trigger] letters[k]),
            forall|k: int| 0 <= k < i ==> bit(present, place(#[trigger] letters[k])),
        decreases letters.len() - i,
    {
        if !mask_has(present, letters[i]) {
            return false;
        }
        i += 1;
    }
    true
}

/// The letters of a puzzle: seven distinct small letters, the center letter
/// first.
pub struct LetterSet {
    letters: [char; 7],
}

impl View for LetterSet {
    type V = Seq<char>;

    closed spec fn view(&self) -> Seq<char> {
        self.letters@
    }
}

impl LetterSet {
    /// The type's invariant.
    pub open spec fn wf(&self) -> bool {
        valid_letters(self@)
    }

    /// The letter set with `letters[0]` as its center, where `letters` are
    /// seven distinct small letters.
    pub fn new(letters: [char; 7]) -> (r: Option<LetterSet>)
        ensures
            r is Some <==> valid_letters(letters@),
            r matches Some(set) ==> set@ == letters@ && set.wf(),
    {
        let mut i: usize = 0;
        while i < 7
            invariant
                i <= 7,
                forall|a: int| 0 <= a < i ==> is_lower(#[trigger] letters@[a]),
                forall|a: int, b: int| 0 <= a < b < i ==> letters@[a] != letters@[b],
            decreases 7 - i,
        {
            let c = letters[i];
            if !('a' <= c && c <= 'z') {
                return None;
            }
            let mut j: usize = 0;
            while j < i
                invariant
                    j <= i < 7,
                    c == letters@[i as int],
                    forall|a: int| 0 <= a < j ==> letters@[a] != c,
                decreases i - j,
            {
                if letters[j] == c {
                    return None;
                }
                j += 1;
            }
            i += 1;
        }
        Some(LetterSet { letters })
    }

    /// The center letter.
    pub fn center(&self) -> (c: char)
        ensures
            self@.len() == LETTER_COUNT,
            c == self@[0],
    {
        self.letters[0]
    }

    /// The letter at place `i`; place 0 is the center's.
    pub fn letter(&self, i: usize) -> (c: char)
        requires
            i < LETTER_COUNT,
        ensures
            self@.len() == LETTER_COUNT,
            c == self@[i as int],
    {
        self.letters[i]
    }

    /// All seven letters in their order.
    pub fn letters(&self) -> (r: [char; 7])
        ensures
            r@ == self@,
    {
        self.letters
    }
}

/// Seven letters of which several may be the center: the first `count()`
/// of them.
pub struct Candidates {
    letters: [char; 7],
    count: usize,
}

impl Candidates {
    /// The seven letters, the possible centers first.
    pub closed spec fn letters(&self) -> Seq<char> {
        self.letters@
    }

    /// The number of possible centers.
    pub closed spec fn count(&self) -> nat {
        self.count as nat
    }

    /// The type's invariant.
    pub open spec fn wf(&self) -> bool {
        &&& valid_letters(self.letters())
        &&& 2 <= self.count() <= LETTER_COUNT
    }

    /// The possible centers, in their order.
    pub fn options(&self) -> (r: Vec<char>)
        requires
            self.wf(),
        ensures
            r@ == self.letters().take(self.count() as int),
    {
        let mut out: Vec<char> = Vec::new();
        let mut i: usize = 0;
        while i < self.count
            invariant
                i <= self.count <= 7,
                self.letters@.len() == 7,
                out@ == self.letters@.take(i as int),
            decreases self.count - i,
        {
            out.push(self.letters[i]);
            i += 1;
        }
        out
    }

    /// The letter set with `c` as its center, where `c` is one of the
    /// possible centers: `c` and the letter at place 0 trade places.
    pub fn with_center(&self, c: char) -> (r: Option<LetterSet>)
        requires
            self.wf(),
        ensures
            r is Some <==> is_candidate(self.letters(), self.count(), c),
            r matches Some(set) ==> set.wf() && exists|i: int|
                0 <= i < self.count() && #[trigger] self.letters()[i] == c && set@ == exchanged(
                    self.letters(),
                    0,
                    i,
                ),
    {
        let mut i: usize = 0;
        while i < self.count
            invariant
                i <= self.count <= 7,
                self.wf(),
                forall|k: int| 0 <= k < i ==> self.letters@[k] != c,
            decreases self.count - i,
        {
            if self.letters[i] == c {
                let mut letters = self.letters;
                if i != 0 {
                    let first = letters[0];
                    letters[0] = c;
                    letters[i] = first;
                }
                proof {
                    assert(letters@ =~= exchanged(self.letters@, 0, i as int));
                    lemma_exchanged(self.letters@, 0, i as int);
                    assert forall|k: int| 0 <= k < letters@.len() implies is_lower(
                        #[trigger] letters@[k],
                    ) by {
                        assert(self.letters@.contains(letters@[k])) by {
                            assert(letters@.contains(letters@[k]));
                        }
                        let m = choose|m: int|
                            0 <= m < self.letters@.len() && self.letters@[m] == letters@[k];
                        assert(is_lower(self.letters@[m]));
                    }
                }
                return Some(LetterSet { letters });
            }
            i += 1;
        }
        None
    }

    /// `with_center` on the first character of `line`; `None` where `line`
    /// is empty.
    pub fn with_center_from(&self, line: &str) -> (r: Option<LetterSet>)
        requires
            self.wf(),
        ensures
            r is Some <==> line@.len() > 0 && is_candidate(self.letters(), self.count(), line@[0]),
            r matches Some(set) ==> set.wf() && exists|i: int|
                0 <= i < self.count() && #[trigger] self.letters()[i] == line@[0] && set@
                    == exchanged(self.letters(), 0, i),
    {
        let chars = to_chars(line);
        if chars.len() == 0 {
            None
        } else {
            self.with_center(chars[0])
        }
    }
}

/// How the search for the center ended.
pub enum Resolution {
    /// One letter is in every word: it is the center.
    Center(LetterSet),
    /// Several letters are in every word: one of them has to be picked.
    AmbiguousCenter(Candidates),
    /// No letter is in every word.
    NoValidCenter,
    /// The words hold fewer than seven distinct letters.
    InsufficientLetters,
}

/// What the words of a puzzle say of its letters.
pub struct Deduction {
    /// The letters, as far as the words settle them.
    pub resolution: Resolution,
    /// Seven letters were collected and some word holds a letter that is
    /// not among them.
    pub too_many_letters: bool,
    /// The number of words that use all seven letters and no other.
    pub pangrams: usize,
}

impl Deduction {
    /// This deduction is the one that `words` give.
    pub open spec fn describes(&self, words: Seq<Seq<char>>) -> bool {
        let seven = collected(words);
        let reduced = reduce(seven, words);
        &&& match self.resolution {
            Resolution::InsufficientLetters => seven.len() < LETTER_COUNT,
            Resolution::NoValidCenter => seven.len() == LETTER_COUNT && reduced.1 == 0,
            Resolution::Center(set) => seven.len() == LETTER_COUNT && reduced.1 == 1 && set@
                == reduced.0 && set.wf(),
            Resolution::AmbiguousCenter(several) => seven.len() == LETTER_COUNT && reduced.1 > 1
                && several.letters() == reduced.0 && several.count() == reduced.1
                && several.wf(),
        }
        &&& self.too_many_letters == (seven.len() == LETTER_COUNT && has_stray_letter(
            words,
            seven,
        ))
        &&& self.pangrams == (if seven.len() == LETTER_COUNT {
            pangram_count(words, seven)
        } else {
            0
        })
    }
}

/// One more word adds its own letters to those of the words before it.
proof fn lemma_letters_of_all_push(words: Seq<Seq<char>>, n: int)
    requires
        0 <= n < words.len(),
    ensures
        forall|c: char|
            letters_of_all(words.take(n + 1)).contains(c) <==> letters_of_all(
                words.take(n),
            ).contains(c) || letters_of(words[n]).contains(c),
{
    let short = words.take(n);
    let long = words.take(n + 1);
    assert forall|c: char|
        letters_of_all(long).contains(c) <==> letters_of_all(short).contains(c) || letters_of(
            words[n],
        ).contains(c) by {
        if letters_of_all(long).contains(c) {
            let k = choose|k: int| 0 <= k < long.len() && #[trigger] letters_of(long[k]).contains(c);
            if k < n {
                assert(letters_of(short[k]).contains(c));
            }
        }
        if letters_of_all(short).contains(c) {
            let k = choose|k: int|
                0 <= k < short.len() && #[trigger] letters_of(short[k]).contains(c);
            assert(letters_of(long[k]).contains(c));
        }
        if letters_of(words[n]).contains(c) {
            assert(letters_of(long[n]).contains(c));
        }
    }
}

/// One more word brings a stray letter where the words before it have one
/// or the word itself has one.
proof fn lemma_stray_push(words: Seq<Seq<char>>, n: int, letters: Seq<char>)
    requires
        0 <= n < words.len(),
    ensures
        has_stray_letter(words.take(n + 1), letters) <==> has_stray_letter(words.take(n), letters)
            || exists|c: char| #[trigger] letters_of(words[n]).contains(c) && !letters.contains(c),
{
    lemma_letters_of_all_push(words, n);
    let short = words.take(n);
    let long = words.take(n + 1);
    if has_stray_letter(long, letters) {
        let c = choose|c: char| #[trigger] letters_of_all(long).contains(c) && !letters.contains(c);
        assert(letters_of_all(short).contains(c) || letters_of(words[n]).contains(c));
    }
    if has_stray_letter(short, letters) {
        let c = choose|c: char| #[trigger] letters_of_all(short).contains(c) && !letters.contains(c);
        assert(letters_of_all(long).contains(c));
    }
    if exists|c: char| #[trigger] letters_of(words[n]).contains(c) && !letters.contains(c) {
        let c = choose|c: char| #[trigger] letters_of(words[n]).contains(c) && !letters.contains(c);
        assert(letters_of_all(long).contains(c));
    }
}

/// The letters of a puzzle as its words give them: the collection pass,
/// then the elimination word by word, then the count of the candidates
/// that are left.
pub fn deduce(words: &Vec<Vec<char>>) -> (r: Deduction)
    ensures
        r.describes(word_views(words@)),
{
    let ghost all = word_views(words@);
    let (mut letters, seven_mask) = collect(words);
    if letters.len() < LETTER_COUNT {
        return Deduction {
            resolution: Resolution::InsufficientLetters,
            too_many_letters: false,
            pangrams: 0,
        };
    }
    let ghost seven = letters@;
    proof {
        lemma_collected(all);
        assert(all.take(0) =~= Seq::<Seq<char>>::empty());
        assert(!has_stray_letter(all.take(0), seven)) by {
            assert forall|c: char| !letters_of_all(all.take(0)).contains(c) by {}
        }
    }
    let mut live: usize = LETTER_COUNT;
    let mut stray = false;
    let mut pangrams: usize = 0;
    let mut i: usize = 0;
    while i < words.len()
        invariant
            i <= words.len(),
            all == word_views(words@),
            seven == collected(all),
            seven.len() == LETTER_COUNT,
            seven.no_duplicates(),
            mask_of(seven_mask, seven.to_set()),
            (letters@, live as nat) == reduce(seven, all.take(i as int)),
            letters.len() == LETTER_COUNT,
            forall|k: int| 0 <= k < letters.len() ==> is_lower(#[trigger] letters[k]),
            stray == has_stray_letter(all.take(i as int), seven),
            pangrams == pangram_count(all.take(i as int), seven),
            pangrams <= i,
        decreases words.len() - i,
    {
        let word = &words[i];
        let ghost before = all.take(i as int);
        let ghost after = all.take(i + 1);
        proof {
            assert(after.drop_last() =~= before);
            assert(after.last() == word@);
            lemma_stray_push(all, i as int, seven);
            lemma_reduce(seven, before);
            assert(all[i as int] == word@);
        }
        if word.len() > 0 {
            let (mask, outside) = survey(word, seven_mask, Ghost(seven));
            let whole = !outside && holds_all(&letters, mask);
            proof {
                if is_pangram(word@, seven) {
                    assert forall|k: int| 0 <= k < letters.len() implies bit(
                        mask,
                        place(#[trigger] letters[k]),
                    ) by {
                        assert(letters@.contains(letters[k]));
                    }
                }
                if whole {
                    assert forall|c: char| letters_of(word@).contains(c) <==> seven.contains(
                        c,
                    ) by {
                        if seven.contains(c) {
                            assert(letters@.contains(c));
                            let k = choose|k: int| 0 <= k < letters@.len() && letters@[k] == c;
                            assert(bit(mask, place(letters[k])));
                        }
                    }
                }
                assert(whole == is_pangram(word@, seven));
            }
            if outside {
                stray = true;
            }
            live = eliminate(&mut letters, live, mask, Ghost(letters_of(word@)));
            if whole {
                pangrams += 1;
            }
        } else {
            proof {
                assert(!is_pangram(word@, seven)) by {
                    assert(seven.contains(seven[0]));
                }
            }
        }
        i += 1;
    }
    proof {
        assert(all.take(i as int) =~= all);
        lemma_reduce(seven, all);
    }
    let set: [char; 7] = [
        letters[0],
        letters[1],
        letters[2],
        letters[3],
        letters[4],
        letters[5],
        letters[6],
    ];
    proof {
        assert(set@ =~= letters@);
    }
    let resolution = if live == 0 {
        Resolution::NoValidCenter
    } else if live == 1 {
        Resolution::Center(LetterSet { letters: set })
    } else {
        Resolution::AmbiguousCenter(Candidates { letters: set, count: live })
    };
    Deduction { resolution, too_many_letters: stray, pangrams }
}

/// The letters of any words are finitely many.
pub proof fn lemma_letters_finite(words: Seq<Seq<char>>)
    ensures
        letters_of_all(words).finite(),
{
    let codes = vstd::set_lib::set_int_range(97, 123);
    let small = codes.map(|i: int| i as char);
    vstd::set_lib::lemma_int_range(97, 123);
    codes.lemma_map_finite(|i: int| i as char);
    assert forall|c: char| letters_of_all(words).contains(c) implies small.contains(c) by {
        let k = choose|k: int| 0 <= k < words.len() && #[trigger] letters_of(words[k]).contains(c);
        assert(is_lower(c));
        assert(codes.contains(c as int));
        assert((c as int) as char == c);
    }
    vstd::set_lib::lemma_len_subset(letters_of_all(words), small);
}

/// The letters that a deduction reports are the letters of the words: where
/// the words hold exactly seven letters between them, which is the case
/// when one of them is a pangram and the others use its letters alone, the
/// deduction does not fail for want of letters, and the seven letters that
/// it gives, with a center or with several possible centers, are those of
/// the words.
pub proof fn lemma_letters_are_union(words: Seq<Seq<char>>, deduction: Deduction)
    requires
        deduction.describes(words),
        letters_of_all(words).len() == LETTER_COUNT,
    ensures
        !(deduction.resolution is InsufficientLetters),
        !deduction.too_many_letters,
        deduction.resolution matches Resolution::Center(set) ==> set@.to_set() == letters_of_all(
            words,
        ),
        deduction.resolution matches Resolution::AmbiguousCenter(several)
            ==> several.letters().to_set() == letters_of_all(words),
{
    let all = letters_of_all(words);
    let seven = collected(words);
    lemma_letters_finite(words);
    lemma_collected(words);
    seven.unique_seq_to_set();
    assert(seven.to_set().subset_of(all)) by {
        assert forall|c: char| seven.to_set().contains(c) implies all.contains(c) by {
            assert(seven.contains(c));
        }
    }
    vstd::set_lib::lemma_len_subset(seven.to_set(), all);
    if seven.len() < LETTER_COUNT {
        assert(all.subset_of(seven.to_set())) by {
            assert forall|c: char| all.contains(c) implies seven.to_set().contains(c) by {
                assert(seven.contains(c));
            }
        }
        assert(all =~= seven.to_set());
    }
    vstd::set_lib::lemma_subset_equality(seven.to_set(), all);
    lemma_reduce(seven, words);
    let reduced = reduce(seven, words);
    assert(reduced.0.to_set() =~= all) by {
        assert forall|c: char| reduced.0.to_set().contains(c) <==> all.contains(c) by {
            assert(reduced.0.contains(c) <==> seven.contains(c));
            assert(seven.to_set().contains(c) <==> seven.contains(c));
        }
    }
    if has_stray_letter(words, seven) {
        let c = choose|c: char| #[trigger] letters_of_all(words).contains(c) && !seven.contains(c);
        assert(seven.to_set().contains(c));
    }
}

/// A single common letter is the center: where seven letters were
/// collected and `c` is the one of them that every word but the empty ones
/// holds, the deduction gives a letter set, without a choice to make, and
/// `c` stands first in it.
pub proof fn lemma_single_center(words: Seq<Seq<char>>, c: char, deduction: Deduction)
    requires
        deduction.describes(words),
        collected(words).len() == LETTER_COUNT,
        collected(words).contains(c),
        in_every_word(c, words),
        forall|d: char| collected(words).contains(d) && in_every_word(d, words) ==> d == c,
    ensures
        deduction.resolution matches Resolution::Center(set) && set@[0] == c,
{
    let seven = collected(words);
    lemma_collected(words);
    lemma_reduce(seven, words);
    let reduced = reduce(seven, words);
    assert(is_candidate(reduced.0, reduced.1, c));
    let i = choose|i: int| 0 <= i < reduced.1 && i < reduced.0.len() && reduced.0[i] == c;
    if reduced.1 > 1 {
        assert(is_candidate(reduced.0, reduced.1, reduced.0[0]));
        assert(is_candidate(reduced.0, reduced.1, reduced.0[1]));
    }
    assert(is_candidate(reduced.0, reduced.1, reduced.0[0]));
}

} // verus!
