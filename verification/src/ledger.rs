//! The ledger of answer words and whether each has been found: a mapping
//! from word to flag that is listed in lexicographic order of the words.

use crate::text::{is_normal, lower_word, to_chars, to_lower_word, to_string};
use vstd::prelude::*;

verus! {

/// `a` and `b` have the same first `n` characters.
pub open spec fn agree(a: Seq<char>, b: Seq<char>, n: int) -> bool {
    &&& 0 <= n <= a.len()
    &&& n <= b.len()
    &&& forall|i: int| 0 <= i < n ==> a[i] == b[i]
}

/// `a` stands before `b` in lexicographic order: after what they have in
/// common, `a` has ended and `b` has not, or `a` goes on with the smaller
/// character.
pub open spec fn precedes(a: Seq<char>, b: Seq<char>) -> bool {
    exists|n: int| #[trigger]
        agree(a, b, n) && n < b.len() && (n == a.len() || a[n] < b[n])
}

/// Of two words, neither stands before itself, nor each before the other.
pub proof fn lemma_precedes_asymmetric(a: Seq<char>, b: Seq<char>)
    requires
        precedes(a, b),
    ensures
        !precedes(b, a),
        a != b,
{
    let n = choose|n: int| #[trigger] agree(a, b, n) && n < b.len() && (n == a.len() || a[n] < b[n]);
    if precedes(b, a) {
        let m = choose|m: int| #[trigger]
            agree(b, a, m) && m < a.len() && (m == b.len() || b[m] < a[m]);
        if m < n {
            assert(a[m] == b[m]);
        } else if n < m {
            assert(b[n] == a[n]);
        }
    }
}

/// The order passes on: what stands before a word stands before all that
/// the word stands before.
pub proof fn lemma_precedes_transitive(a: Seq<char>, b: Seq<char>, c: Seq<char>)
    requires
        precedes(a, b),
        precedes(b, c),
    ensures
        precedes(a, c),
{
    let n = choose|n: int| #[trigger] agree(a, b, n) && n < b.len() && (n == a.len() || a[n] < b[n]);
    let m = choose|m: int| #[trigger] agree(b, c, m) && m < c.len() && (m == b.len() || b[m] < c[m]);
    let k = if n <= m {
        n
    } else {
        m
    };
    assert(agree(a, c, k));
}

/// The words of `list` stand in strictly rising order.
pub open spec fn sorted(list: Seq<(Seq<char>, bool)>) -> bool {
    forall|i: int, j: int| 0 <= i < j < list.len() ==> precedes(#[trigger] list[i].0, #[trigger] list[j].0)
}

/// `word` is listed in `list`.
pub open spec fn listed(list: Seq<(Seq<char>, bool)>, word: Seq<char>) -> bool {
    exists|i: int| 0 <= i < list.len() && #[trigger] list[i].0 == word
}

/// A place at which `list` has `word`.
pub open spec fn place_of(list: Seq<(Seq<char>, bool)>, word: Seq<char>) -> int {
    choose|i: int| 0 <= i < list.len() && #[trigger] list[i].0 == word
}

/// The mapping that `list` writes down: each listed word with its flag.
pub open spec fn mapping(list: Seq<(Seq<char>, bool)>) -> Map<Seq<char>, bool> {
    Map::new(|word: Seq<char>| listed(list, word), |word: Seq<char>| list[place_of(list, word)].1)
}

/// The words of `map` that are found.
pub open spec fn found_words(map: Map<Seq<char>, bool>) -> Set<Seq<char>> {
    Set::new(|word: Seq<char>| map.contains_key(word) && map[word])
}

/// How many entries of `list` are found.
pub open spec fn found_in(list: Seq<(Seq<char>, bool)>) -> nat
    decreases list.len(),
{
    if list.len() == 0 {
        0
    } else {
        found_in(list.drop_last()) + if list.last().1 {
            1nat
        } else {
            0nat
        }
    }
}

/// `map` after `word` has been marked: a word of the map is found from now
/// on, any other word changes nothing.
pub open spec fn marked(map: Map<Seq<char>, bool>, word: Seq<char>) -> Map<Seq<char>, bool> {
    if map.contains_key(word) {
        map.insert(word, true)
    } else {
        map
    }
}

/// In a sorted list every word has one place, and the mapping gives each
/// word the flag at its place.
pub proof fn lemma_sorted_places(list: Seq<(Seq<char>, bool)>)
    requires
        sorted(list),
    ensures
        forall|i: int, j: int|
            0 <= i < list.len() && 0 <= j < list.len() && #[trigger] list[i].0 == #[trigger] list[j].0
                ==> i == j,
        forall|i: int|
            0 <= i < list.len() ==> mapping(list).contains_key(#[trigger] list[i].0) && mapping(
                list,
            )[list[i].0] == list[i].1,
{
    assert forall|i: int, j: int|
        0 <= i < list.len() && 0 <= j < list.len() && #[trigger] list[i].0 == #[trigger] list[j].0
        implies i == j by {
        if i < j {
            lemma_precedes_asymmetric(list[i].0, list[j].0);
        } else if j < i {
            lemma_precedes_asymmetric(list[j].0, list[i].0);
        }
    }
    assert forall|i: int| 0 <= i < list.len() implies mapping(list).contains_key(
        #[trigger] list[i].0,
    ) && mapping(list)[list[i].0] == list[i].1 by {
        assert(listed(list, list[i].0));
        let p = place_of(list, list[i].0);
        assert(list[p].0 == list[i].0);
    }
}

/// A sorted list is the only sorted list of its mapping.
pub proof fn lemma_listing_unique(a: Seq<(Seq<char>, bool)>, b: Seq<(Seq<char>, bool)>)
    requires
        sorted(a),
        sorted(b),
        mapping(a) == mapping(b),
    ensures
        a == b,
    decreases a.len(),
{
    lemma_sorted_places(a);
    lemma_sorted_places(b);
    if a.len() == 0 {
        if b.len() > 0 {
            assert(mapping(b).contains_key(b[0].0));
            assert(listed(a, b[0].0));
        }
        assert(a =~= b);
    } else {
        let last = a.last();
        assert(mapping(a).contains_key(a[a.len() - 1].0));
        assert(listed(b, last.0));
        let p = place_of(b, last.0);
        if p != b.len() - 1 {
            let other = b.last().0;
            assert(mapping(b).contains_key(b[b.len() - 1].0));
            assert(listed(a, other));
            let q = place_of(a, other);
            assert(precedes(b[p].0, b[b.len() - 1].0));
            if q < a.len() - 1 {
                assert(precedes(a[q].0, a[a.len() - 1].0));
                lemma_precedes_asymmetric(other, last.0);
            } else {
                lemma_precedes_asymmetric(last.0, other);
            }
        }
        assert(b.last().1 == last.1) by {
            assert(mapping(b)[b[b.len() - 1].0] == b[b.len() - 1].1);
            assert(mapping(a)[a[a.len() - 1].0] == a[a.len() - 1].1);
        }
        let a0 = a.drop_last();
        let b0 = b.drop_last();
        assert(sorted(a0)) by {
            assert forall|i: int, j: int| 0 <= i < j < a0.len() implies precedes(
                #[trigger] a0[i].0,
                #[trigger] a0[j].0,
            ) by {
                assert(precedes(a[i].0, a[j].0));
            }
        }
        assert(sorted(b0)) by {
            assert forall|i: int, j: int| 0 <= i < j < b0.len() implies precedes(
                #[trigger] b0[i].0,
                #[trigger] b0[j].0,
            ) by {
                assert(precedes(b[i].0, b[j].0));
            }
        }
        lemma_sorted_places(a0);
        lemma_sorted_places(b0);
        assert(mapping(a0) =~= mapping(b0)) by {
            assert forall|w: Seq<char>| listed(a0, w) <==> listed(b0, w) by {
                if listed(a0, w) {
                    let i = place_of(a0, w);
                    assert(a[i].0 == w);
                    assert(mapping(a).contains_key(a[i].0));
                    assert(listed(b, w));
                    let j = place_of(b, w);
                    if j == b.len() - 1 {
                        assert(a[i].0 == a[a.len() - 1].0);
                    }
                    assert(b0[j].0 == w);
                }
                if listed(b0, w) {
                    let i = place_of(b0, w);
                    assert(b[i].0 == w);
                    assert(mapping(b).contains_key(b[i].0));
                    assert(listed(a, w));
                    let j = place_of(a, w);
                    if j == a.len() - 1 {
                        assert(b[i].0 == b[b.len() - 1].0);
                    }
                    assert(a0[j].0 == w);
                }
            }
            assert forall|w: Seq<char>| listed(a0, w) implies #[trigger] mapping(a0)[w] == mapping(
                b0,
            )[w] by {
                let i = place_of(a0, w);
                let j = place_of(b0, w);
                assert(a0[i].0 == w && b0[j].0 == w);
                assert(a[i].0 == w && b[j].0 == w);
                assert(mapping(a)[a[i].0] == a[i].1);
                assert(mapping(b)[b[j].0] == b[j].1);
            }
        }
        lemma_listing_unique(a0, b0);
        assert(a =~= a0.push(a.last()));
        assert(b =~= b0.push(b.last()));
    }
}

/// Putting a new word at its place in a sorted list keeps the list sorted
/// and adds the word to the mapping.
pub proof fn lemma_insert_at(list: Seq<(Seq<char>, bool)>, p: int, word: Seq<char>, found: bool)
    requires
        sorted(list),
        0 <= p <= list.len(),
        forall|i: int| 0 <= i < p ==> precedes(#[trigger] list[i].0, word),
        forall|i: int| p <= i < list.len() ==> precedes(word, #[trigger] list[i].0),
    ensures
        sorted(list.insert(p, (word, found))),
        mapping(list.insert(p, (word, found))) == mapping(list).insert(word, found),
{
    let grown = list.insert(p, (word, found));
    assert forall|i: int, j: int| 0 <= i < j < grown.len() implies precedes(
        #[trigger] grown[i].0,
        #[trigger] grown[j].0,
    ) by {
        let a = if i < p {
            i
        } else {
            i - 1
        };
        let b = if j < p {
            j
        } else {
            j - 1
        };
        if i != p && j != p {
            assert(precedes(list[a].0, list[b].0));
        } else if i == p {
            assert(precedes(word, list[b].0));
        } else {
            assert(precedes(list[a].0, word));
        }
    }
    lemma_sorted_places(list);
    lemma_sorted_places(grown);
    assert(grown[p].0 == word);
    assert forall|w: Seq<char>| listed(grown, w) <==> listed(list, w) || w == word by {
        if listed(grown, w) {
            let i = place_of(grown, w);
            if i < p {
                assert(list[i].0 == w);
            } else if i > p {
                assert(list[i - 1].0 == w);
            }
        }
        if listed(list, w) {
            let i = place_of(list, w);
            if i < p {
                assert(grown[i].0 == w);
            } else {
                assert(grown[i + 1].0 == w);
            }
        }
    }
    assert forall|w: Seq<char>| listed(grown, w) implies #[trigger] mapping(grown)[w] == mapping(
        list,
    ).insert(word, found)[w] by {
        let i = place_of(grown, w);
        assert(mapping(grown)[grown[i].0] == grown[i].1);
        if i < p {
            assert(list[i].0 == w);
            assert(mapping(list)[list[i].0] == list[i].1);
            lemma_precedes_asymmetric(list[i].0, word);
        } else if i > p {
            assert(list[i - 1].0 == w);
            assert(mapping(list)[list[i - 1].0] == list[i - 1].1);
            lemma_precedes_asymmetric(word, list[i - 1].0);
        }
    }
    assert(mapping(grown) =~= mapping(list).insert(word, found));
}

/// Changing the flag at one place of a sorted list keeps the list sorted and
/// changes the mapping at that word alone.
pub proof fn lemma_update_at(list: Seq<(Seq<char>, bool)>, p: int, found: bool)
    requires
        sorted(list),
        0 <= p < list.len(),
    ensures
        sorted(list.update(p, (list[p].0, found))),
        mapping(list.update(p, (list[p].0, found))) == mapping(list).insert(list[p].0, found),
{
    let word = list[p].0;
    let changed = list.update(p, (word, found));
    assert forall|i: int, j: int| 0 <= i < j < changed.len() implies precedes(
        #[trigger] changed[i].0,
        #[trigger] changed[j].0,
    ) by {
        assert(precedes(list[i].0, list[j].0));
    }
    lemma_sorted_places(list);
    lemma_sorted_places(changed);
    assert forall|w: Seq<char>| listed(changed, w) <==> listed(list, w) by {
        if listed(changed, w) {
            let i = place_of(changed, w);
            assert(list[i].0 == w);
        }
        if listed(list, w) {
            let i = place_of(list, w);
            assert(changed[i].0 == w);
        }
    }
    assert(listed(list, list[p].0));
    assert forall|w: Seq<char>| listed(changed, w) implies #[trigger] mapping(changed)[w]
        == mapping(list).insert(word, found)[w] by {
        let i = place_of(changed, w);
        assert(mapping(changed)[changed[i].0] == changed[i].1);
        assert(list[i].0 == w);
        assert(mapping(list)[list[i].0] == list[i].1);
    }
    assert(mapping(changed) =~= mapping(list).insert(word, found));
}

/// The words of a sorted list are as many as the list is long, and its
/// found words are a finite set.
pub proof fn lemma_counts(list: Seq<(Seq<char>, bool)>)
    requires
        sorted(list),
    ensures
        mapping(list).dom().finite(),
        mapping(list).dom().len() == list.len(),
        found_words(mapping(list)).finite(),
        found_words(mapping(list)).len() == found_in(list),
    decreases list.len(),
{
    if list.len() == 0 {
        assert(mapping(list).dom() =~= Set::<Seq<char>>::empty());
        assert(found_words(mapping(list)) =~= Set::<Seq<char>>::empty());
    } else {
        let rest = list.drop_last();
        let last = list.last();
        assert(sorted(rest)) by {
            assert forall|i: int, j: int| 0 <= i < j < rest.len() implies precedes(
                #[trigger] rest[i].0,
                #[trigger] rest[j].0,
            ) by {
                assert(precedes(list[i].0, list[j].0));
            }
        }
        lemma_counts(rest);
        assert(list =~= rest.insert(rest.len() as int, last));
        assert forall|i: int| 0 <= i < rest.len() implies precedes(#[trigger] rest[i].0, last.0) by {
            assert(precedes(list[i].0, list[list.len() - 1].0));
        }
        lemma_insert_at(rest, rest.len() as int, last.0, last.1);
        assert(!mapping(rest).contains_key(last.0)) by {
            if listed(rest, last.0) {
                let i = place_of(rest, last.0);
                lemma_precedes_asymmetric(rest[i].0, last.0);
            }
        }
        assert(mapping(list).dom() =~= mapping(rest).dom().insert(last.0));
        if last.1 {
            assert(found_words(mapping(list)) =~= found_words(mapping(rest)).insert(last.0));
        } else {
            assert(found_words(mapping(list)) =~= found_words(mapping(rest)));
        }
    }
}

/// Marking a word that the ledger lacks is no change: where `after` is what
/// marking `word` makes of `before`, and `before` lacks `word`, the two
/// have the same entries and the same number of found words.
pub proof fn lemma_mark_unknown(before: FoundLedger, after: FoundLedger, word: Seq<char>)
    requires
        before.wf(),
        after.wf(),
        after@ == marked(before@, word),
        !before@.contains_key(word),
    ensures
        after@ == before@,
        after.listing() == before.listing(),
        found_words(after@).len() == found_words(before@).len(),
{
    lemma_listing_unique(after.listing(), before.listing());
}

/// Marking a word that the ledger has as not found adds one to the number
/// of found words, and marking it once more changes nothing: where `after`
/// is what marking `word` makes of `before`, and `again` what marking it
/// makes of `after`.
pub proof fn lemma_mark_unfound(
    before: FoundLedger,
    after: FoundLedger,
    again: FoundLedger,
    word: Seq<char>,
)
    requires
        before.wf(),
        after.wf(),
        again.wf(),
        after@ == marked(before@, word),
        again@ == marked(after@, word),
        before@.contains_key(word),
        !before@[word],
    ensures
        found_words(after@).len() == found_words(before@).len() + 1,
        again@ == after@,
        again.listing() == after.listing(),
        found_words(again@).len() == found_words(after@).len(),
{
    lemma_counts(before.listing());
    assert(found_words(after@) =~= found_words(before@).insert(word));
    assert(again@ =~= after@);
    lemma_listing_unique(again.listing(), after.listing());
}

/// What `order` says of two words.
pub enum Order {
    Before,
    Same,
    After,
}

/// Where `a` stands with regard to `b`.
pub fn order(a: &Vec<char>, b: &Vec<char>) -> (r: Order)
    ensures
        r is Before <==> precedes(a@, b@),
        r is Same <==> a@ == b@,
        r is After <==> precedes(b@, a@),
{
    let mut i: usize = 0;
    proof {
        assert(agree(a@, b@, 0));
    }
    while i < a.len() && i < b.len()
        invariant
            agree(a@, b@, i as int),
        decreases a.len() - i,
    {
        if a[i] != b[i] {
            if a[i] < b[i] {
                proof {
                    lemma_precedes_asymmetric(a@, b@);
                }
                return Order::Before;
            } else {
                proof {
                    assert(agree(b@, a@, i as int));
                    lemma_precedes_asymmetric(b@, a@);
                }
                return Order::After;
            }
        }
        i += 1;
        proof {
            assert(agree(a@, b@, i as int));
        }
    }
    if a.len() < b.len() {
        proof {
            lemma_precedes_asymmetric(a@, b@);
        }
        Order::Before
    } else if b.len() < a.len() {
        proof {
            assert(agree(b@, a@, i as int));
            lemma_precedes_asymmetric(b@, a@);
        }
        Order::After
    } else {
        proof {
            assert(a@ =~= b@);
            if precedes(a@, b@) {
                lemma_precedes_asymmetric(a@, b@);
            }
            if precedes(b@, a@) {
                lemma_precedes_asymmetric(b@, a@);
            }
        }
        Order::Same
    }
}

/// One line of the ledger.
struct Entry {
    word: Vec<char>,
    found: bool,
}

/// The answer words of a puzzle, each with the flag that says whether it has
/// been found, kept in lexicographic order of the words.
pub struct FoundLedger {
    entries: Vec<Entry>,
}

impl View for FoundLedger {
    type V = Map<Seq<char>, bool>;

    /// The mapping from word to flag.
    open spec fn view(&self) -> Map<Seq<char>, bool> {
        mapping(self.listing())
    }
}

impl FoundLedger {
    /// The entries in the order in which the ledger lists them.
    pub closed spec fn listing(&self) -> Seq<(Seq<char>, bool)> {
        self.entries@.map_values(|e: Entry| (e.word@, e.found))
    }

    /// The ledger's invariant: the words rise strictly, which makes each
    /// word occur once, and none holds an ASCII capital.
    pub open spec fn wf(&self) -> bool {
        &&& sorted(self.listing())
        &&& forall|i: int| 0 <= i < self.listing().len() ==> is_normal(#[trigger] self.listing()[i].0)
    }

    /// The ledger without words.
    pub fn new() -> (r: FoundLedger)
        ensures
            r.wf(),
            r.listing() == Seq::<(Seq<char>, bool)>::empty(),
            r@ == Map::<Seq<char>, bool>::empty(),
    {
        let r = FoundLedger { entries: Vec::new() };
        proof {
            assert(r.listing() =~= Seq::<(Seq<char>, bool)>::empty());
            assert(r@ =~= Map::<Seq<char>, bool>::empty());
        }
        r
    }

    /// The place of `word`, or the place at which it would have to stand,
    /// and which of the two it is.
    fn locate(&self, word: &Vec<char>) -> (r: (usize, bool))
        requires
            sorted(self.listing()),
        ensures
            r.0 <= self.listing().len(),
            r.1 == listed(self.listing(), word@),
            r.1 ==> r.0 < self.listing().len() && self.listing()[r.0 as int].0 == word@,
            forall|i: int| 0 <= i < r.0 ==> precedes(#[trigger] self.listing()[i].0, word@),
            !r.1 ==> forall|i: int|
                r.0 <= i < self.listing().len() ==> precedes(word@, #[trigger] self.listing()[i].0),
    {
        let ghost list = self.listing();
        let mut low: usize = 0;
        let mut high: usize = self.entries.len();
        while low < high
            invariant
                low <= high <= list.len(),
                list == self.listing(),
                list.len() == self.entries.len(),
                sorted(list),
                forall|i: int| 0 <= i < low ==> precedes(#[trigger] list[i].0, word@),
                forall|i: int| high <= i < list.len() ==> precedes(word@, #[trigger] list[i].0),
            decreases high - low,
        {
            let mid: usize = low + (high - low) / 2;
            assert(list[mid as int].0 == self.entries[mid as int].word@);
            match order(&self.entries[mid].word, word) {
                Order::Before => {
                    proof {
                        assert forall|i: int| 0 <= i < mid + 1 implies precedes(
                            #[trigger] list[i].0,
                            word@,
                        ) by {
                            if i < mid {
                                assert(precedes(list[i].0, list[mid as int].0));
                                lemma_precedes_transitive(list[i].0, list[mid as int].0, word@);
                            }
                        }
                    }
                    low = mid + 1;
                },
                Order::Same => {
                    proof {
                        assert forall|i: int| 0 <= i < mid implies precedes(
                            #[trigger] list[i].0,
                            word@,
                        ) by {
                            assert(precedes(list[i].0, list[mid as int].0));
                        }
                    }
                    return (mid, true);
                },
                Order::After => {
                    proof {
                        assert forall|i: int| mid <= i < list.len() implies precedes(
                            word@,
                            #[trigger] list[i].0,
                        ) by {
                            if mid < i {
                                assert(precedes(list[mid as int].0, list[i].0));
                                lemma_precedes_transitive(word@, list[mid as int].0, list[i].0);
                            }
                        }
                    }
                    high = mid;
                },
            }
        }
        proof {
            if listed(list, word@) {
                let i = place_of(list, word@);
                if i < low {
                    lemma_precedes_asymmetric(list[i].0, word@);
                } else {
                    lemma_precedes_asymmetric(word@, list[i].0);
                }
            }
        }
        (low, false)
    }

    /// Enters `key` with `found`; a word that the ledger has already takes
    /// the new flag.
    pub(crate) fn enter(&mut self, key: Vec<char>, found: bool)
        requires
            old(self).wf(),
            is_normal(key@),
        ensures
            final(self).wf(),
            final(self)@ == old(self)@.insert(key@, found),
    {
        let ghost list = self.listing();
        let (p, there) = self.locate(&key);
        if there {
            self.entries[p].found = found;
            proof {
                assert(self.listing() =~= list.update(p as int, (list[p as int].0, found)));
                lemma_update_at(list, p as int, found);
            }
        } else {
            let ghost word = key@;
            self.entries.insert(p, Entry { word: key, found });
            proof {
                assert(self.listing() =~= list.insert(p as int, (word, found)));
                lemma_insert_at(list, p as int, word, found);
            }
        }
    }

    /// Enters `word`, with its capitals made small, and `found`; a word that
    /// the ledger has already takes the new flag.
    pub fn insert(&mut self, word: &str, found: bool)
        requires
            old(self).wf(),
        ensures
            final(self).wf(),
            final(self)@ == old(self)@.insert(lower_word(word@), found),
    {
        let chars = to_chars(word);
        let key = to_lower_word(&chars);
        self.enter(key, found);
    }

    /// Marks `word` found. Says whether the ledger has the word and had it
    /// as not found; a word that the ledger lacks changes nothing.
    pub fn mark_found(&mut self, word: &str) -> (r: bool)
        requires
            old(self).wf(),
        ensures
            final(self).wf(),
            final(self)@ == marked(old(self)@, word@),
            r == (old(self)@.contains_key(word@) && !old(self)@[word@]),
    {
        let chars = to_chars(word);
        self.mark(&chars)
    }

    /// `mark_found` on a word given as characters.
    pub(crate) fn mark(&mut self, word: &Vec<char>) -> (r: bool)
        requires
            old(self).wf(),
        ensures
            final(self).wf(),
            final(self)@ == marked(old(self)@, word@),
            r == (old(self)@.contains_key(word@) && !old(self)@[word@]),
    {
        let ghost list = self.listing();
        let (p, there) = self.locate(word);
        if there {
            let was = self.entries[p].found;
            self.entries[p].found = true;
            proof {
                lemma_sorted_places(list);
                assert(self.listing() =~= list.update(p as int, (list[p as int].0, true)));
                lemma_update_at(list, p as int, true);
            }
            !was
        } else {
            false
        }
    }

    /// Whether the ledger has `word`.
    pub fn contains(&self, word: &str) -> (r: bool)
        requires
            self.wf(),
        ensures
            r == self@.contains_key(word@),
    {
        let chars = to_chars(word);
        self.has_word(&chars)
    }

    /// `contains` on a word given as characters.
    pub(crate) fn has_word(&self, word: &Vec<char>) -> (r: bool)
        requires
            self.wf(),
        ensures
            r == self@.contains_key(word@),
    {
        let (_, there) = self.locate(word);
        there
    }

    /// The flag of `word`, where the ledger has the word.
    pub fn is_found(&self, word: &str) -> (r: Option<bool>)
        requires
            self.wf(),
        ensures
            r == (if self@.contains_key(word@) {
                Some(self@[word@])
            } else {
                None
            }),
    {
        let chars = to_chars(word);
        let (p, there) = self.locate(&chars);
        if there {
            proof {
                lemma_sorted_places(self.listing());
            }
            Some(self.entries[p].found)
        } else {
            None
        }
    }

    /// The number of words.
    pub fn total(&self) -> (r: usize)
        requires
            self.wf(),
        ensures
            r == self.listing().len(),
            r == self@.dom().len(),
    {
        proof {
            lemma_counts(self.listing());
        }
        self.entries.len()
    }

    /// The number of found words.
    pub fn count_found(&self) -> (r: usize)
        requires
            self.wf(),
        ensures
            r == found_words(self@).len(),
            r == found_in(self.listing()),
            r <= self.listing().len(),
    {
        let ghost list = self.listing();
        let mut count: usize = 0;
        let mut i: usize = 0;
        proof {
            assert(list.take(0) =~= Seq::<(Seq<char>, bool)>::empty());
        }
        while i < self.entries.len()
            invariant
                i <= self.entries.len(),
                list == self.listing(),
                list.len() == self.entries.len(),
                count == found_in(list.take(i as int)),
                count <= i,
            decreases self.entries.len() - i,
        {
            proof {
                assert(list.take(i + 1).drop_last() =~= list.take(i as int));
                assert(list.take(i + 1).last() == list[i as int]);
            }
            if self.entries[i].found {
                count += 1;
            }
            i += 1;
        }
        proof {
            assert(list.take(i as int) =~= list);
            lemma_counts(list);
        }
        count
    }

    /// The number of entries.
    pub(crate) fn len(&self) -> (r: usize)
        ensures
            r == self.listing().len(),
    {
        self.entries.len()
    }

    /// The word at place `i` of the listing.
    pub(crate) fn word_at(&self, i: usize) -> (r: &Vec<char>)
        requires
            i < self.listing().len(),
        ensures
            r@ == self.listing()[i as int].0,
    {
        &self.entries[i].word
    }

    /// The flag at place `i` of the listing.
    pub(crate) fn found_at(&self, i: usize) -> (r: bool)
        requires
            i < self.listing().len(),
        ensures
            r == self.listing()[i as int].1,
    {
        self.entries[i].found
    }

    /// The entry at place `i` of the listing.
    pub fn entry(&self, i: usize) -> (r: (String, bool))
        requires
            i < self.listing().len(),
        ensures
            (r.0@, r.1) == self.listing()[i as int],
    {
        (to_string(&self.entries[i].word), self.entries[i].found)
    }

    /// All entries, in the order of the listing.
    pub fn iter_ordered(&self) -> (r: Vec<(String, bool)>)
        ensures
            r@.len() == self.listing().len(),
            forall|i: int| 0 <= i < r@.len() ==> (#[trigger] r@[i].0@, r@[i].1) == self.listing()[i],
    {
        let mut out: Vec<(String, bool)> = Vec::new();
        let mut i: usize = 0;
        while i < self.entries.len()
            invariant
                i <= self.entries.len(),
                self.listing().len() == self.entries.len(),
                out@.len() == i,
                forall|k: int| 0 <= k < i ==> (#[trigger] out@[k].0@, out@[k].1) == self.listing()[k],
            decreases self.entries.len() - i,
        {
            let e = self.entry(i);
            out.push(e);
            i += 1;
        }
        out
    }
}

} // verus!
