//! Elves and shelves counted in a text.

use crate::text::chars_of;
use vstd::prelude::*;

verus! {

/// How often a text speaks of elves and of shelves.
#[derive(Clone, Copy, Debug, PartialEq, Eq)]
pub struct Elf {
    /// The places at which `elf` stands.
    pub elf: usize,
    /// The places at which `shelf` stands with `elf on a ` before it.
    pub elf_on_a_shelf: usize,
    /// The other places at which `shelf` stands.
    pub shelf_with_no_elf_on_it: usize,
}

/// The word `elf`.
pub open spec fn elf_word() -> Seq<char> {
    seq!['e', 'l', 'f']
}

/// The word `shelf`.
pub open spec fn shelf_word() -> Seq<char> {
    seq!['s', 'h', 'e', 'l', 'f']
}

/// The words `elf on a `, with the blank behind them.
pub open spec fn elf_on_a() -> Seq<char> {
    seq!['e', 'l', 'f', ' ', 'o', 'n', ' ', 'a', ' ']
}

/// `word` stands in `text` from the place `at` on.
pub open spec fn stands_at(text: Seq<char>, word: Seq<char>, at: int) -> bool {
    0 <= at && at + word.len() <= text.len() && text.subrange(at, at + word.len()) == word
}

/// The number of places under `upto` of which `marked` holds.
pub open spec fn places(upto: int, marked: spec_fn(int) -> bool) -> nat
    decreases upto,
{
    if upto <= 0 {
        0
    } else {
        places(upto - 1, marked) + if marked(upto - 1) {
            1nat
        } else {
            0nat
        }
    }
}

/// The places at which `elf` stands.
pub open spec fn elf_places(text: Seq<char>) -> spec_fn(int) -> bool {
    |at: int| stands_at(text, elf_word(), at)
}

/// The places at which `shelf` stands behind `elf on a `.
pub open spec fn elf_shelf_places(text: Seq<char>) -> spec_fn(int) -> bool {
    |at: int| stands_at(text, shelf_word(), at) && stands_at(text, elf_on_a(), at - 9)
}

/// The places at which `shelf` stands without `elf on a ` before it.
pub open spec fn bare_shelf_places(text: Seq<char>) -> spec_fn(int) -> bool {
    |at: int| stands_at(text, shelf_word(), at) && !stands_at(text, elf_on_a(), at - 9)
}

/// No more places are counted than there are.
proof fn lemma_places_bound(upto: int, marked: spec_fn(int) -> bool)
    requires
        upto >= 0,
    ensures
        places(upto, marked) <= upto,
    decreases upto,
{
    if upto > 0 {
        lemma_places_bound(upto - 1, marked);
    }
}

/// Whether `word` stands in `chars` from `at` on.
fn word_at(chars: &Vec<char>, word: &Vec<char>, at: usize) -> (r: bool)
    ensures
        r == stands_at(chars@, word@, at as int),
{
    if word.len() > chars.len() || at > chars.len() - word.len() {
        return false;
    }
    let mut i: usize = 0;
    while i < word.len()
        invariant
            i <= word.len(),
            at + word.len() <= chars.len(),
            forall|j: int| 0 <= j < i ==> chars[at + j] == word[j],
        decreases word.len() - i,
    {
        if chars[at + i] != word[i] {
            assert(chars@.subrange(at as int, at + word.len())[i as int] != word[i as int]);
            return false;
        }
        i = i + 1;
    }
    assert(chars@.subrange(at as int, at + word.len()) =~= word@);
    true
}

/// Counts the places at which `elf` stands in the text, and the places at
/// which `shelf` stands, apart by whether `elf on a ` stands before it.
pub fn elf_count(payload: &str) -> (r: Elf)
    ensures
        r.elf == places(payload@.len() as int, elf_places(payload@)),
        r.elf_on_a_shelf == places(payload@.len() as int, elf_shelf_places(payload@)),
        r.shelf_with_no_elf_on_it == places(payload@.len() as int, bare_shelf_places(payload@)),
{
    let chars = chars_of(payload);
    let ghost text = chars@;
    let elf = vec!['e', 'l', 'f'];
    let shelf = vec!['s', 'h', 'e', 'l', 'f'];
    let before = vec!['e', 'l', 'f', ' ', 'o', 'n', ' ', 'a', ' '];
    assert(elf@ =~= elf_word());
    assert(shelf@ =~= shelf_word());
    assert(before@ =~= elf_on_a());
    let mut elves: usize = 0;
    let mut seated: usize = 0;
    let mut bare: usize = 0;
    let mut i: usize = 0;
    while i < chars.len()
        invariant
            i <= chars.len(),
            text == chars@,
            elf@ == elf_word(),
            shelf@ == shelf_word(),
            before@ == elf_on_a(),
            elves == places(i as int, elf_places(text)),
            seated == places(i as int, elf_shelf_places(text)),
            bare == places(i as int, bare_shelf_places(text)),
        decreases chars.len() - i,
    {
        proof {
            lemma_places_bound(i as int, elf_places(text));
            lemma_places_bound(i as int, elf_shelf_places(text));
            lemma_places_bound(i as int, bare_shelf_places(text));
        }
        if word_at(&chars, &elf, i) {
            elves = elves + 1;
        }
        if word_at(&chars, &shelf, i) {
            if i >= 9 && word_at(&chars, &before, i - 9) {
                seated = seated + 1;
            } else {
                bare = bare + 1;
            }
        }
        i = i + 1;
    }
    Elf { elf: elves, elf_on_a_shelf: seated, shelf_with_no_elf_on_it: bare }
}

} // verus!
