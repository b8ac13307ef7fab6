//! The dictionary: an ordered list of words, looked up by text or reading
//! and drawn from at random.

use crate::word::{Word, WordView};
use rand::Rng;
use vstd::prelude::*;

verus! {

/// The words of a game, in the order in which they were loaded. A word may
/// occur more than once.
#[derive(Debug)]
pub struct WordList {
    pub items: Vec<Word>,
}

/// The dictionaries that can be loaded.
#[derive(Debug, Clone, Copy, PartialEq, Eq)]
pub enum WordListType {
    Unidic,
    Pokemon,
}

/// The values of a sequence of words.
pub open spec fn views(words: Seq<Word>) -> Seq<WordView> {
    words.map_values(|w: Word| w@)
}

impl View for WordList {
    type V = Seq<WordView>;

    open spec fn view(&self) -> Seq<WordView> {
        views(self.items@)
    }
}

/// The index of the first word at or after `from` that answers to `query`.
pub open spec fn find_from(words: Seq<WordView>, query: Seq<char>, from: int) -> Option<int>
    decreases words.len() - from,
{
    if from < 0 || from >= words.len() {
        None
    } else if words[from].answers_to(query) {
        Some(from)
    } else {
        find_from(words, query, from + 1)
    }
}

/// The first word whose text or reading is `query`.
pub open spec fn lookup(words: Seq<WordView>, query: Seq<char>) -> Option<WordView> {
    match find_from(words, query, 0) {
        Some(i) => Some(words[i]),
        None => None,
    }
}

/// The test "the reading starts with `prefix`".
pub open spec fn has_prefix(prefix: char) -> spec_fn(WordView) -> bool {
    |w: WordView| w.starts_with(prefix)
}

/// The test "the reading does not end in the terminal sound".
pub open spec fn is_playable() -> spec_fn(WordView) -> bool {
    |w: WordView| !w.ends_in_terminal()
}

/// The indices below `upto` of the words that pass `keep`, in rising order.
pub open spec fn select(words: Seq<WordView>, keep: spec_fn(WordView) -> bool, upto: int) -> Seq<int>
    decreases upto,
{
    if upto <= 0 {
        Seq::empty()
    } else if upto <= words.len() && keep(words[upto - 1]) {
        select(words, keep, upto - 1).push(upto - 1)
    } else {
        select(words, keep, upto - 1)
    }
}

/// The indices of the words whose reading starts with `prefix`.
pub open spec fn with_prefix(words: Seq<WordView>, prefix: char) -> Seq<int> {
    select(words, has_prefix(prefix), words.len() as int)
}

/// The indices of the words that a game can start with.
pub open spec fn playable(words: Seq<WordView>) -> Seq<int> {
    select(words, is_playable(), words.len() as int)
}

/// The value of a word that may be missing.
pub open spec fn opt_view(word: Option<Word>) -> Option<WordView> {
    match word {
        Some(w) => Some(w@),
        None => None,
    }
}

/// Whether a draw among the words whose reading starts with `prefix` can
/// come out as `drawn`: as one of those words, or as nothing where there is
/// no such word.
pub open spec fn can_draw(words: Seq<WordView>, prefix: char, drawn: Option<WordView>) -> bool {
    match drawn {
        Some(word) => exists|k: int|
            0 <= k < with_prefix(words, prefix).len() && word == words[#[trigger] with_prefix(
                words,
                prefix,
            )[k]],
        None => with_prefix(words, prefix).len() == 0,
    }
}

/// The indices held by `picked`, as mathematical integers.
pub open spec fn as_ints(picked: Seq<usize>) -> Seq<int> {
    picked.map_values(|k: usize| k as int)
}

/// Draws an index below `n` from `rand::thread_rng` with `Rng::gen_range`,
/// which panics on an empty range. Nothing is claimed of the draw but its
/// range.
#[verifier::external_body]
pub(crate) fn pick_uniform(n: usize) -> (index: usize)
    requires
        n > 0,
    ensures
        index < n,
{
    rand::thread_rng().gen_range(0..n)
}

/// `select` holds exactly the indices below `upto` that pass `keep`.
pub proof fn lemma_select(words: Seq<WordView>, keep: spec_fn(WordView) -> bool, upto: int)
    requires
        0 <= upto <= words.len(),
    ensures
        select(words, keep, upto).len() <= upto,
        forall|k: int|
            0 <= k < select(words, keep, upto).len() ==> ({
                let i = #[trigger] select(words, keep, upto)[k];
                0 <= i < upto && keep(words[i])
            }),
        forall|i: int|
            0 <= i < upto && keep(#[trigger] words[i]) ==> select(words, keep, upto).contains(i),
    decreases upto,
{
    if upto > 0 {
        lemma_select(words, keep, upto - 1);
        let before = select(words, keep, upto - 1);
        let now = select(words, keep, upto);
        assert forall|i: int| 0 <= i < upto && keep(#[trigger] words[i]) implies now.contains(i) by {
            if i < upto - 1 {
                assert(before.contains(i));
                let k = choose|k: int| 0 <= k < before.len() && before[k] == i;
                assert(now[k] == i);
            } else {
                assert(now[now.len() - 1] == i);
            }
        }
    }
}

/// `select` over the whole list is empty exactly where no word passes
/// `keep`.
pub proof fn lemma_selected_any(words: Seq<WordView>, keep: spec_fn(WordView) -> bool)
    ensures
        select(words, keep, words.len() as int).len() > 0 <==> exists|i: int|
            0 <= i < words.len() && keep(#[trigger] words[i]),
{
    lemma_select(words, keep, words.len() as int);
    let picked = select(words, keep, words.len() as int);
    if picked.len() > 0 {
        assert(keep(words[picked[0]]));
    }
    if exists|i: int| 0 <= i < words.len() && keep(#[trigger] words[i]) {
        let i = choose|i: int| 0 <= i < words.len() && keep(#[trigger] words[i]);
        assert(picked.contains(i));
    }
}

/// A lookup finds a word if and only if some word of the list has the query
/// as its text or as its reading, and then it finds the first such word.
pub proof fn lemma_lookup_finds_first(words: Seq<WordView>, query: Seq<char>)
    ensures
        lookup(words, query) is Some <==> exists|i: int|
            0 <= i < words.len() && (#[trigger] words[i]).answers_to(query),
        lookup(words, query) is Some ==> ({
            let i = find_from(words, query, 0)->0;
            &&& 0 <= i < words.len()
            &&& lookup(words, query) == Some(words[i])
            &&& words[i].answers_to(query)
            &&& forall|j: int| 0 <= j < i ==> !(#[trigger] words[j]).answers_to(query)
        }),
{
    lemma_find_from(words, query, 0);
}

/// What `find_from` returns, for any starting index.
proof fn lemma_find_from(words: Seq<WordView>, query: Seq<char>, from: int)
    requires
        0 <= from,
    ensures
        find_from(words, query, from) is Some <==> exists|i: int|
            from <= i < words.len() && (#[trigger] words[i]).answers_to(query),
        find_from(words, query, from) is Some ==> ({
            let i = find_from(words, query, from)->0;
            &&& from <= i < words.len()
            &&& words[i].answers_to(query)
            &&& forall|j: int| from <= j < i ==> !(#[trigger] words[j]).answers_to(query)
        }),
    decreases words.len() - from,
{
    if from < words.len() && !words[from].answers_to(query) {
        lemma_find_from(words, query, from + 1);
    }
}

/// Every word whose reading starts with `prefix` can be drawn: its index
/// stands in the list that the draw is made from.
pub proof fn lemma_every_match_can_be_drawn(words: Seq<WordView>, prefix: char, i: int)
    requires
        0 <= i < words.len(),
        words[i].starts_with(prefix),
    ensures
        with_prefix(words, prefix).contains(i),
        can_draw(words, prefix, Some(words[i])),
{
    lemma_select(words, has_prefix(prefix), words.len() as int);
    assert(has_prefix(prefix)(words[i]));
    let picked = with_prefix(words, prefix);
    assert(picked.contains(i));
    let k = choose|k: int| 0 <= k < picked.len() && picked[k] == i;
    assert(words[i] == words[picked[k]]);
}

/// A draw never comes out as a word whose reading does not start with
/// `prefix`, nor as a word that the list does not hold.
pub proof fn lemma_draw_has_prefix(words: Seq<WordView>, prefix: char, word: WordView)
    requires
        can_draw(words, prefix, Some(word)),
    ensures
        word.starts_with(prefix),
        words.contains(word),
{
    lemma_select(words, has_prefix(prefix), words.len() as int);
    let picked = with_prefix(words, prefix);
    let k = choose|k: int| 0 <= k < picked.len() && word == words[#[trigger] picked[k]];
    assert(has_prefix(prefix)(words[picked[k]]));
}

impl WordList {
    /// A list of the given words, in their order.
    pub fn new(items: Vec<Word>) -> (list: WordList)
        ensures
            list.items == items,
    {
        WordList { items }
    }

    /// Whether every word of the list has a first and a last sound.
    pub open spec fn pronounceable(&self) -> bool {
        forall|i: int| 0 <= i < self@.len() ==> (#[trigger] self@[i]).pronounceable()
    }

    /// Whether every word of the list has a reading.
    pub fn all_pronounceable(&self) -> (yes: bool)
        ensures
            yes == self.pronounceable(),
    {
        let mut i: usize = 0;
        while i < self.items.len()
            invariant
                i <= self.items.len(),
                forall|j: int| 0 <= j < i ==> (#[trigger] self@[j]).pronounceable(),
            decreases self.items.len() - i,
        {
            if self.items[i].reading.as_str().unicode_len() == 0 {
                assert(!self@[i as int].pronounceable());
                return false;
            }
            i += 1;
        }
        true
    }

    /// The first word whose text or reading is `text`, if there is one.
    pub fn word_by_text(&self, text: &str) -> (found: Option<Word>)
        ensures
            opt_view(found) == lookup(self@, text@),
    {
        let query = String::from_str(text);
        let mut i: usize = 0;
        while i < self.items.len()
            invariant
                i <= self.items.len(),
                query@ == text@,
                find_from(self@, text@, 0) == find_from(self@, text@, i as int),
            decreases self.items.len() - i,
        {
            let item = &self.items[i];
            if item.text == query || item.reading == query {
                return Some(item.clone());
            }
            i += 1;
        }
        None
    }

    /// A word of the list, drawn at random.
    pub fn random_word(&self) -> (word: Word)
        requires
            self@.len() > 0,
        ensures
            exists|i: int| 0 <= i < self@.len() && word@ == self@[i],
    {
        let i = pick_uniform(self.items.len());
        let word = self.items[i].clone();
        assert(word@ == self@[i as int]);
        word
    }

    /// The indices of the words whose reading starts with `prefix`, in
    /// rising order.
    pub fn prefix_matches(&self, prefix: char) -> (picked: Vec<usize>)
        ensures
            as_ints(picked@) == with_prefix(self@, prefix),
            forall|k: int|
                0 <= k < picked@.len() ==> (#[trigger] picked@[k]) < self@.len() && self@[picked@[k] as int].starts_with(prefix),
            picked@.len() > 0 <==> exists|i: int|
                0 <= i < self@.len() && (#[trigger] self@[i]).starts_with(prefix),
    {
        let mut picked: Vec<usize> = Vec::new();
        let mut i: usize = 0;
        while i < self.items.len()
            invariant
                i <= self.items.len(),
                as_ints(picked@) == select(self@, has_prefix(prefix), i as int),
            decreases self.items.len() - i,
        {
            if self.items[i].starts_with(prefix) {
                picked.push(i);
            }
            i += 1;
            assert(as_ints(picked@) =~= select(self@, has_prefix(prefix), i as int));
        }
        proof {
            lemma_select(self@, has_prefix(prefix), self@.len() as int);
            lemma_selected_any(self@, has_prefix(prefix));
            assert forall|k: int| 0 <= k < picked@.len() implies (#[trigger] picked@[k])
                < self@.len() && self@[picked@[k] as int].starts_with(prefix) by {
                assert(as_ints(picked@)[k] == picked@[k] as int);
                assert(has_prefix(prefix)(self@[picked@[k] as int]));
            }
        }
        picked
    }

    /// The indices of the words whose reading does not end in the terminal
    /// sound, in rising order.
    pub fn playable_words(&self) -> (picked: Vec<usize>)
        ensures
            as_ints(picked@) == playable(self@),
            forall|k: int|
                0 <= k < picked@.len() ==> (#[trigger] picked@[k]) < self@.len() && !self@[picked@[k] as int].ends_in_terminal(),
            picked@.len() > 0 <==> exists|i: int|
                0 <= i < self@.len() && !(#[trigger] self@[i]).ends_in_terminal(),
    {
        let mut picked: Vec<usize> = Vec::new();
        let mut i: usize = 0;
        while i < self.items.len()
            invariant
                i <= self.items.len(),
                as_ints(picked@) == select(self@, is_playable(), i as int),
            decreases self.items.len() - i,
        {
            if !self.items[i].last_letter_is_invalid() {
                picked.push(i);
            }
            i += 1;
            assert(as_ints(picked@) =~= select(self@, is_playable(), i as int));
        }
        proof {
            lemma_select(self@, is_playable(), self@.len() as int);
            lemma_selected_any(self@, is_playable());
            assert forall|k: int| 0 <= k < picked@.len() implies (#[trigger] picked@[k])
                < self@.len() && !self@[picked@[k] as int].ends_in_terminal() by {
                assert(as_ints(picked@)[k] == picked@[k] as int);
                assert(is_playable()(self@[picked@[k] as int]));
            }
        }
        picked
    }

    /// The word that a draw stands for: the word at the `k`-th of the
    /// indices in `picked`.
    pub fn word_at(&self, picked: &Vec<usize>, k: usize) -> (word: Word)
        requires
            k < picked@.len(),
            forall|j: int| 0 <= j < picked@.len() ==> (#[trigger] picked@[j]) < self@.len(),
        ensures
            word@ == self@[picked@[k as int] as int],
    {
        self.items[picked[k]].clone()
    }

    /// A word drawn at random from those whose reading starts with `prefix`;
    /// `None` where there is none.
    pub fn random_word_by_prefix(&self, prefix: char) -> (drawn: Option<Word>)
        ensures
            can_draw(self@, prefix, opt_view(drawn)),
            drawn is None <==> with_prefix(self@, prefix).len() == 0,
            drawn is Some ==> drawn->0@.starts_with(prefix),
    {
        let picked = self.prefix_matches(prefix);
        if picked.len() == 0 {
            None
        } else {
            let k = pick_uniform(picked.len());
            let word = self.word_at(&picked, k);
            assert(as_ints(picked@)[k as int] == picked@[k as int] as int);
            assert(word@ == self@[with_prefix(self@, prefix)[k as int]]);
            Some(word)
        }
    }
}

} // verus!
