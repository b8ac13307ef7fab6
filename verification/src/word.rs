//! A dictionary entry: its surface text and its normalized phonetic reading.

use regex::Regex;
use vstd::prelude::*;

pub mod word_list;

pub use word_list::{WordList, WordListType};

verus! {

/// The long-vowel mark, erased from the end of a reading.
pub const ELONGATION_MARK: char = 'ー';

/// The sound on which no word may end.
pub const TERMINAL_SOUND: char = 'ン';

/// The mathematical value of a [`Word`].
pub struct WordView {
    pub text: Seq<char>,
    pub reading: Seq<char>,
}

/// A word as it is shown (`text`) and as it is pronounced (`reading`).
#[derive(Debug)]
pub struct Word {
    pub text: String,
    pub reading: String,
}

impl View for Word {
    type V = WordView;

    open spec fn view(&self) -> WordView {
        WordView { text: self.text@, reading: self.reading@ }
    }
}

impl Clone for Word {
    fn clone(&self) -> (copy: Self)
        ensures
            copy == *self,
    {
        Word { text: self.text.clone(), reading: self.reading.clone() }
    }
}

/// Whether `c` is one of the twelve small (contracted) kana.
pub open spec fn is_small(c: char) -> bool {
    c == 'ァ' || c == 'ィ' || c == 'ゥ' || c == 'ェ' || c == 'ォ' || c == 'ヵ' || c == 'ヶ'
        || c == 'ッ' || c == 'ャ' || c == 'ュ' || c == 'ョ' || c == 'ヮ'
}

/// The full-size kana that a small kana stands for; any other character is
/// kept.
pub open spec fn full_size(c: char) -> char {
    if c == 'ァ' {
        'ア'
    } else if c == 'ィ' {
        'イ'
    } else if c == 'ゥ' {
        'ウ'
    } else if c == 'ェ' {
        'エ'
    } else if c == 'ォ' {
        'オ'
    } else if c == 'ヵ' {
        'カ'
    } else if c == 'ヶ' {
        'ケ'
    } else if c == 'ッ' {
        'ツ'
    } else if c == 'ャ' {
        'ヤ'
    } else if c == 'ュ' {
        'ユ'
    } else if c == 'ョ' {
        'ヨ'
    } else if c == 'ヮ' {
        'ワ'
    } else {
        c
    }
}

/// `s` without its last character, where that is the elongation mark.
pub open spec fn strip_elongation(s: Seq<char>) -> Seq<char> {
    if s.len() > 0 && s.last() == ELONGATION_MARK {
        s.drop_last()
    } else {
        s
    }
}

/// The normalized form of a reading: one elongation mark is erased from its
/// end, then every small kana is replaced by its full-size kana.
pub open spec fn normalize(reading: Seq<char>) -> Seq<char> {
    strip_elongation(reading).map_values(|c: char| full_size(c))
}

/// Whether `s` holds no small kana.
pub open spec fn has_no_small_kana(s: Seq<char>) -> bool {
    forall|i: int| 0 <= i < s.len() ==> !is_small(#[trigger] s[i])
}

/// The pattern that matches one elongation mark at the very end of a text.
pub open spec fn end_mark_pattern() -> Seq<char> {
    seq!['ー', '\\', 'z']
}

/// Compiles `pattern` with `regex::Regex::new` and erases every match from
/// `haystack` with `Regex::replace_all`. The pattern admitted here is the
/// literal elongation mark followed by the end-of-text anchor, which can
/// match at most once, at the end: the claim is that the result is the
/// haystack without that final mark.
#[verifier::external_body]
fn erase_matches(pattern: &str, haystack: &str) -> (out: String)
    requires
        pattern@ == end_mark_pattern(),
    ensures
        out@ == strip_elongation(haystack@),
{
    Regex::new(pattern).unwrap().replace_all(haystack, "").into_owned()
}

/// `String::push` appends one character.
pub assume_specification[ String::push ](s: &mut String, c: char)
    ensures
        final(s)@ == old(s)@.push(c),
;

/// The full-size kana for `c`.
pub fn to_full_size(c: char) -> (r: char)
    ensures
        r == full_size(c),
{
    if c == 'ァ' {
        'ア'
    } else if c == 'ィ' {
        'イ'
    } else if c == 'ゥ' {
        'ウ'
    } else if c == 'ェ' {
        'エ'
    } else if c == 'ォ' {
        'オ'
    } else if c == 'ヵ' {
        'カ'
    } else if c == 'ヶ' {
        'ケ'
    } else if c == 'ッ' {
        'ツ'
    } else if c == 'ャ' {
        'ヤ'
    } else if c == 'ュ' {
        'ユ'
    } else if c == 'ョ' {
        'ヨ'
    } else if c == 'ヮ' {
        'ワ'
    } else {
        c
    }
}

impl WordView {
    /// Whether the reading has a first and a last sound.
    pub open spec fn pronounceable(self) -> bool {
        self.reading.len() > 0
    }

    /// The first sound of the reading.
    pub open spec fn first_letter(self) -> char
        recommends
            self.pronounceable(),
    {
        self.reading[0]
    }

    /// The last sound of the reading.
    pub open spec fn last_letter(self) -> char
        recommends
            self.pronounceable(),
    {
        self.reading.last()
    }

    /// Whether the reading ends in the terminal sound.
    pub open spec fn ends_in_terminal(self) -> bool {
        self.reading.len() > 0 && self.reading.last() == TERMINAL_SOUND
    }

    /// Whether the reading starts with `prefix`.
    pub open spec fn starts_with(self, prefix: char) -> bool {
        self.reading.len() > 0 && self.reading[0] == prefix
    }

    /// Whether `query` is this word's text or its reading.
    pub open spec fn answers_to(self, query: Seq<char>) -> bool {
        self.text == query || self.reading == query
    }
}

impl Word {
    /// A word with the given text and the normalized form of `reading`.
    pub fn new(text: String, reading: String) -> (word: Word)
        ensures
            word.text == text,
            word.reading@ == normalize(reading@),
            has_no_small_kana(word.reading@),
    {
        let pattern = "ー\\z";
        proof {
            reveal_strlit("ー\\z");
            assert(pattern@ =~= end_mark_pattern());
        }
        let stripped = erase_matches(pattern, reading.as_str());
        let source = stripped.as_str();
        let mut out = String::new();
        for c in it: source.chars()
            invariant
                it.seq() == source@,
                out@ == source@.take(it.index() as int).map_values(|c: char| full_size(c)),
        {
            out.push(to_full_size(c));
            assert(out@ =~= source@.take(it.index() + 1).map_values(|c: char| full_size(c)));
        }
        assert(source@.take(source@.len() as int) =~= source@);
        Word { text, reading: out }
    }

    /// The first sound of the reading.
    pub fn first_letter(&self) -> (c: char)
        requires
            self@.pronounceable(),
        ensures
            c == self@.first_letter(),
    {
        self.reading.as_str().get_char(0)
    }

    /// The last sound of the reading.
    pub fn last_letter(&self) -> (c: char)
        requires
            self@.pronounceable(),
        ensures
            c == self@.last_letter(),
    {
        let reading = self.reading.as_str();
        let n = reading.unicode_len();
        reading.get_char(n - 1)
    }

    /// Whether the reading ends in the terminal sound.
    pub fn last_letter_is_invalid(&self) -> (invalid: bool)
        ensures
            invalid == self@.ends_in_terminal(),
    {
        let reading = self.reading.as_str();
        let n = reading.unicode_len();
        n > 0 && reading.get_char(n - 1) == TERMINAL_SOUND
    }

    /// Whether the reading starts with `prefix`.
    pub fn starts_with(&self, prefix: char) -> (yes: bool)
        ensures
            yes == self@.starts_with(prefix),
    {
        let reading = self.reading.as_str();
        reading.unicode_len() > 0 && reading.get_char(0) == prefix
    }
}

/// A normalized reading holds no small kana.
pub proof fn lemma_normalize_has_no_small_kana(reading: Seq<char>)
    ensures
        has_no_small_kana(normalize(reading)),
{
}

/// Where the elongation mark stands nowhere in a reading but at its end, the
/// normalized reading holds no elongation mark.
pub proof fn lemma_normalize_has_no_elongation_mark(reading: Seq<char>)
    requires
        forall|i: int| 0 <= i < reading.len() - 1 ==> reading[i] != ELONGATION_MARK,
    ensures
        forall|i: int|
            0 <= i < normalize(reading).len() ==> #[trigger] normalize(reading)[i]
                != ELONGATION_MARK,
{
}

/// Normalizing a normalized reading changes nothing, unless the reading ends
/// in two elongation marks.
pub proof fn lemma_normalize_idempotent(reading: Seq<char>)
    requires
        strip_elongation(reading).len() == 0 || strip_elongation(reading).last()
            != ELONGATION_MARK,
    ensures
        normalize(normalize(reading)) == normalize(reading),
{
    let once = normalize(reading);
    assert(strip_elongation(once) == once);
    assert(normalize(once) =~= once);
}

} // verus!
