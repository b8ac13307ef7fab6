//! The turn engine: the state of one game and the rules that end it.

use crate::word::word_list::{
    can_draw, lemma_draw_has_prefix, lemma_lookup_finds_first, lookup, opt_view, pick_uniform,
    views, with_prefix, WordList,
};
use crate::word::{normalize, Word, WordView};
use vstd::prelude::*;

verus! {

/// The two sides of a game.
#[derive(Debug, Clone, Copy, PartialEq, Eq, Structural)]
pub enum Player {
    Bot,
    You,
}

/// Why a game ended.
#[derive(Debug, Clone, Copy, PartialEq, Eq, Structural)]
pub enum Reason {
    DuplicatedWord,
    FirstLetterIsInvalid,
    LastLetterIsInvalid,
    NotFoundInDictionary,
}

/// The outcome of a turn: whether the game is over, and if so, who won and
/// why.
#[derive(Debug, Clone, Copy, PartialEq, Eq)]
pub struct Judgement {
    pub game_over: bool,
    pub winner: Option<Player>,
    pub reason: Option<Reason>,
}

/// One game: its dictionary and the words played so far, oldest first.
#[derive(Debug)]
pub struct Game {
    pub word_list: WordList,
    pub histories: Vec<Word>,
}

/// The mathematical value of a [`Game`].
pub struct GameView {
    pub words: Seq<WordView>,
    pub history: Seq<WordView>,
}

impl View for Game {
    type V = GameView;

    open spec fn view(&self) -> GameView {
        GameView { words: self.word_list@, history: views(self.histories@) }
    }
}

/// A judgement and the history that a turn leaves behind.
pub struct Turn {
    pub judgement: Judgement,
    pub history: Seq<WordView>,
}

/// The judgement that ends a game.
pub open spec fn lost(winner: Player, reason: Reason) -> Judgement {
    Judgement { game_over: true, winner: Some(winner), reason: Some(reason) }
}

/// The judgement that lets a game go on.
pub open spec fn goes_on() -> Judgement {
    Judgement { game_over: false, winner: None, reason: None }
}

/// The word that stands in the history for a reply that the bot could not
/// find.
pub open spec fn placeholder() -> WordView {
    WordView { text: Seq::empty(), reading: Seq::empty() }
}

/// Whether some word of `history` has `text` as its text.
pub open spec fn duplicated(history: Seq<WordView>, text: Seq<char>) -> bool {
    exists|i: int| 0 <= i < history.len() && (#[trigger] history[i]).text == text
}

/// The judgement on `next`, played under `text` after `current`, with
/// `winner` as the other side. A turn judges a word under its own text. A missing word loses; then the rules apply in
/// this order: the text was played before, the first sound does not continue
/// `current`, the last sound is the terminal sound.
pub open spec fn verdict(
    history: Seq<WordView>,
    text: Seq<char>,
    current: WordView,
    next: Option<WordView>,
    winner: Player,
) -> Judgement {
    match next {
        None => lost(winner, Reason::NotFoundInDictionary),
        Some(word) => if duplicated(history, text) {
            lost(winner, Reason::DuplicatedWord)
        } else if current.last_letter() != word.first_letter() {
            lost(winner, Reason::FirstLetterIsInvalid)
        } else if word.ends_in_terminal() {
            lost(winner, Reason::LastLetterIsInvalid)
        } else {
            goes_on()
        },
    }
}

/// The bot's half of a turn, for a given draw: the drawn word is judged
/// after the last word of `history` and appended; where nothing was drawn
/// the bot loses and the placeholder is appended.
pub open spec fn reply(history: Seq<WordView>, drawn: Option<WordView>) -> Turn {
    match drawn {
        Some(word) => Turn {
            judgement: verdict(history, word.text, history.last(), Some(word), Player::You),
            history: history.push(word),
        },
        None => Turn {
            judgement: lost(Player::You, Reason::NotFoundInDictionary),
            history: history.push(placeholder()),
        },
    }
}

/// Whether a turn on `text` can end with `judgement` and the history
/// `after`. A text that the dictionary does not know loses and leaves the
/// history as it was. A known word is appended and judged by its own text
/// and reading, whichever of the two it was found by; where it stands, the
/// bot replies with a draw among the words that continue it.
pub open spec fn turn_allows(
    words: Seq<WordView>,
    history: Seq<WordView>,
    text: Seq<char>,
    judgement: Judgement,
    after: Seq<WordView>,
) -> bool {
    match lookup(words, text) {
        None => judgement == lost(Player::Bot, Reason::NotFoundInDictionary) && after == history,
        Some(word) => {
            let first = verdict(history, word.text, history.last(), Some(word), Player::Bot);
            if first.game_over {
                judgement == first && after == history.push(word)
            } else {
                exists|drawn: Option<WordView>|
                    {
                        &&& can_draw(words, word.last_letter(), drawn)
                        &&& #[trigger] reply(history.push(word), drawn) == (Turn {
                            judgement,
                            history: after,
                        })
                    }
            }
        },
    }
}

impl Judgement {
    /// A judgement with the given fields.
    pub fn new(game_over: bool, winner: Option<Player>, reason: Option<Reason>) -> (judgement: Judgement)
        ensures
            judgement == (Judgement { game_over, winner, reason }),
    {
        Judgement { game_over, winner, reason }
    }
}

impl Player {
    /// The player's name.
    pub fn as_str(&self) -> (name: &'static str)
        ensures
            name@ == (match *self {
                Player::Bot => "Bot"@,
                Player::You => "You"@,
            }),
    {
        match self {
            Player::Bot => "Bot",
            Player::You => "You",
        }
    }
}

impl Reason {
    /// The reason in words.
    pub fn as_str(&self) -> (words: &'static str)
        ensures
            words@ == (match *self {
                Reason::DuplicatedWord => "duplicated word"@,
                Reason::FirstLetterIsInvalid => "first letter is invalid"@,
                Reason::LastLetterIsInvalid => "last letter is invalid"@,
                Reason::NotFoundInDictionary => "not found in dictionary"@,
            }),
    {
        match self {
            Reason::DuplicatedWord => "duplicated word",
            Reason::FirstLetterIsInvalid => "first letter is invalid",
            Reason::LastLetterIsInvalid => "last letter is invalid",
            Reason::NotFoundInDictionary => "not found in dictionary",
        }
    }
}

impl Game {
    /// Whether a turn can be played: every word of the dictionary has a
    /// reading, and so has the current word.
    pub open spec fn wf(&self) -> bool {
        &&& self.word_list.pronounceable()
        &&& self@.history.len() > 0
        &&& self@.history.last().pronounceable()
    }

    /// Whether a turn can be played.
    pub fn can_play(&self) -> (yes: bool)
        ensures
            yes == self.wf(),
    {
        let n = self.histories.len();
        n > 0 && self.histories[n - 1].reading.as_str().unicode_len() > 0
            && self.word_list.all_pronounceable()
    }

    /// A game that starts with a word drawn at random from those that do not
    /// end in the terminal sound.
    pub fn new(word_list: WordList) -> (game: Game)
        requires
            exists|i: int| 0 <= i < word_list@.len() && !(#[trigger] word_list@[i]).ends_in_terminal(),
        ensures
            game.word_list == word_list,
            exists|i: int|
                0 <= i < word_list@.len() && !(#[trigger] word_list@[i]).ends_in_terminal()
                    && game@.history == seq![word_list@[i]],
            word_list.pronounceable() ==> game.wf(),
    {
        let candidates = word_list.playable_words();
        let k = pick_uniform(candidates.len());
        let seed = word_list.word_at(&candidates, k);
        let mut histories: Vec<Word> = Vec::new();
        histories.push(seed);
        assert(views(histories@) =~= seq![word_list@[candidates@[k as int] as int]]);
        Game { word_list, histories }
    }

    /// The word played last.
    pub fn current_word(&self) -> (word: Word)
        requires
            self@.history.len() > 0,
        ensures
            word@ == self@.history.last(),
    {
        self.histories[self.histories.len() - 1].clone()
    }

    /// Whether `text` is the text of a word played so far.
    pub fn duplicated(&self, text: &str) -> (found: bool)
        ensures
            found == duplicated(self@.history, text@),
    {
        let query = String::from_str(text);
        let mut i: usize = 0;
        while i < self.histories.len()
            invariant
                i <= self.histories.len(),
                query@ == text@,
                forall|j: int| 0 <= j < i ==> (#[trigger] self@.history[j]).text != text@,
            decreases self.histories.len() - i,
        {
            if self.histories[i].text == query {
                assert(self@.history[i as int].text == text@);
                return true;
            }
            i += 1;
        }
        false
    }

    /// Judges `next_word`, played under `text` after `current_word`, with
    /// `winner` as the side that wins if a rule is broken.
    pub fn judge(
        &self,
        text: &str,
        current_word: Word,
        next_word: Option<Word>,
        winner: Player,
    ) -> (judgement: Judgement)
        requires
            next_word is Some && !duplicated(self@.history, text@) ==> current_word@.pronounceable(),
            next_word is Some && !duplicated(self@.history, text@) ==> next_word->0@.pronounceable(),
        ensures
            judgement == verdict(self@.history, text@, current_word@, opt_view(next_word), winner),
    {
        match next_word {
            Some(word) => {
                if self.duplicated(text) {
                    return Judgement::new(true, Some(winner), Some(Reason::DuplicatedWord));
                } else if current_word.last_letter() != word.first_letter() {
                    return Judgement::new(true, Some(winner), Some(Reason::FirstLetterIsInvalid));
                } else if word.last_letter_is_invalid() {
                    return Judgement::new(true, Some(winner), Some(Reason::LastLetterIsInvalid));
                }
                Judgement::new(false, None, None)
            },
            None => Judgement::new(true, Some(winner), Some(Reason::NotFoundInDictionary)),
        }
    }

    /// The bot's half of a turn, for a given draw: judges the drawn word
    /// after the current word and appends it. Where nothing was drawn the bot
    /// loses, and a word without text and reading is appended.
    pub fn reply_with(&mut self, drawn: Option<Word>) -> (judgement: Judgement)
        requires
            old(self)@.history.len() > 0,
            drawn is Some && !duplicated(old(self)@.history, drawn->0@.text) ==> old(
                self,
            )@.history.last().pronounceable(),
            drawn is Some && !duplicated(old(self)@.history, drawn->0@.text)
                ==> drawn->0@.pronounceable(),
        ensures
            final(self).word_list == old(self).word_list,
            reply(old(self)@.history, opt_view(drawn)) == (Turn {
                judgement,
                history: final(self)@.history,
            }),
    {
        let ghost before = self@.history;
        match drawn {
            Some(word) => {
                let current = self.current_word();
                let judgement = self.judge(word.text.as_str(), current, Some(word.clone()), Player::You);
                self.histories.push(word);
                assert(self@.history =~= before.push(word@));
                judgement
            },
            None => {
                let blank = Word::new(String::new(), String::new());
                assert(blank@ =~= placeholder()) by {
                    assert(normalize(Seq::<char>::empty()) =~= Seq::<char>::empty());
                }
                self.histories.push(blank);
                assert(self@.history =~= before.push(placeholder()));
                Judgement::new(true, Some(Player::You), Some(Reason::NotFoundInDictionary))
            },
        }
    }

    /// Plays one turn: judges the word that the dictionary knows by `text`,
    /// under that word's own text, and where it stands, lets the bot reply
    /// with a word drawn at random among those that continue it.
    pub fn next_turn(&mut self, text: &str) -> (judgement: Judgement)
        requires
            old(self).wf(),
        ensures
            final(self).word_list == old(self).word_list,
            turn_allows(old(self)@.words, old(self)@.history, text@, judgement, final(self)@.history),
            !judgement.game_over ==> final(self).wf(),
    {
        let ghost before = self@.history;
        let ghost words = self@.words;
        proof {
            lemma_lookup_finds_first(words, text@);
        }
        let found = self.word_list.word_by_text(text);
        match found {
            None => self.judge(text, self.current_word(), None, Player::Bot),
            Some(word) => {
                let judgement = self.judge(
                    word.text.as_str(),
                    self.current_word(),
                    Some(word.clone()),
                    Player::Bot,
                );
                let last = word.last_letter();
                self.histories.push(word);
                assert(self@.history =~= before.push(word@));
                if judgement.game_over {
                    return judgement;
                }
                let drawn = self.word_list.random_word_by_prefix(last);
                let judgement = self.reply_with(drawn);
                assert(reply(before.push(word@), opt_view(drawn)) == (Turn {
                    judgement,
                    history: self@.history,
                }));
                judgement
            },
        }
    }
}

/// The rules apply in a fixed order: a repeated text ends the game as a
/// duplicate whatever else is wrong with the word, and a word that does not
/// continue the current one ends it for its first sound even where it also
/// ends in the terminal sound.
pub proof fn lemma_rule_precedence(
    history: Seq<WordView>,
    text: Seq<char>,
    current: WordView,
    word: WordView,
    winner: Player,
)
    ensures
        ({
            let judgement = verdict(history, text, current, Some(word), winner);
            let repeated = duplicated(history, text);
            let broken = current.last_letter() != word.first_letter();
            let terminal = word.ends_in_terminal();
            &&& repeated ==> judgement == lost(winner, Reason::DuplicatedWord)
            &&& !repeated && broken ==> judgement == lost(winner, Reason::FirstLetterIsInvalid)
            &&& !repeated && !broken && terminal ==> judgement == lost(
                winner,
                Reason::LastLetterIsInvalid,
            )
            &&& !repeated && !broken && !terminal ==> judgement == goes_on()
        }),
{
}

/// A judgement names a winner and a reason exactly where it ends the game.
/// A text that the dictionary does not know lets the bot win. Where the bot
/// wins, at most the submitted word was appended; where the human wins, the
/// submitted word and the bot's reply were.
pub proof fn lemma_turn_judgement_shape(
    words: Seq<WordView>,
    history: Seq<WordView>,
    text: Seq<char>,
    judgement: Judgement,
    after: Seq<WordView>,
)
    requires
        turn_allows(words, history, text, judgement, after),
    ensures
        judgement.game_over <==> judgement.winner is Some,
        judgement.game_over <==> judgement.reason is Some,
        lookup(words, text) is None ==> judgement == lost(
            Player::Bot,
            Reason::NotFoundInDictionary,
        ),
        judgement.winner == Some(Player::Bot) ==> after.len() <= history.len() + 1,
        judgement.winner == Some(Player::You) ==> after.len() == history.len() + 2,
{
}

/// A turn only appends to the history: nothing for a text that the
/// dictionary does not know, the submitted word alone where it loses, and
/// the submitted word and the bot's reply otherwise.
pub proof fn lemma_turn_extends_history(
    words: Seq<WordView>,
    history: Seq<WordView>,
    text: Seq<char>,
    judgement: Judgement,
    after: Seq<WordView>,
)
    requires
        turn_allows(words, history, text, judgement, after),
    ensures
        history.len() <= after.len() <= history.len() + 2,
        after.subrange(0, history.len() as int) == history,
        after.len() == history.len() <==> lookup(words, text) is None,
        after.len() > history.len() ==> Some(after[history.len() as int]) == lookup(words, text),
{
    assert(after.subrange(0, history.len() as int) =~= history);
}

/// Where the game goes on after a turn, both new words kept the rules: the
/// submitted word was not played before and continues the word before it, the bot's reply is a word of the dictionary that continues
/// the submitted word and was not played before, and neither ends in the
/// terminal sound.
pub proof fn lemma_game_goes_on(
    words: Seq<WordView>,
    history: Seq<WordView>,
    text: Seq<char>,
    judgement: Judgement,
    after: Seq<WordView>,
)
    requires
        history.len() > 0,
        turn_allows(words, history, text, judgement, after),
        !judgement.game_over,
    ensures
        judgement == goes_on(),
        after.len() == history.len() + 2,
        ({
            let submitted = after[after.len() - 2];
            let replied = after.last();
            &&& lookup(words, text) == Some(submitted)
            &&& !duplicated(history, submitted.text)
            &&& submitted.first_letter() == history.last().last_letter()
            &&& !submitted.ends_in_terminal()
            &&& words.contains(replied)
            &&& replied.starts_with(submitted.last_letter())
            &&& !duplicated(history.push(submitted), replied.text)
            &&& !replied.ends_in_terminal()
        }),
{
    let word = lookup(words, text)->0;
    let drawn = choose|drawn: Option<WordView>|
        {
            &&& can_draw(words, word.last_letter(), drawn)
            &&& #[trigger] reply(history.push(word), drawn) == (Turn { judgement, history: after })
        };
    lemma_draw_has_prefix(words, word.last_letter(), drawn->0);
}

/// The judgement on the bot's reply `replied` after `history`, whose last
/// word it continues: it loses as a duplicate, else for the terminal sound,
/// else the game goes on.
pub open spec fn reply_verdict(history: Seq<WordView>, replied: WordView) -> Judgement {
    if duplicated(history, replied.text) {
        lost(Player::You, Reason::DuplicatedWord)
    } else if replied.ends_in_terminal() {
        lost(Player::You, Reason::LastLetterIsInvalid)
    } else {
        goes_on()
    }
}

/// The whole outcome of a turn on a text that the dictionary knows as
/// `word`. A word whose text was played, that does not continue the current
/// word, or that ends in the terminal sound loses to the bot, by the first
/// of these that holds, and is appended alone. Otherwise the bot replies:
/// with nothing to draw it forfeits, and else one of the words that continue
/// `word` is appended behind it and judged.
pub proof fn lemma_turn_outcome(
    words: Seq<WordView>,
    history: Seq<WordView>,
    text: Seq<char>,
    word: WordView,
    judgement: Judgement,
    after: Seq<WordView>,
)
    requires
        history.len() > 0,
        lookup(words, text) == Some(word),
        turn_allows(words, history, text, judgement, after),
    ensures
        ({
            let repeated = duplicated(history, word.text);
            let broken = history.last().last_letter() != word.first_letter();
            let terminal = word.ends_in_terminal();
            let legal = !repeated && !broken && !terminal;
            let choice = with_prefix(words, word.last_letter());
            &&& repeated ==> judgement == lost(Player::Bot, Reason::DuplicatedWord)
            &&& !repeated && broken ==> judgement == lost(Player::Bot, Reason::FirstLetterIsInvalid)
            &&& !repeated && !broken && terminal ==> judgement == lost(
                Player::Bot,
                Reason::LastLetterIsInvalid,
            )
            &&& !legal ==> after == history.push(word)
            &&& legal && choice.len() == 0 ==> judgement == lost(
                Player::You,
                Reason::NotFoundInDictionary,
            ) && after == history.push(word).push(placeholder())
            &&& legal && choice.len() > 0 ==> exists|k: int|
                0 <= k < choice.len() && after == history.push(word).push(
                    words[#[trigger] choice[k]],
                ) && judgement == reply_verdict(history.push(word), words[choice[k]])
        }),
{
    let first = verdict(history, word.text, history.last(), Some(word), Player::Bot);
    if !first.game_over {
        let choice = with_prefix(words, word.last_letter());
        let drawn = choose|drawn: Option<WordView>|
            {
                &&& can_draw(words, word.last_letter(), drawn)
                &&& #[trigger] reply(history.push(word), drawn) == (Turn { judgement, history: after })
            };
        if let Some(replied) = drawn {
            lemma_draw_has_prefix(words, word.last_letter(), replied);
            let k = choose|k: int| 0 <= k < choice.len() && replied == words[#[trigger] choice[k]];
            assert(history.push(word).last() == word);
            assert(judgement == reply_verdict(history.push(word), words[choice[k]]));
        }
    }
}

/// Whether a history obeys the rules of play: no text occurs twice, every
/// word starts with the last sound of the word before it, and no word ends
/// in the terminal sound.
pub open spec fn rules_kept(history: Seq<WordView>) -> bool {
    &&& forall|i: int, j: int|
        0 <= i < j < history.len() ==> (#[trigger] history[i]).text != (#[trigger] history[j]).text
    &&& forall|i: int|
        0 <= i < history.len() - 1 ==> (#[trigger] history[i + 1]).first_letter()
            == history[i].last_letter()
    &&& forall|i: int| 0 <= i < history.len() ==> !(#[trigger] history[i]).ends_in_terminal()
}

/// A game that goes on keeps the rules: where the history obeyed them
/// before a turn and the turn did not end the game, the history that the
/// turn leaves is the old one with two more words, and obeys them too.
pub proof fn lemma_rules_stay_kept(
    words: Seq<WordView>,
    history: Seq<WordView>,
    text: Seq<char>,
    judgement: Judgement,
    after: Seq<WordView>,
)
    requires
        history.len() > 0,
        rules_kept(history),
        turn_allows(words, history, text, judgement, after),
        !judgement.game_over,
    ensures
        after.len() == history.len() + 2,
        after.subrange(0, history.len() as int) == history,
        rules_kept(after),
{
    lemma_game_goes_on(words, history, text, judgement, after);
    lemma_turn_extends_history(words, history, text, judgement, after);
    let n = history.len() as int;
    let submitted = after[n];
    let replied = after[n + 1];
    assert(after =~= history.push(submitted).push(replied));
    assert forall|i: int, j: int| 0 <= i < j < after.len() implies (#[trigger] after[i]).text != (
    #[trigger] after[j]).text by {
        if j == n {
            assert(history[i].text != submitted.text);
        } else if j == n + 1 {
            assert(history.push(submitted)[i].text != replied.text);
        } else {
            assert(history[i].text != history[j].text);
        }
    }
    assert forall|i: int| 0 <= i < after.len() - 1 implies (#[trigger] after[i + 1]).first_letter()
        == after[i].last_letter() by {
        if i + 1 < n {
            assert(history[i + 1].first_letter() == history[i].last_letter());
        }
    }
    assert forall|i: int| 0 <= i < after.len() implies !(#[trigger] after[i]).ends_in_terminal() by {
        if i < n {
            assert(!history[i].ends_in_terminal());
        }
    }
}

} // verus!
