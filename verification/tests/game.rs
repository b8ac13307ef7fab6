use shiritori::game::{Game, Judgement, Player, Reason};
use shiritori::word::{Word, WordList};

fn word(text: &str) -> Word {
    Word::new(text.to_string(), text.to_string())
}

fn list(texts: &[&str]) -> WordList {
    WordList {
        items: texts.iter().map(|t| word(t)).collect(),
    }
}

fn game(dictionary: &[&str], history: &[&str]) -> Game {
    Game {
        word_list: list(dictionary),
        histories: history.iter().map(|t| word(t)).collect(),
    }
}

fn texts(game: &Game) -> Vec<String> {
    game.histories.iter().map(|w| w.text.clone()).collect()
}

#[test]
fn it_constructs() {
    let word_list = WordList {
        items: vec![
            Word::new("パイ".to_string(), "パイ".to_string()),
            Word::new("パン".to_string(), "パン".to_string()),
        ],
    };
    let game = Game::new(word_list);
    assert_eq!(
        ["パイ", "パン"].contains(&game.current_word().text.as_str()),
        true
    );
}

#[test]
fn it_goes_next_turn() {
    let word_list = WordList {
        items: vec![Word::new("カイ".to_string(), "カイ".to_string())],
    };
    let mut game = Game::new(word_list);
    game.word_list = WordList {
        items: vec![
            Word::new("カイ".to_string(), "カイ".to_string()),
            Word::new("イカ".to_string(), "イカ".to_string()),
        ],
    };
    game.histories = vec![Word::new("パイ".to_string(), "パイ".to_string())];
    let judgement = game.next_turn("イカ");
    assert_eq!("カイ", game.current_word().text.as_str());
    assert_eq!(judgement.game_over, false);

    let judgement = game.next_turn("イカ");
    assert_eq!(judgement.game_over, true);
    assert_eq!(judgement.winner, Some(Player::Bot));
    assert_eq!(judgement.reason, Some(Reason::DuplicatedWord));
}

#[test]
fn it_judges_first_letter() {
    let word_list = WordList {
        items: vec![Word::new("カイ".to_string(), "カイ".to_string())],
    };
    let mut game = Game::new(word_list);
    game.word_list = WordList {
        items: vec![
            Word::new("カイ".to_string(), "カイ".to_string()),
            Word::new("タコ".to_string(), "タコ".to_string()),
        ],
    };
    let judgement = game.next_turn("タコ");
    assert_eq!(judgement.game_over, true);
    assert_eq!(judgement.winner, Some(Player::Bot));
    assert_eq!(judgement.reason, Some(Reason::FirstLetterIsInvalid));
}

#[test]
fn new_never_starts_on_the_terminal_sound() {
    for _ in 0..100 {
        let game = Game::new(list(&["パン", "パイ", "ミカン"]));
        assert_eq!(texts(&game), vec!["パイ"]);
        assert_eq!(game.word_list.items.len(), 3);
    }
}

#[test]
fn new_reaches_every_playable_word() {
    let mut seen = [false, false];
    for _ in 0..200 {
        let game = Game::new(list(&["パイ", "パン", "タコ"]));
        match game.current_word().text.as_str() {
            "パイ" => seen[0] = true,
            "タコ" => seen[1] = true,
            other => panic!("started on {}", other),
        }
    }
    assert_eq!(seen, [true, true]);
}

#[test]
fn current_word_is_the_last_of_the_history() {
    let game = game(&["パイ"], &["タコ", "コマ", "マチ"]);
    assert_eq!(game.current_word().text, "マチ");
    assert_eq!(game.current_word().reading, "マチ");
}

#[test]
fn seed_pie_then_bread_breaks_the_chain() {
    let mut game = game(&["パイ", "パン"], &["パイ"]);
    let judgement = game.next_turn("パン");
    assert_eq!(judgement.game_over, true);
    assert_eq!(judgement.winner, Some(Player::Bot));
    assert_eq!(judgement.reason, Some(Reason::FirstLetterIsInvalid));
    assert_eq!(texts(&game), vec!["パイ", "パン"]);
}

#[test]
fn squid_then_shell_then_squid_again() {
    let mut game = game(&["カイ", "イカ"], &["パイ"]);
    let judgement = game.next_turn("イカ");
    assert_eq!(judgement, Judgement::new(false, None, None));
    assert_eq!(texts(&game), vec!["パイ", "イカ", "カイ"]);
    let judgement = game.next_turn("イカ");
    assert_eq!(
        judgement,
        Judgement::new(true, Some(Player::Bot), Some(Reason::DuplicatedWord))
    );
    assert_eq!(texts(&game), vec!["パイ", "イカ", "カイ", "イカ"]);
}

#[test]
fn unknown_text_loses_and_leaves_history() {
    let mut game = game(&["カイ", "イカ"], &["パイ"]);
    let judgement = game.next_turn("イルカ");
    assert_eq!(judgement.game_over, true);
    assert_eq!(judgement.winner, Some(Player::Bot));
    assert_eq!(judgement.reason, Some(Reason::NotFoundInDictionary));
    assert_eq!(texts(&game), vec!["パイ"]);
}

#[test]
fn terminal_sound_loses() {
    let mut game = game(&["インコ", "イン"], &["パイ"]);
    let judgement = game.next_turn("イン");
    assert_eq!(judgement.game_over, true);
    assert_eq!(judgement.winner, Some(Player::Bot));
    assert_eq!(judgement.reason, Some(Reason::LastLetterIsInvalid));
    assert_eq!(texts(&game), vec!["パイ", "イン"]);
}

#[test]
fn duplicate_goes_before_chain_rule() {
    let mut game = game(&["タコ", "パイ"], &["タコ", "コップ", "パイ"]);
    let judgement = game.next_turn("タコ");
    assert_eq!(judgement.winner, Some(Player::Bot));
    assert_eq!(judgement.reason, Some(Reason::DuplicatedWord));
}

#[test]
fn duplicate_goes_before_terminal_sound() {
    let mut game = game(&["イン"], &["イン", "パイ"]);
    let judgement = game.next_turn("イン");
    assert_eq!(judgement.reason, Some(Reason::DuplicatedWord));
}

#[test]
fn chain_rule_goes_before_terminal_sound() {
    let mut game = game(&["パン"], &["タコ"]);
    let judgement = game.next_turn("パン");
    assert_eq!(judgement.winner, Some(Player::Bot));
    assert_eq!(judgement.reason, Some(Reason::FirstLetterIsInvalid));
}

#[test]
fn judge_applies_rules_in_order() {
    let game = game(&[], &["タコ", "コイ"]);
    let bot = Player::Bot;
    let j = game.judge("タコ", word("コイ"), Some(word("パン")), bot);
    assert_eq!(j, Judgement::new(true, Some(bot), Some(Reason::DuplicatedWord)));
    let j = game.judge("パン", word("コイ"), Some(word("パン")), bot);
    assert_eq!(j, Judgement::new(true, Some(bot), Some(Reason::FirstLetterIsInvalid)));
    let j = game.judge("イン", word("コイ"), Some(word("イン")), bot);
    assert_eq!(j, Judgement::new(true, Some(bot), Some(Reason::LastLetterIsInvalid)));
    let j = game.judge("イカ", word("コイ"), Some(word("イカ")), bot);
    assert_eq!(j, Judgement::new(false, None, None));
    let j = game.judge("イカ", word("コイ"), None, Player::You);
    assert_eq!(
        j,
        Judgement::new(true, Some(Player::You), Some(Reason::NotFoundInDictionary))
    );
}

#[test]
fn duplicated_compares_texts_not_readings() {
    let mut game = Game {
        word_list: WordList::new(vec![Word::new("烏賊".to_string(), "イカ".to_string())]),
        histories: vec![
            Word::new("烏賊".to_string(), "イカ".to_string()),
            word("カイ"),
        ],
    };
    assert!(game.duplicated("烏賊"));
    assert!(!game.duplicated("イカ"));
    let judgement = game.next_turn("烏賊");
    assert_eq!(judgement.reason, Some(Reason::DuplicatedWord));
}

#[test]
fn duplicated_looks_at_every_played_text() {
    let game = game(&[], &["タコ", "コイ", "イカ"]);
    assert!(game.duplicated("タコ"));
    assert!(game.duplicated("コイ"));
    assert!(game.duplicated("イカ"));
    assert!(!game.duplicated("カイ"));
    assert!(!game.duplicated(""));
}

#[test]
fn bot_without_a_word_forfeits() {
    let mut game = game(&["イカ"], &["パイ"]);
    let judgement = game.next_turn("イカ");
    assert_eq!(
        judgement,
        Judgement::new(true, Some(Player::You), Some(Reason::NotFoundInDictionary))
    );
    assert_eq!(texts(&game), vec!["パイ", "イカ", ""]);
    assert_eq!(game.current_word().reading, "");
}

#[test]
fn bot_reply_that_was_played_loses() {
    let mut game = game(&["イカ", "カイ"], &["カイ"]);
    let judgement = game.next_turn("イカ");
    assert_eq!(
        judgement,
        Judgement::new(true, Some(Player::You), Some(Reason::DuplicatedWord))
    );
    assert_eq!(texts(&game), vec!["カイ", "イカ", "カイ"]);
}

#[test]
fn bot_reply_on_the_terminal_sound_loses() {
    let mut game = game(&["イカ", "カン"], &["パイ"]);
    let judgement = game.next_turn("イカ");
    assert_eq!(
        judgement,
        Judgement::new(true, Some(Player::You), Some(Reason::LastLetterIsInvalid))
    );
    assert_eq!(texts(&game), vec!["パイ", "イカ", "カン"]);
}

#[test]
fn bot_reply_continues_the_submitted_word() {
    for _ in 0..50 {
        let mut game = game(&["イカ", "カイ", "カメ", "タコ", "パイ"], &["パイ"]);
        let judgement = game.next_turn("イカ");
        assert_eq!(judgement, Judgement::new(false, None, None));
        assert_eq!(game.histories.len(), 3);
        assert_eq!(game.histories[1].text, "イカ");
        assert_eq!(game.current_word().first_letter(), 'カ');
        assert!(game.can_play());
    }
}

#[test]
fn reply_with_judges_the_given_draw() {
    let mut g = game(&[], &["パイ", "イカ"]);
    let j = g.reply_with(Some(word("カメ")));
    assert_eq!(j, Judgement::new(false, None, None));
    assert_eq!(texts(&g), vec!["パイ", "イカ", "カメ"]);

    let mut g = game(&[], &["パイ", "イカ"]);
    let j = g.reply_with(Some(word("タコ")));
    assert_eq!(
        j,
        Judgement::new(true, Some(Player::You), Some(Reason::FirstLetterIsInvalid))
    );
    assert_eq!(texts(&g), vec!["パイ", "イカ", "タコ"]);

    let mut g = game(&[], &["パイ", "イカ"]);
    let j = g.reply_with(None);
    assert_eq!(
        j,
        Judgement::new(true, Some(Player::You), Some(Reason::NotFoundInDictionary))
    );
    assert_eq!(texts(&g), vec!["パイ", "イカ", ""]);
}

#[test]
fn can_play_needs_a_pronounceable_current_word() {
    assert!(game(&["イカ"], &["パイ"]).can_play());
    assert!(!game(&["イカ"], &[]).can_play());
    assert!(!game(&["イカ"], &["パイ", ""]).can_play());
    assert!(!game(&["イカ", ""], &["パイ"]).can_play());
}

#[test]
fn judgement_new_keeps_fields() {
    let j = Judgement::new(true, Some(Player::You), Some(Reason::LastLetterIsInvalid));
    assert_eq!(j.game_over, true);
    assert_eq!(j.winner, Some(Player::You));
    assert_eq!(j.reason, Some(Reason::LastLetterIsInvalid));
    let j = Judgement::new(false, None, None);
    assert_eq!(j.game_over, false);
    assert_eq!(j.winner, None);
    assert_eq!(j.reason, None);
}

#[test]
fn player_as_str() {
    assert_eq!(Player::Bot.as_str(), "Bot");
    assert_eq!(Player::You.as_str(), "You");
}

#[test]
fn reason_as_str() {
    assert_eq!(Reason::DuplicatedWord.as_str(), "duplicated word");
    assert_eq!(Reason::FirstLetterIsInvalid.as_str(), "first letter is invalid");
    assert_eq!(Reason::LastLetterIsInvalid.as_str(), "last letter is invalid");
    assert_eq!(Reason::NotFoundInDictionary.as_str(), "not found in dictionary");
}

fn entry(text: &str, reading: &str) -> Word {
    Word::new(text.to_string(), reading.to_string())
}

#[test]
fn word_found_by_its_reading_repeats_its_text() {
    let mut game = Game {
        word_list: WordList::new(vec![entry("烏賊", "イカ"), entry("貝", "カイ")]),
        histories: vec![entry("杯", "パイ"), entry("烏賊", "イカ"), entry("貝", "カイ")],
    };
    let judgement = game.next_turn("イカ");
    assert_eq!(
        judgement,
        Judgement::new(true, Some(Player::Bot), Some(Reason::DuplicatedWord))
    );
    assert_eq!(texts(&game), vec!["杯", "烏賊", "貝", "烏賊"]);
}

#[test]
fn word_found_by_its_reading_is_judged_under_its_own_text() {
    let mut game = Game {
        word_list: WordList::new(vec![entry("缶", "カン")]),
        histories: vec![entry("カン", "パカ")],
    };
    let judgement = game.next_turn("カン");
    assert_eq!(
        judgement,
        Judgement::new(true, Some(Player::Bot), Some(Reason::LastLetterIsInvalid))
    );
    assert_eq!(texts(&game), vec!["カン", "缶"]);
}

#[test]
fn word_found_by_its_reading_lets_the_game_go_on() {
    let mut game = Game {
        word_list: WordList::new(vec![entry("烏賊", "イカ"), entry("亀", "カメ")]),
        histories: vec![entry("イカ", "パイ")],
    };
    let judgement = game.next_turn("イカ");
    assert_eq!(judgement, Judgement::new(false, None, None));
    assert_eq!(texts(&game), vec!["イカ", "烏賊", "亀"]);
}

#[test]
fn going_on_keeps_texts_distinct_and_chained() {
    let mut game = game(&["イカ", "カメ", "メダカ", "カイ"], &["パイ"]);
    let judgement = game.next_turn("イカ");
    assert_eq!(judgement, Judgement::new(false, None, None));
    let played = texts(&game);
    assert_eq!(played.len(), 3);
    assert_eq!(played[0], "パイ");
    for i in 0..played.len() {
        for j in (i + 1)..played.len() {
            assert_ne!(played[i], played[j]);
        }
        assert!(!game.histories[i].last_letter_is_invalid());
    }
    for i in 1..played.len() {
        assert_eq!(
            game.histories[i].first_letter(),
            game.histories[i - 1].last_letter()
        );
    }
}
