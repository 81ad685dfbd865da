use std::collections::HashMap;
use wordle_ai::game::{
    get_alphabet_index, get_coloring, Game, GameState, LetterContainer, TileColor, Word, WordError,
};
use wordle_ai::word_container::WordContainer;
use wordle_ai::GUESSES_N;

fn word(text: &str, index: usize) -> Word {
    Word::new(text, index).unwrap()
}

#[test]
fn word_of_wrong_length_is_invalid() {
    assert_eq!(Word::new("", 0), Err(WordError::InvalidWord));
    assert_eq!(Word::new("unio", 0), Err(WordError::InvalidWord));
    assert_eq!(Word::new("unions", 0), Err(WordError::InvalidWord));
}

#[test]
fn word_with_other_than_letters_is_invalid() {
    assert_eq!(Word::new("uni0n", 0), Err(WordError::InvalidWord));
    assert_eq!(Word::new("un on", 0), Err(WordError::InvalidWord));
    assert_eq!(Word::new("unió", 0), Err(WordError::InvalidWord));
    assert_eq!(Word::new("uniòn", 0), Err(WordError::InvalidWord));
}

#[test]
fn word_index_beyond_capacity_is_out_of_range() {
    assert!(Word::new("union", GUESSES_N).is_ok());
    assert_eq!(Word::new("union", GUESSES_N + 1), Err(WordError::IndexOutOfRange));
    assert_eq!(Word::new("union", usize::MAX), Err(WordError::IndexOutOfRange));
}

#[test]
fn invalid_text_is_reported_before_the_index() {
    assert_eq!(Word::new("uni0n", GUESSES_N + 1), Err(WordError::InvalidWord));
}

#[test]
fn word_is_kept_in_lower_case() {
    let shouted = word("UnIoN", 7);
    assert_eq!(shouted, word("union", 7));
    assert_eq!(shouted.char_at(0), 'u');
    assert_eq!(shouted.char_at(2), 'i');
    assert_eq!(shouted.char_at(4), 'n');
    assert_eq!(shouted.index(), 7);
    assert!(shouted.has_letter('o'));
    assert!(!shouted.has_letter('O'));
}

#[test]
fn words_differ_by_text_or_index() {
    assert_ne!(word("union", 0), word("untie", 0));
    assert_ne!(word("union", 0), word("union", 1));
    assert_eq!(word("union", 3), word("union", 3));
}

#[test]
fn has_letter_knows_each_letter_of_the_word() {
    let union = word("union", 0);
    for c in ['u', 'n', 'i', 'o'] {
        assert!(union.has_letter(c));
    }
    for c in ['a', 'e', 't', 'z', 'U', '1', ' ', 'é'] {
        assert!(!union.has_letter(c));
    }
    assert!(union.letters().contains_char('u'));
    assert!(!union.letters().contains_char('t'));
}

#[test]
fn letter_container_ignores_case_and_other_characters() {
    let letters = LetterContainer::new("Ab-z 9");
    assert!(letters.contains_char('a'));
    assert!(letters.contains_char('b'));
    assert!(letters.contains_char('z'));
    assert!(!letters.contains_char('A'));
    assert!(!letters.contains_char('c'));
    assert!(!letters.contains_char('-'));
    assert_eq!(letters, LetterContainer::new("zba"));
    assert_ne!(letters, LetterContainer::new("zb"));
    assert_eq!(LetterContainer::new(""), LetterContainer::new("123"));
}

#[test]
fn alphabet_index_counts_from_a() {
    assert_eq!(get_alphabet_index('b'), 1);
    assert_eq!(get_alphabet_index('m'), 12);
    assert_eq!(get_alphabet_index('{'), 26);
}

#[test]
fn coloring_of_untie_against_union() {
    let secret = word("union", 0);
    let guess = word("untie", 1);
    assert_eq!(
        get_coloring(&secret, &guess),
        [
            TileColor::Green,
            TileColor::Green,
            TileColor::Grey,
            TileColor::Yellow,
            TileColor::Grey
        ]
    );
}

#[test]
fn coloring_does_not_count_letters() {
    // The secret has one `e`; both misplaced `e` of the guess are yellow.
    let secret = word("abcde", 0);
    let guess = word("eexyz", 1);
    assert_eq!(
        get_coloring(&secret, &guess),
        [
            TileColor::Yellow,
            TileColor::Yellow,
            TileColor::Grey,
            TileColor::Grey,
            TileColor::Grey
        ]
    );
}

#[test]
fn coloring_of_a_word_against_itself_is_green() {
    for text in ["union", "untie", "crank", "aaaaa", "zzzzz"] {
        let w = word(text, 0);
        assert_eq!(get_coloring(&w, &w), [TileColor::Green; 5]);
    }
}

#[test]
fn coloring_without_shared_letter_is_grey() {
    let pairs = [("crank", "extol"), ("aaaaa", "bbbbb"), ("union", "crack")];
    for (secret, guess) in pairs {
        assert_eq!(
            get_coloring(&word(secret, 0), &word(guess, 1)),
            [TileColor::Grey; 5]
        );
    }
}

#[test]
fn game_is_won_by_the_hidden_word() {
    let hidden = word("union", 0);
    let mut game = Game::new(&hidden);
    assert!(game.state == GameState::Active);
    assert_eq!(game.attempts, 0);
    let tiles = game.submit_guess(&word("untie", 1));
    assert_eq!(tiles[3], TileColor::Yellow);
    assert!(game.state == GameState::Active);
    assert_eq!(game.attempts, 1);
    let tiles = game.submit_guess(&word("union", 0));
    assert_eq!(tiles, [TileColor::Green; 5]);
    assert!(game.state == GameState::Win);
    assert_eq!(game.attempts, 2);
}

#[test]
fn game_is_lost_after_six_wrong_guesses() {
    let hidden = word("union", 0);
    let wrong = word("untie", 1);
    let mut game = Game::new(&hidden);
    for made in 1..=5u8 {
        game.submit_guess(&wrong);
        assert!(game.state == GameState::Active);
        assert_eq!(game.attempts, made);
    }
    game.submit_guess(&wrong);
    assert!(game.state == GameState::Lose);
    assert_eq!(game.attempts, 6);
}

#[test]
fn game_is_won_on_the_sixth_guess() {
    let hidden = word("union", 0);
    let wrong = word("untie", 1);
    let mut game = Game::new(&hidden);
    for _ in 0..5 {
        game.submit_guess(&wrong);
    }
    game.submit_guess(&hidden);
    assert!(game.state == GameState::Win);
}

#[test]
fn the_same_text_at_another_index_does_not_win() {
    let hidden = word("union", 0);
    let mut game = Game::new(&hidden);
    let tiles = game.submit_guess(&word("union", 5));
    assert_eq!(tiles, [TileColor::Green; 5]);
    assert!(game.state == GameState::Active);
}

#[test]
fn container_counts_each_word_once() {
    let mut container = WordContainer::new();
    assert_eq!(container.len(), 0);
    let union = word("union", 4);
    let untie = word("untie", 2);
    assert!(!container.has_word(&union));
    container.add_word(&union);
    container.add_word(&untie);
    container.add_word(&union);
    assert_eq!(container.len(), 2);
    assert!(container.has_word(&union));
    assert!(container.has_word(&untie));
    assert!(!container.has_word(&word("uncle", 3)));
    assert_eq!(container.index_at(0), 4);
    assert_eq!(container.index_at(1), 2);
    assert!(container.has_index(2));
    assert!(!container.has_index(GUESSES_N));
    assert!(!container.has_word(&word("uncle", GUESSES_N)));
}

fn container(indices: &[usize]) -> WordContainer {
    let mut made = WordContainer::new();
    for index in indices {
        made.add_index(*index);
    }
    made
}

fn members(container: &WordContainer) -> Vec<usize> {
    (0..container.len()).map(|k| container.index_at(k)).collect()
}

#[test]
fn container_holds_the_last_index_of_the_capacity() {
    let made = container(&[GUESSES_N - 1, 0]);
    assert!(made.has_index(GUESSES_N - 1));
    assert_eq!(members(&made), vec![GUESSES_N - 1, 0]);
}

#[test]
fn union_keeps_the_order_and_adds_what_is_new() {
    let a = container(&[5, 1, 9]);
    let b = container(&[9, 2, 5, 7]);
    let both = a.union(&b);
    assert_eq!(members(&both), vec![5, 1, 9, 2, 7]);
    assert_eq!(both, container(&[1, 2, 5, 7, 9]));
    assert_eq!(a.union(&WordContainer::new()), a);
    assert_eq!(WordContainer::new().union(&a), a);
}

#[test]
fn disjoint_keeps_what_the_other_lacks() {
    let a = container(&[5, 1, 9, 3]);
    let b = container(&[9, 2, 5, 7]);
    let rest = a.disjoint(&b);
    assert_eq!(members(&rest), vec![1, 3]);
    assert_eq!(rest.len(), 2);
    assert_eq!(a.disjoint(&a), WordContainer::new());
    assert_eq!(a.disjoint(&WordContainer::new()), a);
}

#[test]
fn clone_keeps_members_and_order() {
    let a = container(&[5, 1, 9]);
    let b = a.clone();
    assert_eq!(a, b);
    assert_eq!(members(&b), vec![5, 1, 9]);
}

#[test]
fn containers_built_in_another_order_are_the_same_key() {
    let first = container(&[3, 1, 2]);
    let second = container(&[2, 3, 1]);
    assert_eq!(first, second);
    let mut map: HashMap<WordContainer, u32> = HashMap::new();
    map.insert(first, 7);
    assert_eq!(map.get(&second), Some(&7));
    map.insert(second, 8);
    assert_eq!(map.len(), 1);
    assert_eq!(map.get(&container(&[1, 2, 3])), Some(&8));
    assert_eq!(map.get(&container(&[1, 2])), None);
}
