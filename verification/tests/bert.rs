use std::collections::HashMap;
use wordle_ai::bert::{is_valid_solution, StateTurn};
use wordle_ai::game::{get_coloring, Word};
use wordle_ai::word_container::WordContainer;

#[test]
fn bert_is_not_possible_solution() {
    let bad_solution = Word::new("uncle", 0).unwrap();
    let action = Word::new("untie", 1).unwrap();
    let secret = Word::new("union", 2).unwrap();

    let coloring = get_coloring(&secret, &action);
    assert!(!is_valid_solution(&action, coloring, &bad_solution))
}

#[test]
fn bert_is_possible_solution() {
    let solution = Word::new("union", 0).unwrap();

    let action = Word::new("untie", 1).unwrap();
    let secret = Word::new("union", 0).unwrap();

    let coloring = get_coloring(&secret, &action);
    assert!(is_valid_solution(&action, coloring, &solution))
}

#[test]
fn word_containers_are_equal() {
    let action = Word::new("untie", 1).unwrap();
    let mut container_1 = WordContainer::new();
    container_1.add_word(&action);
    let mut container_2 = WordContainer::new();
    container_2.add_word(&action);
    assert_eq!(container_1, container_2);
    let secret = Word::new("union", 0).unwrap();
    container_1.add_word(&secret);
    container_2.add_word(&secret);
    assert_eq!(container_1, container_2);
}

#[test]
fn word_containers_are_not_equal() {
    let action = Word::new("untie", 1).unwrap();
    let secret = Word::new("union", 0).unwrap();

    let mut container_1 = WordContainer::new();
    container_1.add_word(&action);
    let mut container_2 = WordContainer::new();
    container_2.add_word(&secret);

    let container_3 = WordContainer::new();
    assert_ne!(container_1, container_2);
    assert_ne!(container_1, container_3)
}

#[test]
fn stateturn_hashmap_works() {
    let mut wc1 = WordContainer::new();
    let union = Word::new("union", 0).unwrap();
    let untie = Word::new("untie", 1).unwrap();
    wc1.add_word(&union);

    let turn_1 = StateTurn {
        state: wc1,
        turn: 1,
    };
    let mut wc2 = WordContainer::new();
    wc2.add_word(&union);
    wc2.add_word(&untie);

    let turn_2 = StateTurn {
        state: wc2,
        turn: 2,
    };

    let mut st_hashmap1: HashMap<&StateTurn, f32> = HashMap::new();
    st_hashmap1.insert(&turn_1, 0.5);
    if let Some(p) = st_hashmap1.get(&turn_1) {
        assert_eq!(*p, 0.5);
    } else {
        assert!(false);
    }

    let mut st_hashmap2: HashMap<&StateTurn, f32> = HashMap::new();
    st_hashmap2.insert(&turn_2, 1.0);
    if let Some(p) = st_hashmap2.get(&turn_2) {
        assert_eq!(*p, 1.0);
    } else {
        assert!(false);
    }
}
