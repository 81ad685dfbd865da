use wordle_ai::bert::{is_indexed, is_valid_solution, StateTurn, Wordle};
use wordle_ai::game::{get_coloring, Word};
use wordle_ai::transition::Transition;
use wordle_ai::value::{least, Value, TURNS, UNIT, UNIT_AND_HALF};
use wordle_ai::word_container::WordContainer;

fn vocabulary(texts: &[&str]) -> Vec<Word> {
    texts
        .iter()
        .enumerate()
        .map(|(index, text)| Word::new(text, index).unwrap())
        .collect()
}

fn solver(texts: &[&str]) -> Wordle {
    let words = vocabulary(texts);
    assert!(is_indexed(&words));
    Wordle::new(words.clone(), words)
}

fn state(indices: &[usize]) -> WordContainer {
    let mut made = WordContainer::new();
    for index in indices {
        made.add_index(*index);
    }
    made
}

fn members(container: &WordContainer) -> Vec<usize> {
    (0..container.len()).map(|k| container.index_at(k)).collect()
}

fn value_of(solver: &mut Wordle, indices: &[usize], turn: usize) -> Value {
    solver.get_state_value(StateTurn {
        state: state(indices),
        turn,
    })
}

fn as_float(value: Value) -> f32 {
    match value {
        Value::Finite(units) => units as f32 / UNIT as f32,
        Value::Infinite => f32::INFINITY,
    }
}

// Six words: `xbcqz` tells the others apart but for the last two.
const SIX: [&str; 6] = ["xbcqz", "xxxxx", "bbbbb", "ccccc", "qdddd", "qeeee"];

const TEN: [&str; 10] = [
    "union", "untie", "uncle", "crank", "extol", "caset", "onion", "tunic", "eight", "light",
];

// The value as it is defined, computed without memory and without pruning.
fn plain_consistent(action: &[u8], secret: &[u8], candidate: &[u8]) -> bool {
    (0..5).all(|i| {
        if secret[i] == action[i] {
            candidate[i] == action[i]
        } else if secret.contains(&action[i]) {
            candidate.contains(&action[i])
        } else {
            true
        }
    })
}

fn plain_next(texts: &[&str], state: &[usize], action: usize, secret: usize) -> Vec<usize> {
    state
        .iter()
        .copied()
        .filter(|c| {
            plain_consistent(
                texts[action].as_bytes(),
                texts[secret].as_bytes(),
                texts[*c].as_bytes(),
            )
        })
        .collect()
}

fn plain_value(texts: &[&str], state: &[usize], turn: usize) -> Option<u64> {
    if turn >= 6 {
        return None;
    }
    if turn == 5 {
        return if state.len() > 1 { None } else { Some(UNIT) };
    }
    if state.len() == 1 {
        return Some(UNIT);
    }
    if state.len() == 2 {
        return Some(3 * UNIT / 2);
    }
    let mut best: Option<u64> = None;
    for action in 0..texts.len() {
        let nexts: Vec<Vec<usize>> = state
            .iter()
            .map(|secret| plain_next(texts, state, action, *secret))
            .collect();
        if !state.is_empty() && nexts.iter().all(|next| next.as_slice() == state) {
            continue;
        }
        let mut total: Option<u64> = Some(0);
        for next in &nexts {
            if next.as_slice() == [action] {
                continue;
            }
            total = match (total, plain_value(texts, next, turn + 1)) {
                (Some(sum), Some(worth)) => Some(sum + worth),
                _ => None,
            };
            if total.is_none() {
                break;
            }
        }
        let cost = total.map(|sum| {
            if state.is_empty() {
                UNIT
            } else {
                UNIT + sum / state.len() as u64
            }
        });
        best = match (best, cost) {
            (Some(b), Some(c)) => Some(b.min(c)),
            (None, c) => c,
            (b, None) => b,
        };
    }
    best
}

fn plain(texts: &[&str], state: &[usize], turn: usize) -> Value {
    let mut sorted = state.to_vec();
    sorted.sort();
    match plain_value(texts, &sorted, turn) {
        Some(units) => Value::Finite(units),
        None => Value::Infinite,
    }
}

#[test]
fn two_candidates_at_turn_three_take_one_and_a_half() {
    let mut solver = solver(&["union", "untie"]);
    let found = value_of(&mut solver, &[0, 1], 3);
    assert_eq!(found, Value::Finite(1_572_864));
    assert_eq!(as_float(found), 1.5);
}

#[test]
fn one_candidate_takes_one_guess_at_any_turn() {
    let mut solver = solver(&["union"]);
    for turn in 0..6 {
        let found = value_of(&mut solver, &[0], turn);
        assert_eq!(found, Value::Finite(UNIT));
        assert_eq!(as_float(found), 1.0);
    }
    let mut larger = crate::solver(&TEN);
    for turn in 0..6 {
        assert_eq!(value_of(&mut larger, &[7], turn), Value::Finite(UNIT));
    }
}

#[test]
fn two_candidates_take_one_and_a_half_before_the_last_turn() {
    let mut solver = solver(&TEN);
    for turn in 0..5 {
        assert_eq!(as_float(value_of(&mut solver, &[2, 8], turn)), 1.5);
    }
    assert_eq!(value_of(&mut solver, &[2, 8], 5), Value::Infinite);
}

#[test]
fn no_state_has_a_value_at_turn_six() {
    let mut solver = solver(&TEN);
    let states: [&[usize]; 5] = [&[], &[0], &[0, 1], &[0, 1, 2], &[0, 1, 2, 3, 4, 5, 6, 7, 8, 9]];
    for indices in states {
        assert_eq!(value_of(&mut solver, indices, 6), Value::Infinite);
        assert_eq!(as_float(value_of(&mut solver, indices, 6)), f32::INFINITY);
        assert_eq!(value_of(&mut solver, indices, 7), Value::Infinite);
        assert_eq!(value_of(&mut solver, indices, usize::MAX), Value::Infinite);
    }
    assert_eq!(solver.memo_len(), 0);
}

#[test]
fn turn_five_is_one_guess_for_at_most_one_candidate() {
    let mut solver = solver(&TEN);
    assert_eq!(value_of(&mut solver, &[], 5), Value::Finite(UNIT));
    assert_eq!(value_of(&mut solver, &[4], 5), Value::Finite(UNIT));
    assert_eq!(value_of(&mut solver, &[4, 5], 5), Value::Infinite);
    assert_eq!(value_of(&mut solver, &[4, 5, 6], 5), Value::Infinite);
    assert_eq!(solver.memo_len(), 0);
}

#[test]
fn least_value_of_a_size() {
    assert_eq!(least(1), UNIT);
    assert_eq!(least(2), 1_572_864);
    assert_eq!(least(2), UNIT_AND_HALF);
    assert_eq!(least(3), 1_747_626);
    assert_eq!(least(4), 1_835_008);
    assert_eq!(least(12972), 2_097_071);
}

#[test]
fn three_candidates_that_one_guess_tells_apart() {
    // `xbcqz` leaves `ccccc` alone and the other two together: one guess,
    // then one more for one of three and one and a half for the others.
    let mut solver = solver(&SIX);
    let found = value_of(&mut solver, &[3, 4, 5], 3);
    assert_eq!(found, Value::Finite(UNIT + (UNIT + 2 * 1_572_864) / 3));
    assert_eq!(found, Value::Finite(2_446_677));
    assert_eq!(found, plain(&SIX, &[3, 4, 5], 3));
}

#[test]
fn five_candidates_that_one_guess_tells_apart() {
    let mut solver = solver(&SIX);
    let found = value_of(&mut solver, &[1, 2, 3, 4, 5], 3);
    assert_eq!(found, Value::Finite(UNIT + (3 * UNIT + 2 * 1_572_864) / 5));
    assert_eq!(found, Value::Finite(2_306_867));
    assert!((as_float(found) - 2.2).abs() < 1e-6);
}

#[test]
fn a_part_of_a_state_can_be_worth_more() {
    let mut solver = solver(&SIX);
    let part = value_of(&mut solver, &[3, 4, 5], 3);
    let whole = value_of(&mut solver, &[1, 2, 3, 4, 5], 3);
    assert_eq!(part, Value::Finite(2_446_677));
    assert_eq!(whole, Value::Finite(2_306_867));
}

#[test]
fn a_part_of_at_most_two_candidates_is_worth_no_more() {
    let mut solver = solver(&TEN);
    let whole: Vec<usize> = (0..10).collect();
    for turn in 0..7 {
        let large = as_float(value_of(&mut solver, &whole, turn));
        for a in 0..10 {
            assert!(as_float(value_of(&mut solver, &[a], turn)) <= large);
            for b in 0..a {
                assert!(as_float(value_of(&mut solver, &[a, b], turn)) <= large);
            }
        }
        assert!(as_float(value_of(&mut solver, &[], turn)) <= large);
    }
}

#[test]
fn states_that_cannot_be_settled_have_no_value() {
    // No word of the vocabulary tells `qdddd` from `qeeee` but themselves,
    // and with three candidates at turn four one guess must tell all apart.
    let mut solver = solver(&SIX);
    assert_eq!(value_of(&mut solver, &[3, 4, 5], 4), Value::Infinite);
    assert_eq!(value_of(&mut solver, &[1, 2, 3], 4), Value::Finite(2 * UNIT));
}

#[test]
fn the_empty_state_takes_one_guess() {
    let mut solver = solver(&SIX);
    for turn in 0..6 {
        assert_eq!(value_of(&mut solver, &[], turn), Value::Finite(UNIT));
    }
    let mut wordless = crate::solver(&[]);
    for turn in 0..5 {
        assert_eq!(value_of(&mut wordless, &[], turn), Value::Infinite);
    }
    assert_eq!(value_of(&mut wordless, &[], 5), Value::Finite(UNIT));
}

#[test]
fn values_are_those_of_the_plain_definition() {
    let mut solver = solver(&SIX);
    let states: [&[usize]; 9] = [
        &[0, 1, 2],
        &[1, 2, 3],
        &[3, 4, 5],
        &[0, 4, 5],
        &[0, 1, 2, 3],
        &[2, 3, 4, 5],
        &[1, 2, 3, 4, 5],
        &[0, 1, 2, 3, 4, 5],
        &[5, 3, 1],
    ];
    for indices in states {
        for turn in 0..6 {
            assert_eq!(
                value_of(&mut solver, indices, turn),
                plain(&SIX, indices, turn),
                "state {:?} at turn {}",
                indices,
                turn
            );
        }
    }
}

#[test]
fn values_of_words_are_those_of_the_plain_definition() {
    let eight = ["union", "untie", "uncle", "crank", "caset", "onion", "tunic", "eight"];
    let mut solver = solver(&eight);
    let states: [&[usize]; 6] = [
        &[0, 1, 2],
        &[0, 5, 6],
        &[1, 4, 7],
        &[0, 1, 2, 3],
        &[0, 1, 2, 5, 6],
        &[0, 1, 2, 3, 4, 5, 6, 7],
    ];
    for indices in states {
        for turn in [2, 3, 4] {
            assert_eq!(
                value_of(&mut solver, indices, turn),
                plain(&eight, indices, turn),
                "state {:?} at turn {}",
                indices,
                turn
            );
        }
    }
}

#[test]
fn a_value_is_worked_out_once() {
    let mut solver = solver(&SIX);
    assert_eq!(solver.memo_len(), 0);
    let first = value_of(&mut solver, &[1, 2, 3, 4, 5], 2);
    let kept = solver.memo_len();
    assert!(kept >= 1);
    let again = value_of(&mut solver, &[1, 2, 3, 4, 5], 2);
    assert_eq!(first, again);
    assert_eq!(solver.memo_len(), kept);
    // The same candidates, added in another order.
    let reordered = value_of(&mut solver, &[5, 1, 4, 2, 3], 2);
    assert_eq!(first, reordered);
    assert_eq!(solver.memo_len(), kept);
    assert_eq!(
        solver.lookup(&StateTurn {
            state: state(&[3, 2, 1, 5, 4]),
            turn: 2
        }),
        Some(first)
    );
    assert_eq!(
        solver.lookup(&StateTurn {
            state: state(&[1, 2, 3, 4, 5]),
            turn: 1
        }),
        None
    );
    // Another turn is another state.
    value_of(&mut solver, &[1, 2, 3, 4, 5], 1);
    assert!(solver.memo_len() > kept);
}

#[test]
fn states_known_at_once_are_not_kept() {
    let mut solver = solver(&SIX);
    value_of(&mut solver, &[1], 0);
    value_of(&mut solver, &[1, 2], 0);
    value_of(&mut solver, &[1, 2, 3], 5);
    value_of(&mut solver, &[1, 2, 3], 6);
    assert_eq!(solver.memo_len(), 0);
}

#[test]
fn get_state_keeps_the_consistent_candidates() {
    let solver = solver(&TEN);
    let secret = solver.word(0);
    let action = solver.word(1);
    let tiles = get_coloring(secret, action);
    let all = state(&[9, 0, 1, 2, 3, 4, 5, 6, 7, 8]);
    let left = solver.get_state(tiles, &all, action);
    // Green `u`, green `n`, yellow `i`: `union` and `untie` alone.
    assert_eq!(members(&left), vec![0, 1]);
    for index in 0..10 {
        assert_eq!(
            left.has_index(index),
            is_valid_solution(action, tiles, solver.word(index))
        );
    }
}

fn entries(transition: &Transition) -> Vec<(Vec<usize>, usize)> {
    (0..transition.len())
        .map(|j| {
            let mut state = members(transition.state_at(j));
            state.sort();
            (state, transition.count_at(j))
        })
        .collect()
}

#[test]
fn transition_counts_the_candidates_that_lead_to_a_state() {
    let solver = solver(&SIX);
    let all = state(&[1, 2, 3, 4, 5]);
    let transition = solver.get_transition(&all, solver.word(0));
    assert_eq!(
        entries(&transition),
        vec![
            (vec![1], 1),
            (vec![2], 1),
            (vec![3], 1),
            (vec![4, 5], 2),
        ]
    );
    assert_eq!(transition.position(&state(&[5, 4])), Some(3));
    assert_eq!(transition.position(&state(&[5])), None);
    let total: usize = (0..transition.len()).map(|j| transition.count_at(j)).sum();
    assert_eq!(total, all.len());
}

#[test]
fn transition_of_a_guess_that_tells_nothing() {
    let solver = solver(&SIX);
    let some = state(&[3, 4, 5]);
    let transition = solver.get_transition(&some, solver.word(1));
    assert_eq!(entries(&transition), vec![(vec![3, 4, 5], 3)]);
    let none = solver.get_transition(&WordContainer::new(), solver.word(1));
    assert_eq!(none.len(), 0);
}

#[test]
fn transition_of_a_candidate_as_the_guess() {
    // With the guess among the candidates, the guess stays in every state.
    let solver = solver(&SIX);
    let some = state(&[3, 4, 5]);
    let transition = solver.get_transition(&some, solver.word(4));
    assert_eq!(
        entries(&transition),
        vec![(vec![3, 4, 5], 1), (vec![4], 1), (vec![4, 5], 1)]
    );
}

#[test]
fn vocabulary_must_be_indexed() {
    let mut words = vocabulary(&TEN);
    assert!(is_indexed(&words));
    assert!(is_indexed(&Vec::new()));
    words.swap(2, 3);
    assert!(!is_indexed(&words));
    assert!(!is_indexed(&vec![Word::new("union", 1).unwrap()]));
}

#[test]
fn solver_knows_its_words() {
    let solver = solver(&TEN);
    assert_eq!(solver.words_len(), 10);
    assert_eq!(*solver.word(3), Word::new("crank", 3).unwrap());
    assert_eq!(TURNS, 6);
}

fn subsets(of: &[usize]) -> Vec<Vec<usize>> {
    (0..1usize << of.len())
        .map(|mask| {
            of.iter()
                .enumerate()
                .filter(|(place, _)| mask >> place & 1 == 1)
                .map(|(_, index)| *index)
                .collect()
        })
        .collect()
}

#[test]
fn with_at_most_two_guesses_left_a_part_is_worth_no_more() {
    let mut solver = solver(&SIX);
    let all: Vec<usize> = (0..6).collect();
    for whole in subsets(&all) {
        for turn in [4, 5, 6] {
            let large = as_float(value_of(&mut solver, &whole, turn));
            for part in subsets(&whole) {
                let small = as_float(value_of(&mut solver, &part, turn));
                assert!(
                    small <= large,
                    "{:?} in {:?} at turn {}",
                    part,
                    whole,
                    turn
                );
            }
        }
    }
}
