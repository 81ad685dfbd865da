//! What a search state is worth: the number of guesses that it is expected
//! to take, as a mathematical function of the vocabulary, the candidate set
//! and the turn.
//!
//! Values are counted in fixed-point units, `UNIT` to the guess, and an
//! average is rounded down to the unit. A guess is scored on the assumption
//! that each candidate is equally likely to be the secret: it costs the guess
//! itself and, for each candidate in equal parts, what the state is worth that
//! the answer leaves. The value of a state is the cost of its best guess.

use crate::game::{coloring, valid_word, TileColor, WordView};
use crate::GUESSES_N;
use vstd::prelude::*;

verus! {

/// One guess, in the units in which values are counted.
pub const UNIT: u64 = 1_048_576;

/// One guess and a half, in the same units.
pub const UNIT_AND_HALF: u64 = 1_572_864;

/// Number of guesses that a game allows.
pub const TURNS: usize = 6;

/// The value of a search state: a number of guesses in units of `UNIT`, or
/// the mark that the secret cannot be found for certain in the guesses left.
#[derive(Copy, Clone, PartialEq, Eq, Debug, Structural)]
pub enum Value {
    /// So many units of a guess.
    Finite(u64),
    /// More than any number of guesses.
    Infinite,
}

impl View for Value {
    type V = Option<int>;

    /// The number of units, where there is one.
    open spec fn view(&self) -> Option<int> {
        match self {
            Value::Finite(units) => Some(*units as int),
            Value::Infinite => None,
        }
    }
}

/// Each word stands at the place that its index names.
pub open spec fn indexed(words: Seq<WordView>) -> bool {
    forall|i: int| 0 <= i < words.len() ==> (#[trigger] words[i]).index == i
}

/// Each word is valid and stands at the place that its index names.
pub open spec fn valid_vocabulary(words: Seq<WordView>) -> bool {
    &&& indexed(words)
    &&& forall|i: int| 0 <= i < words.len() ==> valid_word(#[trigger] words[i])
}

/// `candidate` agrees with the answer `tiles` to the guess `action`: where a
/// tile is green it has the guessed letter in that place, where a tile is
/// yellow it holds the guessed letter somewhere. A grey tile asks for nothing.
pub open spec fn consistent(action: WordView, tiles: Seq<TileColor>, candidate: WordView) -> bool {
    forall|i: int|
        0 <= i < 5 ==> {
            &&& (#[trigger] tiles[i] == TileColor::Green ==> action.text[i] == candidate.text[i])
            &&& (tiles[i] == TileColor::Yellow ==> candidate.text.contains(action.text[i]))
        }
}

/// The members of `state` that agree with the answer `tiles` to `action`.
pub open spec fn narrowed(
    words: Seq<WordView>,
    state: Set<int>,
    action: WordView,
    tiles: Seq<TileColor>,
) -> Set<int> {
    Set::new(
        |i: int| state.contains(i) && 0 <= i < words.len() && consistent(action, tiles, words[i]),
    )
}

/// The state that follows `state` when `action` is played and the word at
/// `secret` is the hidden one.
pub open spec fn next_state(
    words: Seq<WordView>,
    state: Set<int>,
    action: WordView,
    secret: int,
) -> Set<int> {
    narrowed(words, state, action, coloring(words[secret], action))
}

/// Nothing but the guessed word itself is left: the guess was the secret.
pub open spec fn wins(next: Set<int>, action: WordView) -> bool {
    next == Set::<int>::empty().insert(action.index)
}

/// The secrets among `secrets` after which `action` leaves `next` of `state`.
pub open spec fn leading_to(
    words: Seq<WordView>,
    state: Set<int>,
    action: WordView,
    secrets: Set<int>,
    next: Set<int>,
) -> Set<int> {
    Set::new(
        |secret: int|
            secrets.contains(secret) && 0 <= secret < words.len() && next_state(
                words,
                state,
                action,
                secret,
            ) == next,
    )
}

/// For each state that `action` can leave of `state` when the secret is one
/// of `secrets`, the number of those secrets that leave it.
pub open spec fn distribution(
    words: Seq<WordView>,
    state: Set<int>,
    action: WordView,
    secrets: Set<int>,
) -> Map<Set<int>, nat> {
    Map::new(
        |next: Set<int>|
            exists|secret: int| #[trigger]
                leading_to(words, state, action, secrets, next).contains(secret),
        |next: Set<int>| leading_to(words, state, action, secrets, next).len(),
    )
}

/// Where `action` can lead from `state`: each following state with the
/// number of candidates that lead to it. Divided by the size of `state`, that
/// number is the probability of the following state.
pub open spec fn transition_map(words: Seq<WordView>, state: Set<int>, action: WordView) -> Map<
    Set<int>,
    nat,
> {
    distribution(words, state, action, state)
}

/// The states that `action` leaves of `state` when the secrets are taken in
/// the order `secrets`, each state once, at the place of the first secret
/// that leads to it.
pub open spec fn states_left(
    words: Seq<WordView>,
    state: Set<int>,
    action: WordView,
    secrets: Seq<int>,
) -> Seq<Set<int>>
    decreases secrets.len(),
{
    if secrets.len() == 0 {
        Seq::empty()
    } else {
        let before = states_left(words, state, action, secrets.drop_last());
        let next = next_state(words, state, action, secrets.last());
        if before.contains(next) {
            before
        } else {
            before.push(next)
        }
    }
}

/// `action` tells nothing: whichever candidate is the secret, `state` stays
/// as it is.
pub open spec fn uninformative(words: Seq<WordView>, state: Set<int>, action: WordView) -> bool {
    &&& exists|secret: int| state.contains(secret) && 0 <= secret < words.len()
    &&& forall|secret: int|
        state.contains(secret) && 0 <= secret < words.len() ==> #[trigger] next_state(
            words,
            state,
            action,
            secret,
        ) == state
}

/// The lesser of two values, `None` standing for a value beyond all numbers.
pub open spec fn smaller(a: Option<int>, b: Option<int>) -> Option<int> {
    match (a, b) {
        (None, _) => b,
        (_, None) => a,
        (Some(x), Some(y)) => if x <= y {
            a
        } else {
            b
        },
    }
}

/// `a` is no more than `b`, `None` standing for a value beyond all numbers.
pub open spec fn at_most(a: Option<int>, b: Option<int>) -> bool {
    match (a, b) {
        (_, None) => true,
        (None, Some(_)) => false,
        (Some(x), Some(y)) => x <= y,
    }
}

/// The least that a state of `size` candidates can be worth: the first guess
/// is right for one of them, and the second for each of the others.
pub open spec fn least_value(size: nat) -> int {
    (2 * size - 1) * UNIT / (size as int)
}

/// The least that a state of `size` candidates can be worth.
pub fn least(size: usize) -> (units: u64)
    requires
        0 < size <= GUESSES_N,
    ensures
        units == least_value(size as nat),
{
    (2 * (size as u64) - 1) * UNIT / (size as u64)
}

/// The value of a state of this size at this turn is known at once.
pub open spec fn is_terminal(size: nat, turn: nat) -> bool {
    turn + 1 >= TURNS || size == 1 || size == 2
}

/// The expected number of guesses from `state` at `turn`, `None` when no
/// play finds every candidate in the guesses left.
///
/// With no guess left there is no value. On the last guess a single
/// candidate takes one guess and several cannot be told apart. Before that,
/// one candidate takes one guess, two take one and a half, and any other
/// state takes what its best guess costs.
pub open spec fn value(words: Seq<WordView>, state: Set<int>, turn: nat) -> Option<int>
    decreases TURNS - turn, 3nat, 0nat,
{
    if turn >= TURNS {
        None
    } else if turn == TURNS - 1 {
        if state.len() > 1 {
            None
        } else {
            Some(UNIT as int)
        }
    } else if state.len() == 1 {
        Some(UNIT as int)
    } else if state.len() == 2 {
        Some(UNIT_AND_HALF as int)
    } else {
        best_cost(words, state, turn, words.len())
    }
}

/// The least cost among the first `actions` words of the vocabulary.
pub open spec fn best_cost(
    words: Seq<WordView>,
    state: Set<int>,
    turn: nat,
    actions: nat,
) -> Option<int>
    decreases TURNS - turn, 2nat, actions,
{
    if turn + 1 >= TURNS || actions == 0 {
        None
    } else {
        smaller(
            best_cost(words, state, turn, (actions - 1) as nat),
            action_cost(words, state, turn, words[actions - 1]),
        )
    }
}

/// What playing `action` costs: the guess itself and, averaged over the
/// candidates, what the following state is worth. A guess that tells
/// nothing, or that can leave a state without value, has no cost. Where
/// there is no candidate, the guess costs itself.
pub open spec fn action_cost(
    words: Seq<WordView>,
    state: Set<int>,
    turn: nat,
    action: WordView,
) -> Option<int>
    decreases TURNS - turn, 1nat, 1nat,
{
    if turn + 1 >= TURNS || uninformative(words, state, action) || !settles(
        words,
        state,
        turn,
        action,
    ) {
        None
    } else if state.len() == 0 {
        Some(UNIT as int)
    } else {
        Some(UNIT + continuation(words, state, turn, action, words.len()) / (state.len() as int))
    }
}

/// Whichever candidate is the secret, the state that `action` leaves has a
/// value, unless the guess was the secret.
pub open spec fn settles(words: Seq<WordView>, state: Set<int>, turn: nat, action: WordView) -> bool
    decreases TURNS - turn, 1nat, 0nat,
{
    turn + 1 < TURNS && forall|secret: int|
        state.contains(secret) && 0 <= secret < words.len() && !wins(
            #[trigger] next_state(words, state, action, secret),
            action,
        ) ==> value(words, next_state(words, state, action, secret), turn + 1) is Some
}

/// What is still to be paid after `action` when the word at `secret` is the
/// hidden one: nothing if the guess was the secret, else the value of the
/// state that is left.
pub open spec fn contribution(
    words: Seq<WordView>,
    state: Set<int>,
    turn: nat,
    action: WordView,
    secret: int,
) -> int
    decreases TURNS - turn, 0nat, 0nat,
{
    let next = next_state(words, state, action, secret);
    if turn + 1 >= TURNS || !state.contains(secret) || wins(next, action) {
        0
    } else {
        match value(words, next, turn + 1) {
            Some(v) => v,
            None => 0,
        }
    }
}

/// The sum of the contributions of the candidates among the first `secrets`
/// words of the vocabulary.
pub open spec fn continuation(
    words: Seq<WordView>,
    state: Set<int>,
    turn: nat,
    action: WordView,
    secrets: nat,
) -> int
    decreases TURNS - turn, 0nat, secrets + 1,
{
    if secrets == 0 {
        0
    } else {
        continuation(words, state, turn, action, (secrets - 1) as nat) + contribution(
            words,
            state,
            turn,
            action,
            secrets - 1,
        )
    }
}

} // verus!
