//! The solver: which candidates a guess leaves, where a guess can lead, and
//! how many guesses a state is expected to take.

pub use crate::transition::Transition;
pub use crate::word_container::WordContainer;

use crate::game::{coloring, get_coloring, TileColor, Word, WordView};
use crate::lemmas::{
    entry_bound_fn, entry_cost_fn, grouped_sum, lemma_best_cost_is, lemma_distribution_insert,
    lemma_leading_to_is_finite, lemma_running_bounds, lemma_running_total, lemma_settles,
    lemma_single_member, lemma_total_is_continuation, lemma_transition_facts,
    lemma_uninformative, lemma_within_is_finite, lists_transition, within,
};
use crate::value::{
    action_cost, at_most, consistent, continuation, distribution, indexed, is_terminal, least,
    narrowed, states_left, transition_map, uninformative, value, wins, Value, TURNS, UNIT,
    UNIT_AND_HALF,
};
use crate::{GUESSES_N, WORDS_N};
use vstd::arithmetic::div_mod::lemma_div_is_ordered;
use vstd::prelude::*;

verus! {

/// Whether `solution` can be the secret when `action` was answered with
/// `tile_coloring`: it has the guessed letter wherever a tile is green, and
/// holds the guessed letter somewhere wherever a tile is yellow.
pub fn is_valid_solution(action: &Word, tile_coloring: [TileColor; 5], solution: &Word) -> (valid:
    bool)
    ensures
        valid == consistent(action@, tile_coloring@, solution@),
{
    let mut i: usize = 0;
    while i < 5
        invariant
            i <= 5,
            forall|j: int|
                0 <= j < i ==> {
                    &&& (#[trigger] tile_coloring@[j] == TileColor::Green ==> action@.text[j]
                        == solution@.text[j])
                    &&& (tile_coloring@[j] == TileColor::Yellow ==> solution@.text.contains(
                        action@.text[j],
                    ))
                },
        decreases 5 - i,
    {
        let action_c: char = action.char_at(i);
        let solution_c: char = solution.char_at(i);
        let color: TileColor = tile_coloring[i];
        if color == TileColor::Green && !(action_c == solution_c) {
            return false;
        }
        if color == TileColor::Yellow && !solution.has_letter(action_c) {
            return false;
        }
        i += 1;
    }
    true
}

/// The text and index of each word of `words`.
pub open spec fn views(words: Seq<Word>) -> Seq<WordView> {
    words.map_values(|word: Word| word@)
}

/// Whether each word of `words` stands at the place that its index names.
pub fn is_indexed(words: &Vec<Word>) -> (ok: bool)
    ensures
        ok == indexed(views(words@)),
{
    let mut i: usize = 0;
    while i < words.len()
        invariant
            i <= words.len(),
            forall|j: int| 0 <= j < i ==> (#[trigger] views(words@)[j]).index == j,
        decreases words.len() - i,
    {
        if words[i].index() != i {
            assert(views(words@)[i as int].index != i);
            return false;
        }
        i += 1;
    }
    true
}

/// A candidate set at a turn: what the solver keeps a value for.
#[derive(Debug, PartialEq, Eq, Hash)]
pub struct StateTurn {
    pub state: WordContainer,
    pub turn: usize,
}

/// The solver: the two vocabularies, and the values found so far.
#[derive(Debug)]
pub struct Wordle {
    words: Vec<Word>,
    solutions: Vec<Word>,
    guess_container: WordContainer,
    v_mem: Vec<(StateTurn, Value)>,
}

impl Wordle {
    /// The words that can be guessed; candidate sets hold places in this list.
    pub closed spec fn vocabulary(&self) -> Seq<WordView> {
        views(self.words@)
    }

    /// The words that can be the secret.
    pub closed spec fn secrets(&self) -> Seq<WordView> {
        views(self.solutions@)
    }

    /// The states whose value is kept.
    pub closed spec fn memoized(&self) -> Set<(Set<int>, nat)> {
        Set::new(
            |key: (Set<int>, nat)|
                exists|j: int|
                    0 <= j < self.v_mem@.len() && (#[trigger] self.v_mem@[j]).0.state@ == key.0
                        && self.v_mem@[j].0.turn == key.1,
        )
    }

    /// Number of values kept.
    pub closed spec fn memo_size(&self) -> nat {
        self.v_mem@.len()
    }

    /// The vocabulary fits the capacity and is indexed, the container of all
    /// guesses holds each of its places, and each value kept is the value of
    /// its state, which is kept once.
    pub closed spec fn wf(&self) -> bool {
        &&& self.words@.len() <= GUESSES_N
        &&& indexed(views(self.words@))
        &&& self.guess_container.wf()
        &&& self.guess_container@ =~= Set::new(|i: int| 0 <= i < self.words@.len())
        &&& forall|j: int|
            0 <= j < self.v_mem@.len() ==> {
                let entry = #[trigger] self.v_mem@[j];
                &&& entry.0.state.wf()
                &&& within(entry.0.state@, self.words@.len())
                &&& entry.1@ == value(views(self.words@), entry.0.state@, entry.0.turn as nat)
            }
        &&& forall|j: int, l: int|
            0 <= j < l < self.v_mem@.len() ==> !((#[trigger] self.v_mem@[j]).0.state@ == (
            #[trigger] self.v_mem@[l]).0.state@ && self.v_mem@[j].0.turn == self.v_mem@[l].0.turn)
    }

    /// The vocabulary of a well-formed solver is valid, and there is one
    /// value kept for each state whose value is kept.
    pub proof fn lemma_wf(&self)
        requires
            self.wf(),
        ensures
            self.vocabulary().len() <= GUESSES_N,
            indexed(self.vocabulary()),
            self.memoized().finite(),
            self.memoized().len() == self.memo_size(),
    {
        let keys = self.v_mem@.map_values(
            |entry: (StateTurn, Value)| (entry.0.state@, entry.0.turn as nat),
        );
        keys.unique_seq_to_set();
        assert forall|key: (Set<int>, nat)| keys.to_set().contains(key) <==> self.memoized().contains(
            key,
        ) by {
            if self.memoized().contains(key) {
                let j = choose|j: int|
                    0 <= j < self.v_mem@.len() && (#[trigger] self.v_mem@[j]).0.state@ == key.0
                        && self.v_mem@[j].0.turn == key.1;
                assert(keys[j] == key);
            }
        }
        assert(keys.to_set() =~= self.memoized());
    }

    /// A solver for the guesses `words` and the secrets `solutions`, with no
    /// value kept yet.
    pub fn new(words: Vec<Word>, solutions: Vec<Word>) -> (solver: Wordle)
        requires
            words@.len() <= GUESSES_N,
            indexed(views(words@)),
            solutions@.len() <= WORDS_N,
            indexed(views(solutions@)),
        ensures
            solver.wf(),
            solver.vocabulary() == views(words@),
            solver.secrets() == views(solutions@),
            solver.memoized() == Set::<(Set<int>, nat)>::empty(),
            solver.memo_size() == 0,
    {
        let mut guess_container = WordContainer::new();
        let mut i: usize = 0;
        while i < words.len()
            invariant
                i <= words@.len(),
                words@.len() <= GUESSES_N,
                guess_container.wf(),
                guess_container@ =~= Set::new(|k: int| 0 <= k < i),
            decreases words@.len() - i,
        {
            guess_container.add_index(i);
            i += 1;
        }
        Wordle { words, solutions, guess_container, v_mem: Vec::new() }
    }

    /// Number of words that can be guessed.
    pub fn words_len(&self) -> (n: usize)
        ensures
            n == self.vocabulary().len(),
    {
        self.words.len()
    }

    /// The word at place `index` of the vocabulary.
    pub fn word(&self, index: usize) -> (word: &Word)
        requires
            index < self.vocabulary().len(),
        ensures
            word@ == self.vocabulary()[index as int],
    {
        &self.words[index]
    }

    /// Number of values kept.
    pub fn memo_len(&self) -> (n: usize)
        ensures
            n == self.memo_size(),
    {
        self.v_mem.len()
    }

    /// The members of `prev_state` that agree with the answer `coloring` to
    /// `action`, in the order that they have there.
    pub fn get_state(
        &self,
        coloring: [TileColor; 5],
        prev_state: &WordContainer,
        action: &Word,
    ) -> (new_state: WordContainer)
        requires
            self.wf(),
            prev_state.wf(),
            within(prev_state@, self.vocabulary().len()),
        ensures
            new_state.wf(),
            new_state@ == narrowed(self.vocabulary(), prev_state@, action@, coloring@),
            new_state.order() == prev_state.order().filter(
                |i: int| consistent(action@, coloring@, self.vocabulary()[i]),
            ),
    {
        let ghost words = self.vocabulary();
        let ghost keep = |i: int| consistent(action@, coloring@, words[i]);
        let mut new_state = WordContainer::new();
        let n: usize = prev_state.len();
        let mut k: usize = 0;
        proof {
            reveal(Seq::filter);
        }
        while k < n
            invariant
                k <= n,
                n == prev_state.order().len(),
                self.wf(),
                prev_state.wf(),
                within(prev_state@, words.len()),
                words == self.vocabulary(),
                keep == |i: int| consistent(action@, coloring@, words[i]),
                new_state.wf(),
                new_state.order() == prev_state.order().take(k as int).filter(keep),
            decreases n - k,
        {
            let index: usize = prev_state.index_at(k);
            let sol: Word = self.words[index];
            proof {
                prev_state.lemma_wf();
                new_state.lemma_wf();
                let before = prev_state.order().take(k as int);
                assert(prev_state.order().take(k + 1) =~= before.push(index as int));
                before.lemma_filter_push(index as int, keep);
                if new_state@.contains(index as int) {
                    before.lemma_filter_contains_rev(keep, index as int);
                }
            }
            if is_valid_solution(action, coloring, &sol) {
                new_state.add_word(&sol);
            }
            k += 1;
        }
        proof {
            prev_state.lemma_wf();
            new_state.lemma_wf();
            assert(prev_state.order().take(n as int) =~= prev_state.order());
            let target = narrowed(words, prev_state@, action@, coloring@);
            assert forall|i: int| new_state@.contains(i) <==> target.contains(i) by {
                if new_state@.contains(i) {
                    prev_state.order().lemma_filter_contains_rev(keep, i);
                    assert(prev_state.order().to_set().contains(i));
                }
            }
        }
        new_state
    }

    /// Where `action` can lead from `state`: for each candidate as the
    /// secret, the state that the answer leaves, counted once for each
    /// candidate that leaves it.
    pub fn get_transition(&self, state: &WordContainer, action: &Word) -> (transition: Transition)
        requires
            self.wf(),
            state.wf(),
            within(state@, self.vocabulary().len()),
        ensures
            transition.wf(),
            transition@ == transition_map(self.vocabulary(), state@, action@),
            transition.keys() == states_left(self.vocabulary(), state@, action@, state.order()),
    {
        let ghost words = self.vocabulary();
        let mut transition = Transition::new();
        let n: usize = state.len();
        let mut k: usize = 0;
        proof {
            state.lemma_wf();
        }
        while k < n
            invariant
                k <= n,
                n == state.order().len(),
                self.wf(),
                state.wf(),
                within(state@, words.len()),
                words == self.vocabulary(),
                transition.wf(),
                transition@ == distribution(
                    words,
                    state@,
                    action@,
                    state.order().take(k as int).to_set(),
                ),
                transition.keys() == states_left(
                    words,
                    state@,
                    action@,
                    state.order().take(k as int),
                ),
            decreases n - k,
        {
            let solution_index: usize = state.index_at(k);
            let solution: Word = self.words[solution_index];
            let tile_coloring: [TileColor; 5] = get_coloring(&solution, action);
            let s_temp: WordContainer = self.get_state(tile_coloring, state, action);
            proof {
                state.lemma_wf();
                let seen = state.order().take(k as int);
                seen.unique_seq_to_set();
                assert(state.order().take(k + 1) =~= seen.push(solution_index as int));
                seen.lemma_push_to_set_commute(solution_index as int);
                lemma_distribution_insert(
                    words,
                    state@,
                    action@,
                    seen.to_set(),
                    solution_index as int,
                );
                lemma_leading_to_is_finite(words, state@, action@, seen.to_set(), s_temp@);
                transition.lemma_wf();
                assert(state.order().take(k + 1).drop_last() =~= seen);
            }
            transition.add(s_temp);
            k += 1;
        }
        proof {
            assert(state.order().take(n as int) =~= state.order());
        }
        transition
    }
}

impl Wordle {
    /// The value kept for `state_turn`, if one is.
    pub fn lookup(&self, state_turn: &StateTurn) -> (found: Option<Value>)
        requires
            self.wf(),
        ensures
            match found {
                Some(kept) => {
                    &&& self.memoized().contains((state_turn.state@, state_turn.turn as nat))
                    &&& kept@ == value(
                        self.vocabulary(),
                        state_turn.state@,
                        state_turn.turn as nat,
                    )
                },
                None => !self.memoized().contains((state_turn.state@, state_turn.turn as nat)),
            },
    {
        let mut j: usize = 0;
        while j < self.v_mem.len()
            invariant
                self.wf(),
                j <= self.v_mem@.len(),
                forall|l: int|
                    0 <= l < j ==> !((#[trigger] self.v_mem@[l]).0.state@ == state_turn.state@
                        && self.v_mem@[l].0.turn == state_turn.turn),
            decreases self.v_mem@.len() - j,
        {
            if self.v_mem[j].0.turn == state_turn.turn && self.v_mem[j].0.state
                == state_turn.state {
                return Some(self.v_mem[j].1);
            }
            j += 1;
        }
        None
    }

    /// What playing the word at `action_index` costs in `state` at `turn`,
    /// or no cost where the cost cannot be less than `best`. The states that
    /// the guess can leave are first taken at the least that they can be
    /// worth; one after the other is then given its value, and the guess is
    /// given up as soon as what is known of it is no less than `best`.
    fn evaluate_action(
        &mut self,
        state: &WordContainer,
        turn: usize,
        action_index: usize,
        best: Value,
    ) -> (cost: Value)
        requires
            old(self).wf(),
            state.wf(),
            within(state@, old(self).vocabulary().len()),
            turn + 1 < TURNS,
            action_index < old(self).vocabulary().len(),
        ensures
            final(self).wf(),
            final(self).vocabulary() == old(self).vocabulary(),
            final(self).secrets() == old(self).secrets(),
            old(self).memoized().subset_of(final(self).memoized()),
            old(self).memo_size() <= final(self).memo_size(),
            forall|key: (Set<int>, nat)|
                final(self).memoized().contains(key) && !old(self).memoized().contains(key)
                    ==> key.1 > turn,
            cost@ == action_cost(
                old(self).vocabulary(),
                state@,
                turn as nat,
                old(self).vocabulary()[action_index as int],
            ) || (cost@ is None && at_most(
                best@,
                action_cost(
                    old(self).vocabulary(),
                    state@,
                    turn as nat,
                    old(self).vocabulary()[action_index as int],
                ),
            )),
        decreases TURNS - turn, 0nat,
    {
        let ghost words = self.vocabulary();
        let action: Word = self.words[action_index];
        let next_states: Transition = self.get_transition(state, &action);
        let ghost keys = next_states.keys();
        let ghost paid = entry_cost_fn(words, turn as nat, action@);
        let ghost owed = entry_bound_fn(action@);
        let ghost exact = action_cost(words, state@, turn as nat, action@);
        proof {
            next_states.lemma_wf();
            lemma_transition_facts(words, state@, action@, keys);
            lemma_uninformative(words, state@, action@, keys);
            lemma_settles(words, state@, turn as nat, action@, keys);
            lemma_within_is_finite(state@, words.len());
        }
        let count: usize = next_states.len();
        if count == 1 && *next_states.state_at(0) == *state {
            return Value::Infinite;
        }
        let size: usize = state.len();
        if size == 0 {
            return Value::Finite(UNIT);
        }
        let mut temp: u64 = 0;
        let mut j: usize = 0;
        while j < count
            invariant
                j <= count,
                count == keys.len(),
                keys == next_states.keys(),
                next_states.wf(),
                next_states@ == transition_map(words, state@, action@),
                within(state@, words.len()),
                words.len() <= GUESSES_N,
                lists_transition(words, state@, action@, keys),
                turn + 1 < TURNS,
                owed == entry_bound_fn(action@),
                temp == grouped_sum(words, state@, action@, state@, keys, owed, j as nat),
            decreases count - j,
        {
            let next: &WordContainer = next_states.state_at(j);
            let mass: usize = next_states.count_at(j);
            proof {
                lemma_transition_facts(words, state@, action@, keys);
                lemma_within_is_finite(state@, words.len());
                lemma_running_bounds(words, state@, turn as nat, action@, keys, j as nat);
                lemma_single_member(next@, action@.index);
            }
            if !(next.len() == 1 && next.has_word(&action)) {
                let each: u64 = least(next.len());
                assert(mass * each <= GUESSES_N * (5 * UNIT)) by (nonlinear_arith)
                    requires
                        0 <= mass <= GUESSES_N,
                        0 <= each <= 5 * UNIT,
                ;
                temp = temp + (mass as u64) * each;
            } else {
                assert(mass * 0 == 0) by (nonlinear_arith);
            }
            j += 1;
        }
        j = 0;
        while j < count
            invariant
                j <= count,
                count == keys.len(),
                keys == next_states.keys(),
                next_states.wf(),
                next_states@ == transition_map(words, state@, action@),
                state.wf(),
                within(state@, words.len()),
                size == state@.len(),
                size > 0,
                words.len() <= GUESSES_N,
                lists_transition(words, state@, action@, keys),
                turn + 1 < TURNS,
                action_index < words.len(),
                action@ == words[action_index as int],
                exact == action_cost(words, state@, turn as nat, action@),
                !uninformative(words, state@, action@),
                paid == entry_cost_fn(words, turn as nat, action@),
                owed == entry_bound_fn(action@),
                temp == grouped_sum(words, state@, action@, state@, keys, paid, j as nat)
                    + grouped_sum(words, state@, action@, state@, keys, owed, count as nat)
                    - grouped_sum(words, state@, action@, state@, keys, owed, j as nat),
                forall|l: int|
                    0 <= l < j && !wins(#[trigger] keys[l], action@) ==> value(
                        words,
                        keys[l],
                        (turn + 1) as nat,
                    ) is Some,
                self.wf(),
                self.vocabulary() == words,
                words == old(self).vocabulary(),
                self.secrets() == old(self).secrets(),
                old(self).memoized().subset_of(self.memoized()),
                old(self).memo_size() <= self.memo_size(),
                forall|key: (Set<int>, nat)|
                    self.memoized().contains(key) && !old(self).memoized().contains(key) ==> key.1
                        > turn,
            decreases count - j,
        {
            proof {
                lemma_transition_facts(words, state@, action@, keys);
                lemma_within_is_finite(state@, words.len());
                lemma_running_bounds(words, state@, turn as nat, action@, keys, j as nat);
                assert(5 * UNIT * state@.len() <= 5 * UNIT * GUESSES_N) by (nonlinear_arith)
                    requires
                        state@.len() <= GUESSES_N,
                ;
            }
            match best {
                Value::Finite(limit) => {
                    if UNIT + temp / (size as u64) >= limit {
                        proof {
                            if exact is Some {
                                lemma_running_total(
                                    words,
                                    state@,
                                    turn as nat,
                                    action@,
                                    keys,
                                    j as nat,
                                );
                                lemma_div_is_ordered(
                                    temp as int,
                                    continuation(words, state@, turn as nat, action@, words.len()),
                                    size as int,
                                );
                            }
                        }
                        return Value::Infinite;
                    }
                },
                Value::Infinite => {},
            }
            let next: &WordContainer = next_states.state_at(j);
            let mass: usize = next_states.count_at(j);
            if !(next.len() == 1 && next.has_word(&action)) {
                let each: u64 = least(next.len());
                assert(mass * each <= GUESSES_N * (5 * UNIT)) by (nonlinear_arith)
                    requires
                        0 <= mass <= GUESSES_N,
                        0 <= each <= 5 * UNIT,
                ;
                let next_state_turn = StateTurn { state: next.clone(), turn: turn + 1 };
                let worth: Value = self.get_state_value(next_state_turn);
                match worth {
                    Value::Infinite => {
                        return Value::Infinite;
                    },
                    Value::Finite(units) => {
                        assert(mass * units <= GUESSES_N * (5 * UNIT)) by (nonlinear_arith)
                            requires
                                0 <= mass <= GUESSES_N,
                                0 <= units <= 5 * UNIT,
                        ;
                        temp = temp - (mass as u64) * each + (mass as u64) * units;
                    },
                }
            } else {
                assert(mass * 0 == 0) by (nonlinear_arith);
            }
            j += 1;
        }
        proof {
            lemma_total_is_continuation(words, state@, turn as nat, action@, keys);
            lemma_running_bounds(words, state@, turn as nat, action@, keys, count as nat);
        }
        Value::Finite(UNIT + temp / (size as u64))
    }

    /// The expected number of guesses from the candidate set of `state_turn`
    /// at its turn. A state whose value is known at once is answered at
    /// once, and a state whose value is kept is answered from what is kept.
    /// For any other state each word of the vocabulary is tried as the
    /// guess, the candidates first, and the least cost is kept and returned.
    pub fn get_state_value(&mut self, state_turn: StateTurn) -> (found: Value)
        requires
            old(self).wf(),
            state_turn.state.wf(),
            within(state_turn.state@, old(self).vocabulary().len()),
        ensures
            final(self).wf(),
            final(self).vocabulary() == old(self).vocabulary(),
            final(self).secrets() == old(self).secrets(),
            found@ == value(old(self).vocabulary(), state_turn.state@, state_turn.turn as nat),
            state_turn.turn >= TURNS ==> found == Value::Infinite,
            state_turn.turn == TURNS - 1 ==> found == if state_turn.state@.len() <= 1 {
                Value::Finite(UNIT)
            } else {
                Value::Infinite
            },
            state_turn.turn < TURNS && state_turn.state@.len() == 1 ==> found == Value::Finite(
                UNIT,
            ),
            state_turn.turn + 1 < TURNS && state_turn.state@.len() == 2 ==> found
                == Value::Finite(UNIT_AND_HALF),
            old(self).memoized().subset_of(final(self).memoized()),
            old(self).memo_size() <= final(self).memo_size(),
            forall|key: (Set<int>, nat)|
                final(self).memoized().contains(key) && !old(self).memoized().contains(key)
                    ==> key.1 >= state_turn.turn,
            is_terminal(state_turn.state@.len(), state_turn.turn as nat) || old(
                self
            ).memoized().contains((state_turn.state@, state_turn.turn as nat)) ==> {
                &&& final(self).memoized() == old(self).memoized()
                &&& final(self).memo_size() == old(self).memo_size()
            },
            !is_terminal(state_turn.state@.len(), state_turn.turn as nat) ==> final(
                self
            ).memoized().contains((state_turn.state@, state_turn.turn as nat)),
        decreases TURNS - state_turn.turn, 1nat,
    {
        let ghost words = self.vocabulary();
        let ghost candidates = state_turn.state@;
        let t: usize = state_turn.turn;
        let size: usize = state_turn.state.len();
        if t >= TURNS || (t == TURNS - 1 && size > 1) {
            return Value::Infinite;
        } else if t == TURNS - 1 {
            return Value::Finite(UNIT);
        } else if size == 1 {
            return Value::Finite(UNIT);
        } else if size == 2 {
            return Value::Finite(UNIT_AND_HALF);
        }
        match self.lookup(&state_turn) {
            Some(kept) => {
                return kept;
            },
            None => {},
        }
        let mut state_value: Value = Value::Infinite;
        let new_guesses: WordContainer = self.guess_container.disjoint(&state_turn.state);
        let actions: WordContainer = state_turn.state.union(&new_guesses);
        let n: usize = actions.len();
        let mut k: usize = 0;
        while k < n
            invariant
                k <= n,
                n == actions.order().len(),
                actions.wf(),
                actions@ == Set::new(|i: int| 0 <= i < words.len()),
                state_turn.state.wf(),
                candidates == state_turn.state@,
                t == state_turn.turn,
                t + 1 < TURNS,
                within(candidates, words.len()),
                forall|j: int|
                    0 <= j < k ==> at_most(
                        state_value@,
                        action_cost(words, candidates, t as nat, words[#[trigger] actions.order()[j]]),
                    ),
                state_value@ is None || exists|a: int|
                    0 <= a < words.len() && state_value@ == #[trigger] action_cost(
                        words,
                        candidates,
                        t as nat,
                        words[a],
                    ),
                self.wf(),
                self.vocabulary() == words,
                words == old(self).vocabulary(),
                self.secrets() == old(self).secrets(),
                old(self).memoized().subset_of(self.memoized()),
                old(self).memo_size() <= self.memo_size(),
                !old(self).memoized().contains((candidates, t as nat)),
                !is_terminal(candidates.len(), t as nat),
                forall|key: (Set<int>, nat)|
                    self.memoized().contains(key) && !old(self).memoized().contains(key) ==> key.1
                        > t,
            decreases n - k,
        {
            let action_index: usize = actions.index_at(k);
            let cost: Value = self.evaluate_action(&state_turn.state, t, action_index, state_value);
            match cost {
                Value::Finite(units) => {
                    let better: bool = match state_value {
                        Value::Finite(least_so_far) => units < least_so_far,
                        Value::Infinite => true,
                    };
                    if better {
                        state_value = cost;
                    }
                },
                Value::Infinite => {},
            }
            k += 1;
        }
        proof {
            actions.lemma_wf();
            assert forall|a: int| 0 <= a < words.len() implies at_most(
                state_value@,
                #[trigger] action_cost(words, candidates, t as nat, words[a]),
            ) by {
                assert(actions@.contains(a));
            }
            lemma_best_cost_is(words, candidates, t as nat, state_value@);
        }
        let ghost before = *self;
        self.v_mem.push((state_turn, state_value));
        proof {
            assert(self.v_mem@[self.v_mem@.len() - 1].0.state@ == candidates);
            assert forall|other: (Set<int>, nat)|
                before.memoized().contains(other) implies self.memoized().contains(other) by {
                let j = choose|j: int|
                    0 <= j < before.v_mem@.len() && (#[trigger] before.v_mem@[j]).0.state@
                        == other.0 && before.v_mem@[j].0.turn == other.1;
                assert(self.v_mem@[j] == before.v_mem@[j]);
            }
        }
        state_value
    }
}

} // verus!
