//! Facts about the value of a search state, proved from its definition.

use crate::game::{coloring, valid_word, TileColor, WordView};
use crate::value::{
    action_cost, at_most, best_cost, consistent, continuation, contribution, distribution,
    leading_to, least_value, next_state, settles, smaller, transition_map, uninformative,
    valid_vocabulary, value, wins, TURNS, UNIT, UNIT_AND_HALF,
};
use vstd::arithmetic::div_mod::{
    lemma_div_is_ordered, lemma_div_multiples_vanish, lemma_hoist_over_denominator,
};
use vstd::prelude::*;

verus! {

/// Every member of `state` is the index of one of the first `limit` words.
pub open spec fn within(state: Set<int>, limit: nat) -> bool {
    forall|i: int| state.contains(i) ==> 0 <= i < limit
}

/// A word agrees with the answer that it gives itself as the secret.
pub proof fn lemma_secret_is_consistent(action: WordView, secret: WordView)
    ensures
        consistent(action, coloring(secret, action), secret),
{
}

/// The secret stays in the state that follows.
pub proof fn lemma_secret_stays(words: Seq<WordView>, state: Set<int>, action: WordView, secret: int)
    requires
        state.contains(secret),
        0 <= secret < words.len(),
    ensures
        next_state(words, state, action, secret).contains(secret),
        next_state(words, state, action, secret).subset_of(state),
{
    lemma_secret_is_consistent(action, words[secret]);
}

/// The secrets that lead to a state are among the secrets, so they are
/// finitely many and no more than those.
pub proof fn lemma_leading_to_is_finite(
    words: Seq<WordView>,
    state: Set<int>,
    action: WordView,
    secrets: Set<int>,
    next: Set<int>,
)
    requires
        secrets.finite(),
    ensures
        leading_to(words, state, action, secrets, next).finite(),
        leading_to(words, state, action, secrets, next).len() <= secrets.len(),
{
    let leading = leading_to(words, state, action, secrets, next);
    vstd::set_lib::lemma_len_subset(leading, secrets);
}

/// One more secret adds one to the number of the state that it leads to, and
/// changes no other number.
pub proof fn lemma_distribution_insert(
    words: Seq<WordView>,
    state: Set<int>,
    action: WordView,
    secrets: Set<int>,
    secret: int,
)
    requires
        secrets.finite(),
        !secrets.contains(secret),
        0 <= secret < words.len(),
    ensures
        ({
            let before = distribution(words, state, action, secrets);
            let next = next_state(words, state, action, secret);
            distribution(words, state, action, secrets.insert(secret)) == before.insert(
                next,
                if before.dom().contains(next) {
                    before[next] + 1
                } else {
                    1
                },
            )
        }),
{
    let before = distribution(words, state, action, secrets);
    let after = distribution(words, state, action, secrets.insert(secret));
    let next = next_state(words, state, action, secret);
    let expected = before.insert(
        next,
        if before.dom().contains(next) {
            (before[next] + 1) as nat
        } else {
            1
        },
    );
    assert forall|other: Set<int>| after.dom().contains(other) <==> expected.dom().contains(
        other,
    ) by {
        let old_leading = leading_to(words, state, action, secrets, other);
        let new_leading = leading_to(words, state, action, secrets.insert(secret), other);
        if after.dom().contains(other) {
            let s = choose|s: int| #[trigger] new_leading.contains(s);
            if s != secret {
                assert(old_leading.contains(s));
            }
        }
        if before.dom().contains(other) {
            let s = choose|s: int| #[trigger] old_leading.contains(s);
            assert(new_leading.contains(s));
        }
        if other == next {
            assert(new_leading.contains(secret));
        }
    }
    assert forall|other: Set<int>| #[trigger] after.dom().contains(other) implies after[other]
        == expected[other] by {
        let old_leading = leading_to(words, state, action, secrets, other);
        let new_leading = leading_to(words, state, action, secrets.insert(secret), other);
        lemma_leading_to_is_finite(words, state, action, secrets, other);
        if other == next {
            assert(new_leading =~= old_leading.insert(secret));
            if !before.dom().contains(next) {
                assert forall|s: int| !old_leading.contains(s) by {}
                assert(old_leading =~= Set::<int>::empty());
            }
        } else {
            assert(new_leading =~= old_leading);
        }
    }
}

/// The members of `state` among the first `limit` places.
pub open spec fn below(state: Set<int>, limit: nat) -> Set<int> {
    Set::new(|i: int| state.contains(i) && 0 <= i < limit)
}

/// Number of members of `state` among the first `limit` places.
pub open spec fn members_below(state: Set<int>, limit: nat) -> nat
    decreases limit,
{
    if limit == 0 {
        0
    } else {
        members_below(state, (limit - 1) as nat) + if state.contains(limit - 1) {
            1nat
        } else {
            0nat
        }
    }
}

/// Counting the members place by place gives the size of the set.
pub proof fn lemma_members_below(state: Set<int>, limit: nat)
    ensures
        below(state, limit).finite(),
        members_below(state, limit) == below(state, limit).len(),
    decreases limit,
{
    if limit == 0 {
        assert(below(state, limit) =~= Set::<int>::empty());
    } else {
        let fewer = (limit - 1) as nat;
        lemma_members_below(state, fewer);
        if state.contains(limit - 1) {
            assert(below(state, limit) =~= below(state, fewer).insert(limit - 1));
        } else {
            assert(below(state, limit) =~= below(state, fewer));
        }
    }
}

/// A set of places among the first `limit` is finite, and counting its
/// members place by place gives its size.
pub proof fn lemma_within_is_finite(state: Set<int>, limit: nat)
    requires
        within(state, limit),
    ensures
        state.finite(),
        members_below(state, limit) == state.len(),
        state.len() <= limit,
{
    lemma_members_below(state, limit);
    assert(below(state, limit) =~= state);
    lemma_members_below_bound(state, limit);
}

/// No more members than places.
pub proof fn lemma_members_below_bound(state: Set<int>, limit: nat)
    ensures
        members_below(state, limit) <= limit,
    decreases limit,
{
    if limit > 0 {
        lemma_members_below_bound(state, (limit - 1) as nat);
    }
}

/// The sum of `f` over the first `limit` places.
pub open spec fn range_sum(f: spec_fn(int) -> int, limit: nat) -> int
    decreases limit,
{
    if limit == 0 {
        0
    } else {
        range_sum(f, (limit - 1) as nat) + f(limit - 1)
    }
}

/// What `cost` makes of the state that follows, for a candidate; nothing for
/// a word that is no candidate.
pub open spec fn cost_after(
    words: Seq<WordView>,
    state: Set<int>,
    action: WordView,
    cost: spec_fn(Set<int>) -> int,
) -> spec_fn(int) -> int {
    |secret: int|
        if state.contains(secret) {
            cost(next_state(words, state, action, secret))
        } else {
            0
        }
}

/// The sum, over the first `count` of the states `keys`, of `cost` of the
/// state times the number of the secrets among `secrets` that lead to it.
pub open spec fn grouped_sum(
    words: Seq<WordView>,
    state: Set<int>,
    action: WordView,
    secrets: Set<int>,
    keys: Seq<Set<int>>,
    cost: spec_fn(Set<int>) -> int,
    count: nat,
) -> int
    decreases count,
{
    if count == 0 {
        0
    } else {
        grouped_sum(words, state, action, secrets, keys, cost, (count - 1) as nat) + leading_to(
            words,
            state,
            action,
            secrets,
            keys[count - 1],
        ).len() * cost(keys[count - 1])
    }
}

/// One more secret adds to the grouped sum the cost of the state that it
/// leads to, if that state is among those summed over.
pub proof fn lemma_grouped_sum_insert(
    words: Seq<WordView>,
    state: Set<int>,
    action: WordView,
    secrets: Set<int>,
    secret: int,
    keys: Seq<Set<int>>,
    cost: spec_fn(Set<int>) -> int,
    count: nat,
)
    requires
        secrets.finite(),
        !secrets.contains(secret),
        0 <= secret < words.len(),
        keys.no_duplicates(),
        count <= keys.len(),
    ensures
        grouped_sum(words, state, action, secrets.insert(secret), keys, cost, count) == grouped_sum(
            words,
            state,
            action,
            secrets,
            keys,
            cost,
            count,
        ) + if exists|j: int| 0 <= j < count && keys[j] == next_state(words, state, action, secret) {
            cost(next_state(words, state, action, secret))
        } else {
            0
        },
    decreases count,
{
    let next = next_state(words, state, action, secret);
    if count > 0 {
        let fewer = (count - 1) as nat;
        lemma_grouped_sum_insert(words, state, action, secrets, secret, keys, cost, fewer);
        let key = keys[count - 1];
        let old_leading = leading_to(words, state, action, secrets, key);
        let new_leading = leading_to(words, state, action, secrets.insert(secret), key);
        lemma_leading_to_is_finite(words, state, action, secrets, key);
        if key == next {
            assert(new_leading =~= old_leading.insert(secret));
            assert((old_leading.len() + 1) * cost(key) == old_leading.len() * cost(key) + cost(key))
                by (nonlinear_arith);
        } else {
            assert(new_leading =~= old_leading);
        }
    }
}

/// Summing state by state, each with the number of candidates that lead to
/// it, gives what summing candidate by candidate gives.
pub proof fn lemma_grouped_sum(
    words: Seq<WordView>,
    state: Set<int>,
    action: WordView,
    keys: Seq<Set<int>>,
    cost: spec_fn(Set<int>) -> int,
    limit: nat,
)
    requires
        keys.no_duplicates(),
        limit <= words.len(),
        forall|secret: int|
            state.contains(secret) && 0 <= secret < words.len() ==> keys.contains(
                #[trigger] next_state(words, state, action, secret),
            ),
    ensures
        grouped_sum(words, state, action, below(state, limit), keys, cost, keys.len()) == range_sum(
            cost_after(words, state, action, cost),
            limit,
        ),
    decreases limit,
{
    if limit == 0 {
        assert(below(state, limit) =~= Set::<int>::empty());
        lemma_grouped_sum_of_none(words, state, action, keys, cost, keys.len());
    } else {
        let fewer = (limit - 1) as nat;
        let secret = limit - 1;
        lemma_grouped_sum(words, state, action, keys, cost, fewer);
        lemma_members_below(state, fewer);
        if state.contains(secret) {
            assert(below(state, limit) =~= below(state, fewer).insert(secret));
            lemma_grouped_sum_insert(
                words,
                state,
                action,
                below(state, fewer),
                secret,
                keys,
                cost,
                keys.len(),
            );
        } else {
            assert(below(state, limit) =~= below(state, fewer));
        }
    }
}

/// Without a secret the grouped sum is nothing.
pub proof fn lemma_grouped_sum_of_none(
    words: Seq<WordView>,
    state: Set<int>,
    action: WordView,
    keys: Seq<Set<int>>,
    cost: spec_fn(Set<int>) -> int,
    count: nat,
)
    ensures
        grouped_sum(words, state, action, Set::<int>::empty(), keys, cost, count) == 0,
    decreases count,
{
    if count > 0 {
        lemma_grouped_sum_of_none(words, state, action, keys, cost, (count - 1) as nat);
        assert(leading_to(words, state, action, Set::<int>::empty(), keys[count - 1])
            =~= Set::<int>::empty());
    }
}

/// What is still to be paid once `action` has left `next`: nothing if the
/// guess was the secret, else the value of `next` at the following turn.
pub open spec fn entry_cost(words: Seq<WordView>, turn: nat, action: WordView, next: Set<int>) -> int {
    if wins(next, action) {
        0
    } else {
        match value(words, next, turn + 1) {
            Some(v) => v,
            None => 0,
        }
    }
}

/// `entry_cost` as a function of the state that is left.
pub open spec fn entry_cost_fn(words: Seq<WordView>, turn: nat, action: WordView) -> spec_fn(
    Set<int>,
) -> int {
    |next: Set<int>| entry_cost(words, turn, action, next)
}

/// The least that can still be to pay once `action` has left `next`.
pub open spec fn entry_bound(action: WordView, next: Set<int>) -> int {
    if wins(next, action) {
        0
    } else {
        least_value(next.len())
    }
}

/// `entry_bound` as a function of the state that is left.
pub open spec fn entry_bound_fn(action: WordView) -> spec_fn(Set<int>) -> int {
    |next: Set<int>| entry_bound(action, next)
}

/// One for each state.
pub open spec fn unit_fn() -> spec_fn(Set<int>) -> int {
    |next: Set<int>| 1int
}

/// The continuation is the sum, candidate by candidate, of what is still to
/// be paid in the state that follows.
pub proof fn lemma_continuation_is_range_sum(
    words: Seq<WordView>,
    state: Set<int>,
    turn: nat,
    action: WordView,
    limit: nat,
)
    requires
        turn + 1 < TURNS,
    ensures
        continuation(words, state, turn, action, limit) == range_sum(
            cost_after(words, state, action, entry_cost_fn(words, turn, action)),
            limit,
        ),
    decreases limit,
{
    if limit > 0 {
        lemma_continuation_is_range_sum(words, state, turn, action, (limit - 1) as nat);
        let secret = limit - 1;
        let each = cost_after(words, state, action, entry_cost_fn(words, turn, action));
        assert(contribution(words, state, turn, action, secret) == each(secret));
    }
}

/// The number of candidates is the sum, candidate by candidate, of one.
pub proof fn lemma_members_is_range_sum(
    words: Seq<WordView>,
    state: Set<int>,
    action: WordView,
    limit: nat,
)
    ensures
        members_below(state, limit) == range_sum(
            cost_after(words, state, action, unit_fn()),
            limit,
        ),
    decreases limit,
{
    if limit > 0 {
        lemma_members_is_range_sum(words, state, action, (limit - 1) as nat);
    }
}

/// The best cost among the first `actions` words is no more than the cost of
/// each of them, and is the cost of one of them unless none has a cost.
pub proof fn lemma_best_cost(words: Seq<WordView>, state: Set<int>, turn: nat, actions: nat)
    requires
        turn + 1 < TURNS,
    ensures
        forall|a: int|
            0 <= a < actions ==> at_most(
                best_cost(words, state, turn, actions),
                #[trigger] action_cost(words, state, turn, words[a]),
            ),
        best_cost(words, state, turn, actions) is None || exists|a: int|
            0 <= a < actions && best_cost(words, state, turn, actions) == #[trigger] action_cost(
                words,
                state,
                turn,
                words[a],
            ),
    decreases actions,
{
    if actions > 0 {
        let fewer = (actions - 1) as nat;
        lemma_best_cost(words, state, turn, fewer);
        assert(best_cost(words, state, turn, actions) == smaller(
            best_cost(words, state, turn, fewer),
            action_cost(words, state, turn, words[actions - 1]),
        ));
    }
}

/// A value that is no more than the cost of each word, and is the cost of
/// one of them unless none has a cost, is the best cost.
pub proof fn lemma_best_cost_is(words: Seq<WordView>, state: Set<int>, turn: nat, best: Option<int>)
    requires
        turn + 1 < TURNS,
        forall|a: int|
            0 <= a < words.len() ==> at_most(
                best,
                #[trigger] action_cost(words, state, turn, words[a]),
            ),
        best is None || exists|a: int|
            0 <= a < words.len() && best == #[trigger] action_cost(words, state, turn, words[a]),
    ensures
        best == best_cost(words, state, turn, words.len()),
{
    lemma_best_cost(words, state, turn, words.len());
}

/// The least value of a state is one guess for a single candidate, and one
/// guess and the share of the others for more.
pub proof fn lemma_least_value(size: nat)
    requires
        size > 0,
    ensures
        least_value(size) == UNIT + (size - 1) * UNIT / (size as int),
        UNIT <= least_value(size) <= 2 * UNIT,
{
    let rest = (size - 1) * UNIT;
    lemma_hoist_over_denominator(rest, UNIT as int, size);
    assert(rest + UNIT * size == (2 * size - 1) * UNIT) by (nonlinear_arith)
        requires
            rest == (size - 1) * UNIT,
    ;
    assert(rest <= UNIT * size) by (nonlinear_arith)
        requires
            rest == (size - 1) * UNIT,
            size > 0,
    ;
    lemma_div_is_ordered(rest, UNIT * size, size as int);
    lemma_div_multiples_vanish(UNIT as int, size as int);
    assert(UNIT * size == size * UNIT) by (nonlinear_arith);
    assert(0int / (size as int) == 0) by (nonlinear_arith)
        requires
            size > 0,
    ;
}

/// A larger state has no lesser least value.
pub proof fn lemma_least_value_grows(small: nat, large: nat)
    requires
        0 < small <= large,
    ensures
        least_value(small) <= least_value(large),
{
    lemma_least_value(small);
    lemma_least_value(large);
    let a = (small - 1) * UNIT / (small as int);
    let b = (large - 1) * UNIT / (large as int);
    vstd::arithmetic::div_mod::lemma_fundamental_div_mod((small - 1) * UNIT, small as int);
    vstd::arithmetic::div_mod::lemma_fundamental_div_mod((large - 1) * UNIT, large as int);
    let ra = ((small - 1) * UNIT) % (small as int);
    let rb = ((large - 1) * UNIT) % (large as int);
    assert(a <= b) by (nonlinear_arith)
        requires
            0 < small <= large,
            (small - 1) * UNIT == small * a + ra,
            (large - 1) * UNIT == large * b + rb,
            0 <= ra < small,
            0 <= rb < large,
            UNIT > 0,
    ;
}

/// A value, where there is one, is at least one guess, at most the guesses
/// that are left, and at least the least value of a state of that size.
pub proof fn lemma_value_bounds(words: Seq<WordView>, state: Set<int>, turn: nat)
    requires
        within(state, words.len()),
    ensures
        match value(words, state, turn) {
            Some(v) => {
                &&& UNIT <= v <= (TURNS - turn) * UNIT
                &&& state.len() > 0 ==> least_value(state.len()) <= v
            },
            None => true,
        },
    decreases TURNS - turn, 1nat, 0nat,
{
    lemma_within_is_finite(state, words.len());
    if turn + 1 < TURNS && state.len() != 1 && state.len() != 2 {
        lemma_best_cost(words, state, turn, words.len());
        if value(words, state, turn) is Some {
            let a = choose|a: int|
                0 <= a < words.len() && best_cost(words, state, turn, words.len())
                    == #[trigger] action_cost(words, state, turn, words[a]);
            lemma_action_cost_bounds(words, state, turn, words[a]);
        }
    }
}

/// The cost of a guess, where it has one, is at least one guess, at most the
/// guesses that are left, and at least the least value of the state.
pub proof fn lemma_action_cost_bounds(
    words: Seq<WordView>,
    state: Set<int>,
    turn: nat,
    action: WordView,
)
    requires
        within(state, words.len()),
        turn + 1 < TURNS,
    ensures
        match action_cost(words, state, turn, action) {
            Some(c) => {
                &&& UNIT <= c <= (TURNS - turn) * UNIT
                &&& state.len() > 0 ==> least_value(state.len()) <= c
            },
            None => true,
        },
    decreases TURNS - turn, 0nat, words.len() + 1,
{
    if action_cost(words, state, turn, action) is Some {
        lemma_within_is_finite(state, words.len());
        let size = state.len();
        if size > 0 {
            lemma_continuation_bounds(words, state, turn, action, words.len());
            let total = continuation(words, state, turn, action, words.len());
            let most = (TURNS - turn - 1) * UNIT;
            lemma_least_value(size);
            assert(UNIT * (size - 1) == (size - 1) * UNIT) by (nonlinear_arith);
            lemma_div_is_ordered((size - 1) * UNIT, total, size as int);
            lemma_div_is_ordered(total, most * size, size as int);
            lemma_div_multiples_vanish(most, size as int);
            assert(most * size == size * most) by (nonlinear_arith);
        }
    }
}

/// Where a guess settles every candidate, what is still to be paid for the
/// first `limit` words is at most the guesses left after this one for each
/// candidate among them, and at least one guess for each candidate but the
/// guessed word.
pub proof fn lemma_continuation_bounds(
    words: Seq<WordView>,
    state: Set<int>,
    turn: nat,
    action: WordView,
    limit: nat,
)
    requires
        within(state, words.len()),
        turn + 1 < TURNS,
        settles(words, state, turn, action),
        limit <= words.len(),
    ensures
        continuation(words, state, turn, action, limit) <= (TURNS - turn - 1) * UNIT
            * members_below(state, limit),
        continuation(words, state, turn, action, limit) >= UNIT * (members_below(state, limit)
            - if state.contains(action.index) && 0 <= action.index < limit {
            1int
        } else {
            0int
        }),
    decreases TURNS - turn, 0nat, limit,
{
    let most = (TURNS - turn - 1) * UNIT;
    if limit == 0 {
        assert(most * 0 == 0) by (nonlinear_arith);
    } else {
        let fewer = (limit - 1) as nat;
        let secret = limit - 1;
        lemma_continuation_bounds(words, state, turn, action, fewer);
        let count = members_below(state, fewer);
        assert(continuation(words, state, turn, action, limit) == continuation(
            words,
            state,
            turn,
            action,
            fewer,
        ) + contribution(words, state, turn, action, secret));
        if state.contains(secret) {
            let next = next_state(words, state, action, secret);
            lemma_secret_stays(words, state, action, secret);
            assert(most * (count + 1) == most * count + most) by (nonlinear_arith);
            if !wins(next, action) {
                lemma_value_bounds(words, next, turn + 1);
            }
        }
    }
}

/// `keys` are the states that `action` can leave of `state`, each once.
pub open spec fn lists_transition(
    words: Seq<WordView>,
    state: Set<int>,
    action: WordView,
    keys: Seq<Set<int>>,
) -> bool {
    &&& keys.no_duplicates()
    &&& forall|next: Set<int>|
        transition_map(words, state, action).dom().contains(next) <==> keys.contains(next)
}

/// What follows for the states that a guess can leave: each candidate leads
/// to one of them, each of them holds a candidate that leads to it and is
/// part of the state, and the candidates that lead to them are, taken
/// together, the candidates.
pub proof fn lemma_transition_facts(
    words: Seq<WordView>,
    state: Set<int>,
    action: WordView,
    keys: Seq<Set<int>>,
)
    requires
        within(state, words.len()),
        lists_transition(words, state, action, keys),
    ensures
        forall|secret: int|
            state.contains(secret) && 0 <= secret < words.len() ==> keys.contains(
                #[trigger] next_state(words, state, action, secret),
            ),
        forall|j: int|
            0 <= j < keys.len() ==> {
                &&& (#[trigger] keys[j]).subset_of(state)
                &&& within(keys[j], words.len())
                &&& keys[j].finite()
                &&& 0 < keys[j].len() <= state.len()
                &&& exists|secret: int|
                    state.contains(secret) && next_state(words, state, action, secret) == keys[j]
                &&& transition_map(words, state, action)[keys[j]] == leading_to(
                    words,
                    state,
                    action,
                    state,
                    keys[j],
                ).len()
            },
        grouped_sum(words, state, action, state, keys, unit_fn(), keys.len()) == state.len(),
{
    let map = transition_map(words, state, action);
    lemma_within_is_finite(state, words.len());
    assert forall|secret: int|
        state.contains(secret) && 0 <= secret < words.len() implies keys.contains(
        #[trigger] next_state(words, state, action, secret),
    ) by {
        let next = next_state(words, state, action, secret);
        assert(leading_to(words, state, action, state, next).contains(secret));
    }
    assert forall|j: int| 0 <= j < keys.len() implies {
        &&& (#[trigger] keys[j]).subset_of(state)
        &&& within(keys[j], words.len())
        &&& keys[j].finite()
        &&& 0 < keys[j].len() <= state.len()
        &&& exists|secret: int|
            state.contains(secret) && next_state(words, state, action, secret) == keys[j]
        &&& map[keys[j]] == leading_to(words, state, action, state, keys[j]).len()
    } by {
        assert(keys.contains(keys[j]));
        let secret = choose|secret: int| #[trigger]
            leading_to(words, state, action, state, keys[j]).contains(secret);
        lemma_secret_stays(words, state, action, secret);
        vstd::set_lib::lemma_len_subset(keys[j], state);
    }
    lemma_grouped_sum(words, state, action, keys, unit_fn(), words.len());
    lemma_members_is_range_sum(words, state, action, words.len());
    assert(below(state, words.len()) =~= state);
}

/// Between two places of the list of states, a grouped sum of costs that
/// lie between `low` and `high` lies between `low` and `high` for each
/// candidate that leads to one of the states between.
pub proof fn lemma_grouped_sum_between(
    words: Seq<WordView>,
    state: Set<int>,
    action: WordView,
    keys: Seq<Set<int>>,
    cost: spec_fn(Set<int>) -> int,
    low: int,
    high: int,
    from: nat,
    to: nat,
)
    requires
        from <= to <= keys.len(),
        forall|j: int| from <= j < to ==> low <= cost(#[trigger] keys[j]) <= high,
    ensures
        ({
            let candidates = grouped_sum(words, state, action, state, keys, unit_fn(), to)
                - grouped_sum(words, state, action, state, keys, unit_fn(), from);
            let sum = grouped_sum(words, state, action, state, keys, cost, to) - grouped_sum(
                words,
                state,
                action,
                state,
                keys,
                cost,
                from,
            );
            &&& 0 <= candidates
            &&& low * candidates <= sum <= high * candidates
        }),
    decreases to - from,
{
    if from < to {
        let fewer = (to - 1) as nat;
        lemma_grouped_sum_between(words, state, action, keys, cost, low, high, from, fewer);
        let candidates = grouped_sum(words, state, action, state, keys, unit_fn(), fewer)
            - grouped_sum(words, state, action, state, keys, unit_fn(), from);
        let leading = leading_to(words, state, action, state, keys[to - 1]).len();
        let each = cost(keys[to - 1]);
        assert(low * (candidates + leading) == low * candidates + low * leading)
            by (nonlinear_arith);
        assert(high * (candidates + leading) == high * candidates + high * leading)
            by (nonlinear_arith);
        assert(low * leading <= leading * each <= high * leading) by (nonlinear_arith)
            requires
                low <= each <= high,
                leading >= 0,
        ;
        assert(leading * 1 == leading) by (nonlinear_arith);
    } else {
        assert(low * 0 == 0) by (nonlinear_arith);
        assert(high * 0 == 0) by (nonlinear_arith);
    }
}

/// Between two places of the list of states, a grouped sum of lesser costs
/// is the lesser sum.
pub proof fn lemma_grouped_sum_compare(
    words: Seq<WordView>,
    state: Set<int>,
    action: WordView,
    keys: Seq<Set<int>>,
    lesser: spec_fn(Set<int>) -> int,
    greater: spec_fn(Set<int>) -> int,
    from: nat,
    to: nat,
)
    requires
        from <= to <= keys.len(),
        forall|j: int| from <= j < to ==> lesser(#[trigger] keys[j]) <= greater(keys[j]),
    ensures
        grouped_sum(words, state, action, state, keys, lesser, to) - grouped_sum(
            words,
            state,
            action,
            state,
            keys,
            lesser,
            from,
        ) <= grouped_sum(words, state, action, state, keys, greater, to) - grouped_sum(
            words,
            state,
            action,
            state,
            keys,
            greater,
            from,
        ),
    decreases to - from,
{
    if from < to {
        let fewer = (to - 1) as nat;
        lemma_grouped_sum_compare(words, state, action, keys, lesser, greater, from, fewer);
        let leading = leading_to(words, state, action, state, keys[to - 1]).len();
        let a = lesser(keys[to - 1]);
        let b = greater(keys[to - 1]);
        assert(leading * a <= leading * b) by (nonlinear_arith)
            requires
                a <= b,
                leading >= 0,
        ;
    }
}

/// A guess tells nothing exactly when the one state that it can leave is
/// the state itself.
pub proof fn lemma_uninformative(
    words: Seq<WordView>,
    state: Set<int>,
    action: WordView,
    keys: Seq<Set<int>>,
)
    requires
        within(state, words.len()),
        lists_transition(words, state, action, keys),
    ensures
        uninformative(words, state, action) <==> keys.len() == 1 && keys[0] == state,
{
    lemma_transition_facts(words, state, action, keys);
    if keys.len() == 1 && keys[0] == state {
        let secret = choose|secret: int|
            state.contains(secret) && next_state(words, state, action, secret) == keys[0];
        assert(state.contains(secret) && 0 <= secret < words.len());
    }
    if uninformative(words, state, action) {
        let secret = choose|secret: int| state.contains(secret) && 0 <= secret < words.len();
        assert(keys.contains(next_state(words, state, action, secret)));
    }
}

/// A finite set has one member and holds `member` exactly when it is the
/// set of `member` alone.
pub proof fn lemma_single_member(set: Set<int>, member: int)
    requires
        set.finite(),
    ensures
        (set.len() == 1 && set.contains(member)) <==> set == Set::<int>::empty().insert(member),
{
    if set.len() == 1 && set.contains(member) {
        assert(set.remove(member) =~= Set::<int>::empty());
    }
}

/// What is still to be paid in a state lies between nothing and the guesses
/// left after this one; the least that can be to pay lies between nothing
/// and two guesses.
pub proof fn lemma_entry_bounds(words: Seq<WordView>, turn: nat, action: WordView, next: Set<int>)
    requires
        within(next, words.len()),
        next.len() > 0,
        turn + 1 < TURNS,
    ensures
        0 <= entry_cost(words, turn, action, next) <= (TURNS - 1) * UNIT,
        0 <= entry_bound(action, next) <= (TURNS - 1) * UNIT,
        value(words, next, turn + 1) is Some ==> entry_bound(action, next) <= entry_cost(
            words,
            turn,
            action,
            next,
        ),
{
    lemma_value_bounds(words, next, turn + 1);
    lemma_least_value(next.len());
}

/// Between two places of the list of states that a guess can leave, the
/// sums of what is to be paid, and of the least that can be to pay, lie
/// between nothing and the guesses of a whole game for each candidate; and
/// no more candidates lead to the states between than there are.
pub proof fn lemma_partial_sums(
    words: Seq<WordView>,
    state: Set<int>,
    turn: nat,
    action: WordView,
    keys: Seq<Set<int>>,
    from: nat,
    to: nat,
)
    requires
        within(state, words.len()),
        lists_transition(words, state, action, keys),
        turn + 1 < TURNS,
        from <= to <= keys.len(),
    ensures
        ({
            let candidates = grouped_sum(words, state, action, state, keys, unit_fn(), to)
                - grouped_sum(words, state, action, state, keys, unit_fn(), from);
            let paid = grouped_sum(
                words,
                state,
                action,
                state,
                keys,
                entry_cost_fn(words, turn, action),
                to,
            ) - grouped_sum(
                words,
                state,
                action,
                state,
                keys,
                entry_cost_fn(words, turn, action),
                from,
            );
            let owed = grouped_sum(words, state, action, state, keys, entry_bound_fn(action), to)
                - grouped_sum(words, state, action, state, keys, entry_bound_fn(action), from);
            &&& 0 <= candidates <= state.len()
            &&& 0 <= paid <= (TURNS - 1) * UNIT * candidates
            &&& 0 <= owed <= (TURNS - 1) * UNIT * candidates
        }),
{
    lemma_transition_facts(words, state, action, keys);
    let most = (TURNS - 1) * UNIT;
    assert forall|j: int| 0 <= j < keys.len() implies 0 <= entry_cost_fn(words, turn, action)(
        #[trigger] keys[j],
    ) <= most && 0 <= entry_bound_fn(action)(keys[j]) <= most by {
        lemma_entry_bounds(words, turn, action, keys[j]);
    }
    lemma_grouped_sum_between(
        words,
        state,
        action,
        keys,
        entry_cost_fn(words, turn, action),
        0,
        most,
        from,
        to,
    );
    lemma_grouped_sum_between(
        words,
        state,
        action,
        keys,
        entry_bound_fn(action),
        0,
        most,
        from,
        to,
    );
    lemma_grouped_sum_between(words, state, action, keys, unit_fn(), 1, 1, 0, from);
    lemma_grouped_sum_between(words, state, action, keys, unit_fn(), 1, 1, to, keys.len());
}

/// Summed over all the states that a guess can leave, what is still to be
/// paid is the continuation of the guess.
pub proof fn lemma_total_is_continuation(
    words: Seq<WordView>,
    state: Set<int>,
    turn: nat,
    action: WordView,
    keys: Seq<Set<int>>,
)
    requires
        within(state, words.len()),
        lists_transition(words, state, action, keys),
        turn + 1 < TURNS,
    ensures
        grouped_sum(
            words,
            state,
            action,
            state,
            keys,
            entry_cost_fn(words, turn, action),
            keys.len(),
        ) == continuation(words, state, turn, action, words.len()),
{
    lemma_transition_facts(words, state, action, keys);
    lemma_grouped_sum(
        words,
        state,
        action,
        keys,
        entry_cost_fn(words, turn, action),
        words.len(),
    );
    lemma_continuation_is_range_sum(words, state, turn, action, words.len());
    assert(below(state, words.len()) =~= state);
}

/// A guess settles every candidate exactly when each state that it can
/// leave has a value, but for the state in which the guess was the secret.
pub proof fn lemma_settles(
    words: Seq<WordView>,
    state: Set<int>,
    turn: nat,
    action: WordView,
    keys: Seq<Set<int>>,
)
    requires
        within(state, words.len()),
        lists_transition(words, state, action, keys),
        turn + 1 < TURNS,
    ensures
        settles(words, state, turn, action) <==> forall|j: int|
            0 <= j < keys.len() && !wins(#[trigger] keys[j], action) ==> value(
                words,
                keys[j],
                turn + 1,
            ) is Some,
{
    lemma_transition_facts(words, state, action, keys);
}

/// What was paid for the first states and is at least owed for the others
/// is no more than the continuation, where the guess settles every
/// candidate.
pub proof fn lemma_running_total(
    words: Seq<WordView>,
    state: Set<int>,
    turn: nat,
    action: WordView,
    keys: Seq<Set<int>>,
    done: nat,
)
    requires
        within(state, words.len()),
        lists_transition(words, state, action, keys),
        turn + 1 < TURNS,
        settles(words, state, turn, action),
        done <= keys.len(),
    ensures
        grouped_sum(words, state, action, state, keys, entry_cost_fn(words, turn, action), done)
            + grouped_sum(
            words,
            state,
            action,
            state,
            keys,
            entry_bound_fn(action),
            keys.len(),
        ) - grouped_sum(words, state, action, state, keys, entry_bound_fn(action), done)
            <= continuation(words, state, turn, action, words.len()),
{
    lemma_transition_facts(words, state, action, keys);
    lemma_total_is_continuation(words, state, turn, action, keys);
    assert forall|j: int| done <= j < keys.len() implies entry_bound_fn(action)(
        #[trigger] keys[j],
    ) <= entry_cost_fn(words, turn, action)(keys[j]) by {
        lemma_entry_bounds(words, turn, action, keys[j]);
    }
    lemma_grouped_sum_compare(
        words,
        state,
        action,
        keys,
        entry_bound_fn(action),
        entry_cost_fn(words, turn, action),
        done,
        keys.len(),
    );
}

/// While the states that a guess can leave are gone through: what was
/// paid for the first `done` of them and what is at least owed for the
/// others are no less than nothing and, together, no more than the guesses
/// of a whole game for each candidate. No more candidates lead to the next
/// state than there are, and what is owed for the others holds what is owed
/// for it.
pub proof fn lemma_running_bounds(
    words: Seq<WordView>,
    state: Set<int>,
    turn: nat,
    action: WordView,
    keys: Seq<Set<int>>,
    done: nat,
)
    requires
        within(state, words.len()),
        lists_transition(words, state, action, keys),
        turn + 1 < TURNS,
        done <= keys.len(),
    ensures
        ({
            let paid = grouped_sum(
                words,
                state,
                action,
                state,
                keys,
                entry_cost_fn(words, turn, action),
                done,
            );
            let owed = grouped_sum(
                words,
                state,
                action,
                state,
                keys,
                entry_bound_fn(action),
                keys.len(),
            ) - grouped_sum(words, state, action, state, keys, entry_bound_fn(action), done);
            let so_far = grouped_sum(words, state, action, state, keys, entry_bound_fn(action), done);
            &&& 0 <= paid
            &&& 0 <= owed
            &&& 0 <= so_far <= 5 * UNIT * state.len()
            &&& paid + owed <= 5 * UNIT * state.len()
            &&& done < keys.len() ==> {
                let leading = leading_to(words, state, action, state, keys[done as int]).len();
                &&& leading <= state.len()
                &&& 0 <= entry_bound(action, keys[done as int]) <= 2 * UNIT
                &&& 0 <= entry_cost(words, turn, action, keys[done as int]) <= 5 * UNIT
                &&& leading * entry_bound(action, keys[done as int]) <= owed
            }
        }),
{
    lemma_transition_facts(words, state, action, keys);
    lemma_partial_sums(words, state, turn, action, keys, 0, done);
    lemma_partial_sums(words, state, turn, action, keys, done, keys.len());
    let before = grouped_sum(words, state, action, state, keys, unit_fn(), done);
    let after = grouped_sum(words, state, action, state, keys, unit_fn(), keys.len()) - before;
    assert(5 * UNIT * before + 5 * UNIT * after == 5 * UNIT * (before + after))
        by (nonlinear_arith);
    assert(5 * UNIT * before <= 5 * UNIT * state.len()) by (nonlinear_arith)
        requires
            0 <= before <= state.len(),
    ;
    if done < keys.len() {
        let key = keys[done as int];
        let leading = leading_to(words, state, action, state, key).len();
        lemma_partial_sums(words, state, turn, action, keys, (done + 1) as nat, keys.len());
        lemma_entry_bounds(words, turn, action, key);
        lemma_least_value(key.len());
        assert(leading * 1 == leading) by (nonlinear_arith);
    }
}

/// With no guess left, no state has a value.
pub proof fn lemma_value_without_guess(words: Seq<WordView>, state: Set<int>, turn: nat)
    requires
        turn >= TURNS,
    ensures
        value(words, state, turn) is None,
{
}

/// On the last guess a state of at most one candidate is worth one guess,
/// and any other state has no value.
pub proof fn lemma_value_on_last_guess(words: Seq<WordView>, state: Set<int>)
    ensures
        value(words, state, (TURNS - 1) as nat) == if state.len() <= 1 {
            Some(UNIT as int)
        } else {
            None
        },
{
}

/// While a guess is left, a single candidate is worth one guess.
pub proof fn lemma_value_of_one_candidate(words: Seq<WordView>, state: Set<int>, turn: nat)
    requires
        turn < TURNS,
        state.len() == 1,
    ensures
        value(words, state, turn) == Some(UNIT as int),
{
}

/// Before the last guess, two candidates are worth one guess and a half.
pub proof fn lemma_value_of_two_candidates(words: Seq<WordView>, state: Set<int>, turn: nat)
    requires
        turn + 1 < TURNS,
        state.len() == 2,
    ensures
        value(words, state, turn) == Some(UNIT_AND_HALF as int),
{
}

/// A valid word agrees with every answer to itself as the guess.
pub proof fn lemma_guess_is_consistent(action: WordView, tiles: Seq<TileColor>)
    requires
        valid_word(action),
    ensures
        consistent(action, tiles, action),
{
}

/// With one guess left after this one, a guess has a cost only if it is no
/// candidate and leaves each candidate alone; its cost is then two guesses.
pub proof fn lemma_cost_before_last_guess(words: Seq<WordView>, state: Set<int>, guess: int)
    requires
        within(state, words.len()),
        valid_vocabulary(words),
        state.len() >= 2,
        0 <= guess < words.len(),
        action_cost(words, state, (TURNS - 2) as nat, words[guess]) is Some,
    ensures
        !state.contains(guess),
        forall|secret: int|
            state.contains(secret) ==> #[trigger] next_state(words, state, words[guess], secret)
                == Set::<int>::empty().insert(secret),
        action_cost(words, state, (TURNS - 2) as nat, words[guess]) == Some(2 * UNIT),
{
    let turn = (TURNS - 2) as nat;
    let action = words[guess];
    lemma_within_is_finite(state, words.len());
    assert forall|secret: int| state.contains(secret) implies #[trigger] next_state(
        words,
        state,
        action,
        secret,
    ) == Set::<int>::empty().insert(secret) by {
        let next = next_state(words, state, action, secret);
        lemma_secret_stays(words, state, action, secret);
        if !wins(next, action) {
            lemma_single_member(next, secret);
        }
    }
    if state.contains(guess) {
        let other = state.remove(guess).choose();
        let next = next_state(words, state, action, other);
        lemma_guess_is_consistent(action, coloring(words[other], action));
        assert(next.contains(guess));
    }
    lemma_continuation_bounds(words, state, turn, action, words.len());
    lemma_div_multiples_vanish(UNIT as int, state.len() as int);
    assert(UNIT * state.len() == state.len() * UNIT) by (nonlinear_arith);
}

/// At one turn, a part of a state is worth no more than the state, where
/// the part has at most two candidates or at most two guesses are left.
pub proof fn lemma_value_of_part(
    words: Seq<WordView>,
    part: Set<int>,
    state: Set<int>,
    turn: nat,
)
    requires
        within(state, words.len()),
        valid_vocabulary(words),
        part.subset_of(state),
        part.len() <= 2 || turn + 2 >= TURNS,
    ensures
        at_most(value(words, part, turn), value(words, state, turn)),
{
    lemma_within_is_finite(state, words.len());
    lemma_within_is_finite(part, words.len());
    vstd::set_lib::lemma_len_subset(part, state);
    lemma_value_bounds(words, state, turn);
    if turn + 1 < TURNS && value(words, state, turn) is Some {
        if part.len() == state.len() {
            vstd::set_lib::lemma_subset_equality(part, state);
        } else if part.len() == 0 {
            // Any word can be guessed at the empty state, for one guess.
            lemma_best_cost(words, part, turn, words.len());
            assert(part =~= Set::<int>::empty());
            assert(state.contains(state.choose()));
            assert(action_cost(words, part, turn, words[0]) == Some(UNIT as int));
        } else if part.len() == 2 {
            lemma_least_value_grows(2, state.len());
        } else if part.len() > 2 {
            // The guess that is best for the state leaves each candidate
            // alone, in the part as in the state, and costs two guesses.
            lemma_best_cost(words, state, turn, words.len());
            let guess = choose|a: int|
                0 <= a < words.len() && best_cost(words, state, turn, words.len())
                    == #[trigger] action_cost(words, state, turn, words[a]);
            let action = words[guess];
            lemma_cost_before_last_guess(words, state, guess);
            assert forall|secret: int|
                part.contains(secret) && 0 <= secret < words.len() implies #[trigger] next_state(
                words,
                part,
                action,
                secret,
            ) == Set::<int>::empty().insert(secret) by {
                lemma_secret_stays(words, part, action, secret);
                assert(next_state(words, part, action, secret).subset_of(
                    next_state(words, state, action, secret),
                ));
                assert(next_state(words, part, action, secret) =~= Set::<int>::empty().insert(
                    secret,
                ));
            }
            assert(part.contains(part.choose()));
            assert(next_state(words, part, action, part.choose()).len() == 1);
            assert(!uninformative(words, part, action));
            assert(settles(words, part, turn, action));
            lemma_cost_before_last_guess(words, part, guess);
            lemma_best_cost(words, part, turn, words.len());
        }
    }
}

} // verus!
