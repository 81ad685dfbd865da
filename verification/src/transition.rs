//! Where a guess can lead: the states that it can leave, each with the
//! number of candidates that lead to it.

use crate::word_container::WordContainer;
use vstd::prelude::*;

verus! {

/// The states that a guess can leave of a candidate set, each kept once, with
/// the number of candidates after which it is left. That number over the
/// size of the candidate set is the probability of the state.
#[derive(Debug)]
pub struct Transition {
    states: Vec<WordContainer>,
    counts: Vec<usize>,
}

impl View for Transition {
    type V = Map<Set<int>, nat>;

    /// The number of candidates that lead to each state.
    closed spec fn view(&self) -> Map<Set<int>, nat> {
        Map::new(
            |next: Set<int>| self.keys().contains(next),
            |next: Set<int>| self.masses()[self.keys().index_of(next)],
        )
    }
}

impl Transition {
    /// The states, in the order in which they are kept.
    pub closed spec fn keys(&self) -> Seq<Set<int>> {
        self.states@.map_values(|state: WordContainer| state@)
    }

    /// The number of candidates that lead to each state, in the same order.
    pub closed spec fn masses(&self) -> Seq<nat> {
        self.counts@.map_values(|count: usize| count as nat)
    }

    /// Each state is a well-formed container, is kept once and has its number.
    pub closed spec fn wf(&self) -> bool {
        &&& self.states@.len() == self.counts@.len()
        &&& forall|j: int| 0 <= j < self.states@.len() ==> (#[trigger] self.states@[j]).wf()
        &&& self.keys().no_duplicates()
    }

    /// What a well-formed transition offers to its users.
    pub proof fn lemma_wf(&self)
        requires
            self.wf(),
        ensures
            self.keys().len() == self.masses().len(),
            self.keys().no_duplicates(),
            forall|next: Set<int>| self@.dom().contains(next) <==> self.keys().contains(next),
            forall|j: int|
                0 <= j < self.keys().len() ==> self@.dom().contains(#[trigger] self.keys()[j])
                    && self@[self.keys()[j]] == self.masses()[j],
    {
    }

    /// The transition that leads nowhere.
    pub fn new() -> (made: Transition)
        ensures
            made.wf(),
            made@ == Map::<Set<int>, nat>::empty(),
            made.keys() == Seq::<Set<int>>::empty(),
    {
        Transition { states: Vec::new(), counts: Vec::new() }
    }

    /// Number of states.
    pub fn len(&self) -> (n: usize)
        requires
            self.wf(),
        ensures
            n == self.keys().len(),
    {
        self.states.len()
    }

    /// The state at place `j`.
    pub fn state_at(&self, j: usize) -> (state: &WordContainer)
        requires
            self.wf(),
            j < self.keys().len(),
        ensures
            state.wf(),
            state@ == self.keys()[j as int],
            self@.dom().contains(state@),
    {
        proof {
            self.lemma_wf();
        }
        &self.states[j]
    }

    /// The number of candidates that lead to the state at place `j`.
    pub fn count_at(&self, j: usize) -> (count: usize)
        requires
            self.wf(),
            j < self.keys().len(),
        ensures
            count == self.masses()[j as int],
            count == self@[self.keys()[j as int]],
    {
        self.counts[j]
    }

    /// The place at which `state` is kept, if it is.
    pub fn position(&self, state: &WordContainer) -> (place: Option<usize>)
        requires
            self.wf(),
        ensures
            match place {
                Some(j) => j < self.keys().len() && self.keys()[j as int] == state@,
                None => !self@.dom().contains(state@),
            },
    {
        let mut j: usize = 0;
        while j < self.states.len()
            invariant
                j <= self.states@.len(),
                forall|l: int| 0 <= l < j ==> self.keys()[l] != state@,
            decreases self.states@.len() - j,
        {
            if self.states[j] == *state {
                return Some(j);
            }
            j += 1;
        }
        None
    }

    /// Counts one more candidate for `state`, which is kept at the end if it
    /// was not kept yet.
    pub fn add(&mut self, state: WordContainer)
        requires
            old(self).wf(),
            state.wf(),
            old(self)@.dom().contains(state@) ==> old(self)@[state@] < usize::MAX,
        ensures
            final(self).wf(),
            final(self)@ == old(self)@.insert(
                state@,
                if old(self)@.dom().contains(state@) {
                    old(self)@[state@] + 1
                } else {
                    1
                },
            ),
            final(self).keys() == if old(self)@.dom().contains(state@) {
                old(self).keys()
            } else {
                old(self).keys().push(state@)
            },
    {
        let ghost before = *self;
        match self.position(&state) {
            Some(j) => {
                let count: usize = self.counts[j];
                self.counts[j] = count + 1;
            },
            None => {
                self.states.push(state);
                self.counts.push(1);
                proof {
                    assert(self.keys() =~= before.keys().push(state@));
                    assert forall|next: Set<int>| #[trigger]
                        self@.dom().contains(next) <==> before@.insert(state@, 1).dom().contains(
                            next,
                        ) by {
                        if before.keys().contains(next) {
                            let l = choose|l: int|
                                0 <= l < before.keys().len() && before.keys()[l] == next;
                            assert(self.keys()[l] == next);
                        }
                        if next == state@ {
                            assert(self.keys()[self.keys().len() - 1] == next);
                        }
                    }
                }
            },
        }
    }
}

} // verus!
