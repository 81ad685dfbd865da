//! Sets of vocabulary words, by index.

use crate::game::Word;
use crate::GUESSES_N;
use vstd::prelude::*;
use vstd::std_specs::cmp::PartialEqSpec;

verus! {

/// A set of words of the vocabulary, each known by its index. A flag per
/// index answers membership at once; a list of the members, in the order in
/// which they were added, serves to walk through them.
#[derive(Debug)]
pub struct WordContainer {
    bool_array: Vec<bool>,
    word_indices: Vec<usize>,
}

impl View for WordContainer {
    type V = Set<int>;

    /// The indices of the member words.
    closed spec fn view(&self) -> Set<int> {
        Set::new(|i: int| 0 <= i < self.bool_array@.len() && self.bool_array@[i])
    }
}

impl WordContainer {
    /// The members in the order in which they are walked through.
    pub closed spec fn order(&self) -> Seq<int> {
        self.word_indices@.map_values(|index: usize| index as int)
    }

    /// The flags cover the whole capacity, and the list names each member once
    /// and nothing else.
    pub closed spec fn wf(&self) -> bool {
        &&& self.bool_array@.len() == GUESSES_N
        &&& self.order().no_duplicates()
        &&& self.order().to_set() =~= self@
    }

    /// What a well-formed container offers to its users.
    pub proof fn lemma_wf(&self)
        requires
            self.wf(),
        ensures
            self@.finite(),
            self@.len() == self.order().len(),
            self.order().no_duplicates(),
            self.order().to_set() == self@,
            forall|i: int| self@.contains(i) ==> 0 <= i < GUESSES_N,
    {
        self.order().unique_seq_to_set();
    }

    /// The empty set.
    pub fn new() -> (made: WordContainer)
        ensures
            made.wf(),
            made@ == Set::<int>::empty(),
            made.order() == Seq::<int>::empty(),
    {
        WordContainer { bool_array: vec![false; GUESSES_N], word_indices: Vec::new() }
    }

    /// Number of members.
    pub fn len(&self) -> (n: usize)
        requires
            self.wf(),
        ensures
            n == self@.len(),
            n == self.order().len(),
    {
        proof {
            self.lemma_wf();
        }
        self.word_indices.len()
    }

    /// The member at place `k` of the walking order.
    pub fn index_at(&self, k: usize) -> (index: usize)
        requires
            self.wf(),
            k < self.order().len(),
        ensures
            index == self.order()[k as int],
            self@.contains(index as int),
            index < GUESSES_N,
    {
        proof {
            assert(self.order().to_set().contains(self.order()[k as int]));
        }
        self.word_indices[k]
    }

    /// Whether the word with index `index` is a member.
    pub fn has_index(&self, index: usize) -> (found: bool)
        ensures
            found == self@.contains(index as int),
    {
        index < self.bool_array.len() && self.bool_array[index]
    }

    /// Whether `word` is a member.
    pub fn has_word(&self, word: &Word) -> (found: bool)
        ensures
            found == self@.contains(word@.index),
    {
        self.has_index(word.index())
    }

    /// Adds the word with index `index`, at the end of the walking order. A
    /// member stays where it is.
    pub fn add_index(&mut self, index: usize)
        requires
            old(self).wf(),
            index < GUESSES_N,
        ensures
            final(self).wf(),
            final(self)@ == old(self)@.insert(index as int),
            final(self).order() == if old(self)@.contains(index as int) {
                old(self).order()
            } else {
                old(self).order().push(index as int)
            },
    {
        if !self.bool_array[index] {
            self.bool_array[index] = true;
            self.word_indices.push(index);
            proof {
                assert(self.order() =~= old(self).order().push(index as int));
                assert(self@ =~= old(self)@.insert(index as int));
                assert(!old(self).order().to_set().contains(index as int));
                assert(self.order().to_set() =~= self@) by {
                    assert forall|i: int| self@.contains(i) implies self.order().to_set().contains(
                        i,
                    ) by {
                        if i == index {
                            assert(self.order()[self.order().len() - 1] == i);
                        } else {
                            let k = choose|k: int|
                                0 <= k < old(self).order().len() && old(self).order()[k] == i;
                            assert(self.order()[k] == i);
                        }
                    }
                }
            }
        }
    }

    /// Adds `word`, at the end of the walking order. A member stays where it is.
    pub fn add_word(&mut self, word: &Word)
        requires
            old(self).wf(),
            word@.index < GUESSES_N,
        ensures
            final(self).wf(),
            final(self)@ == old(self)@.insert(word@.index),
            final(self).order() == if old(self)@.contains(word@.index) {
                old(self).order()
            } else {
                old(self).order().push(word@.index)
            },
    {
        self.add_index(word.index());
    }
}

impl WordContainer {
    /// The members of `self` that are no members of `other`, in the order
    /// that they have in `self`.
    pub fn disjoint(&self, other: &WordContainer) -> (rest: WordContainer)
        requires
            self.wf(),
        ensures
            rest.wf(),
            rest@ == self@.difference(other@),
            rest.order() == self.order().filter(|i: int| !other@.contains(i)),
    {
        let ghost keep = |i: int| !other@.contains(i);
        let mut rest = WordContainer::new();
        let n: usize = self.len();
        let mut k: usize = 0;
        proof {
            reveal(Seq::filter);
        }
        while k < n
            invariant
                k <= n,
                n == self.order().len(),
                self.wf(),
                rest.wf(),
                keep == |i: int| !other@.contains(i),
                rest.order() == self.order().take(k as int).filter(keep),
            decreases n - k,
        {
            let index: usize = self.index_at(k);
            proof {
                let before = self.order().take(k as int);
                assert(self.order().take(k + 1) =~= before.push(index as int));
                before.lemma_filter_push(index as int, keep);
                if rest@.contains(index as int) {
                    before.lemma_filter_contains_rev(keep, index as int);
                }
            }
            if !other.has_index(index) {
                rest.add_index(index);
            }
            k += 1;
        }
        proof {
            assert(self.order().take(n as int) =~= self.order());
            assert forall|i: int| rest@.contains(i) <==> self@.difference(other@).contains(i) by {
                if rest@.contains(i) {
                    self.order().lemma_filter_contains_rev(keep, i);
                }
            }
        }
        rest
    }

    /// The members of `self` and those of `other`: first those of `self` in
    /// their order, then those that only `other` has, in the order that they
    /// have there.
    pub fn union(&self, other: &WordContainer) -> (both: WordContainer)
        requires
            self.wf(),
            other.wf(),
        ensures
            both.wf(),
            both@ == self@.union(other@),
            both.order() == self.order() + other.order().filter(|i: int| !self@.contains(i)),
    {
        let ghost fresh = |i: int| !self@.contains(i);
        let mut both = self.clone();
        let n: usize = other.len();
        let mut k: usize = 0;
        proof {
            reveal(Seq::filter);
        }
        while k < n
            invariant
                k <= n,
                n == other.order().len(),
                self.wf(),
                other.wf(),
                both.wf(),
                fresh == |i: int| !self@.contains(i),
                both.order() == self.order() + other.order().take(k as int).filter(fresh),
            decreases n - k,
        {
            let index: usize = other.index_at(k);
            proof {
                let before = other.order().take(k as int);
                assert(other.order().take(k + 1) =~= before.push(index as int));
                before.lemma_filter_push(index as int, fresh);
                if both@.contains(index as int) && fresh(index as int) {
                    let j = choose|j: int|
                        0 <= j < both.order().len() && both.order()[j] == index as int;
                    if j >= self.order().len() {
                        before.lemma_filter_contains_rev(fresh, index as int);
                    }
                }
                if !fresh(index as int) {
                    let j = choose|j: int|
                        0 <= j < self.order().len() && self.order()[j] == index as int;
                    assert(both.order()[j] == index as int);
                }
            }
            both.add_index(index);
            k += 1;
        }
        proof {
            assert(other.order().take(n as int) =~= other.order());
            let added = other.order().filter(fresh);
            assert forall|i: int| both@.contains(i) <==> self@.union(other@).contains(i) by {
                if both@.contains(i) {
                    let j = choose|j: int| 0 <= j < both.order().len() && both.order()[j] == i;
                    if j >= self.order().len() {
                        other.order().lemma_filter_contains_rev(fresh, i);
                    }
                }
                if self@.contains(i) {
                    let j = choose|j: int| 0 <= j < self.order().len() && self.order()[j] == i;
                    assert(both.order()[j] == i);
                } else if other@.contains(i) {
                    let j = choose|j: int| 0 <= j < other.order().len() && other.order()[j] == i;
                    other.order().lemma_filter_contains(fresh, j);
                    let l = choose|l: int| 0 <= l < added.len() && added[l] == i;
                    assert(both.order()[self.order().len() + l] == i);
                }
            }
        }
        both
    }

    /// Containers whose lists name the same words, in whatever order, are equal.
    pub proof fn lemma_equality_ignores_order(&self, other: &WordContainer)
        requires
            self.wf(),
            other.wf(),
            self.order().to_set() == other.order().to_set(),
        ensures
            self.eq_spec(other),
    {
    }
}

impl Clone for WordContainer {
    fn clone(&self) -> (copy: WordContainer)
        ensures
            copy@ == self@,
            copy.order() == self.order(),
            self.wf() ==> copy.wf(),
    {
        WordContainer {
            bool_array: self.bool_array.clone(),
            word_indices: self.word_indices.clone(),
        }
    }
}

impl PartialEq for WordContainer {
    /// Containers are equal when they have the same members, in whatever
    /// order those were added.
    fn eq(&self, other: &WordContainer) -> (equal: bool) {
        let n: usize = self.bool_array.len();
        let m: usize = other.bool_array.len();
        let mut i: usize = 0;
        while i < n || i < m
            invariant
                n == self.bool_array@.len(),
                m == other.bool_array@.len(),
                forall|j: int| 0 <= j < i ==> (self@.contains(j) <==> other@.contains(j)),
            decreases (if n < m { m } else { n }) - i,
        {
            let mine: bool = i < n && self.bool_array[i];
            let theirs: bool = i < m && other.bool_array[i];
            if mine != theirs {
                assert(self@.contains(i as int) != other@.contains(i as int));
                return false;
            }
            i += 1;
        }
        assert(self@ =~= other@);
        true
    }
}

impl Eq for WordContainer {

}

impl vstd::std_specs::cmp::PartialEqSpecImpl for WordContainer {
    open spec fn obeys_eq_spec() -> bool {
        true
    }

    open spec fn eq_spec(&self, other: &WordContainer) -> bool {
        self@ == other@
    }
}

impl std::hash::Hash for WordContainer {
    /// Feeds the membership flags, and nothing of the walking order, to the
    /// hasher through `Hash::hash` of `Vec<bool>`: containers with the same
    /// members and capacity hash alike.
    #[verifier::external_body]
    fn hash<H: std::hash::Hasher>(&self, state: &mut H) {
        self.bool_array.hash(state);
    }
}

} // verus!
