//! The states that the analysis has found and has still to look at.
use ahash::AHashSet;
use std::collections::VecDeque;
use vstd::prelude::*;

use crate::arena::{unknown_stack, StackArena, StackId};
use crate::collections::{key_members, key_set_insert, key_set_new};
use crate::error::Error;
use crate::machine::MachineState;
use crate::search::{deeper, with_state};
use crate::state::{
    lemma_machine_injective, lemma_state_key_injective, state_key, FlowSnapshot, FlowState,
};
use crate::value::{total_slots, StackValue};

verus! {

/// The states of an analysis, and the largest depth that has been seen.
pub struct Worklist {
    visited: AHashSet<Vec<usize>>,
    queue: VecDeque<FlowState>,
    max_stack: u16,
    order: Ghost<Seq<FlowSnapshot>>,
}

impl Worklist {
    /// The list is one of the analysis that an arena belongs to.
    pub closed spec fn inv(&self, stacks: &StackArena) -> bool {
        let order = self.order@;
        let queue = self.queue@;
        &&& order.no_duplicates()
        &&& forall|i: int| 0 <= i < order.len() ==> (#[trigger] order[i]).valid(stacks)
        &&& forall|i: int|
            0 <= i < order.len() ==> key_members(self.visited).contains(
                state_key(#[trigger] order[i]),
            )
        &&& forall|key: Seq<usize>| #[trigger]
            key_members(self.visited).contains(key) ==> exists|i: int|
                0 <= i < order.len() && state_key(#[trigger] order[i]) == key
        &&& queue.len() <= order.len()
        &&& forall|i: int|
            #![trigger queue[i]]
            0 <= i < queue.len() ==> queue[i]@ == order[order.len() - queue.len() + i]
    }

    /// The machine states that have been found, in the order in which they were found.
    pub closed spec fn found(&self, stacks: &StackArena) -> Seq<MachineState> {
        self.order@.map_values(|state: FlowSnapshot| state.machine(stacks))
    }

    /// How many of the states that were found have been taken to be looked at.
    pub closed spec fn looked_at(&self) -> int {
        self.order@.len() - self.queue@.len()
    }

    /// The largest depth that has been seen.
    pub closed spec fn depth(&self) -> nat {
        self.max_stack as nat
    }

    /// A list of states stays one when the arena grows.
    pub proof fn lemma_grown(&self, before: &StackArena, after: &StackArena, values: Seq<StackValue>)
        requires
            self.inv(before),
            after.grown(before, values),
        ensures
            self.inv(after),
            self.found(after) == self.found(before),
    {
        let order = self.order@;
        assert forall|i: int| 0 <= i < order.len() implies (#[trigger] order[i]).valid(after)
            && order[i].machine(after) == order[i].machine(before) by {
            assert(order[i].valid(before));
            assert(after.values(order[i].stack) == before.values(order[i].stack));
        }
        assert(self.found(after) =~= self.found(before));
    }

    /// States are found once, and no more are looked at than are found.
    pub proof fn lemma_found(&self, stacks: &StackArena)
        requires
            stacks.inv(),
            self.inv(stacks),
        ensures
            self.found(stacks).no_duplicates(),
            0 <= self.looked_at() <= self.found(stacks).len(),
    {
        let order = self.order@;
        let found = self.found(stacks);
        assert forall|i: int, j: int| 0 <= i < found.len() && 0 <= j < found.len() && i
            != j implies found[i] != found[j] by {
            if found[i] == found[j] {
                assert(order[i].valid(stacks) && order[j].valid(stacks));
                lemma_machine_injective(stacks, order[i], order[j]);
            }
        }
    }

    /// A new list, without states.
    pub fn new() -> (worklist: Self)
        ensures
            forall|stacks: &StackArena| #![auto]
                worklist.inv(stacks) && worklist.found(stacks) == Seq::<MachineState>::empty(),
            worklist.looked_at() == 0,
            worklist.depth() == 0,
    {
        let worklist = Worklist {
            visited: key_set_new(),
            queue: VecDeque::new(),
            max_stack: 0,
            order: Ghost(Seq::empty()),
        };
        assert forall|stacks: &StackArena| #![auto]
            worklist.found(stacks) == Seq::<MachineState>::empty() by {
            assert(worklist.found(stacks) =~= Seq::<MachineState>::empty());
        }
        worklist
    }

    /// Takes note of the depth of a stack.
    pub fn observe_stack(&mut self, stack: StackId, stacks: &StackArena) -> (result: Result<(), Error>)
        requires
            stacks.inv(),
            old(self).inv(stacks),
        ensures
            final(self).inv(stacks),
            final(self).found(stacks) == old(self).found(stacks),
            final(self).looked_at() == old(self).looked_at(),
            match result {
                Ok(_) => {
                    &&& stacks.holds(stack)
                    &&& final(self).depth() == deeper(
                        old(self).depth(),
                        total_slots(stacks.values(stack)),
                    )
                },
                Err(error) => {
                    &&& !stacks.holds(stack)
                    &&& error@ == unknown_stack()
                    &&& *final(self) == *old(self)
                },
            },
    {
        match stacks.depth(stack) {
            Ok(depth) => {
                if self.max_stack < depth {
                    self.max_stack = depth;
                }
                Ok(())
            },
            Err(error) => Err(error),
        }
    }

    /// Adds a state to those that have to be looked at, unless it was found before, and takes note of
    /// the depth of its stack.
    pub fn enqueue(&mut self, state: FlowState, stacks: &StackArena) -> (result: Result<(), Error>)
        requires
            stacks.inv(),
            old(self).inv(stacks),
            state.valid(stacks),
        ensures
            result is Ok,
            final(self).inv(stacks),
            final(self).found(stacks) == with_state(
                old(self).found(stacks),
                state.machine(stacks),
            ),
            final(self).looked_at() == old(self).looked_at(),
            final(self).depth() == deeper(
                old(self).depth(),
                total_slots(state.machine(stacks).stack),
            ),
    {
        match self.observe_stack(state.stack, stacks) {
            Ok(_) => {},
            Err(error) => {
                return Err(error);
            },
        }
        let key = state.key();
        let ghost before = *self;
        let ghost snapshot = state@;
        let ghost order = self.order@;
        let added = key_set_insert(&mut self.visited, key);
        proof {
            let old_found = before.found(stacks);
            assert(added <==> !order.contains(snapshot)) by {
                if order.contains(snapshot) {
                    let i = choose|i: int| 0 <= i < order.len() && order[i] == snapshot;
                    assert(key_members(before.visited).contains(state_key(order[i])));
                }
                if !added {
                    let i = choose|i: int|
                        0 <= i < order.len() && state_key(#[trigger] order[i]) == key@;
                    assert(order[i].valid(stacks));
                    lemma_state_key_injective(order[i], snapshot);
                }
            }
            assert(order.contains(snapshot) <==> old_found.contains(snapshot.machine(stacks))) by {
                if order.contains(snapshot) {
                    let i = choose|i: int| 0 <= i < order.len() && order[i] == snapshot;
                    assert(old_found[i] == snapshot.machine(stacks));
                }
                if old_found.contains(snapshot.machine(stacks)) {
                    let i = choose|i: int|
                        0 <= i < old_found.len() && old_found[i] == snapshot.machine(stacks);
                    assert(order[i].valid(stacks));
                    lemma_machine_injective(stacks, order[i], snapshot);
                }
            }
        }
        if added {
            self.queue.push_back(state);
            proof {
                self.order@ = order.push(snapshot);
                let now = self.order@;
                assert(self.found(stacks) =~= before.found(stacks).push(snapshot.machine(stacks)));
                assert forall|i: int| 0 <= i < now.len() implies key_members(
                    self.visited,
                ).contains(state_key(#[trigger] now[i])) by {
                    if i < order.len() {
                        assert(now[i] == order[i]);
                    }
                }
                assert forall|k: Seq<usize>| #[trigger]
                    key_members(self.visited).contains(k) implies exists|i: int|
                    0 <= i < now.len() && state_key(#[trigger] now[i]) == k by {
                    if k == key@ {
                        assert(state_key(now[order.len() as int]) == k);
                    } else {
                        assert(key_members(before.visited).contains(k));
                        let i = choose|i: int|
                            0 <= i < order.len() && state_key(#[trigger] order[i]) == k;
                        assert(state_key(now[i]) == k);
                    }
                }
            }
        } else {
            assert(key_members(self.visited) =~= key_members(before.visited));
        }
        Ok(())
    }

    /// Takes the next state to be looked at.
    pub fn next(&mut self) -> (state: Option<FlowState>)
        ensures
            forall|stacks: &StackArena| #![auto]
                old(self).inv(stacks) ==> final(self).inv(stacks) && final(self).found(stacks)
                    == old(self).found(stacks) && match state {
                    Some(state) => {
                        &&& state.valid(stacks)
                        &&& old(self).looked_at() < old(self).found(stacks).len()
                        &&& state.machine(stacks) == old(self).found(
                            stacks,
                        )[old(self).looked_at()]
                    },
                    None => old(self).looked_at() == old(self).found(stacks).len(),
                },
            final(self).looked_at() == old(self).looked_at() + if state is Some {
                1int
            } else {
                0int
            },
            final(self).depth() == old(self).depth(),
    {
        let ghost before = *self;
        let state = self.queue.pop_front();
        proof {
            assert forall|stacks: &StackArena| #![auto] before.inv(stacks) implies self.inv(stacks)
                && self.found(stacks) == before.found(stacks) && match state {
                Some(state) => {
                    &&& state.valid(stacks)
                    &&& before.looked_at() < before.found(stacks).len()
                    &&& state.machine(stacks) == before.found(stacks)[before.looked_at()]
                },
                None => before.looked_at() == before.found(stacks).len(),
            } by {
                if let Some(state) = state {
                    assert(before.queue@[0]@ == before.order@[before.order@.len()
                        - before.queue@.len()]);
                    assert(state@.valid(stacks));
                }
            }
        }
        state
    }

    /// Tells the largest depth that has been seen.
    pub fn max_stack(&self) -> (depth: u16)
        ensures
            depth == self.depth(),
    {
        self.max_stack
    }
}

} // verus!
