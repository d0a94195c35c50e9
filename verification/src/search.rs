//! The breadth-first search through the states of a method, as specification.
use vstd::prelude::*;

use crate::error::Fault;
use crate::machine::{entry_state, step, table_fault, Code, MachineState, Step};
use crate::value::total_slots;

verus! {

/// A list of states with one more at its end, unless the list has that state already.
pub open spec fn with_state(states: Seq<MachineState>, state: MachineState) -> Seq<MachineState> {
    if states.contains(state) {
        states
    } else {
        states.push(state)
    }
}

/// A list of states with more states at its end, each of them once.
pub open spec fn with_states(states: Seq<MachineState>, more: Seq<MachineState>) -> Seq<MachineState>
    decreases more.len(),
{
    if more.len() == 0 {
        states
    } else {
        with_state(with_states(states, more.drop_last()), more.last())
    }
}

/// The states that have been found when the first so many of them have been looked at, in the order in
/// which they were found.
pub open spec fn found<'a>(code: Code<'a>, looked_at: nat) -> Seq<MachineState>
    decreases looked_at,
{
    if looked_at == 0 {
        seq![entry_state()]
    } else {
        let earlier = found(code, (looked_at - 1) as nat);
        if looked_at - 1 < earlier.len() {
            match step(code, earlier[looked_at - 1]) {
                Ok(step) => with_states(earlier, step.successors),
                Err(_) => earlier,
            }
        } else {
            earlier
        }
    }
}

/// The search looks at a state in that place, and the state has a next step.
pub open spec fn passes<'a>(code: Code<'a>, place: nat) -> bool {
    place < found(code, place).len() && step(code, found(code, place)[place as int]) is Ok
}

/// The search ends in that place: it has passed all earlier ones, and there either is no state left to
/// look at, or the state there has no next step.
pub open spec fn ends<'a>(code: Code<'a>, place: nat) -> bool {
    &&& forall|earlier: nat| earlier < place ==> #[trigger] passes(code, earlier)
    &&& !passes(code, place)
}

/// The larger of two depths.
pub open spec fn deeper(a: nat, b: nat) -> nat {
    if a >= b {
        a
    } else {
        b
    }
}

/// The largest number of slots on the operand stack of any of some states.
pub open spec fn deepest(states: Seq<MachineState>) -> nat
    decreases states.len(),
{
    if states.len() == 0 {
        0
    } else {
        deeper(deepest(states.drop_last()), total_slots(states.last().stack))
    }
}

/// The largest number of slots on the operand stack after an instruction.
pub open spec fn step_depth(step: Step) -> nat {
    deeper(deepest(step.successors), total_slots(step.stack))
}

/// The largest number of slots that were on the operand stack in the steps of the first so many states.
pub open spec fn depth_within<'a>(code: Code<'a>, looked_at: nat) -> nat
    decreases looked_at,
{
    if looked_at == 0 {
        0
    } else {
        let place = (looked_at - 1) as nat;
        match step(code, found(code, place)[place as int]) {
            Ok(step) => deeper(depth_within(code, place), step_depth(step)),
            Err(_) => depth_within(code, place),
        }
    }
}

/// What the search comes to when it ends in a place.
pub open spec fn conclusion<'a>(code: Code<'a>, place: nat) -> Result<nat, Fault> {
    if place < found(code, place).len() {
        match step(code, found(code, place)[place as int]) {
            Ok(_) => Ok(depth_within(code, place)),
            Err(fault) => Err(fault),
        }
    } else {
        Ok(depth_within(code, place))
    }
}

/// The result of the analysis: the largest number of slots on the operand stack, or the first fault.
///
/// The faults of the exception table come first, then those of the states in the order of the search.
pub open spec fn max_depth<'a>(code: Code<'a>) -> Result<nat, Fault> {
    if code.instructions.len() == 0 {
        if code.handlers.len() == 0 {
            Ok(0)
        } else {
            Err(Fault::InvalidInstructionOffset(0))
        }
    } else {
        match table_fault(code.handlers, code.instructions.len()) {
            Some(fault) => Err(fault),
            None => conclusion(code, choose|place: nat| ends(code, place)),
        }
    }
}

/// A sequence of states in which each may come after the one before.
pub open spec fn is_run<'a>(code: Code<'a>, run: Seq<MachineState>) -> bool {
    &&& run.len() > 0
    &&& run[0] == entry_state()
    &&& forall|i: int|
        #![trigger run[i]]
        0 <= i < run.len() - 1 ==> may_follow(code, run[i], run[i + 1])
}

/// A state may come directly after another.
pub open spec fn may_follow<'a>(code: Code<'a>, state: MachineState, next: MachineState) -> bool {
    step(code, state) matches Ok(step) && step.successors.contains(next)
}

/// A state that some execution of the method comes to.
pub open spec fn reachable<'a>(code: Code<'a>, state: MachineState) -> bool {
    exists|run: Seq<MachineState>| #[trigger] is_run(code, run) && run.last() == state
}

/// The search can end in one place only.
pub proof fn lemma_one_end<'a>(code: Code<'a>, a: nat, b: nat)
    requires
        ends(code, a),
        ends(code, b),
    ensures
        a == b,
{
    if a < b {
        assert(passes(code, a));
    } else if b < a {
        assert(passes(code, b));
    }
}

/// Where the search ends, it has its result.
pub proof fn lemma_conclusion<'a>(code: Code<'a>, place: nat)
    requires
        code.instructions.len() > 0,
        table_fault(code.handlers, code.instructions.len()) is None,
        ends(code, place),
    ensures
        max_depth(code) == conclusion(code, place),
{
    lemma_one_end(code, place, choose|place: nat| ends(code, place));
}

/// Adding some states and then others is adding all of them.
pub proof fn lemma_with_states_add(
    states: Seq<MachineState>,
    first: Seq<MachineState>,
    second: Seq<MachineState>,
)
    ensures
        with_states(states, first + second) == with_states(with_states(states, first), second),
    decreases second.len(),
{
    if second.len() == 0 {
        assert(first + second =~= first);
    } else {
        assert((first + second).drop_last() =~= first + second.drop_last());
        lemma_with_states_add(states, first, second.drop_last());
    }
}

/// The depth of two lists of states is the larger of their depths.
pub proof fn lemma_deepest_add(first: Seq<MachineState>, second: Seq<MachineState>)
    ensures
        deepest(first + second) == deeper(deepest(first), deepest(second)),
    decreases second.len(),
{
    if second.len() == 0 {
        assert(first + second =~= first);
    } else {
        assert((first + second).drop_last() =~= first + second.drop_last());
        lemma_deepest_add(first, second.drop_last());
    }
}

/// Adding states keeps those that are there, in their places, and adds no others.
pub proof fn lemma_with_states(states: Seq<MachineState>, more: Seq<MachineState>)
    ensures
        states.is_prefix_of(with_states(states, more)),
        forall|state: MachineState| #[trigger]
            with_states(states, more).contains(state) <==> states.contains(state) || more.contains(
                state,
            ),
        states.no_duplicates() ==> with_states(states, more).no_duplicates(),
    decreases more.len(),
{
    if more.len() > 0 {
        let earlier = with_states(states, more.drop_last());
        let all = with_states(states, more);
        lemma_with_states(states, more.drop_last());
        assert forall|state: MachineState| #[trigger]
            all.contains(state) <==> states.contains(state) || more.contains(state) by {
            assert(more.contains(state) <==> more.drop_last().contains(state) || state
                == more.last()) by {
                assert(more =~= more.drop_last().push(more.last()));
                if more.drop_last().contains(state) {
                    let i = choose|i: int|
                        0 <= i < more.drop_last().len() && more.drop_last()[i] == state;
                    assert(more[i] == state);
                }
                if state == more.last() {
                    assert(more[more.len() - 1] == state);
                }
            }
            if earlier.contains(more.last()) {
                assert(all == earlier);
            } else {
                assert(all == earlier.push(more.last()));
                if earlier.contains(state) {
                    let i = choose|i: int| 0 <= i < earlier.len() && earlier[i] == state;
                    assert(all[i] == state);
                }
                if state == more.last() {
                    assert(all[all.len() - 1] == state);
                }
            }
        }
    }
}

} // verus!
