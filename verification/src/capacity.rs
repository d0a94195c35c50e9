//! How many different stacks an analysis has to keep.
use vstd::prelude::*;

use crate::confinement::well_formed;
use crate::machine::{handler_states, outcome_state, Code, MachineState};
use crate::search::{ends, found, passes};
use crate::value::{lemma_total_slots_bounds, total_slots, StackValue};

verus! {

/// A stack has to be kept when a state is looked at: it is that of an exception handler, or the stack
/// after the instruction, or a lower part of it, and not too deep.
pub open spec fn builds<'a>(code: Code<'a>, state: MachineState, stack: Seq<StackValue>) -> bool {
    &&& state.instruction < code.instructions.len()
    &&& state.instruction <= u32::MAX
    &&& stack.len() > 0
    &&& total_slots(stack) <= u16::MAX
    &&& {
        ||| handler_states(code.handlers, state).len() > 0 && stack == seq![StackValue::Category1]
        ||| outcome_state(code, state) matches Ok(after) && stack.is_prefix_of(after.stack)
    }
}

/// A stack has to be kept when the first so many states are looked at.
pub open spec fn is_built<'a>(code: Code<'a>, looked_at: nat, stack: Seq<StackValue>) -> bool {
    exists|place: nat|
        {
            &&& place < looked_at
            &&& place < found(code, place).len()
            &&& #[trigger] builds(code, found(code, place)[place as int], stack)
        }
}

/// The first so many states are looked at: all of them but the last have a next step.
pub open spec fn looks_through<'a>(code: Code<'a>, looked_at: nat) -> bool {
    forall|place: nat| place + 1 < looked_at ==> #[trigger] passes(code, place)
}

/// The stacks that have to be kept when the first so many states are looked at.
pub open spec fn built<'a>(code: Code<'a>, looked_at: nat) -> Set<Seq<StackValue>> {
    Set::new(|stack: Seq<StackValue>| is_built(code, looked_at, stack))
}

/// An analysis of the code has more stacks to keep than there are identifiers for stacks.
pub open spec fn exhausts_stacks<'a>(code: Code<'a>) -> bool {
    &&& well_formed(code)
    &&& exists|looked_at: nat| #[trigger]
        looks_through(code, looked_at) && built(code, looked_at).len() > usize::MAX
}

/// The stacks that may have to be kept when a state is looked at.
spec fn candidates_of<'a>(code: Code<'a>, state: MachineState) -> Seq<Seq<StackValue>> {
    Seq::new(
        0x10000,
        |i: int|
            if i == 0 {
                seq![StackValue::Category1]
            } else {
                outcome_state(code, state)->Ok_0.stack.take(i)
            },
    )
}

/// The stacks that may have to be kept when the first so many states are looked at.
spec fn candidates<'a>(code: Code<'a>, looked_at: nat) -> Seq<Seq<StackValue>>
    decreases looked_at,
{
    if looked_at == 0 {
        Seq::empty()
    } else {
        let place = (looked_at - 1) as nat;
        candidates(code, place) + candidates_of(code, found(code, place)[place as int])
    }
}

proof fn lemma_candidates<'a>(code: Code<'a>, looked_at: nat)
    ensures
        candidates(code, looked_at).len() == looked_at * 0x10000,
        forall|stack: Seq<StackValue>| #[trigger]
            is_built(code, looked_at, stack) ==> candidates(code, looked_at).contains(stack),
    decreases looked_at,
{
    if looked_at > 0 {
        let last = (looked_at - 1) as nat;
        let earlier = candidates(code, last);
        let own = candidates_of(code, found(code, last)[last as int]);
        let all = candidates(code, looked_at);
        lemma_candidates(code, last);
        assert forall|stack: Seq<StackValue>| #[trigger]
            is_built(code, looked_at, stack) implies all.contains(stack) by {
            let place = choose|place: nat|
                {
                    &&& place < looked_at
                    &&& place < found(code, place).len()
                    &&& #[trigger] builds(code, found(code, place)[place as int], stack)
                };
            if place < last {
                assert(is_built(code, last, stack));
                let i = choose|i: int| 0 <= i < earlier.len() && earlier[i] == stack;
                assert(all[i] == stack);
            } else {
                lemma_total_slots_bounds(stack);
                let i: int = if stack == seq![StackValue::Category1] {
                    0
                } else {
                    stack.len() as int
                };
                assert(own[i] =~= stack);
                assert(all[earlier.len() + i] == stack);
            }
        }
    }
}

/// Looking at a state takes at most as many stacks as a stack can have slots, and one more.
pub proof fn lemma_built_bounded<'a>(code: Code<'a>, looked_at: nat)
    ensures
        built(code, looked_at).finite(),
        built(code, looked_at).len() <= looked_at * 0x10000,
{
    let all = candidates(code, looked_at);
    lemma_candidates(code, looked_at);
    all.lemma_cardinality_of_set();
    vstd::seq_lib::seq_to_set_is_finite(all);
    assert(built(code, looked_at).subset_of(all.to_set()));
    vstd::set_lib::lemma_set_subset_finite(all.to_set(), built(code, looked_at));
    vstd::set_lib::lemma_len_subset(built(code, looked_at), all.to_set());
}

/// A search that ends before it has looked at too many states leaves identifiers for stacks.
pub proof fn lemma_stacks_suffice<'a>(code: Code<'a>, place: nat)
    requires
        ends(code, place),
        (place + 1) * 0x10000 <= usize::MAX,
    ensures
        !exhausts_stacks(code),
{
    assert forall|looked_at: nat| #[trigger] looks_through(code, looked_at) implies built(
        code,
        looked_at,
    ).len() <= usize::MAX by {
        if place + 1 < looked_at {
            assert(passes(code, place));
        }
        lemma_built_bounded(code, looked_at);
    }
}

} // verus!
