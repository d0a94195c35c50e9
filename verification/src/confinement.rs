//! What holds of every state that an execution of a method comes to.
use vstd::prelude::*;

use crate::error::Fault;
use crate::instruction::{ExceptionTableEntry, Instruction};
use crate::machine::{
    call_target, called, checked, continued, entry_fault, entry_state, exits, gathered, guards,
    handler_states, handling, named_targets, outcome_state, return_local, returned, step,
    table_fault, Code, MachineState,
};
use crate::search::{found, is_run, lemma_with_states, may_follow, passes, reachable};
use crate::value::{total_slots, ReturnAddress};

verus! {

/// The subroutine calls that have not returned are calls of different subroutines, and all addresses
/// are indices of instructions.
pub open spec fn calls_confined(subroutines: Seq<ReturnAddress>, count: nat) -> bool {
    &&& forall|i: int, j: int|
        0 <= i < j < subroutines.len() ==> (#[trigger] subroutines[i]).target != (
        #[trigger] subroutines[j]).target
    &&& forall|i: int|
        0 <= i < subroutines.len() ==> (#[trigger] subroutines[i]).target < count
            && subroutines[i].continuation < count && subroutines[i].call_site < count
}

/// A state stays within the code and within the limit on the depth of the stack, and its subroutine
/// calls are not recursive.
pub open spec fn confined<'a>(code: Code<'a>, state: MachineState) -> bool {
    &&& state.instruction < code.instructions.len()
    &&& total_slots(state.stack) <= u16::MAX
    &&& calls_confined(state.subroutines, code.instructions.len())
}

/// The code is not empty and its exception table has no fault.
pub open spec fn well_formed<'a>(code: Code<'a>) -> bool {
    &&& code.instructions.len() > 0
    &&& table_fault(code.handlers, code.instructions.len()) is None
}

/// An exception table has no fault exactly if none of its entries has one.
pub proof fn lemma_table_fault(handlers: Seq<ExceptionTableEntry>, count: nat)
    ensures
        table_fault(handlers, count) is None <==> forall|i: int|
            0 <= i < handlers.len() ==> entry_fault(#[trigger] handlers[i], count) is None,
    decreases handlers.len(),
{
    if handlers.len() > 0 {
        let earlier = handlers.drop_last();
        lemma_table_fault(earlier, count);
        if table_fault(handlers, count) is None {
            assert forall|i: int| 0 <= i < handlers.len() implies entry_fault(
                #[trigger] handlers[i],
                count,
            ) is None by {
                if i < earlier.len() {
                    assert(earlier[i] == handlers[i]);
                }
            }
        } else if table_fault(earlier, count) is Some {
            let i = choose|i: int|
                0 <= i < earlier.len() && entry_fault(#[trigger] earlier[i], count) is Some;
            assert(handlers[i] == earlier[i]);
        } else {
            assert(entry_fault(handlers[handlers.len() - 1], count) is Some);
        }
    }
}

/// The states at the start of exception handlers are those of the entries that guard the instruction.
pub proof fn lemma_handler_states(handlers: Seq<ExceptionTableEntry>, state: MachineState)
    ensures
        forall|next: MachineState| #[trigger]
            handler_states(handlers, state).contains(next) <==> exists|i: int|
                0 <= i < handlers.len() && guards(#[trigger] handlers[i], state.instruction) && next
                    == handling(state, handlers[i]),
    decreases handlers.len(),
{
    let all = handler_states(handlers, state);
    if handlers.len() > 0 {
        let list = handlers.drop_last();
        let earlier = handler_states(list, state);
        lemma_handler_states(list, state);
        assert forall|next: MachineState| #[trigger]
            all.contains(next) <==> exists|i: int|
                0 <= i < handlers.len() && guards(#[trigger] handlers[i], state.instruction) && next
                    == handling(state, handlers[i]) by {
            if all.contains(next) {
                let k = choose|k: int| 0 <= k < all.len() && all[k] == next;
                if k < earlier.len() {
                    assert(earlier[k] == next);
                    assert(earlier.contains(next));
                    let i = choose|i: int|
                        0 <= i < list.len() && guards(#[trigger] list[i], state.instruction) && next
                            == handling(state, list[i]);
                    assert(handlers[i] == list[i]);
                    assert(guards(handlers[i], state.instruction));
                } else {
                    assert(handlers[handlers.len() - 1] == handlers.last());
                    assert(guards(handlers[handlers.len() - 1], state.instruction));
                }
            }
            if exists|i: int|
                0 <= i < handlers.len() && guards(#[trigger] handlers[i], state.instruction) && next
                    == handling(state, handlers[i]) {
                let i = choose|i: int|
                    0 <= i < handlers.len() && guards(#[trigger] handlers[i], state.instruction)
                        && next == handling(state, handlers[i]);
                if i < list.len() {
                    assert(list[i] == handlers[i]);
                    assert(guards(list[i], state.instruction));
                    assert(earlier.contains(next));
                    let k = choose|k: int| 0 <= k < earlier.len() && earlier[k] == next;
                    assert(all[k] == next);
                } else {
                    assert(all[all.len() - 1] == next);
                }
            }
        }
    }
}

proof fn lemma_gathered_below(targets: Seq<Result<usize, Fault>>, count: nat)
    requires
        forall|i: int|
            0 <= i < targets.len() ==> (#[trigger] targets[i] matches Ok(target) ==> target < count),
    ensures
        gathered(targets) matches Ok(list) ==> forall|i: int|
            0 <= i < list.len() ==> #[trigger] list[i] < count,
    decreases targets.len(),
{
    if targets.len() > 0 {
        let earlier = targets.drop_last();
        assert forall|i: int| 0 <= i < earlier.len() implies (#[trigger] earlier[i] matches Ok(
            target,
        ) ==> target < count) by {
            assert(targets[i] == earlier[i]);
        }
        lemma_gathered_below(earlier, count);
        assert(targets.last() == targets[targets.len() - 1]);
    }
}

proof fn lemma_exits_below(instruction: Instruction, index: usize, count: nat)
    ensures
        exits(instruction, index, count) matches Ok(targets) ==> forall|i: int|
            0 <= i < targets.len() ==> #[trigger] targets[i] < count,
{
    let targets = named_targets(instruction, index, count);
    assert forall|i: int| 0 <= i < targets.len() implies (#[trigger] targets[i] matches Ok(target)
        ==> target < count) by {
    }
    lemma_gathered_below(targets, count);
}

proof fn lemma_returned_confined(state: MachineState, frame: int, count: nat)
    requires
        calls_confined(state.subroutines, count),
        0 <= frame < state.subroutines.len(),
    ensures
        calls_confined(returned(state, frame).subroutines, count),
        returned(state, frame).instruction < count,
{
    let kept = state.subroutines.take(frame);
    assert forall|i: int, j: int| 0 <= i < j < kept.len() implies (#[trigger] kept[i]).target != (
    #[trigger] kept[j]).target by {
        assert(state.subroutines[i].target != state.subroutines[j].target);
    }
    assert(state.subroutines[frame].continuation < count);
}

proof fn lemma_called_confined<'a>(code: Code<'a>, state: MachineState, target: usize)
    requires
        confined(code, state),
        target < code.instructions.len(),
    ensures
        called(state, target, code.instructions.len()) matches Ok(next) ==> calls_confined(
            next.subroutines,
            code.instructions.len(),
        ) && next.instruction == target,
{
    let count = code.instructions.len();
    if let Ok(next) = called(state, target, count) {
        let calls = state.subroutines;
        assert forall|i: int, j: int| 0 <= i < j < next.subroutines.len() implies (
        #[trigger] next.subroutines[i]).target != (#[trigger] next.subroutines[j]).target by {
            if j < calls.len() {
                assert(calls[i].target != calls[j].target);
            } else {
                assert(calls[i].target != target);
            }
        }
    }
}

/// The states that come after a confined state are confined.
pub proof fn lemma_step_confined<'a>(code: Code<'a>, state: MachineState)
    requires
        well_formed(code),
        confined(code, state),
    ensures
        step(code, state) matches Ok(step) ==> forall|next: MachineState| #[trigger]
            step.successors.contains(next) ==> confined(code, next),
{
    let count = code.instructions.len();
    if let Ok(taken) = step(code, state) {
        let instruction = code.instructions[state.instruction as int];
        let handlers = handler_states(code.handlers, state);
        let after = outcome_state(code, state)->Ok_0;
        let states = continued(code, state.instruction, after)->Ok_0;
        assert(taken.successors == handlers + states);
        assert forall|next: MachineState| handlers.contains(next) implies confined(code, next) by {
            lemma_table_fault(code.handlers, count);
            lemma_handler_states(code.handlers, state);
            let i = choose|i: int|
                0 <= i < code.handlers.len() && guards(
                    #[trigger] code.handlers[i],
                    state.instruction,
                ) && next == handling(state, code.handlers[i]);
            assert(entry_fault(code.handlers[i], count) is None);
            reveal_with_fuel(total_slots, 2);
        }
        assert forall|next: MachineState| states.contains(next) implies confined(code, next) by {
            if let Some(target) = call_target(instruction) {
                lemma_called_confined(code, state, checked(target, count)->Ok_0);
            } else if let Some(local) = return_local(instruction) {
                let address = state.locals[local]->Active_0;
                state.subroutines.index_of_first_ensures(address);
                lemma_returned_confined(
                    state,
                    state.subroutines.index_of_first(address)->0,
                    count,
                );
            } else {
                lemma_exits_below(instruction, state.instruction, count);
                let targets = exits(instruction, state.instruction, count)->Ok_0;
                let i = choose|i: int| 0 <= i < states.len() && states[i] == next;
                assert(next.instruction == targets[i]);
            }
        }
        assert forall|next: MachineState| #[trigger]
            taken.successors.contains(next) implies confined(code, next) by {
            let i = choose|i: int| 0 <= i < taken.successors.len() && taken.successors[i] == next;
            if i < handlers.len() {
                assert(handlers[i] == next);
                assert(handlers.contains(next));
            } else {
                assert(states[i - handlers.len()] == next);
                assert(states.contains(next));
            }
        }
    }
}

/// Every state that an execution of well-formed code comes to is confined.
pub proof fn lemma_reachable_confined<'a>(code: Code<'a>, state: MachineState)
    requires
        well_formed(code),
        reachable(code, state),
    ensures
        confined(code, state),
{
    let run = choose|run: Seq<MachineState>| #[trigger] is_run(code, run) && run.last() == state;
    lemma_run_confined(code, run, run.len() - 1);
}

proof fn lemma_run_confined<'a>(code: Code<'a>, run: Seq<MachineState>, i: int)
    requires
        well_formed(code),
        is_run(code, run),
        0 <= i < run.len(),
    ensures
        confined(code, run[i]),
    decreases i,
{
    if i == 0 {
        assert(total_slots(entry_state().stack) == 0);
    } else {
        lemma_run_confined(code, run, i - 1);
        lemma_step_confined(code, run[i - 1]);
        assert(may_follow(code, run[i - 1], run[i - 1 + 1]));
    }
}

/// The entry state is reachable.
pub proof fn lemma_entry_reachable<'a>(code: Code<'a>)
    ensures
        reachable(code, entry_state()),
{
    let run = seq![entry_state()];
    assert(is_run(code, run));
    assert(run.last() == entry_state());
}

/// What may come after a reachable state is reachable.
pub proof fn lemma_reachable_next<'a>(code: Code<'a>, state: MachineState, next: MachineState)
    requires
        reachable(code, state),
        may_follow(code, state, next),
    ensures
        reachable(code, next),
{
    let run = choose|run: Seq<MachineState>| #[trigger] is_run(code, run) && run.last() == state;
    let longer = run.push(next);
    assert forall|i: int| #![trigger longer[i]] 0 <= i < longer.len() - 1 implies may_follow(
        code,
        longer[i],
        longer[i + 1],
    ) by {
        if i < run.len() - 1 {
            assert(may_follow(code, run[i], run[i + 1]));
        } else {
            assert(longer[i] == state);
        }
    }
    assert(is_run(code, longer));
    assert(longer.last() == next);
}

/// The search finds reachable states only, and each of them once; it starts with the entry state.
pub proof fn lemma_found_reachable<'a>(code: Code<'a>, place: nat)
    ensures
        found(code, place).no_duplicates(),
        found(code, place).len() > 0,
        found(code, place)[0] == entry_state(),
        forall|i: int|
            0 <= i < found(code, place).len() ==> reachable(code, #[trigger] found(code, place)[i]),
    decreases place,
{
    if place == 0 {
        lemma_entry_reachable(code);
    } else {
        let last = (place - 1) as nat;
        let earlier = found(code, last);
        let all = found(code, place);
        lemma_found_reachable(code, last);
        if passes(code, last) {
            let taken = step(code, earlier[last as int])->Ok_0;
            lemma_with_states(earlier, taken.successors);
            assert forall|i: int| 0 <= i < all.len() implies reachable(
                code,
                #[trigger] all[i],
            ) by {
                assert(all.contains(all[i]));
                if earlier.contains(all[i]) {
                    let j = choose|j: int| 0 <= j < earlier.len() && earlier[j] == all[i];
                    assert(reachable(code, earlier[j]));
                } else {
                    assert(reachable(code, earlier[last as int]));
                    lemma_reachable_next(code, earlier[last as int], all[i]);
                }
            }
        }
    }
}

} // verus!
