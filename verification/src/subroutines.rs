//! What holds of subroutine calls and their return addresses.
use vstd::prelude::*;

use crate::arena::lemma_invalidated_slots;
use crate::confinement::{lemma_handler_states, lemma_reachable_confined, well_formed};
use crate::depth::{lemma_values_in, lemma_without_slots};
use crate::error::Fault;
use crate::instruction::{effect, stored_reference, Instruction};
use crate::locals::ReturnAddressLocal;
use crate::machine::{
    address_reused, applied, call_target, called, checked, continued, copied_below, handler_states,
    outcome_state, rearranged, return_local, returned, returned_through, step, values_in,
    without_slots, Code, MachineState,
};
use crate::search::{is_run, may_follow, reachable};
use crate::value::{total_slots, ReturnAddress, StackValue};

verus! {

/// Every return address that can still be used belongs to a call that has not returned.
pub open spec fn addresses_active(state: MachineState) -> bool {
    &&& forall|i: int|
        0 <= i < state.stack.len() ==> (#[trigger] state.stack[i] matches StackValue::ReturnAddress(
            address,
        ) ==> state.subroutines.contains(address))
    &&& forall|local: u16| #[trigger]
        state.locals.contains_key(local) ==> (state.locals[local] matches ReturnAddressLocal::Active(
            address,
        ) ==> state.subroutines.contains(address))
}

/// Moving values about brings no new values.
proof fn lemma_rearranged_values(instruction: Instruction, stack: Seq<StackValue>)
    ensures
        rearranged(instruction, stack) matches Some(Ok(after)) ==> forall|i: int|
            0 <= i < after.len() ==> stack.contains(#[trigger] after[i]),
{
    reveal_with_fuel(values_in, 3);
    if let Some(Ok(after)) = rearranged(instruction, stack) {
        assert forall|i: int| 0 <= i < after.len() implies stack.contains(#[trigger] after[i]) by {
            lemma_copied_values(stack, 1, 0, i);
            lemma_copied_values(stack, 1, 1, i);
            lemma_copied_values(stack, 1, 2, i);
            lemma_copied_values(stack, 2, 0, i);
            lemma_copied_values(stack, 2, 1, i);
            lemma_copied_values(stack, 2, 2, i);
            if instruction is Swap {
                let low = stack.len() - 2;
                assert(after[i] == if i < low {
                    stack[i]
                } else if i == low {
                    stack[low + 1]
                } else {
                    stack[low]
                });
            } else if instruction is Pop || instruction is Pop2 {
                assert(after[i] == stack[i]);
            }
        }
    }
}

proof fn lemma_copied_values(stack: Seq<StackValue>, copied: nat, over: nat, i: int)
    ensures
        copied_below(stack, copied, over) matches Ok(after) ==> (0 <= i < after.len()
            ==> stack.contains(after[i])),
{
    if let Ok(after) = copied_below(stack, copied, over) {
        lemma_values_in(stack, copied);
        let n = values_in(stack, copied)->Ok_0;
        let low = stack.take(stack.len() - n);
        lemma_values_in(low, over);
        let m = values_in(low, over)->Ok_0;
        if 0 <= i < after.len() {
            let base = stack.len() - n - m;
            assert(after[i] == if i < base {
                stack[i]
            } else if i < base + n {
                stack[i - base + stack.len() - n]
            } else {
                stack[i - n]
            });
        }
    }
}

proof fn lemma_applied_active<'a>(code: Code<'a>, instruction: Instruction, state: MachineState)
    requires
        addresses_active(state),
    ensures
        applied(instruction, code.constants, state) matches Ok(after) ==> addresses_active(after),
{
    if let Ok(after) = applied(instruction, code.constants, state) {
        reveal_with_fuel(values_in, 2);
        assert(after.subroutines == state.subroutines);
        if stored_reference(instruction) is Some {
            assert(state.stack.len() > 0);
            assert(state.stack[state.stack.len() - 1] == state.stack.last());
        } else if rearranged(instruction, state.stack) is Some {
            lemma_rearranged_values(instruction, state.stack);
            assert forall|i: int| 0 <= i < after.stack.len() implies (
            #[trigger] after.stack[i] matches StackValue::ReturnAddress(address)
                ==> state.subroutines.contains(address)) by {
                assert(state.stack.contains(after.stack[i]));
            }
        } else if let Ok((pops, pushes)) = effect(instruction, code.constants) {
            lemma_without_slots(state.stack, pops as nat);
            let rest = without_slots(state.stack, pops as nat)->Ok_0;
            assert forall|i: int| 0 <= i < after.stack.len() implies (
            #[trigger] after.stack[i] matches StackValue::ReturnAddress(address)
                ==> state.subroutines.contains(address)) by {
                if i < rest.len() {
                    assert(after.stack[i] == rest[i] && rest[i] == state.stack[i]);
                }
            }
        }
    }
}

proof fn lemma_called_active(state: MachineState, target: usize, count: nat)
    requires
        addresses_active(state),
    ensures
        called(state, target, count) matches Ok(after) ==> addresses_active(after),
{
    if let Ok(after) = called(state, target, count) {
        let last = after.subroutines.last();
        assert(after.subroutines[after.subroutines.len() - 1] == last);
        assert forall|address: ReturnAddress| #[trigger]
            state.subroutines.contains(address) implies after.subroutines.contains(address) by {
            let i = choose|i: int| 0 <= i < state.subroutines.len() && state.subroutines[i] == address;
            assert(after.subroutines[i] == address);
        }
    }
}

proof fn lemma_returned_active(state: MachineState, frame: int)
    requires
        addresses_active(state),
        0 <= frame < state.subroutines.len(),
    ensures
        addresses_active(returned(state, frame)),
{
    let calls = state.subroutines;
    let over = calls.skip(frame);
    let left = calls.take(frame);
    let after = returned(state, frame);
    assert forall|address: ReturnAddress| #[trigger] calls.contains(address) && !over.contains(
        address,
    ) implies left.contains(address) by {
        let i = choose|i: int| 0 <= i < calls.len() && calls[i] == address;
        if i < frame {
            assert(left[i] == address);
        } else {
            assert(over[i - frame] == address);
        }
    }
    assert forall|i: int| 0 <= i < after.stack.len() implies (
    #[trigger] after.stack[i] matches StackValue::ReturnAddress(address) ==> left.contains(
        address,
    )) by {
        if let StackValue::ReturnAddress(address) = after.stack[i] {
            assert(state.stack[i] == after.stack[i]);
            assert(calls.contains(address));
        }
    }
    assert forall|local: u16| #[trigger] after.locals.contains_key(local) implies (
    after.locals[local] matches ReturnAddressLocal::Active(address) ==> left.contains(
        address,
    )) by {
        assert(state.locals.contains_key(local));
        if let ReturnAddressLocal::Active(address) = after.locals[local] {
            assert(state.locals[local] == after.locals[local]);
            assert(calls.contains(address));
        }
    }
}

proof fn lemma_step_active<'a>(code: Code<'a>, state: MachineState, next: MachineState)
    requires
        addresses_active(state),
        may_follow(code, state, next),
    ensures
        addresses_active(next),
{
    let instruction = code.instructions[state.instruction as int];
    let count = code.instructions.len();
    let first = handler_states(code.handlers, state);
    let after = outcome_state(code, state)->Ok_0;
    let second = continued(code, state.instruction, after)->Ok_0;
    let all = step(code, state)->Ok_0.successors;
    let k = choose|k: int| 0 <= k < all.len() && all[k] == next;
    if k < first.len() {
        assert(first[k] == next);
        assert(first.contains(next));
        lemma_handler_states(code.handlers, state);
        assert(next.stack =~= seq![StackValue::Category1]);
    } else {
        assert(second[k - first.len()] == next);
        if call_target(instruction) is Some {
            lemma_called_active(
                state,
                checked(call_target(instruction)->Some_0, count)->Ok_0,
                count,
            );
        } else if return_local(instruction) is Some {
            let local = return_local(instruction)->Some_0;
            let address = state.locals[local]->Active_0;
            state.subroutines.index_of_first_ensures(address);
            lemma_returned_active(state, state.subroutines.index_of_first(address)->Some_0);
        } else {
            lemma_applied_active(code, instruction, state);
            assert(next.stack == after.stack && next.locals == after.locals && next.subroutines
                == after.subroutines);
        }
    }
}

proof fn lemma_run_active<'a>(code: Code<'a>, run: Seq<MachineState>, i: int)
    requires
        is_run(code, run),
        0 <= i < run.len(),
    ensures
        addresses_active(run[i]),
    decreases i,
{
    if i > 0 {
        lemma_run_active(code, run, i - 1);
        assert(may_follow(code, run[i - 1], run[i - 1 + 1]));
        lemma_step_active(code, run[i - 1], run[i]);
    }
}

/// In every state that can be reached, a return address that has not been made invalid belongs to a call
/// that has not returned.
pub proof fn lemma_addresses_active<'a>(code: Code<'a>, state: MachineState)
    requires
        reachable(code, state),
    ensures
        addresses_active(state),
{
    let run = choose|run: Seq<MachineState>| #[trigger] is_run(code, run) && run.last() == state;
    lemma_run_active(code, run, run.len() - 1);
}

/// A `ret` with a return address that has not been made invalid always finds its call.
pub proof fn lemma_return_succeeds<'a>(code: Code<'a>, state: MachineState, local: u16)
    requires
        reachable(code, state),
        state.locals.contains_key(local),
        state.locals[local] is Active,
    ensures
        returned_through(state, local) is Ok,
{
    lemma_addresses_active(code, state);
    state.subroutines.index_of_first_ensures(state.locals[local]->Active_0);
}

/// A `ret` goes back to the instruction after the `jsr` whose address it uses, with the calls that were
/// made before, and leaves the stack as deep as it is.
pub proof fn lemma_return_after_call(
    state: MachineState,
    target: usize,
    count: nat,
    later: MachineState,
    local: u16,
)
    requires
        called(state, target, count) matches Ok(start) && later.subroutines == start.subroutines
            && later.locals.contains_key(local) && later.locals[local]
            == ReturnAddressLocal::Active(start.subroutines.last()),
    ensures
        returned_through(later, local) matches Ok(after) && {
            &&& after.instruction == state.instruction + 1
            &&& after.subroutines == state.subroutines
            &&& after.stack.len() == later.stack.len()
            &&& total_slots(after.stack) == total_slots(later.stack)
        },
{
    let start = called(state, target, count)->Ok_0;
    let calls = start.subroutines;
    let address = calls.last();
    calls.index_of_first_ensures(address);
    assert(calls[calls.len() - 1] == address);
    let frame = calls.index_of_first(address)->Some_0;
    assert(frame == calls.len() - 1) by {
        if frame < calls.len() - 1 {
            assert(state.subroutines[frame] == calls[frame]);
            assert(state.subroutines[frame].target == target);
        }
    }
    assert(calls.take(frame) =~= state.subroutines);
    lemma_invalidated_slots(later.stack, calls.skip(frame));
}

/// After a return, no return address of the calls that are over can be used: a `ret` with a variable that
/// holds one is refused.
pub proof fn lemma_no_reuse(state: MachineState, frame: int, local: u16)
    requires
        0 <= frame < state.subroutines.len(),
        state.locals.contains_key(local),
        state.locals[local] matches ReturnAddressLocal::Active(address)
            && state.subroutines.skip(frame).contains(address),
    ensures
        returned_through(returned(state, frame), local) == Err::<MachineState, Fault>(
            address_reused(state.subroutines[frame].continuation, local),
        ),
{
}

/// A subroutine that has not returned is not called again.
pub proof fn lemma_no_recursion<'a>(code: Code<'a>, state: MachineState, i: int, j: int)
    requires
        well_formed(code),
        reachable(code, state),
        0 <= i < j < state.subroutines.len(),
    ensures
        state.subroutines[i].target != state.subroutines[j].target,
{
    lemma_reachable_confined(code, state);
}

} // verus!
