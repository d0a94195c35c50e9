//! What instructions make of a state of the analysis.
use vstd::prelude::*;

use crate::arena::{invalidated, StackArena};
use crate::constant_pool::ConstantPool;
use crate::error::{verification_error, Error, Fault};
use crate::instruction::{
    astore_index, effect, read_local, stored_reference, written_local, Instruction,
};
use crate::locals::{
    clear_return_address_local_range, invalidate_local_addresses, invalidated_locals,
    lemma_entries_outside, local_map, local_range_contains_return_address,
    set_return_address_local, ReturnAddressLocal,
};
use crate::machine::{
    address_reads, applied, left_at_fault, left_by, rearranged, reference_stored, values_in,
    MachineState,
};
use crate::operand::{apply_stack_manipulation, pop_category1, pop_slots, push_slots};
use crate::state::{FlowSnapshot, FlowState};
use crate::text::with_number;
use crate::value::{total_slots, ReturnAddress, StackValue};

verus! {

/// An operation on a state came out as it should.
///
/// What should come out is given without regard to the depth of stacks: either a fault, and then the
/// arena is unchanged, or a machine state. In the latter case the operation succeeds unless the arena
/// refuses the stack.
pub open spec fn reaches(
    before: &StackArena,
    after: &StackArena,
    state: &FlowState,
    expected: Result<MachineState, Fault>,
    result: Result<(), Error>,
) -> bool {
    &&& after.inv()
    &&& state.valid(after)
    &&& match expected {
        Ok(machine) => {
            &&& after.grown(before, machine.stack)
            &&& match result {
                Ok(_) => total_slots(machine.stack) <= u16::MAX && state.machine(after) == machine,
                Err(error) => after.refuses(machine.stack, error@),
            }
        },
        Err(fault) => {
            &&& *after == *before
            &&& result matches Err(error)
            &&& error@ == fault
        },
    }
}

/// Makes the return addresses of inactive subroutine calls invalid in a state.
pub fn invalidate_return_addresses(
    state: &mut FlowState,
    inactive: &[ReturnAddress],
    stacks: &mut StackArena,
) -> (result: Result<(), Error>)
    requires
        old(stacks).inv(),
        old(state).valid(&*old(stacks)),
    ensures
        reaches(
            &*old(stacks),
            &*final(stacks),
            &*final(state),
            Ok(
                MachineState {
                    stack: invalidated(
                        old(stacks).values(old(state).stack),
                        inactive@,
                    ),
                    locals: invalidated_locals(
                        old(state).machine(&*old(stacks)).locals,
                        inactive@,
                    ),
                    ..old(state).machine(&*old(stacks))
                },
            ),
            result,
        ),
        result is Err ==> final(state)@ == (FlowSnapshot {
            locals: final(state)@.locals,
            ..old(state)@
        }) && local_map(final(state)@.locals) == invalidated_locals(
            local_map(old(state)@.locals),
            inactive@,
        ),
{
    invalidate_local_addresses(&mut state.return_address_locals, inactive);
    match stacks.invalidate_return_addresses(state.stack, inactive) {
        Ok(stack) => {
            state.stack = stack;
            proof {
                stacks.lemma_values_bounds(stack);
            }
            Ok(())
        },
        Err(error) => Err(error),
    }
}

/// `astore`: stores the value on top of the stack, which may be a return address, in a local variable.
pub fn apply_astore(state: &mut FlowState, index: u16, stacks: &StackArena) -> (result: Result<
    (),
    Error,
>)
    requires
        stacks.inv(),
        old(state).valid(stacks),
    ensures
        reaches(
            stacks,
            stacks,
            &*final(state),
            reference_stored(old(state).machine(stacks), index),
            result,
        ),
        reference_stored(old(state).machine(stacks), index) is Ok ==> result is Ok,
        result is Err ==> final(state)@ == (FlowSnapshot {
            stack: final(state)@.stack,
            ..old(state)@
        }) && stacks.values(final(state)@.stack) == left_by(stacks.values(old(state)@.stack), 1),
{
    proof {
        reveal_with_fuel(left_by, 3);
    }
    let value = match pop_category1(stacks, &mut state.stack) {
        Ok(value) => value,
        Err(error) => {
            return Err(error);
        },
    };
    let return_address = match value {
        StackValue::ReturnAddress(address) => Some(ReturnAddressLocal::Active(address)),
        StackValue::InvalidReturnAddress => Some(ReturnAddressLocal::Invalid),
        StackValue::Category1 | StackValue::Category2 => None,
    };
    set_return_address_local(&mut state.return_address_locals, index, return_address);
    proof {
        reveal_with_fuel(values_in, 3);
        stacks.lemma_values_bounds(state.stack);
    }
    Ok(())
}

/// Executes an instruction other than `jsr` and `ret`; the state's next instruction is left as it is.
pub fn apply_instruction(
    state: &mut FlowState,
    instruction: &Instruction,
    constant_pool: &ConstantPool<'_>,
    stacks: &mut StackArena,
) -> (result: Result<(), Error>)
    requires
        old(stacks).inv(),
        old(state).valid(&*old(stacks)),
    ensures
        reaches(
            &*old(stacks),
            &*final(stacks),
            &*final(state),
            applied(*instruction, constant_pool@, old(state).machine(&*old(stacks))),
            result,
        ),
        result is Err ==> final(state)@ == (FlowSnapshot {
            stack: final(state)@.stack,
            ..old(state)@
        }),
        match applied(*instruction, constant_pool@, old(state).machine(&*old(stacks))) {
            Ok(machine) => result is Err ==> final(stacks).is_longest_part(
                final(state)@.stack,
                machine.stack,
            ),
            Err(_) => final(stacks).values(final(state)@.stack) == left_at_fault(
                *instruction,
                constant_pool@,
                old(state).machine(&*old(stacks)),
            ),
        },
        stored_reference(*instruction) is None && rearranged(
            *instruction,
            old(stacks).values(old(state)@.stack),
        ) is None && (address_reads(*instruction, local_map(old(state)@.locals)) is Some || effect(
            *instruction,
            constant_pool@,
        ) is Err) ==> final(state)@ == old(state)@,
{
    if let Some(index) = astore_index(instruction) {
        return apply_astore(state, index, stacks);
    }
    match apply_stack_manipulation(instruction, &mut state.stack, stacks) {
        Ok(handled) => if handled {
            return Ok(());
        },
        Err(error) => {
            return Err(error);
        },
    }
    if let Some((index, slots)) = read_local(instruction) {
        if local_range_contains_return_address(&state.return_address_locals, index, slots) {
            let text = "instruction reads returnAddress local variable starting at ".to_owned();
            return Err(verification_error(with_number(text, index as usize)));
        }
    }
    let (popped_slots, pushed_slots) = match instruction.stack_effect(constant_pool) {
        Ok(slots) => slots,
        Err(error) => {
            return Err(error);
        },
    };
    match pop_slots(stacks, &mut state.stack, popped_slots) {
        Ok(_) => {},
        Err(error) => {
            return Err(error);
        },
    }
    match push_slots(stacks, &mut state.stack, pushed_slots) {
        Ok(_) => {},
        Err(error) => {
            return Err(error);
        },
    }
    if let Some((index, slots)) = written_local(instruction) {
        proof {
            lemma_entries_outside(state.return_address_locals@, index, slots);
        }
        clear_return_address_local_range(&mut state.return_address_locals, index, slots);
    }
    Ok(())
}

} // verus!
