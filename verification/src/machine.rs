//! The machine that the analysis explores: states, and what an instruction makes of a state.
//!
//! A state says which instruction comes next, which values are on the operand stack, which local
//! variables hold return addresses and which subroutine calls have not returned. Everything here is
//! specification.
use vstd::prelude::*;

use crate::arena::{invalidated, too_deep, underflow};
use crate::collections::entry_values;
use crate::constant_pool::Constant;
use crate::error::Fault;
use crate::instruction::{effect, read, stored_reference, written, ExceptionTableEntry, Instruction};
use crate::locals::{
    holds_address, invalidated_locals, local_written, locals_outside, ReturnAddressLocal,
};
use crate::text::decimal;
use crate::value::{slots_of, total_slots, ReturnAddress, StackValue};

verus! {

/// A method's code: its instructions, the constant pool they refer to, and its exception table.
pub struct Code<'a> {
    pub instructions: Seq<Instruction>,
    pub constants: Seq<Constant<'a>>,
    pub handlers: Seq<ExceptionTableEntry>,
}

/// A state of the machine.
#[verifier::ext_equal]
pub struct MachineState {
    /// The next instruction.
    pub instruction: usize,
    /// The operand stack, the bottom first.
    pub stack: Seq<StackValue>,
    /// The local variables that hold return addresses.
    pub locals: Map<u16, ReturnAddressLocal>,
    /// The subroutine calls that have not returned, the outermost first.
    pub subroutines: Seq<ReturnAddress>,
}

/// What an instruction makes of a state.
pub struct Step {
    /// The operand stack after the instruction.
    pub stack: Seq<StackValue>,
    /// The states that may come next.
    pub successors: Seq<MachineState>,
}

/// The state in which a method starts.
pub open spec fn entry_state() -> MachineState {
    MachineState {
        instruction: 0,
        stack: Seq::empty(),
        locals: Map::empty(),
        subroutines: Seq::empty(),
    }
}

// ---- Taking values from the operand stack.
/// The fault of a value of two slots where one of one slot has to be.
pub open spec fn expected_category1() -> Fault {
    Fault::Verification("expected a category-1 value on the operand stack"@)
}

/// The fault of a return address where an ordinary value has to be.
pub open spec fn address_consumed() -> Fault {
    Fault::Verification("returnAddress consumed by a non-returnAddress instruction"@)
}

/// The fault of a value that reaches beyond the slots that are taken.
pub open spec fn value_split(value_slots: nat, remaining: nat) -> Fault {
    Fault::Verification(
        "operand stack value occupies "@ + decimal(value_slots) + " slots but only "@ + decimal(
            remaining,
        ) + " slots are consumed"@,
    )
}

/// The fault of a result that is neither of one slot nor of two.
pub open spec fn unsupported_width(slots: nat) -> Fault {
    Fault::Verification(
        "instruction produces unsupported stack value width of "@ + decimal(slots) + " slots"@,
    )
}

/// How many values on top of a stack make up exactly one slot, or exactly two.
///
/// One slot is a value of category 1. Two slots are a value of category 2, or two values of category 1.
pub open spec fn values_in(stack: Seq<StackValue>, slots: nat) -> Result<nat, Fault>
    decreases slots,
{
    if slots == 0 {
        Ok(0)
    } else if stack.len() == 0 {
        Err(underflow())
    } else if stack.last() is Category2 {
        if slots == 2 {
            Ok(1)
        } else {
            Err(expected_category1())
        }
    } else {
        match values_in(stack.drop_last(), (slots - 1) as nat) {
            Ok(n) => Ok(n + 1),
            Err(fault) => Err(fault),
        }
    }
}

/// What is left of a stack when values are taken from its topmost slots. Taking stops at a value that
/// reaches beyond the slots, and that value is gone as well.
pub open spec fn left_by(stack: Seq<StackValue>, slots: nat) -> Seq<StackValue>
    decreases slots,
{
    if slots == 0 || stack.len() == 0 {
        stack
    } else if stack.last() is Category2 {
        stack.drop_last()
    } else {
        left_by(stack.drop_last(), (slots - 1) as nat)
    }
}

/// A stack without its topmost slots, for the instructions that take ordinary values.
pub open spec fn without_slots(stack: Seq<StackValue>, slots: nat) -> Result<Seq<StackValue>, Fault>
    decreases stack.len(),
{
    if slots == 0 {
        Ok(stack)
    } else if stack.len() == 0 {
        Err(underflow())
    } else if stack.last() is ReturnAddress || stack.last() is InvalidReturnAddress {
        Err(address_consumed())
    } else if slots_of(stack.last()) > slots {
        Err(value_split(slots_of(stack.last()), slots))
    } else {
        without_slots(stack.drop_last(), (slots - slots_of(stack.last())) as nat)
    }
}

/// What is left of a stack when ordinary values are taken from its topmost slots. Taking stops at a
/// return address and at a value that reaches beyond the slots, and that value is gone as well.
pub open spec fn left_without(stack: Seq<StackValue>, slots: nat) -> Seq<StackValue>
    decreases stack.len(),
{
    if slots == 0 || stack.len() == 0 {
        stack
    } else if stack.last() is ReturnAddress || stack.last() is InvalidReturnAddress || slots_of(
        stack.last(),
    ) > slots {
        stack.drop_last()
    } else {
        left_without(stack.drop_last(), (slots - slots_of(stack.last())) as nat)
    }
}

/// A stack with a value of so many slots on top.
pub open spec fn with_slots(stack: Seq<StackValue>, slots: nat) -> Result<Seq<StackValue>, Fault> {
    if slots == 0 {
        Ok(stack)
    } else if slots == 1 {
        Ok(stack.push(StackValue::Category1))
    } else if slots == 2 {
        Ok(stack.push(StackValue::Category2))
    } else {
        Err(unsupported_width(slots))
    }
}

// ---- Instructions that move values about on the operand stack.
/// The stack without the values in its topmost slots.
pub open spec fn dropped(stack: Seq<StackValue>, slots: nat) -> Result<Seq<StackValue>, Fault> {
    match values_in(stack, slots) {
        Ok(n) => Ok(stack.take(stack.len() - n)),
        Err(fault) => Err(fault),
    }
}

/// The stack with the values in its topmost slots copied below the values in the slots that follow.
pub open spec fn copied_below(stack: Seq<StackValue>, copied: nat, over: nat) -> Result<
    Seq<StackValue>,
    Fault,
> {
    match values_in(stack, copied) {
        Ok(n) => match values_in(stack.take(stack.len() - n), over) {
            Ok(m) => Ok(
                stack.take(stack.len() - n - m) + stack.skip(stack.len() - n) + stack.skip(
                    stack.len() - n - m,
                ),
            ),
            Err(fault) => Err(fault),
        },
        Err(fault) => Err(fault),
    }
}

/// The stack with its two topmost values, of category 1 both, exchanged.
pub open spec fn swapped(stack: Seq<StackValue>) -> Result<Seq<StackValue>, Fault> {
    match values_in(stack, 1) {
        Ok(_) => match values_in(stack.drop_last(), 1) {
            Ok(_) => Ok(
                stack.take(stack.len() - 2).push(stack.last()).push(stack.drop_last().last()),
            ),
            Err(fault) => Err(fault),
        },
        Err(fault) => Err(fault),
    }
}

/// What an instruction that only moves values about makes of the stack; no other instruction has a
/// result here.
pub open spec fn rearranged(instruction: Instruction, stack: Seq<StackValue>) -> Option<
    Result<Seq<StackValue>, Fault>,
> {
    match instruction {
        Instruction::Pop => Some(dropped(stack, 1)),
        Instruction::Pop2 => Some(dropped(stack, 2)),
        Instruction::Dup => Some(copied_below(stack, 1, 0)),
        Instruction::Dup_x1 => Some(copied_below(stack, 1, 1)),
        Instruction::Dup_x2 => Some(copied_below(stack, 1, 2)),
        Instruction::Dup2 => Some(copied_below(stack, 2, 0)),
        Instruction::Dup2_x1 => Some(copied_below(stack, 2, 1)),
        Instruction::Dup2_x2 => Some(copied_below(stack, 2, 2)),
        Instruction::Swap => Some(swapped(stack)),
        _ => None,
    }
}

/// What is left of a stack when values are taken from its topmost slots and then from those that follow.
pub open spec fn left_below(stack: Seq<StackValue>, upper: nat, lower: nat) -> Seq<StackValue> {
    if values_in(stack, upper) is Ok {
        left_by(left_by(stack, upper), lower)
    } else {
        left_by(stack, upper)
    }
}

/// What is left of the stack when an instruction that only moves values about has taken the values that
/// it moves, or fails to; for other instructions, the stack.
pub open spec fn left_to_rearrange(instruction: Instruction, stack: Seq<StackValue>) -> Seq<
    StackValue,
> {
    match instruction {
        Instruction::Pop => left_by(stack, 1),
        Instruction::Pop2 => left_by(stack, 2),
        Instruction::Dup => left_below(stack, 1, 0),
        Instruction::Dup_x1 => left_below(stack, 1, 1),
        Instruction::Dup_x2 => left_below(stack, 1, 2),
        Instruction::Dup2 => left_below(stack, 2, 0),
        Instruction::Dup2_x1 => left_below(stack, 2, 1),
        Instruction::Dup2_x2 => left_below(stack, 2, 2),
        Instruction::Swap => left_below(stack, 1, 1),
        _ => stack,
    }
}

// ---- Instructions that go on with the next instruction or branch.
/// The fault of a read of a local variable that holds a return address.
pub open spec fn address_read(index: u16) -> Fault {
    Fault::Verification(
        "instruction reads returnAddress local variable starting at "@ + decimal(index as nat),
    )
}

/// What a local variable holds after a value was stored in it, if that is a return address.
pub open spec fn stored_address(value: StackValue) -> Option<ReturnAddressLocal> {
    match value {
        StackValue::ReturnAddress(address) => Some(ReturnAddressLocal::Active(address)),
        StackValue::InvalidReturnAddress => Some(ReturnAddressLocal::Invalid),
        StackValue::Category1 | StackValue::Category2 => None,
    }
}

/// The state after an `astore`, which may store a return address.
pub open spec fn reference_stored(state: MachineState, index: u16) -> Result<MachineState, Fault> {
    match values_in(state.stack, 1) {
        Ok(_) => Ok(
            MachineState {
                stack: state.stack.drop_last(),
                locals: local_written(state.locals, index, stored_address(state.stack.last())),
                ..state
            },
        ),
        Err(fault) => Err(fault),
    }
}

/// The stack after an instruction that pops and pushes ordinary values, however deep it gets.
pub open spec fn popped_and_pushed(stack: Seq<StackValue>, pops: nat, pushes: nat) -> Result<
    Seq<StackValue>,
    Fault,
> {
    match without_slots(stack, pops) {
        Ok(rest) => with_slots(rest, pushes),
        Err(fault) => Err(fault),
    }
}

/// The variables after an instruction that stores an ordinary value, or none.
pub open spec fn locals_after(
    instruction: Instruction,
    locals: Map<u16, ReturnAddressLocal>,
) -> Map<u16, ReturnAddressLocal> {
    match written(instruction) {
        Some((index, slots)) => locals_outside(locals, index, slots),
        None => locals,
    }
}

/// The first local variable that an instruction reads, if it reads one that holds a return address.
pub open spec fn address_reads(
    instruction: Instruction,
    locals: Map<u16, ReturnAddressLocal>,
) -> Option<u16> {
    match read(instruction) {
        Some((index, slots)) if holds_address(locals, index, slots) => Some(index),
        _ => None,
    }
}

/// The state after an instruction other than `jsr` and `ret`, however deep the stack gets; the next
/// instruction is not decided yet.
pub open spec fn applied<'a>(
    instruction: Instruction,
    constants: Seq<Constant<'a>>,
    state: MachineState,
) -> Result<MachineState, Fault> {
    match stored_reference(instruction) {
        Some(index) => reference_stored(state, index),
        None => match rearranged(instruction, state.stack) {
            Some(Ok(stack)) => Ok(MachineState { stack, ..state }),
            Some(Err(fault)) => Err(fault),
            None => match address_reads(instruction, state.locals) {
                Some(index) => Err(address_read(index)),
                None => match effect(instruction, constants) {
                    Ok((pops, pushes)) => match popped_and_pushed(
                        state.stack,
                        pops as nat,
                        pushes as nat,
                    ) {
                        Ok(stack) => Ok(
                            MachineState {
                                stack,
                                locals: locals_after(instruction, state.locals),
                                ..state
                            },
                        ),
                        Err(fault) => Err(fault),
                    },
                    Err(fault) => Err(fault),
                },
            },
        },
    }
}

/// The stack that an instruction other than `jsr` and `ret` leaves behind when it is at fault.
pub open spec fn left_at_fault<'a>(
    instruction: Instruction,
    constants: Seq<Constant<'a>>,
    state: MachineState,
) -> Seq<StackValue> {
    match stored_reference(instruction) {
        Some(_) => left_by(state.stack, 1),
        None => match (
            rearranged(instruction, state.stack),
            address_reads(instruction, state.locals),
            effect(instruction, constants),
        ) {
            (Some(_), _, _) => left_to_rearrange(instruction, state.stack),
            (None, None, Ok((pops, _))) => left_without(state.stack, pops as nat),
            _ => state.stack,
        },
    }
}

// ---- Targets.
/// The instruction that a target names in code of so many instructions.
pub open spec fn checked(target: int, count: nat) -> Result<usize, Fault> {
    if target < 0 || target > usize::MAX || target > i64::MAX {
        Err(Fault::IntegerConversion)
    } else if target < count {
        Ok(target as usize)
    } else if target <= u32::MAX {
        Err(Fault::InvalidInstructionOffset(target as u32))
    } else {
        Err(Fault::IntegerConversion)
    }
}

/// The instruction that an offset from another instruction names.
pub open spec fn relative(index: usize, offset: i32, count: nat) -> Result<usize, Fault> {
    if index > i64::MAX {
        Err(Fault::IntegerConversion)
    } else {
        checked(index + offset, count)
    }
}

/// The instruction after another, if there is one.
pub open spec fn following(index: usize, count: nat) -> Option<usize> {
    if index + 1 < count && index < usize::MAX {
        Some((index + 1) as usize)
    } else {
        None
    }
}

/// The targets of a switch, the default first.
pub open spec fn switch_targets(index: usize, default: i32, offsets: Seq<i32>, count: nat) -> Seq<
    Result<usize, Fault>,
> {
    seq![relative(index, default, count)] + offsets.map_values(
        |offset: i32| relative(index, offset, count),
    )
}

/// The targets that an instruction names, in order.
pub open spec fn named_targets(instruction: Instruction, index: usize, count: nat) -> Seq<
    Result<usize, Fault>,
> {
    match branch_target(instruction) {
        Some(target) => seq![checked(target, count)],
        None => match instruction {
            Instruction::Tableswitch(table) => switch_targets(
                index,
                table.default,
                table.offsets@,
                count,
            ),
            Instruction::Lookupswitch(lookup) => switch_targets(
                index,
                lookup.default,
                entry_values(lookup.pairs),
                count,
            ),
            _ => Seq::empty(),
        },
    }
}

/// The target of a conditional branch.
pub open spec fn condition_target(instruction: Instruction) -> Option<u16> {
    match instruction {
        Instruction::Ifeq(target)
        | Instruction::Ifne(target)
        | Instruction::Iflt(target)
        | Instruction::Ifge(target)
        | Instruction::Ifgt(target)
        | Instruction::Ifle(target)
        | Instruction::If_icmpeq(target)
        | Instruction::If_icmpne(target)
        | Instruction::If_icmplt(target)
        | Instruction::If_icmpge(target)
        | Instruction::If_icmpgt(target)
        | Instruction::If_icmple(target)
        | Instruction::If_acmpeq(target)
        | Instruction::If_acmpne(target)
        | Instruction::Ifnull(target)
        | Instruction::Ifnonnull(target) => Some(target),
        _ => None,
    }
}

/// The target of a branch, with a condition or without.
pub open spec fn branch_target(instruction: Instruction) -> Option<int> {
    match instruction {
        Instruction::Goto(target) => Some(target as int),
        Instruction::Goto_w(target) => Some(target as int),
        _ => match condition_target(instruction) {
            Some(target) => Some(target as int),
            None => None,
        },
    }
}

/// The instruction never goes on with the one that follows it.
pub open spec fn leaves(instruction: Instruction) -> bool {
    match instruction {
        Instruction::Goto(..)
        | Instruction::Goto_w(..)
        | Instruction::Tableswitch(..)
        | Instruction::Lookupswitch(..)
        | Instruction::Ireturn
        | Instruction::Lreturn
        | Instruction::Freturn
        | Instruction::Dreturn
        | Instruction::Areturn
        | Instruction::Return
        | Instruction::Athrow
        | Instruction::Ret(..)
        | Instruction::Ret_w(..)
        | Instruction::Jsr(..)
        | Instruction::Jsr_w(..) => true,
        _ => false,
    }
}

/// All targets, or the fault of the first that has one.
pub open spec fn gathered(targets: Seq<Result<usize, Fault>>) -> Result<Seq<usize>, Fault>
    decreases targets.len(),
{
    if targets.len() == 0 {
        Ok(Seq::empty())
    } else {
        match (gathered(targets.drop_last()), targets.last()) {
            (Ok(earlier), Ok(target)) => Ok(earlier.push(target)),
            (Ok(_), Err(fault)) => Err(fault),
            (Err(fault), _) => Err(fault),
        }
    }
}

/// The instructions that may come after an instruction other than `jsr` and `ret`: the targets that it
/// names, and then the instruction that follows it.
pub open spec fn exits(instruction: Instruction, index: usize, count: nat) -> Result<
    Seq<usize>,
    Fault,
> {
    match gathered(named_targets(instruction, index, count)) {
        Ok(targets) => match following(index, count) {
            Some(next) if !leaves(instruction) => Ok(targets.push(next)),
            _ => Ok(targets),
        },
        Err(fault) => Err(fault),
    }
}

// ---- Subroutines.
/// The fault of a `jsr` that no instruction follows.
pub open spec fn no_continuation(index: usize) -> Fault {
    Fault::Verification(
        "jsr at instruction "@ + decimal(index as nat) + " has no continuation"@,
    )
}

/// The fault of a call of a subroutine that has not returned.
pub open spec fn recursive_call(target: usize) -> Fault {
    Fault::Verification(
        "recursive jsr subroutine call to instruction "@ + decimal(target as nat),
    )
}

/// The fault of a `ret` with the address of a call that has returned.
pub open spec fn address_reused(index: usize, local: u16) -> Fault {
    Fault::Verification(
        "ret at instruction "@ + decimal(index as nat)
            + " reuses an inactive returnAddress from local "@ + decimal(local as nat),
    )
}

/// The fault of a `ret` with a variable that holds no return address.
pub open spec fn no_address(index: usize, local: u16) -> Fault {
    Fault::Verification(
        "ret at instruction "@ + decimal(index as nat) + " reads local "@ + decimal(local as nat)
            + " without a returnAddress"@,
    )
}

/// The fault of a `ret` with the address of a call that is not among those that have not returned.
pub open spec fn call_not_active(index: usize) -> Fault {
    Fault::Verification(
        "ret at instruction "@ + decimal(index as nat)
            + " targets an inactive jsr return address"@,
    )
}

/// A subroutine is being executed.
pub open spec fn in_progress(subroutines: Seq<ReturnAddress>, target: usize) -> bool {
    exists|i: int| 0 <= i < subroutines.len() && #[trigger] subroutines[i].target == target
}

/// The state at the start of a subroutine, however deep the stack gets.
pub open spec fn called(state: MachineState, target: usize, count: nat) -> Result<
    MachineState,
    Fault,
> {
    match following(state.instruction, count) {
        Some(continuation) => if in_progress(state.subroutines, target) {
            Err(recursive_call(target))
        } else {
            let address = ReturnAddress { call_site: state.instruction, target, continuation };
            Ok(
                MachineState {
                    instruction: target,
                    stack: state.stack.push(StackValue::ReturnAddress(address)),
                    subroutines: state.subroutines.push(address),
                    ..state
                },
            )
        },
        None => Err(no_continuation(state.instruction)),
    }
}

/// The state after a return from the subroutine call at a place in the list of those that have not
/// returned: that call and the calls made after it are over, and their addresses are invalid.
pub open spec fn returned(state: MachineState, frame: int) -> MachineState {
    let inactive = state.subroutines.skip(frame);
    MachineState {
        instruction: state.subroutines[frame].continuation,
        stack: invalidated(state.stack, inactive),
        locals: invalidated_locals(state.locals, inactive),
        subroutines: state.subroutines.take(frame),
    }
}

/// The state after a `ret` with a local variable.
pub open spec fn returned_through(state: MachineState, local: u16) -> Result<MachineState, Fault> {
    if !state.locals.contains_key(local) {
        Err(no_address(state.instruction, local))
    } else {
        match state.locals[local] {
            ReturnAddressLocal::Active(address) => match state.subroutines.index_of_first(address) {
                Some(frame) => Ok(returned(state, frame)),
                None => Err(call_not_active(state.instruction)),
            },
            ReturnAddressLocal::Invalid => Err(address_reused(state.instruction, local)),
        }
    }
}

/// The instruction is a `jsr`; this is its target.
pub open spec fn call_target(instruction: Instruction) -> Option<int> {
    match instruction {
        Instruction::Jsr(target) => Some(target as int),
        Instruction::Jsr_w(target) => Some(target as int),
        _ => None,
    }
}

/// The instruction is a `ret`; this is its local variable.
pub open spec fn return_local(instruction: Instruction) -> Option<u16> {
    match instruction {
        Instruction::Ret(index) => Some(index as u16),
        Instruction::Ret_w(index) => Some(index),
        _ => None,
    }
}

// ---- Exceptions.
/// An entry of the exception table guards an instruction.
pub open spec fn guards(entry: ExceptionTableEntry, index: usize) -> bool {
    entry.range_pc.start <= index < entry.range_pc.end
}

/// The state at the start of an exception handler: the thrown object alone is on the stack.
pub open spec fn handling(state: MachineState, entry: ExceptionTableEntry) -> MachineState {
    MachineState {
        instruction: entry.handler_pc as usize,
        stack: seq![StackValue::Category1],
        ..state
    }
}

/// The states that an exception may lead to, in the order of the exception table.
pub open spec fn handler_states(handlers: Seq<ExceptionTableEntry>, state: MachineState) -> Seq<
    MachineState,
>
    decreases handlers.len(),
{
    if handlers.len() == 0 {
        Seq::empty()
    } else {
        let earlier = handler_states(handlers.drop_last(), state);
        if guards(handlers.last(), state.instruction) {
            earlier.push(handling(state, handlers.last()))
        } else {
            earlier
        }
    }
}

/// The first fault of an exception table for code of so many instructions.
pub open spec fn table_fault(handlers: Seq<ExceptionTableEntry>, count: nat) -> Option<Fault>
    decreases handlers.len(),
{
    if handlers.len() == 0 {
        None
    } else {
        match table_fault(handlers.drop_last(), count) {
            Some(fault) => Some(fault),
            None => entry_fault(handlers.last(), count),
        }
    }
}

/// The fault of an entry of the exception table: a range that is empty or does not end within the code,
/// or a handler outside the code.
pub open spec fn entry_fault(entry: ExceptionTableEntry, count: nat) -> Option<Fault> {
    if entry.range_pc.start >= entry.range_pc.end {
        Some(Fault::InvalidInstructionOffset(entry.range_pc.start as u32))
    } else if entry.range_pc.end > count {
        Some(Fault::InvalidInstructionOffset(entry.range_pc.end as u32))
    } else if entry.handler_pc >= count {
        Some(Fault::InvalidInstructionOffset(entry.handler_pc as u32))
    } else {
        None
    }
}

// ---- Steps.
/// The state that an instruction makes of a state, however deep the stack gets. After `jsr` and `ret`
/// it is the next state; after other instructions it only lacks the next instruction.
pub open spec fn outcome_state<'a>(code: Code<'a>, state: MachineState) -> Result<
    MachineState,
    Fault,
> {
    let instruction = code.instructions[state.instruction as int];
    let count = code.instructions.len();
    match (call_target(instruction), return_local(instruction)) {
        (Some(target), _) => match checked(target, count) {
            Ok(target) => called(state, target, count),
            Err(fault) => Err(fault),
        },
        (None, Some(local)) => returned_through(state, local),
        (None, None) => applied(instruction, code.constants, state),
    }
}

/// The state at each of a number of instructions.
pub open spec fn at_each(state: MachineState, targets: Seq<usize>) -> Seq<MachineState> {
    targets.map_values(|target: usize| MachineState { instruction: target, ..state })
}

/// The states that may come after an instruction if it throws no exception.
pub open spec fn continued<'a>(code: Code<'a>, index: usize, after: MachineState) -> Result<
    Seq<MachineState>,
    Fault,
> {
    let instruction = code.instructions[index as int];
    if call_target(instruction) is Some || return_local(instruction) is Some {
        Ok(seq![after])
    } else {
        match exits(instruction, index, code.instructions.len()) {
            Ok(targets) => Ok(at_each(after, targets)),
            Err(fault) => Err(fault),
        }
    }
}

/// What the next instruction makes of a state, or why it cannot be executed.
///
/// An exception may come before the instruction has done anything, so its handlers come first.
pub open spec fn step<'a>(code: Code<'a>, state: MachineState) -> Result<Step, Fault> {
    if state.instruction > u32::MAX {
        Err(Fault::IntegerConversion)
    } else if state.instruction >= code.instructions.len() {
        Err(Fault::InvalidInstructionOffset(state.instruction as u32))
    } else {
        match outcome_state(code, state) {
            Ok(after) => if total_slots(after.stack) > u16::MAX {
                Err(too_deep())
            } else {
                match continued(code, state.instruction, after) {
                    Ok(states) => Ok(
                        Step {
                            stack: after.stack,
                            successors: handler_states(code.handlers, state) + states,
                        },
                    ),
                    Err(fault) => Err(fault),
                }
            },
            Err(fault) => Err(fault),
        }
    }
}

} // verus!
