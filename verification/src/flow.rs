//! Where control goes after an instruction, and the states that wait there.
use vstd::prelude::*;

use crate::arena::{lemma_grown_twice, too_many_stacks, StackArena, StackId};
use crate::collections::switch_values;
use crate::error::{agrees, verification_error, Error, Fault};
use crate::instruction::{ExceptionTableEntry, Instruction};
use crate::locals::{lemma_first_entry_is_local, return_address_local, ReturnAddressLocal};
use crate::machine::{
    at_each, called, checked, condition_target, exits, following, gathered, handler_states,
    handling, in_progress, named_targets, relative, returned, returned_through, switch_targets,
    table_fault, MachineState,
};
use crate::operand::push_value;
use crate::search::{deeper, deepest, with_state, with_states};
use crate::state::FlowState;
use crate::text::{with_number, with_text};
use crate::transfer::invalidate_return_addresses;
use crate::value::{lemma_total_slots_push, total_slots, ReturnAddress, StackValue};
use crate::worklist::Worklist;

verus! {

// ---- Targets.
/// Checks that a target is the index of an instruction.
pub fn checked_target(target: i64, instruction_count: usize) -> (index: Result<usize, Error>)
    ensures
        agrees(index, checked(target as int, instruction_count as nat)),
{
    let target = match usize::try_from(target) {
        Ok(target) => target,
        Err(_) => {
            return Err(Error::TryFromIntError);
        },
    };
    if target >= instruction_count {
        return match u32::try_from(target) {
            Ok(offset) => Err(Error::InvalidInstructionOffset(offset)),
            Err(_) => Err(Error::TryFromIntError),
        };
    }
    Ok(target)
}

/// Finds the instruction at an offset from another. An index or a target that is too large for 64 bits
/// with a sign is not converted.
pub fn relative_target(index: usize, offset: i32, instruction_count: usize) -> (target: Result<
    usize,
    Error,
>)
    ensures
        agrees(target, relative(index, offset, instruction_count as nat)),
{
    let index = match i64::try_from(index) {
        Ok(index) => index,
        Err(_) => {
            return Err(Error::TryFromIntError);
        },
    };
    match index.checked_add(i64::from(offset)) {
        Some(target) => checked_target(target, instruction_count),
        None => Err(Error::TryFromIntError),
    }
}

/// Finds the instruction that follows another.
pub fn next_instruction(index: usize, instruction_count: usize) -> (next: Option<usize>)
    ensures
        next == following(index, instruction_count as nat),
{
    match index.checked_add(1) {
        Some(next) => if next < instruction_count {
            Some(next)
        } else {
            None
        },
        None => None,
    }
}

/// Tells the target of a conditional branch.
fn read_condition_target(instruction: &Instruction) -> (target: Option<u16>)
    ensures
        target == condition_target(*instruction),
{
    match instruction {
        Instruction::Ifeq(target)
        | Instruction::Ifne(target)
        | Instruction::Iflt(target)
        | Instruction::Ifge(target)
        | Instruction::Ifgt(target)
        | Instruction::Ifle(target)
        | Instruction::If_icmpeq(target)
        | Instruction::If_icmpne(target)
        | Instruction::If_icmplt(target)
        | Instruction::If_icmpge(target)
        | Instruction::If_icmpgt(target)
        | Instruction::If_icmple(target)
        | Instruction::If_acmpeq(target)
        | Instruction::If_acmpne(target)
        | Instruction::Ifnull(target)
        | Instruction::Ifnonnull(target) => Some(*target),
        _ => None,
    }
}

// ---- Exception handlers.
/// Checks that the ranges and the handlers of an exception table lie within the code.
pub fn validate_exception_table(
    exception_table: &[ExceptionTableEntry],
    instruction_count: usize,
) -> (result: Result<(), Error>)
    ensures
        match result {
            Ok(_) => table_fault(exception_table@, instruction_count as nat) is None,
            Err(error) => table_fault(exception_table@, instruction_count as nat) == Some(error@),
        },
{
    let mut i: usize = 0;
    while i < exception_table.len()
        invariant
            i <= exception_table.len(),
            table_fault(exception_table@.take(i as int), instruction_count as nat) is None,
        decreases exception_table.len() - i,
    {
        let entry = &exception_table[i];
        let ghost list = exception_table@;
        proof {
            assert(list.take(i + 1).drop_last() =~= list.take(i as int));
            assert(list.take(i + 1).last() == list[i as int]);
            lemma_table_fault_stays(list, i + 1, instruction_count as nat);
        }
        let start = entry.range_pc.start as usize;
        let end = entry.range_pc.end as usize;
        let handler = entry.handler_pc as usize;
        if start >= end {
            return Err(Error::InvalidInstructionOffset(u32::from(entry.range_pc.start)));
        }
        if end > instruction_count {
            return Err(Error::InvalidInstructionOffset(u32::from(entry.range_pc.end)));
        }
        if handler >= instruction_count {
            return Err(Error::InvalidInstructionOffset(u32::from(entry.handler_pc)));
        }
        i += 1;
    }
    assert(exception_table@.take(i as int) =~= exception_table@);
    Ok(())
}

proof fn lemma_table_fault_stays(handlers: Seq<ExceptionTableEntry>, n: int, count: nat)
    requires
        0 <= n <= handlers.len(),
    ensures
        table_fault(handlers.take(n), count) matches Some(fault) ==> table_fault(handlers, count)
            == Some(fault),
    decreases handlers.len(),
{
    if n < handlers.len() {
        assert(handlers.drop_last().take(n) =~= handlers.take(n));
        lemma_table_fault_stays(handlers.drop_last(), n, count);
    } else {
        assert(handlers.take(n) =~= handlers);
    }
}

/// Adds the states at the start of the exception handlers that guard the instruction of a state.
pub fn enqueue_exception_handlers(
    worklist: &mut Worklist,
    stacks: &mut StackArena,
    state: &FlowState,
    exception_table: &[ExceptionTableEntry],
) -> (result: Result<(), Error>)
    requires
        old(stacks).inv(),
        old(worklist).inv(&*old(stacks)),
        state.valid(&*old(stacks)),
    ensures
        final(stacks).inv(),
        final(stacks).grown(&*old(stacks), seq![StackValue::Category1]),
        final(worklist).inv(&*final(stacks)),
        final(worklist).looked_at() == old(worklist).looked_at(),
        handler_states(exception_table@, state.machine(&*old(stacks))).len() == 0
            ==> *final(stacks) == *old(stacks),
        match result {
            Ok(_) => {
                let states = handler_states(exception_table@, state.machine(&*old(stacks)));
                &&& states.len() > 0 ==> final(stacks).has(seq![StackValue::Category1])
                &&& final(worklist).found(&*final(stacks)) == with_states(
                    old(worklist).found(&*old(stacks)),
                    states,
                )
                &&& final(worklist).depth() == deeper(old(worklist).depth(), deepest(states))
            },
            Err(error) => {
                &&& error@ == too_many_stacks()
                &&& final(stacks).size() == usize::MAX
                &&& handler_states(exception_table@, state.machine(&*old(stacks))).len() > 0
                &&& !final(stacks).has(seq![StackValue::Category1])
                &&& *final(stacks) == *old(stacks)
                &&& *final(worklist) == *old(worklist)
            },
        },
{
    let ghost first = *stacks;
    let ghost machine = state.machine(&first);
    let ghost known = worklist.found(&first);
    let ghost single = seq![StackValue::Category1];
    proof {
        assert(total_slots(single) == 1) by {
            reveal_with_fuel(total_slots, 2);
        }
    }
    let mut i: usize = 0;
    while i < exception_table.len()
        invariant
            i <= exception_table.len(),
            first == *old(stacks),
            state.valid(&first),
            machine == state.machine(&first),
            known == old(worklist).found(&first),
            single == seq![StackValue::Category1],
            total_slots(single) == 1,
            stacks.inv(),
            stacks.grown(&first, single),
            worklist.inv(stacks),
            worklist.looked_at() == old(worklist).looked_at(),
            if handler_states(exception_table@.take(i as int), machine).len() == 0 {
                *stacks == first && *worklist == *old(worklist)
            } else {
                stacks.has(single)
            },
            worklist.found(stacks) == with_states(
                known,
                handler_states(exception_table@.take(i as int), machine),
            ),
            worklist.depth() == deeper(
                old(worklist).depth(),
                deepest(handler_states(exception_table@.take(i as int), machine)),
            ),
        decreases exception_table.len() - i,
    {
        let entry = &exception_table[i];
        let ghost list = exception_table@;
        let ghost earlier = handler_states(list.take(i as int), machine);
        proof {
            assert(list.take(i + 1).drop_last() =~= list.take(i as int));
            assert(list.take(i + 1).last() == list[i as int]);
        }
        let start = entry.range_pc.start as usize;
        let end = entry.range_pc.end as usize;
        if start <= state.instruction && state.instruction < end {
            let ghost before = *stacks;
            let mut handler_state = state.clone();
            handler_state.instruction = entry.handler_pc as usize;
            let ghost target = handling(machine, *entry);
            proof {
                stacks.lemma_empty();
                assert(stacks.values(StackId::empty()).push(StackValue::Category1) =~= single);
                assert(state.machine(&before) == machine) by {
                    assert(before.values(state.stack) == first.values(state.stack));
                }
            }
            let pushed = stacks.push(StackId::empty(), StackValue::Category1);
            proof {
                lemma_grown_twice(&first, &before, stacks, single, single);
                worklist.lemma_grown(&before, stacks, single);
                lemma_total_slots_push(
                    before.values(StackId::empty()),
                    StackValue::Category1,
                );
                lemma_handler_states_stay(list, i + 1, machine);
            }
            handler_state.stack = match pushed {
                Ok(stack) => stack,
                Err(error) => {
                    return Err(error);
                },
            };
            assert(handler_state.machine(stacks) =~= target);
            match worklist.enqueue(handler_state, stacks) {
                Ok(_) => {},
                Err(error) => {
                    return Err(error);
                },
            }
            assert(earlier.push(target).drop_last() =~= earlier);
        }
        i += 1;
    }
    assert(exception_table@.take(i as int) =~= exception_table@);
    Ok(())
}

proof fn lemma_handler_states_stay(
    handlers: Seq<ExceptionTableEntry>,
    n: int,
    machine: MachineState,
)
    requires
        0 <= n <= handlers.len(),
    ensures
        handler_states(handlers.take(n), machine).is_prefix_of(handler_states(handlers, machine)),
    decreases handlers.len(),
{
    if n < handlers.len() {
        assert(handlers.drop_last().take(n) =~= handlers.take(n));
        lemma_handler_states_stay(handlers.drop_last(), n, machine);
    } else {
        assert(handlers.take(n) =~= handlers);
    }
}

// ---- Successors of instructions other than `jsr` and `ret`.
proof fn lemma_gathered_stays(targets: Seq<Result<usize, Fault>>, n: int)
    requires
        0 <= n <= targets.len(),
    ensures
        gathered(targets.take(n)) matches Err(fault) ==> gathered(targets) == Err::<
            Seq<usize>,
            Fault,
        >(fault),
    decreases targets.len(),
{
    if n < targets.len() {
        assert(targets.drop_last().take(n) =~= targets.take(n));
        lemma_gathered_stays(targets.drop_last(), n);
    } else {
        assert(targets.take(n) =~= targets);
    }
}

proof fn lemma_gathered_next(targets: Seq<Result<usize, Fault>>, n: int)
    requires
        0 <= n < targets.len(),
    ensures
        gathered(targets.take(n + 1)) == (match (gathered(targets.take(n)), targets[n]) {
            (Ok(earlier), Ok(target)) => Ok(earlier.push(target)),
            (Ok(_), Err(fault)) => Err(fault),
            (Err(fault), _) => Err(fault),
        }),
{
    assert(targets.take(n + 1).drop_last() =~= targets.take(n));
}

/// The targets before the first that is a fault.
pub open spec fn sound_targets(targets: Seq<Result<usize, Fault>>) -> Seq<usize>
    decreases targets.len(),
{
    if targets.len() == 0 {
        Seq::empty()
    } else {
        match (gathered(targets.drop_last()), targets.last()) {
            (Ok(earlier), Ok(target)) => earlier.push(target),
            (Ok(earlier), Err(_)) => earlier,
            (Err(_), _) => sound_targets(targets.drop_last()),
        }
    }
}

proof fn lemma_sound_targets(targets: Seq<Result<usize, Fault>>, n: int)
    requires
        0 <= n < targets.len(),
        gathered(targets.take(n)) is Ok,
        targets[n] is Err,
    ensures
        sound_targets(targets) == gathered(targets.take(n))->Ok_0,
    decreases targets.len(),
{
    let earlier = targets.drop_last();
    if n < earlier.len() {
        assert(earlier.take(n) =~= targets.take(n));
        lemma_sound_targets(earlier, n);
        lemma_gathered_next(targets, n);
        assert(earlier.take(n + 1) =~= targets.take(n + 1));
        lemma_gathered_stays(earlier, n + 1);
    } else {
        assert(earlier =~= targets.take(n));
    }
}

/// The targets before the first fault are all there, in order, and no others; without a fault they are all
/// targets.
pub proof fn lemma_targets_before_fault(targets: Seq<Result<usize, Fault>>, n: int)
    requires
        0 <= n <= targets.len(),
        forall|i: int| 0 <= i < n ==> #[trigger] targets[i] is Ok,
        n < targets.len() ==> targets[n] is Err,
    ensures
        sound_targets(targets).len() == n,
        forall|i: int| 0 <= i < n ==> #[trigger] targets[i] == Ok::<usize, Fault>(
            sound_targets(targets)[i],
        ),
{
    let first = targets.take(n);
    assert forall|i: int| 0 <= i < n implies #[trigger] first[i] is Ok by {
        assert(targets[i] is Ok);
    }
    lemma_all_gathered(first);
    assert forall|i: int| 0 <= i < n implies #[trigger] targets[i] == Ok::<usize, Fault>(
        gathered(first)->Ok_0[i],
    ) by {
        assert(first[i] == targets[i]);
    }
    if n < targets.len() {
        lemma_sound_targets(targets, n);
    } else {
        assert(first =~= targets);
        if n > 0 {
            let earlier = targets.drop_last();
            assert forall|i: int| 0 <= i < earlier.len() implies #[trigger] earlier[i] is Ok by {
                assert(targets[i] is Ok);
            }
            lemma_all_gathered(earlier);
        }
    }
}

proof fn lemma_all_gathered(targets: Seq<Result<usize, Fault>>)
    requires
        forall|i: int| 0 <= i < targets.len() ==> #[trigger] targets[i] is Ok,
    ensures
        gathered(targets) is Ok,
        gathered(targets)->Ok_0.len() == targets.len(),
        forall|i: int| 0 <= i < targets.len() ==> #[trigger] targets[i] == Ok::<usize, Fault>(
            gathered(targets)->Ok_0[i],
        ),
    decreases targets.len(),
{
    if targets.len() > 0 {
        let earlier = targets.drop_last();
        assert forall|i: int| 0 <= i < earlier.len() implies #[trigger] earlier[i] is Ok by {
            assert(targets[i] is Ok);
        }
        lemma_all_gathered(earlier);
        assert(targets[targets.len() - 1] is Ok);
        assert forall|i: int| 0 <= i < targets.len() implies #[trigger] targets[i] == Ok::<
            usize,
            Fault,
        >(gathered(targets)->Ok_0[i]) by {
            if i < earlier.len() {
                assert(earlier[i] == targets[i]);
            }
        }
    }
}

/// The list of states has grown by the states at some instructions.
pub open spec fn spread(
    before: &Worklist,
    after: &Worklist,
    stacks: &StackArena,
    machine: MachineState,
    targets: Seq<usize>,
) -> bool {
    &&& after.inv(stacks)
    &&& after.looked_at() == before.looked_at()
    &&& after.found(stacks) == with_states(before.found(stacks), at_each(machine, targets))
    &&& after.depth() == deeper(before.depth(), deepest(at_each(machine, targets)))
}

/// Adds the state at one more instruction.
fn enqueue_target(
    worklist: &mut Worklist,
    stacks: &StackArena,
    state: &FlowState,
    target: usize,
) -> (result: Result<(), Error>)
    requires
        stacks.inv(),
        old(worklist).inv(stacks),
        state.valid(stacks),
    ensures
        result is Ok,
        forall|before: &Worklist, targets: Seq<usize>| #[trigger]
            spread(before, &*old(worklist), stacks, state.machine(stacks), targets) ==> spread(
                before,
                &*final(worklist),
                stacks,
                state.machine(stacks),
                targets.push(target),
            ),
{
    let mut successor = state.clone();
    successor.instruction = target;
    let ghost machine = state.machine(stacks);
    let result = worklist.enqueue(successor, stacks);
    proof {
        assert forall|before: &Worklist, targets: Seq<usize>| #[trigger]
            spread(before, &*old(worklist), stacks, machine, targets) implies spread(
            before,
            &*worklist,
            stacks,
            machine,
            targets.push(target),
        ) by {
            let more = at_each(machine, targets.push(target));
            assert(more.drop_last() =~= at_each(machine, targets));
            assert(more.last() =~= successor.machine(stacks));
        }
    }
    result
}

/// Adds the states at the targets of a switch, the default first, until one is a fault.
pub fn enqueue_switch(
    worklist: &mut Worklist,
    stacks: &StackArena,
    state: &FlowState,
    default: i32,
    offsets: &[i32],
    instruction_count: usize,
) -> (result: Result<(), Error>)
    requires
        stacks.inv(),
        old(worklist).inv(stacks),
        state.valid(stacks),
    ensures
        final(worklist).inv(stacks),
        match (
            result,
            gathered(
                switch_targets(state.instruction, default, offsets@, instruction_count as nat),
            ),
        ) {
            (Ok(_), Ok(targets)) => spread(
                &*old(worklist),
                &*final(worklist),
                stacks,
                state.machine(stacks),
                targets,
            ),
            (Err(error), Err(fault)) => error@ == fault && spread(
                &*old(worklist),
                &*final(worklist),
                stacks,
                state.machine(stacks),
                sound_targets(
                    switch_targets(state.instruction, default, offsets@, instruction_count as nat),
                ),
            ),
            _ => false,
        },
{
    let ghost index = state.instruction;
    let ghost machine = state.machine(stacks);
    let ghost all = switch_targets(index, default, offsets@, instruction_count as nat);
    let ghost mut done: Seq<usize> = Seq::empty();
    proof {
        assert(all.take(0) =~= Seq::empty());
        lemma_gathered_next(all, 0);
        lemma_gathered_stays(all, 1);
        if all[0] is Err {
            lemma_sound_targets(all, 0);
        }
        assert(at_each(machine, done) =~= Seq::empty());
        assert(spread(&*old(worklist), &*worklist, stacks, machine, done));
    }
    let target = match relative_target(state.instruction, default, instruction_count) {
        Ok(target) => target,
        Err(error) => {
            return Err(error);
        },
    };
    match enqueue_target(worklist, stacks, state, target) {
        Ok(_) => {},
        Err(error) => {
            return Err(error);
        },
    }
    proof {
        done = done.push(target);
    }
    let mut i: usize = 0;
    while i < offsets.len()
        invariant
            i <= offsets.len(),
            stacks.inv(),
            state.valid(stacks),
            index == state.instruction,
            machine == state.machine(stacks),
            all == switch_targets(index, default, offsets@, instruction_count as nat),
            gathered(all.take(i + 1)) == Ok::<Seq<usize>, Fault>(done),
            spread(&*old(worklist), &*worklist, stacks, machine, done),
        decreases offsets.len() - i,
    {
        proof {
            lemma_gathered_next(all, i + 1);
            lemma_gathered_stays(all, i + 2);
            if all[i + 1] is Err {
                lemma_sound_targets(all, i + 1);
            }
            assert(all[i + 1] == relative(index, offsets@[i as int], instruction_count as nat));
        }
        let target = match relative_target(state.instruction, offsets[i], instruction_count) {
            Ok(target) => target,
            Err(error) => {
                return Err(error);
            },
        };
        match enqueue_target(worklist, stacks, state, target) {
            Ok(_) => {},
            Err(error) => {
                return Err(error);
            },
        }
        proof {
            done = done.push(target);
        }
        i += 1;
    }
    assert(all.take(i + 1) =~= all);
    Ok(())
}

/// Adds the states at the instructions that may come after an instruction other than `jsr` and `ret`,
/// until a target is a fault.
pub fn enqueue_normal_successors(
    worklist: &mut Worklist,
    stacks: &StackArena,
    state: &FlowState,
    instruction: &Instruction,
    instruction_count: usize,
) -> (result: Result<(), Error>)
    requires
        stacks.inv(),
        old(worklist).inv(stacks),
        state.valid(stacks),
    ensures
        final(worklist).inv(stacks),
        final(worklist).looked_at() == old(worklist).looked_at(),
        match (result, exits(*instruction, state.instruction, instruction_count as nat)) {
            (Ok(_), Ok(targets)) => spread(
                &*old(worklist),
                &*final(worklist),
                stacks,
                state.machine(stacks),
                targets,
            ),
            (Err(error), Err(fault)) => error@ == fault && spread(
                &*old(worklist),
                &*final(worklist),
                stacks,
                state.machine(stacks),
                sound_targets(
                    named_targets(*instruction, state.instruction, instruction_count as nat),
                ),
            ),
            _ => false,
        },
{
    let ghost machine = state.machine(stacks);
    let ghost count = instruction_count as nat;
    let ghost all = named_targets(*instruction, state.instruction, count);
    let ghost mut done: Seq<usize> = Seq::empty();
    proof {
        assert(at_each(machine, done) =~= Seq::empty());
        assert(spread(&*old(worklist), &*worklist, stacks, machine, done));
        assert(all.take(0) =~= Seq::empty());
        if all.len() > 0 {
            lemma_gathered_next(all, 0);
            lemma_gathered_stays(all, 1);
            if all[0] is Err {
                lemma_sound_targets(all, 0);
            }
        } else {
            assert(gathered(all) == Ok::<Seq<usize>, Fault>(done));
        }
        if all.len() == 1 {
            assert(all.take(1) =~= all);
        }
    }
    match instruction {
        Instruction::Goto(target) => {
            let target = match checked_target(*target as i64, instruction_count) {
                Ok(target) => target,
                Err(error) => {
                    return Err(error);
                },
            };
            return enqueue_target(worklist, stacks, state, target);
        },
        Instruction::Goto_w(target) => {
            let target = match checked_target(*target as i64, instruction_count) {
                Ok(target) => target,
                Err(error) => {
                    return Err(error);
                },
            };
            return enqueue_target(worklist, stacks, state, target);
        },
        Instruction::Tableswitch(table) => {
            return enqueue_switch(
                worklist,
                stacks,
                state,
                table.default,
                table.offsets.as_slice(),
                instruction_count,
            );
        },
        Instruction::Lookupswitch(lookup) => {
            let offsets = switch_values(&lookup.pairs);
            return enqueue_switch(
                worklist,
                stacks,
                state,
                lookup.default,
                offsets.as_slice(),
                instruction_count,
            );
        },
        Instruction::Ireturn
        | Instruction::Lreturn
        | Instruction::Freturn
        | Instruction::Dreturn
        | Instruction::Areturn
        | Instruction::Return
        | Instruction::Athrow
        | Instruction::Ret(..)
        | Instruction::Ret_w(..)
        | Instruction::Jsr(..)
        | Instruction::Jsr_w(..) => {
            return Ok(());
        },
        _ => {},
    }
    if let Some(target) = read_condition_target(instruction) {
        let target = match checked_target(target as i64, instruction_count) {
            Ok(target) => target,
            Err(error) => {
                return Err(error);
            },
        };
        match enqueue_target(worklist, stacks, state, target) {
            Ok(_) => {},
            Err(error) => {
                return Err(error);
            },
        }
        proof {
            done = done.push(target);
        }
    }
    if let Some(next) = next_instruction(state.instruction, instruction_count) {
        return enqueue_target(worklist, stacks, state, next);
    }
    Ok(())
}

// ---- Subroutines.
/// Adding one state to the list came out as it should.
///
/// The state is given without regard to the depth of its stack, or a fault is given, and then nothing
/// changes. If it is a state, it is added unless the arena refuses its stack.
pub open spec fn advances(
    stacks_before: &StackArena,
    stacks_after: &StackArena,
    before: &Worklist,
    after: &Worklist,
    expected: Result<MachineState, Fault>,
    result: Result<(), Error>,
) -> bool {
    &&& stacks_after.inv()
    &&& after.inv(stacks_after)
    &&& after.looked_at() == before.looked_at()
    &&& match expected {
        Ok(machine) => {
            &&& stacks_after.grown(stacks_before, machine.stack)
            &&& match result {
                Ok(_) => {
                    &&& total_slots(machine.stack) <= u16::MAX
                    &&& stacks_after.has(machine.stack)
                    &&& after.found(stacks_after) == with_state(
                        before.found(stacks_before),
                        machine,
                    )
                    &&& after.depth() == deeper(before.depth(), total_slots(machine.stack))
                },
                Err(error) => {
                    &&& *after == *before
                    &&& stacks_after.refuses(machine.stack, error@)
                },
            }
        },
        Err(fault) => {
            &&& *stacks_after == *stacks_before
            &&& *after == *before
            &&& result matches Err(error)
            &&& error@ == fault
        },
    }
}

/// Tells whether a subroutine is among those that have not returned.
fn is_in_progress(subroutines: &[ReturnAddress], target: usize) -> (found: bool)
    ensures
        found == in_progress(subroutines@, target),
{
    let mut i: usize = 0;
    while i < subroutines.len()
        invariant
            i <= subroutines.len(),
            forall|j: int| 0 <= j < i ==> (#[trigger] subroutines@[j]).target != target,
        decreases subroutines.len() - i,
    {
        if subroutines[i].target == target {
            return true;
        }
        i += 1;
    }
    false
}

/// Adds the state at the start of a subroutine that a `jsr` calls.
pub fn enqueue_jsr(
    worklist: &mut Worklist,
    stacks: &mut StackArena,
    mut state: FlowState,
    target: usize,
    instruction_count: usize,
) -> (result: Result<(), Error>)
    requires
        old(stacks).inv(),
        old(worklist).inv(&*old(stacks)),
        state.valid(&*old(stacks)),
    ensures
        advances(
            &*old(stacks),
            &*final(stacks),
            &*old(worklist),
            &*final(worklist),
            called(state.machine(&*old(stacks)), target, instruction_count as nat),
            result,
        ),
{
    let ghost before = *stacks;
    let ghost machine = state.machine(&before);
    let continuation = match next_instruction(state.instruction, instruction_count) {
        Some(continuation) => continuation,
        None => {
            let text = with_number("jsr at instruction ".to_owned(), state.instruction);
            return Err(verification_error(with_text(text, " has no continuation")));
        },
    };
    if is_in_progress(&state.subroutines, target) {
        let text = "recursive jsr subroutine call to instruction ".to_owned();
        return Err(verification_error(with_number(text, target)));
    }
    let address = ReturnAddress { call_site: state.instruction, target, continuation };
    let pushed = push_value(stacks, &mut state.stack, StackValue::ReturnAddress(address));
    proof {
        worklist.lemma_grown(
            &before,
            stacks,
            machine.stack.push(StackValue::ReturnAddress(address)),
        );
    }
    match pushed {
        Ok(_) => {},
        Err(error) => {
            return Err(error);
        },
    }
    state.subroutines.push(address);
    state.instruction = target;
    worklist.enqueue(state, stacks)
}

/// Finds the place of an address in a list.
fn position_of(list: &[ReturnAddress], address: ReturnAddress) -> (place: Option<usize>)
    ensures
        match place {
            Some(place) => list@.index_of_first(address) == Some(place as int) && place
                < list@.len(),
            None => list@.index_of_first(address) is None,
        },
{
    let mut i: usize = 0;
    proof {
        list@.index_of_first_ensures(address);
    }
    while i < list.len()
        invariant
            i <= list.len(),
            forall|j: int| 0 <= j < i ==> list@[j] != address,
        decreases list.len() - i,
    {
        if list[i] == address {
            proof {
                list@.index_of_first_ensures(address);
            }
            return Some(i);
        }
        i += 1;
    }
    None
}

/// Adds the state after a `ret` with a local variable.
pub fn enqueue_ret(
    worklist: &mut Worklist,
    stacks: &mut StackArena,
    mut state: FlowState,
    local_index: u16,
) -> (result: Result<(), Error>)
    requires
        old(stacks).inv(),
        old(worklist).inv(&*old(stacks)),
        state.valid(&*old(stacks)),
    ensures
        advances(
            &*old(stacks),
            &*final(stacks),
            &*old(worklist),
            &*final(worklist),
            returned_through(state.machine(&*old(stacks)), local_index),
            result,
        ),
{
    let ghost before = *stacks;
    let ghost machine = state.machine(&before);
    proof {
        lemma_first_entry_is_local(state.return_address_locals@, local_index);
    }
    let address = match return_address_local(&state.return_address_locals, local_index) {
        Some(ReturnAddressLocal::Active(address)) => address,
        Some(ReturnAddressLocal::Invalid) => {
            let text = with_number("ret at instruction ".to_owned(), state.instruction);
            let text = with_text(text, " reuses an inactive returnAddress from local ");
            return Err(verification_error(with_number(text, local_index as usize)));
        },
        None => {
            let text = with_number("ret at instruction ".to_owned(), state.instruction);
            let text = with_text(text, " reads local ");
            let text = with_number(text, local_index as usize);
            return Err(verification_error(with_text(text, " without a returnAddress")));
        },
    };
    proof {
        machine.subroutines.index_of_first_ensures(address);
    }
    let frame_index = match position_of(&state.subroutines, address) {
        Some(frame_index) => frame_index,
        None => {
            let text = with_number("ret at instruction ".to_owned(), state.instruction);
            return Err(
                verification_error(with_text(text, " targets an inactive jsr return address")),
            );
        },
    };
    let ghost expected = returned(machine, frame_index as int);
    let inactive = state.subroutines.split_off(frame_index);
    assert(inactive@ =~= machine.subroutines.skip(frame_index as int));
    assert(state.subroutines@ =~= machine.subroutines.take(frame_index as int));
    let invalidated = invalidate_return_addresses(&mut state, inactive.as_slice(), stacks);
    proof {
        worklist.lemma_grown(&before, stacks, expected.stack);
    }
    match invalidated {
        Ok(_) => {},
        Err(error) => {
            return Err(error);
        },
    }
    state.instruction = address.continuation;
    assert(state.machine(stacks) =~= expected);
    worklist.enqueue(state, stacks)
}

} // verus!
