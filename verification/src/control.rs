//! Where control goes after each instruction, opcode by opcode.
use vstd::prelude::*;

use crate::arena::{invalidated, lemma_invalidated_slots, too_deep};
use crate::collections::entry_values;
use crate::confinement::lemma_reachable_next;
use crate::error::Fault;
use crate::instruction::{ExceptionTableEntry, Instruction};
use crate::locals::ReturnAddressLocal;
use crate::machine::{
    address_reused, at_each, branch_target, call_not_active, call_target, condition_target, continued,
    exits, gathered, guards, handler_states, in_progress, leaves, named_targets,
    no_address, no_continuation, outcome_state, recursive_call, relative, return_local, step,
    switch_targets, Code, MachineState, Step,
};
use crate::opcodes::instruction_at;
use crate::search::{may_follow, reachable};
use crate::value::{lemma_total_slots_push, total_slots, ReturnAddress, StackValue};

verus! {

/// The instruction of a state can be executed, and this is the state then, but for the next instruction.
pub open spec fn executes<'a>(code: Code<'a>, state: MachineState, after: MachineState) -> bool {
    &&& code.instructions.len() <= usize::MAX
    &&& state.instruction < code.instructions.len()
    &&& state.instruction <= 0xffff_ffff
    &&& outcome_state(code, state) == Ok::<MachineState, Fault>(after)
    &&& total_slots(after.stack) <= 65535
}

/// A state moved to an instruction.
pub open spec fn arrives(after: MachineState, index: int) -> MachineState {
    MachineState {
        instruction: index as usize,
        stack: after.stack,
        locals: after.locals,
        subroutines: after.subroutines,
    }
}

/// The states at the exception handlers whose range has the instruction of a state, in the order of the
/// table: the thrown object is alone on the stack, the rest is as before the instruction.
pub open spec fn thrown<'a>(code: Code<'a>, state: MachineState) -> Seq<MachineState> {
    code.handlers.filter(
        |entry: ExceptionTableEntry|
            entry.range_pc.start <= state.instruction && state.instruction < entry.range_pc.end,
    ).map_values(
        |entry: ExceptionTableEntry|
            MachineState {
                instruction: entry.handler_pc as usize,
                stack: seq![StackValue::Category1],
                locals: state.locals,
                subroutines: state.subroutines,
            },
    )
}

/// From a state control goes to the exception handlers and then to these states, in this order, and
/// nowhere else.
pub open spec fn leads<'a>(
    code: Code<'a>,
    state: MachineState,
    after: MachineState,
    next: Seq<MachineState>,
) -> bool {
    step(code, state) == Ok::<Step, Fault>(
        Step { stack: after.stack, successors: thrown(code, state) + next },
    )
}

/// From a state control goes nowhere, for a fault.
pub open spec fn stops<'a>(code: Code<'a>, state: MachineState, fault: Fault) -> bool {
    step(code, state) == Err::<Step, Fault>(fault)
}

/// The state at the next instruction, if there is one.
pub open spec fn onward<'a>(code: Code<'a>, state: MachineState, after: MachineState) -> Seq<
    MachineState,
> {
    if state.instruction + 1 < code.instructions.len() {
        seq![arrives(after, state.instruction + 1)]
    } else {
        Seq::empty()
    }
}

/// A target is an instruction.
pub open spec fn inside<'a>(code: Code<'a>, target: int) -> bool {
    0 <= target && target < code.instructions.len()
}

/// The fault of a target that is no instruction.
pub open spec fn outside(target: int) -> Fault {
    if target < 0 || target > 0xffff_ffff {
        Fault::IntegerConversion
    } else {
        Fault::InvalidInstructionOffset(target as u32)
    }
}

proof fn lemma_thrown(handlers: Seq<ExceptionTableEntry>, state: MachineState)
    ensures
        handler_states(handlers, state) == handlers.filter(
            |entry: ExceptionTableEntry|
                entry.range_pc.start <= state.instruction && state.instruction
                    < entry.range_pc.end,
        ).map_values(
            |entry: ExceptionTableEntry|
                MachineState {
                    instruction: entry.handler_pc as usize,
                    stack: seq![StackValue::Category1],
                    locals: state.locals,
                    subroutines: state.subroutines,
                },
        ),
    decreases handlers.len(),
{
    reveal(Seq::filter);
    let all = handler_states(handlers, state);
    let inside = |entry: ExceptionTableEntry|
        entry.range_pc.start <= state.instruction && state.instruction < entry.range_pc.end;
    let start = |entry: ExceptionTableEntry|
        MachineState {
            instruction: entry.handler_pc as usize,
            stack: seq![StackValue::Category1],
            locals: state.locals,
            subroutines: state.subroutines,
        };
    if handlers.len() > 0 {
        lemma_thrown(handlers.drop_last(), state);
        let earlier = handlers.drop_last().filter(inside);
        if guards(handlers.last(), state.instruction) {
            assert(handlers.filter(inside) == earlier.push(handlers.last()));
            assert(earlier.push(handlers.last()).map_values(start) =~= earlier.map_values(
                start,
            ).push(start(handlers.last())));
        } else {
            assert(handlers.filter(inside) == earlier);
        }
    }
    assert(all =~= handlers.filter(inside).map_values(start));
}

/// Where an instruction is executed, the handlers come before what the instruction leads to.
proof fn lemma_leads<'a>(
    code: Code<'a>,
    state: MachineState,
    after: MachineState,
    next: Seq<MachineState>,
)
    requires
        executes(code, state, after),
        continued(code, state.instruction, after) == Ok::<Seq<MachineState>, Fault>(next),
    ensures
        leads(code, state, after, next),
{
    lemma_thrown(code.handlers, state);
}

// ---- Faults that come before any target.
/// An instruction that cannot be executed is reported: an index that is no instruction, a fault of the
/// instruction, a stack of more than 65535 slots.
pub proof fn lemma_not_executed<'a>(code: Code<'a>, state: MachineState)
    ensures
        state.instruction > 0xffff_ffff ==> stops(code, state, Fault::IntegerConversion),
        state.instruction <= 0xffff_ffff && state.instruction >= code.instructions.len() ==> stops(
            code,
            state,
            Fault::InvalidInstructionOffset(state.instruction as u32),
        ),
        state.instruction <= 0xffff_ffff && state.instruction < code.instructions.len() ==> match
            outcome_state(code, state) {
            Err(fault) => stops(code, state, fault),
            Ok(after) => total_slots(after.stack) > 65535 ==> stops(code, state, too_deep()),
        },
{
}

/// An instruction that leads somewhere was executed.
pub proof fn lemma_executed<'a>(code: Code<'a>, state: MachineState)
    requires
        code.instructions.len() <= usize::MAX,
        step(code, state) is Ok,
    ensures
        outcome_state(code, state) is Ok,
        executes(code, state, outcome_state(code, state)->Ok_0),
        step(code, state)->Ok_0.stack == outcome_state(code, state)->Ok_0.stack,
{
}

// ---- Branches.
/// A conditional branch with this target leads to it, and to the next instruction if there is one. A target
/// that is no instruction is reported.
pub open spec fn branches<'a>(
    code: Code<'a>,
    state: MachineState,
    after: MachineState,
    target: u16,
) -> bool {
    if target < code.instructions.len() {
        leads(
            code,
            state,
            after,
            seq![arrives(after, target as int)] + onward(code, state, after),
        )
    } else {
        stops(code, state, Fault::InvalidInstructionOffset(target as u32))
    }
}

proof fn lemma_branches<'a>(
    code: Code<'a>,
    state: MachineState,
    after: MachineState,
    target: u16,
)
    requires
        executes(code, state, after),
        call_target(instruction_at(code, state)) is None,
        return_local(instruction_at(code, state)) is None,
        condition_target(instruction_at(code, state)) == Some(target),
        branch_target(instruction_at(code, state)) == Some(target as int),
        !leaves(instruction_at(code, state)),
    ensures
        branches(code, state, after, target),
{
    let instruction = instruction_at(code, state);
    let count = code.instructions.len();
    let targets = named_targets(instruction, state.instruction, count);
    reveal_with_fuel(gathered, 2);
    assert(targets.drop_last() =~= Seq::empty());
    if target < count {
        assert(gathered(targets)->Ok_0 =~= seq![target as usize]);
        let list = exits(instruction, state.instruction, count)->Ok_0;
        let next = seq![arrives(after, target as int)] + onward(code, state, after);
        assert(at_each(after, list) =~= next);
        lemma_leads(code, state, after, next);
    }
}

/// The conditional branches.
pub proof fn lemma_conditions<'a>(code: Code<'a>, state: MachineState, after: MachineState)
    requires
        executes(code, state, after),
    ensures
        match instruction_at(code, state) {
            Instruction::Ifeq(t)
            | Instruction::Ifne(t)
            | Instruction::Iflt(t)
            | Instruction::Ifge(t)
            | Instruction::Ifgt(t)
            | Instruction::Ifle(t)
            | Instruction::If_icmpeq(t)
            | Instruction::If_icmpne(t)
            | Instruction::If_icmplt(t)
            | Instruction::If_icmpge(t)
            | Instruction::If_icmpgt(t)
            | Instruction::If_icmple(t)
            | Instruction::If_acmpeq(t)
            | Instruction::If_acmpne(t)
            | Instruction::Ifnull(t)
            | Instruction::Ifnonnull(t) => branches(code, state, after, t),
            _ => true,
        },
{
    match instruction_at(code, state) {
        Instruction::Ifeq(t)
        | Instruction::Ifne(t)
        | Instruction::Iflt(t)
        | Instruction::Ifge(t)
        | Instruction::Ifgt(t)
        | Instruction::Ifle(t)
        | Instruction::If_icmpeq(t)
        | Instruction::If_icmpne(t)
        | Instruction::If_icmplt(t)
        | Instruction::If_icmpge(t)
        | Instruction::If_icmpgt(t)
        | Instruction::If_icmple(t)
        | Instruction::If_acmpeq(t)
        | Instruction::If_acmpne(t)
        | Instruction::Ifnull(t)
        | Instruction::Ifnonnull(t) => lemma_branches(code, state, after, t),
        _ => {},
    }
}

/// A jump leads to its target and nowhere else. A target that is no instruction is reported.
pub open spec fn jumps<'a>(
    code: Code<'a>,
    state: MachineState,
    after: MachineState,
    target: int,
) -> bool {
    if inside(code, target) {
        leads(code, state, after, seq![arrives(after, target)])
    } else {
        stops(code, state, outside(target))
    }
}

/// `goto` and `goto_w` are jumps.
pub proof fn lemma_goto<'a>(code: Code<'a>, state: MachineState, after: MachineState)
    requires
        executes(code, state, after),
    ensures
        match instruction_at(code, state) {
            Instruction::Goto(t) => jumps(code, state, after, t as int),
            Instruction::Goto_w(t) => jumps(code, state, after, t as int),
            _ => true,
        },
{
    let instruction = instruction_at(code, state);
    let count = code.instructions.len();
    if instruction is Goto || instruction is Goto_w {
        let target = branch_target(instruction)->Some_0;
        let targets = named_targets(instruction, state.instruction, count);
        reveal_with_fuel(gathered, 2);
        assert(targets.drop_last() =~= Seq::empty());
        if inside(code, target) {
            assert(gathered(targets)->Ok_0 =~= seq![target as usize]);
            let list = exits(instruction, state.instruction, count)->Ok_0;
            let next = seq![arrives(after, target)];
            assert(at_each(after, list) =~= next);
            lemma_leads(code, state, after, next);
        }
    }
}

// ---- Switches.
/// The instruction of a state is a switch with this default and these cases, as offsets from itself.
pub open spec fn switches<'a>(
    code: Code<'a>,
    state: MachineState,
    default: i32,
    cases: Seq<i32>,
) -> bool {
    match instruction_at(code, state) {
        Instruction::Tableswitch(table) => table.default == default && table.offsets@ == cases,
        Instruction::Lookupswitch(lookup) => lookup.default == default && entry_values(lookup.pairs)
            == cases,
        _ => false,
    }
}

proof fn lemma_gathered_all(targets: Seq<Result<usize, Fault>>, list: Seq<usize>)
    requires
        targets.len() == list.len(),
        forall|i: int|
            0 <= i < list.len() ==> #[trigger] targets[i] == Ok::<usize, Fault>(list[i]),
    ensures
        gathered(targets) == Ok::<Seq<usize>, Fault>(list),
    decreases targets.len(),
{
    if targets.len() > 0 {
        assert forall|i: int| 0 <= i < list.len() - 1 implies #[trigger] targets.drop_last()[i]
            == Ok::<usize, Fault>(list.drop_last()[i]) by {
            assert(targets[i] == Ok::<usize, Fault>(list[i]));
        }
        lemma_gathered_all(targets.drop_last(), list.drop_last());
        assert(targets[targets.len() - 1] == Ok::<usize, Fault>(list[list.len() - 1]));
        assert(list.drop_last().push(list.last()) =~= list);
    } else {
        assert(list =~= Seq::empty());
    }
}

proof fn lemma_gathered_fault(targets: Seq<Result<usize, Fault>>, k: int, fault: Fault)
    requires
        0 <= k < targets.len(),
        forall|i: int| 0 <= i < k ==> #[trigger] targets[i] is Ok,
        targets[k] == Err::<usize, Fault>(fault),
    ensures
        gathered(targets) == Err::<Seq<usize>, Fault>(fault),
    decreases targets.len(),
{
    let earlier = targets.drop_last();
    if k < earlier.len() {
        assert forall|i: int| 0 <= i < k implies #[trigger] earlier[i] is Ok by {
            assert(targets[i] is Ok);
        }
        lemma_gathered_fault(earlier, k, fault);
    } else {
        let list = Seq::new(earlier.len(), |i: int| earlier[i]->Ok_0);
        assert forall|i: int| 0 <= i < list.len() implies #[trigger] earlier[i] == Ok::<
            usize,
            Fault,
        >(list[i]) by {
            assert(targets[i] is Ok);
        }
        lemma_gathered_all(earlier, list);
    }
}

/// A switch leads to its default and then to each of its cases, in order, and nowhere else. The first of
/// them that is no instruction is reported.
pub proof fn lemma_switch<'a>(
    code: Code<'a>,
    state: MachineState,
    after: MachineState,
    default: i32,
    cases: Seq<i32>,
)
    requires
        executes(code, state, after),
        switches(code, state, default, cases),
    ensures
        inside(code, state.instruction + default) && (forall|k: int|
            0 <= k < cases.len() ==> inside(code, state.instruction + #[trigger] cases[k])) ==> leads(
            code,
            state,
            after,
            seq![arrives(after, state.instruction + default)] + Seq::new(
                cases.len(),
                |k: int| arrives(after, state.instruction + cases[k]),
            ),
        ),
        !inside(code, state.instruction + default) ==> stops(
            code,
            state,
            outside(state.instruction + default),
        ),
        forall|k: int|
            #![trigger cases[k]]
            0 <= k < cases.len() && inside(code, state.instruction + default) && (forall|j: int|
                0 <= j < k ==> inside(code, state.instruction + #[trigger] cases[j])) && !inside(
                code,
                state.instruction + cases[k],
            ) ==> stops(code, state, outside(state.instruction + cases[k])),
{
    let instruction = instruction_at(code, state);
    let count = code.instructions.len();
    let index = state.instruction;
    let targets = named_targets(instruction, index, count);
    assert(targets == switch_targets(index, default, cases, count));
    assert(targets[0] == relative(index, default, count));
    assert forall|k: int| 0 <= k < cases.len() implies targets[k + 1] == relative(
        index,
        #[trigger] cases[k],
        count,
    ) by {
    }
    if !inside(code, index + default) {
        lemma_gathered_fault(targets, 0, outside(index + default));
    }
    assert forall|k: int|
        #![trigger cases[k]]
        0 <= k < cases.len() && inside(code, index + default) && (forall|j: int|
            0 <= j < k ==> inside(code, index + #[trigger] cases[j])) && !inside(
            code,
            index + cases[k],
        ) implies stops(code, state, outside(index + cases[k])) by {
        assert forall|i: int| 0 <= i < k + 1 implies #[trigger] targets[i] is Ok by {
            if i > 0 {
                assert(targets[i - 1 + 1] == relative(index, cases[i - 1], count));
            }
        }
        lemma_gathered_fault(targets, k + 1, outside(index + cases[k]));
    }
    if inside(code, index + default) && (forall|k: int|
        0 <= k < cases.len() ==> inside(code, index + #[trigger] cases[k])) {
        let list = Seq::new(
            cases.len() + 1,
            |i: int|
                if i == 0 {
                    (index + default) as usize
                } else {
                    (index + cases[i - 1]) as usize
                },
        );
        assert forall|i: int| 0 <= i < list.len() implies #[trigger] targets[i] == Ok::<
            usize,
            Fault,
        >(list[i]) by {
            if i > 0 {
                assert(targets[i - 1 + 1] == relative(index, cases[i - 1], count));
                assert(inside(code, index + cases[i - 1]));
            }
        }
        lemma_gathered_all(targets, list);
        let next = seq![arrives(after, index + default)] + Seq::new(
            cases.len(),
            |k: int| arrives(after, index + cases[k]),
        );
        assert(at_each(after, list) =~= next);
        lemma_leads(code, state, after, next);
    }
}

// ---- Returns, throws, and the instructions that only go on.
/// The returns and `athrow` lead nowhere but to exception handlers.
pub proof fn lemma_final<'a>(code: Code<'a>, state: MachineState, after: MachineState)
    requires
        executes(code, state, after),
        match instruction_at(code, state) {
            Instruction::Ireturn
            | Instruction::Lreturn
            | Instruction::Freturn
            | Instruction::Dreturn
            | Instruction::Areturn
            | Instruction::Return
            | Instruction::Athrow => true,
            _ => false,
        },
    ensures
        leads(code, state, after, Seq::empty()),
{
    let list = exits(instruction_at(code, state), state.instruction, code.instructions.len());
    assert(list->Ok_0 =~= Seq::empty());
    assert(at_each(after, list->Ok_0) =~= Seq::empty());
    lemma_leads(code, state, after, Seq::empty());
}

/// The instruction of a state neither branches nor ends a path: it is none of the conditional branches,
/// `goto`, `goto_w`, the switches, the returns, `athrow`, `jsr`, `jsr_w`, `ret` and `ret_w`.
pub open spec fn goes_on<'a>(code: Code<'a>, state: MachineState) -> bool {
    match instruction_at(code, state) {
        Instruction::Ifeq(_)
        | Instruction::Ifne(_)
        | Instruction::Iflt(_)
        | Instruction::Ifge(_)
        | Instruction::Ifgt(_)
        | Instruction::Ifle(_)
        | Instruction::If_icmpeq(_)
        | Instruction::If_icmpne(_)
        | Instruction::If_icmplt(_)
        | Instruction::If_icmpge(_)
        | Instruction::If_icmpgt(_)
        | Instruction::If_icmple(_)
        | Instruction::If_acmpeq(_)
        | Instruction::If_acmpne(_)
        | Instruction::Ifnull(_)
        | Instruction::Ifnonnull(_)
        | Instruction::Goto(_)
        | Instruction::Goto_w(_)
        | Instruction::Tableswitch(_)
        | Instruction::Lookupswitch(_)
        | Instruction::Ireturn
        | Instruction::Lreturn
        | Instruction::Freturn
        | Instruction::Dreturn
        | Instruction::Areturn
        | Instruction::Return
        | Instruction::Athrow
        | Instruction::Jsr(_)
        | Instruction::Jsr_w(_)
        | Instruction::Ret(_)
        | Instruction::Ret_w(_) => false,
        _ => true,
    }
}

/// Every other instruction leads to the next one, if there is one, and nowhere else.
pub proof fn lemma_onward<'a>(code: Code<'a>, state: MachineState, after: MachineState)
    requires
        executes(code, state, after),
        goes_on(code, state),
    ensures
        leads(code, state, after, onward(code, state, after)),
{
    let instruction = instruction_at(code, state);
    let count = code.instructions.len();
    assert(branch_target(instruction) is None);
    assert(named_targets(instruction, state.instruction, count) =~= Seq::empty());
    let list = exits(instruction, state.instruction, count)->Ok_0;
    assert(at_each(after, list) =~= onward(code, state, after));
    lemma_leads(code, state, after, onward(code, state, after));
}

// ---- What can be reached.
proof fn lemma_led_to<'a>(
    code: Code<'a>,
    state: MachineState,
    after: MachineState,
    next: Seq<MachineState>,
    k: int,
)
    requires
        reachable(code, state),
        leads(code, state, after, next),
        0 <= k < next.len(),
    ensures
        reachable(code, next[k]),
{
    let all = step(code, state)->Ok_0.successors;
    assert(all[thrown(code, state).len() + k] == next[k]);
    assert(may_follow(code, state, next[k]));
    lemma_reachable_next(code, state, next[k]);
}

/// The next instruction is followed after every instruction but `goto`, `goto_w`, the switches, the
/// returns, `athrow`, `ret`, `ret_w`, `jsr` and `jsr_w`.
pub proof fn lemma_next_followed<'a>(code: Code<'a>, state: MachineState)
    requires
        code.instructions.len() <= usize::MAX,
        reachable(code, state),
        step(code, state) is Ok,
        state.instruction + 1 < code.instructions.len(),
        match instruction_at(code, state) {
            Instruction::Goto(_)
            | Instruction::Goto_w(_)
            | Instruction::Tableswitch(_)
            | Instruction::Lookupswitch(_)
            | Instruction::Ireturn
            | Instruction::Lreturn
            | Instruction::Freturn
            | Instruction::Dreturn
            | Instruction::Areturn
            | Instruction::Return
            | Instruction::Athrow
            | Instruction::Ret(_)
            | Instruction::Ret_w(_)
            | Instruction::Jsr(_)
            | Instruction::Jsr_w(_) => false,
            _ => true,
        },
    ensures
        reachable(
            code,
            (MachineState {
                instruction: (state.instruction + 1) as usize,
                ..outcome_state(code, state)->Ok_0
            }),
        ),
{
    let after = outcome_state(code, state)->Ok_0;
    lemma_executed(code, state);
    if condition_target(instruction_at(code, state)) is None {
        lemma_not_a_condition(code, state);
        lemma_onward(code, state, after);
        lemma_led_to(code, state, after, onward(code, state, after), 0);
    } else {
        let target = condition_target(instruction_at(code, state))->Some_0;
        lemma_branches(code, state, after, target);
        let next = seq![arrives(after, target as int)] + onward(code, state, after);
        lemma_led_to(code, state, after, next, 1);
    }
}

proof fn lemma_not_a_condition<'a>(code: Code<'a>, state: MachineState)
    requires
        condition_target(instruction_at(code, state)) is None,
        !leaves(instruction_at(code, state)),
    ensures
        goes_on(code, state),
{
}

/// The targets of branches are followed.
pub proof fn lemma_branch_followed<'a>(code: Code<'a>, state: MachineState, target: u16)
    requires
        code.instructions.len() <= usize::MAX,
        reachable(code, state),
        step(code, state) is Ok,
        match instruction_at(code, state) {
            Instruction::Ifeq(t)
            | Instruction::Ifne(t)
            | Instruction::Iflt(t)
            | Instruction::Ifge(t)
            | Instruction::Ifgt(t)
            | Instruction::Ifle(t)
            | Instruction::If_icmpeq(t)
            | Instruction::If_icmpne(t)
            | Instruction::If_icmplt(t)
            | Instruction::If_icmpge(t)
            | Instruction::If_icmpgt(t)
            | Instruction::If_icmple(t)
            | Instruction::If_acmpeq(t)
            | Instruction::If_acmpne(t)
            | Instruction::Ifnull(t)
            | Instruction::Ifnonnull(t)
            | Instruction::Goto(t) => t == target,
            _ => false,
        },
    ensures
        target < code.instructions.len(),
        reaches_target(code, state, target),
{
    let after = outcome_state(code, state)->Ok_0;
    lemma_executed(code, state);
    lemma_conditions(code, state, after);
    lemma_goto(code, state, after);
    lemma_target_followed(code, state, target);
}

/// The state after the instruction of a state, at a target, can be reached.
pub open spec fn reaches_target<'a>(code: Code<'a>, state: MachineState, target: u16) -> bool {
    reachable(
        code,
        (MachineState { instruction: target as usize, ..outcome_state(code, state)->Ok_0 }),
    )
}

proof fn lemma_target_followed<'a>(code: Code<'a>, state: MachineState, target: u16)
    requires
        reachable(code, state),
        step(code, state) is Ok,
        ({
            let after = outcome_state(code, state)->Ok_0;
            branches(code, state, after, target) || jumps(code, state, after, target as int)
        }),
    ensures
        target < code.instructions.len(),
        reaches_target(code, state, target),
{
    let after = outcome_state(code, state)->Ok_0;
    if branches(code, state, after, target) {
        let next = seq![arrives(after, target as int)] + onward(code, state, after);
        lemma_led_to(code, state, after, next, 0);
    } else {
        lemma_led_to(code, state, after, seq![arrives(after, target as int)], 0);
    }
}

/// The default and every case of a switch are followed.
pub proof fn lemma_switch_followed<'a>(
    code: Code<'a>,
    state: MachineState,
    default: i32,
    cases: Seq<i32>,
)
    requires
        code.instructions.len() <= usize::MAX,
        reachable(code, state),
        step(code, state) is Ok,
        match instruction_at(code, state) {
            Instruction::Tableswitch(table) => table.default == default && table.offsets@ == cases,
            Instruction::Lookupswitch(lookup) => lookup.default == default && entry_values(
                lookup.pairs,
            ) == cases,
            _ => false,
        },
    ensures
        ({
            let after = outcome_state(code, state)->Ok_0;
            let index = state.instruction;
            &&& 0 <= index + default < code.instructions.len()
            &&& reachable(
                code,
                (MachineState { instruction: (index + default) as usize, ..after }),
            )
            &&& forall|k: int|
                #![trigger cases[k]]
                0 <= k < cases.len() ==> 0 <= index + cases[k] < code.instructions.len()
                    && reachable(
                    code,
                    (MachineState { instruction: (index + cases[k]) as usize, ..after }),
                )
        }),
{
    let after = outcome_state(code, state)->Ok_0;
    let index = state.instruction;
    lemma_executed(code, state);
    lemma_switch(code, state, after, default, cases);
    assert(inside(code, index + default));
    assert forall|k: int| 0 <= k < cases.len() implies inside(
        code,
        index + #[trigger] cases[k],
    ) by {
        if !inside(code, index + cases[k]) {
            let first = lemma_first_outside(code, index, cases, k);
            assert(stops(code, state, outside(index + cases[first])));
        }
    }
    let next = seq![arrives(after, index + default)] + Seq::new(
        cases.len(),
        |k: int| arrives(after, index + cases[k]),
    );
    lemma_led_to(code, state, after, next, 0);
    assert forall|k: int|
        #![trigger cases[k]]
        0 <= k < cases.len() implies 0 <= index + cases[k] < code.instructions.len() && reachable(
        code,
        (MachineState { instruction: (index + cases[k]) as usize, ..after }),
    ) by {
        assert(inside(code, index + cases[k]));
        lemma_led_to(code, state, after, next, k + 1);
        assert(next[k + 1] == arrives(after, index + cases[k]));
    }
}

proof fn lemma_first_outside<'a>(code: Code<'a>, index: usize, cases: Seq<i32>, k: int) -> (first:
    int)
    requires
        0 <= k < cases.len(),
        !inside(code, index + cases[k]),
    ensures
        0 <= first <= k,
        !inside(code, index + cases[first]),
        forall|j: int| 0 <= j < first ==> inside(code, index + #[trigger] cases[j]),
    decreases k,
{
    if forall|j: int| 0 <= j < k ==> inside(code, index + #[trigger] cases[j]) {
        k
    } else {
        let j = choose|j: int| 0 <= j < k && !inside(code, index + #[trigger] cases[j]);
        lemma_first_outside(code, index, cases, j)
    }
}

// ---- Subroutines.
/// `jsr` leads to the subroutine and nowhere else, with the address of the next instruction on the stack
/// and on the list of calls. It is refused without a next instruction, and while a call of the same
/// subroutine has not returned.
pub open spec fn calls_subroutine<'a>(code: Code<'a>, state: MachineState, target: int) -> bool {
    let address = ReturnAddress {
        call_site: state.instruction,
        target: target as usize,
        continuation: (state.instruction + 1) as usize,
    };
    let start = MachineState {
        instruction: target as usize,
        stack: state.stack.push(StackValue::ReturnAddress(address)),
        locals: state.locals,
        subroutines: state.subroutines.push(address),
    };
    if !inside(code, target) {
        stops(code, state, outside(target))
    } else if state.instruction + 1 >= code.instructions.len() {
        stops(code, state, no_continuation(state.instruction))
    } else if exists|i: int|
        0 <= i < state.subroutines.len() && (#[trigger] state.subroutines[i]).target == target {
        stops(code, state, recursive_call(target as usize))
    } else if total_slots(state.stack) + 1 > 65535 {
        stops(code, state, too_deep())
    } else {
        leads(code, state, start, seq![start])
    }
}

/// What `jsr` and `jsr_w` do.
pub proof fn lemma_jsr<'a>(code: Code<'a>, state: MachineState)
    requires
        code.instructions.len() <= usize::MAX,
        state.instruction < code.instructions.len(),
        state.instruction <= 0xffff_ffff,
    ensures
        match instruction_at(code, state) {
            Instruction::Jsr(t) => calls_subroutine(code, state, t as int),
            Instruction::Jsr_w(t) => calls_subroutine(code, state, t as int),
            _ => true,
        },
{
    let instruction = instruction_at(code, state);
    if let Some(target) = call_target(instruction) {
        let address = ReturnAddress {
            call_site: state.instruction,
            target: target as usize,
            continuation: (state.instruction + 1) as usize,
        };
        lemma_total_slots_push(state.stack, StackValue::ReturnAddress(address));
        if in_progress(state.subroutines, target as usize) {
            let i = choose|i: int|
                0 <= i < state.subroutines.len() && #[trigger] state.subroutines[i].target == target
                    as usize;
            assert(state.subroutines[i].target == target as usize);
        }
        if let Ok(start) = outcome_state(code, state) {
            if total_slots(start.stack) <= 65535 {
                lemma_leads(code, state, start, seq![start]);
            }
        }
    }
}

/// What a value or a variable holds when some calls are over: an address of such a call is invalid, and
/// everything else is as it was.
pub open spec fn after_calls(value: StackValue, over: Seq<ReturnAddress>) -> StackValue {
    match value {
        StackValue::ReturnAddress(address) => if exists|i: int|
            0 <= i < over.len() && #[trigger] over[i] == address {
            StackValue::InvalidReturnAddress
        } else {
            value
        },
        _ => value,
    }
}

/// `ret` needs a local variable with the address of a call that has not returned. It leads to the
/// instruction after that `jsr` and nowhere else. That call and the later ones are over: their addresses
/// become invalid on the stack and in the variables, and nothing else changes there.
pub proof fn lemma_ret<'a>(code: Code<'a>, state: MachineState, local: u16, frame: int)
    requires
        code.instructions.len() <= usize::MAX,
        state.instruction < code.instructions.len(),
        state.instruction <= 0xffff_ffff,
        total_slots(state.stack) <= 65535,
        match instruction_at(code, state) {
            Instruction::Ret(n) => n == local,
            Instruction::Ret_w(n) => n == local,
            _ => false,
        },
    ensures
        !state.locals.contains_key(local) ==> stops(
            code,
            state,
            no_address(state.instruction, local),
        ),
        state.locals.contains_key(local) && state.locals[local] is Invalid ==> stops(
            code,
            state,
            address_reused(state.instruction, local),
        ),
        state.locals.contains_key(local) && (state.locals[local] matches ReturnAddressLocal::Active(
            address,
        ) && forall|i: int|
            0 <= i < state.subroutines.len() ==> #[trigger] state.subroutines[i] != address)
            ==> stops(code, state, call_not_active(state.instruction)),
        state.locals.contains_key(local) && 0 <= frame < state.subroutines.len() && state.locals[local]
            == ReturnAddressLocal::Active(state.subroutines[frame]) && (forall|i: int|
            0 <= i < frame ==> #[trigger] state.subroutines[i] != state.subroutines[frame]) ==> {
            let over = state.subroutines.skip(frame);
            &&& outcome_state(code, state) matches Ok(after)
            &&& leads(code, state, after, seq![after])
            &&& after.instruction == state.subroutines[frame].continuation
            &&& after.subroutines == state.subroutines.take(frame)
            &&& after.stack.len() == state.stack.len()
            &&& forall|i: int|
                0 <= i < after.stack.len() ==> #[trigger] after.stack[i] == after_calls(
                    state.stack[i],
                    over,
                )
            &&& after.locals.dom() == state.locals.dom()
            &&& forall|k: u16| #[trigger]
                after.locals.contains_key(k) ==> after.locals[k] == (match state.locals[k] {
                    ReturnAddressLocal::Active(address) => if exists|i: int|
                        0 <= i < over.len() && #[trigger] over[i] == address {
                        ReturnAddressLocal::Invalid
                    } else {
                        state.locals[k]
                    },
                    ReturnAddressLocal::Invalid => ReturnAddressLocal::Invalid,
                })
        },
{
    if state.locals.contains_key(local) {
        if let ReturnAddressLocal::Active(address) = state.locals[local] {
            state.subroutines.index_of_first_ensures(address);
            if 0 <= frame < state.subroutines.len() && state.subroutines[frame] == address && (
            forall|i: int|
                0 <= i < frame ==> #[trigger] state.subroutines[i] != state.subroutines[frame]) {
                let over = state.subroutines.skip(frame);
                assert(state.subroutines.index_of_first(address) == Some(frame));
                let after = outcome_state(code, state)->Ok_0;
                lemma_invalidated_slots(state.stack, over);
                lemma_leads(code, state, after, seq![after]);
                assert(after.stack == invalidated(state.stack, over));
                assert(after.locals.dom() =~= state.locals.dom());
            }
        }
    }
}

} // verus!
