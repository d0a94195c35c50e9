//! The largest depth of the operand stack that a method can reach.
use vstd::prelude::*;
use vstd::set_lib::lemma_len_subset;

use crate::arena::{too_many_stacks, StackArena, StackId};
use crate::bounds::{lemma_found_bounded, state_limit};
use crate::capacity::{
    built, builds, exhausts_stacks, is_built, lemma_built_bounded, looks_through,
};
use crate::confinement::{lemma_found_reachable, well_formed};
use crate::constant_pool::ConstantPool;
use crate::error::{Error, Fault};
use crate::flow::{
    checked_target, enqueue_exception_handlers, enqueue_jsr, enqueue_normal_successors, enqueue_ret,
    validate_exception_table,
};
use crate::instruction::{ExceptionTableEntry, Instruction};
use crate::machine::{
    applied, at_each, continued, entry_state, exits, handler_states, outcome_state, step, Code,
    MachineState, Step,
};
use crate::search::{
    deeper, deepest, depth_within, ends, found, lemma_conclusion, lemma_deepest_add,
    lemma_with_states_add, max_depth, passes, reachable, step_depth, with_state, with_states,
};
use crate::state::FlowState;
use crate::transfer::apply_instruction;
use crate::value::{total_slots, StackValue};
use crate::worklist::Worklist;

verus! {

/// An analysis of code came to a result.
///
/// The result is the largest depth, or an error that says what the first fault says. An analysis that has
/// more stacks to keep than there are identifiers reports that instead.
pub open spec fn analyzed<'a>(code: Code<'a>, result: Result<u16, Error>) -> bool {
    if exhausts_stacks(code) {
        &&& result matches Err(error)
        &&& error@ == too_many_stacks()
    } else {
        match (result, max_depth(code)) {
            (Ok(actual), Ok(expected)) => actual == expected,
            (Err(error), Err(fault)) => error@ == fault,
            _ => false,
        }
    }
}

/// The stacks of an arena are those that have to be kept when the first so many states are looked at.
spec fn keeps_built<'a>(code: Code<'a>, looked_at: nat, stacks: &StackArena) -> bool {
    &&& holds_only_built(code, looked_at, stacks)
    &&& forall|stack: Seq<StackValue>| #[trigger]
        is_built(code, looked_at, stack) ==> stacks.has(stack)
}

/// Every stack of an arena has to be kept when the first so many states are looked at.
spec fn holds_only_built<'a>(code: Code<'a>, looked_at: nat, stacks: &StackArena) -> bool {
    forall|id: StackId|
        #![trigger stacks.values(id)]
        stacks.holds(id) && id != StackId::empty() ==> is_built(
            code,
            looked_at,
            stacks.values(id),
        )
}

/// The stacks of an arena were kept, and no others came since than those that have to be kept for a
/// state.
pub open spec fn kept_for<'a>(
    code: Code<'a>,
    machine: MachineState,
    before: &StackArena,
    after: &StackArena,
) -> bool {
    &&& before.size() <= after.size()
    &&& forall|id: StackId|
        #![trigger before.values(id)]
        before.holds(id) ==> after.values(id) == before.values(id)
    &&& forall|id: StackId|
        #![trigger after.values(id)]
        after.holds(id) && !before.holds(id) ==> builds(code, machine, after.values(id))
}

/// An arena has all stacks that have to be kept for a state.
pub open spec fn keeps_all<'a>(code: Code<'a>, machine: MachineState, stacks: &StackArena) -> bool {
    forall|stack: Seq<StackValue>| #[trigger]
        builds(code, machine, stack) ==> stacks.has(stack)
}

/// The search has looked at a state.
///
/// It has found the states that may come after it and seen the depths of their stacks, unless the state
/// has no next step, or no identifier was left for a stack.
pub open spec fn looks_at<'a>(
    code: Code<'a>,
    machine: MachineState,
    stacks_before: &StackArena,
    stacks_after: &StackArena,
    before: &Worklist,
    after: &Worklist,
    result: Result<(), Error>,
) -> bool {
    &&& stacks_after.inv()
    &&& kept_for(code, machine, stacks_before, stacks_after)
    &&& after.inv(stacks_after)
    &&& after.looked_at() == before.looked_at()
    &&& match (result, step(code, machine)) {
        (Ok(_), Ok(taken)) => {
            &&& keeps_all(code, machine, stacks_after)
            &&& after.found(stacks_after) == with_states(
                before.found(stacks_before),
                taken.successors,
            )
            &&& after.depth() == deeper(before.depth(), step_depth(taken))
        },
        (Ok(_), Err(_)) => false,
        (Err(error), next) => {
            ||| next == Err::<Step, Fault>(error@) && keeps_all(code, machine, stacks_after)
            ||| {
                &&& error@ == too_many_stacks()
                &&& stacks_after.size() == usize::MAX
                &&& !keeps_all(code, machine, stacks_after)
            }
        },
    }
}

/// What becomes of the search when an instruction other than `jsr` and `ret` is executed.
spec fn applies(
    stacks_before: &StackArena,
    stacks_after: &StackArena,
    before: &Worklist,
    after: &Worklist,
    expected: Result<MachineState, Fault>,
    targets: Result<Seq<usize>, Fault>,
    result: Result<(), Error>,
) -> bool {
    &&& stacks_after.inv()
    &&& after.inv(stacks_after)
    &&& after.looked_at() == before.looked_at()
    &&& match expected {
        Ok(outcome) => {
            let depth = total_slots(outcome.stack);
            &&& stacks_after.grown(stacks_before, outcome.stack)
            &&& match (result, targets) {
                (Ok(_), Ok(targets)) => {
                    let states = at_each(outcome, targets);
                    &&& depth <= u16::MAX
                    &&& stacks_after.has(outcome.stack)
                    &&& after.found(stacks_after) == with_states(
                        before.found(stacks_before),
                        states,
                    )
                    &&& after.depth() == deeper(deeper(before.depth(), depth), deepest(states))
                },
                (Ok(_), Err(_)) => false,
                (Err(error), targets) => {
                    ||| stacks_after.refuses(outcome.stack, error@)
                    ||| {
                        &&& depth <= u16::MAX
                        &&& stacks_after.has(outcome.stack)
                        &&& targets == Err::<Seq<usize>, Fault>(error@)
                    }
                },
            }
        },
        Err(fault) => {
            &&& *stacks_after == *stacks_before
            &&& result matches Err(error)
            &&& error@ == fault
        },
    }
}

/// Executes an instruction other than `jsr` and `ret`, and adds the states after it to the search.
fn apply_and_enqueue(
    worklist: &mut Worklist,
    stacks: &mut StackArena,
    mut state: FlowState,
    instruction: &Instruction,
    constant_pool: &ConstantPool<'_>,
    instruction_count: usize,
) -> (result: Result<(), Error>)
    requires
        old(stacks).inv(),
        old(worklist).inv(&*old(stacks)),
        state.valid(&*old(stacks)),
    ensures
        applies(
            &*old(stacks),
            &*final(stacks),
            &*old(worklist),
            &*final(worklist),
            applied(*instruction, constant_pool@, state.machine(&*old(stacks))),
            exits(*instruction, state.instruction, instruction_count as nat),
            result,
        ),
{
    let ghost expected = applied(*instruction, constant_pool@, state.machine(stacks));
    let ghost before = *stacks;
    let done = apply_instruction(&mut state, instruction, constant_pool, stacks);
    proof {
        if let Ok(outcome) = expected {
            worklist.lemma_grown(&before, stacks, outcome.stack);
        }
    }
    match done {
        Ok(_) => {},
        Err(error) => {
            return Err(error);
        },
    }
    match worklist.observe_stack(state.stack, stacks) {
        Ok(_) => {},
        Err(error) => {
            return Err(error);
        },
    }
    enqueue_normal_successors(worklist, stacks, &state, instruction, instruction_count)
}

/// One state makes a list of one.
proof fn lemma_one_state(states: Seq<MachineState>, state: MachineState)
    ensures
        with_states(states, seq![state]) == with_state(states, state),
        deepest(seq![state]) == total_slots(state.stack),
{
    reveal_with_fuel(with_states, 2);
    reveal_with_fuel(deepest, 2);
    assert(seq![state].drop_last() =~= Seq::<MachineState>::empty());
}

/// What an arena keeps for a state when it has grown towards the stack of an exception handler and then
/// towards the stack after the instruction.
proof fn lemma_kept<'a>(
    code: Code<'a>,
    machine: MachineState,
    first: &StackArena,
    second: &StackArena,
    third: &StackArena,
    values: Seq<StackValue>,
)
    requires
        third.inv(),
        kept_for(code, machine, first, second),
        third.grown(second, values),
        machine.instruction < code.instructions.len(),
        machine.instruction <= u32::MAX,
        outcome_state(code, machine) matches Ok(after) && after.stack == values,
        handler_states(code.handlers, machine).len() > 0 ==> second.has(
            seq![StackValue::Category1],
        ),
    ensures
        kept_for(code, machine, first, third),
        third.holds_parts(values) <==> keeps_all(code, machine, third),
        third.has(values) ==> third.holds_parts(values),
{
    let single = seq![StackValue::Category1];
    assert forall|id: StackId|
        #![trigger first.values(id)]
        first.holds(id) implies third.values(id) == first.values(id) by {
        assert(second.values(id) == first.values(id));
    }
    assert forall|id: StackId|
        #![trigger third.values(id)]
        third.holds(id) && !first.holds(id) implies builds(code, machine, third.values(id)) by {
        third.lemma_values_bounds(id);
        if second.holds(id) {
            assert(third.values(id) == second.values(id));
        }
    }
    if handler_states(code.handlers, machine).len() > 0 {
        let id = choose|id: StackId| #[trigger] second.holds(id) && second.values(id) == single;
        assert(third.holds(id) && third.values(id) == single);
    }
    if third.has(values) {
        third.lemma_parts_held(values);
    }
    if keeps_all(code, machine, third) {
        assert forall|part: Seq<StackValue>| #[trigger]
            part.is_prefix_of(values) && total_slots(part) <= u16::MAX implies third.has(part) by {
            if part.len() > 0 {
                assert(builds(code, machine, part));
            } else {
                third.lemma_empty();
                assert(part =~= third.values(StackId::empty()));
                assert(third.holds(StackId::empty()));
            }
        }
    }
}

/// Looks at a state: adds the states of its exception handlers to the search, executes its instruction,
/// and adds the states that come after that.
pub(crate) fn look_at(
    worklist: &mut Worklist,
    stacks: &mut StackArena,
    state: FlowState,
    instructions: &[Instruction],
    constant_pool: &ConstantPool<'_>,
    exception_table: &[ExceptionTableEntry],
) -> (result: Result<(), Error>)
    requires
        old(stacks).inv(),
        old(worklist).inv(&*old(stacks)),
        state.valid(&*old(stacks)),
    ensures
        looks_at(
            (Code {
                instructions: instructions@,
                constants: constant_pool@,
                handlers: exception_table@,
            }),
            state.machine(&*old(stacks)),
            &*old(stacks),
            &*final(stacks),
            &*old(worklist),
            &*final(worklist),
            result,
        ),
{
    let ghost code = Code {
        instructions: instructions@,
        constants: constant_pool@,
        handlers: exception_table@,
    };
    let ghost machine = state.machine(stacks);
    let ghost first = *stacks;
    let ghost known = worklist.found(stacks);
    let offset: u32 = match u32::try_from(state.instruction) {
        Ok(offset) => offset,
        Err(_) => {
            return Err(Error::TryFromIntError);
        },
    };
    if state.instruction >= instructions.len() {
        return Err(Error::InvalidInstructionOffset(offset));
    }
    let handled = enqueue_exception_handlers(worklist, stacks, &state, exception_table);
    let ghost second = *stacks;
    let ghost handlers = handler_states(code.handlers, machine);
    let ghost single = seq![StackValue::Category1];
    proof {
        reveal_with_fuel(total_slots, 2);
        assert(total_slots(single) == 1);
        assert forall|part: Seq<StackValue>|
            part.len() > 0 && #[trigger] part.is_prefix_of(single) implies part == single by {
            assert(part =~= single);
        }
        assert(handlers.len() > 0 ==> builds(code, machine, single));
        assert(kept_for(code, machine, &first, stacks));
        assert(state.machine(stacks) == machine) by {
            assert(stacks.values(state.stack) == first.values(state.stack));
        }
    }
    match handled {
        Ok(_) => {},
        Err(error) => {
            return Err(error);
        },
    }
    let ghost expected = outcome_state(code, machine);
    let instruction = &instructions[state.instruction];
    let moved = match instruction {
        Instruction::Jsr(target) => match checked_target(*target as i64, instructions.len()) {
            Ok(target) => enqueue_jsr(worklist, stacks, state, target, instructions.len()),
            Err(error) => Err(error),
        },
        Instruction::Jsr_w(target) => match checked_target(*target as i64, instructions.len()) {
            Ok(target) => enqueue_jsr(worklist, stacks, state, target, instructions.len()),
            Err(error) => Err(error),
        },
        Instruction::Ret(index) => enqueue_ret(worklist, stacks, state, *index as u16),
        Instruction::Ret_w(index) => enqueue_ret(worklist, stacks, state, *index),
        _ => apply_and_enqueue(
            worklist,
            stacks,
            state,
            instruction,
            constant_pool,
            instructions.len(),
        ),
    };
    proof {
        if let Ok(after) = expected {
            assert(stacks.grown(&second, after.stack));
            lemma_kept(code, machine, &first, &second, stacks, after.stack);
            if let Ok(states) = continued(code, machine.instruction, after) {
                lemma_with_states_add(known, handlers, states);
                lemma_deepest_add(handlers, states);
                lemma_one_state(with_states(known, handlers), after);
            }
        }
    }
    moved
}

/// The stacks of an arena, besides the empty one.
spec fn all_stacks(stacks: &StackArena) -> Seq<Seq<StackValue>> {
    Seq::new(stacks.size(), |i: int| stacks.values(StackId((i + 1) as usize)))
}

proof fn lemma_all_stacks(stacks: &StackArena)
    requires
        stacks.inv(),
    ensures
        all_stacks(stacks).to_set().finite(),
        all_stacks(stacks).to_set().len() == stacks.size(),
        forall|stack: Seq<StackValue>| #[trigger]
            all_stacks(stacks).to_set().contains(stack) <==> stack.len() > 0 && stacks.has(stack),
{
    let all = all_stacks(stacks);
    stacks.lemma_size();
    assert forall|i: int, j: int| 0 <= i < all.len() && 0 <= j < all.len() && i != j implies all[i]
        != all[j] by {
        if all[i] == all[j] {
            stacks.lemma_values_injective(StackId((i + 1) as usize), StackId((j + 1) as usize));
        }
    }
    all.unique_seq_to_set();
    vstd::seq_lib::seq_to_set_is_finite(all);
    assert forall|stack: Seq<StackValue>| #[trigger]
        all.to_set().contains(stack) <==> stack.len() > 0 && stacks.has(stack) by {
        if all.to_set().contains(stack) {
            let i = choose|i: int| 0 <= i < all.len() && all[i] == stack;
            let id = StackId((i + 1) as usize);
            assert(stacks.holds(id));
            stacks.lemma_values_bounds(id);
        }
        if stack.len() > 0 && stacks.has(stack) {
            let id = choose|id: StackId| #[trigger] stacks.holds(id) && stacks.values(id) == stack;
            stacks.lemma_values_bounds(id);
            assert(all[id.0 - 1] == stack);
        }
    }
}

/// An arena that has an identifier for every stack that had to be kept shows that there were enough.
proof fn lemma_not_exhausted<'a>(code: Code<'a>, place: nat, stacks: &StackArena)
    requires
        stacks.inv(),
        !passes(code, place),
        forall|stack: Seq<StackValue>| #[trigger]
            is_built(code, place + 1, stack) ==> stacks.has(stack),
    ensures
        !exhausts_stacks(code),
{
    let all = all_stacks(stacks).to_set();
    lemma_all_stacks(stacks);
    stacks.lemma_size();
    assert forall|looked_at: nat| #[trigger] looks_through(code, looked_at) implies built(
        code,
        looked_at,
    ).len() <= usize::MAX by {
        if place + 1 < looked_at {
            assert(passes(code, place));
        }
        lemma_built_bounded(code, looked_at);
        assert forall|stack: Seq<StackValue>| #[trigger]
            built(code, looked_at).contains(stack) implies all.contains(stack) by {
            assert(is_built(code, looked_at, stack));
            assert(is_built(code, place + 1, stack));
        }
        lemma_len_subset(built(code, looked_at), all);
    }
}

/// A full arena in which a stack that has to be kept is missing shows that there were too few
/// identifiers.
proof fn lemma_exhausted<'a>(
    code: Code<'a>,
    looked_at: nat,
    stacks: &StackArena,
    missing: Seq<StackValue>,
)
    requires
        well_formed(code),
        stacks.inv(),
        looks_through(code, looked_at),
        holds_only_built(code, looked_at, stacks),
        stacks.size() == usize::MAX,
        is_built(code, looked_at, missing),
        !stacks.has(missing),
    ensures
        exhausts_stacks(code),
{
    let all = all_stacks(stacks).to_set();
    lemma_all_stacks(stacks);
    lemma_built_bounded(code, looked_at);
    assert forall|stack: Seq<StackValue>| #[trigger]
        all.insert(missing).contains(stack) implies built(code, looked_at).contains(stack) by {
        if stack != missing {
            assert(all.contains(stack));
            let id = choose|id: StackId| #[trigger] stacks.holds(id) && stacks.values(id) == stack;
            stacks.lemma_values_bounds(id);
        }
    }
    lemma_len_subset(all.insert(missing), built(code, looked_at));
}

/// When one more state has been looked at, an arena has the stacks that had to be kept.
proof fn lemma_built_next<'a>(code: Code<'a>, place: nat, before: &StackArena, after: &StackArena)
    requires
        place < found(code, place).len(),
        keeps_built(code, place, before),
        kept_for(code, found(code, place)[place as int], before, after),
    ensures
        holds_only_built(code, place + 1, after),
        keeps_all(code, found(code, place)[place as int], after) ==> keeps_built(
            code,
            place + 1,
            after,
        ),
{
    let machine = found(code, place)[place as int];
    assert forall|id: StackId|
        #![trigger after.values(id)]
        after.holds(id) && id != StackId::empty() implies is_built(
        code,
        place + 1,
        after.values(id),
    ) by {
        if before.holds(id) {
            assert(is_built(code, place, before.values(id)));
        } else {
            assert(builds(code, machine, after.values(id)));
        }
    }
    if keeps_all(code, machine, after) {
        assert forall|stack: Seq<StackValue>| #[trigger]
            is_built(code, place + 1, stack) implies after.has(stack) by {
            if is_built(code, place, stack) {
                let id = choose|id: StackId| #[trigger]
                    before.holds(id) && before.values(id) == stack;
                assert(after.holds(id) && after.values(id) == stack);
            } else {
                assert(builds(code, machine, stack));
            }
        }
    }
}

/// A state without a next step ends the search.
proof fn lemma_fault<'a>(code: Code<'a>, place: nat, fault: Fault)
    requires
        well_formed(code),
        forall|earlier: nat| earlier < place ==> #[trigger] passes(code, earlier),
        place < found(code, place).len(),
        step(code, found(code, place)[place as int]) == Err::<Step, Fault>(fault),
    ensures
        max_depth(code) == Err::<nat, Fault>(fault),
{
    assert(ends(code, place));
    lemma_conclusion(code, place);
}

/// Finds the largest depth of the operand stack, by looking at every state that can be reached.
pub fn analyze(
    instructions: &[Instruction],
    constant_pool: &ConstantPool<'_>,
    exception_table: &[ExceptionTableEntry],
) -> (result: Result<u16, Error>)
    ensures
        analyzed(
            (Code {
                instructions: instructions@,
                constants: constant_pool@,
                handlers: exception_table@,
            }),
            result,
        ),
{
    let ghost code = Code {
        instructions: instructions@,
        constants: constant_pool@,
        handlers: exception_table@,
    };
    if instructions.len() == 0 {
        if exception_table.len() == 0 {
            return Ok(0);
        }
        return Err(Error::InvalidInstructionOffset(0));
    }
    match validate_exception_table(exception_table, instructions.len()) {
        Ok(_) => {},
        Err(error) => {
            return Err(error);
        },
    }
    let mut stacks = StackArena::new();
    let mut worklist = Worklist::new();
    let start = FlowState {
        instruction: 0,
        stack: StackId::empty(),
        return_address_locals: Vec::new(),
        subroutines: Vec::new(),
    };
    proof {
        stacks.lemma_empty();
        assert(start.machine(&stacks) =~= entry_state());
        assert(total_slots(entry_state().stack) == 0);
    }
    match worklist.enqueue(start, &stacks) {
        Ok(_) => {},
        Err(error) => {
            return Err(error);
        },
    }
    let ghost mut place: nat = 0;
    assert(worklist.found(&stacks) =~= found(code, 0));
    assert(keeps_built(code, place, &stacks));
    loop
        invariant
            code == (Code {
                instructions: instructions@,
                constants: constant_pool@,
                handlers: exception_table@,
            }),
            well_formed(code),
            stacks.inv(),
            worklist.inv(&stacks),
            worklist.looked_at() == place,
            worklist.found(&stacks) == found(code, place),
            worklist.depth() == depth_within(code, place),
            forall|earlier: nat| earlier < place ==> #[trigger] passes(code, earlier),
            keeps_built(code, place, &stacks),
        decreases state_limit(code.instructions.len()) - place,
    {
        proof {
            lemma_found_bounded(code, place);
            lemma_found_reachable(code, place);
            worklist.lemma_found(&stacks);
        }
        let state = match worklist.next() {
            Some(state) => state,
            None => {
                proof {
                    assert(ends(code, place));
                    lemma_conclusion(code, place);
                    assert forall|stack: Seq<StackValue>| #[trigger]
                        is_built(code, place + 1, stack) implies stacks.has(stack) by {
                        assert(is_built(code, place, stack));
                    }
                    lemma_not_exhausted(code, place, &stacks);
                }
                return Ok(worklist.max_stack());
            },
        };
        let ghost machine = state.machine(&stacks);
        let ghost first = stacks;
        proof {
            assert(machine == found(code, place)[place as int]);
            assert(reachable(code, machine));
        }
        let moved = look_at(
            &mut worklist,
            &mut stacks,
            state,
            instructions,
            constant_pool,
            exception_table,
        );
        proof {
            lemma_built_next(code, place, &first, &stacks);
            if moved is Err {
                let fault = moved->Err_0@;
                if keeps_all(code, machine, &stacks) {
                    lemma_fault(code, place, fault);
                    lemma_not_exhausted(code, place, &stacks);
                } else {
                    let missing = choose|stack: Seq<StackValue>| #[trigger]
                        builds(code, machine, stack) && !stacks.has(stack);
                    assert(looks_through(code, place + 1));
                    assert(is_built(code, place + 1, missing));
                    lemma_exhausted(code, place + 1, &stacks, missing);
                }
            } else {
                assert(passes(code, place));
            }
        }
        match moved {
            Ok(_) => {},
            Err(error) => {
                return Err(error);
            },
        }
        proof {
            place = place + 1;
        }
    }
}

/// Calculates the maximum operand-stack depth for an instruction sequence, including exception
/// handlers.
///
/// The result is expressed in JVM stack slots and is suitable for the `max_stack` field of a method's
/// `Code` attribute. The analysis follows all branch and switch targets, exception-handler edges, and
/// legacy `jsr`/`ret` subroutine return addresses.
///
/// # Errors
///
/// Returns an error if an instruction target, exception-table entry, field descriptor, method
/// descriptor, return address, or operand-stack state is invalid.
///
/// # References
///
/// - [JVMS 2.6.2](https://docs.oracle.com/javase/specs/jvms/se25/html/jvms-2.html#jvms-2.6.2)
/// - [JVMS 4.7.3](https://docs.oracle.com/javase/specs/jvms/se25/html/jvms-4.html#jvms-4.7.3)
/// - [JVMS 4.10.2.5](https://docs.oracle.com/javase/specs/jvms/se7/html/jvms-4.html#jvms-4.10.2.5)
pub fn max_stack_with_exception_table(
    instructions: &[Instruction],
    constant_pool: &ConstantPool<'_>,
    exception_table: &[ExceptionTableEntry],
) -> (result: Result<u16, Error>)
    ensures
        analyzed(
            (Code {
                instructions: instructions@,
                constants: constant_pool@,
                handlers: exception_table@,
            }),
            result,
        ),
{
    analyze(instructions, constant_pool, exception_table)
}

/// Calculation of the maximum operand-stack size that JVM bytecode instructions require.
///
/// # References
///
/// - [JVMS 2.6.2](https://docs.oracle.com/javase/specs/jvms/se25/html/jvms-2.html#jvms-2.6.2)
/// - [JVMS 4.7.3](https://docs.oracle.com/javase/specs/jvms/se25/html/jvms-4.html#jvms-4.7.3)
pub trait MaxStack {
    /// Calculates the maximum operand-stack depth reachable from the method entry.
    ///
    /// The result is expressed in JVM stack slots. Use [`max_stack_with_exception_table`] when the
    /// method has exception handlers.
    ///
    /// # Errors
    ///
    /// Returns an error if an instruction target, field descriptor, method descriptor, return address,
    /// or operand-stack state is invalid.
    fn max_stack(&self, constant_pool: &ConstantPool<'_>) -> (result: Result<u16, Error>);
}

impl MaxStack for [Instruction] {
    fn max_stack(&self, constant_pool: &ConstantPool<'_>) -> (result: Result<u16, Error>)
        ensures
            analyzed(
                (Code {
                    instructions: self@,
                    constants: constant_pool@,
                    handlers: Seq::empty(),
                }),
                result,
            ),
    {
        let exception_table: [ExceptionTableEntry; 0] = [];
        let none = exception_table.as_slice();
        assert(none@ =~= Seq::<ExceptionTableEntry>::empty());
        analyze(self, constant_pool, none)
    }
}

} // verus!
