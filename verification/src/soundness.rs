//! What the result of an analysis says of the executions of a method.
use vstd::prelude::*;
use vstd::set_lib::lemma_len_subset;

use crate::analysis::analyzed;
use crate::bounds::lemma_search_ends;
use crate::capacity::{
    built, builds, exhausts_stacks, is_built, lemma_built_bounded, looks_through,
};
use crate::confinement::{
    lemma_entry_reachable, lemma_found_reachable, lemma_handler_states, lemma_reachable_confined,
    lemma_reachable_next, lemma_table_fault, well_formed,
};
use crate::error::{Error, Fault};
use crate::instruction::{effect, stored_reference, ExceptionTableEntry, Instruction};
use crate::machine::{
    at_each, call_target, checked, continued, entry_fault, entry_state, exits, following, gathered,
    guards, handler_states, handling, in_progress, leaves, named_targets, outcome_state, rearranged,
    return_local, step, table_fault, Code, MachineState, Step,
};
use crate::search::{
    conclusion, deepest, depth_within, ends, found, is_run, lemma_conclusion, lemma_with_states,
    max_depth, may_follow, passes, reachable, step_depth, with_states,
};
use crate::value::{total_slots, StackValue};

verus! {

// ---- The search finds what can be reached.
/// States that were found stay in their places.
pub proof fn lemma_found_stays<'a>(code: Code<'a>, earlier: nat, later: nat)
    requires
        earlier <= later,
    ensures
        found(code, earlier).is_prefix_of(found(code, later)),
    decreases later,
{
    if earlier < later {
        let before = (later - 1) as nat;
        lemma_found_stays(code, earlier, before);
        if before < found(code, before).len() {
            if let Ok(taken) = step(code, found(code, before)[before as int]) {
                lemma_with_states(found(code, before), taken.successors);
            }
        }
    }
}

/// A search that ends without a fault has found every state that can be reached.
pub proof fn lemma_all_found<'a>(code: Code<'a>, place: nat, state: MachineState)
    requires
        ends(code, place),
        place >= found(code, place).len(),
        reachable(code, state),
    ensures
        found(code, place).contains(state),
{
    let run = choose|run: Seq<MachineState>| #[trigger] is_run(code, run) && run.last() == state;
    lemma_run_found(code, place, run, run.len() - 1);
}

proof fn lemma_run_found<'a>(code: Code<'a>, place: nat, run: Seq<MachineState>, i: int)
    requires
        ends(code, place),
        place >= found(code, place).len(),
        is_run(code, run),
        0 <= i < run.len(),
    ensures
        found(code, place).contains(run[i]),
    decreases i,
{
    let all = found(code, place);
    if i == 0 {
        lemma_found_reachable(code, place);
        assert(all[0] == run[0]);
    } else {
        lemma_run_found(code, place, run, i - 1);
        assert(may_follow(code, run[i - 1], run[i - 1 + 1]));
        let j = choose|j: int| 0 <= j < all.len() && all[j] == run[i - 1];
        let taken = lemma_passed(code, place, j as nat);
        lemma_with_states(found(code, j as nat), taken.successors);
        lemma_found_stays(code, (j + 1) as nat, place);
        let next = found(code, (j + 1) as nat);
        assert(next.contains(run[i]));
        let k = choose|k: int| 0 <= k < next.len() && next[k] == run[i];
        assert(all[k] == run[i]);
    }
}

/// A state that the search has passed, with its next step.
proof fn lemma_passed<'a>(code: Code<'a>, place: nat, earlier: nat) -> (taken: Step)
    requires
        forall|earlier: nat| earlier < place ==> #[trigger] passes(code, earlier),
        earlier < place,
    ensures
        earlier < found(code, earlier).len(),
        found(code, earlier)[earlier as int] == found(code, place)[earlier as int],
        step(code, found(code, place)[earlier as int]) == Ok::<Step, Fault>(taken),
        found(code, earlier + 1) == with_states(found(code, earlier), taken.successors),
{
    assert(passes(code, earlier));
    lemma_found_stays(code, earlier, place);
    step(code, found(code, earlier)[earlier as int])->Ok_0
}

/// The search has seen the depth of every step that it has passed, and one of them is the largest.
proof fn lemma_depth_within<'a>(code: Code<'a>, place: nat)
    requires
        forall|earlier: nat| earlier < place ==> #[trigger] passes(code, earlier),
    ensures
        forall|i: int|
            0 <= i < place ==> step_depth(step(code, #[trigger] found(code, place)[i])->Ok_0)
                <= depth_within(code, place),
        depth_within(code, place) == 0 || exists|i: int|
            0 <= i < place && step_depth(step(code, #[trigger] found(code, place)[i])->Ok_0)
                == depth_within(code, place),
    decreases place,
{
    if place > 0 {
        let before = (place - 1) as nat;
        lemma_depth_within(code, before);
        lemma_found_stays(code, before, place);
        let taken = lemma_passed(code, place, before);
        assert forall|i: int| 0 <= i < place implies step_depth(
            step(code, #[trigger] found(code, place)[i])->Ok_0,
        ) <= depth_within(code, place) by {
            if i < before {
                let _ = lemma_passed(code, before, i as nat);
                let _ = lemma_passed(code, place, i as nat);
                assert(found(code, before)[i] == found(code, place)[i]);
            }
        }
        if depth_within(code, place) != 0 {
            if depth_within(code, place) == step_depth(taken) {
                assert(step_depth(step(code, found(code, place)[before as int])->Ok_0)
                    == depth_within(code, place));
            } else {
                let i = choose|i: int|
                    0 <= i < before && step_depth(
                        step(code, #[trigger] found(code, before)[i])->Ok_0,
                    ) == depth_within(code, before);
                let _ = lemma_passed(code, before, i as nat);
                let _ = lemma_passed(code, place, i as nat);
                assert(found(code, before)[i] == found(code, place)[i]);
            }
        }
    }
}

/// The depth of some states is that of one of them, and none is deeper.
pub proof fn lemma_deepest(states: Seq<MachineState>)
    ensures
        forall|state: MachineState| #[trigger]
            states.contains(state) ==> total_slots(state.stack) <= deepest(states),
        deepest(states) == 0 || exists|state: MachineState| #[trigger]
            states.contains(state) && total_slots(state.stack) == deepest(states),
    decreases states.len(),
{
    if states.len() > 0 {
        let earlier = states.drop_last();
        lemma_deepest(earlier);
        assert forall|state: MachineState| #[trigger] states.contains(state) implies total_slots(
            state.stack,
        ) <= deepest(states) by {
            let i = choose|i: int| 0 <= i < states.len() && states[i] == state;
            if i < earlier.len() {
                assert(earlier[i] == state);
                assert(earlier.contains(state));
            }
        }
        if deepest(states) != 0 {
            if deepest(states) == total_slots(states.last().stack) {
                assert(states[states.len() - 1] == states.last());
                assert(states.contains(states.last()));
            } else {
                let state = choose|state: MachineState| #[trigger]
                    earlier.contains(state) && total_slots(state.stack) == deepest(earlier);
                let i = choose|i: int| 0 <= i < earlier.len() && earlier[i] == state;
                assert(states[i] == state);
                assert(states.contains(state));
            }
        }
    }
}

// ---- The result.
/// Some execution of the method has so many slots on the operand stack, before or after an instruction.
pub open spec fn occurs<'a>(code: Code<'a>, depth: nat) -> bool {
    exists|state: MachineState| #[trigger]
        reachable(code, state) && {
            ||| total_slots(state.stack) == depth
            ||| step(code, state) matches Ok(taken) && total_slots(taken.stack) == depth
        }
}

/// The result of an analysis that succeeds is the maximum of the depths that occur, and it fits the
/// field for it.
pub proof fn lemma_result_is_maximum<'a>(code: Code<'a>)
    requires
        code.instructions.len() > 0,
        max_depth(code) is Ok,
    ensures
        occurs(code, max_depth(code)->Ok_0),
        forall|depth: nat| #[trigger] occurs(code, depth) ==> depth <= max_depth(code)->Ok_0,
        max_depth(code)->Ok_0 <= u16::MAX,
{
    let result = max_depth(code)->Ok_0;
    lemma_search_ends(code);
    let place = choose|place: nat| ends(code, place);
    lemma_conclusion(code, place);
    let all = found(code, place);
    lemma_found_reachable(code, place);
    lemma_depth_within(code, place);
    assert(place >= all.len());
    assert(place == all.len()) by {
        if place > all.len() {
            assert(passes(code, (place - 1) as nat));
            lemma_found_stays(code, (place - 1) as nat, place);
        }
    }
    assert forall|depth: nat| #[trigger] occurs(code, depth) implies depth <= result by {
        let state = choose|state: MachineState| #[trigger]
            reachable(code, state) && {
                ||| total_slots(state.stack) == depth
                ||| step(code, state) matches Ok(taken) && total_slots(taken.stack) == depth
            };
        lemma_all_found(code, place, state);
        let i = choose|i: int| 0 <= i < all.len() && all[i] == state;
        let taken = lemma_passed(code, place, i as nat);
        assert(step_depth(step(code, all[i])->Ok_0) <= result);
        if total_slots(state.stack) == depth {
            lemma_before(code, state);
            if state != entry_state() {
                let before = choose|before: MachineState| #[trigger]
                    reachable(code, before) && may_follow(code, before, state);
                lemma_all_found(code, place, before);
                let j = choose|j: int| 0 <= j < all.len() && all[j] == before;
                let taken = lemma_passed(code, place, j as nat);
                lemma_deepest(taken.successors);
                assert(step_depth(step(code, all[j])->Ok_0) <= result);
            }
        }
    }
    if result == 0 {
        lemma_entry_reachable(code);
        assert(total_slots(entry_state().stack) == 0);
    } else {
        let i = choose|i: int|
            0 <= i < place && step_depth(step(code, #[trigger] all[i])->Ok_0) == result;
        let taken = lemma_passed(code, place, i as nat);
        assert(reachable(code, all[i]));
        lemma_deepest(taken.successors);
        if total_slots(taken.stack) != result {
            let next = choose|next: MachineState| #[trigger]
                taken.successors.contains(next) && total_slots(next.stack) == deepest(
                    taken.successors,
                );
            assert(may_follow(code, all[i], next));
            lemma_reachable_next(code, all[i], next);
            lemma_reachable_confined(code, next);
        }
    }
}

/// Every state but the first comes after another.
proof fn lemma_before<'a>(code: Code<'a>, state: MachineState)
    requires
        reachable(code, state),
    ensures
        state == entry_state() || exists|before: MachineState| #[trigger]
            reachable(code, before) && may_follow(code, before, state),
{
    let run = choose|run: Seq<MachineState>| #[trigger] is_run(code, run) && run.last() == state;
    if run.len() > 1 {
        let shorter = run.drop_last();
        assert forall|i: int| #![trigger shorter[i]] 0 <= i < shorter.len() - 1 implies may_follow(
            code,
            shorter[i],
            shorter[i + 1],
        ) by {
            assert(may_follow(code, run[i], run[i + 1]));
        }
        assert(is_run(code, shorter));
        assert(may_follow(code, run[run.len() - 2], run[run.len() - 2 + 1]));
        assert(reachable(code, shorter.last()));
    }
}

/// An analysis succeeds exactly if no execution comes to a fault, and otherwise reports a fault that some
/// execution comes to.
pub proof fn lemma_fault_is_reached<'a>(code: Code<'a>)
    requires
        well_formed(code),
    ensures
        max_depth(code) is Ok <==> forall|state: MachineState| #[trigger]
            reachable(code, state) ==> step(code, state) is Ok,
        max_depth(code) matches Err(fault) ==> exists|state: MachineState| #[trigger]
            reachable(code, state) && step(code, state) == Err::<Step, Fault>(fault),
{
    lemma_search_ends(code);
    let place = choose|place: nat| ends(code, place);
    lemma_conclusion(code, place);
    let all = found(code, place);
    lemma_found_reachable(code, place);
    if max_depth(code) is Ok {
        assert forall|state: MachineState| #[trigger] reachable(code, state) implies step(
            code,
            state,
        ) is Ok by {
            lemma_all_found(code, place, state);
            let i = choose|i: int| 0 <= i < all.len() && all[i] == state;
            let _ = lemma_passed(code, place, i as nat);
        }
    } else {
        assert(reachable(code, all[place as int]));
    }
}

/// An analysis succeeds only on code whose exception table has no fault; without code there is no table.
pub proof fn lemma_succeeds_on_sound_tables<'a>(code: Code<'a>)
    requires
        max_depth(code) is Ok,
    ensures
        forall|i: int| 0 <= i < code.handlers.len() ==> entry_fault(
            #[trigger] code.handlers[i],
            code.instructions.len(),
        ) is None,
{
    lemma_table_fault(code.handlers, code.instructions.len());
}

/// In code on which an analysis succeeds, no execution comes to an instruction with an invalid target, an
/// invalid descriptor, an invalid return address or a stack that does not suit it.
pub proof fn lemma_success_is_valid<'a>(code: Code<'a>, state: MachineState)
    requires
        max_depth(code) is Ok,
        code.instructions.len() > 0,
        reachable(code, state),
    ensures
        ({
            let instruction = code.instructions[state.instruction as int];
            let count = code.instructions.len();
            let targets = named_targets(instruction, state.instruction, count);
            &&& state.instruction < count
            &&& outcome_state(code, state) is Ok
            &&& match (call_target(instruction), return_local(instruction)) {
                (Some(target), _) => checked(target, count) matches Ok(start) && !in_progress(
                    state.subroutines,
                    start,
                ) && following(state.instruction, count) is Some,
                (None, Some(local)) => state.locals.contains_key(local) && state.locals[local]
                    is Active,
                (None, None) => {
                    &&& forall|i: int| 0 <= i < targets.len() ==> #[trigger] targets[i] is Ok
                    &&& stored_reference(instruction) is Some || rearranged(
                        instruction,
                        state.stack,
                    ) is Some || effect(instruction, code.constants) is Ok
                },
            }
        }),
{
    let instruction = code.instructions[state.instruction as int];
    lemma_fault_is_reached(code);
    lemma_reachable_confined(code, state);
    assert(step(code, state) is Ok);
    if call_target(instruction) is None && return_local(instruction) is None {
        lemma_targets_followed(code, state);
    }
}

// ---- Which instructions are followed.
/// Every entry of the exception table that guards an instruction is followed from the state before that
/// instruction: the thrown object is alone on the stack, and the local variables and the subroutine calls
/// are as they were.
pub proof fn lemma_handlers_followed<'a>(code: Code<'a>, state: MachineState, i: int)
    requires
        reachable(code, state),
        step(code, state) is Ok,
        0 <= i < code.handlers.len(),
        guards(code.handlers[i], state.instruction),
    ensures
        reachable(
            code,
            (MachineState {
                instruction: code.handlers[i].handler_pc as usize,
                stack: seq![StackValue::Category1],
                locals: state.locals,
                subroutines: state.subroutines,
            }),
        ),
{
    let next = handling(state, code.handlers[i]);
    lemma_handler_states(code.handlers, state);
    assert(handler_states(code.handlers, state).contains(next));
    lemma_first_part(code, state, next);
    lemma_reachable_next(code, state, next);
}

proof fn lemma_first_part<'a>(code: Code<'a>, state: MachineState, next: MachineState)
    requires
        step(code, state) is Ok,
        handler_states(code.handlers, state).contains(next),
    ensures
        may_follow(code, state, next),
{
    let first = handler_states(code.handlers, state);
    let all = step(code, state)->Ok_0.successors;
    let k = choose|k: int| 0 <= k < first.len() && first[k] == next;
    assert(all[k] == next);
}

proof fn lemma_second_part<'a>(code: Code<'a>, state: MachineState, next: MachineState)
    requires
        step(code, state) is Ok,
        continued(code, state.instruction, outcome_state(code, state)->Ok_0)->Ok_0.contains(next),
    ensures
        may_follow(code, state, next),
{
    let first = handler_states(code.handlers, state);
    let second = continued(code, state.instruction, outcome_state(code, state)->Ok_0)->Ok_0;
    let all = step(code, state)->Ok_0.successors;
    let k = choose|k: int| 0 <= k < second.len() && second[k] == next;
    assert(all[first.len() + k] == next);
}

/// Targets that are gathered are all there.
proof fn lemma_gathered(targets: Seq<Result<usize, Fault>>)
    ensures
        gathered(targets) matches Ok(list) ==> {
            &&& list.len() == targets.len()
            &&& forall|i: int|
                0 <= i < targets.len() ==> #[trigger] targets[i] == Ok::<usize, Fault>(list[i])
        },
    decreases targets.len(),
{
    if targets.len() > 0 && gathered(targets) is Ok {
        lemma_gathered(targets.drop_last());
        assert forall|i: int| 0 <= i < targets.len() implies #[trigger] targets[i] == Ok::<
            usize,
            Fault,
        >(gathered(targets)->Ok_0[i]) by {
            if i < targets.len() - 1 {
                assert(targets.drop_last()[i] == targets[i]);
            }
        }
    }
}

/// Every target that a branch or a switch names is followed, and so is the next instruction, unless the
/// instruction never goes on there. Each is followed with the stack as it is after the instruction.
pub proof fn lemma_targets_followed<'a>(code: Code<'a>, state: MachineState)
    requires
        reachable(code, state),
        step(code, state) is Ok,
        call_target(code.instructions[state.instruction as int]) is None,
        return_local(code.instructions[state.instruction as int]) is None,
    ensures
        ({
            let instruction = code.instructions[state.instruction as int];
            let count = code.instructions.len();
            let targets = named_targets(instruction, state.instruction, count);
            let after = outcome_state(code, state)->Ok_0;
            &&& forall|i: int|
                0 <= i < targets.len() ==> #[trigger] targets[i] is Ok && reachable(
                    code,
                    (MachineState { instruction: targets[i]->Ok_0, ..after }),
                )
            &&& !leaves(instruction) ==> (following(state.instruction, count) matches Some(next)
                ==> reachable(code, (MachineState { instruction: next, ..after })))
        }),
{
    let instruction = code.instructions[state.instruction as int];
    let count = code.instructions.len();
    let targets = named_targets(instruction, state.instruction, count);
    let after = outcome_state(code, state)->Ok_0;
    let list = exits(instruction, state.instruction, count)->Ok_0;
    let states = at_each(after, list);
    lemma_gathered(targets);
    assert(gathered(targets) is Ok);
    assert forall|i: int| 0 <= i < targets.len() implies #[trigger] targets[i] is Ok && reachable(
        code,
        (MachineState { instruction: targets[i]->Ok_0, ..after }),
    ) by {
        assert(targets[i] == Ok::<usize, Fault>(list[i]));
        assert(states[i] == (MachineState { instruction: list[i], ..after }));
        lemma_second_part(code, state, states[i]);
        lemma_reachable_next(code, state, states[i]);
    }
    if !leaves(instruction) {
        if let Some(next) = following(state.instruction, count) {
            let last = states[list.len() - 1];
            assert(last == (MachineState { instruction: next, ..after }));
            lemma_second_part(code, state, last);
            lemma_reachable_next(code, state, last);
        }
    }
}

/// A `jsr` is followed to its subroutine, and a `ret` to the instruction after the `jsr` that it belongs
/// to.
pub proof fn lemma_subroutines_followed<'a>(code: Code<'a>, state: MachineState)
    requires
        reachable(code, state),
        step(code, state) is Ok,
        call_target(code.instructions[state.instruction as int]) is Some || return_local(
            code.instructions[state.instruction as int],
        ) is Some,
    ensures
        reachable(code, outcome_state(code, state)->Ok_0),
{
    let after = outcome_state(code, state)->Ok_0;
    assert(seq![after][0] == after);
    lemma_second_part(code, state, after);
    lemma_reachable_next(code, state, after);
}

// ---- What changes of the code do to the result.
/// One piece of code has the instructions and constants of another and all its exception handlers.
pub open spec fn extends_handlers<'a>(code: Code<'a>, base: Code<'a>) -> bool {
    &&& code.instructions == base.instructions
    &&& code.constants == base.constants
    &&& forall|i: int|
        0 <= i < base.handlers.len() ==> code.handlers.contains(#[trigger] base.handlers[i])
}

proof fn lemma_follows_with_handlers<'a>(
    code: Code<'a>,
    base: Code<'a>,
    state: MachineState,
    next: MachineState,
)
    requires
        extends_handlers(code, base),
        may_follow(base, state, next),
    ensures
        may_follow(code, state, next),
{
    let first = handler_states(base.handlers, state);
    let all = step(base, state)->Ok_0.successors;
    let k = choose|k: int| 0 <= k < all.len() && all[k] == next;
    if k < first.len() {
        assert(first[k] == next);
        lemma_handler_states(base.handlers, state);
        assert(first.contains(next));
        let i = choose|i: int|
            0 <= i < base.handlers.len() && guards(#[trigger] base.handlers[i], state.instruction)
                && next == handling(state, base.handlers[i]);
        assert(code.handlers.contains(base.handlers[i]));
        let j = choose|j: int| 0 <= j < code.handlers.len() && code.handlers[j] == base.handlers[i];
        lemma_handler_states(code.handlers, state);
        assert(guards(code.handlers[j], state.instruction));
        lemma_first_part(code, state, next);
    } else {
        let second = continued(base, state.instruction, outcome_state(base, state)->Ok_0)->Ok_0;
        assert(second[k - first.len()] == next);
        lemma_second_part(code, state, next);
    }
}

/// What can be reached without some exception handlers can be reached with them.
pub proof fn lemma_reached_with_handlers<'a>(code: Code<'a>, base: Code<'a>, state: MachineState)
    requires
        extends_handlers(code, base),
        reachable(base, state),
    ensures
        reachable(code, state),
{
    let run = choose|run: Seq<MachineState>| #[trigger] is_run(base, run) && run.last() == state;
    assert forall|i: int| #![trigger run[i]] 0 <= i < run.len() - 1 implies may_follow(
        code,
        run[i],
        run[i + 1],
    ) by {
        lemma_follows_with_handlers(code, base, run[i], run[i + 1]);
    }
    assert(is_run(code, run));
}

/// Taking exception handlers away neither brings a fault nor makes the maximum larger.
pub proof fn lemma_more_handlers<'a>(code: Code<'a>, base: Code<'a>)
    requires
        extends_handlers(code, base),
        max_depth(code) is Ok,
    ensures
        max_depth(base) is Ok,
        max_depth(base)->Ok_0 <= max_depth(code)->Ok_0,
{
    if code.instructions.len() == 0 {
        if base.handlers.len() > 0 {
            assert(code.handlers.contains(base.handlers[0]));
        }
    } else {
        let count = code.instructions.len();
        lemma_table_fault(code.handlers, count);
        lemma_table_fault(base.handlers, count);
        assert forall|i: int| 0 <= i < base.handlers.len() implies entry_fault(
            #[trigger] base.handlers[i],
            count,
        ) is None by {
            assert(code.handlers.contains(base.handlers[i]));
        }
        assert forall|state: MachineState| #[trigger] reachable(base, state) implies reachable(
            code,
            state,
        ) by {
            lemma_reached_with_handlers(code, base, state);
        }
        lemma_fault_is_reached(code);
        lemma_fault_is_reached(base);
        assert forall|state: MachineState| #[trigger] reachable(base, state) implies step(
            base,
            state,
        ) is Ok by {
            assert(reachable(code, state));
            assert(step(code, state) is Ok);
        }
        lemma_result_is_maximum(code);
        lemma_result_is_maximum(base);
        let depth = max_depth(base)->Ok_0;
        let state = choose|state: MachineState| #[trigger]
            reachable(base, state) && {
                ||| total_slots(state.stack) == depth
                ||| step(base, state) matches Ok(taken) && total_slots(taken.stack) == depth
            };
        assert(reachable(code, state));
        assert(occurs(code, depth));
    }
}

/// Taking exception handlers away leaves no more stacks to keep.
pub proof fn lemma_fewer_stacks<'a>(code: Code<'a>, base: Code<'a>)
    requires
        extends_handlers(code, base),
        max_depth(code) is Ok,
        !exhausts_stacks(code),
    ensures
        !exhausts_stacks(base),
{
    if well_formed(base) {
        lemma_search_ends(code);
        let place = choose|place: nat| ends(code, place);
        lemma_conclusion(code, place);
        let all = found(code, place);
        assert(looks_through(code, place));
        assert forall|looked_at: nat| #[trigger] looks_through(base, looked_at) implies built(
            base,
            looked_at,
        ).len() <= usize::MAX by {
            lemma_built_bounded(base, looked_at);
            lemma_built_bounded(code, place);
            assert forall|stack: Seq<StackValue>| #[trigger]
                built(base, looked_at).contains(stack) implies built(code, place).contains(stack) by {
                assert(is_built(base, looked_at, stack));
                let j = choose|j: nat|
                    {
                        &&& j < looked_at
                        &&& j < found(base, j).len()
                        &&& #[trigger] builds(base, found(base, j)[j as int], stack)
                    };
                let state = found(base, j)[j as int];
                lemma_found_reachable(base, j);
                lemma_reached_with_handlers(code, base, state);
                lemma_all_found(code, place, state);
                let i = choose|i: int| 0 <= i < all.len() && all[i] == state;
                let _ = lemma_passed(code, place, i as nat);
                lemma_builds_with_handlers(code, base, state, stack);
                assert(builds(code, found(code, i as nat)[i], stack));
            }
            lemma_len_subset(built(base, looked_at), built(code, place));
        }
    }
}

proof fn lemma_builds_with_handlers<'a>(
    code: Code<'a>,
    base: Code<'a>,
    state: MachineState,
    stack: Seq<StackValue>,
)
    requires
        extends_handlers(code, base),
        builds(base, state, stack),
    ensures
        builds(code, state, stack),
{
    let first = handler_states(base.handlers, state);
    if first.len() > 0 {
        lemma_handler_states(base.handlers, state);
        assert(first.contains(first[0]));
        let i = choose|i: int|
            0 <= i < base.handlers.len() && guards(#[trigger] base.handlers[i], state.instruction)
                && first[0] == handling(state, base.handlers[i]);
        assert(code.handlers.contains(base.handlers[i]));
        let j = choose|j: int| 0 <= j < code.handlers.len() && code.handlers[j] == base.handlers[i];
        lemma_handler_states(code.handlers, state);
        assert(guards(code.handlers[j], state.instruction));
        assert(handler_states(code.handlers, state).contains(first[0]));
    }
}

/// An analysis with more exception handlers that succeeds shows that one with fewer succeeds, with a
/// result that is no larger: an added handler never lowers the result and never turns an error into
/// success.
pub proof fn lemma_added_handlers<'a>(
    code: Code<'a>,
    base: Code<'a>,
    with_more: Result<u16, Error>,
    with_fewer: Result<u16, Error>,
)
    requires
        extends_handlers(code, base),
        analyzed(code, with_more),
        analyzed(base, with_fewer),
        with_more is Ok,
    ensures
        with_fewer matches Ok(depth) && depth <= with_more->Ok_0,
{
    lemma_more_handlers(code, base);
    lemma_fewer_stacks(code, base);
}

/// Neither the order of the exception handlers nor repetitions among them make a difference to a result
/// of success.
pub proof fn lemma_same_handlers<'a>(
    code: Code<'a>,
    other: Code<'a>,
    result: Result<u16, Error>,
    other_result: Result<u16, Error>,
)
    requires
        extends_handlers(code, other),
        extends_handlers(other, code),
        analyzed(code, result),
        analyzed(other, other_result),
    ensures
        result is Ok <==> other_result is Ok,
        result matches Ok(depth) ==> other_result == Ok::<u16, Error>(depth),
{
    if result is Ok {
        lemma_added_handlers(code, other, result, other_result);
    }
    if other_result is Ok {
        lemma_added_handlers(other, code, other_result, result);
    }
}

/// Two results say the same: the same depth, or errors with the same content.
pub open spec fn say_the_same(a: Result<u16, Error>, b: Result<u16, Error>) -> bool {
    match (a, b) {
        (Ok(x), Ok(y)) => x == y,
        (Err(x), Err(y)) => x@ == y@,
        _ => false,
    }
}

/// All analyses of the same code come to the same result. In particular an analysis without an exception
/// table comes to what one with an empty table comes to, on success and on error alike.
pub proof fn lemma_one_result<'a>(code: Code<'a>, a: Result<u16, Error>, b: Result<u16, Error>)
    requires
        analyzed(code, a),
        analyzed(code, b),
    ensures
        say_the_same(a, b),
{
}

/// Two pieces of code do the same in every state that an execution of the one comes to.
pub open spec fn does_the_same<'a>(other: Code<'a>, code: Code<'a>) -> bool {
    forall|state: MachineState| #[trigger]
        reachable(code, state) ==> step(other, state) == step(code, state) && forall|
            stack: Seq<StackValue>,
        | #[trigger]
            builds(other, state, stack) <==> builds(code, state, stack)
}

/// As far as the search passes, it is the same for code that does the same.
proof fn lemma_same_search<'a>(code: Code<'a>, other: Code<'a>, place: nat)
    requires
        does_the_same(other, code),
        forall|earlier: nat| earlier < place ==> #[trigger] passes(code, earlier),
    ensures
        found(other, place) == found(code, place),
        depth_within(other, place) == depth_within(code, place),
        passes(other, place) == passes(code, place),
        conclusion(other, place) == conclusion(code, place),
    decreases place,
{
    lemma_found_reachable(code, place);
    if place > 0 {
        let before = (place - 1) as nat;
        assert(passes(code, before));
        lemma_same_search(code, other, before);
        lemma_found_reachable(code, before);
        assert(reachable(code, found(code, before)[before as int]));
    }
    if place < found(code, place).len() {
        assert(reachable(code, found(code, place)[place as int]));
    }
}

proof fn lemma_same_passes<'a>(code: Code<'a>, other: Code<'a>, place: nat)
    requires
        does_the_same(other, code),
    ensures
        (forall|earlier: nat| earlier < place ==> #[trigger] passes(other, earlier)) <==> (forall|
            earlier: nat,
        |
            earlier < place ==> #[trigger] passes(code, earlier)),
    decreases place,
{
    if place > 0 {
        let before = (place - 1) as nat;
        lemma_same_passes(code, other, before);
        if forall|earlier: nat| earlier < before ==> #[trigger] passes(code, earlier) {
            lemma_same_search(code, other, before);
            if passes(code, before) {
                assert forall|earlier: nat| earlier < place implies #[trigger] passes(
                    code,
                    earlier,
                ) by {
                    assert(earlier < before || earlier == before);
                }
                assert forall|earlier: nat| earlier < place implies #[trigger] passes(
                    other,
                    earlier,
                ) by {
                    assert(earlier < before || earlier == before);
                }
            }
        } else {
            let failed = choose|earlier: nat| earlier < before && !(#[trigger] passes(code, earlier));
            assert(failed < place && !passes(code, failed));
            let other_failed = choose|earlier: nat|
                earlier < before && !(#[trigger] passes(other, earlier));
            assert(other_failed < place && !passes(other, other_failed));
        }
    }
}

proof fn lemma_same_stacks<'a>(code: Code<'a>, other: Code<'a>, looked_at: nat)
    requires
        does_the_same(other, code),
    ensures
        looks_through(other, looked_at) <==> looks_through(code, looked_at),
        looks_through(code, looked_at) ==> built(other, looked_at) == built(code, looked_at),
{
    if looked_at > 0 {
        let last = (looked_at - 1) as nat;
        lemma_same_passes(code, other, last);
        assert(looks_through(code, looked_at) <==> (forall|earlier: nat|
            earlier < last ==> #[trigger] passes(code, earlier)));
        assert(looks_through(other, looked_at) <==> (forall|earlier: nat|
            earlier < last ==> #[trigger] passes(other, earlier)));
    }
    if looks_through(code, looked_at) {
        assert forall|stack: Seq<StackValue>| #[trigger]
            is_built(other, looked_at, stack) <==> is_built(code, looked_at, stack) by {
            assert forall|place: nat| place < looked_at implies found(other, place) == #[trigger] found(
                code,
                place,
            ) && (place < found(code, place).len() ==> (builds(
                other,
                found(code, place)[place as int],
                stack,
            ) <==> builds(code, found(code, place)[place as int], stack))) by {
                assert forall|earlier: nat| earlier < place implies #[trigger] passes(
                    code,
                    earlier,
                ) by {
                    assert(earlier + 1 < looked_at);
                }
                lemma_same_search(code, other, place);
                lemma_found_reachable(code, place);
                if place < found(code, place).len() {
                    assert(reachable(code, found(code, place)[place as int]));
                }
            }
            if is_built(code, looked_at, stack) {
                let place = choose|place: nat|
                    {
                        &&& place < looked_at
                        &&& place < found(code, place).len()
                        &&& #[trigger] builds(code, found(code, place)[place as int], stack)
                    };
                assert(found(other, place) == found(code, place));
                assert(builds(other, found(other, place)[place as int], stack));
            }
            if is_built(other, looked_at, stack) {
                let place = choose|place: nat|
                    {
                        &&& place < looked_at
                        &&& place < found(other, place).len()
                        &&& #[trigger] builds(other, found(other, place)[place as int], stack)
                    };
                assert(found(other, place) == found(code, place));
                assert(builds(code, found(code, place)[place as int], stack));
            }
        }
        assert(built(other, looked_at) =~= built(code, looked_at));
    }
}

/// Code that does the same in every state that can be reached has the same result.
pub proof fn lemma_same_result<'a>(code: Code<'a>, other: Code<'a>)
    requires
        well_formed(code),
        well_formed(other),
        does_the_same(other, code),
    ensures
        max_depth(other) == max_depth(code),
        exhausts_stacks(other) == exhausts_stacks(code),
{
    lemma_search_ends(code);
    let place = choose|place: nat| ends(code, place);
    lemma_same_search(code, other, place);
    lemma_same_passes(code, other, place);
    assert(ends(other, place));
    lemma_conclusion(code, place);
    lemma_conclusion(other, place);
    assert forall|looked_at: nat|
        #![trigger looks_through(code, looked_at)]
        #![trigger looks_through(other, looked_at)]
        (looks_through(other, looked_at) && built(other, looked_at).len() > usize::MAX) <==> (
        looks_through(code, looked_at) && built(code, looked_at).len() > usize::MAX) by {
        lemma_same_stacks(code, other, looked_at);
    }
}

/// An instruction that no execution comes to makes no difference to the result.
pub proof fn lemma_unreachable_instruction<'a>(code: Code<'a>, index: int, instruction: Instruction)
    requires
        0 <= index < code.instructions.len(),
        forall|state: MachineState| #[trigger]
            reachable(code, state) ==> state.instruction != index,
    ensures
        ({
            let other = Code { instructions: code.instructions.update(index, instruction), ..code };
            &&& max_depth(other) == max_depth(code)
            &&& exhausts_stacks(other) == exhausts_stacks(code)
        }),
{
    let other = Code { instructions: code.instructions.update(index, instruction), ..code };
    if well_formed(code) {
        assert forall|state: MachineState| #[trigger] reachable(code, state) implies step(
            other,
            state,
        ) == step(code, state) && forall|stack: Seq<StackValue>| #[trigger]
            builds(other, state, stack) <==> builds(code, state, stack) by {
            lemma_reachable_confined(code, state);
            assert(other.instructions[state.instruction as int]
                == code.instructions[state.instruction as int]);
        }
        lemma_same_result(code, other);
    }
}

/// A piece of code begins with another, which ends in a `return`, and has its constants and its exception
/// handlers.
pub open spec fn extends_code<'a>(longer: Code<'a>, code: Code<'a>) -> bool {
    &&& code.instructions.len() > 0
    &&& code.instructions.last() is Return
    &&& code.instructions.is_prefix_of(longer.instructions)
    &&& longer.constants == code.constants
    &&& longer.handlers == code.handlers
}

proof fn lemma_longer_code<'a>(code: Code<'a>, longer: Code<'a>)
    requires
        extends_code(longer, code),
        max_depth(code) is Ok,
    ensures
        max_depth(longer) == max_depth(code),
        exhausts_stacks(longer) == exhausts_stacks(code),
{
    lemma_table_fault(code.handlers, code.instructions.len());
    lemma_table_fault(longer.handlers, longer.instructions.len());
    assert forall|i: int| 0 <= i < code.handlers.len() implies entry_fault(
        #[trigger] code.handlers[i],
        longer.instructions.len(),
    ) is None by {
        assert(entry_fault(code.handlers[i], code.instructions.len()) is None);
    }
    lemma_fault_is_reached(code);
    assert forall|state: MachineState| #[trigger] reachable(code, state) implies step(
        longer,
        state,
    ) == step(code, state) && forall|stack: Seq<StackValue>| #[trigger]
        builds(longer, state, stack) <==> builds(code, state, stack) by {
        lemma_reachable_confined(code, state);
        lemma_step_in_longer_code(code, longer, state);
    }
    lemma_same_result(code, longer);
}

/// Instructions behind a final `return` make no difference to code without faults: nothing leads there.
pub proof fn lemma_appended_instructions<'a>(code: Code<'a>, more: Seq<Instruction>)
    requires
        code.instructions.len() > 0,
        code.instructions.last() is Return,
        max_depth(code) is Ok,
    ensures
        max_depth((Code { instructions: code.instructions + more, ..code })) == max_depth(code),
        exhausts_stacks((Code { instructions: code.instructions + more, ..code }))
            == exhausts_stacks(code),
{
    lemma_longer_code(code, Code { instructions: code.instructions + more, ..code });
}

/// An analysis that succeeds has the same result when instructions are added behind a final `return`.
pub proof fn lemma_result_of_longer_code<'a>(
    code: Code<'a>,
    longer: Code<'a>,
    result: Result<u16, Error>,
    longer_result: Result<u16, Error>,
)
    requires
        extends_code(longer, code),
        analyzed(code, result),
        analyzed(longer, longer_result),
        result is Ok,
    ensures
        longer_result == result,
{
    lemma_longer_code(code, longer);
}

proof fn lemma_step_in_longer_code<'a>(code: Code<'a>, longer: Code<'a>, state: MachineState)
    requires
        extends_code(longer, code),
        state.instruction < code.instructions.len(),
        step(code, state) is Ok,
    ensures
        step(longer, state) == step(code, state),
        outcome_state(longer, state) == outcome_state(code, state),
{
    let index = state.instruction;
    let instruction = code.instructions[index as int];
    assert(longer.instructions[index as int] == instruction);
    if index + 1 == code.instructions.len() {
        assert(instruction is Return);
    }
    let targets = named_targets(instruction, index, code.instructions.len());
    let longer_targets = named_targets(instruction, index, longer.instructions.len());
    if call_target(instruction) is None && return_local(instruction) is None {
        lemma_gathered(targets);
        assert(targets.len() == longer_targets.len());
        assert forall|i: int| 0 <= i < targets.len() implies targets[i] == longer_targets[i] by {
            assert(targets[i] is Ok);
        }
        assert(targets =~= longer_targets);
    }
}

/// Two exception tables differ at most in what their handlers catch.
pub open spec fn differ_in_catch_types(
    handlers: Seq<ExceptionTableEntry>,
    others: Seq<ExceptionTableEntry>,
) -> bool {
    &&& handlers.len() == others.len()
    &&& forall|i: int|
        #![trigger handlers[i]]
        #![trigger others[i]]
        0 <= i < handlers.len() ==> handlers[i].range_pc == others[i].range_pc
            && handlers[i].handler_pc == others[i].handler_pc
}

proof fn lemma_catch_types_in_table(
    handlers: Seq<ExceptionTableEntry>,
    others: Seq<ExceptionTableEntry>,
    state: MachineState,
    count: nat,
)
    requires
        differ_in_catch_types(handlers, others),
    ensures
        handler_states(others, state) == handler_states(handlers, state),
        table_fault(others, count) == table_fault(handlers, count),
    decreases handlers.len(),
{
    if handlers.len() > 0 {
        assert forall|i: int|
            #![trigger handlers.drop_last()[i]]
            #![trigger others.drop_last()[i]]
            0 <= i < handlers.len() - 1 implies handlers.drop_last()[i].range_pc
            == others.drop_last()[i].range_pc && handlers.drop_last()[i].handler_pc
            == others.drop_last()[i].handler_pc by {
            assert(handlers[i].range_pc == others[i].range_pc);
        }
        lemma_catch_types_in_table(handlers.drop_last(), others.drop_last(), state, count);
        assert(handlers[handlers.len() - 1].range_pc == others[handlers.len() - 1].range_pc);
    }
}

/// What the exception handlers catch makes no difference: code with tables that differ in nothing else has
/// the same maximum or fault, and the same stacks to keep.
pub proof fn lemma_catch_types<'a>(code: Code<'a>, other: Code<'a>)
    requires
        other.instructions == code.instructions,
        other.constants == code.constants,
        differ_in_catch_types(code.handlers, other.handlers),
    ensures
        max_depth(other) == max_depth(code),
        exhausts_stacks(other) == exhausts_stacks(code),
{
    let count = code.instructions.len();
    lemma_catch_types_in_table(code.handlers, other.handlers, entry_state(), count);
    if well_formed(code) {
        assert forall|state: MachineState| #[trigger] reachable(code, state) implies step(
            other,
            state,
        ) == step(code, state) && forall|stack: Seq<StackValue>| #[trigger]
            builds(other, state, stack) <==> builds(code, state, stack) by {
            lemma_catch_types_in_table(code.handlers, other.handlers, state, count);
        }
        lemma_same_result(code, other);
    }
}

/// Analyses with exception tables that differ in nothing but what the handlers catch come to the same
/// result, on success and on error alike.
pub proof fn lemma_result_of_catch_types<'a>(
    code: Code<'a>,
    other: Code<'a>,
    result: Result<u16, Error>,
    other_result: Result<u16, Error>,
)
    requires
        other.instructions == code.instructions,
        other.constants == code.constants,
        differ_in_catch_types(code.handlers, other.handlers),
        analyzed(code, result),
        analyzed(other, other_result),
    ensures
        say_the_same(result, other_result),
{
    lemma_catch_types(code, other);
}

} // verus!
