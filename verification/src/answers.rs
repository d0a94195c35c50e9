//! What the answers of the analysis mean, without regard to how they are found.
use vstd::prelude::*;

use crate::analysis::analyzed;
use crate::arena::{too_deep, too_many_stacks, underflow, unknown_stack};
use crate::bounds::lemma_search_ends;
use crate::capacity::exhausts_stacks;
use crate::confinement::{lemma_entry_reachable, lemma_found_reachable, well_formed};
use crate::error::{Error, Fault};
use crate::instruction::ExceptionTableEntry;
use crate::machine::{
    address_consumed, address_read, address_reused, call_not_active, entry_state, expected_category1,
    no_address, no_continuation, recursive_call, step, table_fault, unsupported_width, value_split,
    Code, MachineState, Step,
};
use crate::search::{
    ends, found, is_run, lemma_conclusion, lemma_with_states, max_depth, may_follow, passes, reachable,
    with_states,
};
use crate::soundness::{
    lemma_fault_is_reached, lemma_found_stays, lemma_result_is_maximum, occurs,
};
use crate::text::{decimal, digit};
use crate::value::{total_slots, StackValue};

verus! {

// ---- Slots.
/// A `long` or `double` has two slots, every other value one; a stack has the slots of its values.
pub proof fn lemma_slots(stack: Seq<StackValue>, value: StackValue)
    ensures
        total_slots(Seq::<StackValue>::empty()) == 0,
        total_slots(stack.push(StackValue::Category2)) == total_slots(stack) + 2,
        value != StackValue::Category2 ==> total_slots(stack.push(value)) == total_slots(stack) + 1,
{
    assert(stack.push(value).drop_last() =~= stack);
    assert(stack.push(StackValue::Category2).drop_last() =~= stack);
}

// ---- Answers.
/// A method is entered at its first instruction, with nothing on the stack, no return address in a local
/// variable, and no subroutine called.
pub proof fn lemma_method_entry<'a>(code: Code<'a>)
    ensures
        reachable(
            code,
            (MachineState {
                instruction: 0,
                stack: Seq::empty(),
                locals: Map::empty(),
                subroutines: Seq::empty(),
            }),
        ),
{
    lemma_entry_reachable(code);
}

/// Without code the depth is zero, and there can be no exception handlers.
pub proof fn lemma_no_code<'a>(code: Code<'a>, result: Result<u16, Error>)
    requires
        code.instructions.len() == 0,
        analyzed(code, result),
    ensures
        code.handlers.len() == 0 ==> result == Ok::<u16, Error>(0),
        code.handlers.len() > 0 ==> (result matches Err(error) && error@
            == Fault::InvalidInstructionOffset(0)),
{
}

/// An entry of the exception table covers at least one instruction, ends within the code, and has its
/// handler there.
pub open spec fn sound_entry(entry: ExceptionTableEntry, count: nat) -> bool {
    &&& entry.range_pc.start < entry.range_pc.end
    &&& entry.range_pc.end <= count
    &&& entry.handler_pc < count
}

proof fn lemma_table(handlers: Seq<ExceptionTableEntry>, count: nat, i: int)
    ensures
        (forall|j: int| 0 <= j < handlers.len() ==> sound_entry(#[trigger] handlers[j], count))
            ==> table_fault(handlers, count) is None,
        0 <= i < handlers.len() && (forall|j: int|
            0 <= j < i ==> sound_entry(#[trigger] handlers[j], count)) && !sound_entry(
            handlers[i],
            count,
        ) ==> table_fault(handlers, count) == Some(
            Fault::InvalidInstructionOffset(
                if handlers[i].range_pc.start >= handlers[i].range_pc.end {
                    handlers[i].range_pc.start as u32
                } else if handlers[i].range_pc.end > count {
                    handlers[i].range_pc.end as u32
                } else {
                    handlers[i].handler_pc as u32
                },
            ),
        ),
    decreases handlers.len(),
{
    if handlers.len() > 0 {
        let earlier = handlers.drop_last();
        lemma_table(earlier, count, i);
        assert(forall|j: int| 0 <= j < earlier.len() ==> #[trigger] earlier[j] == handlers[j]);
        assert(handlers[handlers.len() - 1] == handlers.last());
        if forall|j: int| 0 <= j < handlers.len() ==> sound_entry(#[trigger] handlers[j], count) {
            assert forall|j: int| 0 <= j < earlier.len() implies sound_entry(
                #[trigger] earlier[j],
                count,
            ) by {
                assert(sound_entry(handlers[j], count));
            }
        }
        if 0 <= i < handlers.len() && (forall|j: int|
            0 <= j < i ==> sound_entry(#[trigger] handlers[j], count)) {
            assert forall|j: int| 0 <= j < i && j < earlier.len() implies sound_entry(
                #[trigger] earlier[j],
                count,
            ) by {
                assert(sound_entry(handlers[j], count));
            }
        }
    }
}

/// The first entry of the exception table that is not sound is reported, before anything else: by its
/// start if it covers nothing, by its end if that is beyond the code, and otherwise by its handler.
pub proof fn lemma_unsound_table<'a>(code: Code<'a>, i: int, result: Result<u16, Error>)
    requires
        code.instructions.len() > 0,
        0 <= i < code.handlers.len(),
        forall|j: int|
            0 <= j < i ==> sound_entry(#[trigger] code.handlers[j], code.instructions.len()),
        !sound_entry(code.handlers[i], code.instructions.len()),
        analyzed(code, result),
    ensures
        result matches Err(error) && error@ == Fault::InvalidInstructionOffset(
            if code.handlers[i].range_pc.start >= code.handlers[i].range_pc.end {
                code.handlers[i].range_pc.start as u32
            } else if code.handlers[i].range_pc.end > code.instructions.len() {
                code.handlers[i].range_pc.end as u32
            } else {
                code.handlers[i].handler_pc as u32
            },
        ),
{
    lemma_table(code.handlers, code.instructions.len(), i);
}

/// An analysis of code with sound exception handlers succeeds exactly if no execution comes to a fault and
/// there are identifiers enough, and then the result is the maximum of the depths that occur. Otherwise it
/// reports the lack of identifiers, or a fault that an execution comes to.
pub proof fn lemma_answer<'a>(code: Code<'a>, result: Result<u16, Error>)
    requires
        code.instructions.len() > 0,
        forall|i: int|
            0 <= i < code.handlers.len() ==> sound_entry(
                #[trigger] code.handlers[i],
                code.instructions.len(),
            ),
        analyzed(code, result),
    ensures
        result is Ok <==> !exhausts_stacks(code) && forall|state: MachineState| #[trigger]
            reachable(code, state) ==> step(code, state) is Ok,
        result matches Ok(depth) ==> {
            &&& forall|state: MachineState| #[trigger]
                reachable(code, state) ==> total_slots(state.stack) <= depth && total_slots(
                    step(code, state)->Ok_0.stack,
                ) <= depth
            &&& exists|state: MachineState| #[trigger]
                reachable(code, state) && (total_slots(state.stack) == depth || total_slots(
                    step(code, state)->Ok_0.stack,
                ) == depth)
        },
        result matches Err(error) ==> {
            ||| exhausts_stacks(code) && error@ == too_many_stacks()
            ||| exists|state: MachineState| #[trigger]
                reachable(code, state) && step(code, state) == Err::<Step, Fault>(error@)
        },
{
    lemma_table(code.handlers, code.instructions.len(), 0);
    lemma_fault_is_reached(code);
    if let Ok(depth) = result {
        lemma_result_is_maximum(code);
        assert forall|state: MachineState| #[trigger] reachable(code, state) implies total_slots(
            state.stack,
        ) <= depth && total_slots(step(code, state)->Ok_0.stack) <= depth by {
            assert(step(code, state) is Ok);
            assert(occurs(code, total_slots(state.stack)));
            assert(occurs(code, total_slots(step(code, state)->Ok_0.stack)));
        }
        assert(occurs(code, depth as nat));
    }
}

// ---- Which fault is reported.
/// How many steps lead to each state that was found.
spec fn levels<'a>(code: Code<'a>, looked_at: nat) -> Seq<nat>
    decreases looked_at,
{
    if looked_at == 0 {
        seq![0]
    } else {
        let place = (looked_at - 1) as nat;
        let earlier = levels(code, place);
        Seq::new(
            found(code, looked_at).len(),
            |i: int|
                if i < earlier.len() {
                    earlier[i]
                } else {
                    earlier[place as int] + 1
                },
        )
    }
}

proof fn lemma_levels<'a>(code: Code<'a>, place: nat)
    requires
        forall|earlier: nat| earlier < place ==> #[trigger] passes(code, earlier),
    ensures
        levels(code, place).len() == found(code, place).len(),
        levels(code, place)[0] == 0,
        found(code, place).len() > 0,
        forall|i: int, j: int|
            0 <= i <= j < levels(code, place).len() ==> #[trigger] levels(code, place)[i]
                <= #[trigger] levels(code, place)[j],
        forall|i: int, j: int|
            place <= i < levels(code, place).len() && 0 <= j < levels(code, place).len()
                ==> #[trigger] levels(code, place)[j] <= #[trigger] levels(code, place)[i] + 1,
        place == found(code, place).len() || place < found(code, place).len(),
        place > 0 ==> forall|j: int|
            0 <= j < levels(code, place).len() ==> #[trigger] levels(code, place)[j] <= levels(
                code,
                place,
            )[place - 1] + 1,
    decreases place,
{
    lemma_found_reachable(code, place);
    if place > 0 {
        let before = (place - 1) as nat;
        assert(passes(code, before));
        lemma_levels(code, before);
        lemma_found_stays(code, before, place);
        let earlier = levels(code, before);
        let now = levels(code, place);
        assert(forall|i: int| 0 <= i < earlier.len() ==> #[trigger] now[i] == earlier[i]);
        assert(forall|i: int|
            earlier.len() <= i < now.len() ==> #[trigger] now[i] == earlier[before as int] + 1);
        assert forall|j: int| 0 <= j < now.len() implies #[trigger] now[j] <= now[place - 1] + 1 by {
            if j < earlier.len() {
                assert(earlier[j] <= earlier[before as int] + 1);
            }
        }
        assert forall|i: int, j: int| 0 <= i <= j < now.len() implies #[trigger] now[i]
            <= #[trigger] now[j] by {
            if j < earlier.len() {
                assert(earlier[i] <= earlier[j]);
            } else if i < earlier.len() {
                assert(earlier[i] <= earlier[before as int] + 1);
            }
        }
        assert forall|i: int, j: int|
            place <= i < now.len() && 0 <= j < now.len() implies #[trigger] now[j] <= #[trigger] now[i]
            + 1 by {
            assert(now[place - 1] <= now[i]);
            assert(now[j] <= now[place - 1] + 1);
        }
    }
}

/// The steps of a successor are at most one more than those of the state that it comes after.
proof fn lemma_level_of_next<'a>(code: Code<'a>, place: nat, i: nat, next: MachineState) -> (k: int)
    requires
        forall|earlier: nat| earlier < place ==> #[trigger] passes(code, earlier),
        i < place,
        may_follow(code, found(code, place)[i as int], next),
    ensures
        0 <= k < found(code, place).len(),
        found(code, place)[k] == next,
        levels(code, place)[k] <= levels(code, place)[i as int] + 1,
    decreases place,
{
    let before = (place - 1) as nat;
    lemma_levels(code, place);
    lemma_levels(code, before);
    lemma_found_stays(code, before, place);
    assert(passes(code, before));
    if i < before {
        assert(passes(code, i));
        lemma_found_stays(code, i, before);
        assert(found(code, place)[i as int] == found(code, before)[i as int]);
        let k = lemma_level_of_next(code, before, i, next);
        k
    } else {
        let state = found(code, before)[before as int];
        assert(found(code, place)[i as int] == state);
        let taken = step(code, state)->Ok_0;
        lemma_with_states(found(code, before), taken.successors);
        assert(found(code, place) == with_states(found(code, before), taken.successors));
        assert(found(code, place).contains(next));
        let k = choose|k: int| 0 <= k < found(code, place).len() && found(code, place)[k] == next;
        assert(levels(code, place)[k] <= levels(code, place)[place - 1] + 1);
        k
    }
}

proof fn lemma_run_levels<'a>(
    code: Code<'a>,
    place: nat,
    run: Seq<MachineState>,
    t: int,
) -> (k: int)
    requires
        forall|earlier: nat| earlier < place ==> #[trigger] passes(code, earlier),
        place < found(code, place).len(),
        is_run(code, run),
        0 <= t < run.len(),
        t <= levels(code, place)[place as int],
    ensures
        0 <= k < found(code, place).len(),
        found(code, place)[k] == run[t],
        levels(code, place)[k] <= t,
    decreases t,
{
    lemma_levels(code, place);
    lemma_found_reachable(code, place);
    if t == 0 {
        0
    } else {
        let i = lemma_run_levels(code, place, run, t - 1);
        assert(may_follow(code, run[t - 1], run[t - 1 + 1]));
        assert(i < place) by {
            if i >= place {
                assert(levels(code, place)[place as int] <= levels(code, place)[i]);
            }
        }
        lemma_level_of_next(code, place, i as nat, run[t])
    }
}

/// The states found so far are reached in as many steps as they are counted.
proof fn lemma_level_run<'a>(code: Code<'a>, place: nat, i: int) -> (run: Seq<MachineState>)
    requires
        forall|earlier: nat| earlier < place ==> #[trigger] passes(code, earlier),
        0 <= i < found(code, place).len(),
    ensures
        is_run(code, run),
        run.last() == found(code, place)[i],
        run.len() == levels(code, place)[i] + 1,
    decreases place,
{
    lemma_levels(code, place);
    if place == 0 {
        seq![entry_state()]
    } else {
        let before = (place - 1) as nat;
        lemma_levels(code, before);
        lemma_found_stays(code, before, place);
        assert(passes(code, before));
        if i < found(code, before).len() {
            lemma_level_run(code, before, i)
        } else {
            let shorter = lemma_level_run(code, before, before as int);
            lemma_new_state(code, place, i);
            lemma_run_grows(code, shorter, found(code, place)[i]);
            shorter.push(found(code, place)[i])
        }
    }
}

/// A state that is found when one more is looked at comes after that one.
proof fn lemma_new_state<'a>(code: Code<'a>, place: nat, i: int)
    requires
        place > 0,
        passes(code, (place - 1) as nat),
        found(code, (place - 1) as nat).len() <= i < found(code, place).len(),
    ensures
        may_follow(code, found(code, (place - 1) as nat)[place - 1], found(code, place)[i]),
{
    let before = (place - 1) as nat;
    let earlier = found(code, before);
    let next = found(code, place)[i];
    let taken = step(code, earlier[before as int])->Ok_0;
    lemma_with_states(earlier, taken.successors);
    lemma_found_reachable(code, place);
    lemma_found_stays(code, before, place);
    assert(found(code, place).contains(next));
    if earlier.contains(next) {
        let j = choose|j: int| 0 <= j < earlier.len() && earlier[j] == next;
        assert(found(code, place)[j] == next);
    }
}

proof fn lemma_run_grows<'a>(code: Code<'a>, shorter: Seq<MachineState>, next: MachineState)
    requires
        is_run(code, shorter),
        may_follow(code, shorter.last(), next),
    ensures
        is_run(code, shorter.push(next)),
{
    let run = shorter.push(next);
    assert forall|k: int| #![trigger run[k]] 0 <= k < run.len() - 1 implies may_follow(
        code,
        run[k],
        run[k + 1],
    ) by {
        assert(run[k] == shorter[k]);
        if k + 1 < shorter.len() {
            assert(run[k + 1] == shorter[k + 1]);
        }
    }
}

/// The fault that is reported is one that an execution comes to in the fewest steps: no execution comes to
/// a fault in fewer.
pub proof fn lemma_nearest_fault<'a>(code: Code<'a>)
    requires
        well_formed(code),
        max_depth(code) is Err,
    ensures
        exists|run: Seq<MachineState>|
            {
                &&& #[trigger] is_run(code, run)
                &&& step(code, run.last()) == Err::<Step, Fault>(max_depth(code)->Err_0)
                &&& forall|other: Seq<MachineState>| #[trigger]
                    is_run(code, other) && other.len() < run.len() ==> step(code, other.last()) is Ok
            },
{
    lemma_search_ends(code);
    let place = choose|place: nat| ends(code, place);
    lemma_conclusion(code, place);
    lemma_levels(code, place);
    let run = lemma_level_run(code, place, place as int);
    assert forall|other: Seq<MachineState>| #[trigger]
        is_run(code, other) && other.len() < run.len() implies step(code, other.last()) is Ok by {
        let k = lemma_run_levels(code, place, other, other.len() - 1);
        assert(k < place) by {
            if k >= place {
                assert(levels(code, place)[place as int] <= levels(code, place)[k]);
            }
        }
        assert(passes(code, k as nat));
        lemma_found_stays(code, k as nat, place);
    }
}

// ---- Messages.
/// The number that a text of decimal digits stands for.
pub open spec fn number_of(text: Seq<char>) -> int
    decreases text.len(),
{
    if text.len() == 0 {
        0
    } else {
        10 * number_of(text.drop_last()) + (text.last() as int - '0' as int)
    }
}

/// A number in decimal notation has only digits, no leading zero, and stands for the number.
pub proof fn lemma_decimal(n: nat)
    ensures
        number_of(decimal(n)) == n,
        decimal(n).len() > 0,
        forall|i: int| 0 <= i < decimal(n).len() ==> '0' <= #[trigger] decimal(n)[i] <= '9',
        n > 0 ==> decimal(n)[0] != '0',
    decreases n,
{
    reveal_with_fuel(number_of, 2);
    let text = decimal(n);
    assert('0' <= digit(n % 10) <= '9' && digit(n % 10) as int - '0' as int == n % 10);
    if n < 10 {
        assert(text.drop_last() =~= Seq::empty());
        assert(text.last() == digit(n));
    } else {
        lemma_decimal(n / 10);
        assert(text.drop_last() =~= decimal(n / 10));
        assert(text.last() == digit(n % 10));
    }
}

/// What the errors say.
pub proof fn lemma_messages(slots: nat, left: nat, index: usize, target: usize, local: u16)
    ensures
        underflow() == Fault::Verification("operand stack underflow"@),
        unknown_stack() == Fault::Verification("invalid operand-stack identifier"@),
        too_deep() == Fault::Verification("operand stack exceeds u16::MAX slots"@),
        too_many_stacks() == Fault::Verification("too many operand-stack states"@),
        expected_category1() == Fault::Verification(
            "expected a category-1 value on the operand stack"@,
        ),
        address_consumed() == Fault::Verification(
            "returnAddress consumed by a non-returnAddress instruction"@,
        ),
        value_split(slots, left) == Fault::Verification(
            "operand stack value occupies "@ + decimal(slots) + " slots but only "@ + decimal(left)
                + " slots are consumed"@,
        ),
        unsupported_width(slots) == Fault::Verification(
            "instruction produces unsupported stack value width of "@ + decimal(slots) + " slots"@,
        ),
        address_read(local) == Fault::Verification(
            "instruction reads returnAddress local variable starting at "@ + decimal(local as nat),
        ),
        no_continuation(index) == Fault::Verification(
            "jsr at instruction "@ + decimal(index as nat) + " has no continuation"@,
        ),
        recursive_call(target) == Fault::Verification(
            "recursive jsr subroutine call to instruction "@ + decimal(target as nat),
        ),
        address_reused(index, local) == Fault::Verification(
            "ret at instruction "@ + decimal(index as nat)
                + " reuses an inactive returnAddress from local "@ + decimal(local as nat),
        ),
        no_address(index, local) == Fault::Verification(
            "ret at instruction "@ + decimal(index as nat) + " reads local "@ + decimal(
                local as nat,
            ) + " without a returnAddress"@,
        ),
        call_not_active(index) == Fault::Verification(
            "ret at instruction "@ + decimal(index as nat)
                + " targets an inactive jsr return address"@,
        ),
{
}

} // verus!
