//! What instructions do to the depth of the operand stack.
use vstd::prelude::*;

use crate::arena::{StackArena, StackId};
use crate::constant_pool::Constant;
use crate::error::{Error, Fault};
use crate::instruction::{effect, stored_reference, Instruction};
use crate::machine::{
    applied, copied_below, dropped, popped_and_pushed, rearranged, swapped, values_in, without_slots,
    MachineState,
};
use crate::operand::settles;
use crate::value::{
    lemma_total_slots_add, lemma_total_slots_push, slots_of, total_slots, StackValue,
};

verus! {

/// The values in the topmost slots of a stack have that many slots together, whichever way the slots are
/// made up.
pub proof fn lemma_values_in(stack: Seq<StackValue>, slots: nat)
    ensures
        values_in(stack, slots) matches Ok(n) ==> n <= stack.len() && total_slots(
            stack.skip(stack.len() - n),
        ) == slots && total_slots(stack.take(stack.len() - n)) == total_slots(stack) - slots,
    decreases slots,
{
    if let Ok(n) = values_in(stack, slots) {
        if slots == 0 {
            assert(stack.skip(stack.len() as int) =~= Seq::<StackValue>::empty());
            assert(stack.take(stack.len() as int) =~= stack);
        } else {
            let rest = stack.drop_last();
            let low = stack.take(stack.len() - n);
            let high = stack.skip(stack.len() - n);
            if stack.last() is Category2 {
                assert(low =~= rest);
                assert(high =~= seq![stack.last()]);
                reveal_with_fuel(total_slots, 2);
                assert(seq![stack.last()].drop_last() =~= Seq::<StackValue>::empty());
            } else {
                lemma_values_in(rest, (slots - 1) as nat);
                let m = (n - 1) as nat;
                assert(low =~= rest.take(rest.len() - m));
                assert(high =~= rest.skip(rest.len() - m).push(stack.last()));
                lemma_total_slots_push(rest.skip(rest.len() - m), stack.last());
            }
        }
    }
}

/// Dropping values makes the stack lower by the slots that are dropped.
pub proof fn lemma_dropped_depth(stack: Seq<StackValue>, slots: nat)
    ensures
        dropped(stack, slots) matches Ok(after) ==> total_slots(after) == total_slots(stack) - slots,
{
    lemma_values_in(stack, slots);
}

/// Copying values makes the stack higher by the slots that are copied, wherever the copy goes.
pub proof fn lemma_copied_depth(stack: Seq<StackValue>, copied: nat, over: nat)
    ensures
        copied_below(stack, copied, over) matches Ok(after) ==> total_slots(after) == total_slots(stack)
            + copied,
{
    if let Ok(after) = copied_below(stack, copied, over) {
        let n = values_in(stack, copied)->Ok_0;
        lemma_values_in(stack, copied);
        let low = stack.take(stack.len() - n);
        let m = values_in(low, over)->Ok_0;
        lemma_values_in(low, over);
        let base = stack.take(stack.len() - n - m);
        let copy = stack.skip(stack.len() - n);
        let rest = stack.skip(stack.len() - n - m);
        assert(low.take(low.len() - m) =~= base);
        assert(stack =~= base + rest);
        lemma_total_slots_add(base, rest);
        lemma_total_slots_add(base, copy);
        lemma_total_slots_add(base + copy, rest);
    }
}

/// Exchanging two values leaves the depth as it is, and doing it twice leaves the stack as it is.
pub proof fn lemma_swapped(stack: Seq<StackValue>)
    ensures
        swapped(stack) matches Ok(after) ==> {
            &&& total_slots(after) == total_slots(stack)
            &&& swapped(after) == Ok::<Seq<StackValue>, Fault>(stack)
        },
{
    reveal_with_fuel(values_in, 2);
    if let Ok(after) = swapped(stack) {
        let base = stack.take(stack.len() - 2);
        let upper = stack.last();
        let lower = stack.drop_last().last();
        assert(stack =~= base.push(lower).push(upper));
        lemma_total_slots_push(base, lower);
        lemma_total_slots_push(base.push(lower), upper);
        lemma_total_slots_push(base, upper);
        lemma_total_slots_push(base.push(upper), lower);
        assert(after.drop_last() =~= base.push(upper));
        assert(after.take(after.len() - 2) =~= base);
        assert(after.take(after.len() - 2).push(after.last()).push(after.drop_last().last()) =~= stack);
    }
}

/// Dropping what has just been copied on top gives back the stack as it was.
pub proof fn lemma_copy_then_drop(stack: Seq<StackValue>, slots: nat)
    ensures
        copied_below(stack, slots, 0) matches Ok(after) ==> dropped(after, slots) == Ok::<
            Seq<StackValue>,
            Fault,
        >(stack),
{
    if let Ok(after) = copied_below(stack, slots, 0) {
        let n = values_in(stack, slots)->Ok_0;
        lemma_values_in(stack, slots);
        let top = stack.skip(stack.len() - n);
        assert(stack.take(stack.len() - n) + top =~= stack);
        assert(after =~= stack + top);
        lemma_values_in_top(stack.take(stack.len() - n), stack, top, slots);
        assert(after.take(after.len() - n) =~= stack);
    }
}

/// An operation whose outcome is a stack that the arena has already succeeds and gives the identifier of
/// that stack.
proof fn lemma_settles_on_held(
    before: &StackArena,
    after: &StackArena,
    held: StackId,
    stack: StackId,
    left: Seq<StackValue>,
    result: Result<(), Error>,
)
    requires
        before.inv(),
        before.holds(held),
        settles(before, after, stack, Ok(before.values(held)), left, result),
    ensures
        result is Ok,
        stack == held,
{
    before.lemma_values_bounds(held);
    assert(after.values(held) == before.values(held));
    assert(after.holds(held));
    if result is Ok {
        after.lemma_values_injective(stack, held);
    }
}

/// `pop` undoes `dup` and `pop2` undoes `dup2`: dropping what has just been copied on top succeeds and
/// gives back the very stack.
pub proof fn lemma_drop_undoes_copy(
    before: &StackArena,
    after: &StackArena,
    stack: StackId,
    copied: StackId,
    copied_left: Seq<StackValue>,
    dropped_to: StackId,
    dropped_left: Seq<StackValue>,
    slots: nat,
    result: Result<(), Error>,
)
    requires
        before.inv(),
        before.holds(stack),
        settles(
            before,
            after,
            copied,
            copied_below(before.values(stack), slots, 0),
            copied_left,
            Ok(()),
        ),
        settles(
            after,
            after,
            dropped_to,
            dropped(after.values(copied), slots),
            dropped_left,
            result,
        ),
    ensures
        result is Ok,
        dropped_to == stack,
{
    lemma_copy_then_drop(before.values(stack), slots);
    assert(after.values(stack) == before.values(stack));
    lemma_settles_on_held(after, after, stack, dropped_to, dropped_left, result);
}

/// `swap` undoes `swap`: exchanging the values once more succeeds and gives back the very stack.
pub proof fn lemma_swap_undoes_swap(
    first: &StackArena,
    second: &StackArena,
    third: &StackArena,
    stack: StackId,
    once: StackId,
    once_left: Seq<StackValue>,
    twice: StackId,
    twice_left: Seq<StackValue>,
    result: Result<(), Error>,
)
    requires
        first.inv(),
        first.holds(stack),
        settles(first, second, once, swapped(first.values(stack)), once_left, Ok(())),
        settles(second, third, twice, swapped(second.values(once)), twice_left, result),
    ensures
        result is Ok,
        twice == stack,
{
    lemma_swapped(first.values(stack));
    assert(second.values(stack) == first.values(stack));
    lemma_settles_on_held(second, third, stack, twice, twice_left, result);
}

/// Only the values in the topmost slots decide which those are.
proof fn lemma_values_in_top(
    below: Seq<StackValue>,
    base: Seq<StackValue>,
    top: Seq<StackValue>,
    slots: nat,
)
    requires
        values_in(below + top, slots) == Ok::<nat, Fault>(top.len()),
    ensures
        values_in(base + top, slots) == Ok::<nat, Fault>(top.len()),
    decreases slots,
{
    if slots > 0 {
        let one = below + top;
        let two = base + top;
        assert(one.last() == top.last() && two.last() == top.last());
        if !(top.last() is Category2) {
            assert(one.drop_last() =~= below + top.drop_last());
            assert(two.drop_last() =~= base + top.drop_last());
            lemma_values_in_top(below, base, top.drop_last(), (slots - 1) as nat);
        }
    }
}

/// Taking ordinary values makes the stack lower by the slots that are taken, and leaves what lies below.
pub proof fn lemma_without_slots(stack: Seq<StackValue>, slots: nat)
    ensures
        without_slots(stack, slots) matches Ok(rest) ==> {
            &&& rest.is_prefix_of(stack)
            &&& total_slots(rest) == total_slots(stack) - slots
        },
    decreases stack.len(),
{
    if slots > 0 && without_slots(stack, slots) is Ok {
        lemma_without_slots(stack.drop_last(), (slots - slots_of(stack.last())) as nat);
    }
}

/// An instruction that pops and pushes ordinary values changes the depth by the difference.
pub proof fn lemma_popped_and_pushed(stack: Seq<StackValue>, pops: nat, pushes: nat)
    ensures
        popped_and_pushed(stack, pops, pushes) matches Ok(after) ==> pops <= total_slots(stack)
            && total_slots(after) == total_slots(stack) - pops + pushes,
{
    lemma_without_slots(stack, pops);
    if let Ok(rest) = without_slots(stack, pops) {
        lemma_total_slots_push(rest, StackValue::Category1);
        lemma_total_slots_push(rest, StackValue::Category2);
    }
}

/// By how many slots each instruction that only moves values about changes the depth.
pub open spec fn depth_change(instruction: Instruction) -> int {
    match instruction {
        Instruction::Pop => -1,
        Instruction::Pop2 => -2,
        Instruction::Dup | Instruction::Dup_x1 | Instruction::Dup_x2 => 1,
        Instruction::Dup2 | Instruction::Dup2_x1 | Instruction::Dup2_x2 => 2,
        _ => 0,
    }
}

/// `pop`, `pop2`, `swap` and the forms of `dup` change the depth by the same number of slots, whatever
/// the categories of the values.
pub proof fn lemma_rearranged_depth(instruction: Instruction, stack: Seq<StackValue>)
    ensures
        rearranged(instruction, stack) matches Some(Ok(after)) ==> total_slots(after) == total_slots(
            stack,
        ) + depth_change(instruction),
{
    lemma_dropped_depth(stack, 1);
    lemma_dropped_depth(stack, 2);
    lemma_copied_depth(stack, 1, 0);
    lemma_copied_depth(stack, 1, 1);
    lemma_copied_depth(stack, 1, 2);
    lemma_copied_depth(stack, 2, 0);
    lemma_copied_depth(stack, 2, 1);
    lemma_copied_depth(stack, 2, 2);
    lemma_swapped(stack);
}

/// Every other instruction that goes on with the next instruction or branches changes the depth by what
/// it pushes less what it pops; a stored reference is popped.
pub proof fn lemma_applied_depth<'a>(
    instruction: Instruction,
    constants: Seq<Constant<'a>>,
    state: MachineState,
)
    ensures
        applied(instruction, constants, state) matches Ok(after) ==> {
            let change = total_slots(after.stack) - total_slots(state.stack);
            if stored_reference(instruction) is Some {
                change == -1
            } else if rearranged(instruction, state.stack) is Some {
                change == depth_change(instruction)
            } else {
                effect(instruction, constants) matches Ok((pops, pushes)) && change == pushes - pops
            }
        },
{
    if stored_reference(instruction) is Some {
        lemma_values_in(state.stack, 1);
        reveal_with_fuel(values_in, 2);
    } else if rearranged(instruction, state.stack) is Some {
        lemma_rearranged_depth(instruction, state.stack);
    } else if let Ok((pops, pushes)) = effect(instruction, constants) {
        lemma_popped_and_pushed(state.stack, pops as nat, pushes as nat);
    }
}

} // verus!
