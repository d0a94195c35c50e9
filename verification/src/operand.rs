//! What instructions do to the operand stack.
use vstd::prelude::*;

use crate::arena::{
    lemma_grown_twice, lemma_take_slots, too_deep, underflow, StackArena, StackId,
};
use crate::error::{verification_error, violation, Error, Fault};
use crate::instruction::Instruction;
use crate::machine::{
    copied_below, dropped, left_below, left_by, left_to_rearrange, left_without, rearranged, swapped,
    values_in, with_slots, without_slots,
};
use crate::text::{with_number, with_text};
use crate::value::{lemma_total_slots_push, total_slots, StackValue};

verus! {

/// An operation on a stack came out as it should.
///
/// What should come out is given without regard to the depth of stacks: either a fault, and then the
/// arena is unchanged and the values that are left on the stack are given too, or the values of a stack.
/// In the latter case the operation succeeds unless the arena refuses that stack, and then the longest
/// lower part of it that the arena has is left.
pub open spec fn settles(
    before: &StackArena,
    after: &StackArena,
    stack: StackId,
    expected: Result<Seq<StackValue>, Fault>,
    left: Seq<StackValue>,
    result: Result<(), Error>,
) -> bool {
    &&& after.inv()
    &&& after.holds(stack)
    &&& match expected {
        Ok(values) => {
            &&& after.grown(before, values)
            &&& match result {
                Ok(_) => total_slots(values) <= u16::MAX && after.values(stack) == values,
                Err(error) => {
                    &&& after.refuses(values, error@)
                    &&& after.is_longest_part(stack, values)
                },
            }
        },
        Err(fault) => {
            &&& *after == *before
            &&& after.values(stack) == left
            &&& result matches Err(error)
            &&& error@ == fault
        },
    }
}

/// Takes the value off the top of a stack.
pub fn pop_value(stacks: &StackArena, stack: &mut StackId) -> (value: Result<StackValue, Error>)
    requires
        stacks.inv(),
        stacks.holds(*old(stack)),
    ensures
        stacks.holds(*final(stack)),
        match value {
            Ok(value) => {
                &&& stacks.values(*old(stack)).len() > 0
                &&& value == stacks.values(*old(stack)).last()
                &&& stacks.values(*final(stack)) == stacks.values(*old(stack)).drop_last()
            },
            Err(error) => {
                &&& stacks.values(*old(stack)).len() == 0
                &&& error@ == underflow()
                &&& *final(stack) == *old(stack)
            },
        },
{
    match stacks.pop(*stack) {
        Ok((value, previous)) => {
            *stack = previous;
            Ok(value)
        },
        Err(error) => Err(error),
    }
}

/// Takes a value of one slot off the top of a stack. A value of two slots is taken off as well, and
/// reported.
pub fn pop_category1(stacks: &StackArena, stack: &mut StackId) -> (value: Result<StackValue, Error>)
    requires
        stacks.inv(),
        stacks.holds(*old(stack)),
    ensures
        stacks.holds(*final(stack)),
        stacks.values(*old(stack)).len() == 0 ==> *final(stack) == *old(stack),
        stacks.values(*old(stack)).len() > 0 ==> stacks.values(*final(stack)) == stacks.values(
            *old(stack),
        ).drop_last(),
        match value {
            Ok(value) => {
                &&& values_in(stacks.values(*old(stack)), 1) == Ok::<nat, Fault>(1)
                &&& value == stacks.values(*old(stack)).last()
            },
            Err(error) => values_in(stacks.values(*old(stack)), 1) == Err::<nat, Fault>(error@),
        },
{
    proof {
        reveal_with_fuel(values_in, 3);
    }
    match pop_value(stacks, stack) {
        Ok(value) => if value.is_category1() {
            Ok(value)
        } else {
            Err(violation("expected a category-1 value on the operand stack"))
        },
        Err(error) => Err(error),
    }
}

/// Takes ordinary values that make up so many slots off the top of a stack.
pub fn pop_slots(stacks: &StackArena, stack: &mut StackId, slots: u16) -> (result: Result<(), Error>)
    requires
        stacks.inv(),
        stacks.holds(*old(stack)),
    ensures
        stacks.holds(*final(stack)),
        stacks.values(*final(stack)) == left_without(stacks.values(*old(stack)), slots as nat),
        match result {
            Ok(_) => without_slots(stacks.values(*old(stack)), slots as nat) == Ok::<
                Seq<StackValue>,
                Fault,
            >(stacks.values(*final(stack))),
            Err(error) => without_slots(stacks.values(*old(stack)), slots as nat) == Err::<
                Seq<StackValue>,
                Fault,
            >(error@),
        },
{
    let ghost all = stacks.values(*stack);
    let mut remaining: u16 = slots;
    while remaining > 0
        invariant
            stacks.inv(),
            stacks.holds(*stack),
            all == stacks.values(*old(stack)),
            left_without(all, slots as nat) == left_without(
                stacks.values(*stack),
                remaining as nat,
            ),
            without_slots(all, slots as nat) == without_slots(
                stacks.values(*stack),
                remaining as nat,
            ),
        decreases remaining,
    {
        let value = match pop_value(stacks, stack) {
            Ok(value) => value,
            Err(error) => {
                return Err(error);
            },
        };
        if matches!(value, StackValue::ReturnAddress(_) | StackValue::InvalidReturnAddress) {
            return Err(
                violation("returnAddress consumed by a non-returnAddress instruction"),
            );
        }
        let value_slots = value.slots();
        if value_slots > remaining {
            let text = with_number("operand stack value occupies ".to_owned(), value_slots as usize);
            let text = with_text(text, " slots but only ");
            let text = with_number(text, remaining as usize);
            return Err(verification_error(with_text(text, " slots are consumed")));
        }
        remaining -= value_slots;
    }
    Ok(())
}

/// Puts a value on top of a stack.
pub fn push_value(stacks: &mut StackArena, stack: &mut StackId, value: StackValue) -> (result: Result<
    (),
    Error,
>)
    requires
        old(stacks).inv(),
        old(stacks).holds(*old(stack)),
    ensures
        settles(
            &*old(stacks),
            &*final(stacks),
            *final(stack),
            Ok(old(stacks).values(*old(stack)).push(value)),
            old(stacks).values(*old(stack)),
            result,
        ),
        result is Err ==> *final(stack) == *old(stack) && *final(stacks) == *old(stacks),
{
    proof {
        lemma_total_slots_push(stacks.values(*stack), value);
    }
    match stacks.push(*stack, value) {
        Ok(id) => {
            *stack = id;
            Ok(())
        },
        Err(error) => {
            proof {
                let values = stacks.values(*stack);
                assert(values.push(value).take(values.len() as int) =~= values);
                assert(values.push(value).take(values.len() as int + 1) =~= values.push(value));
                stacks.lemma_refuses(*stack, values.push(value), error@);
            }
            Err(error)
        },
    }
}

/// Puts values on top of a stack, one after the other. If not all of them fit, those that do stay.
fn push_values(stacks: &mut StackArena, stack: &mut StackId, values: &[StackValue]) -> (result: Result<
    (),
    Error,
>)
    requires
        old(stacks).inv(),
        old(stacks).holds(*old(stack)),
    ensures
        settles(
            &*old(stacks),
            &*final(stacks),
            *final(stack),
            Ok(old(stacks).values(*old(stack)) + values@),
            old(stacks).values(*old(stack)),
            result,
        ),
{
    let ghost first = *stacks;
    let ghost low = stacks.values(*stack);
    let ghost all = low + values@;
    let mut i: usize = 0;
    assert(all.take(low.len() as int) =~= low);
    proof {
        stacks.lemma_values_bounds(*stack);
    }
    while i < values.len()
        invariant
            i <= values.len(),
            stacks.inv(),
            stacks.holds(*stack),
            low == first.values(*old(stack)),
            first == *old(stacks),
            all == low + values@,
            stacks.grown(&first, all),
            stacks.values(*stack) == all.take(low.len() + i),
            total_slots(stacks.values(*stack)) <= u16::MAX,
        decreases values.len() - i,
    {
        let ghost before = *stacks;
        let ghost part = stacks.values(*stack);
        let value = values[i];
        proof {
            assert(part.push(value) =~= all.take(low.len() + i + 1));
            lemma_take_slots(all, low.len() + i + 1);
        }
        let pushed = push_value(stacks, stack, value);
        proof {
            lemma_grown_twice(&first, &before, &*stacks, all, part.push(value));
        }
        match pushed {
            Ok(_) => {},
            Err(error) => {
                proof {
                    lemma_total_slots_push(part, value);
                    let next = part.push(value);
                    assert(next.take(part.len() as int) =~= part);
                    assert(next.take(part.len() as int + 1) =~= next);
                    if total_slots(next) > u16::MAX {
                        stacks.lemma_refuses(*stack, next, too_deep());
                    }
                    stacks.lemma_refuses(*stack, all, error@);
                }
                return Err(error);
            },
        }
        i += 1;
    }
    assert(all.take(all.len() as int) =~= all);
    Ok(())
}

/// Puts a value of so many slots on top of a stack.
pub fn push_slots(stacks: &mut StackArena, stack: &mut StackId, slots: u16) -> (result: Result<
    (),
    Error,
>)
    requires
        old(stacks).inv(),
        old(stacks).holds(*old(stack)),
    ensures
        settles(
            &*old(stacks),
            &*final(stacks),
            *final(stack),
            with_slots(old(stacks).values(*old(stack)), slots as nat),
            old(stacks).values(*old(stack)),
            result,
        ),
        result is Err ==> *final(stack) == *old(stack) && *final(stacks) == *old(stacks),
{
    let value = match slots {
        0 => {
            proof {
                stacks.lemma_values_bounds(*stack);
            }
            return Ok(());
        },
        1 => StackValue::Category1,
        2 => StackValue::Category2,
        _ => {
            let text = "instruction produces unsupported stack value width of ".to_owned();
            let text = with_number(text, slots as usize);
            return Err(verification_error(with_text(text, " slots")));
        },
    };
    push_value(stacks, stack, value)
}

/// `pop`: takes off one slot.
pub fn apply_pop(stack: &mut StackId, stacks: &StackArena) -> (result: Result<(), Error>)
    requires
        stacks.inv(),
        stacks.holds(*old(stack)),
    ensures
        settles(
            stacks,
            stacks,
            *final(stack),
            dropped(stacks.values(*old(stack)), 1),
            left_by(stacks.values(*old(stack)), 1),
            result,
        ),
        dropped(stacks.values(*old(stack)), 1) is Ok ==> result is Ok,
{
    let ghost all = stacks.values(*stack);
    proof {
        stacks.lemma_values_bounds(*stack);
        reveal_with_fuel(values_in, 3);
        reveal_with_fuel(left_by, 3);
        assert(all.len() > 0 ==> all.take(all.len() - 1) =~= all.drop_last());
    }
    match pop_category1(stacks, stack) {
        Ok(_) => {
            proof {
                lemma_take_slots(all, all.len() - 1);
            }
            Ok(())
        },
        Err(error) => Err(error),
    }
}

/// `pop2`: takes off two slots.
pub fn apply_pop2(stack: &mut StackId, stacks: &StackArena) -> (result: Result<(), Error>)
    requires
        stacks.inv(),
        stacks.holds(*old(stack)),
    ensures
        settles(
            stacks,
            stacks,
            *final(stack),
            dropped(stacks.values(*old(stack)), 2),
            left_by(stacks.values(*old(stack)), 2),
            result,
        ),
        dropped(stacks.values(*old(stack)), 2) is Ok ==> result is Ok,
{
    let ghost all = stacks.values(*stack);
    proof {
        stacks.lemma_values_bounds(*stack);
        reveal_with_fuel(values_in, 4);
        reveal_with_fuel(left_by, 4);
    }
    let first = match pop_value(stacks, stack) {
        Ok(first) => first,
        Err(error) => {
            return Err(error);
        },
    };
    if matches!(first, StackValue::Category2) {
        proof {
            lemma_take_slots(all, all.len() - 1);
            assert(all.take(all.len() - 1) =~= all.drop_last());
        }
        return Ok(());
    }
    match pop_category1(stacks, stack) {
        Ok(_) => {
            proof {
                lemma_take_slots(all, all.len() - 2);
                assert(all.take(all.len() - 2) =~= all.drop_last().drop_last());
            }
            Ok(())
        },
        Err(error) => Err(error),
    }
}

/// `dup`: copies one slot.
pub fn apply_dup(stack: &mut StackId, stacks: &mut StackArena) -> (result: Result<(), Error>)
    requires
        old(stacks).inv(),
        old(stacks).holds(*old(stack)),
    ensures
        settles(
            &*old(stacks),
            &*final(stacks),
            *final(stack),
            copied_below(old(stacks).values(*old(stack)), 1, 0),
            left_below(old(stacks).values(*old(stack)), 1, 0),
            result,
        ),
{
    let ghost all = stacks.values(*stack);
    proof {
        reveal_with_fuel(values_in, 4);
        reveal_with_fuel(left_by, 4);
    }
    let value = match pop_category1(stacks, stack) {
        Ok(value) => value,
        Err(error) => {
            return Err(error);
        },
    };
    let result = push_values(stacks, stack, &[value, value]);
    proof {
        let n = all.len();
        assert(all.drop_last() + seq![value, value] =~= all.take(n - 1) + all.skip(n - 1)
            + all.skip(n - 1));
    }
    result
}

/// `dup_x1`: copies one slot below the next.
pub fn apply_dup_x1(stack: &mut StackId, stacks: &mut StackArena) -> (result: Result<(), Error>)
    requires
        old(stacks).inv(),
        old(stacks).holds(*old(stack)),
    ensures
        settles(
            &*old(stacks),
            &*final(stacks),
            *final(stack),
            copied_below(old(stacks).values(*old(stack)), 1, 1),
            left_below(old(stacks).values(*old(stack)), 1, 1),
            result,
        ),
{
    let ghost all = stacks.values(*stack);
    let ghost n = all.len();
    proof {
        reveal_with_fuel(values_in, 4);
        reveal_with_fuel(left_by, 4);
        assert(n > 0 ==> all.take(n - 1) =~= all.drop_last());
        assert(n > 1 ==> all.take(n - 2) =~= all.drop_last().drop_last());
    }
    let value1 = match pop_category1(stacks, stack) {
        Ok(value1) => value1,
        Err(error) => {
            return Err(error);
        },
    };
    let value2 = match pop_category1(stacks, stack) {
        Ok(value2) => value2,
        Err(error) => {
            return Err(error);
        },
    };
    proof {
        assert(all.take(n - 2) + seq![value1, value2, value1]
            =~= all.take(n - 2) + all.skip(n - 1) + all.skip(n - 2));
    }
    push_values(stacks, stack, &[value1, value2, value1])
}

/// `dup_x2`: copies one slot below the next two.
pub fn apply_dup_x2(stack: &mut StackId, stacks: &mut StackArena) -> (result: Result<(), Error>)
    requires
        old(stacks).inv(),
        old(stacks).holds(*old(stack)),
    ensures
        settles(
            &*old(stacks),
            &*final(stacks),
            *final(stack),
            copied_below(old(stacks).values(*old(stack)), 1, 2),
            left_below(old(stacks).values(*old(stack)), 1, 2),
            result,
        ),
{
    let ghost all = stacks.values(*stack);
    let ghost n = all.len();
    proof {
        reveal_with_fuel(values_in, 4);
        reveal_with_fuel(left_by, 4);
        assert(n > 0 ==> all.take(n - 1) =~= all.drop_last());
        assert(n > 1 ==> all.take(n - 2) =~= all.drop_last().drop_last());
    }
    let value1 = match pop_category1(stacks, stack) {
        Ok(value1) => value1,
        Err(error) => {
            return Err(error);
        },
    };
    let value2 = match pop_value(stacks, stack) {
        Ok(value2) => value2,
        Err(error) => {
            return Err(error);
        },
    };
    if matches!(value2, StackValue::Category2) {
        proof {
            assert(all.take(n - 2) + seq![value1, value2, value1]
                =~= all.take(n - 2) + all.skip(n - 1) + all.skip(n - 2));
        }
        return push_values(stacks, stack, &[value1, value2, value1]);
    }
    let value3 = match pop_category1(stacks, stack) {
        Ok(value3) => value3,
        Err(error) => {
            return Err(error);
        },
    };
    assert(all.take(n - 3) =~= all.drop_last().drop_last().drop_last());
    proof {
        assert(all.take(n - 3) + seq![value1, value3, value2, value1]
            =~= all.take(n - 3) + all.skip(n - 1) + all.skip(n - 3));
    }
    push_values(stacks, stack, &[value1, value3, value2, value1])
}

/// `dup2`: copies two slots.
pub fn apply_dup2(stack: &mut StackId, stacks: &mut StackArena) -> (result: Result<(), Error>)
    requires
        old(stacks).inv(),
        old(stacks).holds(*old(stack)),
    ensures
        settles(
            &*old(stacks),
            &*final(stacks),
            *final(stack),
            copied_below(old(stacks).values(*old(stack)), 2, 0),
            left_below(old(stacks).values(*old(stack)), 2, 0),
            result,
        ),
{
    let ghost all = stacks.values(*stack);
    let ghost n = all.len();
    proof {
        reveal_with_fuel(values_in, 4);
        reveal_with_fuel(left_by, 4);
        assert(n > 0 ==> all.take(n - 1) =~= all.drop_last());
        assert(n > 1 ==> all.take(n - 2) =~= all.drop_last().drop_last());
    }
    let value1 = match pop_value(stacks, stack) {
        Ok(value1) => value1,
        Err(error) => {
            return Err(error);
        },
    };
    if matches!(value1, StackValue::Category2) {
        proof {
            assert(all.take(n - 1) + seq![value1, value1]
                =~= all.take(n - 1) + all.skip(n - 1) + all.skip(n - 1));
        }
        return push_values(stacks, stack, &[value1, value1]);
    }
    let value2 = match pop_category1(stacks, stack) {
        Ok(value2) => value2,
        Err(error) => {
            return Err(error);
        },
    };
    proof {
        assert(all.take(n - 2) + seq![value2, value1, value2, value1]
            =~= all.take(n - 2) + all.skip(n - 2) + all.skip(n - 2));
    }
    push_values(stacks, stack, &[value2, value1, value2, value1])
}

/// `dup2_x1`: copies two slots below the next.
pub fn apply_dup2_x1(stack: &mut StackId, stacks: &mut StackArena) -> (result: Result<(), Error>)
    requires
        old(stacks).inv(),
        old(stacks).holds(*old(stack)),
    ensures
        settles(
            &*old(stacks),
            &*final(stacks),
            *final(stack),
            copied_below(old(stacks).values(*old(stack)), 2, 1),
            left_below(old(stacks).values(*old(stack)), 2, 1),
            result,
        ),
{
    let ghost all = stacks.values(*stack);
    let ghost n = all.len();
    proof {
        reveal_with_fuel(values_in, 4);
        reveal_with_fuel(left_by, 4);
        assert(n > 0 ==> all.take(n - 1) =~= all.drop_last());
        assert(n > 1 ==> all.take(n - 2) =~= all.drop_last().drop_last());
    }
    let value1 = match pop_value(stacks, stack) {
        Ok(value1) => value1,
        Err(error) => {
            return Err(error);
        },
    };
    if matches!(value1, StackValue::Category2) {
        let value2 = match pop_category1(stacks, stack) {
            Ok(value2) => value2,
            Err(error) => {
                return Err(error);
            },
        };
        proof {
            assert(all.take(n - 2) + seq![value1, value2, value1]
                =~= all.take(n - 2) + all.skip(n - 1) + all.skip(n - 2));
        }
        return push_values(stacks, stack, &[value1, value2, value1]);
    }
    let value2 = match pop_category1(stacks, stack) {
        Ok(value2) => value2,
        Err(error) => {
            return Err(error);
        },
    };
    let value3 = match pop_category1(stacks, stack) {
        Ok(value3) => value3,
        Err(error) => {
            return Err(error);
        },
    };
    assert(all.take(n - 3) =~= all.drop_last().drop_last().drop_last());
    proof {
        assert(all.take(n - 3) + seq![value2, value1, value3, value2, value1]
            =~= all.take(n - 3) + all.skip(n - 2) + all.skip(n - 3));
    }
    push_values(stacks, stack, &[value2, value1, value3, value2, value1])
}

/// `dup2_x2`: copies two slots below the next two.
pub fn apply_dup2_x2(stack: &mut StackId, stacks: &mut StackArena) -> (result: Result<(), Error>)
    requires
        old(stacks).inv(),
        old(stacks).holds(*old(stack)),
    ensures
        settles(
            &*old(stacks),
            &*final(stacks),
            *final(stack),
            copied_below(old(stacks).values(*old(stack)), 2, 2),
            left_below(old(stacks).values(*old(stack)), 2, 2),
            result,
        ),
{
    let ghost all = stacks.values(*stack);
    let ghost n = all.len();
    proof {
        reveal_with_fuel(values_in, 4);
        reveal_with_fuel(left_by, 4);
        assert(n > 0 ==> all.take(n - 1) =~= all.drop_last());
        assert(n > 1 ==> all.take(n - 2) =~= all.drop_last().drop_last());
    }
    let value1 = match pop_value(stacks, stack) {
        Ok(value1) => value1,
        Err(error) => {
            return Err(error);
        },
    };
    if matches!(value1, StackValue::Category2) {
        let value2 = match pop_value(stacks, stack) {
            Ok(value2) => value2,
            Err(error) => {
                return Err(error);
            },
        };
        if matches!(value2, StackValue::Category2) {
            proof {
                assert(all.take(n - 2) + seq![value1, value2, value1]
                    =~= all.take(n - 2) + all.skip(n - 1) + all.skip(n - 2));
            }
            return push_values(stacks, stack, &[value1, value2, value1]);
        }
        let value3 = match pop_category1(stacks, stack) {
            Ok(value3) => value3,
            Err(error) => {
                return Err(error);
            },
        };
        assert(all.take(n - 3) =~= all.drop_last().drop_last().drop_last());
        proof {
            assert(all.take(n - 3) + seq![value1, value3, value2, value1]
                =~= all.take(n - 3) + all.skip(n - 1) + all.skip(n - 3));
        }
        return push_values(stacks, stack, &[value1, value3, value2, value1]);
    }
    let value2 = match pop_category1(stacks, stack) {
        Ok(value2) => value2,
        Err(error) => {
            return Err(error);
        },
    };
    let value3 = match pop_value(stacks, stack) {
        Ok(value3) => value3,
        Err(error) => {
            return Err(error);
        },
    };
    assert(all.take(n - 3) =~= all.drop_last().drop_last().drop_last());
    if matches!(value3, StackValue::Category2) {
        proof {
            assert(all.take(n - 3) + seq![value2, value1, value3, value2, value1]
                =~= all.take(n - 3) + all.skip(n - 2) + all.skip(n - 3));
        }
        return push_values(stacks, stack, &[value2, value1, value3, value2, value1]);
    }
    let value4 = match pop_category1(stacks, stack) {
        Ok(value4) => value4,
        Err(error) => {
            return Err(error);
        },
    };
    assert(all.take(n - 4) =~= all.drop_last().drop_last().drop_last().drop_last());
    proof {
        assert(all.take(n - 4) + seq![value2, value1, value4, value3, value2, value1]
            =~= all.take(n - 4) + all.skip(n - 2) + all.skip(n - 4));
    }
    push_values(stacks, stack, &[value2, value1, value4, value3, value2, value1])
}

/// `swap`: exchanges two values of one slot.
pub fn apply_swap(stack: &mut StackId, stacks: &mut StackArena) -> (result: Result<(), Error>)
    requires
        old(stacks).inv(),
        old(stacks).holds(*old(stack)),
    ensures
        settles(
            &*old(stacks),
            &*final(stacks),
            *final(stack),
            swapped(old(stacks).values(*old(stack))),
            left_below(old(stacks).values(*old(stack)), 1, 1),
            result,
        ),
{
    let ghost all = stacks.values(*stack);
    let ghost n = all.len();
    proof {
        reveal_with_fuel(values_in, 4);
        reveal_with_fuel(left_by, 4);
        assert(n > 0 ==> all.take(n - 1) =~= all.drop_last());
        assert(n > 1 ==> all.take(n - 2) =~= all.drop_last().drop_last());
    }
    let value1 = match pop_category1(stacks, stack) {
        Ok(value1) => value1,
        Err(error) => {
            return Err(error);
        },
    };
    let value2 = match pop_category1(stacks, stack) {
        Ok(value2) => value2,
        Err(error) => {
            return Err(error);
        },
    };
    assert(all.take(n - 2) + seq![value1, value2] =~= all.take(n - 2).push(value1).push(value2));
    push_values(stacks, stack, &[value1, value2])
}

/// A result without its value.
pub open spec fn without_value<T>(result: Result<T, Error>) -> Result<(), Error> {
    match result {
        Ok(_) => Ok(()),
        Err(error) => Err(error),
    }
}

/// Executes an instruction that only moves values about on the operand stack, and tells whether the
/// instruction is one of those.
pub fn apply_stack_manipulation(
    instruction: &Instruction,
    stack: &mut StackId,
    stacks: &mut StackArena,
) -> (result: Result<bool, Error>)
    requires
        old(stacks).inv(),
        old(stacks).holds(*old(stack)),
    ensures
        match rearranged(*instruction, old(stacks).values(*old(stack))) {
            Some(expected) => settles(
                &*old(stacks),
                &*final(stacks),
                *final(stack),
                expected,
                left_to_rearrange(*instruction, old(stacks).values(*old(stack))),
                without_value(result),
            ) && (result matches Ok(handled) ==> handled),
            None => {
                &&& result == Ok::<bool, Error>(false)
                &&& *final(stack) == *old(stack)
                &&& *final(stacks) == *old(stacks)
            },
        },
{
    let result = match instruction {
        Instruction::Pop => apply_pop(stack, stacks),
        Instruction::Pop2 => apply_pop2(stack, stacks),
        Instruction::Dup => apply_dup(stack, stacks),
        Instruction::Dup_x1 => apply_dup_x1(stack, stacks),
        Instruction::Dup_x2 => apply_dup_x2(stack, stacks),
        Instruction::Dup2 => apply_dup2(stack, stacks),
        Instruction::Dup2_x1 => apply_dup2_x1(stack, stacks),
        Instruction::Dup2_x2 => apply_dup2_x2(stack, stacks),
        Instruction::Swap => apply_swap(stack, stacks),
        _ => {
            return Ok(false);
        },
    };
    match result {
        Ok(_) => Ok(true),
        Err(error) => Err(error),
    }
}

} // verus!
