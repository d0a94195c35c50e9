//! Values on the operand stack.
use vstd::prelude::*;

use crate::collections::NodeKey;

verus! {

/// The address that a `jsr` leaves for the matching `ret`.
#[derive(Clone, Copy, Debug, PartialEq, Eq, Hash, Structural)]
pub struct ReturnAddress {
    /// The `jsr` instruction.
    pub call_site: usize,
    /// The first instruction of the subroutine.
    pub target: usize,
    /// The instruction to go on with after the subroutine.
    pub continuation: usize,
}

/// A value on the operand stack.
#[derive(Clone, Copy, Debug, PartialEq, Eq, Hash, Structural)]
pub enum StackValue {
    /// A value of one slot.
    Category1,
    /// A `long` or a `double`, which takes two slots.
    Category2,
    /// The address of a subroutine call that has not returned yet.
    ReturnAddress(ReturnAddress),
    /// The address of a subroutine call that has returned.
    InvalidReturnAddress,
}

/// The slots of a value.
pub open spec fn slots_of(value: StackValue) -> nat {
    if value is Category2 {
        2
    } else {
        1
    }
}

/// The slots of all values of an operand stack; the last value is the top.
pub open spec fn total_slots(stack: Seq<StackValue>) -> nat
    decreases stack.len(),
{
    if stack.len() == 0 {
        0
    } else {
        total_slots(stack.drop_last()) + slots_of(stack.last())
    }
}

impl StackValue {
    /// Tells the slots of the value.
    pub fn slots(self) -> (slots: u16)
        ensures
            slots == slots_of(self),
    {
        match self {
            StackValue::Category2 => 2,
            StackValue::Category1
            | StackValue::ReturnAddress(_)
            | StackValue::InvalidReturnAddress => 1,
        }
    }

    /// Tells whether the value takes one slot.
    pub fn is_category1(self) -> (narrow: bool)
        ensures
            narrow == !(self is Category2),
    {
        !matches!(self, StackValue::Category2)
    }
}

/// The numbers that identify a value above a given stack.
pub open spec fn node_key(value: StackValue, previous: usize) -> NodeKey {
    match value {
        StackValue::Category1 => (0, 0, 0, 0, previous),
        StackValue::Category2 => (1, 0, 0, 0, previous),
        StackValue::ReturnAddress(address) => (
            2,
            address.call_site,
            address.target,
            address.continuation,
            previous,
        ),
        StackValue::InvalidReturnAddress => (3, 0, 0, 0, previous),
    }
}

pub(crate) fn node_key_of(value: StackValue, previous: usize) -> (key: NodeKey)
    ensures
        key == node_key(value, previous),
{
    match value {
        StackValue::Category1 => (0, 0, 0, 0, previous),
        StackValue::Category2 => (1, 0, 0, 0, previous),
        StackValue::ReturnAddress(address) => (
            2,
            address.call_site,
            address.target,
            address.continuation,
            previous,
        ),
        StackValue::InvalidReturnAddress => (3, 0, 0, 0, previous),
    }
}

/// Different values, or equal values above different stacks, have different keys.
pub proof fn lemma_node_key_injective(a: StackValue, p: usize, b: StackValue, q: usize)
    requires
        node_key(a, p) == node_key(b, q),
    ensures
        a == b,
        p == q,
{
}

/// A stack has at least one slot and at most two for each of its values.
pub proof fn lemma_total_slots_bounds(stack: Seq<StackValue>)
    ensures
        stack.len() <= total_slots(stack) <= 2 * stack.len(),
    decreases stack.len(),
{
    if stack.len() > 0 {
        lemma_total_slots_bounds(stack.drop_last());
    }
}

/// Pushing a value adds its slots.
pub proof fn lemma_total_slots_push(stack: Seq<StackValue>, value: StackValue)
    ensures
        total_slots(stack.push(value)) == total_slots(stack) + slots_of(value),
{
    assert(stack.push(value).drop_last() =~= stack);
}

/// The slots of two stacks add up.
pub proof fn lemma_total_slots_add(low: Seq<StackValue>, high: Seq<StackValue>)
    ensures
        total_slots(low + high) == total_slots(low) + total_slots(high),
    decreases high.len(),
{
    if high.len() == 0 {
        assert(low + high =~= low);
    } else {
        assert((low + high).drop_last() =~= low + high.drop_last());
        lemma_total_slots_add(low, high.drop_last());
    }
}

} // verus!
