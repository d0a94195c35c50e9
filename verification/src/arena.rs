//! Operand stacks that share their lower parts.
//!
//! A stack is an identifier. The arena keeps one node for each stack: the value on top and the
//! identifier of the stack below. Stacks with the same values have the same identifier.
use ahash::AHashMap;
use vstd::prelude::*;

use crate::collections::{
    node_entries, node_table_get, node_table_insert, node_table_new, NodeKey,
};
use crate::error::{violation, Error, Fault};
use crate::value::{
    lemma_node_key_injective, lemma_total_slots_push, node_key, node_key_of, slots_of, total_slots,
    ReturnAddress, StackValue,
};

verus! {

/// The identifier of an operand stack in an arena.
#[derive(Clone, Copy, Debug, PartialEq, Eq, Hash, Structural)]
pub struct StackId(pub usize);

impl StackId {
    /// The identifier of the empty stack in every arena.
    #[verifier::allow_in_spec]
    pub fn empty() -> StackId
        returns
            StackId(0),
    {
        StackId(0)
    }
}

/// A stack: a value on top of another stack.
#[derive(Clone, Copy, Debug)]
pub struct StackNode {
    pub value: StackValue,
    pub previous: StackId,
    pub depth: u16,
}

/// The operand stacks of an analysis.
pub struct StackArena {
    nodes: Vec<StackNode>,
    interned: AHashMap<NodeKey, usize>,
}

/// The values of the stack that a node and the nodes below it make up, the bottom first.
pub open spec fn node_values(nodes: Seq<StackNode>, id: nat) -> Seq<StackValue>
    decreases id,
{
    if id == 0 || id > nodes.len() || nodes[id - 1].previous.0 >= id {
        Seq::empty()
    } else {
        node_values(nodes, nodes[id - 1].previous.0 as nat).push(nodes[id - 1].value)
    }
}

/// The fault of taking a value from an empty stack.
pub open spec fn underflow() -> Fault {
    Fault::Verification("operand stack underflow"@)
}

/// The fault of an identifier that no stack of the arena has.
pub open spec fn unknown_stack() -> Fault {
    Fault::Verification("invalid operand-stack identifier"@)
}

/// The fault of a stack that is deeper than a `Code` attribute can say.
pub open spec fn too_deep() -> Fault {
    Fault::Verification("operand stack exceeds u16::MAX slots"@)
}

/// The fault of an arena that has run out of identifiers.
pub open spec fn too_many_stacks() -> Fault {
    Fault::Verification("too many operand-stack states"@)
}

/// The stack with the return addresses of inactive subroutine calls made invalid.
pub open spec fn invalidated(stack: Seq<StackValue>, inactive: Seq<ReturnAddress>) -> Seq<
    StackValue,
> {
    stack.map_values(|value: StackValue| invalidated_value(value, inactive))
}

/// A value with the return address of an inactive subroutine call made invalid.
pub open spec fn invalidated_value(value: StackValue, inactive: Seq<ReturnAddress>) -> StackValue {
    match value {
        StackValue::ReturnAddress(address) if inactive.contains(address) => {
            StackValue::InvalidReturnAddress
        },
        _ => value,
    }
}

impl StackArena {
    /// The arena is consistent.
    pub closed spec fn inv(&self) -> bool {
        let nodes = self.nodes@;
        let entries = node_entries(self.interned);
        &&& forall|i: int|
            #![trigger nodes[i]]
            0 <= i < nodes.len() ==> {
                &&& nodes[i].previous.0 <= i
                &&& nodes[i].depth == total_slots(node_values(nodes, (i + 1) as nat))
                &&& entries.contains_key(node_key(nodes[i].value, nodes[i].previous.0))
                &&& entries[node_key(nodes[i].value, nodes[i].previous.0)] == i + 1
            }
        &&& forall|key: NodeKey| #[trigger]
            entries.contains_key(key) ==> {
                &&& 1 <= entries[key] <= nodes.len()
                &&& node_key(nodes[entries[key] - 1].value, nodes[entries[key] - 1].previous.0)
                    == key
            }
    }

    /// The number of stacks besides the empty one.
    pub closed spec fn size(&self) -> nat {
        self.nodes@.len()
    }

    /// An identifier names a stack of the arena.
    pub open spec fn holds(&self, id: StackId) -> bool {
        id.0 <= self.size()
    }

    /// The values of a stack, the bottom first.
    pub closed spec fn values(&self, id: StackId) -> Seq<StackValue> {
        node_values(self.nodes@, id.0 as nat)
    }

    /// Some stack of the arena has these values.
    pub open spec fn has(&self, values: Seq<StackValue>) -> bool {
        exists|id: StackId| #[trigger] self.holds(id) && self.values(id) == values
    }

    /// The stacks of an earlier arena are still there, and those that came since are stacks that arise
    /// when the values of one stack are pushed one after the other.
    pub open spec fn grown(&self, earlier: &StackArena, values: Seq<StackValue>) -> bool {
        &&& self.size() >= earlier.size()
        &&& forall|id: StackId|
            #![trigger self.values(id)]
            #![trigger earlier.values(id)]
            earlier.holds(id) ==> self.values(id) == earlier.values(id)
        &&& forall|id: StackId|
            #![trigger self.values(id)]
            self.holds(id) && !earlier.holds(id) ==> self.values(id).len() > 0
                && self.values(id).is_prefix_of(values)
    }

    /// Every lower part of a stack that is not too deep is a stack of the arena.
    pub open spec fn holds_parts(&self, values: Seq<StackValue>) -> bool {
        forall|part: Seq<StackValue>| #[trigger]
            part.is_prefix_of(values) && total_slots(part) <= u16::MAX ==> self.has(part)
    }

    /// The arena has no place for a stack, for the reason that a fault tells.
    ///
    /// If the stack is too deep, the arena has all lower parts of it that are not. If it is for want of an
    /// identifier, the arena has neither the stack nor all those parts.
    pub open spec fn refuses(&self, values: Seq<StackValue>, fault: Fault) -> bool {
        ||| {
            &&& fault == too_deep()
            &&& total_slots(values) > u16::MAX
            &&& self.holds_parts(values)
        }
        ||| {
            &&& fault == too_many_stacks()
            &&& self.size() == usize::MAX
            &&& !self.has(values)
            &&& !self.holds_parts(values)
        }
    }

    /// A stack is the longest lower part of another that the arena has, and not the whole of it.
    pub open spec fn is_longest_part(&self, stack: StackId, values: Seq<StackValue>) -> bool {
        let n = self.values(stack).len() as int;
        &&& n < values.len()
        &&& self.values(stack) == values.take(n)
        &&& !self.has(values.take(n + 1))
    }

    /// Every lower part of a stack of the arena is a stack of the arena.
    pub proof fn lemma_part_held(&self, id: StackId, part: Seq<StackValue>)
        requires
            self.inv(),
            self.holds(id),
            part.is_prefix_of(self.values(id)),
        ensures
            self.has(part),
        decreases id.0,
    {
        if part.len() == self.values(id).len() {
            assert(part =~= self.values(id));
        } else {
            let below = self.nodes@[id.0 - 1].previous;
            assert(self.values(below) =~= self.values(id).drop_last());
            assert(part =~= self.values(below).take(part.len() as int));
            self.lemma_part_held(below, part);
        }
    }

    /// An arena has all lower parts of the stacks that it has.
    pub proof fn lemma_parts_held(&self, values: Seq<StackValue>)
        requires
            self.inv(),
            self.has(values),
        ensures
            self.holds_parts(values),
    {
        let id = choose|id: StackId| #[trigger] self.holds(id) && self.values(id) == values;
        assert forall|part: Seq<StackValue>| #[trigger]
            part.is_prefix_of(values) && total_slots(part) <= u16::MAX implies self.has(part) by {
            self.lemma_part_held(id, part);
        }
    }

    /// Where the values of a stack are pushed one after the other and one is refused, the whole stack is
    /// refused for the same reason.
    pub(crate) proof fn lemma_refuses(&self, stack: StackId, values: Seq<StackValue>, fault: Fault)
        requires
            self.inv(),
            self.holds(stack),
            self.values(stack).len() < values.len(),
            self.values(stack) == values.take(self.values(stack).len() as int),
            ({
                let next = values.take(self.values(stack).len() as int + 1);
                ||| fault == too_deep() && total_slots(next) > u16::MAX
                ||| fault == too_many_stacks() && self.size() == usize::MAX && total_slots(next)
                    <= u16::MAX && !self.has(next)
            }),
        ensures
            self.refuses(values, fault),
            self.is_longest_part(stack, values),
            total_slots(values.take(self.values(stack).len() as int + 1)) > u16::MAX
                ==> self.holds_parts(values),
    {
        let n = self.values(stack).len() as int;
        let next = values.take(n + 1);
        lemma_take_slots(values, n + 1);
        assert(next.is_prefix_of(values));
        if self.has(values) {
            let id = choose|id: StackId| #[trigger] self.holds(id) && self.values(id) == values;
            self.lemma_values_bounds(id);
            self.lemma_part_held(id, next);
        }
        if self.has(next) {
            let id = choose|id: StackId| #[trigger] self.holds(id) && self.values(id) == next;
            self.lemma_values_bounds(id);
        }
        if total_slots(next) > u16::MAX {
            assert forall|part: Seq<StackValue>| #[trigger]
                part.is_prefix_of(values) && total_slots(part) <= u16::MAX implies self.has(
                part,
            ) by {
                if part.len() <= n {
                    assert(part =~= self.values(stack).take(part.len() as int));
                    self.lemma_part_held(stack, part);
                } else {
                    assert(next =~= part.take(n + 1));
                    lemma_take_slots(part, n + 1);
                }
            }
        }
    }

    /// There are no more stacks than identifiers.
    pub proof fn lemma_size(&self)
        ensures
            self.size() <= usize::MAX,
    {
        assert(self.nodes.len() == self.nodes@.len());
    }

    proof fn lemma_values_stable(earlier: Seq<StackNode>, later: Seq<StackNode>, id: nat)
        requires
            earlier.len() <= later.len(),
            later.take(earlier.len() as int) == earlier,
            id <= earlier.len(),
        ensures
            node_values(later, id) == node_values(earlier, id),
        decreases id,
    {
        if id > 0 {
            assert(later.take(earlier.len() as int)[id - 1] == later[id - 1]);
            if earlier[id - 1].previous.0 < id {
                Self::lemma_values_stable(earlier, later, earlier[id - 1].previous.0 as nat);
            }
        }
    }

    /// The empty stack is in every arena; every other stack has a value, and no stack is deeper than
    /// `u16::MAX` slots.
    pub proof fn lemma_values_bounds(&self, id: StackId)
        requires
            self.inv(),
            self.holds(id),
        ensures
            id == StackId::empty() <==> self.values(id).len() == 0,
            total_slots(self.values(id)) <= u16::MAX,
    {
        if id.0 > 0 {
            assert(self.nodes@[id.0 - 1].depth == total_slots(self.values(id)));
        }
    }

    /// The empty stack has no values.
    pub proof fn lemma_empty(&self)
        ensures
            self.holds(StackId::empty()),
            self.values(StackId::empty()) == Seq::<StackValue>::empty(),
    {
    }

    /// Different stacks have different values.
    pub proof fn lemma_values_injective(&self, a: StackId, b: StackId)
        requires
            self.inv(),
            self.holds(a),
            self.holds(b),
            self.values(a) == self.values(b),
        ensures
            a == b,
        decreases a.0,
    {
        self.lemma_values_bounds(a);
        self.lemma_values_bounds(b);
        if a.0 > 0 && b.0 > 0 {
            let m = self.nodes@[a.0 - 1];
            let n = self.nodes@[b.0 - 1];
            let below_a = self.values(m.previous);
            let below_b = self.values(n.previous);
            assert(below_a =~= self.values(a).drop_last());
            assert(below_b =~= self.values(b).drop_last());
            assert(m.value == self.values(a).last());
            assert(n.value == self.values(b).last());
            self.lemma_values_injective(m.previous, n.previous);
        }
    }

    /// Taking the top value from a stack on which a value was pushed gives back that value and the
    /// identifier of the stack as it was.
    pub proof fn lemma_pop_undoes_push(
        &self,
        stack: StackId,
        value: StackValue,
        pushed: StackId,
        below: StackId,
    )
        requires
            self.inv(),
            self.holds(stack),
            self.holds(pushed),
            self.values(pushed) == self.values(stack).push(value),
            self.holds(below),
            self.values(below) == self.values(pushed).drop_last(),
        ensures
            self.values(pushed).last() == value,
            below == stack,
    {
        assert(self.values(below) =~= self.values(stack));
        self.lemma_values_injective(below, stack);
    }

    /// A new arena, with the empty stack alone.
    pub fn new() -> (arena: Self)
        ensures
            arena.inv(),
            arena.size() == 0,
    {
        StackArena { nodes: Vec::new(), interned: node_table_new() }
    }

    /// Tells the slots of a stack.
    pub fn depth(&self, stack: StackId) -> (depth: Result<u16, Error>)
        requires
            self.inv(),
        ensures
            match depth {
                Ok(depth) => self.holds(stack) && depth == total_slots(self.values(stack)),
                Err(error) => !self.holds(stack) && error@ == unknown_stack(),
            },
    {
        if stack == StackId::empty() {
            return Ok(0);
        }
        let index: usize = stack.0 - 1;
        if index < self.nodes.len() {
            Ok(self.nodes[index].depth)
        } else {
            Err(violation("invalid operand-stack identifier"))
        }
    }

    /// Puts a value on top of a stack.
    ///
    /// The stack below is left as it is. If the arena has the resulting stack already, its identifier is
    /// returned and the arena does not grow.
    pub fn push(&mut self, stack: StackId, value: StackValue) -> (id: Result<StackId, Error>)
        requires
            old(self).inv(),
        ensures
            final(self).inv(),
            final(self).grown(&*old(self), old(self).values(stack).push(value)),
            match id {
                Ok(id) => {
                    &&& old(self).holds(stack)
                    &&& total_slots(old(self).values(stack)) + slots_of(value) <= u16::MAX
                    &&& final(self).holds(id)
                    &&& final(self).values(id) == old(self).values(stack).push(value)
                    &&& final(self).size() == old(self).size() + if old(self).has(
                        old(self).values(stack).push(value),
                    ) {
                        0nat
                    } else {
                        1nat
                    }
                },
                Err(error) => {
                    &&& *final(self) == *old(self)
                    &&& if !old(self).holds(stack) {
                        error@ == unknown_stack()
                    } else if total_slots(old(self).values(stack)) + slots_of(value) > u16::MAX {
                        error@ == too_deep()
                    } else {
                        &&& error@ == too_many_stacks()
                        &&& old(self).size() == usize::MAX
                        &&& !old(self).has(old(self).values(stack).push(value))
                    }
                },
            },
    {
        let key = node_key_of(value, stack.0);
        let ghost values = self.values(stack).push(value);
        let ghost nodes = self.nodes@;
        if let Some(existing) = node_table_get(&self.interned, key) {
            proof {
                let node = nodes[existing - 1];
                lemma_node_key_injective(node.value, node.previous.0, value, stack.0);
                assert(self.values(StackId(existing)) =~= values);
                lemma_total_slots_push(self.values(stack), value);
                assert(self.holds(StackId(existing)));
            }
            return Ok(StackId(existing));
        }
        proof {
            if self.has(values) {
                self.lemma_absent(stack, value);
            }
        }
        let below = match self.depth(stack) {
            Ok(below) => below,
            Err(error) => {
                return Err(error);
            },
        };
        let slots = value.slots();
        if below > 0xffff - slots {
            return Err(violation("operand stack exceeds u16::MAX slots"));
        }
        let depth: u16 = below + slots;
        if self.nodes.len() == usize::MAX {
            return Err(violation("too many operand-stack states"));
        }
        let raw_id: usize = self.nodes.len() + 1;
        self.nodes.push(StackNode { value, previous: stack, depth });
        node_table_insert(&mut self.interned, key, raw_id);
        proof {
            let later = self.nodes@;
            assert(later.take(nodes.len() as int) =~= nodes);
            assert forall|id: nat| id <= nodes.len() implies #[trigger] node_values(later, id)
                == node_values(nodes, id) by {
                Self::lemma_values_stable(nodes, later, id);
            }
            assert(later[nodes.len() as int] == StackNode { value, previous: stack, depth });
            assert(node_values(later, stack.0 as nat) == old(self).values(stack));
            assert(node_values(later, raw_id as nat) =~= values);
            lemma_total_slots_push(old(self).values(stack), value);
            assert forall|i: int|
                #![trigger later[i]]
                0 <= i < later.len() implies later[i].depth == total_slots(
                node_values(later, (i + 1) as nat),
            ) by {
                if i < nodes.len() {
                    assert(later[i] == nodes[i]);
                }
            }
            assert(self.values(StackId(raw_id)) == values);
            assert forall|id: StackId|
                #![trigger self.values(id)]
                self.holds(id) && !old(self).holds(id) implies self.values(id).len() > 0
                && self.values(id).is_prefix_of(values) by {
                assert(id.0 == raw_id);
            }
        }
        Ok(StackId(raw_id))
    }

    proof fn lemma_absent(&self, stack: StackId, value: StackValue)
        requires
            self.inv(),
            self.has(self.values(stack).push(value)),
            !node_entries(self.interned).contains_key(node_key(value, stack.0)),
        ensures
            !self.holds(stack),
    {
        if self.holds(stack) {
            let values = self.values(stack).push(value);
            let id = choose|id: StackId| #[trigger] self.holds(id) && self.values(id) == values;
            self.lemma_values_bounds(id);
            let node = self.nodes@[id.0 - 1];
            assert(self.values(node.previous) =~= self.values(id).drop_last());
            assert(values.drop_last() =~= self.values(stack));
            self.lemma_values_injective(node.previous, stack);
            assert(node.value == values.last());
        }
    }

    /// Takes the value off the top of a stack; the arena keeps the stack.
    pub fn pop(&self, stack: StackId) -> (popped: Result<(StackValue, StackId), Error>)
        requires
            self.inv(),
        ensures
            match popped {
                Ok((value, below)) => {
                    &&& self.holds(stack)
                    &&& self.values(stack).len() > 0
                    &&& value == self.values(stack).last()
                    &&& self.holds(below)
                    &&& self.values(below) == self.values(stack).drop_last()
                },
                Err(error) => if self.holds(stack) {
                    self.values(stack).len() == 0 && error@ == underflow()
                } else {
                    error@ == unknown_stack()
                },
            },
    {
        if stack.0 == 0 {
            return Err(violation("operand stack underflow"));
        }
        let index: usize = stack.0 - 1;
        if index < self.nodes.len() {
            let node = self.nodes[index];
            assert(self.values(node.previous) =~= self.values(stack).drop_last());
            Ok((node.value, node.previous))
        } else {
            Err(violation("invalid operand-stack identifier"))
        }
    }

    /// Makes the return addresses of inactive subroutine calls invalid in a stack.
    pub fn invalidate_return_addresses(
        &mut self,
        stack: StackId,
        inactive: &[ReturnAddress],
    ) -> (id: Result<StackId, Error>)
        requires
            old(self).inv(),
        ensures
            final(self).inv(),
            final(self).grown(&*old(self), invalidated(old(self).values(stack), inactive@)),
            match id {
                Ok(id) => {
                    &&& old(self).holds(stack)
                    &&& final(self).holds(id)
                    &&& final(self).values(id) == invalidated(old(self).values(stack), inactive@)
                },
                Err(error) => if old(self).holds(stack) {
                    final(self).refuses(invalidated(old(self).values(stack), inactive@), error@)
                } else {
                    error@ == unknown_stack() && *final(self) == *old(self)
                },
            },
    {
        let ghost all = self.values(stack);
        let ghost target = invalidated(all, inactive@);
        let mut values: Vec<StackValue> = Vec::new();
        let mut cursor = stack;
        while cursor != StackId::empty()
            invariant
                self.inv(),
                *self == *old(self),
                all == self.values(stack),
                target == invalidated(all, inactive@),
                self.holds(cursor) <==> self.holds(stack),
                self.values(cursor) == all.take(all.len() - values.len()),
                values.len() <= all.len(),
                forall|i: int|
                    #![trigger values[i]]
                    0 <= i < values.len() ==> values[i] == target[all.len() - 1 - i],
                values.len() > 0 ==> self.holds(stack),
            decreases all.len() - values.len(),
        {
            let (mut value, previous) = match self.pop(cursor) {
                Ok(popped) => popped,
                Err(error) => {
                    proof {
                        if self.holds(cursor) {
                            self.lemma_values_bounds(cursor);
                        }
                    }
                    return Err(error);
                },
            };
            assert(value == all[all.len() - 1 - values.len()]);
            if let StackValue::ReturnAddress(address) = value {
                if contains_address(inactive, address) {
                    value = StackValue::InvalidReturnAddress;
                }
            }
            assert(self.values(previous) =~= all.take(all.len() - values.len() - 1));
            values.push(value);
            cursor = previous;
        }
        proof {
            self.lemma_values_bounds(cursor);
            lemma_invalidated_slots(all, inactive@);
            self.lemma_values_bounds(stack);
        }
        let mut rebuilt = StackId::empty();
        let mut left: usize = values.len();
        assert(target.take(0) =~= Seq::empty());
        while left > 0
            invariant
                self.inv(),
                self.grown(&*old(self), target),
                old(self).holds(stack),
                all == old(self).values(stack),
                target == invalidated(all, inactive@),
                total_slots(target) <= u16::MAX,
                values.len() == all.len() == target.len(),
                left <= values.len(),
                forall|i: int|
                    #![trigger values[i]]
                    0 <= i < values.len() ==> values[i] == target[all.len() - 1 - i],
                self.holds(rebuilt),
                self.values(rebuilt) == target.take(target.len() - left),
            decreases left,
        {
            let ghost before = *self;
            let ghost part = target.take(target.len() - left);
            left -= 1;
            let value = values[left];
            proof {
                assert(part.push(value) =~= target.take(target.len() - left));
                lemma_take_slots(target, target.len() - left);
                lemma_total_slots_push(part, value);
            }
            let pushed = self.push(rebuilt, value);
            proof {
                lemma_grown_twice(old(self), &before, self, target, part.push(value));
            }
            rebuilt = match pushed {
                Ok(id) => id,
                Err(error) => {
                    proof {
                        self.lemma_refuses(rebuilt, target, error@);
                    }
                    return Err(error);
                },
            };
        }
        assert(target.take(target.len() as int) =~= target);
        Ok(rebuilt)
    }
}

/// Tells whether an address is in a list.
pub(crate) fn contains_address(list: &[ReturnAddress], address: ReturnAddress) -> (found: bool)
    ensures
        found == list@.contains(address),
{
    let mut i: usize = 0;
    while i < list.len()
        invariant
            i <= list.len(),
            forall|j: int| 0 <= j < i ==> list@[j] != address,
        decreases list.len() - i,
    {
        if list[i] == address {
            return true;
        }
        i += 1;
    }
    false
}

/// What makes addresses invalid changes neither the number of values nor their slots.
pub proof fn lemma_invalidated_slots(stack: Seq<StackValue>, inactive: Seq<ReturnAddress>)
    ensures
        invalidated(stack, inactive).len() == stack.len(),
        total_slots(invalidated(stack, inactive)) == total_slots(stack),
    decreases stack.len(),
{
    if stack.len() > 0 {
        lemma_invalidated_slots(stack.drop_last(), inactive);
        assert(invalidated(stack, inactive).drop_last() =~= invalidated(
            stack.drop_last(),
            inactive,
        ));
    }
}

/// The lower part of a stack has no more slots than the whole.
pub proof fn lemma_take_slots(stack: Seq<StackValue>, n: int)
    requires
        0 <= n <= stack.len(),
    ensures
        total_slots(stack.take(n)) <= total_slots(stack),
    decreases stack.len(),
{
    if n < stack.len() {
        assert(stack.drop_last().take(n) =~= stack.take(n));
        lemma_take_slots(stack.drop_last(), n);
    } else {
        assert(stack.take(n) =~= stack);
    }
}

/// An arena that grows twice, the second time no further than towards the first stack, has grown
/// towards that stack.
pub proof fn lemma_grown_twice(
    first: &StackArena,
    second: &StackArena,
    third: &StackArena,
    values: Seq<StackValue>,
    part: Seq<StackValue>,
)
    requires
        second.grown(first, values),
        third.grown(second, part),
        part.is_prefix_of(values),
    ensures
        third.grown(first, values),
{
    assert forall|id: StackId|
        #![trigger third.values(id)]
        third.holds(id) && !first.holds(id) implies third.values(id).len() > 0 && third.values(
        id,
    ).is_prefix_of(values) by {
        if second.holds(id) {
            assert(second.values(id).is_prefix_of(values));
        } else {
            assert(third.values(id).is_prefix_of(part));
        }
    }
}

} // verus!
