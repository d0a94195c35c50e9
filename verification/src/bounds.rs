//! Why the search ends: a method has only so many states.
use vstd::prelude::*;
use vstd::set_lib::*;

use crate::confinement::{
    calls_confined, confined, lemma_found_reachable, lemma_reachable_confined, well_formed,
};
use crate::locals::ReturnAddressLocal;
use crate::machine::{Code, MachineState};
use crate::search::{ends, found, passes};
use crate::state::{calls_numbers, lemma_calls_numbers_injective, lemma_calls_numbers_len};
use crate::value::{lemma_total_slots_bounds, ReturnAddress, StackValue};

verus! {

/// The lists of machine numbers of a length.
pub open spec fn lists_of(length: nat) -> Set<Seq<usize>> {
    Set::new(|list: Seq<usize>| list.len() == length)
}

/// The lists of machine numbers that are no longer than a length.
pub open spec fn lists_up_to(length: nat) -> Set<Seq<usize>> {
    Set::new(|list: Seq<usize>| list.len() <= length)
}

proof fn lemma_lists_of_finite(length: nat)
    ensures
        lists_of(length).finite(),
    decreases length,
{
    if length == 0 {
        let one = Set::<Seq<usize>>::empty().insert(Seq::empty());
        assert forall|list: Seq<usize>| lists_of(0).contains(list) implies one.contains(list) by {
            assert(list =~= Seq::empty());
        }
        lemma_set_subset_finite(one, lists_of(0));
    } else {
        let shorter = lists_of((length - 1) as nat);
        lemma_lists_of_finite((length - 1) as nat);
        broadcast use full_set_properties;

        let numbers = Set::<usize>::full();
        let ending_in = |n: usize| shorter.map(|list: Seq<usize>| list.push(n));
        let family = numbers.map(ending_in);
        numbers.lemma_map_finite(ending_in);
        assert forall|set: Set<Seq<usize>>| family.contains(set) implies #[trigger] set.finite() by {
            let n = choose|n: usize| numbers.contains(n) && ending_in(n) == set;
            shorter.lemma_map_finite(|list: Seq<usize>| list.push(n));
        }
        family.lemma_flatten_finite();
        assert forall|list: Seq<usize>| lists_of(length).contains(
            list,
        ) implies family.flatten().contains(list) by {
            let n = list.last();
            assert(shorter.contains(list.drop_last()));
            assert(list =~= list.drop_last().push(n));
            assert(ending_in(n).contains(list));
            assert(numbers.contains(n));
            assert(family.contains(ending_in(n)));
        }
        lemma_set_subset_finite(family.flatten(), lists_of(length));
    }
}

/// There are only so many lists of machine numbers of a bounded length.
pub proof fn lemma_lists_up_to_finite(length: nat)
    ensures
        lists_up_to(length).finite(),
    decreases length,
{
    lemma_lists_of_finite(length);
    if length == 0 {
        assert(lists_up_to(0) =~= lists_of(0));
    } else {
        lemma_lists_up_to_finite((length - 1) as nat);
        assert(lists_up_to(length) =~= lists_up_to((length - 1) as nat).union(lists_of(length)));
    }
}

// ---- Machine states as lists of numbers.
/// The numbers of a value.
pub open spec fn value_numbers(value: StackValue) -> Seq<usize> {
    match value {
        StackValue::Category1 => seq![0, 0, 0, 0],
        StackValue::Category2 => seq![1, 0, 0, 0],
        StackValue::ReturnAddress(address) => seq![
            2,
            address.call_site,
            address.target,
            address.continuation,
        ],
        StackValue::InvalidReturnAddress => seq![3, 0, 0, 0],
    }
}

/// The numbers of an operand stack.
pub open spec fn stack_numbers(stack: Seq<StackValue>) -> Seq<usize>
    decreases stack.len(),
{
    if stack.len() == 0 {
        Seq::empty()
    } else {
        stack_numbers(stack.drop_last()) + value_numbers(stack.last())
    }
}

/// One of the four numbers of a local variable.
pub open spec fn local_number(locals: Map<u16, ReturnAddressLocal>, index: u16, part: int) -> usize {
    if !locals.contains_key(index) {
        0
    } else {
        match locals[index] {
            ReturnAddressLocal::Invalid => 1,
            ReturnAddressLocal::Active(address) => if part == 0 {
                2
            } else if part == 1 {
                address.call_site
            } else if part == 2 {
                address.target
            } else {
                address.continuation
            },
        }
    }
}

/// The numbers of all local variables.
pub open spec fn locals_table(locals: Map<u16, ReturnAddressLocal>) -> Seq<usize> {
    Seq::new(0x4_0000, |i: int| local_number(locals, (i / 4) as u16, i % 4))
}

/// The numbers of a machine state.
pub open spec fn machine_numbers(state: MachineState) -> Seq<usize> {
    seq![state.instruction, state.stack.len() as usize] + stack_numbers(state.stack) + locals_table(
        state.locals,
    ) + calls_numbers(state.subroutines)
}

proof fn lemma_stack_numbers_len(stack: Seq<StackValue>)
    ensures
        stack_numbers(stack).len() == 4 * stack.len(),
    decreases stack.len(),
{
    if stack.len() > 0 {
        lemma_stack_numbers_len(stack.drop_last());
    }
}

proof fn lemma_stack_numbers_injective(a: Seq<StackValue>, b: Seq<StackValue>)
    requires
        stack_numbers(a) == stack_numbers(b),
    ensures
        a == b,
    decreases a.len(),
{
    lemma_stack_numbers_len(a);
    lemma_stack_numbers_len(b);
    if a.len() > 0 {
        let n = 4 * (a.len() - 1);
        let x = stack_numbers(a);
        let y = stack_numbers(b);
        lemma_stack_numbers_len(a.drop_last());
        lemma_stack_numbers_len(b.drop_last());
        assert(stack_numbers(a.drop_last()) =~= x.take(n));
        assert(stack_numbers(b.drop_last()) =~= y.take(n));
        lemma_stack_numbers_injective(a.drop_last(), b.drop_last());
        assert(value_numbers(a.last()) =~= x.skip(n));
        assert(value_numbers(b.last()) =~= y.skip(n));
        let p = value_numbers(a.last());
        let q = value_numbers(b.last());
        assert(p[0] == q[0] && p[1] == q[1] && p[2] == q[2] && p[3] == q[3]);
        assert(a.last() == b.last());
        assert(a =~= a.drop_last().push(a.last()));
        assert(b =~= b.drop_last().push(b.last()));
    } else {
        assert(a =~= b);
    }
}

proof fn lemma_locals_table_injective(
    a: Map<u16, ReturnAddressLocal>,
    b: Map<u16, ReturnAddressLocal>,
)
    requires
        locals_table(a) == locals_table(b),
    ensures
        a == b,
{
    assert forall|index: u16|
        #![trigger a.dom().contains(index)]
        #![trigger b.dom().contains(index)]
        a.dom().contains(index) == b.dom().contains(index) && (a.dom().contains(index) ==> a[index]
            == b[index]) by {
        let i = 4 * index as int;
        let x = locals_table(a);
        let y = locals_table(b);
        assert(x[i] == y[i] && x[i + 1] == y[i + 1] && x[i + 2] == y[i + 2] && x[i + 3] == y[i
            + 3]);
        assert(i / 4 == index && i % 4 == 0);
        assert((i + 1) / 4 == index && (i + 1) % 4 == 1);
        assert((i + 2) / 4 == index && (i + 2) % 4 == 2);
        assert((i + 3) / 4 == index && (i + 3) % 4 == 3);
        assert(x[i] == local_number(a, index, 0) && y[i] == local_number(b, index, 0));
        assert(x[i + 1] == local_number(a, index, 1) && y[i + 1] == local_number(b, index, 1));
        assert(x[i + 2] == local_number(a, index, 2) && y[i + 2] == local_number(b, index, 2));
        assert(x[i + 3] == local_number(a, index, 3) && y[i + 3] == local_number(b, index, 3));
    }
    assert(a =~= b);
}

proof fn lemma_machine_numbers_injective(a: MachineState, b: MachineState)
    requires
        a.stack.len() <= u16::MAX,
        b.stack.len() <= u16::MAX,
        machine_numbers(a) == machine_numbers(b),
    ensures
        a == b,
{
    let x = machine_numbers(a);
    let y = machine_numbers(b);
    lemma_stack_numbers_len(a.stack);
    lemma_stack_numbers_len(b.stack);
    assert(x[0] == y[0] && x[1] == y[1]);
    assert(x[0] == a.instruction && x[1] == a.stack.len());
    assert(y[0] == b.instruction && y[1] == b.stack.len());
    let n: int = 2 + 4 * a.stack.len() as int;
    assert(stack_numbers(a.stack) =~= x.subrange(2, n));
    assert(stack_numbers(b.stack) =~= y.subrange(2, n));
    assert(locals_table(a.locals) =~= x.subrange(n, n + 0x4_0000));
    assert(locals_table(b.locals) =~= y.subrange(n, n + 0x4_0000));
    assert(calls_numbers(a.subroutines) =~= x.skip(n + 0x4_0000));
    assert(calls_numbers(b.subroutines) =~= y.skip(n + 0x4_0000));
    lemma_stack_numbers_injective(a.stack, b.stack);
    lemma_locals_table_injective(a.locals, b.locals);
    lemma_calls_numbers_injective(a.subroutines, b.subroutines);
    assert(a =~= b);
}

/// Calls of different subroutines within so many instructions are no more than the instructions.
proof fn lemma_calls_bound(subroutines: Seq<ReturnAddress>, count: nat)
    requires
        calls_confined(subroutines, count),
    ensures
        subroutines.len() <= count,
{
    let targets = subroutines.map_values(|address: ReturnAddress| address.target as int);
    assert forall|i: int, j: int| 0 <= i < targets.len() && 0 <= j < targets.len() && i
        != j implies targets[i] != targets[j] by {
        if i < j {
            assert(subroutines[i].target != subroutines[j].target);
        } else {
            assert(subroutines[j].target != subroutines[i].target);
        }
    }
    targets.unique_seq_to_set();
    lemma_int_range(0, count as int);
    assert forall|t: int| targets.to_set().contains(t) implies set_int_range(
        0,
        count as int,
    ).contains(t) by {
        let i = choose|i: int| 0 <= i < targets.len() && targets[i] == t;
        assert(subroutines[i].target < count);
    }
    lemma_len_subset(targets.to_set(), set_int_range(0, count as int));
}

/// An upper bound on the number of confined states.
pub open spec fn state_limit(count: nat) -> nat {
    lists_up_to(2 + 4 * 0xffff + 0x4_0000 + 3 * count).len()
}

/// Different confined states are no more than the limit.
pub proof fn lemma_states_bounded<'a>(code: Code<'a>, states: Seq<MachineState>)
    requires
        states.no_duplicates(),
        forall|i: int| 0 <= i < states.len() ==> confined(code, #[trigger] states[i]),
    ensures
        states.len() <= state_limit(code.instructions.len()),
{
    let count = code.instructions.len();
    let length = 2 + 4 * 0xffff + 0x4_0000 + 3 * count;
    let keys = states.map_values(|state: MachineState| machine_numbers(state));
    assert forall|i: int| 0 <= i < states.len() implies lists_up_to(length).contains(
        #[trigger] keys[i],
    ) && states[i].stack.len() <= u16::MAX by {
        assert(confined(code, states[i]));
        lemma_total_slots_bounds(states[i].stack);
        lemma_calls_bound(states[i].subroutines, count);
        lemma_stack_numbers_len(states[i].stack);
        lemma_calls_numbers_len(states[i].subroutines);
    }
    assert forall|i: int, j: int| 0 <= i < keys.len() && 0 <= j < keys.len() && i != j implies keys[i]
        != keys[j] by {
        if keys[i] == keys[j] {
            lemma_machine_numbers_injective(states[i], states[j]);
        }
    }
    keys.unique_seq_to_set();
    lemma_lists_up_to_finite(length);
    assert forall|key: Seq<usize>| keys.to_set().contains(key) implies lists_up_to(length).contains(
        key,
    ) by {
        let i = choose|i: int| 0 <= i < keys.len() && keys[i] == key;
    }
    lemma_len_subset(keys.to_set(), lists_up_to(length));
}

/// The search never finds more states than the limit.
pub proof fn lemma_found_bounded<'a>(code: Code<'a>, place: nat)
    requires
        well_formed(code),
    ensures
        found(code, place).len() <= state_limit(code.instructions.len()),
{
    lemma_found_reachable(code, place);
    assert forall|i: int| 0 <= i < found(code, place).len() implies confined(
        code,
        #[trigger] found(code, place)[i],
    ) by {
        lemma_reachable_confined(code, found(code, place)[i]);
    }
    lemma_states_bounded(code, found(code, place));
}

proof fn lemma_passed_or_ends<'a>(code: Code<'a>, place: nat)
    ensures
        (forall|earlier: nat| earlier < place ==> #[trigger] passes(code, earlier)) || exists|end: nat|
            ends(code, end),
    decreases place,
{
    if place > 0 {
        let last = (place - 1) as nat;
        lemma_passed_or_ends(code, last);
        if forall|earlier: nat| earlier < last ==> #[trigger] passes(code, earlier) {
            if !passes(code, last) {
                assert(ends(code, last));
            }
        }
    }
}

/// The search through well-formed code ends.
pub proof fn lemma_search_ends<'a>(code: Code<'a>)
    requires
        well_formed(code),
    ensures
        exists|place: nat| ends(code, place),
{
    let limit = state_limit(code.instructions.len());
    lemma_passed_or_ends(code, limit + 1);
    if forall|earlier: nat| earlier < limit + 1 ==> #[trigger] passes(code, earlier) {
        assert(passes(code, limit));
        lemma_found_bounded(code, limit);
    }
}

} // verus!
