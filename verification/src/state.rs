//! States of the analysis: machine states whose operand stack is kept in an arena.
use vstd::prelude::*;

use crate::arena::{StackArena, StackId};
use crate::locals::{
    increasing, lemma_increasing_bound, lemma_local_map_injective, local_map, ReturnAddressLocal,
};
use crate::machine::MachineState;
use crate::value::ReturnAddress;

verus! {

/// A state of the analysis.
#[derive(Debug)]
pub struct FlowState {
    pub instruction: usize,
    pub stack: StackId,
    pub return_address_locals: Vec<(u16, ReturnAddressLocal)>,
    pub subroutines: Vec<ReturnAddress>,
}

/// The contents of a [`FlowState`].
#[verifier::ext_equal]
pub struct FlowSnapshot {
    pub instruction: usize,
    pub stack: StackId,
    pub locals: Seq<(u16, ReturnAddressLocal)>,
    pub subroutines: Seq<ReturnAddress>,
}

impl View for FlowState {
    type V = FlowSnapshot;

    open spec fn view(&self) -> FlowSnapshot {
        FlowSnapshot {
            instruction: self.instruction,
            stack: self.stack,
            locals: self.return_address_locals@,
            subroutines: self.subroutines@,
        }
    }
}

impl FlowSnapshot {
    /// The state is one of the analysis that an arena belongs to.
    pub open spec fn valid(self, stacks: &StackArena) -> bool {
        &&& stacks.holds(self.stack)
        &&& increasing(self.locals)
    }

    /// The machine state that the state stands for.
    pub open spec fn machine(self, stacks: &StackArena) -> MachineState {
        MachineState {
            instruction: self.instruction,
            stack: stacks.values(self.stack),
            locals: local_map(self.locals),
            subroutines: self.subroutines,
        }
    }
}

impl FlowState {
    /// The machine state that the state stands for.
    pub open spec fn machine(&self, stacks: &StackArena) -> MachineState {
        self@.machine(stacks)
    }

    /// The state is one of the analysis that an arena belongs to.
    pub open spec fn valid(&self, stacks: &StackArena) -> bool {
        self@.valid(stacks)
    }
}

impl Clone for FlowState {
    fn clone(&self) -> (copy: Self)
        ensures
            copy@ == self@,
    {
        let mut return_address_locals: Vec<(u16, ReturnAddressLocal)> = Vec::new();
        let mut i: usize = 0;
        while i < self.return_address_locals.len()
            invariant
                i <= self.return_address_locals.len(),
                return_address_locals@ == self.return_address_locals@.take(i as int),
            decreases self.return_address_locals.len() - i,
        {
            return_address_locals.push(self.return_address_locals[i]);
            assert(self.return_address_locals@.take(i + 1) =~= self.return_address_locals@.take(
                i as int,
            ).push(self.return_address_locals@[i as int]));
            i += 1;
        }
        let mut subroutines: Vec<ReturnAddress> = Vec::new();
        let mut j: usize = 0;
        while j < self.subroutines.len()
            invariant
                j <= self.subroutines.len(),
                subroutines@ == self.subroutines@.take(j as int),
            decreases self.subroutines.len() - j,
        {
            subroutines.push(self.subroutines[j]);
            assert(self.subroutines@.take(j + 1) =~= self.subroutines@.take(j as int).push(
                self.subroutines@[j as int],
            ));
            j += 1;
        }
        assert(return_address_locals@ =~= self.return_address_locals@);
        assert(subroutines@ =~= self.subroutines@);
        FlowState { instruction: self.instruction, stack: self.stack, return_address_locals, subroutines }
    }
}

// ---- Keys: states as lists of numbers, to be found again in a hash set.
/// The numbers of an entry for a local variable.
pub open spec fn local_numbers(entry: (u16, ReturnAddressLocal)) -> Seq<usize> {
    match entry.1 {
        ReturnAddressLocal::Active(address) => seq![
            entry.0 as usize,
            1,
            address.call_site,
            address.target,
            address.continuation,
        ],
        ReturnAddressLocal::Invalid => seq![entry.0 as usize, 0, 0, 0, 0],
    }
}

/// The numbers of a list of local variables.
pub open spec fn locals_numbers(list: Seq<(u16, ReturnAddressLocal)>) -> Seq<usize>
    decreases list.len(),
{
    if list.len() == 0 {
        Seq::empty()
    } else {
        locals_numbers(list.drop_last()) + local_numbers(list.last())
    }
}

/// The numbers of a list of subroutine calls.
pub open spec fn calls_numbers(list: Seq<ReturnAddress>) -> Seq<usize>
    decreases list.len(),
{
    if list.len() == 0 {
        Seq::empty()
    } else {
        calls_numbers(list.drop_last()) + seq![
            list.last().call_site,
            list.last().target,
            list.last().continuation,
        ]
    }
}

/// The numbers of a state.
pub open spec fn state_key(state: FlowSnapshot) -> Seq<usize> {
    seq![state.instruction, state.stack.0, state.locals.len() as usize] + locals_numbers(
        state.locals,
    ) + calls_numbers(state.subroutines)
}

proof fn lemma_locals_numbers_len(list: Seq<(u16, ReturnAddressLocal)>)
    ensures
        locals_numbers(list).len() == 5 * list.len(),
    decreases list.len(),
{
    if list.len() > 0 {
        lemma_locals_numbers_len(list.drop_last());
    }
}

pub proof fn lemma_calls_numbers_len(list: Seq<ReturnAddress>)
    ensures
        calls_numbers(list).len() == 3 * list.len(),
    decreases list.len(),
{
    if list.len() > 0 {
        lemma_calls_numbers_len(list.drop_last());
    }
}

proof fn lemma_locals_numbers_injective(
    a: Seq<(u16, ReturnAddressLocal)>,
    b: Seq<(u16, ReturnAddressLocal)>,
)
    requires
        locals_numbers(a) == locals_numbers(b),
    ensures
        a == b,
    decreases a.len(),
{
    lemma_locals_numbers_len(a);
    lemma_locals_numbers_len(b);
    if a.len() > 0 {
        let n = 5 * (a.len() - 1);
        let x = locals_numbers(a);
        let y = locals_numbers(b);
        lemma_locals_numbers_len(a.drop_last());
        lemma_locals_numbers_len(b.drop_last());
        assert(locals_numbers(a.drop_last()) =~= x.take(n));
        assert(locals_numbers(b.drop_last()) =~= y.take(n));
        lemma_locals_numbers_injective(a.drop_last(), b.drop_last());
        assert(local_numbers(a.last()) =~= x.skip(n));
        assert(local_numbers(b.last()) =~= y.skip(n));
        let p = local_numbers(a.last());
        let q = local_numbers(b.last());
        assert(p[0] == q[0] && p[1] == q[1] && p[2] == q[2] && p[3] == q[3] && p[4] == q[4]);
        assert(a.last() == b.last());
        assert(a =~= a.drop_last().push(a.last()));
        assert(b =~= b.drop_last().push(b.last()));
    } else {
        assert(a =~= b);
    }
}

pub proof fn lemma_calls_numbers_injective(a: Seq<ReturnAddress>, b: Seq<ReturnAddress>)
    requires
        calls_numbers(a) == calls_numbers(b),
    ensures
        a == b,
    decreases a.len(),
{
    lemma_calls_numbers_len(a);
    lemma_calls_numbers_len(b);
    if a.len() > 0 {
        let n = 3 * (a.len() - 1);
        let x = calls_numbers(a);
        let y = calls_numbers(b);
        lemma_calls_numbers_len(a.drop_last());
        lemma_calls_numbers_len(b.drop_last());
        assert(calls_numbers(a.drop_last()) =~= x.take(n));
        assert(calls_numbers(b.drop_last()) =~= y.take(n));
        lemma_calls_numbers_injective(a.drop_last(), b.drop_last());
        assert(x[n] == y[n] && x[n + 1] == y[n + 1] && x[n + 2] == y[n + 2]);
        assert(x[n] == a.last().call_site && x[n + 1] == a.last().target && x[n + 2]
            == a.last().continuation);
        assert(y[n] == b.last().call_site && y[n + 1] == b.last().target && y[n + 2]
            == b.last().continuation);
        assert(a =~= a.drop_last().push(a.last()));
        assert(b =~= b.drop_last().push(b.last()));
    } else {
        assert(a =~= b);
    }
}

/// Different states have different keys.
pub proof fn lemma_state_key_injective(a: FlowSnapshot, b: FlowSnapshot)
    requires
        increasing(a.locals),
        increasing(b.locals),
        state_key(a) == state_key(b),
    ensures
        a == b,
{
    lemma_increasing_bound(a.locals);
    lemma_increasing_bound(b.locals);
    lemma_locals_numbers_len(a.locals);
    lemma_locals_numbers_len(b.locals);
    let x = state_key(a);
    let y = state_key(b);
    assert(x[0] == y[0] && x[1] == y[1] && x[2] == y[2]);
    let n = 3 + 5 * a.locals.len();
    assert(locals_numbers(a.locals) =~= x.subrange(3, n as int));
    assert(locals_numbers(b.locals) =~= y.subrange(3, n as int));
    assert(calls_numbers(a.subroutines) =~= x.skip(n as int));
    assert(calls_numbers(b.subroutines) =~= y.skip(n as int));
    lemma_locals_numbers_injective(a.locals, b.locals);
    lemma_calls_numbers_injective(a.subroutines, b.subroutines);
    assert(a =~= b);
}

/// Different states of an analysis stand for different machine states.
pub proof fn lemma_machine_injective(stacks: &StackArena, a: FlowSnapshot, b: FlowSnapshot)
    requires
        stacks.inv(),
        a.valid(stacks),
        b.valid(stacks),
        a.machine(stacks) == b.machine(stacks),
    ensures
        a == b,
{
    stacks.lemma_values_injective(a.stack, b.stack);
    lemma_local_map_injective(a.locals, b.locals);
    assert(a =~= b);
}

impl FlowState {
    /// Writes the state as a list of numbers.
    pub fn key(&self) -> (key: Vec<usize>)
        ensures
            key@ == state_key(self@),
    {
        let mut key: Vec<usize> = Vec::new();
        key.push(self.instruction);
        key.push(self.stack.0);
        key.push(self.return_address_locals.len());
        let ghost head = seq![
            self.instruction,
            self.stack.0,
            self.return_address_locals@.len() as usize,
        ];
        assert(key@ =~= head);
        let mut i: usize = 0;
        assert(self.return_address_locals@.take(0) =~= Seq::empty());
        while i < self.return_address_locals.len()
            invariant
                i <= self.return_address_locals.len(),
                key@ =~= head + locals_numbers(self.return_address_locals@.take(i as int)),
            decreases self.return_address_locals.len() - i,
        {
            let (index, local) = self.return_address_locals[i];
            let ghost list = self.return_address_locals@;
            assert(list.take(i + 1).drop_last() =~= list.take(i as int));
            assert(list.take(i + 1).last() == list[i as int]);
            key.push(index as usize);
            match local {
                ReturnAddressLocal::Active(address) => {
                    key.push(1);
                    key.push(address.call_site);
                    key.push(address.target);
                    key.push(address.continuation);
                },
                ReturnAddressLocal::Invalid => {
                    key.push(0);
                    key.push(0);
                    key.push(0);
                    key.push(0);
                },
            }
            i += 1;
        }
        assert(self.return_address_locals@.take(i as int) =~= self.return_address_locals@);
        let ghost front = head + locals_numbers(self.return_address_locals@);
        let mut j: usize = 0;
        assert(self.subroutines@.take(0) =~= Seq::empty());
        while j < self.subroutines.len()
            invariant
                j <= self.subroutines.len(),
                key@ =~= front + calls_numbers(self.subroutines@.take(j as int)),
            decreases self.subroutines.len() - j,
        {
            let frame = self.subroutines[j];
            let ghost list = self.subroutines@;
            assert(list.take(j + 1).drop_last() =~= list.take(j as int));
            assert(list.take(j + 1).last() == list[j as int]);
            key.push(frame.call_site);
            key.push(frame.target);
            key.push(frame.continuation);
            j += 1;
        }
        assert(self.subroutines@.take(j as int) =~= self.subroutines@);
        key
    }
}

} // verus!
