//! What each instruction does, opcode by opcode.
use vstd::prelude::*;

use crate::arena::{lemma_invalidated_slots, underflow};
use crate::constant_pool::Constant;
use crate::depth::lemma_applied_depth;
use crate::error::Fault;
use crate::instruction::{effect, fixed_effect, read, stored_reference, written, Instruction};
use crate::locals::{holds_address, in_range, ReturnAddressLocal};
use crate::machine::{
    address_consumed, address_read, address_reads, call_target, expected_category1, left_at_fault,
    left_by, left_without, locals_after, outcome_state, popped_and_pushed, rearranged, return_local,
    unsupported_width, value_split, values_in, with_slots, without_slots, Code, MachineState,
};
use crate::value::{lemma_total_slots_push, slots_of, total_slots, StackValue};

verus! {

/// The instruction that a state is at.
pub open spec fn instruction_at<'a>(code: Code<'a>, state: MachineState) -> Instruction {
    code.instructions[state.instruction as int]
}

/// Values none of which is a return address.
pub open spec fn ordinary(values: Seq<StackValue>) -> bool {
    forall|i: int|
        0 <= i < values.len() ==> #[trigger] values[i] == StackValue::Category1 || values[i]
            == StackValue::Category2
}

/// The instruction of a state takes ordinary values of exactly so many slots from the stack and puts
/// others in their place, with the local variables as given and the rest of the state as it was.
///
/// It fails if the stack has too few slots, if a return address is among them, and if the last value
/// reaches beyond them; what was taken until then is gone.
pub open spec fn trades<'a>(
    code: Code<'a>,
    state: MachineState,
    slots: nat,
    put: Seq<StackValue>,
    locals: Map<u16, ReturnAddressLocal>,
) -> bool {
    let outcome = outcome_state(code, state);
    let left = left_at_fault(instruction_at(code, state), code.constants, state);
    &&& forall|base: Seq<StackValue>, taken: Seq<StackValue>|
        state.stack == #[trigger] (base + taken) && ordinary(taken) && total_slots(taken) == slots
            ==> outcome == Ok::<MachineState, Fault>(
            MachineState {
                instruction: state.instruction,
                stack: base + put,
                locals,
                subroutines: state.subroutines,
            },
        )
    &&& forall|base: Seq<StackValue>, wrong: StackValue, taken: Seq<StackValue>|
        state.stack == #[trigger] (base.push(wrong) + taken) && ordinary(taken) && total_slots(taken)
            < slots && (wrong is ReturnAddress || wrong is InvalidReturnAddress) ==> outcome == Err::<
            MachineState,
            Fault,
        >(address_consumed()) && left == base
    &&& forall|base: Seq<StackValue>, wrong: StackValue, taken: Seq<StackValue>|
        state.stack == #[trigger] (base.push(wrong) + taken) && ordinary(taken) && total_slots(taken)
            + 1 == slots && wrong is Category2 ==> outcome == Err::<MachineState, Fault>(
            value_split(2, 1),
        ) && left == base
    &&& ordinary(state.stack) && total_slots(state.stack) < slots ==> outcome == Err::<
        MachineState,
        Fault,
    >(underflow()) && left == Seq::<StackValue>::empty()
}

proof fn lemma_ordinary_last(values: Seq<StackValue>)
    requires
        ordinary(values),
        values.len() > 0,
    ensures
        ordinary(values.drop_last()),
        values.last() is Category1 || values.last() is Category2,
{
    assert(values.last() == values[values.len() - 1]);
    assert forall|i: int| 0 <= i < values.drop_last().len() implies #[trigger] values.drop_last()[i]
        == StackValue::Category1 || values.drop_last()[i] == StackValue::Category2 by {
        assert(values.drop_last()[i] == values[i]);
    }
}

proof fn lemma_taken(base: Seq<StackValue>, taken: Seq<StackValue>, slots: nat)
    requires
        ordinary(taken),
        total_slots(taken) <= slots,
    ensures
        without_slots(base + taken, slots) == without_slots(
            base,
            (slots - total_slots(taken)) as nat,
        ),
        left_without(base + taken, slots) == left_without(
            base,
            (slots - total_slots(taken)) as nat,
        ),
    decreases taken.len(),
{
    if taken.len() == 0 {
        assert(base + taken =~= base);
    } else {
        lemma_ordinary_last(taken);
        let stack = base + taken;
        assert(stack.drop_last() =~= base + taken.drop_last());
        assert(stack.last() == taken.last());
        lemma_taken(base, taken.drop_last(), (slots - slots_of(taken.last())) as nat);
    }
}

pub(crate) proof fn lemma_trades<'a>(
    code: Code<'a>,
    state: MachineState,
    slots: u16,
    pushes: u16,
    put: Seq<StackValue>,
)
    requires
        ({
            let instruction = instruction_at(code, state);
            &&& call_target(instruction) is None
            &&& return_local(instruction) is None
            &&& stored_reference(instruction) is None
            &&& rearranged(instruction, state.stack) is None
            &&& address_reads(instruction, state.locals) is None
            &&& effect(instruction, code.constants) == Ok::<(u16, u16), Fault>((slots, pushes))
        }),
        put == (if pushes == 0 {
            Seq::empty()
        } else if pushes == 1 {
            seq![StackValue::Category1]
        } else {
            seq![StackValue::Category2]
        }),
        pushes <= 2,
    ensures
        trades(
            code,
            state,
            slots as nat,
            put,
            locals_after(instruction_at(code, state), state.locals),
        ),
{
    let n = slots as nat;
    assert forall|base: Seq<StackValue>, taken: Seq<StackValue>|
        state.stack == #[trigger] (base + taken) && ordinary(taken) && total_slots(taken)
            == n implies popped_and_pushed(state.stack, n, pushes as nat) == Ok::<Seq<StackValue>, Fault>(
        base + put,
    ) by {
        lemma_taken(base, taken, n);
        assert(base.push(StackValue::Category1) =~= base + seq![StackValue::Category1]);
        assert(base.push(StackValue::Category2) =~= base + seq![StackValue::Category2]);
        assert(base + Seq::<StackValue>::empty() =~= base);
    }
    assert forall|base: Seq<StackValue>, wrong: StackValue, taken: Seq<StackValue>|
        state.stack == #[trigger] (base.push(wrong) + taken) && ordinary(taken) && total_slots(taken)
            < n implies without_slots(state.stack, n) == without_slots(
        base.push(wrong),
        (n - total_slots(taken)) as nat,
    ) && left_without(state.stack, n) == left_without(
        base.push(wrong),
        (n - total_slots(taken)) as nat,
    ) && base.push(wrong).drop_last() == base && base.push(wrong).last() == wrong by {
        lemma_taken(base.push(wrong), taken, n);
        assert(base.push(wrong).drop_last() =~= base);
    }
    if ordinary(state.stack) && total_slots(state.stack) < n {
        let none = Seq::<StackValue>::empty();
        assert(none + state.stack =~= state.stack);
        lemma_taken(none, state.stack, n);
    }
}

/// An instruction that does nothing but pop and push, by so many slots whatever its operands are.
#[verifier::opaque]
spec fn plain(instruction: Instruction, slots: u16, pushes: u16) -> bool {
    &&& call_target(instruction) is None
    &&& return_local(instruction) is None
    &&& stored_reference(instruction) is None
    &&& forall|stack: Seq<StackValue>| #[trigger] rearranged(instruction, stack) is None
    &&& read(instruction) is None
    &&& written(instruction) is None
    &&& fixed_effect(instruction) == Some((slots, pushes))
}

proof fn lemma_plain_trades<'a>(
    code: Code<'a>,
    state: MachineState,
    slots: u16,
    pushes: u16,
    put: Seq<StackValue>,
)
    requires
        plain(instruction_at(code, state), slots, pushes),
        put == (if pushes == 0 {
            Seq::empty()
        } else if pushes == 1 {
            seq![StackValue::Category1]
        } else {
            seq![StackValue::Category2]
        }),
        pushes <= 2,
    ensures
        trades(code, state, slots as nat, put, state.locals),
{
    reveal(plain);
    assert(rearranged(instruction_at(code, state), state.stack) is None);
    lemma_trades(code, state, slots, pushes, put);
}

/// A value of one slot.
pub open spec fn narrow(value: StackValue) -> bool {
    value != StackValue::Category2
}

/// A value of two slots.
pub open spec fn wide(value: StackValue) -> bool {
    value == StackValue::Category2
}

/// The slots of the value at a place of the stack, counted from the top; none where there is no value.
pub open spec fn width(stack: Seq<StackValue>, place: nat) -> nat {
    if place >= stack.len() {
        0
    } else if stack[stack.len() - 1 - place] == StackValue::Category2 {
        2
    } else {
        1
    }
}

/// The instruction of a state succeeds, with this stack and the rest of the state as it was.
pub open spec fn becomes<'a>(code: Code<'a>, state: MachineState, stack: Seq<StackValue>) -> bool {
    outcome_state(code, state) == Ok::<MachineState, Fault>(
        MachineState {
            instruction: state.instruction,
            stack,
            locals: state.locals,
            subroutines: state.subroutines,
        },
    )
}

/// The instruction of a state fails when it has taken so many values.
pub open spec fn refused<'a>(code: Code<'a>, state: MachineState, fault: Fault, taken: nat) -> bool {
    &&& outcome_state(code, state) == Err::<MachineState, Fault>(fault)
    &&& left_at_fault(instruction_at(code, state), code.constants, state) == state.stack.take(
        state.stack.len() - taken,
    )
}

/// What the next value says of the values in one slot below some that were taken.
proof fn lemma_one_slot(s: Seq<StackValue>, k: int)
    requires
        0 <= k <= s.len(),
    ensures
        ({
            let rest = s.take(s.len() - k);
            let w = width(s, k as nat);
            &&& values_in(rest, 1) == (if w == 0 {
                Err::<nat, Fault>(underflow())
            } else if w == 2 {
                Err(expected_category1())
            } else {
                Ok(1)
            })
            &&& left_by(rest, 1) == (if w == 0 {
                rest
            } else {
                s.take(s.len() - k - 1)
            })
        }),
{
    let rest = s.take(s.len() - k);
    reveal_with_fuel(values_in, 2);
    reveal_with_fuel(left_by, 2);
    if rest.len() > 0 {
        assert(rest.last() == s[s.len() - 1 - k]);
        assert(rest.drop_last() =~= s.take(s.len() - k - 1));
    }
}

/// What the next values say of the values in two slots below some that were taken.
proof fn lemma_two_slots(s: Seq<StackValue>, k: int)
    requires
        0 <= k <= s.len(),
    ensures
        ({
            let rest = s.take(s.len() - k);
            let v = width(s, k as nat);
            let w = width(s, (k + 1) as nat);
            &&& values_in(rest, 2) == (if v == 0 {
                Err::<nat, Fault>(underflow())
            } else if v == 2 {
                Ok(1)
            } else if w == 0 {
                Err(underflow())
            } else if w == 2 {
                Err(expected_category1())
            } else {
                Ok(2)
            })
            &&& left_by(rest, 2) == (if v == 0 {
                rest
            } else if v == 2 || w == 0 {
                s.take(s.len() - k - 1)
            } else {
                s.take(s.len() - k - 2)
            })
        }),
{
    let rest = s.take(s.len() - k);
    if rest.len() > 0 {
        assert(rest.last() == s[s.len() - 1 - k]);
        assert(rest.drop_last() =~= s.take(s.len() - k - 1));
        lemma_one_slot(s, k + 1);
    }
}

proof fn lemma_push_one_plain(instruction: Instruction)
    requires
        match instruction {
            Instruction::Aconst_null
            | Instruction::Iconst_m1
            | Instruction::Iconst_0
            | Instruction::Iconst_1
            | Instruction::Iconst_2
            | Instruction::Iconst_3
            | Instruction::Iconst_4
            | Instruction::Iconst_5
            | Instruction::Fconst_0
            | Instruction::Fconst_1
            | Instruction::Fconst_2
            | Instruction::Bipush(..)
            | Instruction::Sipush(..)
            | Instruction::Ldc(..)
            | Instruction::Ldc_w(..)
            | Instruction::New(..) => true,
            _ => false,
        },
    ensures
        plain(instruction, 0, 1),
{
    reveal(plain);
}

/// Constants of one slot and new objects are put on the stack.
pub proof fn lemma_push_one<'a>(code: Code<'a>, state: MachineState)
    requires
        match instruction_at(code, state) {
            Instruction::Aconst_null
            | Instruction::Iconst_m1
            | Instruction::Iconst_0
            | Instruction::Iconst_1
            | Instruction::Iconst_2
            | Instruction::Iconst_3
            | Instruction::Iconst_4
            | Instruction::Iconst_5
            | Instruction::Fconst_0
            | Instruction::Fconst_1
            | Instruction::Fconst_2
            | Instruction::Bipush(..)
            | Instruction::Sipush(..)
            | Instruction::Ldc(..)
            | Instruction::Ldc_w(..)
            | Instruction::New(..) => true,
            _ => false,
        },
    ensures
        trades(code, state, 0, seq![StackValue::Category1], state.locals),
{
    lemma_push_one_plain(instruction_at(code, state));
    lemma_plain_trades(code, state, 0, 1, seq![StackValue::Category1]);
}

proof fn lemma_push_two_plain(instruction: Instruction)
    requires
        match instruction {
            Instruction::Lconst_0
            | Instruction::Lconst_1
            | Instruction::Dconst_0
            | Instruction::Dconst_1
            | Instruction::Ldc2_w(..) => true,
            _ => false,
        },
    ensures
        plain(instruction, 0, 2),
{
    reveal(plain);
}

/// Constants of type `long` and `double` are put on the stack in two slots.
pub proof fn lemma_push_two<'a>(code: Code<'a>, state: MachineState)
    requires
        match instruction_at(code, state) {
            Instruction::Lconst_0
            | Instruction::Lconst_1
            | Instruction::Dconst_0
            | Instruction::Dconst_1
            | Instruction::Ldc2_w(..) => true,
            _ => false,
        },
    ensures
        trades(code, state, 0, seq![StackValue::Category2], state.locals),
{
    lemma_push_two_plain(instruction_at(code, state));
    lemma_plain_trades(code, state, 0, 2, seq![StackValue::Category2]);
}

proof fn lemma_no_stack_plain(instruction: Instruction)
    requires
        match instruction {
            Instruction::Nop
            | Instruction::Goto(..)
            | Instruction::Goto_w(..)
            | Instruction::Return
            | Instruction::Wide
            | Instruction::Breakpoint
            | Instruction::Impdep1
            | Instruction::Impdep2 => true,
            _ => false,
        },
    ensures
        plain(instruction, 0, 0),
{
    reveal(plain);
}

/// These instructions leave the stack as it is.
pub proof fn lemma_no_stack<'a>(code: Code<'a>, state: MachineState)
    requires
        match instruction_at(code, state) {
            Instruction::Nop
            | Instruction::Goto(..)
            | Instruction::Goto_w(..)
            | Instruction::Return
            | Instruction::Wide
            | Instruction::Breakpoint
            | Instruction::Impdep1
            | Instruction::Impdep2 => true,
            _ => false,
        },
    ensures
        trades(code, state, 0, Seq::empty(), state.locals),
{
    lemma_no_stack_plain(instruction_at(code, state));
    lemma_plain_trades(code, state, 0, 0, Seq::empty());
}

proof fn lemma_take_one_plain(instruction: Instruction)
    requires
        match instruction {
            Instruction::Ifeq(..)
            | Instruction::Ifne(..)
            | Instruction::Iflt(..)
            | Instruction::Ifge(..)
            | Instruction::Ifgt(..)
            | Instruction::Ifle(..)
            | Instruction::Ifnull(..)
            | Instruction::Ifnonnull(..)
            | Instruction::Tableswitch(..)
            | Instruction::Lookupswitch(..)
            | Instruction::Ireturn
            | Instruction::Freturn
            | Instruction::Areturn
            | Instruction::Athrow
            | Instruction::Monitorenter
            | Instruction::Monitorexit => true,
            _ => false,
        },
    ensures
        plain(instruction, 1, 0),
{
    reveal(plain);
}

/// Tests of one value, switches, the return of a value of one slot, a throw and the use of a monitor
/// take one slot.
pub proof fn lemma_take_one<'a>(code: Code<'a>, state: MachineState)
    requires
        match instruction_at(code, state) {
            Instruction::Ifeq(..)
            | Instruction::Ifne(..)
            | Instruction::Iflt(..)
            | Instruction::Ifge(..)
            | Instruction::Ifgt(..)
            | Instruction::Ifle(..)
            | Instruction::Ifnull(..)
            | Instruction::Ifnonnull(..)
            | Instruction::Tableswitch(..)
            | Instruction::Lookupswitch(..)
            | Instruction::Ireturn
            | Instruction::Freturn
            | Instruction::Areturn
            | Instruction::Athrow
            | Instruction::Monitorenter
            | Instruction::Monitorexit => true,
            _ => false,
        },
    ensures
        trades(code, state, 1, Seq::empty(), state.locals),
{
    lemma_take_one_plain(instruction_at(code, state));
    lemma_plain_trades(code, state, 1, 0, Seq::empty());
}

proof fn lemma_take_two_plain(instruction: Instruction)
    requires
        match instruction {
            Instruction::If_icmpeq(..)
            | Instruction::If_icmpne(..)
            | Instruction::If_icmplt(..)
            | Instruction::If_icmpge(..)
            | Instruction::If_icmpgt(..)
            | Instruction::If_icmple(..)
            | Instruction::If_acmpeq(..)
            | Instruction::If_acmpne(..)
            | Instruction::Lreturn
            | Instruction::Dreturn => true,
            _ => false,
        },
    ensures
        plain(instruction, 2, 0),
{
    reveal(plain);
}

/// Comparisons that branch, and the return of a `long` or `double`, take two slots.
pub proof fn lemma_take_two<'a>(code: Code<'a>, state: MachineState)
    requires
        match instruction_at(code, state) {
            Instruction::If_icmpeq(..)
            | Instruction::If_icmpne(..)
            | Instruction::If_icmplt(..)
            | Instruction::If_icmpge(..)
            | Instruction::If_icmpgt(..)
            | Instruction::If_icmple(..)
            | Instruction::If_acmpeq(..)
            | Instruction::If_acmpne(..)
            | Instruction::Lreturn
            | Instruction::Dreturn => true,
            _ => false,
        },
    ensures
        trades(code, state, 2, Seq::empty(), state.locals),
{
    lemma_take_two_plain(instruction_at(code, state));
    lemma_plain_trades(code, state, 2, 0, Seq::empty());
}

proof fn lemma_array_store_plain(instruction: Instruction)
    requires
        match instruction {
            Instruction::Iastore
            | Instruction::Fastore
            | Instruction::Aastore
            | Instruction::Bastore
            | Instruction::Castore
            | Instruction::Sastore => true,
            _ => false,
        },
    ensures
        plain(instruction, 3, 0),
{
    reveal(plain);
}

/// Storing a value of one slot in an array takes the array, the index and the value.
pub proof fn lemma_array_store<'a>(code: Code<'a>, state: MachineState)
    requires
        match instruction_at(code, state) {
            Instruction::Iastore
            | Instruction::Fastore
            | Instruction::Aastore
            | Instruction::Bastore
            | Instruction::Castore
            | Instruction::Sastore => true,
            _ => false,
        },
    ensures
        trades(code, state, 3, Seq::empty(), state.locals),
{
    lemma_array_store_plain(instruction_at(code, state));
    lemma_plain_trades(code, state, 3, 0, Seq::empty());
}

proof fn lemma_wide_array_store_plain(instruction: Instruction)
    requires
        match instruction {
            Instruction::Lastore
            | Instruction::Dastore => true,
            _ => false,
        },
    ensures
        plain(instruction, 4, 0),
{
    reveal(plain);
}

/// Storing a `long` or `double` in an array takes the array, the index and the two slots of the value.
pub proof fn lemma_wide_array_store<'a>(code: Code<'a>, state: MachineState)
    requires
        match instruction_at(code, state) {
            Instruction::Lastore
            | Instruction::Dastore => true,
            _ => false,
        },
    ensures
        trades(code, state, 4, Seq::empty(), state.locals),
{
    lemma_wide_array_store_plain(instruction_at(code, state));
    lemma_plain_trades(code, state, 4, 0, Seq::empty());
}

proof fn lemma_one_for_one_plain(instruction: Instruction)
    requires
        match instruction {
            Instruction::Ineg
            | Instruction::Fneg
            | Instruction::I2f
            | Instruction::F2i
            | Instruction::I2b
            | Instruction::I2c
            | Instruction::I2s
            | Instruction::Newarray(..)
            | Instruction::Anewarray(..)
            | Instruction::Arraylength
            | Instruction::Checkcast(..)
            | Instruction::Instanceof(..) => true,
            _ => false,
        },
    ensures
        plain(instruction, 1, 1),
{
    reveal(plain);
}

/// These instructions replace a value of one slot by another.
pub proof fn lemma_one_for_one<'a>(code: Code<'a>, state: MachineState)
    requires
        match instruction_at(code, state) {
            Instruction::Ineg
            | Instruction::Fneg
            | Instruction::I2f
            | Instruction::F2i
            | Instruction::I2b
            | Instruction::I2c
            | Instruction::I2s
            | Instruction::Newarray(..)
            | Instruction::Anewarray(..)
            | Instruction::Arraylength
            | Instruction::Checkcast(..)
            | Instruction::Instanceof(..) => true,
            _ => false,
        },
    ensures
        trades(code, state, 1, seq![StackValue::Category1], state.locals),
{
    lemma_one_for_one_plain(instruction_at(code, state));
    lemma_plain_trades(code, state, 1, 1, seq![StackValue::Category1]);
}

proof fn lemma_widen_plain(instruction: Instruction)
    requires
        match instruction {
            Instruction::I2l
            | Instruction::I2d
            | Instruction::F2l
            | Instruction::F2d => true,
            _ => false,
        },
    ensures
        plain(instruction, 1, 2),
{
    reveal(plain);
}

/// Conversions of `int` and `float` to `long` and `double` put two slots for one.
pub proof fn lemma_widen<'a>(code: Code<'a>, state: MachineState)
    requires
        match instruction_at(code, state) {
            Instruction::I2l
            | Instruction::I2d
            | Instruction::F2l
            | Instruction::F2d => true,
            _ => false,
        },
    ensures
        trades(code, state, 1, seq![StackValue::Category2], state.locals),
{
    lemma_widen_plain(instruction_at(code, state));
    lemma_plain_trades(code, state, 1, 2, seq![StackValue::Category2]);
}

proof fn lemma_narrow_plain(instruction: Instruction)
    requires
        match instruction {
            Instruction::L2i
            | Instruction::L2f
            | Instruction::D2i
            | Instruction::D2f => true,
            _ => false,
        },
    ensures
        plain(instruction, 2, 1),
{
    reveal(plain);
}

/// Conversions of `long` and `double` to `int` and `float` put one slot for two.
pub proof fn lemma_narrow<'a>(code: Code<'a>, state: MachineState)
    requires
        match instruction_at(code, state) {
            Instruction::L2i
            | Instruction::L2f
            | Instruction::D2i
            | Instruction::D2f => true,
            _ => false,
        },
    ensures
        trades(code, state, 2, seq![StackValue::Category1], state.locals),
{
    lemma_narrow_plain(instruction_at(code, state));
    lemma_plain_trades(code, state, 2, 1, seq![StackValue::Category1]);
}

proof fn lemma_two_for_two_plain(instruction: Instruction)
    requires
        match instruction {
            Instruction::Lneg
            | Instruction::Dneg
            | Instruction::L2d
            | Instruction::D2l => true,
            _ => false,
        },
    ensures
        plain(instruction, 2, 2),
{
    reveal(plain);
}

/// Negations of `long` and `double` and conversions between them put two slots for two.
pub proof fn lemma_two_for_two<'a>(code: Code<'a>, state: MachineState)
    requires
        match instruction_at(code, state) {
            Instruction::Lneg
            | Instruction::Dneg
            | Instruction::L2d
            | Instruction::D2l => true,
            _ => false,
        },
    ensures
        trades(code, state, 2, seq![StackValue::Category2], state.locals),
{
    lemma_two_for_two_plain(instruction_at(code, state));
    lemma_plain_trades(code, state, 2, 2, seq![StackValue::Category2]);
}

proof fn lemma_array_load_plain(instruction: Instruction)
    requires
        match instruction {
            Instruction::Iaload
            | Instruction::Faload
            | Instruction::Aaload
            | Instruction::Baload
            | Instruction::Caload
            | Instruction::Saload => true,
            _ => false,
        },
    ensures
        plain(instruction, 2, 1),
{
    reveal(plain);
}

/// Loading a value of one slot from an array takes the array and the index.
pub proof fn lemma_array_load<'a>(code: Code<'a>, state: MachineState)
    requires
        match instruction_at(code, state) {
            Instruction::Iaload
            | Instruction::Faload
            | Instruction::Aaload
            | Instruction::Baload
            | Instruction::Caload
            | Instruction::Saload => true,
            _ => false,
        },
    ensures
        trades(code, state, 2, seq![StackValue::Category1], state.locals),
{
    lemma_array_load_plain(instruction_at(code, state));
    lemma_plain_trades(code, state, 2, 1, seq![StackValue::Category1]);
}

proof fn lemma_wide_array_load_plain(instruction: Instruction)
    requires
        match instruction {
            Instruction::Laload
            | Instruction::Daload => true,
            _ => false,
        },
    ensures
        plain(instruction, 2, 2),
{
    reveal(plain);
}

/// Loading a `long` or `double` from an array takes the array and the index and puts two slots.
pub proof fn lemma_wide_array_load<'a>(code: Code<'a>, state: MachineState)
    requires
        match instruction_at(code, state) {
            Instruction::Laload
            | Instruction::Daload => true,
            _ => false,
        },
    ensures
        trades(code, state, 2, seq![StackValue::Category2], state.locals),
{
    lemma_wide_array_load_plain(instruction_at(code, state));
    lemma_plain_trades(code, state, 2, 2, seq![StackValue::Category2]);
}

proof fn lemma_arithmetic_plain(instruction: Instruction)
    requires
        match instruction {
            Instruction::Iadd
            | Instruction::Isub
            | Instruction::Imul
            | Instruction::Idiv
            | Instruction::Irem
            | Instruction::Ishl
            | Instruction::Ishr
            | Instruction::Iushr
            | Instruction::Iand
            | Instruction::Ior
            | Instruction::Ixor
            | Instruction::Fadd
            | Instruction::Fsub
            | Instruction::Fmul
            | Instruction::Fdiv
            | Instruction::Frem
            | Instruction::Fcmpl
            | Instruction::Fcmpg => true,
            _ => false,
        },
    ensures
        plain(instruction, 2, 1),
{
    reveal(plain);
}

/// Operations on two values of type `int` or `float` put one slot for two.
pub proof fn lemma_arithmetic<'a>(code: Code<'a>, state: MachineState)
    requires
        match instruction_at(code, state) {
            Instruction::Iadd
            | Instruction::Isub
            | Instruction::Imul
            | Instruction::Idiv
            | Instruction::Irem
            | Instruction::Ishl
            | Instruction::Ishr
            | Instruction::Iushr
            | Instruction::Iand
            | Instruction::Ior
            | Instruction::Ixor
            | Instruction::Fadd
            | Instruction::Fsub
            | Instruction::Fmul
            | Instruction::Fdiv
            | Instruction::Frem
            | Instruction::Fcmpl
            | Instruction::Fcmpg => true,
            _ => false,
        },
    ensures
        trades(code, state, 2, seq![StackValue::Category1], state.locals),
{
    lemma_arithmetic_plain(instruction_at(code, state));
    lemma_plain_trades(code, state, 2, 1, seq![StackValue::Category1]);
}

proof fn lemma_wide_arithmetic_plain(instruction: Instruction)
    requires
        match instruction {
            Instruction::Ladd
            | Instruction::Lsub
            | Instruction::Lmul
            | Instruction::Ldiv
            | Instruction::Lrem
            | Instruction::Land
            | Instruction::Lor
            | Instruction::Lxor
            | Instruction::Dadd
            | Instruction::Dsub
            | Instruction::Dmul
            | Instruction::Ddiv
            | Instruction::Drem => true,
            _ => false,
        },
    ensures
        plain(instruction, 4, 2),
{
    reveal(plain);
}

/// Operations on two values of type `long` or `double` put two slots for four.
pub proof fn lemma_wide_arithmetic<'a>(code: Code<'a>, state: MachineState)
    requires
        match instruction_at(code, state) {
            Instruction::Ladd
            | Instruction::Lsub
            | Instruction::Lmul
            | Instruction::Ldiv
            | Instruction::Lrem
            | Instruction::Land
            | Instruction::Lor
            | Instruction::Lxor
            | Instruction::Dadd
            | Instruction::Dsub
            | Instruction::Dmul
            | Instruction::Ddiv
            | Instruction::Drem => true,
            _ => false,
        },
    ensures
        trades(code, state, 4, seq![StackValue::Category2], state.locals),
{
    lemma_wide_arithmetic_plain(instruction_at(code, state));
    lemma_plain_trades(code, state, 4, 2, seq![StackValue::Category2]);
}

proof fn lemma_wide_shift_plain(instruction: Instruction)
    requires
        match instruction {
            Instruction::Lshl
            | Instruction::Lshr
            | Instruction::Lushr => true,
            _ => false,
        },
    ensures
        plain(instruction, 3, 2),
{
    reveal(plain);
}

/// Shifts of a `long` take it and an `int`.
pub proof fn lemma_wide_shift<'a>(code: Code<'a>, state: MachineState)
    requires
        match instruction_at(code, state) {
            Instruction::Lshl
            | Instruction::Lshr
            | Instruction::Lushr => true,
            _ => false,
        },
    ensures
        trades(code, state, 3, seq![StackValue::Category2], state.locals),
{
    lemma_wide_shift_plain(instruction_at(code, state));
    lemma_plain_trades(code, state, 3, 2, seq![StackValue::Category2]);
}

proof fn lemma_wide_comparison_plain(instruction: Instruction)
    requires
        match instruction {
            Instruction::Lcmp
            | Instruction::Dcmpl
            | Instruction::Dcmpg => true,
            _ => false,
        },
    ensures
        plain(instruction, 4, 1),
{
    reveal(plain);
}

/// Comparisons of two values of type `long` or `double` put one slot for four.
pub proof fn lemma_wide_comparison<'a>(code: Code<'a>, state: MachineState)
    requires
        match instruction_at(code, state) {
            Instruction::Lcmp
            | Instruction::Dcmpl
            | Instruction::Dcmpg => true,
            _ => false,
        },
    ensures
        trades(code, state, 4, seq![StackValue::Category1], state.locals),
{
    lemma_wide_comparison_plain(instruction_at(code, state));
    lemma_plain_trades(code, state, 4, 1, seq![StackValue::Category1]);
}

/// `pop` takes one value of one slot. The values below stay. Nothing else on top is accepted.
#[verifier::rlimit(60)]
#[verifier::spinoff_prover]
pub proof fn lemma_pop<'a>(
    code: Code<'a>,
    state: MachineState,
    base: Seq<StackValue>,
    a: StackValue,
)
    requires
        instruction_at(code, state) is Pop,
    ensures
        state.stack == base + seq![a] && narrow(a)
            ==> becomes(code, state, base),
        width(state.stack, 0) == 0
            ==> refused(code, state, underflow(), 0),
        width(state.stack, 0) == 2
            ==> refused(code, state, expected_category1(), 1),
{
    let s = state.stack;
    assert(s.take(s.len() as int) =~= s);
    lemma_one_slot(s, 0);
    if state.stack == base + seq![a] && narrow(a) {
        assert(s[s.len() - 1] == a);
        assert(s.take(s.len() - 1) =~= base);
    }
}

/// `pop2` takes one value of two slots, or two values of one slot each. The values below stay. Nothing
/// else on top is accepted.
#[verifier::rlimit(60)]
#[verifier::spinoff_prover]
pub proof fn lemma_pop2<'a>(
    code: Code<'a>,
    state: MachineState,
    base: Seq<StackValue>,
    a: StackValue,
    b: StackValue,
)
    requires
        instruction_at(code, state) is Pop2,
    ensures
        state.stack == base + seq![a] && wide(a)
            ==> becomes(code, state, base),
        state.stack == base + seq![a, b] && narrow(b) && narrow(a)
            ==> becomes(code, state, base),
        width(state.stack, 0) == 0
            ==> refused(code, state, underflow(), 0),
        width(state.stack, 0) == 1
            && width(state.stack, 1) == 0
            ==> refused(code, state, underflow(), 1),
        width(state.stack, 0) == 1
            && width(state.stack, 1) == 2
            ==> refused(code, state, expected_category1(), 2),
{
    let s = state.stack;
    assert(s.take(s.len() as int) =~= s);
    lemma_two_slots(s, 0);
    if state.stack == base + seq![a] && wide(a) {
        assert(s[s.len() - 1] == a);
        assert(s.take(s.len() - 1) =~= base);
    }
    if state.stack == base + seq![a, b] && narrow(b) && narrow(a) {
        assert(s[s.len() - 2] == a);
        assert(s[s.len() - 1] == b);
        assert(s.take(s.len() - 2) =~= base);
    }
}

/// `dup` puts a copy of the top value, of one slot, on top. The values below stay. Nothing else on top
/// is accepted.
#[verifier::rlimit(60)]
#[verifier::spinoff_prover]
pub proof fn lemma_dup<'a>(
    code: Code<'a>,
    state: MachineState,
    base: Seq<StackValue>,
    a: StackValue,
)
    requires
        instruction_at(code, state) is Dup,
    ensures
        state.stack == base + seq![a] && narrow(a)
            ==> becomes(code, state, base + seq![a, a]),
        width(state.stack, 0) == 0
            ==> refused(code, state, underflow(), 0),
        width(state.stack, 0) == 2
            ==> refused(code, state, expected_category1(), 1),
{
    let s = state.stack;
    assert(s.take(s.len() as int) =~= s);
    lemma_one_slot(s, 0);
    if state.stack == base + seq![a] && narrow(a) {
        assert(s[s.len() - 1] == a);
        assert(s.take(s.len() - 1) + s.skip(s.len() - 1) + s.skip(s.len() - 1)
            =~= base + seq![a, a]);
    }
}

/// `dup_x1` puts a copy of the top value below the value under it; both have one slot. The values below
/// stay. Nothing else on top is accepted.
#[verifier::rlimit(60)]
#[verifier::spinoff_prover]
pub proof fn lemma_dup_x1<'a>(
    code: Code<'a>,
    state: MachineState,
    base: Seq<StackValue>,
    a: StackValue,
    b: StackValue,
)
    requires
        instruction_at(code, state) is Dup_x1,
    ensures
        state.stack == base + seq![a, b] && narrow(b) && narrow(a)
            ==> becomes(code, state, base + seq![b, a, b]),
        width(state.stack, 0) == 0
            ==> refused(code, state, underflow(), 0),
        width(state.stack, 0) == 2
            ==> refused(code, state, expected_category1(), 1),
        width(state.stack, 0) == 1
            && width(state.stack, 1) == 0
            ==> refused(code, state, underflow(), 1),
        width(state.stack, 0) == 1
            && width(state.stack, 1) == 2
            ==> refused(code, state, expected_category1(), 2),
{
    let s = state.stack;
    assert(s.take(s.len() as int) =~= s);
    lemma_one_slot(s, 0);
    if s.len() >= 1 {
        lemma_one_slot(s, 1);
    }
    if state.stack == base + seq![a, b] && narrow(b) && narrow(a) {
        assert(s[s.len() - 2] == a);
        assert(s[s.len() - 1] == b);
        assert(s.take(s.len() - 2) + s.skip(s.len() - 1) + s.skip(s.len() - 2)
            =~= base + seq![b, a, b]);
    }
}

/// `dup_x2` puts a copy of the top value, of one slot, below the two slots under it: one value, or two.
/// The values below stay. Nothing else on top is accepted.
#[verifier::rlimit(60)]
#[verifier::spinoff_prover]
pub proof fn lemma_dup_x2<'a>(
    code: Code<'a>,
    state: MachineState,
    base: Seq<StackValue>,
    a: StackValue,
    b: StackValue,
    c: StackValue,
)
    requires
        instruction_at(code, state) is Dup_x2,
    ensures
        state.stack == base + seq![a, b] && narrow(b) && wide(a)
            ==> becomes(code, state, base + seq![b, a, b]),
        state.stack == base + seq![a, b, c] && narrow(c) && narrow(b) && narrow(a)
            ==> becomes(code, state, base + seq![c, a, b, c]),
        width(state.stack, 0) == 0
            ==> refused(code, state, underflow(), 0),
        width(state.stack, 0) == 2
            ==> refused(code, state, expected_category1(), 1),
        width(state.stack, 0) == 1
            && width(state.stack, 1) == 0
            ==> refused(code, state, underflow(), 1),
        width(state.stack, 0) == 1
            && width(state.stack, 1) == 1
            && width(state.stack, 2) == 0
            ==> refused(code, state, underflow(), 2),
        width(state.stack, 0) == 1
            && width(state.stack, 1) == 1
            && width(state.stack, 2) == 2
            ==> refused(code, state, expected_category1(), 3),
{
    let s = state.stack;
    assert(s.take(s.len() as int) =~= s);
    lemma_one_slot(s, 0);
    if s.len() >= 1 {
        lemma_two_slots(s, 1);
    }
    if state.stack == base + seq![a, b] && narrow(b) && wide(a) {
        assert(s[s.len() - 2] == a);
        assert(s[s.len() - 1] == b);
        assert(s.take(s.len() - 2) + s.skip(s.len() - 1) + s.skip(s.len() - 2)
            =~= base + seq![b, a, b]);
    }
    if state.stack == base + seq![a, b, c] && narrow(c) && narrow(b) && narrow(a) {
        assert(s[s.len() - 3] == a);
        assert(s[s.len() - 2] == b);
        assert(s[s.len() - 1] == c);
        assert(s.take(s.len() - 3) + s.skip(s.len() - 1) + s.skip(s.len() - 3)
            =~= base + seq![c, a, b, c]);
    }
}

/// `dup2` puts a copy of the topmost two slots on top: of one value, or of two. The values below stay.
/// Nothing else on top is accepted.
#[verifier::rlimit(60)]
#[verifier::spinoff_prover]
pub proof fn lemma_dup2<'a>(
    code: Code<'a>,
    state: MachineState,
    base: Seq<StackValue>,
    a: StackValue,
    b: StackValue,
)
    requires
        instruction_at(code, state) is Dup2,
    ensures
        state.stack == base + seq![a] && wide(a)
            ==> becomes(code, state, base + seq![a, a]),
        state.stack == base + seq![a, b] && narrow(b) && narrow(a)
            ==> becomes(code, state, base + seq![a, b, a, b]),
        width(state.stack, 0) == 0
            ==> refused(code, state, underflow(), 0),
        width(state.stack, 0) == 1
            && width(state.stack, 1) == 0
            ==> refused(code, state, underflow(), 1),
        width(state.stack, 0) == 1
            && width(state.stack, 1) == 2
            ==> refused(code, state, expected_category1(), 2),
{
    let s = state.stack;
    assert(s.take(s.len() as int) =~= s);
    lemma_two_slots(s, 0);
    if state.stack == base + seq![a] && wide(a) {
        assert(s[s.len() - 1] == a);
        assert(s.take(s.len() - 1) + s.skip(s.len() - 1) + s.skip(s.len() - 1)
            =~= base + seq![a, a]);
    }
    if state.stack == base + seq![a, b] && narrow(b) && narrow(a) {
        assert(s[s.len() - 2] == a);
        assert(s[s.len() - 1] == b);
        assert(s.take(s.len() - 2) + s.skip(s.len() - 2) + s.skip(s.len() - 2)
            =~= base + seq![a, b, a, b]);
    }
}

/// `dup2_x1` puts a copy of the topmost two slots, one value or two, below the value under them, of one
/// slot. The values below stay. Nothing else on top is accepted.
#[verifier::rlimit(60)]
#[verifier::spinoff_prover]
pub proof fn lemma_dup2_x1<'a>(
    code: Code<'a>,
    state: MachineState,
    base: Seq<StackValue>,
    a: StackValue,
    b: StackValue,
    c: StackValue,
)
    requires
        instruction_at(code, state) is Dup2_x1,
    ensures
        state.stack == base + seq![a, b] && wide(b) && narrow(a)
            ==> becomes(code, state, base + seq![b, a, b]),
        state.stack == base + seq![a, b, c] && narrow(c) && narrow(b) && narrow(a)
            ==> becomes(code, state, base + seq![b, c, a, b, c]),
        width(state.stack, 0) == 0
            ==> refused(code, state, underflow(), 0),
        width(state.stack, 0) == 2
            && width(state.stack, 1) == 0
            ==> refused(code, state, underflow(), 1),
        width(state.stack, 0) == 2
            && width(state.stack, 1) == 2
            ==> refused(code, state, expected_category1(), 2),
        width(state.stack, 0) == 1
            && width(state.stack, 1) == 0
            ==> refused(code, state, underflow(), 1),
        width(state.stack, 0) == 1
            && width(state.stack, 1) == 2
            ==> refused(code, state, expected_category1(), 2),
        width(state.stack, 0) == 1
            && width(state.stack, 1) == 1
            && width(state.stack, 2) == 0
            ==> refused(code, state, underflow(), 2),
        width(state.stack, 0) == 1
            && width(state.stack, 1) == 1
            && width(state.stack, 2) == 2
            ==> refused(code, state, expected_category1(), 3),
{
    let s = state.stack;
    assert(s.take(s.len() as int) =~= s);
    lemma_two_slots(s, 0);
    if s.len() >= 1 {
        lemma_one_slot(s, 1);
    }
    if s.len() >= 2 {
        lemma_one_slot(s, 2);
    }
    if state.stack == base + seq![a, b] && wide(b) && narrow(a) {
        assert(s[s.len() - 2] == a);
        assert(s[s.len() - 1] == b);
        assert(s.take(s.len() - 2) + s.skip(s.len() - 1) + s.skip(s.len() - 2)
            =~= base + seq![b, a, b]);
    }
    if state.stack == base + seq![a, b, c] && narrow(c) && narrow(b) && narrow(a) {
        assert(s[s.len() - 3] == a);
        assert(s[s.len() - 2] == b);
        assert(s[s.len() - 1] == c);
        assert(s.take(s.len() - 3) + s.skip(s.len() - 2) + s.skip(s.len() - 3)
            =~= base + seq![b, c, a, b, c]);
    }
}

/// `dup2_x2` puts a copy of the topmost two slots below the two slots under them, each one value or
/// two. The values below stay. Nothing else on top is accepted.
#[verifier::rlimit(60)]
#[verifier::spinoff_prover]
pub proof fn lemma_dup2_x2<'a>(
    code: Code<'a>,
    state: MachineState,
    base: Seq<StackValue>,
    a: StackValue,
    b: StackValue,
    c: StackValue,
    d: StackValue,
)
    requires
        instruction_at(code, state) is Dup2_x2,
    ensures
        state.stack == base + seq![a, b] && wide(b) && wide(a)
            ==> becomes(code, state, base + seq![b, a, b]),
        state.stack == base + seq![a, b, c] && wide(c) && narrow(b) && narrow(a)
            ==> becomes(code, state, base + seq![c, a, b, c]),
        state.stack == base + seq![a, b, c] && narrow(c) && narrow(b) && wide(a)
            ==> becomes(code, state, base + seq![b, c, a, b, c]),
        state.stack == base + seq![a, b, c, d] && narrow(d) && narrow(c) && narrow(b) && narrow(a)
            ==> becomes(code, state, base + seq![c, d, a, b, c, d]),
        width(state.stack, 0) == 0
            ==> refused(code, state, underflow(), 0),
        width(state.stack, 0) == 2
            && width(state.stack, 1) == 0
            ==> refused(code, state, underflow(), 1),
        width(state.stack, 0) == 2
            && width(state.stack, 1) == 1
            && width(state.stack, 2) == 0
            ==> refused(code, state, underflow(), 2),
        width(state.stack, 0) == 2
            && width(state.stack, 1) == 1
            && width(state.stack, 2) == 2
            ==> refused(code, state, expected_category1(), 3),
        width(state.stack, 0) == 1
            && width(state.stack, 1) == 0
            ==> refused(code, state, underflow(), 1),
        width(state.stack, 0) == 1
            && width(state.stack, 1) == 2
            ==> refused(code, state, expected_category1(), 2),
        width(state.stack, 0) == 1
            && width(state.stack, 1) == 1
            && width(state.stack, 2) == 0
            ==> refused(code, state, underflow(), 2),
        width(state.stack, 0) == 1
            && width(state.stack, 1) == 1
            && width(state.stack, 2) == 1
            && width(state.stack, 3) == 0
            ==> refused(code, state, underflow(), 3),
        width(state.stack, 0) == 1
            && width(state.stack, 1) == 1
            && width(state.stack, 2) == 1
            && width(state.stack, 3) == 2
            ==> refused(code, state, expected_category1(), 4),
{
    let s = state.stack;
    assert(s.take(s.len() as int) =~= s);
    lemma_two_slots(s, 0);
    if s.len() >= 1 {
        lemma_two_slots(s, 1);
    }
    if s.len() >= 2 {
        lemma_two_slots(s, 2);
    }
    if state.stack == base + seq![a, b] && wide(b) && wide(a) {
        assert(s[s.len() - 2] == a);
        assert(s[s.len() - 1] == b);
        assert(s.take(s.len() - 2) + s.skip(s.len() - 1) + s.skip(s.len() - 2)
            =~= base + seq![b, a, b]);
    }
    if state.stack == base + seq![a, b, c] && wide(c) && narrow(b) && narrow(a) {
        assert(s[s.len() - 3] == a);
        assert(s[s.len() - 2] == b);
        assert(s[s.len() - 1] == c);
        assert(s.take(s.len() - 3) + s.skip(s.len() - 1) + s.skip(s.len() - 3)
            =~= base + seq![c, a, b, c]);
    }
    if state.stack == base + seq![a, b, c] && narrow(c) && narrow(b) && wide(a) {
        assert(s[s.len() - 3] == a);
        assert(s[s.len() - 2] == b);
        assert(s[s.len() - 1] == c);
        assert(s.take(s.len() - 3) + s.skip(s.len() - 2) + s.skip(s.len() - 3)
            =~= base + seq![b, c, a, b, c]);
    }
    if state.stack == base + seq![a, b, c, d] && narrow(d) && narrow(c) && narrow(b) && narrow(a) {
        assert(s[s.len() - 4] == a);
        assert(s[s.len() - 3] == b);
        assert(s[s.len() - 2] == c);
        assert(s[s.len() - 1] == d);
        assert(s.take(s.len() - 4) + s.skip(s.len() - 2) + s.skip(s.len() - 4)
            =~= base + seq![c, d, a, b, c, d]);
    }
}

/// `swap` exchanges the two topmost values, of one slot each. The values below stay. Nothing else on
/// top is accepted.
#[verifier::rlimit(60)]
#[verifier::spinoff_prover]
pub proof fn lemma_swap<'a>(
    code: Code<'a>,
    state: MachineState,
    base: Seq<StackValue>,
    a: StackValue,
    b: StackValue,
)
    requires
        instruction_at(code, state) is Swap,
    ensures
        state.stack == base + seq![a, b] && narrow(b) && narrow(a)
            ==> becomes(code, state, base + seq![b, a]),
        width(state.stack, 0) == 0
            ==> refused(code, state, underflow(), 0),
        width(state.stack, 0) == 2
            ==> refused(code, state, expected_category1(), 1),
        width(state.stack, 0) == 1
            && width(state.stack, 1) == 0
            ==> refused(code, state, underflow(), 1),
        width(state.stack, 0) == 1
            && width(state.stack, 1) == 2
            ==> refused(code, state, expected_category1(), 2),
{
    let s = state.stack;
    assert(s.take(s.len() as int) =~= s);
    lemma_one_slot(s, 0);
    if s.len() >= 1 {
        lemma_one_slot(s, 1);
    }
    if s.len() >= 1 {
        assert(s.drop_last() =~= s.take(s.len() - 1));
        assert(s.len() >= 2 ==> s.drop_last().last() == s[s.len() - 2]);
    }
    if state.stack == base + seq![a, b] && narrow(b) && narrow(a) {
        assert(s[s.len() - 2] == a);
        assert(s[s.len() - 1] == b);
        assert(s.take(s.len() - 2) =~= base);
        assert(base.push(b).push(a) =~= base + seq![b, a]);
    }
}

/// A local variable and, for a `long` or `double`, the next one, without what they held.
pub open spec fn forgotten(
    locals: Map<u16, ReturnAddressLocal>,
    index: u16,
    two: bool,
) -> Map<u16, ReturnAddressLocal> {
    if two && index < u16::MAX {
        locals.remove(index).remove((index + 1) as u16)
    } else {
        locals.remove(index)
    }
}

proof fn lemma_store<'a>(code: Code<'a>, state: MachineState, index: u16, two: bool)
    requires
        ({
            let instruction = instruction_at(code, state);
            &&& call_target(instruction) is None
            &&& return_local(instruction) is None
            &&& stored_reference(instruction) is None
            &&& rearranged(instruction, state.stack) is None
            &&& address_reads(instruction, state.locals) is None
            &&& effect(instruction, code.constants) == Ok::<(u16, u16), Fault>(
                (if two {
                    2
                } else {
                    1
                }, 0),
            )
            &&& written(instruction) == Some(
                (index, if two {
                    2u16
                } else {
                    1u16
                }),
            )
        }),
    ensures
        trades(
            code,
            state,
            if two {
                2
            } else {
                1
            },
            Seq::empty(),
            forgotten(state.locals, index, two),
        ),
{
    let slots: u16 = if two {
        2
    } else {
        1
    };
    assert(locals_after(instruction_at(code, state), state.locals) =~= forgotten(
        state.locals,
        index,
        two,
    ));
    lemma_trades(code, state, slots, 0, Seq::empty());
}

/// Storing an `int` or a `float` takes one slot and changes the local variable that the opcode names, and
/// no other.
pub proof fn lemma_store_one<'a>(code: Code<'a>, state: MachineState)
    ensures
        match instruction_at(code, state) {
            Instruction::Istore(n) | Instruction::Fstore(n) => trades(
                code,
                state,
                1,
                Seq::empty(),
                state.locals.remove(n as u16),
            ),
            Instruction::Istore_w(n) | Instruction::Fstore_w(n) => trades(
                code,
                state,
                1,
                Seq::empty(),
                state.locals.remove(n),
            ),
            Instruction::Istore_0 | Instruction::Fstore_0 => trades(
                code,
                state,
                1,
                Seq::empty(),
                state.locals.remove(0),
            ),
            Instruction::Istore_1 | Instruction::Fstore_1 => trades(
                code,
                state,
                1,
                Seq::empty(),
                state.locals.remove(1),
            ),
            Instruction::Istore_2 | Instruction::Fstore_2 => trades(
                code,
                state,
                1,
                Seq::empty(),
                state.locals.remove(2),
            ),
            Instruction::Istore_3 | Instruction::Fstore_3 => trades(
                code,
                state,
                1,
                Seq::empty(),
                state.locals.remove(3),
            ),
            _ => true,
        },
{
    match instruction_at(code, state) {
        Instruction::Istore(n) | Instruction::Fstore(n) => lemma_store(
            code,
            state,
            n as u16,
            false,
        ),
        Instruction::Istore_w(n) | Instruction::Fstore_w(n) => lemma_store(code, state, n, false),
        Instruction::Istore_0 | Instruction::Fstore_0 => lemma_store(code, state, 0, false),
        Instruction::Istore_1 | Instruction::Fstore_1 => lemma_store(code, state, 1, false),
        Instruction::Istore_2 | Instruction::Fstore_2 => lemma_store(code, state, 2, false),
        Instruction::Istore_3 | Instruction::Fstore_3 => lemma_store(code, state, 3, false),
        _ => {},
    }
}

/// Storing a `long` or a `double` takes two slots and changes the local variable that the opcode names and
/// the one after it, and no other.
pub proof fn lemma_store_two<'a>(code: Code<'a>, state: MachineState)
    ensures
        match instruction_at(code, state) {
            Instruction::Lstore(n) | Instruction::Dstore(n) => trades(
                code,
                state,
                2,
                Seq::empty(),
                state.locals.remove(n as u16).remove((n + 1) as u16),
            ),
            Instruction::Lstore_w(n) | Instruction::Dstore_w(n) => trades(
                code,
                state,
                2,
                Seq::empty(),
                if n == 65535 {
                    state.locals.remove(n)
                } else {
                    state.locals.remove(n).remove((n + 1) as u16)
                },
            ),
            Instruction::Lstore_0 | Instruction::Dstore_0 => trades(
                code,
                state,
                2,
                Seq::empty(),
                state.locals.remove(0).remove(1),
            ),
            Instruction::Lstore_1 | Instruction::Dstore_1 => trades(
                code,
                state,
                2,
                Seq::empty(),
                state.locals.remove(1).remove(2),
            ),
            Instruction::Lstore_2 | Instruction::Dstore_2 => trades(
                code,
                state,
                2,
                Seq::empty(),
                state.locals.remove(2).remove(3),
            ),
            Instruction::Lstore_3 | Instruction::Dstore_3 => trades(
                code,
                state,
                2,
                Seq::empty(),
                state.locals.remove(3).remove(4),
            ),
            _ => true,
        },
{
    match instruction_at(code, state) {
        Instruction::Lstore(n) | Instruction::Dstore(n) => lemma_store(
            code,
            state,
            n as u16,
            true,
        ),
        Instruction::Lstore_w(n) | Instruction::Dstore_w(n) => lemma_store(code, state, n, true),
        Instruction::Lstore_0 | Instruction::Dstore_0 => lemma_store(code, state, 0, true),
        Instruction::Lstore_1 | Instruction::Dstore_1 => lemma_store(code, state, 1, true),
        Instruction::Lstore_2 | Instruction::Dstore_2 => lemma_store(code, state, 2, true),
        Instruction::Lstore_3 | Instruction::Dstore_3 => lemma_store(code, state, 3, true),
        _ => {},
    }
}

/// `astore` takes one value of one slot. A return address is kept in the local variable that the opcode
/// names, and stays what it is, valid or not; after any other value the variable holds none. No other
/// variable changes.
pub proof fn lemma_astore<'a>(
    code: Code<'a>,
    state: MachineState,
    base: Seq<StackValue>,
    value: StackValue,
    index: u16,
)
    requires
        match instruction_at(code, state) {
            Instruction::Astore(n) => n == index,
            Instruction::Astore_w(n) => n == index,
            Instruction::Astore_0 => index == 0,
            Instruction::Astore_1 => index == 1,
            Instruction::Astore_2 => index == 2,
            Instruction::Astore_3 => index == 3,
            _ => false,
        },
    ensures
        state.stack == base.push(value) && narrow(value) ==> outcome_state(code, state) == Ok::<
            MachineState,
            Fault,
        >(
            MachineState {
                instruction: state.instruction,
                stack: base,
                locals: match value {
                    StackValue::ReturnAddress(address) => state.locals.insert(
                        index,
                        ReturnAddressLocal::Active(address),
                    ),
                    StackValue::InvalidReturnAddress => state.locals.insert(
                        index,
                        ReturnAddressLocal::Invalid,
                    ),
                    _ => state.locals.remove(index),
                },
                subroutines: state.subroutines,
            },
        ),
        width(state.stack, 0) == 0 ==> refused(code, state, underflow(), 0),
        width(state.stack, 0) == 2 ==> refused(code, state, expected_category1(), 1),
{
    let s = state.stack;
    assert(s.take(s.len() as int) =~= s);
    lemma_one_slot(s, 0);
    if s == base.push(value) {
        assert(s.last() == value);
        assert(s.drop_last() =~= base);
    }
}

proof fn lemma_load<'a>(
    code: Code<'a>,
    state: MachineState,
    index: u16,
    two: bool,
    pushes: u16,
    put: Seq<StackValue>,
)
    requires
        ({
            let instruction = instruction_at(code, state);
            &&& call_target(instruction) is None
            &&& return_local(instruction) is None
            &&& stored_reference(instruction) is None
            &&& rearranged(instruction, state.stack) is None
            &&& read(instruction) == Some(
                (index, if two {
                    2u16
                } else {
                    1u16
                }),
            )
            &&& effect(instruction, code.constants) == Ok::<(u16, u16), Fault>((0, pushes))
            &&& written(instruction) is None
        }),
        put == (if pushes == 0 {
            Seq::empty()
        } else if pushes == 1 {
            seq![StackValue::Category1]
        } else {
            seq![StackValue::Category2]
        }),
        pushes <= 2,
    ensures
        reads(code, state, index, two, put),
{
    let s = state.stack;
    assert(s.take(s.len() as int) =~= s);
    if state.locals.contains_key(index) {
        assert(in_range(index, index, 1) && in_range(index, index, 2));
        assert(holds_address(state.locals, index, 1));
        assert(holds_address(state.locals, index, 2));
    } else if two && index < 65535 && state.locals.contains_key((index + 1) as u16) {
        assert(in_range((index + 1) as u16, index, 2));
        assert(holds_address(state.locals, index, 2));
    } else {
        lemma_trades(code, state, 0, pushes, put);
    }
}

/// The instruction of a state reads a local variable and, for a `long` or `double`, the next one. It fails
/// if one of them holds a return address, valid or not, and otherwise puts a value on the stack.
pub open spec fn reads<'a>(
    code: Code<'a>,
    state: MachineState,
    index: u16,
    two: bool,
    put: Seq<StackValue>,
) -> bool {
    if state.locals.contains_key(index) || (two && index < 65535 && state.locals.contains_key(
        (index + 1) as u16,
    )) {
        refused(code, state, address_read(index), 0)
    } else {
        trades(code, state, 0, put, state.locals)
    }
}

/// Loading an `int`, a `float` or a reference reads the local variable that the opcode names and puts one
/// slot on the stack. `iinc` reads the variable and puts nothing.
pub proof fn lemma_load_one<'a>(code: Code<'a>, state: MachineState)
    ensures
        match instruction_at(code, state) {
            Instruction::Iload(n) | Instruction::Fload(n) | Instruction::Aload(n) => reads(
                code,
                state,
                n as u16,
                false,
                seq![StackValue::Category1],
            ),
            Instruction::Iload_w(n) | Instruction::Fload_w(n) | Instruction::Aload_w(n) => reads(
                code,
                state,
                n,
                false,
                seq![StackValue::Category1],
            ),
            Instruction::Iload_0 | Instruction::Fload_0 | Instruction::Aload_0 => reads(
                code,
                state,
                0,
                false,
                seq![StackValue::Category1],
            ),
            Instruction::Iload_1 | Instruction::Fload_1 | Instruction::Aload_1 => reads(
                code,
                state,
                1,
                false,
                seq![StackValue::Category1],
            ),
            Instruction::Iload_2 | Instruction::Fload_2 | Instruction::Aload_2 => reads(
                code,
                state,
                2,
                false,
                seq![StackValue::Category1],
            ),
            Instruction::Iload_3 | Instruction::Fload_3 | Instruction::Aload_3 => reads(
                code,
                state,
                3,
                false,
                seq![StackValue::Category1],
            ),
            Instruction::Iinc(n, _) => reads(code, state, n as u16, false, Seq::empty()),
            Instruction::Iinc_w(n, _) => reads(code, state, n, false, Seq::empty()),
            _ => true,
        },
{
    let one = seq![StackValue::Category1];
    match instruction_at(code, state) {
        Instruction::Iload(n) | Instruction::Fload(n) | Instruction::Aload(n) => lemma_load(
            code,
            state,
            n as u16,
            false,
            1,
            one,
        ),
        Instruction::Iload_w(n) | Instruction::Fload_w(n) | Instruction::Aload_w(n) => lemma_load(
            code,
            state,
            n,
            false,
            1,
            one,
        ),
        Instruction::Iload_0 | Instruction::Fload_0 | Instruction::Aload_0 => lemma_load(
            code,
            state,
            0,
            false,
            1,
            one,
        ),
        Instruction::Iload_1 | Instruction::Fload_1 | Instruction::Aload_1 => lemma_load(
            code,
            state,
            1,
            false,
            1,
            one,
        ),
        Instruction::Iload_2 | Instruction::Fload_2 | Instruction::Aload_2 => lemma_load(
            code,
            state,
            2,
            false,
            1,
            one,
        ),
        Instruction::Iload_3 | Instruction::Fload_3 | Instruction::Aload_3 => lemma_load(
            code,
            state,
            3,
            false,
            1,
            one,
        ),
        Instruction::Iinc(n, _) => lemma_load(code, state, n as u16, false, 0, Seq::empty()),
        Instruction::Iinc_w(n, _) => lemma_load(code, state, n, false, 0, Seq::empty()),
        _ => {},
    }
}

/// Loading a `long` or a `double` reads the local variable that the opcode names and the one after it, and
/// puts two slots on the stack.
pub proof fn lemma_load_two<'a>(code: Code<'a>, state: MachineState)
    ensures
        match instruction_at(code, state) {
            Instruction::Lload(n) | Instruction::Dload(n) => reads(
                code,
                state,
                n as u16,
                true,
                seq![StackValue::Category2],
            ),
            Instruction::Lload_w(n) | Instruction::Dload_w(n) => reads(
                code,
                state,
                n,
                true,
                seq![StackValue::Category2],
            ),
            Instruction::Lload_0 | Instruction::Dload_0 => reads(
                code,
                state,
                0,
                true,
                seq![StackValue::Category2],
            ),
            Instruction::Lload_1 | Instruction::Dload_1 => reads(
                code,
                state,
                1,
                true,
                seq![StackValue::Category2],
            ),
            Instruction::Lload_2 | Instruction::Dload_2 => reads(
                code,
                state,
                2,
                true,
                seq![StackValue::Category2],
            ),
            Instruction::Lload_3 | Instruction::Dload_3 => reads(
                code,
                state,
                3,
                true,
                seq![StackValue::Category2],
            ),
            _ => true,
        },
{
    let two = seq![StackValue::Category2];
    match instruction_at(code, state) {
        Instruction::Lload(n) | Instruction::Dload(n) => lemma_load(
            code,
            state,
            n as u16,
            true,
            2,
            two,
        ),
        Instruction::Lload_w(n) | Instruction::Dload_w(n) => lemma_load(
            code,
            state,
            n,
            true,
            2,
            two,
        ),
        Instruction::Lload_0 | Instruction::Dload_0 => lemma_load(code, state, 0, true, 2, two),
        Instruction::Lload_1 | Instruction::Dload_1 => lemma_load(code, state, 1, true, 2, two),
        Instruction::Lload_2 | Instruction::Dload_2 => lemma_load(code, state, 2, true, 2, two),
        Instruction::Lload_3 | Instruction::Dload_3 => lemma_load(code, state, 3, true, 2, two),
        _ => {},
    }
}

/// `multianewarray` takes a slot for each dimension and puts the array.
pub proof fn lemma_multianewarray<'a>(code: Code<'a>, state: MachineState)
    ensures
        instruction_at(code, state) matches Instruction::Multianewarray(_, dimensions) ==> trades(
            code,
            state,
            dimensions as nat,
            seq![StackValue::Category1],
            state.locals,
        ),
{
    if let Instruction::Multianewarray(_, dimensions) = instruction_at(code, state) {
        lemma_trades(code, state, dimensions as u16, 1, seq![StackValue::Category1]);
    }
}

/// A result has one slot or two, or there is none.
pub proof fn lemma_result_widths(stack: Seq<StackValue>, slots: nat)
    ensures
        with_slots(stack, 0) == Ok::<Seq<StackValue>, Fault>(stack),
        with_slots(stack, 1) == Ok::<Seq<StackValue>, Fault>(stack.push(StackValue::Category1)),
        with_slots(stack, 2) == Ok::<Seq<StackValue>, Fault>(stack.push(StackValue::Category2)),
        slots > 2 ==> with_slots(stack, slots) == Err::<Seq<StackValue>, Fault>(
            unsupported_width(slots),
        ),
{
}

// ---- What is told of an instruction, where its execution does not show it.
/// The slots that are told of an instruction are those by which it changes the depth of the stack, but for
/// `ret`, which leaves the depth as it is.
pub proof fn lemma_effect_is_change<'a>(code: Code<'a>, state: MachineState)
    requires
        outcome_state(code, state) is Ok,
    ensures
        effect(instruction_at(code, state), code.constants) matches Ok((pops, pushes)) && total_slots(
            outcome_state(code, state)->Ok_0.stack,
        ) == total_slots(state.stack) - pops + pushes,
{
    let instruction = instruction_at(code, state);
    let after = outcome_state(code, state)->Ok_0;
    if call_target(instruction) is Some {
        lemma_total_slots_push(state.stack, after.stack.last());
        assert(after.stack =~= state.stack.push(after.stack.last()));
    } else if return_local(instruction) is Some {
        let local = return_local(instruction)->Some_0;
        let address = state.locals[local]->Active_0;
        let frame = state.subroutines.index_of_first(address)->Some_0;
        lemma_invalidated_slots(state.stack, state.subroutines.skip(frame));
    } else {
        lemma_applied_depth(instruction, code.constants, state);
    }
}

/// The slots that are told of the instructions that only move values about, of `jsr` and `ret`, and of
/// `astore`.
pub proof fn lemma_told_slots<'a>(instruction: Instruction, constants: Seq<Constant<'a>>)
    ensures
        match instruction {
            Instruction::Pop => effect(instruction, constants) == told(1, 0),
            Instruction::Pop2 => effect(instruction, constants) == told(2, 0),
            Instruction::Dup => effect(instruction, constants) == told(1, 2),
            Instruction::Dup_x1 => effect(instruction, constants) == told(2, 3),
            Instruction::Dup_x2 => effect(instruction, constants) == told(3, 4),
            Instruction::Dup2 => effect(instruction, constants) == told(2, 4),
            Instruction::Dup2_x1 => effect(instruction, constants) == told(3, 5),
            Instruction::Dup2_x2 => effect(instruction, constants) == told(4, 6),
            Instruction::Swap => effect(instruction, constants) == told(2, 2),
            Instruction::Jsr(_) | Instruction::Jsr_w(_) => effect(instruction, constants) == told(
                0,
                1,
            ),
            Instruction::Ret(_) | Instruction::Ret_w(_) => effect(instruction, constants) == told(
                0,
                0,
            ),
            Instruction::Astore(_)
            | Instruction::Astore_w(_)
            | Instruction::Astore_0
            | Instruction::Astore_1
            | Instruction::Astore_2
            | Instruction::Astore_3 => effect(instruction, constants) == told(1, 0),
            _ => true,
        },
{
}

/// So many slots are popped and so many pushed.
pub open spec fn told(pops: u16, pushes: u16) -> Result<(u16, u16), Fault> {
    Ok((pops, pushes))
}

/// `astore` writes the variable that it stores a reference in, and reads none. The instructions that only
/// move values about, `jsr` and `ret` do not touch variables as ordinary values.
pub proof fn lemma_told_locals(instruction: Instruction)
    ensures
        match instruction {
            Instruction::Astore(n) => written(instruction) == Some((n as u16, 1u16)),
            Instruction::Astore_w(n) => written(instruction) == Some((n, 1u16)),
            Instruction::Astore_0 => written(instruction) == Some((0u16, 1u16)),
            Instruction::Astore_1 => written(instruction) == Some((1u16, 1u16)),
            Instruction::Astore_2 => written(instruction) == Some((2u16, 1u16)),
            Instruction::Astore_3 => written(instruction) == Some((3u16, 1u16)),
            Instruction::Pop
            | Instruction::Pop2
            | Instruction::Dup
            | Instruction::Dup_x1
            | Instruction::Dup_x2
            | Instruction::Dup2
            | Instruction::Dup2_x1
            | Instruction::Dup2_x2
            | Instruction::Swap
            | Instruction::Jsr(_)
            | Instruction::Jsr_w(_)
            | Instruction::Ret(_)
            | Instruction::Ret_w(_) => written(instruction) is None && read(instruction) is None
                && stored_reference(instruction) is None,
            _ => true,
        },
        stored_reference(instruction) is Some ==> read(instruction) is None,
{
}

} // verus!
