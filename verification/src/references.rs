//! What instructions make of the members that constant-pool entries refer to.
use vstd::prelude::*;

use crate::constant_pool::{
    appended, entry, member_descriptor, name_and_type_entries, room, utf8, Constant, MemberKind,
};
use crate::descriptor::{call_slots, field_slots};
use crate::error::{Error, Fault};
use crate::instruction::{call_widths, field_width, Instruction};
use crate::machine::{Code, MachineState};
use crate::opcodes::{instruction_at, lemma_trades, refused, trades};
use crate::value::StackValue;

verus! {

/// The constant pool has an entry at an index; the first index is one.
pub open spec fn at<'a>(constants: Seq<Constant<'a>>, index: u16, constant: Constant<'a>) -> bool {
    1 <= index && index <= constants.len() && constants[index - 1] == constant
}

/// The entry at an index is a name and a type with a descriptor.
pub open spec fn typed<'a>(constants: Seq<Constant<'a>>, index: u16, text: &'a str) -> bool {
    exists|name_index: u16, descriptor_index: u16|
        at(
            constants,
            index,
            Constant::NameAndType { name_index, descriptor_index },
        ) && #[trigger] names(constants, name_index, descriptor_index, text)
}

/// The entry at the second index is a text.
pub open spec fn names<'a>(
    constants: Seq<Constant<'a>>,
    name_index: u16,
    descriptor_index: u16,
    text: &'a str,
) -> bool {
    at(constants, descriptor_index, Constant::Utf8(text))
}

/// An ordinary value of so many slots, or none.
pub open spec fn value_of(slots: u16) -> Seq<StackValue> {
    if slots == 0 {
        Seq::empty()
    } else if slots == 1 {
        seq![StackValue::Category1]
    } else {
        seq![StackValue::Category2]
    }
}

// ---- The constant pool.
/// An entry is read where it was put; where there is none, reading fails.
pub proof fn lemma_entry<'a>(constants: Seq<Constant<'a>>, index: u16)
    ensures
        forall|constant: Constant<'a>| #[trigger]
            at(constants, index, constant) ==> entry(constants, index) == Ok::<Constant<'a>, Fault>(
                constant,
            ),
        index == 0 || index > constants.len() ==> entry(constants, index) == Err::<
            Constant<'a>,
            Fault,
        >(Fault::InvalidConstantPoolIndex(index)),
{
}

/// A text is read where it was put; another entry is no text.
pub proof fn lemma_text<'a>(constants: Seq<Constant<'a>>, index: u16, constant: Constant<'a>)
    requires
        at(constants, index, constant),
    ensures
        match constant {
            Constant::Utf8(text) => utf8(constants, index) == Ok::<Seq<char>, Fault>(text@),
            _ => utf8(constants, index) == Err::<Seq<char>, Fault>(
                Fault::InvalidConstantPoolIndexType(index),
            ),
        },
{
}

/// Entries that were added are found from the first free index on, the last at the index that was
/// returned, and the entries before are where they were. It fails only if that many cannot be indexed.
pub proof fn lemma_added<'a>(
    before: Seq<Constant<'a>>,
    after: Seq<Constant<'a>>,
    added: Seq<Constant<'a>>,
    result: Result<u16, Error>,
)
    requires
        appended(before, after, added, result),
    ensures
        result is Ok <==> added.len() == 0 || before.len() + added.len() <= 65535,
        forall|index: u16, constant: Constant<'a>| #[trigger]
            at(before, index, constant) ==> at(after, index, constant),
        result matches Ok(index) ==> index == before.len() + added.len() && after.len() == index
            && forall|k: u16|
            #![trigger after[k - 1]]
            before.len() < k <= index ==> at(after, k, added[k - 1 - before.len()]),
{
    assert(added.len() <= room(before) <==> added.len() == 0 || before.len() + added.len() <= 65535);
}

/// The entries of a field that was added refer to each other and to its name and descriptor.
pub proof fn lemma_added_field<'a>(
    before: Seq<Constant<'a>>,
    after: Seq<Constant<'a>>,
    class_index: u16,
    name: &'a str,
    descriptor: &'a str,
    index: u16,
)
    requires
        appended(
            before,
            after,
            name_and_type_entries(before.len(), name, descriptor).push(
                Constant::FieldRef {
                    class_index,
                    name_and_type_index: (before.len() + 3) as u16,
                },
            ),
            Ok(index),
        ),
    ensures
        index == before.len() + 4,
        at(
            after,
            index,
            Constant::FieldRef { class_index, name_and_type_index: (index - 1) as u16 },
        ),
        at(
            after,
            (index - 1) as u16,
            Constant::NameAndType {
                name_index: (index - 3) as u16,
                descriptor_index: (index - 2) as u16,
            },
        ),
        at(after, (index - 2) as u16, Constant::Utf8(descriptor)),
        at(after, (index - 3) as u16, Constant::Utf8(name)),
        typed(after, (index - 1) as u16, descriptor),
{
    assert(names(after, (index - 3) as u16, (index - 2) as u16, descriptor));
}

/// The entries of a method that was added refer to each other and to its name and descriptor.
pub proof fn lemma_added_method<'a>(
    before: Seq<Constant<'a>>,
    after: Seq<Constant<'a>>,
    class_index: u16,
    name: &'a str,
    descriptor: &'a str,
    index: u16,
)
    requires
        appended(
            before,
            after,
            name_and_type_entries(before.len(), name, descriptor).push(
                Constant::MethodRef {
                    class_index,
                    name_and_type_index: (before.len() + 3) as u16,
                },
            ),
            Ok(index),
        ),
    ensures
        index == before.len() + 4,
        at(
            after,
            index,
            Constant::MethodRef { class_index, name_and_type_index: (index - 1) as u16 },
        ),
        at(
            after,
            (index - 1) as u16,
            Constant::NameAndType {
                name_index: (index - 3) as u16,
                descriptor_index: (index - 2) as u16,
            },
        ),
        at(after, (index - 2) as u16, Constant::Utf8(descriptor)),
        at(after, (index - 3) as u16, Constant::Utf8(name)),
        typed(after, (index - 1) as u16, descriptor),
{
    assert(names(after, (index - 3) as u16, (index - 2) as u16, descriptor));
}

// ---- Fields.
/// The widths of fields.
proof fn lemma_field_widths(descriptor: Seq<char>)
    ensures
        field_slots(descriptor) matches Ok(slots) ==> 1 <= slots <= 2,
{
}

/// `getstatic` puts a value with the slots of the field, `putstatic` takes one, `getfield` takes the object
/// and puts one, and `putfield` takes the object and one. A descriptor that cannot be read is reported.
pub proof fn lemma_field_access<'a>(
    code: Code<'a>,
    state: MachineState,
    index: u16,
    class_index: u16,
    name_and_type_index: u16,
    text: &'a str,
)
    requires
        at(code.constants, index, Constant::FieldRef { class_index, name_and_type_index }),
        typed(code.constants, name_and_type_index, text),
    ensures
        field_slots(text@) matches Ok(slots) ==> match instruction_at(code, state) {
            Instruction::Getstatic(i) => i == index ==> trades(
                code,
                state,
                0,
                value_of(slots),
                state.locals,
            ),
            Instruction::Putstatic(i) => i == index ==> trades(
                code,
                state,
                slots as nat,
                Seq::empty(),
                state.locals,
            ),
            Instruction::Getfield(i) => i == index ==> trades(
                code,
                state,
                1,
                value_of(slots),
                state.locals,
            ),
            Instruction::Putfield(i) => i == index ==> trades(
                code,
                state,
                1 + slots as nat,
                Seq::empty(),
                state.locals,
            ),
            _ => true,
        },
        field_slots(text@) matches Err(fault) ==> match instruction_at(code, state) {
            Instruction::Getstatic(i)
            | Instruction::Putstatic(i)
            | Instruction::Getfield(i)
            | Instruction::Putfield(i) => i == index ==> refused(code, state, fault, 0),
            _ => true,
        },
{
    assert(member_descriptor(code.constants, index, MemberKind::Field) == Ok::<Seq<char>, Fault>(
        text@,
    ));
    assert(state.stack.take(state.stack.len() as int) =~= state.stack);
    if let Ok(slots) = field_slots(text@) {
        lemma_field_widths(text@);
        assert(field_width(code.constants, index) == Ok::<u16, Fault>(slots));
        match instruction_at(code, state) {
            Instruction::Getstatic(i) => if i == index {
                lemma_trades(code, state, 0, slots, value_of(slots));
            },
            Instruction::Putstatic(i) => if i == index {
                lemma_trades(code, state, slots, 0, Seq::empty());
            },
            Instruction::Getfield(i) => if i == index {
                lemma_trades(code, state, 1, slots, value_of(slots));
            },
            Instruction::Putfield(i) => if i == index {
                lemma_trades(code, state, (slots + 1) as u16, 0, Seq::empty());
            },
            _ => {},
        }
    }
}

// ---- Calls.
/// The instruction of a state is a call that takes and puts the slots of a method descriptor.
pub open spec fn calls<'a>(
    code: Code<'a>,
    state: MachineState,
    descriptor: Seq<char>,
    receiver: u16,
) -> bool {
    match call_slots(descriptor, receiver) {
        Ok((taken, put)) => trades(code, state, taken as nat, value_of(put), state.locals),
        Err(fault) => refused(code, state, fault, 0),
    }
}

proof fn lemma_calls<'a>(
    code: Code<'a>,
    state: MachineState,
    index: u16,
    kind: MemberKind,
    receiver: u16,
    text: &'a str,
)
    requires
        member_descriptor(code.constants, index, kind) == Ok::<Seq<char>, Fault>(text@),
        match instruction_at(code, state) {
            Instruction::Invokevirtual(i) => i == index && kind is Method && receiver == 1,
            Instruction::Invokespecial(i) => i == index && kind is AnyMethod && receiver == 1,
            Instruction::Invokestatic(i) => i == index && kind is AnyMethod && receiver == 0,
            Instruction::Invokeinterface(i, _) => i == index && kind is InterfaceMethod && receiver
                == 1,
            Instruction::Invokedynamic(i) => i == index && kind is DynamicCall && receiver == 0,
            _ => false,
        },
    ensures
        calls(code, state, text@, receiver),
{
    assert(state.stack.take(state.stack.len() as int) =~= state.stack);
    assert(call_widths(code.constants, index, kind, receiver) == call_slots(text@, receiver));
    if let Ok((taken, put)) = call_slots(text@, receiver) {
        lemma_trades(code, state, taken, put, value_of(put));
    }
}

/// A call of a method: `invokevirtual` and `invokespecial` take the object before the parameters,
/// `invokestatic` takes none.
pub proof fn lemma_call<'a>(
    code: Code<'a>,
    state: MachineState,
    index: u16,
    class_index: u16,
    name_and_type_index: u16,
    text: &'a str,
)
    requires
        at(code.constants, index, Constant::MethodRef { class_index, name_and_type_index }),
        typed(code.constants, name_and_type_index, text),
    ensures
        match instruction_at(code, state) {
            Instruction::Invokevirtual(i) | Instruction::Invokespecial(i) => i == index ==> calls(
                code,
                state,
                text@,
                1,
            ),
            Instruction::Invokestatic(i) => i == index ==> calls(code, state, text@, 0),
            _ => true,
        },
{
    match instruction_at(code, state) {
        Instruction::Invokevirtual(i) => if i == index {
            lemma_calls(code, state, index, MemberKind::Method, 1, text);
        },
        Instruction::Invokespecial(i) => if i == index {
            lemma_calls(code, state, index, MemberKind::AnyMethod, 1, text);
        },
        Instruction::Invokestatic(i) => if i == index {
            lemma_calls(code, state, index, MemberKind::AnyMethod, 0, text);
        },
        _ => {},
    }
}

/// A call of a method of an interface: `invokeinterface` and `invokespecial` take the object before the
/// parameters, `invokestatic` takes none.
pub proof fn lemma_interface_call<'a>(
    code: Code<'a>,
    state: MachineState,
    index: u16,
    class_index: u16,
    name_and_type_index: u16,
    text: &'a str,
)
    requires
        at(code.constants, index, Constant::InterfaceMethodRef { class_index, name_and_type_index }),
        typed(code.constants, name_and_type_index, text),
    ensures
        match instruction_at(code, state) {
            Instruction::Invokeinterface(i, _) => i == index ==> calls(code, state, text@, 1),
            Instruction::Invokespecial(i) => i == index ==> calls(code, state, text@, 1),
            Instruction::Invokestatic(i) => i == index ==> calls(code, state, text@, 0),
            _ => true,
        },
{
    match instruction_at(code, state) {
        Instruction::Invokeinterface(i, _) => if i == index {
            lemma_calls(code, state, index, MemberKind::InterfaceMethod, 1, text);
        },
        Instruction::Invokespecial(i) => if i == index {
            lemma_calls(code, state, index, MemberKind::AnyMethod, 1, text);
        },
        Instruction::Invokestatic(i) => if i == index {
            lemma_calls(code, state, index, MemberKind::AnyMethod, 0, text);
        },
        _ => {},
    }
}

/// A call that is linked when it is made: `invokedynamic` takes the parameters alone.
pub proof fn lemma_dynamic_call<'a>(
    code: Code<'a>,
    state: MachineState,
    index: u16,
    bootstrap_method_attr_index: u16,
    name_and_type_index: u16,
    text: &'a str,
)
    requires
        at(
            code.constants,
            index,
            Constant::InvokeDynamic { bootstrap_method_attr_index, name_and_type_index },
        ),
        typed(code.constants, name_and_type_index, text),
        instruction_at(code, state) == Instruction::Invokedynamic(index),
    ensures
        calls(code, state, text@, 0),
{
    lemma_calls(code, state, index, MemberKind::DynamicCall, 0, text);
}

// ---- Entries that cannot be used.
/// The index of the constant-pool entry that an instruction refers to for a member.
pub open spec fn refers_to(instruction: Instruction, index: u16) -> bool {
    match instruction {
        Instruction::Getstatic(i)
        | Instruction::Putstatic(i)
        | Instruction::Getfield(i)
        | Instruction::Putfield(i)
        | Instruction::Invokevirtual(i)
        | Instruction::Invokespecial(i)
        | Instruction::Invokestatic(i)
        | Instruction::Invokeinterface(i, _)
        | Instruction::Invokedynamic(i) => i == index,
        _ => false,
    }
}

/// An instruction can use an entry of the constant pool: fields for access to fields, methods for
/// `invokevirtual`, methods of classes and interfaces for `invokespecial` and `invokestatic`, methods of
/// interfaces for `invokeinterface`, and linked calls for `invokedynamic`.
pub open spec fn suits<'a>(instruction: Instruction, constant: Constant<'a>) -> bool {
    match instruction {
        Instruction::Getstatic(_)
        | Instruction::Putstatic(_)
        | Instruction::Getfield(_)
        | Instruction::Putfield(_) => constant is FieldRef,
        Instruction::Invokevirtual(_) => constant is MethodRef,
        Instruction::Invokespecial(_) | Instruction::Invokestatic(_) => constant is MethodRef
            || constant is InterfaceMethodRef,
        Instruction::Invokeinterface(_, _) => constant is InterfaceMethodRef,
        Instruction::Invokedynamic(_) => constant is InvokeDynamic,
        _ => false,
    }
}

/// An entry that is missing or that an instruction cannot use is reported by its index.
pub proof fn lemma_unusable_entry<'a>(code: Code<'a>, state: MachineState, index: u16)
    requires
        refers_to(instruction_at(code, state), index),
    ensures
        index == 0 || index > code.constants.len() ==> refused(
            code,
            state,
            Fault::InvalidConstantPoolIndex(index),
            0,
        ),
        1 <= index <= code.constants.len() && !suits(
            instruction_at(code, state),
            code.constants[index - 1],
        ) ==> refused(code, state, Fault::InvalidConstantPoolIndexType(index), 0),
{
    assert(state.stack.take(state.stack.len() as int) =~= state.stack);
}

/// The index of the name and the type that an entry refers to.
pub open spec fn refers_on<'a>(constant: Constant<'a>, next: u16) -> bool {
    match constant {
        Constant::FieldRef { name_and_type_index, .. } => name_and_type_index == next,
        Constant::MethodRef { name_and_type_index, .. } => name_and_type_index == next,
        Constant::InterfaceMethodRef { name_and_type_index, .. } => name_and_type_index == next,
        Constant::InvokeDynamic { name_and_type_index, .. } => name_and_type_index == next,
        _ => false,
    }
}

/// A name and type, or a descriptor, that is missing or of another kind is reported by its index.
pub proof fn lemma_broken_reference<'a>(
    code: Code<'a>,
    state: MachineState,
    index: u16,
    next: u16,
    name_index: u16,
    last: u16,
)
    requires
        refers_to(instruction_at(code, state), index),
        1 <= index <= code.constants.len(),
        suits(instruction_at(code, state), code.constants[index - 1]),
        refers_on(code.constants[index - 1], next),
    ensures
        next == 0 || next > code.constants.len() ==> refused(
            code,
            state,
            Fault::InvalidConstantPoolIndex(next),
            0,
        ),
        1 <= next <= code.constants.len() && !(code.constants[next - 1] is NameAndType) ==> refused(
            code,
            state,
            Fault::InvalidConstantPoolIndexType(next),
            0,
        ),
        at(
            code.constants,
            next,
            Constant::NameAndType { name_index, descriptor_index: last },
        ) && (last == 0 || last > code.constants.len()) ==> refused(
            code,
            state,
            Fault::InvalidConstantPoolIndex(last),
            0,
        ),
        at(
            code.constants,
            next,
            Constant::NameAndType { name_index, descriptor_index: last },
        ) && 1 <= last <= code.constants.len() && !(code.constants[last - 1] is Utf8) ==> refused(
            code,
            state,
            Fault::InvalidConstantPoolIndexType(last),
            0,
        ),
{
    assert(state.stack.take(state.stack.len() as int) =~= state.stack);
}

} // verus!
