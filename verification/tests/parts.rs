use max_stack::arena::{StackArena, StackId};
use max_stack::constant_pool::{Constant, MemberKind};
use max_stack::descriptor::{field_descriptor_slots, method_descriptor_slots};
use max_stack::flow::{
    checked_target, next_instruction, relative_target, validate_exception_table,
};
use max_stack::instruction::{astore_index, read_local, written_local};
use max_stack::locals::{
    clear_return_address_local, clear_return_address_local_range, invalidate_local_addresses,
    local_range_contains_return_address, return_address_local, set_return_address_local,
    ReturnAddressLocal,
};
use max_stack::operand::{
    apply_dup, apply_dup2, apply_dup2_x1, apply_dup_x2, apply_pop, apply_pop2, apply_stack_manipulation, apply_swap,
    pop_category1, pop_slots, pop_value, push_slots, push_value,
};
use max_stack::state::FlowState;
use max_stack::text::{append_decimal, with_number, with_text};
use max_stack::transfer::{apply_astore, apply_instruction, invalidate_return_addresses};
use max_stack::value::{ReturnAddress, StackValue};
use max_stack::worklist::Worklist;
use max_stack::{
    ArrayType, ConstantPool, Error, ExceptionTableEntry, Instruction, MaxStack, VerifyError,
};

fn address(call_site: usize) -> ReturnAddress {
    ReturnAddress {
        call_site,
        target: 40,
        continuation: call_site + 1,
    }
}

fn message(error: Error) -> String {
    match error {
        Error::VerificationError(VerifyError::VerifyError(message)) => message,
        other => format!("{other:?}"),
    }
}

#[test]
fn decimal_numbers() {
    assert_eq!(with_number("n=".to_string(), 0), "n=0");
    assert_eq!(with_number("n=".to_string(), 9), "n=9");
    assert_eq!(with_number("n=".to_string(), 10), "n=10");
    assert_eq!(
        with_number(String::new(), usize::MAX),
        format!("{}", usize::MAX)
    );
    let mut text = "a".to_string();
    append_decimal(&mut text, 1002);
    assert_eq!(with_text(text, "b"), "a1002b");
}

#[test]
fn slots_of_values() {
    assert_eq!(StackValue::Category1.slots(), 1);
    assert_eq!(StackValue::Category2.slots(), 2);
    assert_eq!(StackValue::ReturnAddress(address(1)).slots(), 1);
    assert_eq!(StackValue::InvalidReturnAddress.slots(), 1);
    assert!(StackValue::InvalidReturnAddress.is_category1());
    assert!(!StackValue::Category2.is_category1());
}

#[test]
fn stacks_with_the_same_values_are_the_same() -> Result<(), Error> {
    let mut arena = StackArena::new();
    let one = arena.push(StackId::empty(), StackValue::Category1)?;
    let two = arena.push(one, StackValue::Category2)?;
    let other = arena.push(one, StackValue::ReturnAddress(address(3)))?;
    assert_ne!(two, other);
    assert_eq!(arena.push(StackId::empty(), StackValue::Category1)?, one);
    assert_eq!(arena.push(one, StackValue::Category2)?, two);
    assert_ne!(arena.push(one, StackValue::ReturnAddress(address(4)))?, other);
    assert_eq!(arena.depth(StackId::empty())?, 0);
    assert_eq!(arena.depth(two)?, 3);
    assert_eq!(arena.depth(other)?, 2);
    Ok(())
}

#[test]
fn pop_undoes_push() -> Result<(), Error> {
    let mut arena = StackArena::new();
    let one = arena.push(StackId::empty(), StackValue::Category2)?;
    let two = arena.push(one, StackValue::InvalidReturnAddress)?;
    assert_eq!(arena.pop(two)?, (StackValue::InvalidReturnAddress, one));
    assert_eq!(arena.pop(one)?, (StackValue::Category2, StackId::empty()));
    Ok(())
}

#[test]
fn stacks_of_no_arena() {
    let arena = StackArena::new();
    let unknown = StackId(4);
    assert_eq!(
        arena.depth(unknown).map_err(message),
        Err("invalid operand-stack identifier".to_string())
    );
    assert_eq!(
        arena.pop(unknown).map_err(message),
        Err("invalid operand-stack identifier".to_string())
    );
    assert_eq!(
        arena.pop(StackId::empty()).map_err(message),
        Err("operand stack underflow".to_string())
    );
}

#[test]
fn invalid_addresses_on_a_stack() -> Result<(), Error> {
    let mut arena = StackArena::new();
    let one = arena.push(StackId::empty(), StackValue::ReturnAddress(address(1)))?;
    let two = arena.push(one, StackValue::ReturnAddress(address(2)))?;
    let three = arena.push(two, StackValue::Category2)?;
    let after = arena.invalidate_return_addresses(three, &[address(1)])?;
    let (top, below) = arena.pop(after)?;
    let (middle, bottom) = arena.pop(below)?;
    assert_eq!(top, StackValue::Category2);
    assert_eq!(middle, StackValue::ReturnAddress(address(2)));
    assert_eq!(
        arena.pop(bottom)?,
        (StackValue::InvalidReturnAddress, StackId::empty())
    );
    assert_eq!(arena.depth(after)?, 4);
    assert_eq!(arena.invalidate_return_addresses(three, &[])?, three);
    Ok(())
}

#[test]
fn values_on_and_off_a_stack() -> Result<(), Error> {
    let mut arena = StackArena::new();
    let mut stack = StackId::empty();
    push_value(&mut arena, &mut stack, StackValue::Category1)?;
    push_slots(&mut arena, &mut stack, 0)?;
    push_slots(&mut arena, &mut stack, 2)?;
    push_slots(&mut arena, &mut stack, 1)?;
    assert_eq!(arena.depth(stack)?, 4);
    assert_eq!(pop_category1(&arena, &mut stack)?, StackValue::Category1);
    assert_eq!(
        pop_category1(&arena, &mut stack).map_err(message),
        Err("expected a category-1 value on the operand stack".to_string())
    );
    assert_eq!(pop_value(&arena, &mut stack)?, StackValue::Category1);
    assert_eq!(stack, StackId::empty());
    assert_eq!(
        pop_value(&arena, &mut stack).map_err(message),
        Err("operand stack underflow".to_string())
    );
    Ok(())
}

#[test]
fn return_address_locals() {
    let mut locals: Vec<(u16, ReturnAddressLocal)> = Vec::new();
    set_return_address_local(&mut locals, 5, Some(ReturnAddressLocal::Active(address(1))));
    set_return_address_local(&mut locals, 2, Some(ReturnAddressLocal::Invalid));
    set_return_address_local(&mut locals, 9, Some(ReturnAddressLocal::Active(address(2))));
    set_return_address_local(&mut locals, 5, Some(ReturnAddressLocal::Active(address(3))));
    assert_eq!(
        locals,
        vec![
            (2, ReturnAddressLocal::Invalid),
            (5, ReturnAddressLocal::Active(address(3))),
            (9, ReturnAddressLocal::Active(address(2))),
        ]
    );
    assert_eq!(
        return_address_local(&locals, 5),
        Some(ReturnAddressLocal::Active(address(3)))
    );
    assert_eq!(return_address_local(&locals, 4), None);
    assert!(local_range_contains_return_address(&locals, 4, 2));
    assert!(!local_range_contains_return_address(&locals, 3, 2));
    assert!(!local_range_contains_return_address(&locals, 6, 3));
    invalidate_local_addresses(&mut locals, &[address(2)]);
    assert_eq!(
        return_address_local(&locals, 9),
        Some(ReturnAddressLocal::Invalid)
    );
    clear_return_address_local_range(&mut locals, 1, 2);
    assert_eq!(return_address_local(&locals, 2), None);
    clear_return_address_local(&mut locals, 9);
    assert_eq!(
        locals,
        vec![(5, ReturnAddressLocal::Active(address(3)))]
    );
    set_return_address_local(&mut locals, 5, None);
    assert!(locals.is_empty());
}

#[test]
fn ranges_of_locals_at_the_upper_end() {
    let mut locals: Vec<(u16, ReturnAddressLocal)> = Vec::new();
    set_return_address_local(&mut locals, 65535, Some(ReturnAddressLocal::Invalid));
    set_return_address_local(&mut locals, 0, Some(ReturnAddressLocal::Invalid));
    assert!(local_range_contains_return_address(&locals, 65535, 2));
    clear_return_address_local_range(&mut locals, 65535, 2);
    assert_eq!(locals, vec![(0, ReturnAddressLocal::Invalid)]);
}

#[test]
fn targets() {
    assert_eq!(checked_target(0, 1), Ok(0));
    assert_eq!(checked_target(4, 5), Ok(4));
    assert_eq!(checked_target(5, 5), Err(Error::InvalidInstructionOffset(5)));
    assert_eq!(checked_target(-1, 5), Err(Error::TryFromIntError));
    assert_eq!(
        checked_target(0x1_0000_0000, 5),
        Err(Error::TryFromIntError)
    );
    assert_eq!(relative_target(3, -3, 5), Ok(0));
    assert_eq!(relative_target(3, 1, 5), Ok(4));
    assert_eq!(relative_target(3, 2, 5), Err(Error::InvalidInstructionOffset(5)));
    assert_eq!(relative_target(3, -4, 5), Err(Error::TryFromIntError));
    assert_eq!(relative_target(usize::MAX, 0, 5), Err(Error::TryFromIntError));
    assert_eq!(next_instruction(0, 2), Some(1));
    assert_eq!(next_instruction(1, 2), None);
    assert_eq!(next_instruction(usize::MAX, 2), None);
}

#[test]
fn exception_tables() {
    let entry = |start: u16, end: u16, handler_pc: u16| ExceptionTableEntry {
        range_pc: start..end,
        handler_pc,
        catch_type: 3,
    };
    assert_eq!(validate_exception_table(&[], 0), Ok(()));
    assert_eq!(validate_exception_table(&[entry(0, 4, 3)], 4), Ok(()));
    assert_eq!(
        validate_exception_table(&[entry(0, 4, 4)], 4),
        Err(Error::InvalidInstructionOffset(4))
    );
}

#[test]
fn locals_that_instructions_touch() {
    assert_eq!(written_local(&Instruction::Lstore_2), Some((2, 2)));
    assert_eq!(written_local(&Instruction::Fstore_w(700)), Some((700, 1)));
    assert_eq!(written_local(&Instruction::Iinc(3, 1)), None);
    assert_eq!(read_local(&Instruction::Iinc(3, 1)), Some((3, 1)));
    assert_eq!(read_local(&Instruction::Dload(255)), Some((255, 2)));
    assert_eq!(read_local(&Instruction::Ret(3)), None);
    assert_eq!(astore_index(&Instruction::Astore_3), Some(3));
    assert_eq!(astore_index(&Instruction::Astore_w(301)), Some(301));
    assert_eq!(astore_index(&Instruction::Istore_3), None);
}

#[test]
fn worklist_keeps_each_state_once_and_in_order() -> Result<(), Error> {
    let mut arena = StackArena::new();
    let deep = arena.push(StackId::empty(), StackValue::Category2)?;
    let mut worklist = Worklist::new();
    let state = |instruction: usize, stack: StackId| FlowState {
        instruction,
        stack,
        return_address_locals: vec![(1, ReturnAddressLocal::Active(address(7)))],
        subroutines: vec![address(7)],
    };
    worklist.enqueue(state(3, StackId::empty()), &arena)?;
    worklist.enqueue(state(1, StackId::empty()), &arena)?;
    worklist.enqueue(state(3, StackId::empty()), &arena)?;
    worklist.enqueue(state(3, deep), &arena)?;
    assert_eq!(worklist.max_stack(), 2);
    let mut seen: Vec<(usize, StackId)> = Vec::new();
    while let Some(next) = worklist.next() {
        assert_eq!(next.subroutines, vec![address(7)]);
        seen.push((next.instruction, next.stack));
    }
    assert_eq!(seen, vec![(3, StackId::empty()), (1, StackId::empty()), (3, deep)]);
    worklist.enqueue(state(1, StackId::empty()), &arena)?;
    assert!(worklist.next().is_none());
    let mut other = state(1, StackId::empty());
    other.return_address_locals = vec![(1, ReturnAddressLocal::Invalid)];
    worklist.enqueue(other, &arena)?;
    let mut another = state(1, StackId::empty());
    another.subroutines = Vec::new();
    worklist.enqueue(another, &arena)?;
    assert!(worklist.next().is_some());
    assert!(worklist.next().is_some());
    assert!(worklist.next().is_none());
    Ok(())
}

#[test]
fn worklist_refuses_unknown_stacks() {
    let arena = StackArena::new();
    let mut worklist = Worklist::new();
    assert_eq!(
        worklist.observe_stack(StackId(2), &arena).map_err(message),
        Err("invalid operand-stack identifier".to_string())
    );
    assert_eq!(worklist.max_stack(), 0);
}

#[test]
fn field_descriptors() {
    assert_eq!(field_descriptor_slots("I"), Ok(1));
    assert_eq!(field_descriptor_slots("J"), Ok(2));
    assert_eq!(field_descriptor_slots("D"), Ok(2));
    assert_eq!(field_descriptor_slots("[D"), Ok(1));
    assert_eq!(field_descriptor_slots("[[Ljava/lang/Object;"), Ok(1));
    assert_eq!(field_descriptor_slots("Lx;"), Ok(1));
    for bad in ["", "V", "X", "[", "L;", "Lx", "II", "Lx;I"] {
        assert_eq!(
            field_descriptor_slots(bad),
            Err(Error::InvalidFieldTypeDescriptor(bad.to_string()))
        );
    }
}

#[test]
fn method_descriptors() {
    assert_eq!(method_descriptor_slots("()V", 0), Ok((0, 0)));
    assert_eq!(method_descriptor_slots("()V", 1), Ok((1, 0)));
    assert_eq!(method_descriptor_slots("(IJ[DLx;)D", 1), Ok((6, 2)));
    assert_eq!(method_descriptor_slots("(ZBCSFD)[J", 0), Ok((7, 1)));
    for bad in ["", "V", "(", "()", "(V)V", "()VV", "()X", "(I", "(Lx)V", "()II"] {
        assert_eq!(
            method_descriptor_slots(bad, 0),
            Err(Error::InvalidMethodDescriptor(bad.to_string()))
        );
    }
}

#[test]
fn constants() -> Result<(), Error> {
    let mut pool = ConstantPool::new();
    let class_index = pool.add_class("Foo")?;
    assert_eq!(class_index, 2);
    assert_eq!(pool.try_get(1)?, Constant::Utf8("Foo"));
    assert_eq!(pool.try_get(2)?, Constant::Class(1));
    let method_index = pool.add_method_ref(class_index, "run", "(J)I")?;
    assert_eq!(
        pool.try_get_member_descriptor(method_index, MemberKind::Method)?,
        "(J)I"
    );
    assert_eq!(
        pool.try_get_member_descriptor(method_index, MemberKind::Field),
        Err(Error::InvalidConstantPoolIndexType(method_index))
    );
    assert_eq!(pool.try_get_utf8(1)?, "Foo");
    assert_eq!(
        pool.try_get_utf8(2),
        Err(Error::InvalidConstantPoolIndexType(2))
    );
    let name_index = pool.add_name_and_type("call", "()V")?;
    let dynamic_index = pool.add(Constant::InvokeDynamic {
        bootstrap_method_attr_index: 0,
        name_and_type_index: name_index,
    })?;
    assert_eq!(
        pool.try_get_member_descriptor(dynamic_index, MemberKind::DynamicCall)?,
        "()V"
    );
    Ok(())
}

#[test]
fn effects_of_calls_and_fields() -> Result<(), Error> {
    let mut pool = ConstantPool::new();
    let class_index = pool.add_class("Foo")?;
    let method_index = pool.add_method_ref(class_index, "run", "(IJ)D")?;
    let field_index = pool.add_field_ref(class_index, "value", "D")?;
    let name_index = pool.add_name_and_type("call", "(F)V")?;
    let interface_index = pool.add(Constant::InterfaceMethodRef {
        class_index,
        name_and_type_index: name_index,
    })?;
    let dynamic_index = pool.add(Constant::InvokeDynamic {
        bootstrap_method_attr_index: 0,
        name_and_type_index: name_index,
    })?;
    let effects = [
        (Instruction::Invokevirtual(method_index), (4, 2)),
        (Instruction::Invokespecial(method_index), (4, 2)),
        (Instruction::Invokestatic(method_index), (3, 2)),
        (Instruction::Invokestatic(interface_index), (1, 0)),
        (Instruction::Invokeinterface(interface_index, 2), (2, 0)),
        (Instruction::Invokedynamic(dynamic_index), (1, 0)),
        (Instruction::Getstatic(field_index), (0, 2)),
        (Instruction::Putstatic(field_index), (2, 0)),
        (Instruction::Getfield(field_index), (1, 2)),
        (Instruction::Putfield(field_index), (3, 0)),
        (Instruction::Multianewarray(class_index, 3), (3, 1)),
        (Instruction::Newarray(ArrayType::Int), (1, 1)),
        (Instruction::Laload, (2, 2)),
        (Instruction::Lastore, (4, 0)),
        (Instruction::Lcmp, (4, 1)),
        (Instruction::Lshl, (3, 2)),
        (Instruction::Dadd, (4, 2)),
        (Instruction::Nop, (0, 0)),
    ];
    for (instruction, expected) in effects {
        assert_eq!(instruction.stack_effect(&pool)?, expected);
    }
    let code = [
        Instruction::Aconst_null,
        Instruction::Iconst_0,
        Instruction::Lconst_0,
        Instruction::Invokevirtual(method_index),
        Instruction::Dreturn,
    ];
    assert_eq!(code.max_stack(&pool)?, 4);
    Ok(())
}

fn stack_of(arena: &mut StackArena, values: &[StackValue]) -> Result<StackId, Error> {
    let mut stack = StackId::empty();
    for value in values {
        push_value(arena, &mut stack, *value)?;
    }
    Ok(stack)
}

fn values_of(arena: &StackArena, stack: StackId) -> Result<Vec<StackValue>, Error> {
    let mut values: Vec<StackValue> = Vec::new();
    let mut rest = stack;
    while rest != StackId::empty() {
        values.push(pop_value(arena, &mut rest)?);
    }
    values.reverse();
    Ok(values)
}

#[test]
fn drop_undoes_copy() -> Result<(), Error> {
    let mut arena = StackArena::new();
    let forms = [
        vec![StackValue::Category1, StackValue::Category2],
        vec![StackValue::Category1, StackValue::ReturnAddress(address(2))],
    ];
    for values in forms {
        let start = stack_of(&mut arena, &values)?;
        let mut stack = start;
        apply_dup2(&mut stack, &mut arena)?;
        assert_eq!(arena.depth(stack)?, arena.depth(start)? + 2);
        apply_pop2(&mut stack, &arena)?;
        assert_eq!(stack, start);
    }
    let start = stack_of(&mut arena, &[StackValue::InvalidReturnAddress])?;
    let mut stack = start;
    apply_dup(&mut stack, &mut arena)?;
    apply_pop(&mut stack, &arena)?;
    assert_eq!(stack, start);
    Ok(())
}

#[test]
fn swap_undoes_swap() -> Result<(), Error> {
    let mut arena = StackArena::new();
    let start = stack_of(
        &mut arena,
        &[StackValue::Category2, StackValue::Category1, StackValue::InvalidReturnAddress],
    )?;
    let mut stack = start;
    apply_swap(&mut stack, &mut arena)?;
    assert_eq!(
        values_of(&arena, stack)?,
        vec![StackValue::Category2, StackValue::InvalidReturnAddress, StackValue::Category1]
    );
    apply_swap(&mut stack, &mut arena)?;
    assert_eq!(stack, start);
    Ok(())
}

#[test]
fn copies_go_below() -> Result<(), Error> {
    let mut arena = StackArena::new();
    let mut stack = stack_of(
        &mut arena,
        &[StackValue::Category2, StackValue::ReturnAddress(address(1))],
    )?;
    apply_dup_x2(&mut stack, &mut arena)?;
    assert_eq!(
        values_of(&arena, stack)?,
        vec![
            StackValue::ReturnAddress(address(1)),
            StackValue::Category2,
            StackValue::ReturnAddress(address(1)),
        ]
    );
    let mut stack = stack_of(
        &mut arena,
        &[StackValue::ReturnAddress(address(1)), StackValue::Category2],
    )?;
    assert_eq!(
        apply_stack_manipulation(&Instruction::Dup2_x1, &mut stack, &mut arena),
        Ok(true)
    );
    assert_eq!(
        values_of(&arena, stack)?,
        vec![
            StackValue::Category2,
            StackValue::ReturnAddress(address(1)),
            StackValue::Category2,
        ]
    );
    assert_eq!(
        apply_stack_manipulation(&Instruction::Nop, &mut stack, &mut arena),
        Ok(false)
    );
    Ok(())
}

#[test]
fn failures_leave_what_was_not_taken() -> Result<(), Error> {
    let mut arena = StackArena::new();
    let start = stack_of(
        &mut arena,
        &[StackValue::Category1, StackValue::Category2, StackValue::Category1],
    )?;
    let mut stack = start;
    assert!(apply_swap(&mut stack, &mut arena).is_err());
    assert_eq!(values_of(&arena, stack)?, vec![StackValue::Category1]);
    let mut stack = start;
    assert!(apply_dup2_x1(&mut stack, &mut arena).is_err());
    assert_eq!(values_of(&arena, stack)?, vec![StackValue::Category1]);
    let mut stack = start;
    assert!(pop_slots(&arena, &mut stack, 2).is_err());
    assert_eq!(values_of(&arena, stack)?, vec![StackValue::Category1]);
    let mut stack = start;
    assert_eq!(pop_slots(&arena, &mut stack, 3), Ok(()));
    assert_eq!(values_of(&arena, stack)?, vec![StackValue::Category1]);
    Ok(())
}

#[test]
fn refused_instructions_leave_the_state_unchanged() -> Result<(), Error> {
    let pool = ConstantPool::new();
    let mut arena = StackArena::new();
    let stack = stack_of(&mut arena, &[StackValue::Category1, StackValue::Category1])?;
    let refused = [
        (Instruction::Iload_1, "instruction reads returnAddress local variable starting at 1"),
        (Instruction::Lload_0, "instruction reads returnAddress local variable starting at 0"),
        (Instruction::Iinc(4, 1), "instruction reads returnAddress local variable starting at 4"),
        (Instruction::Getfield(3), "InvalidConstantPoolIndex(3)"),
    ];
    for (instruction, expected) in refused {
        let mut state = FlowState {
            instruction: 6,
            stack,
            return_address_locals: vec![
                (1, ReturnAddressLocal::Active(address(2))),
                (4, ReturnAddressLocal::Invalid),
            ],
            subroutines: vec![address(2)],
        };
        let result = apply_instruction(&mut state, &instruction, &pool, &mut arena);
        assert_eq!(result.map_err(message), Err(expected.to_string()));
        assert_eq!(state.instruction, 6);
        assert_eq!(state.stack, stack);
        assert_eq!(
            state.return_address_locals,
            vec![
                (1, ReturnAddressLocal::Active(address(2))),
                (4, ReturnAddressLocal::Invalid),
            ]
        );
        assert_eq!(state.subroutines, vec![address(2)]);
    }
    Ok(())
}

#[test]
fn astore_of_a_return_address() -> Result<(), Error> {
    let mut arena = StackArena::new();
    let stack = stack_of(&mut arena, &[StackValue::ReturnAddress(address(2))])?;
    let mut state = FlowState {
        instruction: 6,
        stack,
        return_address_locals: vec![(8, ReturnAddressLocal::Active(address(2)))],
        subroutines: vec![address(2)],
    };
    apply_astore(&mut state, 3, &arena)?;
    assert_eq!(state.stack, StackId::empty());
    assert_eq!(
        state.return_address_locals,
        vec![
            (3, ReturnAddressLocal::Active(address(2))),
            (8, ReturnAddressLocal::Active(address(2))),
        ]
    );
    assert_eq!(
        apply_astore(&mut state, 3, &arena).map_err(message),
        Err("operand stack underflow".to_string())
    );
    state.stack = stack;
    invalidate_return_addresses(&mut state, &[address(2)], &mut arena)?;
    assert_eq!(
        state.return_address_locals,
        vec![(3, ReturnAddressLocal::Invalid), (8, ReturnAddressLocal::Invalid)]
    );
    assert_eq!(
        values_of(&arena, state.stack)?,
        vec![StackValue::InvalidReturnAddress]
    );
    Ok(())
}
