use indexmap::IndexMap;
use max_stack::constant_pool::Constant;
use max_stack::{
    max_stack_with_exception_table, ConstantPool, Error, ExceptionTableEntry, Instruction,
    LookupSwitch, MaxStack, TableSwitch, VerifyError,
};

fn verification(message: &str) -> Result<u16, Error> {
    Err(Error::VerificationError(VerifyError::VerifyError(
        message.to_string(),
    )))
}

fn analyzed(instructions: &[Instruction]) -> Result<u16, Error> {
    instructions.max_stack(&ConstantPool::new())
}

fn entry(start: u16, end: u16, handler_pc: u16) -> ExceptionTableEntry {
    ExceptionTableEntry {
        range_pc: start..end,
        handler_pc,
        catch_type: 0,
    }
}

#[test]
fn table_without_code_is_an_invalid_offset() {
    let pool = ConstantPool::new();
    assert_eq!(
        max_stack_with_exception_table(&[], &pool, &[entry(0, 1, 0)]),
        Err(Error::InvalidInstructionOffset(0))
    );
    assert_eq!(max_stack_with_exception_table(&[], &pool, &[]), Ok(0));
}

#[test]
fn empty_range_is_reported_by_its_start() {
    let code = [Instruction::Nop, Instruction::Return];
    let pool = ConstantPool::new();
    assert_eq!(
        max_stack_with_exception_table(&code, &pool, &[entry(1, 1, 0)]),
        Err(Error::InvalidInstructionOffset(1))
    );
    assert_eq!(
        max_stack_with_exception_table(&code, &pool, &[entry(2, 1, 9)]),
        Err(Error::InvalidInstructionOffset(2))
    );
}

#[test]
fn range_beyond_the_code_is_reported_by_its_end() {
    let code = [Instruction::Nop, Instruction::Return];
    let pool = ConstantPool::new();
    assert_eq!(
        max_stack_with_exception_table(&code, &pool, &[entry(0, 2, 0), entry(0, 3, 7)]),
        Err(Error::InvalidInstructionOffset(3))
    );
}

#[test]
fn handler_beyond_the_code_is_reported_by_its_offset() {
    let code = [Instruction::Nop, Instruction::Return];
    let pool = ConstantPool::new();
    assert_eq!(
        max_stack_with_exception_table(&code, &pool, &[entry(0, 2, 2)]),
        Err(Error::InvalidInstructionOffset(2))
    );
}

#[test]
fn first_faulty_entry_is_reported_before_any_instruction() {
    let code = [Instruction::Pop, Instruction::Return];
    let pool = ConstantPool::new();
    assert_eq!(
        max_stack_with_exception_table(&code, &pool, &[entry(0, 1, 1), entry(0, 5, 0), entry(4, 4, 0)]),
        Err(Error::InvalidInstructionOffset(5))
    );
}

#[test]
fn branch_target_beyond_the_code() {
    assert_eq!(
        analyzed(&[Instruction::Goto(3), Instruction::Return]),
        Err(Error::InvalidInstructionOffset(3))
    );
    assert_eq!(
        analyzed(&[Instruction::Iconst_0, Instruction::Ifeq(2)]),
        Err(Error::InvalidInstructionOffset(2))
    );
    assert_eq!(
        analyzed(&[Instruction::Jsr(9), Instruction::Return]),
        Err(Error::InvalidInstructionOffset(9))
    );
}

#[test]
fn negative_target_is_not_converted() {
    assert_eq!(
        analyzed(&[Instruction::Goto_w(-1), Instruction::Return]),
        Err(Error::TryFromIntError)
    );
    assert_eq!(
        analyzed(&[Instruction::Jsr_w(-5), Instruction::Return]),
        Err(Error::TryFromIntError)
    );
    assert_eq!(
        analyzed(&[
            Instruction::Iconst_0,
            Instruction::Tableswitch(Box::new(TableSwitch {
                default: -2,
                low: 0,
                high: 0,
                offsets: vec![1],
            })),
            Instruction::Return,
        ]),
        Err(Error::TryFromIntError)
    );
}

#[test]
fn switch_target_beyond_the_code() {
    assert_eq!(
        analyzed(&[
            Instruction::Iconst_0,
            Instruction::Tableswitch(Box::new(TableSwitch {
                default: 1,
                low: 0,
                high: 1,
                offsets: vec![1, 6],
            })),
            Instruction::Return,
        ]),
        Err(Error::InvalidInstructionOffset(7))
    );
    assert_eq!(
        analyzed(&[
            Instruction::Iconst_0,
            Instruction::Lookupswitch(Box::new(LookupSwitch {
                default: 1,
                pairs: IndexMap::from([(10, 1), (20, 4)]),
            })),
            Instruction::Return,
        ]),
        Err(Error::InvalidInstructionOffset(5))
    );
}

#[test]
fn lookup_switch_targets_are_taken_in_the_order_of_the_pairs() {
    let switch = |pairs: IndexMap<i32, i32>| {
        analyzed(&[
            Instruction::Iconst_0,
            Instruction::Lookupswitch(Box::new(LookupSwitch { default: 1, pairs })),
            Instruction::Return,
        ])
    };
    assert_eq!(
        switch(IndexMap::from([(2, 8), (1, 9)])),
        Err(Error::InvalidInstructionOffset(9))
    );
    assert_eq!(
        switch(IndexMap::from([(1, 9), (2, 8)])),
        Err(Error::InvalidInstructionOffset(10))
    );
}

#[test]
fn missing_constant() {
    assert_eq!(
        analyzed(&[Instruction::Getstatic(7), Instruction::Return]),
        Err(Error::InvalidConstantPoolIndex(7))
    );
    assert_eq!(
        analyzed(&[Instruction::Getstatic(0), Instruction::Return]),
        Err(Error::InvalidConstantPoolIndex(0))
    );
}

#[test]
fn constant_of_another_kind() -> Result<(), Error> {
    let mut pool = ConstantPool::new();
    let class_index = pool.add_class("Foo")?;
    let field_index = pool.add_field_ref(class_index, "value", "J")?;
    assert_eq!(
        [Instruction::Getstatic(class_index), Instruction::Return].max_stack(&pool),
        Err(Error::InvalidConstantPoolIndexType(class_index))
    );
    assert_eq!(
        [Instruction::Invokestatic(field_index), Instruction::Return].max_stack(&pool),
        Err(Error::InvalidConstantPoolIndexType(field_index))
    );
    Ok(())
}

#[test]
fn bad_field_descriptor() -> Result<(), Error> {
    let mut pool = ConstantPool::new();
    let class_index = pool.add_class("Foo")?;
    let field_index = pool.add_field_ref(class_index, "value", "Lfoo")?;
    assert_eq!(
        [Instruction::Getstatic(field_index), Instruction::Return].max_stack(&pool),
        Err(Error::InvalidFieldTypeDescriptor("Lfoo".to_string()))
    );
    Ok(())
}

#[test]
fn bad_method_descriptor() -> Result<(), Error> {
    let mut pool = ConstantPool::new();
    let class_index = pool.add_class("Foo")?;
    let method_index = pool.add_method_ref(class_index, "run", "(I")?;
    assert_eq!(
        [Instruction::Invokestatic(method_index), Instruction::Return].max_stack(&pool),
        Err(Error::InvalidMethodDescriptor("(I".to_string()))
    );
    Ok(())
}

#[test]
fn full_constant_pool_refuses_more() -> Result<(), Error> {
    let mut pool = ConstantPool::new();
    for _ in 0..65534 {
        pool.add(Constant::Class(1))?;
    }
    assert_eq!(pool.add_utf8("last"), Ok(65535));
    assert_eq!(pool.add_utf8("more"), Err(Error::TryFromIntError));
    assert_eq!(pool.try_get(65535), Ok(Constant::Utf8("last")));
    Ok(())
}

#[test]
fn underflow_message() {
    assert_eq!(
        analyzed(&[Instruction::Pop, Instruction::Return]),
        verification("operand stack underflow")
    );
    assert_eq!(
        analyzed(&[Instruction::Iconst_0, Instruction::Iadd, Instruction::Return]),
        verification("operand stack underflow")
    );
}

#[test]
fn category_messages() {
    assert_eq!(
        analyzed(&[Instruction::Lconst_0, Instruction::Pop, Instruction::Return]),
        verification("expected a category-1 value on the operand stack")
    );
    assert_eq!(
        analyzed(&[Instruction::Lconst_0, Instruction::Istore_0, Instruction::Return]),
        verification("operand stack value occupies 2 slots but only 1 slots are consumed")
    );
    assert_eq!(
        analyzed(&[
            Instruction::Lconst_0,
            Instruction::Iconst_0,
            Instruction::Iadd,
            Instruction::Return
        ]),
        verification("operand stack value occupies 2 slots but only 1 slots are consumed")
    );
}

#[test]
fn return_address_is_no_ordinary_value() {
    assert_eq!(
        analyzed(&[Instruction::Jsr(2), Instruction::Return, Instruction::Istore_0, Instruction::Return]),
        verification("returnAddress consumed by a non-returnAddress instruction")
    );
    assert_eq!(
        analyzed(&[
            Instruction::Jsr(2),
            Instruction::Return,
            Instruction::Astore(12),
            Instruction::Aload(12),
            Instruction::Return,
        ]),
        verification("instruction reads returnAddress local variable starting at 12")
    );
    assert_eq!(
        analyzed(&[
            Instruction::Jsr(2),
            Instruction::Return,
            Instruction::Astore_w(1301),
            Instruction::Lload_w(1300),
            Instruction::Return,
        ]),
        verification("instruction reads returnAddress local variable starting at 1300")
    );
}

#[test]
fn too_deep_a_stack() {
    let mut code: Vec<Instruction> = Vec::new();
    for _ in 0..65535 {
        code.push(Instruction::Iconst_0);
    }
    code.push(Instruction::Return);
    assert_eq!(analyzed(&code), Ok(65535));
    code.insert(0, Instruction::Iconst_1);
    assert_eq!(
        analyzed(&code),
        verification("operand stack exceeds u16::MAX slots")
    );
}

#[test]
fn jsr_at_the_end_of_the_code() {
    assert_eq!(
        analyzed(&[Instruction::Nop, Instruction::Jsr(0)]),
        verification("jsr at instruction 1 has no continuation")
    );
}

#[test]
fn recursive_jsr_message() {
    let mut code: Vec<Instruction> = Vec::new();
    code.push(Instruction::Jsr(10));
    for _ in 1..10 {
        code.push(Instruction::Return);
    }
    code.push(Instruction::Astore_0);
    code.push(Instruction::Jsr(10));
    code.push(Instruction::Ret(0));
    assert_eq!(
        analyzed(&code),
        verification("recursive jsr subroutine call to instruction 10")
    );
}

#[test]
fn ret_messages() {
    assert_eq!(
        analyzed(&[Instruction::Ret(7)]),
        verification("ret at instruction 0 reads local 7 without a returnAddress")
    );
    assert_eq!(
        analyzed(&[
            Instruction::Jsr(4),
            Instruction::Astore_1,
            Instruction::Ret(1),
            Instruction::Return,
            Instruction::Dup,
            Instruction::Astore_0,
            Instruction::Ret(0),
        ]),
        verification("ret at instruction 2 reuses an inactive returnAddress from local 1")
    );
}

#[test]
fn handlers_come_before_the_fault_of_the_instruction() {
    let pool = ConstantPool::new();
    let code = [
        Instruction::Iconst_0,
        Instruction::Pop2,
        Instruction::Goto_w(-7),
        Instruction::Return,
    ];
    assert_eq!(
        max_stack_with_exception_table(&code, &pool, &[entry(0, 1, 2)]),
        Err(Error::TryFromIntError)
    );
    assert_eq!(
        max_stack_with_exception_table(&code, &pool, &[entry(1, 2, 2)]),
        verification("operand stack underflow")
    );
}

#[test]
fn unsupported_width_message() {
    let mut arena = max_stack::arena::StackArena::new();
    let mut stack = max_stack::arena::StackId::empty();
    let pushed = max_stack::operand::push_slots(&mut arena, &mut stack, 3);
    assert_eq!(
        pushed,
        Err(Error::VerificationError(VerifyError::VerifyError(
            "instruction produces unsupported stack value width of 3 slots".to_string()
        )))
    );
    assert_eq!(stack, max_stack::arena::StackId::empty());
}
