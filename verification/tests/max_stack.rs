use indexmap::IndexMap;
use max_stack::{
    max_stack_with_exception_table, ConstantPool, Error, ExceptionTableEntry, Instruction,
    LookupSwitch, MaxStack, TableSwitch,
};

#[test]
fn test_max_stack_vec() -> Result<(), Error> {
    let constant_pool = ConstantPool::new();
    let instructions = vec![Instruction::Iconst_0, Instruction::Return];
    assert_eq!(instructions.max_stack(&constant_pool)?, 1);
    Ok(())
}

#[test]
fn test_max_stack_empty() -> Result<(), Error> {
    let constant_pool = ConstantPool::new();
    let instructions = [];
    assert_eq!(instructions.max_stack(&constant_pool)?, 0);
    Ok(())
}

#[test]
fn test_max_stack_return() -> Result<(), Error> {
    let constant_pool = ConstantPool::new();
    let instructions = [Instruction::Return];
    assert_eq!(instructions.max_stack(&constant_pool)?, 0);
    Ok(())
}

#[test]
fn test_max_stack_two_constants() -> Result<(), Error> {
    let constant_pool = ConstantPool::new();
    let instructions = [
        Instruction::Iconst_0,
        Instruction::Iconst_1,
        Instruction::Pop,
        Instruction::Pop,
        Instruction::Return,
    ];
    assert_eq!(instructions.max_stack(&constant_pool)?, 2);
    Ok(())
}

#[test]
fn test_max_stack_pop_single_constant() -> Result<(), Error> {
    let constant_pool = ConstantPool::new();
    let instructions = [
        Instruction::Iconst_0,
        Instruction::Pop,
        Instruction::Iconst_1,
        Instruction::Pop,
        Instruction::Iconst_2,
        Instruction::Pop,
        Instruction::Return,
    ];
    assert_eq!(instructions.max_stack(&constant_pool)?, 1);
    Ok(())
}

#[test]
fn test_max_stack_category_two_values() -> Result<(), Error> {
    let constant_pool = ConstantPool::new();
    let instructions = [
        Instruction::Lconst_0,
        Instruction::Dconst_0,
        Instruction::Pop2,
        Instruction::Pop2,
        Instruction::Return,
    ];
    assert_eq!(instructions.max_stack(&constant_pool)?, 4);
    Ok(())
}

#[test]
fn test_max_stack_category_two_conversion_and_negation() -> Result<(), Error> {
    let constant_pool = ConstantPool::new();
    let instructions = [
        Instruction::Iconst_0,
        Instruction::I2l,
        Instruction::Lneg,
        Instruction::Pop2,
        Instruction::Return,
    ];
    assert_eq!(instructions.max_stack(&constant_pool)?, 2);
    Ok(())
}

#[test]
fn test_max_stack_category_two_fields() -> Result<(), Error> {
    let mut constant_pool = ConstantPool::new();
    let class_index = constant_pool.add_class("Foo")?;
    let field_index = constant_pool.add_field_ref(class_index, "value", "J")?;

    let getstatic = [
        Instruction::Getstatic(field_index),
        Instruction::Pop2,
        Instruction::Return,
    ];
    assert_eq!(getstatic.max_stack(&constant_pool)?, 2);

    let getfield = [
        Instruction::Aconst_null,
        Instruction::Getfield(field_index),
        Instruction::Pop2,
        Instruction::Return,
    ];
    assert_eq!(getfield.max_stack(&constant_pool)?, 2);

    let putfield = [
        Instruction::Aconst_null,
        Instruction::Lconst_0,
        Instruction::Putfield(field_index),
        Instruction::Return,
    ];
    assert_eq!(putfield.max_stack(&constant_pool)?, 3);

    Ok(())
}

#[test]
fn test_max_stack_branches_do_not_accumulate_both_paths() -> Result<(), Error> {
    let constant_pool = ConstantPool::new();
    let instructions = [
        Instruction::Iconst_0,
        Instruction::Ifeq(4),
        Instruction::Lconst_0,
        Instruction::Goto(5),
        Instruction::Lconst_0,
        Instruction::Pop2,
        Instruction::Return,
    ];
    assert_eq!(instructions.max_stack(&constant_pool)?, 2);
    Ok(())
}

#[test]
fn test_max_stack_switch_uses_all_targets() -> Result<(), Error> {
    let constant_pool = ConstantPool::new();
    let instructions = [
        Instruction::Iconst_0,
        Instruction::Tableswitch(Box::new(TableSwitch {
            default: 1,
            low: 0,
            high: 1,
            offsets: vec![1, 3],
        })),
        Instruction::Lconst_0,
        Instruction::Goto(6),
        Instruction::Dconst_0,
        Instruction::Goto(6),
        Instruction::Pop2,
        Instruction::Return,
    ];

    assert_eq!(instructions.max_stack(&constant_pool)?, 2);
    Ok(())
}

#[test]
fn test_max_stack_lookup_switch_uses_all_targets() -> Result<(), Error> {
    let constant_pool = ConstantPool::new();
    let instructions = [
        Instruction::Iconst_0,
        Instruction::Lookupswitch(Box::new(LookupSwitch {
            default: 1,
            pairs: IndexMap::from([(1, 1), (2, 3)]),
        })),
        Instruction::Lconst_0,
        Instruction::Goto(6),
        Instruction::Dconst_0,
        Instruction::Goto(6),
        Instruction::Pop2,
        Instruction::Return,
    ];

    assert_eq!(instructions.max_stack(&constant_pool)?, 2);
    Ok(())
}

#[test]
fn test_max_stack_loop_reaches_fixed_point() -> Result<(), Error> {
    let constant_pool = ConstantPool::new();
    let instructions = [
        Instruction::Iconst_0,
        Instruction::Istore_0,
        Instruction::Iload_0,
        Instruction::Ifeq(6),
        Instruction::Iinc(0, 1),
        Instruction::Goto(2),
        Instruction::Return,
    ];
    assert_eq!(instructions.max_stack(&constant_pool)?, 1);
    Ok(())
}

#[test]
fn test_max_stack_exception_handler_entry() -> Result<(), Error> {
    let constant_pool = ConstantPool::new();
    let instructions = [
        Instruction::Aconst_null,
        Instruction::Athrow,
        Instruction::Astore_0,
        Instruction::Lconst_0,
        Instruction::Pop2,
        Instruction::Return,
    ];
    let exception_table = [ExceptionTableEntry {
        range_pc: 0..2,
        handler_pc: 2,
        catch_type: 0,
    }];

    assert_eq!(
        max_stack_with_exception_table(&instructions, &constant_pool, &exception_table)?,
        2
    );
    Ok(())
}

#[test]
fn test_max_stack_jsr_ret_uses_actual_return_depth() -> Result<(), Error> {
    let constant_pool = ConstantPool::new();
    let instructions = [
        Instruction::Iconst_0,
        Instruction::Jsr(5),
        Instruction::Iadd,
        Instruction::Pop,
        Instruction::Return,
        Instruction::Astore_0,
        Instruction::Iconst_1,
        Instruction::Ret(0),
    ];

    // The subroutine returns with the original int plus a second int on the operand stack.
    assert_eq!(instructions.max_stack(&constant_pool)?, 2);
    Ok(())
}

#[test]
fn test_max_stack_jsr_return_address_survives_dup_and_swap() -> Result<(), Error> {
    let constant_pool = ConstantPool::new();
    let instructions = [
        Instruction::Jsr(4),
        Instruction::Return,
        Instruction::Return,
        Instruction::Return,
        Instruction::Dup,
        Instruction::Aconst_null,
        Instruction::Swap,
        Instruction::Astore_0,
        Instruction::Pop,
        Instruction::Pop,
        Instruction::Ret(0),
    ];

    assert_eq!(instructions.max_stack(&constant_pool)?, 3);
    Ok(())
}

#[test]
fn test_max_stack_nested_jsr_ret() -> Result<(), Error> {
    let constant_pool = ConstantPool::new();
    let instructions = [
        Instruction::Jsr(4),
        Instruction::Lconst_0,
        Instruction::Pop2,
        Instruction::Return,
        Instruction::Astore_0,
        Instruction::Jsr(8),
        Instruction::Ret(0),
        Instruction::Return,
        Instruction::Astore_1,
        Instruction::Dconst_0,
        Instruction::Pop2,
        Instruction::Ret(1),
    ];

    assert_eq!(instructions.max_stack(&constant_pool)?, 2);
    Ok(())
}

#[test]
fn test_max_stack_ret_can_exit_outer_subroutine() -> Result<(), Error> {
    let constant_pool = ConstantPool::new();
    let instructions = [
        Instruction::Jsr(4),
        Instruction::Lconst_0,
        Instruction::Pop2,
        Instruction::Return,
        Instruction::Astore_0,
        Instruction::Jsr(8),
        Instruction::Ret(0),
        Instruction::Return,
        Instruction::Astore_1,
        Instruction::Ret(0),
    ];

    assert_eq!(instructions.max_stack(&constant_pool)?, 2);
    Ok(())
}

#[test]
fn test_max_stack_exception_handler_preserves_return_address_locals() -> Result<(), Error> {
    let constant_pool = ConstantPool::new();
    let instructions = [
        Instruction::Jsr(4),
        Instruction::Return,
        Instruction::Return,
        Instruction::Return,
        Instruction::Astore_0,
        Instruction::Aconst_null,
        Instruction::Athrow,
        Instruction::Astore_1,
        Instruction::Ret(0),
    ];
    let exception_table = [ExceptionTableEntry {
        range_pc: 5..7,
        handler_pc: 7,
        catch_type: 0,
    }];

    assert_eq!(
        max_stack_with_exception_table(&instructions, &constant_pool, &exception_table)?,
        1
    );
    Ok(())
}

#[test]
fn test_max_stack_category_two_stack_manipulation() -> Result<(), Error> {
    let constant_pool = ConstantPool::new();
    let instructions = [
        Instruction::Lconst_0,
        Instruction::Dup2,
        Instruction::Pop2,
        Instruction::Pop2,
        Instruction::Return,
    ];
    assert_eq!(instructions.max_stack(&constant_pool)?, 4);
    Ok(())
}

#[test]
fn test_max_stack_reenters_same_jsr_call_site_after_ret() -> Result<(), Error> {
    let constant_pool = ConstantPool::new();
    let instructions = [
        Instruction::Jsr(4),
        Instruction::Iconst_0,
        Instruction::Ifeq(0),
        Instruction::Return,
        Instruction::Astore_0,
        Instruction::Ret(0),
    ];

    assert_eq!(instructions.max_stack(&constant_pool)?, 1);
    Ok(())
}

#[test]
fn test_max_stack_same_subroutine_from_multiple_call_sites() -> Result<(), Error> {
    let constant_pool = ConstantPool::new();
    let instructions = [
        Instruction::Jsr(4),
        Instruction::Jsr(4),
        Instruction::Return,
        Instruction::Return,
        Instruction::Astore_0,
        Instruction::Ret(0),
    ];

    assert_eq!(instructions.max_stack(&constant_pool)?, 1);
    Ok(())
}

#[test]
fn test_max_stack_wide_jsr_ret() -> Result<(), Error> {
    let constant_pool = ConstantPool::new();
    let instructions = [
        Instruction::Jsr_w(3),
        Instruction::Return,
        Instruction::Return,
        Instruction::Astore_w(300),
        Instruction::Ret_w(300),
    ];

    assert_eq!(instructions.max_stack(&constant_pool)?, 1);
    Ok(())
}

#[test]
fn test_max_stack_rejects_recursive_jsr() {
    let constant_pool = ConstantPool::new();
    let instructions = [
        Instruction::Jsr(2),
        Instruction::Return,
        Instruction::Astore_0,
        Instruction::Jsr(2),
        Instruction::Ret(0),
    ];

    assert!(matches!(
        instructions.max_stack(&constant_pool),
        Err(Error::VerificationError(_))
    ));
}

#[test]
fn test_max_stack_rejects_ret_without_return_address() {
    let constant_pool = ConstantPool::new();
    let instructions = [Instruction::Ret(0)];

    assert!(matches!(
        instructions.max_stack(&constant_pool),
        Err(Error::VerificationError(_))
    ));
}

#[test]
fn test_max_stack_rejects_reused_return_address() {
    let constant_pool = ConstantPool::new();
    let instructions = [
        Instruction::Jsr(4),
        Instruction::Astore_1,
        Instruction::Ret(1),
        Instruction::Return,
        Instruction::Dup,
        Instruction::Astore_0,
        Instruction::Ret(0),
    ];

    assert!(matches!(
        instructions.max_stack(&constant_pool),
        Err(Error::VerificationError(_))
    ));
}

#[test]
fn test_max_stack_all_legal_dup_forms() -> Result<(), Error> {
    let constant_pool = ConstantPool::new();
    let cases = [
        (
            vec![
                Instruction::Iconst_0,
                Instruction::Iconst_1,
                Instruction::Iconst_2,
                Instruction::Dup_x2,
                Instruction::Pop,
                Instruction::Pop,
                Instruction::Pop,
                Instruction::Pop,
                Instruction::Return,
            ],
            4,
        ),
        (
            vec![
                Instruction::Lconst_0,
                Instruction::Iconst_0,
                Instruction::Dup_x2,
                Instruction::Pop,
                Instruction::Pop2,
                Instruction::Pop,
                Instruction::Return,
            ],
            4,
        ),
        (
            vec![
                Instruction::Iconst_0,
                Instruction::Iconst_1,
                Instruction::Dup2,
                Instruction::Pop,
                Instruction::Pop,
                Instruction::Pop,
                Instruction::Pop,
                Instruction::Return,
            ],
            4,
        ),
        (
            vec![
                Instruction::Lconst_0,
                Instruction::Dup2,
                Instruction::Pop2,
                Instruction::Pop2,
                Instruction::Return,
            ],
            4,
        ),
        (
            vec![
                Instruction::Iconst_0,
                Instruction::Iconst_1,
                Instruction::Iconst_2,
                Instruction::Dup2_x1,
                Instruction::Pop,
                Instruction::Pop,
                Instruction::Pop,
                Instruction::Pop,
                Instruction::Pop,
                Instruction::Return,
            ],
            5,
        ),
        (
            vec![
                Instruction::Iconst_0,
                Instruction::Lconst_0,
                Instruction::Dup2_x1,
                Instruction::Pop2,
                Instruction::Pop,
                Instruction::Pop2,
                Instruction::Return,
            ],
            5,
        ),
        (
            vec![
                Instruction::Iconst_0,
                Instruction::Iconst_1,
                Instruction::Iconst_2,
                Instruction::Iconst_3,
                Instruction::Dup2_x2,
                Instruction::Pop,
                Instruction::Pop,
                Instruction::Pop,
                Instruction::Pop,
                Instruction::Pop,
                Instruction::Pop,
                Instruction::Return,
            ],
            6,
        ),
        (
            vec![
                Instruction::Lconst_0,
                Instruction::Iconst_0,
                Instruction::Iconst_1,
                Instruction::Dup2_x2,
                Instruction::Pop,
                Instruction::Pop,
                Instruction::Pop2,
                Instruction::Pop,
                Instruction::Pop,
                Instruction::Return,
            ],
            6,
        ),
        (
            vec![
                Instruction::Iconst_0,
                Instruction::Iconst_1,
                Instruction::Lconst_0,
                Instruction::Dup2_x2,
                Instruction::Pop2,
                Instruction::Pop,
                Instruction::Pop,
                Instruction::Pop2,
                Instruction::Return,
            ],
            6,
        ),
        (
            vec![
                Instruction::Lconst_0,
                Instruction::Lconst_1,
                Instruction::Dup2_x2,
                Instruction::Pop2,
                Instruction::Pop2,
                Instruction::Pop2,
                Instruction::Return,
            ],
            6,
        ),
    ];

    for (instructions, expected) in cases {
        assert_eq!(instructions.max_stack(&constant_pool)?, expected);
    }
    Ok(())
}

#[test]
fn test_max_stack_rejects_invalid_stack_manipulation_forms() {
    let constant_pool = ConstantPool::new();
    let cases = [
        vec![Instruction::Lconst_0, Instruction::Dup, Instruction::Return],
        vec![
            Instruction::Iconst_0,
            Instruction::Lconst_0,
            Instruction::Swap,
            Instruction::Return,
        ],
        vec![
            Instruction::Lconst_0,
            Instruction::Iconst_0,
            Instruction::Dup2,
            Instruction::Return,
        ],
    ];

    for instructions in cases {
        assert!(matches!(
            instructions.max_stack(&constant_pool),
            Err(Error::VerificationError(_))
        ));
    }
}

#[test]
fn test_max_stack_rejects_stack_underflow() {
    let constant_pool = ConstantPool::new();
    let instructions = [Instruction::Pop, Instruction::Return];

    assert!(matches!(
        instructions.max_stack(&constant_pool),
        Err(Error::VerificationError(_))
    ));
}
