use max_stack::{
    max_stack_with_exception_table, ConstantPool, Error, ExceptionTableEntry, Instruction, MaxStack,
};

fn analyzed(instructions: &[Instruction]) -> Result<u16, Error> {
    instructions.max_stack(&ConstantPool::new())
}

fn entry(start: u16, end: u16, handler_pc: u16) -> ExceptionTableEntry {
    ExceptionTableEntry {
        range_pc: start..end,
        handler_pc,
        catch_type: 0,
    }
}

#[test]
fn result_is_the_maximum_over_all_paths() {
    assert_eq!(
        analyzed(&[
            Instruction::Iconst_0,
            Instruction::Ifne(4),
            Instruction::Iconst_1,
            Instruction::Ireturn,
            Instruction::Lconst_0,
            Instruction::Dconst_1,
            Instruction::Iconst_5,
            Instruction::Return,
        ]),
        Ok(5)
    );
}

#[test]
fn unreachable_instructions_make_no_difference() {
    assert_eq!(
        analyzed(&[Instruction::Goto(2), Instruction::Nop, Instruction::Return]),
        Ok(0)
    );
    assert_eq!(
        analyzed(&[Instruction::Goto(2), Instruction::Lconst_0, Instruction::Return]),
        Ok(0)
    );
    assert_eq!(
        analyzed(&[Instruction::Goto(2), Instruction::Pop, Instruction::Return]),
        Ok(0)
    );
}

#[test]
fn more_handlers_never_lower_the_result() {
    let pool = ConstantPool::new();
    let code = [
        Instruction::Nop,
        Instruction::Return,
        Instruction::Lconst_0,
        Instruction::Dconst_0,
        Instruction::Return,
    ];
    assert_eq!(max_stack_with_exception_table(&code, &pool, &[]), Ok(0));
    assert_eq!(
        max_stack_with_exception_table(&code, &pool, &[entry(0, 1, 1)]),
        Ok(1)
    );
    assert_eq!(
        max_stack_with_exception_table(&code, &pool, &[entry(0, 1, 1), entry(1, 2, 2)]),
        Ok(5)
    );
}

#[test]
fn without_handlers_the_two_analyses_agree() {
    let pool = ConstantPool::new();
    let code = [
        Instruction::Iconst_0,
        Instruction::Dup,
        Instruction::Iadd,
        Instruction::Ireturn,
    ];
    assert_eq!(code.max_stack(&pool), Ok(2));
    assert_eq!(max_stack_with_exception_table(&code, &pool, &[]), Ok(2));
}

#[test]
fn handler_range_ends_before_its_end() {
    let pool = ConstantPool::new();
    let code = [
        Instruction::Nop,
        Instruction::Return,
        Instruction::Pop2,
        Instruction::Return,
    ];
    assert_eq!(
        max_stack_with_exception_table(&code, &pool, &[entry(2, 4, 2)]),
        Ok(0)
    );
    assert!(max_stack_with_exception_table(&code, &pool, &[entry(1, 2, 2)]).is_err());
}

#[test]
fn handler_starts_with_the_thrown_object_alone() {
    let pool = ConstantPool::new();
    let code = [
        Instruction::Lconst_0,
        Instruction::Lconst_1,
        Instruction::Return,
        Instruction::Lconst_0,
        Instruction::Return,
    ];
    assert_eq!(
        max_stack_with_exception_table(&code, &pool, &[entry(1, 3, 3)]),
        Ok(4)
    );
    let one_more = [
        Instruction::Lconst_0,
        Instruction::Return,
        Instruction::Pop,
        Instruction::Pop,
        Instruction::Return,
    ];
    assert!(max_stack_with_exception_table(&one_more, &pool, &[entry(1, 2, 2)]).is_err());
}

#[test]
fn every_branch_and_switch_target_is_followed() {
    let conditions = [
        Instruction::Ifeq(3),
        Instruction::Ifne(3),
        Instruction::Iflt(3),
        Instruction::Ifge(3),
        Instruction::Ifgt(3),
        Instruction::Ifle(3),
        Instruction::Ifnull(3),
        Instruction::Ifnonnull(3),
    ];
    for condition in conditions {
        assert_eq!(
            analyzed(&[
                Instruction::Iconst_0,
                condition,
                Instruction::Return,
                Instruction::Lconst_0,
                Instruction::Lconst_0,
                Instruction::Return,
            ]),
            Ok(4)
        );
    }
    let comparisons = [
        Instruction::If_icmpeq(4),
        Instruction::If_icmpne(4),
        Instruction::If_icmplt(4),
        Instruction::If_icmpge(4),
        Instruction::If_icmpgt(4),
        Instruction::If_icmple(4),
        Instruction::If_acmpeq(4),
        Instruction::If_acmpne(4),
    ];
    for comparison in comparisons {
        assert_eq!(
            analyzed(&[
                Instruction::Iconst_0,
                Instruction::Iconst_0,
                comparison,
                Instruction::Return,
                Instruction::Lconst_0,
                Instruction::Lconst_0,
                Instruction::Return,
            ]),
            Ok(4)
        );
    }
}

#[test]
fn code_may_run_off_its_end() {
    assert_eq!(analyzed(&[Instruction::Iconst_0, Instruction::Iconst_1]), Ok(2));
    assert_eq!(analyzed(&[Instruction::Iconst_0, Instruction::Ifeq(0)]), Ok(1));
}

#[test]
fn loop_that_grows_the_stack_is_refused() {
    assert!(analyzed(&[Instruction::Iconst_0, Instruction::Goto(0)]).is_err());
}

#[test]
fn swap_twice_keeps_the_values() {
    assert_eq!(
        analyzed(&[
            Instruction::Jsr(2),
            Instruction::Return,
            Instruction::Iconst_0,
            Instruction::Swap,
            Instruction::Swap,
            Instruction::Istore_1,
            Instruction::Astore_0,
            Instruction::Ret(0),
        ]),
        Ok(2)
    );
}

#[test]
fn copy_then_drop_keeps_the_values() {
    assert_eq!(
        analyzed(&[
            Instruction::Iconst_0,
            Instruction::Lconst_0,
            Instruction::Dup2,
            Instruction::Pop2,
            Instruction::Lstore_0,
            Instruction::Istore_2,
            Instruction::Return,
        ]),
        Ok(5)
    );
}

#[test]
fn ret_goes_back_behind_its_own_jsr() {
    let code = [
        Instruction::Jsr(5),
        Instruction::Lconst_0,
        Instruction::Jsr(5),
        Instruction::Dconst_0,
        Instruction::Return,
        Instruction::Astore_3,
        Instruction::Ret(3),
    ];
    assert_eq!(analyzed(&code), Ok(4));
}

#[test]
fn stack_survives_a_subroutine() {
    assert_eq!(
        analyzed(&[
            Instruction::Dconst_0,
            Instruction::Jsr(4),
            Instruction::Dstore_0,
            Instruction::Return,
            Instruction::Astore_2,
            Instruction::Ret(2),
        ]),
        Ok(3)
    );
}

#[test]
fn store_over_a_return_address_removes_it() {
    let stores = [
        (Instruction::Iconst_0, Instruction::Istore_0),
        (Instruction::Fconst_0, Instruction::Fstore(0)),
        (Instruction::Aconst_null, Instruction::Astore_0),
        (Instruction::Lconst_0, Instruction::Lstore_w(0)),
    ];
    for (load, store) in stores {
        assert!(analyzed(&[
            Instruction::Jsr(2),
            Instruction::Return,
            Instruction::Astore_0,
            load,
            store,
            Instruction::Ret(0),
        ])
        .is_err());
    }
    assert!(analyzed(&[
        Instruction::Jsr(2),
        Instruction::Return,
        Instruction::Astore_1,
        Instruction::Lconst_0,
        Instruction::Lstore_0,
        Instruction::Ret(1),
    ])
    .is_err());
    assert_eq!(
        analyzed(&[
            Instruction::Jsr(2),
            Instruction::Return,
            Instruction::Astore_2,
            Instruction::Lconst_0,
            Instruction::Lstore_0,
            Instruction::Ret(2),
        ]),
        Ok(2)
    );
}

#[test]
fn invalid_address_may_be_moved_but_not_used() {
    assert_eq!(
        analyzed(&[
            Instruction::Jsr(4),
            Instruction::Astore_1,
            Instruction::Return,
            Instruction::Return,
            Instruction::Dup,
            Instruction::Astore_0,
            Instruction::Ret(0),
        ]),
        Ok(2)
    );
}

#[test]
fn subroutine_may_be_left_through_a_handler() {
    let pool = ConstantPool::new();
    let code = [
        Instruction::Jsr(2),
        Instruction::Return,
        Instruction::Astore_0,
        Instruction::Nop,
        Instruction::Ret(0),
        Instruction::Pop,
        Instruction::Jsr(2),
        Instruction::Return,
    ];
    assert!(max_stack_with_exception_table(&code, &pool, &[entry(3, 4, 5)]).is_err());
    assert_eq!(
        max_stack_with_exception_table(&code, &pool, &[entry(1, 2, 5)]),
        Ok(1)
    );
}

#[test]
fn many_branches_are_looked_at_once() {
    let mut code: Vec<Instruction> = Vec::new();
    for i in 0..200 {
        code.push(Instruction::Iconst_0);
        code.push(Instruction::Ifeq(2 * (i + 1)));
    }
    code.push(Instruction::Return);
    assert_eq!(analyzed(&code), Ok(1));
}

#[test]
fn order_and_repetition_of_handlers_make_no_difference() {
    let pool = ConstantPool::new();
    let code = [
        Instruction::Nop,
        Instruction::Return,
        Instruction::Lconst_0,
        Instruction::Return,
        Instruction::Dconst_0,
        Instruction::Dconst_1,
        Instruction::Return,
    ];
    let tables = [
        vec![entry(0, 1, 2), entry(0, 2, 4)],
        vec![entry(0, 2, 4), entry(0, 1, 2)],
        vec![entry(0, 2, 4), entry(0, 1, 2), entry(0, 2, 4)],
    ];
    for table in tables {
        assert_eq!(max_stack_with_exception_table(&code, &pool, &table), Ok(5));
    }
}

#[test]
fn added_handler_never_turns_an_error_into_success() {
    let pool = ConstantPool::new();
    let code = [Instruction::Nop, Instruction::Pop, Instruction::Return];
    assert!(max_stack_with_exception_table(&code, &pool, &[]).is_err());
    assert!(max_stack_with_exception_table(&code, &pool, &[entry(0, 1, 1)]).is_err());
}

#[test]
fn catch_types_make_no_difference() {
    let pool = ConstantPool::new();
    let good = [Instruction::Aconst_null, Instruction::Athrow, Instruction::Return];
    let bad = [Instruction::Aconst_null, Instruction::Athrow, Instruction::Pop2];
    for catch_type in [0, 1, 65535] {
        let table = [ExceptionTableEntry {
            range_pc: 0..2,
            handler_pc: 2,
            catch_type,
        }];
        assert_eq!(max_stack_with_exception_table(&good, &pool, &table), Ok(1));
        assert_eq!(
            max_stack_with_exception_table(&bad, &pool, &table),
            Err(Error::VerificationError(max_stack::VerifyError::VerifyError(
                "operand stack underflow".to_string()
            )))
        );
    }
}

#[test]
fn instructions_behind_a_final_return_make_no_difference() {
    let mut code = vec![Instruction::Lconst_0, Instruction::Pop2, Instruction::Return];
    assert_eq!(analyzed(&code), Ok(2));
    code.push(Instruction::Pop);
    code.push(Instruction::Dconst_0);
    code.push(Instruction::Dconst_0);
    code.push(Instruction::Return);
    assert_eq!(analyzed(&code), Ok(2));
}
