//! Instructions of the Java virtual machine, and what each does to the operand stack.
use indexmap::IndexMap;
use vstd::prelude::*;

use crate::constant_pool::{member_descriptor, Constant, ConstantPool, MemberKind};
use crate::descriptor::{call_slots, field_descriptor_slots, field_slots, method_descriptor_slots};
use crate::error::{agrees, Error, Fault};

verus! {

/// The element types of `newarray`.
#[derive(Clone, Copy, Debug, PartialEq, Eq)]
pub enum ArrayType {
    Boolean,
    Char,
    Float,
    Double,
    Byte,
    Short,
    Int,
    Long,
}

/// The operands of `tableswitch`; the offsets are relative to the instruction itself.
#[derive(Debug)]
pub struct TableSwitch {
    pub default: i32,
    pub low: i32,
    pub high: i32,
    pub offsets: Vec<i32>,
}

/// The operands of `lookupswitch`; the offsets are relative to the instruction itself.
#[derive(Debug)]
pub struct LookupSwitch {
    pub default: i32,
    pub pairs: IndexMap<i32, i32>,
}

/// A range of instructions that an exception handler guards.
#[derive(Debug)]
pub struct ExceptionTableEntry {
    pub range_pc: core::ops::Range<u16>,
    pub handler_pc: u16,
    pub catch_type: u16,
}

/// An instruction. The target of a branch is the index of another instruction.
#[allow(non_camel_case_types)]
#[derive(Debug)]
pub enum Instruction {
    Nop,
    Aconst_null,
    Iconst_m1,
    Iconst_0,
    Iconst_1,
    Iconst_2,
    Iconst_3,
    Iconst_4,
    Iconst_5,
    Lconst_0,
    Lconst_1,
    Fconst_0,
    Fconst_1,
    Fconst_2,
    Dconst_0,
    Dconst_1,
    Bipush(i8),
    Sipush(i16),
    Ldc(u8),
    Ldc_w(u16),
    Ldc2_w(u16),
    Iload(u8),
    Lload(u8),
    Fload(u8),
    Dload(u8),
    Aload(u8),
    Iload_0,
    Iload_1,
    Iload_2,
    Iload_3,
    Lload_0,
    Lload_1,
    Lload_2,
    Lload_3,
    Fload_0,
    Fload_1,
    Fload_2,
    Fload_3,
    Dload_0,
    Dload_1,
    Dload_2,
    Dload_3,
    Aload_0,
    Aload_1,
    Aload_2,
    Aload_3,
    Iaload,
    Laload,
    Faload,
    Daload,
    Aaload,
    Baload,
    Caload,
    Saload,
    Istore(u8),
    Lstore(u8),
    Fstore(u8),
    Dstore(u8),
    Astore(u8),
    Istore_0,
    Istore_1,
    Istore_2,
    Istore_3,
    Lstore_0,
    Lstore_1,
    Lstore_2,
    Lstore_3,
    Fstore_0,
    Fstore_1,
    Fstore_2,
    Fstore_3,
    Dstore_0,
    Dstore_1,
    Dstore_2,
    Dstore_3,
    Astore_0,
    Astore_1,
    Astore_2,
    Astore_3,
    Iastore,
    Lastore,
    Fastore,
    Dastore,
    Aastore,
    Bastore,
    Castore,
    Sastore,
    Pop,
    Pop2,
    Dup,
    Dup_x1,
    Dup_x2,
    Dup2,
    Dup2_x1,
    Dup2_x2,
    Swap,
    Iadd,
    Ladd,
    Fadd,
    Dadd,
    Isub,
    Lsub,
    Fsub,
    Dsub,
    Imul,
    Lmul,
    Fmul,
    Dmul,
    Idiv,
    Ldiv,
    Fdiv,
    Ddiv,
    Irem,
    Lrem,
    Frem,
    Drem,
    Ineg,
    Lneg,
    Fneg,
    Dneg,
    Ishl,
    Lshl,
    Ishr,
    Lshr,
    Iushr,
    Lushr,
    Iand,
    Land,
    Ior,
    Lor,
    Ixor,
    Lxor,
    Iinc(u8, i8),
    I2l,
    I2f,
    I2d,
    L2i,
    L2f,
    L2d,
    F2i,
    F2l,
    F2d,
    D2i,
    D2l,
    D2f,
    I2b,
    I2c,
    I2s,
    Lcmp,
    Fcmpl,
    Fcmpg,
    Dcmpl,
    Dcmpg,
    Ifeq(u16),
    Ifne(u16),
    Iflt(u16),
    Ifge(u16),
    Ifgt(u16),
    Ifle(u16),
    If_icmpeq(u16),
    If_icmpne(u16),
    If_icmplt(u16),
    If_icmpge(u16),
    If_icmpgt(u16),
    If_icmple(u16),
    If_acmpeq(u16),
    If_acmpne(u16),
    Goto(u16),
    Jsr(u16),
    Ret(u8),
    Tableswitch(Box<TableSwitch>),
    Lookupswitch(Box<LookupSwitch>),
    Ireturn,
    Lreturn,
    Freturn,
    Dreturn,
    Areturn,
    Return,
    Getstatic(u16),
    Putstatic(u16),
    Getfield(u16),
    Putfield(u16),
    Invokevirtual(u16),
    Invokespecial(u16),
    Invokestatic(u16),
    Invokeinterface(u16, u8),
    Invokedynamic(u16),
    New(u16),
    Newarray(ArrayType),
    Anewarray(u16),
    Arraylength,
    Athrow,
    Checkcast(u16),
    Instanceof(u16),
    Monitorenter,
    Monitorexit,
    Wide,
    Multianewarray(u16, u8),
    Ifnull(u16),
    Ifnonnull(u16),
    Goto_w(i32),
    Jsr_w(i32),
    Breakpoint,
    Impdep1,
    Impdep2,
    Iload_w(u16),
    Lload_w(u16),
    Fload_w(u16),
    Dload_w(u16),
    Aload_w(u16),
    Istore_w(u16),
    Lstore_w(u16),
    Fstore_w(u16),
    Dstore_w(u16),
    Astore_w(u16),
    Iinc_w(u16, i16),
    Ret_w(u16),
}

/// The slots that an instruction pops and pushes, where the opcode alone tells.
pub open spec fn fixed_effect(instruction: Instruction) -> Option<(u16, u16)> {
    match instruction {
        Instruction::Nop
        | Instruction::Iinc(..)
        | Instruction::Iinc_w(..)
        | Instruction::Goto(..)
        | Instruction::Goto_w(..)
        | Instruction::Return
        | Instruction::Ret(..)
        | Instruction::Ret_w(..)
        | Instruction::Wide
        | Instruction::Breakpoint
        | Instruction::Impdep1
        | Instruction::Impdep2 => Some((0, 0)),
        Instruction::Aconst_null
        | Instruction::Iconst_m1
        | Instruction::Iconst_0
        | Instruction::Iconst_1
        | Instruction::Iconst_2
        | Instruction::Iconst_3
        | Instruction::Iconst_4
        | Instruction::Iconst_5
        | Instruction::Fconst_0
        | Instruction::Fconst_1
        | Instruction::Fconst_2
        | Instruction::Bipush(..)
        | Instruction::Sipush(..)
        | Instruction::Ldc(..)
        | Instruction::Ldc_w(..)
        | Instruction::Iload(..)
        | Instruction::Iload_0
        | Instruction::Iload_1
        | Instruction::Iload_2
        | Instruction::Iload_3
        | Instruction::Iload_w(..)
        | Instruction::Fload(..)
        | Instruction::Fload_0
        | Instruction::Fload_1
        | Instruction::Fload_2
        | Instruction::Fload_3
        | Instruction::Fload_w(..)
        | Instruction::Aload(..)
        | Instruction::Aload_0
        | Instruction::Aload_1
        | Instruction::Aload_2
        | Instruction::Aload_3
        | Instruction::Aload_w(..)
        | Instruction::New(..)
        | Instruction::Jsr(..)
        | Instruction::Jsr_w(..) => Some((0, 1)),
        Instruction::Lconst_0
        | Instruction::Lconst_1
        | Instruction::Dconst_0
        | Instruction::Dconst_1
        | Instruction::Ldc2_w(..)
        | Instruction::Lload(..)
        | Instruction::Lload_0
        | Instruction::Lload_1
        | Instruction::Lload_2
        | Instruction::Lload_3
        | Instruction::Lload_w(..)
        | Instruction::Dload(..)
        | Instruction::Dload_0
        | Instruction::Dload_1
        | Instruction::Dload_2
        | Instruction::Dload_3
        | Instruction::Dload_w(..) => Some((0, 2)),
        Instruction::Istore(..)
        | Instruction::Istore_0
        | Instruction::Istore_1
        | Instruction::Istore_2
        | Instruction::Istore_3
        | Instruction::Istore_w(..)
        | Instruction::Fstore(..)
        | Instruction::Fstore_0
        | Instruction::Fstore_1
        | Instruction::Fstore_2
        | Instruction::Fstore_3
        | Instruction::Fstore_w(..)
        | Instruction::Astore(..)
        | Instruction::Astore_0
        | Instruction::Astore_1
        | Instruction::Astore_2
        | Instruction::Astore_3
        | Instruction::Astore_w(..)
        | Instruction::Pop
        | Instruction::Ifeq(..)
        | Instruction::Ifne(..)
        | Instruction::Iflt(..)
        | Instruction::Ifge(..)
        | Instruction::Ifgt(..)
        | Instruction::Ifle(..)
        | Instruction::Ifnull(..)
        | Instruction::Ifnonnull(..)
        | Instruction::Tableswitch(..)
        | Instruction::Lookupswitch(..)
        | Instruction::Ireturn
        | Instruction::Freturn
        | Instruction::Areturn
        | Instruction::Athrow
        | Instruction::Monitorenter
        | Instruction::Monitorexit => Some((1, 0)),
        Instruction::Lstore(..)
        | Instruction::Lstore_0
        | Instruction::Lstore_1
        | Instruction::Lstore_2
        | Instruction::Lstore_3
        | Instruction::Lstore_w(..)
        | Instruction::Dstore(..)
        | Instruction::Dstore_0
        | Instruction::Dstore_1
        | Instruction::Dstore_2
        | Instruction::Dstore_3
        | Instruction::Dstore_w(..)
        | Instruction::Pop2
        | Instruction::If_icmpeq(..)
        | Instruction::If_icmpne(..)
        | Instruction::If_icmplt(..)
        | Instruction::If_icmpge(..)
        | Instruction::If_icmpgt(..)
        | Instruction::If_icmple(..)
        | Instruction::If_acmpeq(..)
        | Instruction::If_acmpne(..)
        | Instruction::Lreturn
        | Instruction::Dreturn => Some((2, 0)),
        Instruction::Iastore
        | Instruction::Fastore
        | Instruction::Aastore
        | Instruction::Bastore
        | Instruction::Castore
        | Instruction::Sastore => Some((3, 0)),
        Instruction::Lastore
        | Instruction::Dastore => Some((4, 0)),
        Instruction::Ineg
        | Instruction::Fneg
        | Instruction::I2f
        | Instruction::F2i
        | Instruction::I2b
        | Instruction::I2c
        | Instruction::I2s
        | Instruction::Newarray(..)
        | Instruction::Anewarray(..)
        | Instruction::Arraylength
        | Instruction::Checkcast(..)
        | Instruction::Instanceof(..) => Some((1, 1)),
        Instruction::I2l
        | Instruction::I2d
        | Instruction::F2l
        | Instruction::F2d
        | Instruction::Dup => Some((1, 2)),
        Instruction::L2i
        | Instruction::L2f
        | Instruction::D2i
        | Instruction::D2f
        | Instruction::Iaload
        | Instruction::Faload
        | Instruction::Aaload
        | Instruction::Baload
        | Instruction::Caload
        | Instruction::Saload
        | Instruction::Iadd
        | Instruction::Isub
        | Instruction::Imul
        | Instruction::Idiv
        | Instruction::Irem
        | Instruction::Ishl
        | Instruction::Ishr
        | Instruction::Iushr
        | Instruction::Iand
        | Instruction::Ior
        | Instruction::Ixor
        | Instruction::Fadd
        | Instruction::Fsub
        | Instruction::Fmul
        | Instruction::Fdiv
        | Instruction::Frem
        | Instruction::Fcmpl
        | Instruction::Fcmpg => Some((2, 1)),
        Instruction::Lneg
        | Instruction::Dneg
        | Instruction::L2d
        | Instruction::D2l
        | Instruction::Laload
        | Instruction::Daload
        | Instruction::Swap => Some((2, 2)),
        Instruction::Dup_x1 => Some((2, 3)),
        Instruction::Dup2 => Some((2, 4)),
        Instruction::Lshl
        | Instruction::Lshr
        | Instruction::Lushr => Some((3, 2)),
        Instruction::Dup_x2 => Some((3, 4)),
        Instruction::Dup2_x1 => Some((3, 5)),
        Instruction::Lcmp
        | Instruction::Dcmpl
        | Instruction::Dcmpg => Some((4, 1)),
        Instruction::Ladd
        | Instruction::Lsub
        | Instruction::Lmul
        | Instruction::Ldiv
        | Instruction::Lrem
        | Instruction::Land
        | Instruction::Lor
        | Instruction::Lxor
        | Instruction::Dadd
        | Instruction::Dsub
        | Instruction::Dmul
        | Instruction::Ddiv
        | Instruction::Drem => Some((4, 2)),
        Instruction::Dup2_x2 => Some((4, 6)),
        _ => None,
    }
}

/// The slots that an instruction pops and then pushes.
pub open spec fn effect<'a>(instruction: Instruction, constants: Seq<Constant<'a>>) -> Result<
    (u16, u16),
    Fault,
> {
    match fixed_effect(instruction) {
        Some(slots) => Ok(slots),
        None => match instruction {
            Instruction::Getstatic(index) => match field_width(constants, index) {
                Ok(slots) => Ok((0, slots)),
                Err(fault) => Err(fault),
            },
            Instruction::Putstatic(index) => match field_width(constants, index) {
                Ok(slots) => Ok((slots, 0)),
                Err(fault) => Err(fault),
            },
            Instruction::Getfield(index) => match field_width(constants, index) {
                Ok(slots) => Ok((1, slots)),
                Err(fault) => Err(fault),
            },
            Instruction::Putfield(index) => match field_width(constants, index) {
                Ok(slots) => Ok(((slots + 1) as u16, 0)),
                Err(fault) => Err(fault),
            },
            Instruction::Invokevirtual(index) => call_widths(
                constants,
                index,
                MemberKind::Method,
                1,
            ),
            Instruction::Invokespecial(index) => call_widths(
                constants,
                index,
                MemberKind::AnyMethod,
                1,
            ),
            Instruction::Invokestatic(index) => call_widths(
                constants,
                index,
                MemberKind::AnyMethod,
                0,
            ),
            Instruction::Invokeinterface(index, _) => call_widths(
                constants,
                index,
                MemberKind::InterfaceMethod,
                1,
            ),
            Instruction::Invokedynamic(index) => call_widths(
                constants,
                index,
                MemberKind::DynamicCall,
                0,
            ),
            Instruction::Multianewarray(_, dimensions) => Ok((dimensions as u16, 1)),
            _ => Ok((0, 0)),
        },
    }
}

/// The slots of the field that a constant-pool entry refers to.
pub open spec fn field_width<'a>(constants: Seq<Constant<'a>>, index: u16) -> Result<u16, Fault> {
    match member_descriptor(constants, index, MemberKind::Field) {
        Ok(descriptor) => field_slots(descriptor),
        Err(fault) => Err(fault),
    }
}

/// The slots that a call of the method that a constant-pool entry refers to pops and pushes.
pub open spec fn call_widths<'a>(
    constants: Seq<Constant<'a>>,
    index: u16,
    kind: MemberKind,
    receiver: u16,
) -> Result<(u16, u16), Fault> {
    match member_descriptor(constants, index, kind) {
        Ok(descriptor) => call_slots(descriptor, receiver),
        Err(fault) => Err(fault),
    }
}

fn read_field_width(constant_pool: &ConstantPool<'_>, index: u16) -> (slots: Result<u16, Error>)
    ensures
        agrees(slots, field_width(constant_pool@, index)),
        slots matches Ok(n) ==> n <= 2,
{
    match constant_pool.try_get_member_descriptor(index, MemberKind::Field) {
        Ok(descriptor) => field_descriptor_slots(descriptor),
        Err(error) => Err(error),
    }
}

fn read_call_widths(
    constant_pool: &ConstantPool<'_>,
    index: u16,
    kind: MemberKind,
    receiver: u16,
) -> (slots: Result<(u16, u16), Error>)
    ensures
        agrees(slots, call_widths(constant_pool@, index, kind, receiver)),
{
    match constant_pool.try_get_member_descriptor(index, kind) {
        Ok(descriptor) => method_descriptor_slots(descriptor, receiver),
        Err(error) => Err(error),
    }
}

impl Instruction {
    fn fixed_stack_effect(&self) -> (slots: Option<(u16, u16)>)
        ensures
            slots == fixed_effect(*self),
    {
        match self {
        Instruction::Nop
        | Instruction::Iinc(..)
        | Instruction::Iinc_w(..)
        | Instruction::Goto(..)
        | Instruction::Goto_w(..)
        | Instruction::Return
        | Instruction::Ret(..)
        | Instruction::Ret_w(..)
        | Instruction::Wide
        | Instruction::Breakpoint
        | Instruction::Impdep1
        | Instruction::Impdep2 => Some((0, 0)),
        Instruction::Aconst_null
        | Instruction::Iconst_m1
        | Instruction::Iconst_0
        | Instruction::Iconst_1
        | Instruction::Iconst_2
        | Instruction::Iconst_3
        | Instruction::Iconst_4
        | Instruction::Iconst_5
        | Instruction::Fconst_0
        | Instruction::Fconst_1
        | Instruction::Fconst_2
        | Instruction::Bipush(..)
        | Instruction::Sipush(..)
        | Instruction::Ldc(..)
        | Instruction::Ldc_w(..)
        | Instruction::Iload(..)
        | Instruction::Iload_0
        | Instruction::Iload_1
        | Instruction::Iload_2
        | Instruction::Iload_3
        | Instruction::Iload_w(..)
        | Instruction::Fload(..)
        | Instruction::Fload_0
        | Instruction::Fload_1
        | Instruction::Fload_2
        | Instruction::Fload_3
        | Instruction::Fload_w(..)
        | Instruction::Aload(..)
        | Instruction::Aload_0
        | Instruction::Aload_1
        | Instruction::Aload_2
        | Instruction::Aload_3
        | Instruction::Aload_w(..)
        | Instruction::New(..)
        | Instruction::Jsr(..)
        | Instruction::Jsr_w(..) => Some((0, 1)),
        Instruction::Lconst_0
        | Instruction::Lconst_1
        | Instruction::Dconst_0
        | Instruction::Dconst_1
        | Instruction::Ldc2_w(..)
        | Instruction::Lload(..)
        | Instruction::Lload_0
        | Instruction::Lload_1
        | Instruction::Lload_2
        | Instruction::Lload_3
        | Instruction::Lload_w(..)
        | Instruction::Dload(..)
        | Instruction::Dload_0
        | Instruction::Dload_1
        | Instruction::Dload_2
        | Instruction::Dload_3
        | Instruction::Dload_w(..) => Some((0, 2)),
        Instruction::Istore(..)
        | Instruction::Istore_0
        | Instruction::Istore_1
        | Instruction::Istore_2
        | Instruction::Istore_3
        | Instruction::Istore_w(..)
        | Instruction::Fstore(..)
        | Instruction::Fstore_0
        | Instruction::Fstore_1
        | Instruction::Fstore_2
        | Instruction::Fstore_3
        | Instruction::Fstore_w(..)
        | Instruction::Astore(..)
        | Instruction::Astore_0
        | Instruction::Astore_1
        | Instruction::Astore_2
        | Instruction::Astore_3
        | Instruction::Astore_w(..)
        | Instruction::Pop
        | Instruction::Ifeq(..)
        | Instruction::Ifne(..)
        | Instruction::Iflt(..)
        | Instruction::Ifge(..)
        | Instruction::Ifgt(..)
        | Instruction::Ifle(..)
        | Instruction::Ifnull(..)
        | Instruction::Ifnonnull(..)
        | Instruction::Tableswitch(..)
        | Instruction::Lookupswitch(..)
        | Instruction::Ireturn
        | Instruction::Freturn
        | Instruction::Areturn
        | Instruction::Athrow
        | Instruction::Monitorenter
        | Instruction::Monitorexit => Some((1, 0)),
        Instruction::Lstore(..)
        | Instruction::Lstore_0
        | Instruction::Lstore_1
        | Instruction::Lstore_2
        | Instruction::Lstore_3
        | Instruction::Lstore_w(..)
        | Instruction::Dstore(..)
        | Instruction::Dstore_0
        | Instruction::Dstore_1
        | Instruction::Dstore_2
        | Instruction::Dstore_3
        | Instruction::Dstore_w(..)
        | Instruction::Pop2
        | Instruction::If_icmpeq(..)
        | Instruction::If_icmpne(..)
        | Instruction::If_icmplt(..)
        | Instruction::If_icmpge(..)
        | Instruction::If_icmpgt(..)
        | Instruction::If_icmple(..)
        | Instruction::If_acmpeq(..)
        | Instruction::If_acmpne(..)
        | Instruction::Lreturn
        | Instruction::Dreturn => Some((2, 0)),
        Instruction::Iastore
        | Instruction::Fastore
        | Instruction::Aastore
        | Instruction::Bastore
        | Instruction::Castore
        | Instruction::Sastore => Some((3, 0)),
        Instruction::Lastore
        | Instruction::Dastore => Some((4, 0)),
        Instruction::Ineg
        | Instruction::Fneg
        | Instruction::I2f
        | Instruction::F2i
        | Instruction::I2b
        | Instruction::I2c
        | Instruction::I2s
        | Instruction::Newarray(..)
        | Instruction::Anewarray(..)
        | Instruction::Arraylength
        | Instruction::Checkcast(..)
        | Instruction::Instanceof(..) => Some((1, 1)),
        Instruction::I2l
        | Instruction::I2d
        | Instruction::F2l
        | Instruction::F2d
        | Instruction::Dup => Some((1, 2)),
        Instruction::L2i
        | Instruction::L2f
        | Instruction::D2i
        | Instruction::D2f
        | Instruction::Iaload
        | Instruction::Faload
        | Instruction::Aaload
        | Instruction::Baload
        | Instruction::Caload
        | Instruction::Saload
        | Instruction::Iadd
        | Instruction::Isub
        | Instruction::Imul
        | Instruction::Idiv
        | Instruction::Irem
        | Instruction::Ishl
        | Instruction::Ishr
        | Instruction::Iushr
        | Instruction::Iand
        | Instruction::Ior
        | Instruction::Ixor
        | Instruction::Fadd
        | Instruction::Fsub
        | Instruction::Fmul
        | Instruction::Fdiv
        | Instruction::Frem
        | Instruction::Fcmpl
        | Instruction::Fcmpg => Some((2, 1)),
        Instruction::Lneg
        | Instruction::Dneg
        | Instruction::L2d
        | Instruction::D2l
        | Instruction::Laload
        | Instruction::Daload
        | Instruction::Swap => Some((2, 2)),
        Instruction::Dup_x1 => Some((2, 3)),
        Instruction::Dup2 => Some((2, 4)),
        Instruction::Lshl
        | Instruction::Lshr
        | Instruction::Lushr => Some((3, 2)),
        Instruction::Dup_x2 => Some((3, 4)),
        Instruction::Dup2_x1 => Some((3, 5)),
        Instruction::Lcmp
        | Instruction::Dcmpl
        | Instruction::Dcmpg => Some((4, 1)),
        Instruction::Ladd
        | Instruction::Lsub
        | Instruction::Lmul
        | Instruction::Ldiv
        | Instruction::Lrem
        | Instruction::Land
        | Instruction::Lor
        | Instruction::Lxor
        | Instruction::Dadd
        | Instruction::Dsub
        | Instruction::Dmul
        | Instruction::Ddiv
        | Instruction::Drem => Some((4, 2)),
        Instruction::Dup2_x2 => Some((4, 6)),
        _ => None,
        }
    }

    /// Tells how many slots the instruction pops from the operand stack and how many it then pushes.
    pub fn stack_effect(&self, constant_pool: &ConstantPool<'_>) -> (slots: Result<
        (u16, u16),
        Error,
    >)
        ensures
            agrees(slots, effect(*self, constant_pool@)),
    {
        if let Some(slots) = self.fixed_stack_effect() {
            return Ok(slots);
        }
        match self {
            Instruction::Getstatic(index) => match read_field_width(constant_pool, *index) {
                Ok(slots) => Ok((0, slots)),
                Err(error) => Err(error),
            },
            Instruction::Putstatic(index) => match read_field_width(constant_pool, *index) {
                Ok(slots) => Ok((slots, 0)),
                Err(error) => Err(error),
            },
            Instruction::Getfield(index) => match read_field_width(constant_pool, *index) {
                Ok(slots) => Ok((1, slots)),
                Err(error) => Err(error),
            },
            Instruction::Putfield(index) => match read_field_width(constant_pool, *index) {
                Ok(slots) => Ok((slots + 1, 0)),
                Err(error) => Err(error),
            },
            Instruction::Invokevirtual(index) => read_call_widths(
                constant_pool,
                *index,
                MemberKind::Method,
                1,
            ),
            Instruction::Invokespecial(index) => read_call_widths(
                constant_pool,
                *index,
                MemberKind::AnyMethod,
                1,
            ),
            Instruction::Invokestatic(index) => read_call_widths(
                constant_pool,
                *index,
                MemberKind::AnyMethod,
                0,
            ),
            Instruction::Invokeinterface(index, _) => read_call_widths(
                constant_pool,
                *index,
                MemberKind::InterfaceMethod,
                1,
            ),
            Instruction::Invokedynamic(index) => read_call_widths(
                constant_pool,
                *index,
                MemberKind::DynamicCall,
                0,
            ),
            Instruction::Multianewarray(_, dimensions) => Ok((u16::from(*dimensions), 1)),
            _ => Ok((0, 0)),
        }
    }
}

/// The first local variable that an instruction writes, and how many it writes.
pub open spec fn written(instruction: Instruction) -> Option<(u16, u16)> {
    match instruction {
        Instruction::Istore(index)
        | Instruction::Fstore(index)
        | Instruction::Astore(index) => Some((index as u16, 1)),
        Instruction::Lstore(index) | Instruction::Dstore(index) => Some((index as u16, 2)),
        Instruction::Istore_0 | Instruction::Fstore_0 | Instruction::Astore_0 => Some((0, 1)),
        Instruction::Istore_1 | Instruction::Fstore_1 | Instruction::Astore_1 => Some((1, 1)),
        Instruction::Istore_2 | Instruction::Fstore_2 | Instruction::Astore_2 => Some((2, 1)),
        Instruction::Istore_3 | Instruction::Fstore_3 | Instruction::Astore_3 => Some((3, 1)),
        Instruction::Lstore_0 | Instruction::Dstore_0 => Some((0, 2)),
        Instruction::Lstore_1 | Instruction::Dstore_1 => Some((1, 2)),
        Instruction::Lstore_2 | Instruction::Dstore_2 => Some((2, 2)),
        Instruction::Lstore_3 | Instruction::Dstore_3 => Some((3, 2)),
        Instruction::Istore_w(index)
        | Instruction::Fstore_w(index)
        | Instruction::Astore_w(index) => Some((index, 1)),
        Instruction::Lstore_w(index) | Instruction::Dstore_w(index) => Some((index, 2)),
        _ => None,
    }
}

/// The local variable that an `astore` writes.
pub open spec fn stored_reference(instruction: Instruction) -> Option<u16> {
    match instruction {
        Instruction::Astore(index) => Some(index as u16),
        Instruction::Astore_0 => Some(0),
        Instruction::Astore_1 => Some(1),
        Instruction::Astore_2 => Some(2),
        Instruction::Astore_3 => Some(3),
        Instruction::Astore_w(index) => Some(index),
        _ => None,
    }
}

/// The first local variable that an instruction reads as a value, and how many it reads.
pub open spec fn read(instruction: Instruction) -> Option<(u16, u16)> {
    match instruction {
        Instruction::Iload(index)
        | Instruction::Fload(index)
        | Instruction::Aload(index)
        | Instruction::Iinc(index, _) => Some((index as u16, 1)),
        Instruction::Lload(index) | Instruction::Dload(index) => Some((index as u16, 2)),
        Instruction::Iload_0 | Instruction::Fload_0 | Instruction::Aload_0 => Some((0, 1)),
        Instruction::Iload_1 | Instruction::Fload_1 | Instruction::Aload_1 => Some((1, 1)),
        Instruction::Iload_2 | Instruction::Fload_2 | Instruction::Aload_2 => Some((2, 1)),
        Instruction::Iload_3 | Instruction::Fload_3 | Instruction::Aload_3 => Some((3, 1)),
        Instruction::Lload_0 | Instruction::Dload_0 => Some((0, 2)),
        Instruction::Lload_1 | Instruction::Dload_1 => Some((1, 2)),
        Instruction::Lload_2 | Instruction::Dload_2 => Some((2, 2)),
        Instruction::Lload_3 | Instruction::Dload_3 => Some((3, 2)),
        Instruction::Iload_w(index)
        | Instruction::Fload_w(index)
        | Instruction::Aload_w(index)
        | Instruction::Iinc_w(index, _) => Some((index, 1)),
        Instruction::Lload_w(index) | Instruction::Dload_w(index) => Some((index, 2)),
        _ => None,
    }
}

/// Tells which local variables an instruction writes: the first of them and their number.
pub fn written_local(instruction: &Instruction) -> (local: Option<(u16, u16)>)
    ensures
        local == written(*instruction),
{
    match instruction {
        Instruction::Istore(index)
        | Instruction::Fstore(index)
        | Instruction::Astore(index) => Some((u16::from(*index), 1)),
        Instruction::Lstore(index) | Instruction::Dstore(index) => Some((u16::from(*index), 2)),
        Instruction::Istore_0 | Instruction::Fstore_0 | Instruction::Astore_0 => Some((0, 1)),
        Instruction::Istore_1 | Instruction::Fstore_1 | Instruction::Astore_1 => Some((1, 1)),
        Instruction::Istore_2 | Instruction::Fstore_2 | Instruction::Astore_2 => Some((2, 1)),
        Instruction::Istore_3 | Instruction::Fstore_3 | Instruction::Astore_3 => Some((3, 1)),
        Instruction::Lstore_0 | Instruction::Dstore_0 => Some((0, 2)),
        Instruction::Lstore_1 | Instruction::Dstore_1 => Some((1, 2)),
        Instruction::Lstore_2 | Instruction::Dstore_2 => Some((2, 2)),
        Instruction::Lstore_3 | Instruction::Dstore_3 => Some((3, 2)),
        Instruction::Istore_w(index)
        | Instruction::Fstore_w(index)
        | Instruction::Astore_w(index) => Some((*index, 1)),
        Instruction::Lstore_w(index) | Instruction::Dstore_w(index) => Some((*index, 2)),
        _ => None,
    }
}

/// Tells which local variable an `astore` writes.
pub fn astore_index(instruction: &Instruction) -> (local: Option<u16>)
    ensures
        local == stored_reference(*instruction),
{
    match instruction {
        Instruction::Astore(index) => Some(u16::from(*index)),
        Instruction::Astore_0 => Some(0),
        Instruction::Astore_1 => Some(1),
        Instruction::Astore_2 => Some(2),
        Instruction::Astore_3 => Some(3),
        Instruction::Astore_w(index) => Some(*index),
        _ => None,
    }
}

/// Tells which local variables an instruction reads as values: the first of them and their number.
pub fn read_local(instruction: &Instruction) -> (local: Option<(u16, u16)>)
    ensures
        local == read(*instruction),
{
    match instruction {
        Instruction::Iload(index)
        | Instruction::Fload(index)
        | Instruction::Aload(index)
        | Instruction::Iinc(index, _) => Some((u16::from(*index), 1)),
        Instruction::Lload(index) | Instruction::Dload(index) => Some((u16::from(*index), 2)),
        Instruction::Iload_0 | Instruction::Fload_0 | Instruction::Aload_0 => Some((0, 1)),
        Instruction::Iload_1 | Instruction::Fload_1 | Instruction::Aload_1 => Some((1, 1)),
        Instruction::Iload_2 | Instruction::Fload_2 | Instruction::Aload_2 => Some((2, 1)),
        Instruction::Iload_3 | Instruction::Fload_3 | Instruction::Aload_3 => Some((3, 1)),
        Instruction::Lload_0 | Instruction::Dload_0 => Some((0, 2)),
        Instruction::Lload_1 | Instruction::Dload_1 => Some((1, 2)),
        Instruction::Lload_2 | Instruction::Dload_2 => Some((2, 2)),
        Instruction::Lload_3 | Instruction::Dload_3 => Some((3, 2)),
        Instruction::Iload_w(index)
        | Instruction::Fload_w(index)
        | Instruction::Aload_w(index)
        | Instruction::Iinc_w(index, _) => Some((*index, 1)),
        Instruction::Lload_w(index) | Instruction::Dload_w(index) => Some((*index, 2)),
        _ => None,
    }
}

} // verus!
