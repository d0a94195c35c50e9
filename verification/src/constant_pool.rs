//! The constant pool, as far as it tells what instructions do to the operand stack.
use vstd::prelude::*;

use crate::error::{agrees, Error, Fault};

verus! {

/// An entry of the constant pool. Indices refer to other entries, counted from one.
#[derive(Clone, Copy, Debug, PartialEq, Eq)]
pub enum Constant<'a> {
    Utf8(&'a str),
    Class(u16),
    NameAndType { name_index: u16, descriptor_index: u16 },
    FieldRef { class_index: u16, name_and_type_index: u16 },
    MethodRef { class_index: u16, name_and_type_index: u16 },
    InterfaceMethodRef { class_index: u16, name_and_type_index: u16 },
    InvokeDynamic { bootstrap_method_attr_index: u16, name_and_type_index: u16 },
}

/// A constant pool. Its first entry has the index one.
#[derive(Debug)]
pub struct ConstantPool<'a> {
    constants: Vec<Constant<'a>>,
}

impl<'a> View for ConstantPool<'a> {
    type V = Seq<Constant<'a>>;

    /// The entries, without the unused index zero.
    closed spec fn view(&self) -> Seq<Constant<'a>> {
        self.constants@
    }
}

/// The entry at an index.
pub open spec fn entry<'a>(constants: Seq<Constant<'a>>, index: u16) -> Result<
    Constant<'a>,
    Fault,
> {
    if 1 <= index <= constants.len() {
        Ok(constants[index - 1])
    } else {
        Err(Fault::InvalidConstantPoolIndex(index))
    }
}

/// The text at an index.
pub open spec fn utf8<'a>(constants: Seq<Constant<'a>>, index: u16) -> Result<Seq<char>, Fault> {
    match entry(constants, index) {
        Ok(Constant::Utf8(text)) => Ok(text@),
        Ok(_) => Err(Fault::InvalidConstantPoolIndexType(index)),
        Err(fault) => Err(fault),
    }
}

/// The descriptor of the name-and-type entry at an index.
pub open spec fn descriptor_of<'a>(constants: Seq<Constant<'a>>, index: u16) -> Result<
    Seq<char>,
    Fault,
> {
    match entry(constants, index) {
        Ok(Constant::NameAndType { name_index: _, descriptor_index }) => utf8(
            constants,
            descriptor_index,
        ),
        Ok(_) => Err(Fault::InvalidConstantPoolIndexType(index)),
        Err(fault) => Err(fault),
    }
}

/// Which members a reference may be to.
#[derive(Clone, Copy, Debug, PartialEq, Eq, Structural)]
pub enum MemberKind {
    Field,
    Method,
    InterfaceMethod,
    AnyMethod,
    DynamicCall,
}

/// The name-and-type index of an entry, if the entry is a reference to a member of the kind.
pub open spec fn member_index<'a>(constant: Constant<'a>, kind: MemberKind) -> Option<u16> {
    match constant {
        Constant::FieldRef { class_index: _, name_and_type_index } if kind is Field => Some(
            name_and_type_index,
        ),
        Constant::MethodRef { class_index: _, name_and_type_index } if kind is Method
            || kind is AnyMethod => Some(name_and_type_index),
        Constant::InterfaceMethodRef { class_index: _, name_and_type_index } if kind
            is InterfaceMethod || kind is AnyMethod => Some(name_and_type_index),
        Constant::InvokeDynamic {
            bootstrap_method_attr_index: _,
            name_and_type_index,
        } if kind is DynamicCall => Some(name_and_type_index),
        _ => None,
    }
}

/// The descriptor of the member that the entry at an index refers to.
pub open spec fn member_descriptor<'a>(
    constants: Seq<Constant<'a>>,
    index: u16,
    kind: MemberKind,
) -> Result<Seq<char>, Fault> {
    match entry(constants, index) {
        Ok(constant) => match member_index(constant, kind) {
            Some(name_and_type_index) => descriptor_of(constants, name_and_type_index),
            None => Err(Fault::InvalidConstantPoolIndexType(index)),
        },
        Err(fault) => Err(fault),
    }
}

/// How many more entries can be indexed.
pub open spec fn room<'a>(constants: Seq<Constant<'a>>) -> int {
    if constants.len() < u16::MAX {
        u16::MAX - constants.len()
    } else {
        0
    }
}

/// Entries were added in turn, as far as there was room; the result is the index of the last, or an
/// error if not all of them could be indexed.
pub open spec fn appended<'a>(
    before: Seq<Constant<'a>>,
    after: Seq<Constant<'a>>,
    added: Seq<Constant<'a>>,
    result: Result<u16, Error>,
) -> bool {
    if added.len() <= room(before) {
        &&& after == before + added
        &&& result matches Ok(index)
        &&& index == before.len() + added.len()
    } else {
        &&& after == before + added.take(room(before))
        &&& result matches Err(error)
        &&& error@ == Fault::IntegerConversion
    }
}

/// A text in a result says the same as a text in the model.
pub open spec fn reads<'a>(actual: Result<&'a str, Error>, expected: Result<Seq<char>, Fault>) -> bool {
    match (actual, expected) {
        (Ok(text), Ok(chars)) => text@ == chars,
        (Err(error), Err(fault)) => error@ == fault,
        _ => false,
    }
}

impl<'a> ConstantPool<'a> {
    /// A pool without entries.
    pub fn new() -> (pool: Self)
        ensures
            pool@ == Seq::<Constant<'a>>::empty(),
    {
        ConstantPool { constants: Vec::new() }
    }

    /// Adds an entry and returns its index.
    pub fn add(&mut self, constant: Constant<'a>) -> (index: Result<u16, Error>)
        ensures
            appended(old(self)@, final(self)@, seq![constant], index),
    {
        if self.constants.len() < 0xffff {
            self.constants.push(constant);
            assert(self@ =~= old(self)@ + seq![constant]);
            Ok(self.constants.len() as u16)
        } else {
            assert(self@ =~= old(self)@ + seq![constant].take(0));
            Err(Error::TryFromIntError)
        }
    }

    /// Adds a text.
    pub fn add_utf8(&mut self, text: &'a str) -> (index: Result<u16, Error>)
        ensures
            appended(old(self)@, final(self)@, seq![Constant::Utf8(text)], index),
    {
        self.add(Constant::Utf8(text))
    }

    /// Adds a class and, before it, its name.
    pub fn add_class(&mut self, name: &'a str) -> (index: Result<u16, Error>)
        ensures
            appended(
                old(self)@,
                final(self)@,
                seq![Constant::Utf8(name), Constant::Class((old(self)@.len() + 1) as u16)],
                index,
            ),
            index matches Ok(at) ==> (entry(final(self)@, at) matches Ok(Constant::Class(name_index))
                && utf8(final(self)@, name_index) == Ok::<Seq<char>, Fault>(name@)),
    {
        let ghost all = seq![Constant::Utf8(name), Constant::Class((self@.len() + 1) as u16)];
        let ghost before = self@;
        match self.add_utf8(name) {
            Ok(name_index) => {
                let index = self.add(Constant::Class(name_index));
                assert(before + all =~= before + seq![all[0]] + seq![all[1]]);
                assert(before + all.take(1) =~= before + seq![all[0]] + seq![all[1]].take(0));
                index
            },
            Err(error) => {
                assert(before + all.take(0) =~= before + seq![all[0]].take(0));
                Err(error)
            },
        }
    }

    /// Adds a name and a descriptor, and then the entry that pairs them.
    pub fn add_name_and_type(&mut self, name: &'a str, descriptor: &'a str) -> (index: Result<u16, Error>)
        ensures
            appended(
                old(self)@,
                final(self)@,
                name_and_type_entries(old(self)@.len(), name, descriptor),
                index,
            ),
            index matches Ok(at) ==> descriptor_of(final(self)@, at) == Ok::<Seq<char>, Fault>(
                descriptor@,
            ),
    {
        let ghost all = name_and_type_entries(self@.len(), name, descriptor);
        let ghost before = self@;
        let name_index = match self.add_utf8(name) {
            Ok(name_index) => name_index,
            Err(error) => {
                assert(before + all.take(0) =~= before + seq![all[0]].take(0));
                return Err(error);
            },
        };
        let descriptor_index = match self.add_utf8(descriptor) {
            Ok(descriptor_index) => descriptor_index,
            Err(error) => {
                assert(before + all.take(1) =~= before + seq![all[0]] + seq![all[1]].take(0));
                return Err(error);
            },
        };
        let index = self.add(Constant::NameAndType { name_index, descriptor_index });
        assert(before + all =~= before + seq![all[0]] + seq![all[1]] + seq![all[2]]);
        assert(before + all.take(2) =~= before + seq![all[0]] + seq![all[1]] + seq![all[2]].take(0));
        index
    }

    /// Adds a reference to a field of a class, with its name and descriptor before it.
    pub fn add_field_ref(
        &mut self,
        class_index: u16,
        name: &'a str,
        descriptor: &'a str,
    ) -> (index: Result<u16, Error>)
        ensures
            appended(
                old(self)@,
                final(self)@,
                name_and_type_entries(old(self)@.len(), name, descriptor).push(
                    Constant::FieldRef {
                        class_index,
                        name_and_type_index: (old(self)@.len() + 3) as u16,
                    },
                ),
                index,
            ),
            index matches Ok(at) ==> member_descriptor(final(self)@, at, MemberKind::Field) == Ok::<
                Seq<char>,
                Fault,
            >(descriptor@),
    {
        let ghost first = name_and_type_entries(self@.len(), name, descriptor);
        let ghost before = self@;
        match self.add_name_and_type(name, descriptor) {
            Ok(name_and_type_index) => {
                let constant = Constant::FieldRef { class_index, name_and_type_index };
                let index = self.add(constant);
                proof {
                    lemma_append_one(before, first, constant);
                }
                index
            },
            Err(error) => {
                proof {
                    let constant = Constant::FieldRef {
                        class_index,
                        name_and_type_index: (before.len() + 3) as u16,
                    };
                    assert(first.push(constant).take(room(before)) =~= first.take(room(before)));
                }
                Err(error)
            },
        }
    }

    /// Adds a reference to a method of a class, with its name and descriptor before it.
    pub fn add_method_ref(
        &mut self,
        class_index: u16,
        name: &'a str,
        descriptor: &'a str,
    ) -> (index: Result<u16, Error>)
        ensures
            appended(
                old(self)@,
                final(self)@,
                name_and_type_entries(old(self)@.len(), name, descriptor).push(
                    Constant::MethodRef {
                        class_index,
                        name_and_type_index: (old(self)@.len() + 3) as u16,
                    },
                ),
                index,
            ),
            index matches Ok(at) ==> member_descriptor(final(self)@, at, MemberKind::Method) == Ok::<
                Seq<char>,
                Fault,
            >(descriptor@),
    {
        let ghost first = name_and_type_entries(self@.len(), name, descriptor);
        let ghost before = self@;
        match self.add_name_and_type(name, descriptor) {
            Ok(name_and_type_index) => {
                let constant = Constant::MethodRef { class_index, name_and_type_index };
                let index = self.add(constant);
                proof {
                    lemma_append_one(before, first, constant);
                }
                index
            },
            Err(error) => {
                proof {
                    let constant = Constant::MethodRef {
                        class_index,
                        name_and_type_index: (before.len() + 3) as u16,
                    };
                    assert(first.push(constant).take(room(before)) =~= first.take(room(before)));
                }
                Err(error)
            },
        }
    }

    /// Reads the entry at an index.
    pub fn try_get(&self, index: u16) -> (constant: Result<Constant<'a>, Error>)
        ensures
            agrees(constant, entry(self@, index)),
    {
        let at = index as usize;
        if 1 <= at && at <= self.constants.len() {
            Ok(self.constants[at - 1])
        } else {
            Err(Error::InvalidConstantPoolIndex(index))
        }
    }

    /// Reads the text at an index.
    pub fn try_get_utf8(&self, index: u16) -> (text: Result<&'a str, Error>)
        ensures
            reads(text, utf8(self@, index)),
    {
        match self.try_get(index) {
            Ok(Constant::Utf8(text)) => Ok(text),
            Ok(_) => Err(Error::InvalidConstantPoolIndexType(index)),
            Err(error) => Err(error),
        }
    }

    /// Reads the descriptor of the member that the entry at an index refers to.
    pub fn try_get_member_descriptor(&self, index: u16, kind: MemberKind) -> (text: Result<&'a str, Error>)
        ensures
            reads(text, member_descriptor(self@, index, kind)),
    {
        let name_and_type_index = match self.try_get(index) {
            Ok(constant) => match name_and_type_index_of(constant, kind) {
                Some(name_and_type_index) => name_and_type_index,
                None => {
                    return Err(Error::InvalidConstantPoolIndexType(index));
                },
            },
            Err(error) => {
                return Err(error);
            },
        };
        match self.try_get(name_and_type_index) {
            Ok(Constant::NameAndType { name_index: _, descriptor_index }) => self.try_get_utf8(
                descriptor_index,
            ),
            Ok(_) => Err(Error::InvalidConstantPoolIndexType(name_and_type_index)),
            Err(error) => Err(error),
        }
    }
}

/// The entries of a name and a descriptor in a pool with so many entries before them.
pub open spec fn name_and_type_entries<'a>(count: nat, name: &'a str, descriptor: &'a str) -> Seq<
    Constant<'a>,
> {
    seq![
        Constant::Utf8(name),
        Constant::Utf8(descriptor),
        Constant::NameAndType {
            name_index: (count + 1) as u16,
            descriptor_index: (count + 2) as u16,
        },
    ]
}

proof fn lemma_append_one<'a>(before: Seq<Constant<'a>>, first: Seq<Constant<'a>>, last: Constant<'a>)
    ensures
        before + first.push(last) == before + first + seq![last],
        before + first.push(last).take(first.len() as int) == before + first + seq![last].take(0),
{
    assert(before + first.push(last) =~= before + first + seq![last]);
    assert(before + first.push(last).take(first.len() as int) =~= before + first + seq![last].take(
        0,
    ));
}

fn name_and_type_index_of<'a>(constant: Constant<'a>, kind: MemberKind) -> (index: Option<u16>)
    ensures
        index == member_index(constant, kind),
{
    match constant {
        Constant::FieldRef { class_index: _, name_and_type_index } => match kind {
            MemberKind::Field => Some(name_and_type_index),
            _ => None,
        },
        Constant::MethodRef { class_index: _, name_and_type_index } => match kind {
            MemberKind::Method | MemberKind::AnyMethod => Some(name_and_type_index),
            _ => None,
        },
        Constant::InterfaceMethodRef { class_index: _, name_and_type_index } => match kind {
            MemberKind::InterfaceMethod | MemberKind::AnyMethod => Some(name_and_type_index),
            _ => None,
        },
        Constant::InvokeDynamic { bootstrap_method_attr_index: _, name_and_type_index } => match kind {
            MemberKind::DynamicCall => Some(name_and_type_index),
            _ => None,
        },
        _ => None,
    }
}

} // verus!
