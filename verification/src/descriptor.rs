//! Field and method descriptors, read for the operand-stack slots that they stand for.
use vstd::prelude::*;

use crate::error::{agrees, Error, Fault};

verus! {

/// The letters of the primitive types.
pub open spec fn is_base_type(c: char) -> bool {
    c == 'B' || c == 'C' || c == 'D' || c == 'F' || c == 'I' || c == 'J' || c == 'S' || c == 'Z'
}

/// Where the first semicolon at or after a position stands.
pub open spec fn semicolon_from(text: Seq<char>, at: nat) -> Option<nat>
    decreases text.len() - at,
{
    if at >= text.len() {
        None
    } else if text[at as int] == ';' {
        Some(at)
    } else {
        semicolon_from(text, at + 1)
    }
}

/// The position just behind the field type that starts at a position: a primitive type is one letter,
/// a class type is an `L`, a name and a semicolon, and an array type is a bracket before a field type.
pub open spec fn field_type_end(text: Seq<char>, at: nat) -> Option<nat>
    decreases text.len() - at,
{
    if at >= text.len() {
        None
    } else if is_base_type(text[at as int]) {
        Some(at + 1)
    } else if text[at as int] == 'L' {
        match semicolon_from(text, at + 1) {
            Some(end) if end > at + 1 => Some(end + 1),
            _ => None,
        }
    } else if text[at as int] == '[' {
        field_type_end(text, at + 1)
    } else {
        None
    }
}

/// The slots of a value of the field type that starts with a letter: two for `long` and `double`.
pub open spec fn type_slots(first: char) -> nat {
    if first == 'J' || first == 'D' {
        2
    } else {
        1
    }
}

/// The slots of a value of the field type that a descriptor names.
pub open spec fn field_slots(descriptor: Seq<char>) -> Result<u16, Fault> {
    if field_type_end(descriptor, 0) == Some(descriptor.len()) {
        Ok(type_slots(descriptor[0]) as u16)
    } else {
        Err(Fault::InvalidFieldTypeDescriptor(descriptor))
    }
}

/// The slots of the parameter types from a position on, and where the closing parenthesis stands.
pub open spec fn parameters_from(text: Seq<char>, at: nat) -> Option<(nat, nat)>
    decreases text.len() - at,
{
    if at >= text.len() {
        None
    } else if text[at as int] == ')' {
        Some((0, at))
    } else {
        proof {
            lemma_field_type_bounds(text, at);
        }
        match field_type_end(text, at) {
            Some(end) => match parameters_from(text, end) {
                Some((slots, close)) => Some((type_slots(text[at as int]) + slots, close)),
                None => None,
            },
            None => None,
        }
    }
}

/// The slots of a method's parameters and of its result; a `void` result has none.
pub open spec fn signature_slots(text: Seq<char>) -> Option<(nat, nat)> {
    if text.len() == 0 || text[0] != '(' {
        None
    } else {
        match parameters_from(text, 1) {
            Some((slots, close)) => if close + 1 < text.len() && text[close as int + 1] == 'V' {
                if close + 2 == text.len() {
                    Some((slots, 0))
                } else {
                    None
                }
            } else if field_type_end(text, close + 1) == Some(text.len()) {
                Some((slots, type_slots(text[close as int + 1])))
            } else {
                None
            },
            None => None,
        }
    }
}

/// The slots that a call takes from the operand stack, the receiver's included, and those that it
/// puts back.
pub open spec fn call_slots(descriptor: Seq<char>, receiver: u16) -> Result<(u16, u16), Fault> {
    match signature_slots(descriptor) {
        Some((slots, result)) if slots + receiver <= u16::MAX => Ok(
            ((slots + receiver) as u16, result as u16),
        ),
        _ => Err(Fault::InvalidMethodDescriptor(descriptor)),
    }
}

proof fn lemma_semicolon_bounds(text: Seq<char>, at: nat)
    ensures
        semicolon_from(text, at) matches Some(end) ==> at <= end < text.len(),
    decreases text.len() - at,
{
    if at < text.len() && text[at as int] != ';' {
        lemma_semicolon_bounds(text, at + 1);
    }
}

/// A field type has at least one letter and ends within the text.
pub proof fn lemma_field_type_bounds(text: Seq<char>, at: nat)
    ensures
        field_type_end(text, at) matches Some(end) ==> at < end <= text.len(),
    decreases text.len() - at,
{
    if at < text.len() {
        lemma_semicolon_bounds(text, at + 1);
        if text[at as int] == '[' {
            lemma_field_type_bounds(text, at + 1);
        }
    }
}

fn characters(text: &str) -> (chars: Vec<char>)
    ensures
        chars@ == text@,
{
    let mut chars: Vec<char> = Vec::new();
    for c in it: text.chars()
        invariant
            it.seq() == text@,
            chars@ == text@.take(it.index()),
    {
        chars.push(c);
        assert(text@.take(it.index() + 1) =~= text@.take(it.index()).push(c));
    }
    assert(text@.take(text@.len() as int) =~= text@);
    chars
}

fn read_field_type(text: &Vec<char>, start: usize) -> (end: Option<usize>)
    ensures
        match end {
            Some(end) => field_type_end(text@, start as nat) == Some(end as nat),
            None => field_type_end(text@, start as nat) is None,
        },
{
    let mut at: usize = start;
    while at < text.len() && text[at] == '['
        invariant
            field_type_end(text@, start as nat) == field_type_end(text@, at as nat),
        decreases text.len() - at,
    {
        at += 1;
    }
    if at >= text.len() {
        return None;
    }
    let c = text[at];
    if c == 'B' || c == 'C' || c == 'D' || c == 'F' || c == 'I' || c == 'J' || c == 'S' || c == 'Z' {
        return Some(at + 1);
    }
    if c != 'L' {
        return None;
    }
    let name: usize = at + 1;
    let mut end: usize = name;
    while end < text.len() && text[end] != ';'
        invariant
            name <= end <= text.len(),
            semicolon_from(text@, name as nat) == semicolon_from(text@, end as nat),
        decreases text.len() - end,
    {
        end += 1;
    }
    if end < text.len() && end > name {
        Some(end + 1)
    } else {
        None
    }
}

fn slots_of_type(first: char) -> (slots: u16)
    ensures
        slots == type_slots(first),
{
    if first == 'J' || first == 'D' {
        2
    } else {
        1
    }
}

/// Reads the slots of a value of the field type that a descriptor names.
pub fn field_descriptor_slots(descriptor: &str) -> (slots: Result<u16, Error>)
    ensures
        agrees(slots, field_slots(descriptor@)),
{
    let text = characters(descriptor);
    match read_field_type(&text, 0) {
        Some(end) if end == text.len() => {
            proof {
                lemma_field_type_bounds(text@, 0);
            }
            Ok(slots_of_type(text[0]))
        },
        _ => Err(Error::InvalidFieldTypeDescriptor(descriptor.to_owned())),
    }
}

/// Reads the slots that a call with a method descriptor takes from the operand stack and puts back.
/// The receiver, if there is one, counts with the parameters.
pub fn method_descriptor_slots(descriptor: &str, receiver: u16) -> (slots: Result<(u16, u16), Error>)
    ensures
        agrees(slots, call_slots(descriptor@, receiver)),
{
    let text = characters(descriptor);
    if text.len() == 0 || text[0] != '(' {
        return Err(Error::InvalidMethodDescriptor(descriptor.to_owned()));
    }
    let mut taken: u16 = receiver;
    let mut at: usize = 1;
    while at < text.len() && text[at] != ')'
        invariant
            text@ == descriptor@,
            text.len() > 0 && text[0] == '(',
            1 <= at <= text.len(),
            taken >= receiver,
            parameters_from(text@, 1) is Some <==> parameters_from(text@, at as nat) is Some,
            parameters_from(text@, 1) matches Some((slots, close)) ==> parameters_from(
                text@,
                at as nat,
            ) == Some(((slots + receiver - taken) as nat, close)) && slots + receiver >= taken,
        decreases text.len() - at,
    {
        proof {
            lemma_field_type_bounds(text@, at as nat);
        }
        let slots = slots_of_type(text[at]);
        match read_field_type(&text, at) {
            Some(end) => {
                if taken > 0xffff - slots {
                    return Err(Error::InvalidMethodDescriptor(descriptor.to_owned()));
                }
                taken = taken + slots;
                at = end;
            },
            None => {
                return Err(Error::InvalidMethodDescriptor(descriptor.to_owned()));
            },
        }
    }
    if at < text.len() {
        let result: usize = at + 1;
        if result < text.len() && text[result] == 'V' {
            if result + 1 == text.len() {
                return Ok((taken, 0));
            }
        } else {
            match read_field_type(&text, result) {
                Some(end) if end == text.len() => {
                    proof {
                        lemma_field_type_bounds(text@, result as nat);
                    }
                    return Ok((taken, slots_of_type(text[result])));
                },
                _ => {},
            }
        }
    }
    Err(Error::InvalidMethodDescriptor(descriptor.to_owned()))
}

} // verus!
