//! The descriptors of fields and methods, shape by shape.
use vstd::prelude::*;

use crate::descriptor::{
    call_slots, field_slots, field_type_end, is_base_type, lemma_field_type_bounds, parameters_from,
    semicolon_from, signature_slots, type_slots,
};
use crate::error::Fault;

verus! {

// ---- A type is read the same way wherever it stands.
proof fn lemma_semicolon_within(text: Seq<char>, part: Seq<char>, at: nat, k: nat)
    requires
        at + part.len() <= text.len(),
        part == text.subrange(at as int, (at + part.len()) as int),
        k <= part.len(),
    ensures
        semicolon_from(part, k) matches Some(end) ==> semicolon_from(text, at + k) == Some(at + end),
        semicolon_from(text, at + k) matches Some(end) ==> (end < at + part.len() ==> semicolon_from(
            part,
            k,
        ) == Some((end - at) as nat)),
    decreases part.len() - k,
{
    if k < part.len() {
        assert(part[k as int] == text[(at + k) as int]);
        lemma_semicolon_within(text, part, at, k + 1);
    } else {
        lemma_semicolon_bounds(text, at + k);
    }
}

proof fn lemma_semicolon_bounds(text: Seq<char>, at: nat)
    ensures
        semicolon_from(text, at) matches Some(end) ==> at <= end < text.len() && text[end as int]
            == ';' && forall|i: int| at <= i < end ==> text[i] != ';',
        semicolon_from(text, at) is None ==> forall|i: int| at <= i < text.len() ==> text[i] != ';',
    decreases text.len() - at,
{
    if at < text.len() && text[at as int] != ';' {
        lemma_semicolon_bounds(text, at + 1);
    }
}

proof fn lemma_type_within(text: Seq<char>, part: Seq<char>, at: nat, k: nat)
    requires
        at + part.len() <= text.len(),
        part == text.subrange(at as int, (at + part.len()) as int),
        k <= part.len(),
    ensures
        field_type_end(part, k) matches Some(end) ==> field_type_end(text, at + k) == Some(at + end),
        field_type_end(text, at + k) matches Some(end) ==> (end <= at + part.len()
            ==> field_type_end(part, k) == Some((end - at) as nat)),
    decreases part.len() - k,
{
    lemma_field_type_bounds(text, at + k);
    if k < part.len() {
        assert(part[k as int] == text[(at + k) as int]);
        lemma_type_within(text, part, at, k + 1);
        lemma_semicolon_within(text, part, at, k + 1);
        lemma_semicolon_bounds(text, at + k + 1);
        lemma_semicolon_bounds(part, k + 1);
    }
}

/// A descriptor of a field that can be read.
pub open spec fn is_field(descriptor: Seq<char>) -> bool {
    field_slots(descriptor) is Ok
}

proof fn lemma_field_start(descriptor: Seq<char>)
    requires
        is_field(descriptor),
    ensures
        descriptor.len() > 0,
        is_base_type(descriptor[0]) || descriptor[0] == 'L' || descriptor[0] == '[',
        field_slots(descriptor)->Ok_0 == type_slots(descriptor[0]),
{
    lemma_field_type_bounds(descriptor, 0);
}

// ---- Fields.
/// A descriptor of one letter: `J` and `D` take two slots, the other primitive types one, and no other
/// letter is a type.
pub proof fn lemma_primitive_type(letter: char)
    ensures
        field_slots(seq![letter]) == (if letter == 'J' || letter == 'D' {
            Ok::<u16, Fault>(2)
        } else if letter == 'B' || letter == 'C' || letter == 'F' || letter == 'I' || letter == 'S'
            || letter == 'Z' {
            Ok(1)
        } else {
            Err(Fault::InvalidFieldTypeDescriptor(seq![letter]))
        }),
{
    let text = seq![letter];
    reveal_with_fuel(field_type_end, 2);
    lemma_semicolon_bounds(text, 1);
}

/// A class type is an `L`, a name that is not empty and has no semicolon, and a semicolon; it takes one
/// slot.
pub proof fn lemma_class_type(name: Seq<char>)
    ensures
        field_slots(seq!['L'] + name + seq![';']) == (if name.len() > 0 && !name.contains(';') {
            Ok::<u16, Fault>(1)
        } else {
            Err(Fault::InvalidFieldTypeDescriptor(seq!['L'] + name + seq![';']))
        }),
{
    let text = seq!['L'] + name + seq![';'];
    assert(text[0] == 'L');
    assert(text[text.len() - 1] == ';');
    lemma_semicolon_bounds(text, 1);
    if name.contains(';') {
        let i = choose|i: int| 0 <= i < name.len() && name[i] == ';';
        assert(text[i + 1] == ';');
    } else {
        assert forall|i: int| 1 <= i < text.len() - 1 implies text[i] != ';' by {
            assert(text[i] == name[i - 1]);
        }
    }
}

/// An array type is a bracket before the type of its elements; it takes one slot, whatever these are.
pub proof fn lemma_array_type(element: Seq<char>)
    ensures
        field_slots(seq!['['] + element) == (if is_field(element) {
            Ok::<u16, Fault>(1)
        } else {
            Err(Fault::InvalidFieldTypeDescriptor(seq!['['] + element))
        }),
{
    let text = seq!['['] + element;
    assert(text[0] == '[');
    assert(element =~= text.subrange(1, (1 + element.len()) as int));
    lemma_type_within(text, element, 1, 0);
    lemma_field_type_bounds(element, 0);
}

/// There are no other field types than primitive, class and array types, and an error carries the text
/// that is none.
pub proof fn lemma_field_shapes(descriptor: Seq<char>)
    ensures
        match field_slots(descriptor) {
            Ok(_) => {
                ||| descriptor.len() == 1
                ||| exists|name: Seq<char>|
                    descriptor == #[trigger] (seq!['L'] + name) + seq![';']
                ||| exists|element: Seq<char>|
                    is_field(element) && descriptor == #[trigger] (seq!['['] + element)
            },
            Err(fault) => fault == Fault::InvalidFieldTypeDescriptor(descriptor),
        },
{
    if is_field(descriptor) {
        lemma_field_start(descriptor);
        let n = descriptor.len() as int;
        if is_base_type(descriptor[0]) {
        } else if descriptor[0] == 'L' {
            lemma_semicolon_bounds(descriptor, 1);
            let name = descriptor.subrange(1, n - 1);
            assert(descriptor =~= (seq!['L'] + name) + seq![';']);
        } else {
            lemma_field_type_bounds(descriptor, 1);
            let element = descriptor.subrange(1, n);
            assert(descriptor =~= seq!['['] + element);
            lemma_type_within(descriptor, element, 1, 0);
            assert(is_field(element));
        }
    }
}

// ---- Methods.
/// Descriptors one after the other.
pub open spec fn joined(parts: Seq<Seq<char>>) -> Seq<char>
    decreases parts.len(),
{
    if parts.len() == 0 {
        Seq::empty()
    } else {
        parts[0] + joined(parts.drop_first())
    }
}

/// The slots of fields with these descriptors, together.
pub open spec fn slots_together(parts: Seq<Seq<char>>) -> nat
    decreases parts.len(),
{
    if parts.len() == 0 {
        0
    } else {
        field_slots(parts[0])->Ok_0 as nat + slots_together(parts.drop_first())
    }
}

/// A text is a method descriptor with these parameters and this result.
pub open spec fn is_signature(text: Seq<char>, parts: Seq<Seq<char>>, result: Seq<char>) -> bool {
    &&& text == seq!['('] + joined(parts) + seq![')'] + result
    &&& forall|i: int| 0 <= i < parts.len() ==> is_field(#[trigger] parts[i])
    &&& result == seq!['V'] || is_field(result)
}

proof fn lemma_parameters(text: Seq<char>, at: nat, parts: Seq<Seq<char>>)
    requires
        at + joined(parts).len() < text.len(),
        joined(parts) == text.subrange(at as int, (at + joined(parts).len()) as int),
        text[(at + joined(parts).len()) as int] == ')',
        forall|i: int| 0 <= i < parts.len() ==> is_field(#[trigger] parts[i]),
    ensures
        parameters_from(text, at) == Some((slots_together(parts), at + joined(parts).len())),
    decreases parts.len(),
{
    if parts.len() > 0 {
        let first = parts[0];
        let rest = parts.drop_first();
        let all = joined(parts);
        lemma_field_start(first);
        assert(first =~= text.subrange(at as int, (at + first.len()) as int)) by {
            assert forall|i: int| 0 <= i < first.len() implies first[i] == text[at + i] by {
                assert(all[i] == first[i]);
            }
        }
        lemma_type_within(text, first, at, 0);
        assert(first[0] == text[at as int]);
        let next = at + first.len();
        assert(joined(rest) =~= text.subrange(next as int, (next + joined(rest).len()) as int)) by {
            assert forall|i: int| 0 <= i < joined(rest).len() implies joined(rest)[i] == text[next
                + i] by {
                assert(all[first.len() + i] == joined(rest)[i]);
            }
        }
        assert forall|i: int| 0 <= i < rest.len() implies is_field(#[trigger] rest[i]) by {
            assert(rest[i] == parts[i + 1]);
        }
        lemma_parameters(text, next, rest);
    }
}

/// A method descriptor is its parameters in parentheses and its result. A call takes the receiver and the
/// slots of fields with the parameters' descriptors, and puts back the slots of a field with the result's
/// descriptor, or none for `V`. More than 65535 slots cannot be taken.
pub proof fn lemma_method_descriptor(
    text: Seq<char>,
    parts: Seq<Seq<char>>,
    result: Seq<char>,
    receiver: u16,
)
    requires
        is_signature(text, parts, result),
    ensures
        receiver + slots_together(parts) <= 65535 ==> call_slots(text, receiver) == Ok::<
            (u16, u16),
            Fault,
        >(
            (
                (receiver + slots_together(parts)) as u16,
                if result == seq!['V'] {
                    0
                } else {
                    field_slots(result)->Ok_0
                },
            ),
        ),
        receiver + slots_together(parts) > 65535 ==> call_slots(text, receiver) == Err::<
            (u16, u16),
            Fault,
        >(Fault::InvalidMethodDescriptor(text)),
{
    let inner = joined(parts);
    let close = 1 + inner.len();
    assert(text[0] == '(');
    assert(text[close as int] == ')');
    assert(inner =~= text.subrange(1, (1 + inner.len()) as int));
    lemma_parameters(text, 1, parts);
    assert(result =~= text.subrange(
        (close + 1) as int,
        ((close + 1) + result.len()) as int,
    ));
    lemma_type_within(text, result, close + 1, 0);
    if result == seq!['V'] {
        assert(text[close as int + 1] == result[0]);
    } else {
        lemma_field_start(result);
        assert(text[close as int + 1] == result[0]);
        assert(!is_base_type('V'));
    }
    assert(signature_slots(text) is Some);
}

/// What a result that is put back takes: nothing for `V`, two slots for `J` and `D`, and one slot for every
/// other type.
pub proof fn lemma_result_slots(
    text: Seq<char>,
    parts: Seq<Seq<char>>,
    result: Seq<char>,
    receiver: u16,
)
    requires
        is_signature(text, parts, result),
        call_slots(text, receiver) is Ok,
    ensures
        call_slots(text, receiver)->Ok_0.1 == (if result == seq!['V'] {
            0
        } else if result == seq!['J'] || result == seq!['D'] {
            2
        } else {
            1int
        }),
{
    lemma_method_descriptor(text, parts, result, receiver);
    if result != seq!['V'] {
        lemma_field_start(result);
        if result.len() == 1 {
            assert(result =~= seq![result[0]]);
            lemma_primitive_type(result[0]);
            assert(result[0] == 'J' ==> result == seq!['J']);
            assert(result[0] == 'D' ==> result == seq!['D']);
        } else {
            assert(field_type_end(result, 0) == Some(result.len()));
            assert(!is_base_type(result[0]));
            assert(seq!['J'].len() == 1 && seq!['D'].len() == 1);
        }
        assert(seq!['J'][0] == 'J' && seq!['D'][0] == 'D');
    }
}

proof fn lemma_parameter_shapes(text: Seq<char>, at: nat) -> (parts: Seq<Seq<char>>)
    requires
        parameters_from(text, at) is Some,
    ensures
        ({
            let (slots, close) = parameters_from(text, at)->Some_0;
            &&& at <= close < text.len()
            &&& text[close as int] == ')'
            &&& joined(parts) == text.subrange(at as int, close as int)
            &&& slots_together(parts) == slots
            &&& forall|i: int| 0 <= i < parts.len() ==> is_field(#[trigger] parts[i])
        }),
    decreases text.len() - at,
{
    let (slots, close) = parameters_from(text, at)->Some_0;
    if text[at as int] == ')' {
        assert(joined(Seq::empty()) =~= text.subrange(at as int, close as int));
        Seq::empty()
    } else {
        lemma_field_type_bounds(text, at);
        let end = field_type_end(text, at)->Some_0;
        let first = text.subrange(at as int, end as int);
        lemma_type_within(text, first, at, 0);
        assert(first[0] == text[at as int]);
        assert(is_field(first));
        let rest = lemma_parameter_shapes(text, end);
        let parts = seq![first] + rest;
        assert(parts.drop_first() =~= rest);
        assert(parts[0] == first);
        assert(joined(parts) =~= text.subrange(at as int, close as int));
        assert forall|i: int| 0 <= i < parts.len() implies is_field(#[trigger] parts[i]) by {
            if i > 0 {
                assert(parts[i] == rest[i - 1]);
            }
        }
        parts
    }
}

/// Nothing else is a method descriptor, and an error carries the text that is none.
pub proof fn lemma_method_shapes(text: Seq<char>, receiver: u16)
    ensures
        match call_slots(text, receiver) {
            Ok(_) => exists|parts: Seq<Seq<char>>, result: Seq<char>| #[trigger]
                is_signature(text, parts, result),
            Err(fault) => fault == Fault::InvalidMethodDescriptor(text),
        },
{
    if call_slots(text, receiver) is Ok {
        let (slots, close) = parameters_from(text, 1)->Some_0;
        let parts = lemma_parameter_shapes(text, 1);
        let n = text.len() as int;
        let result = text.subrange(close as int + 1, n);
        assert(text =~= seq!['('] + joined(parts) + seq![')'] + result);
        lemma_type_within(text, result, close + 1, 0);
        if text[close as int + 1] == 'V' && close + 1 < text.len() {
            assert(result =~= seq!['V']);
        } else {
            lemma_field_type_bounds(text, close + 1);
            assert(is_field(result));
        }
        assert(is_signature(text, parts, result));
    }
}

} // verus!
