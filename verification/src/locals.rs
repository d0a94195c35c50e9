//! Local variables that hold return addresses.
//!
//! They are kept as a list of variable numbers with what each holds, in increasing order. Variables
//! that are not in the list hold ordinary values or nothing.
use vstd::prelude::*;

use crate::arena::contains_address;
use crate::value::ReturnAddress;

verus! {

/// What a local variable with a return address holds.
#[derive(Clone, Copy, Debug, PartialEq, Eq, Hash, Structural)]
pub enum ReturnAddressLocal {
    /// The address of a subroutine call that has not returned yet.
    Active(ReturnAddress),
    /// The address of a subroutine call that has returned.
    Invalid,
}

/// The variable numbers of a list increase.
pub open spec fn increasing(list: Seq<(u16, ReturnAddressLocal)>) -> bool {
    forall|i: int, j: int| 0 <= i < j < list.len() ==> #[trigger] list[i].0 < #[trigger] list[j].0
}

/// A list has an entry for a variable.
pub open spec fn lists(list: Seq<(u16, ReturnAddressLocal)>, index: u16) -> bool {
    exists|i: int| 0 <= i < list.len() && #[trigger] list[i].0 == index
}

/// What each variable of a list holds.
pub open spec fn local_map(list: Seq<(u16, ReturnAddressLocal)>) -> Map<u16, ReturnAddressLocal> {
    Map::new(
        |index: u16| lists(list, index),
        |index: u16| list[choose|i: int| 0 <= i < list.len() && #[trigger] list[i].0 == index].1,
    )
}

/// What the first entry for a variable says.
pub open spec fn first_entry(list: Seq<(u16, ReturnAddressLocal)>, index: u16) -> Option<
    ReturnAddressLocal,
>
    decreases list.len(),
{
    if list.len() == 0 {
        None
    } else if list[0].0 == index {
        Some(list[0].1)
    } else {
        first_entry(list.drop_first(), index)
    }
}

/// A variable is one of a number of consecutive variables.
pub open spec fn in_range(index: u16, start: u16, slots: u16) -> bool {
    start <= index < start + slots
}

/// The entries of a list for variables outside a range.
pub open spec fn entries_outside(list: Seq<(u16, ReturnAddressLocal)>, start: u16, slots: u16) -> Seq<
    (u16, ReturnAddressLocal),
> {
    list.filter(|entry: (u16, ReturnAddressLocal)| !in_range(entry.0, start, slots))
}

/// The variables outside a range.
pub open spec fn locals_outside(
    locals: Map<u16, ReturnAddressLocal>,
    start: u16,
    slots: u16,
) -> Map<u16, ReturnAddressLocal> {
    Map::new(
        |index: u16| locals.contains_key(index) && !in_range(index, start, slots),
        |index: u16| locals[index],
    )
}

/// The variables after one of them was written, with a return address or with something else.
pub open spec fn local_written(
    locals: Map<u16, ReturnAddressLocal>,
    index: u16,
    value: Option<ReturnAddressLocal>,
) -> Map<u16, ReturnAddressLocal> {
    match value {
        Some(value) => locals.insert(index, value),
        None => locals.remove(index),
    }
}

/// One of a number of consecutive variables holds a return address.
pub open spec fn holds_address(locals: Map<u16, ReturnAddressLocal>, start: u16, slots: u16) -> bool {
    exists|index: u16| in_range(index, start, slots) && #[trigger] locals.contains_key(index)
}

/// A variable's content after subroutine calls have returned.
pub open spec fn invalidated_local(
    local: ReturnAddressLocal,
    inactive: Seq<ReturnAddress>,
) -> ReturnAddressLocal {
    match local {
        ReturnAddressLocal::Active(address) if inactive.contains(address) => {
            ReturnAddressLocal::Invalid
        },
        _ => local,
    }
}

/// The variables after subroutine calls have returned.
pub open spec fn invalidated_locals(
    locals: Map<u16, ReturnAddressLocal>,
    inactive: Seq<ReturnAddress>,
) -> Map<u16, ReturnAddressLocal> {
    locals.map_values(|local: ReturnAddressLocal| invalidated_local(local, inactive))
}

/// In an increasing list the entry for a variable is the only one.
pub proof fn lemma_local_map(list: Seq<(u16, ReturnAddressLocal)>)
    requires
        increasing(list),
    ensures
        forall|i: int|
            #![trigger list[i]]
            0 <= i < list.len() ==> local_map(list).contains_key(list[i].0) && local_map(
                list,
            )[list[i].0] == list[i].1,
{
    assert forall|i: int|
        #![trigger list[i]]
        0 <= i < list.len() implies local_map(list).contains_key(list[i].0) && local_map(
        list,
    )[list[i].0] == list[i].1 by {
        let index = list[i].0;
        assert(lists(list, index));
        let j = choose|j: int| 0 <= j < list.len() && #[trigger] list[j].0 == index;
        if j < i {
            assert(list[j].0 < list[i].0);
        } else if i < j {
            assert(list[i].0 < list[j].0);
        }
    }
}

/// Increasing lists that say the same of every variable are the same.
pub proof fn lemma_local_map_injective(
    a: Seq<(u16, ReturnAddressLocal)>,
    b: Seq<(u16, ReturnAddressLocal)>,
)
    requires
        increasing(a),
        increasing(b),
        local_map(a) == local_map(b),
    ensures
        a == b,
    decreases a.len(),
{
    lemma_local_map(a);
    lemma_local_map(b);
    if a.len() == 0 {
        if b.len() > 0 {
            assert(local_map(b).contains_key(b[0].0));
            assert(lists(a, b[0].0));
        }
        assert(a =~= b);
    } else {
        assert(local_map(a).contains_key(a.last().0));
        assert(lists(b, a.last().0));
        let k = choose|k: int| 0 <= k < b.len() && #[trigger] b[k].0 == a.last().0;
        assert(local_map(b).contains_key(b.last().0));
        assert(lists(a, b.last().0));
        let m = choose|m: int| 0 <= m < a.len() && #[trigger] a[m].0 == b.last().0;
        if k < b.len() - 1 {
            assert(b[k].0 < b[b.len() - 1].0);
            if m < a.len() - 1 {
                assert(a[m].0 < a[a.len() - 1].0);
            }
        }
        assert(k == b.len() - 1);
        assert(a.last() == b.last());
        let c = a.drop_last();
        let d = b.drop_last();
        lemma_local_map(c);
        lemma_local_map(d);
        assert forall|index: u16| lists(c, index) == lists(d, index) by {
            if lists(c, index) {
                let i = choose|i: int| 0 <= i < c.len() && #[trigger] c[i].0 == index;
                assert(a[i].0 < a[a.len() - 1].0);
                assert(local_map(a).contains_key(a[i].0));
                assert(lists(b, index));
                let j = choose|j: int| 0 <= j < b.len() && #[trigger] b[j].0 == index;
                assert(d[j].0 == index);
            }
            if lists(d, index) {
                let i = choose|i: int| 0 <= i < d.len() && #[trigger] d[i].0 == index;
                assert(b[i].0 < b[b.len() - 1].0);
                assert(local_map(b).contains_key(b[i].0));
                assert(lists(a, index));
                let j = choose|j: int| 0 <= j < a.len() && #[trigger] a[j].0 == index;
                assert(c[j].0 == index);
            }
        }
        assert forall|index: u16| lists(c, index) implies local_map(c)[index] == local_map(
            d,
        )[index] by {
            let i = choose|i: int| 0 <= i < c.len() && #[trigger] c[i].0 == index;
            assert(lists(d, index));
            let j = choose|j: int| 0 <= j < d.len() && #[trigger] d[j].0 == index;
            assert(a[i].0 == b[j].0);
            assert(local_map(a)[a[i].0] == a[i].1);
            assert(local_map(b)[b[j].0] == b[j].1);
            assert(local_map(c)[c[i].0] == c[i].1);
            assert(local_map(d)[d[j].0] == d[j].1);
        }
        assert(local_map(c) =~= local_map(d));
        lemma_local_map_injective(c, d);
        assert(a =~= c.push(a.last()));
        assert(b =~= d.push(b.last()));
    }
}

/// The variable numbers of an increasing list leave room for no more than 65536 of them.
pub proof fn lemma_increasing_bound(list: Seq<(u16, ReturnAddressLocal)>)
    requires
        increasing(list),
    ensures
        list.len() <= 0x1_0000,
        list.len() > 0 ==> list.last().0 >= list.len() - 1,
    decreases list.len(),
{
    if list.len() > 1 {
        lemma_increasing_bound(list.drop_last());
        assert(list[list.len() - 2].0 < list[list.len() - 1].0);
    }
}

proof fn lemma_first_entry(list: Seq<(u16, ReturnAddressLocal)>, index: u16)
    ensures
        first_entry(list, index) is None ==> !lists(list, index),
        first_entry(list, index) matches Some(local) ==> exists|i: int|
            0 <= i < list.len() && #[trigger] list[i] == (index, local),
    decreases list.len(),
{
    if list.len() > 0 && list[0].0 != index {
        let rest = list.drop_first();
        lemma_first_entry(rest, index);
        if let Some(local) = first_entry(rest, index) {
            let i = choose|i: int| 0 <= i < rest.len() && #[trigger] rest[i] == (index, local);
            assert(list[i + 1] == (index, local));
        } else {
            assert forall|i: int| 0 <= i < list.len() implies #[trigger] list[i].0 != index by {
                if i > 0 {
                    assert(rest[i - 1].0 != index);
                }
            }
        }
    } else if list.len() > 0 {
        assert(list[0] == (index, list[0].1));
    }
}

/// In an increasing list the first entry for a variable is what the variable holds.
pub proof fn lemma_first_entry_is_local(list: Seq<(u16, ReturnAddressLocal)>, index: u16)
    requires
        increasing(list),
    ensures
        first_entry(list, index) == (if local_map(list).contains_key(index) {
            Some(local_map(list)[index])
        } else {
            None
        }),
{
    lemma_local_map(list);
    lemma_first_entry(list, index);
}

/// Leaving out the entries of a range of variables leaves out those variables.
pub proof fn lemma_entries_outside(
    list: Seq<(u16, ReturnAddressLocal)>,
    start: u16,
    slots: u16,
)
    requires
        increasing(list),
    ensures
        increasing(entries_outside(list, start, slots)),
        local_map(entries_outside(list, start, slots)) == locals_outside(
            local_map(list),
            start,
            slots,
        ),
        forall|i: int| #![auto]
            0 <= i < entries_outside(list, start, slots).len() ==> list.contains(
                entries_outside(list, start, slots)[i],
            ) && !in_range(entries_outside(list, start, slots)[i].0, start, slots),
{
    let kept = entries_outside(list, start, slots);
    let keep = |entry: (u16, ReturnAddressLocal)| !in_range(entry.0, start, slots);
    broadcast use vstd::seq_lib::group_filter_ensures;
    lemma_outside_increasing(list, start, slots);
    lemma_local_map(list);
    lemma_local_map(kept);
    assert forall|index: u16| lists(kept, index) == (lists(list, index) && !in_range(
        index,
        start,
        slots,
    )) by {
        if lists(kept, index) {
            let i = choose|i: int| 0 <= i < kept.len() && #[trigger] kept[i].0 == index;
            assert(list.contains(kept[i]));
            let j = choose|j: int| 0 <= j < list.len() && list[j] == kept[i];
            assert(list[j].0 == index);
        }
        if lists(list, index) && !in_range(index, start, slots) {
            let i = choose|i: int| 0 <= i < list.len() && #[trigger] list[i].0 == index;
            assert(keep(list[i]));
            assert(kept.contains(list[i]));
            let j = choose|j: int| 0 <= j < kept.len() && kept[j] == list[i];
            assert(kept[j].0 == index);
        }
    }
    assert forall|index: u16| lists(kept, index) implies local_map(kept)[index] == local_map(
        list,
    )[index] by {
        let i = choose|i: int| 0 <= i < kept.len() && #[trigger] kept[i].0 == index;
        assert(list.contains(kept[i]));
        let j = choose|j: int| 0 <= j < list.len() && list[j] == kept[i];
        assert(local_map(list)[list[j].0] == list[j].1);
        assert(local_map(kept)[kept[i].0] == kept[i].1);
    }
    assert(local_map(kept) =~= locals_outside(local_map(list), start, slots));
}

proof fn lemma_outside_increasing(list: Seq<(u16, ReturnAddressLocal)>, start: u16, slots: u16)
    requires
        increasing(list),
    ensures
        increasing(entries_outside(list, start, slots)),
        forall|i: int|
            0 <= i < entries_outside(list, start, slots).len() ==> list.contains(
                #[trigger] entries_outside(list, start, slots)[i],
            ),
    decreases list.len(),
{
    reveal(Seq::filter);
    let kept = entries_outside(list, start, slots);
    if list.len() > 0 {
        let before = list.drop_last();
        let kept_before = entries_outside(before, start, slots);
        lemma_outside_increasing(before, start, slots);
        assert forall|i: int| 0 <= i < kept_before.len() implies list.contains(
            #[trigger] kept_before[i],
        ) && kept_before[i].0 < list.last().0 by {
            assert(before.contains(kept_before[i]));
            let j = choose|j: int| 0 <= j < before.len() && before[j] == kept_before[i];
            assert(list[j] == kept_before[i]);
            assert(list[j].0 < list[list.len() - 1].0);
        }
        assert(list.contains(list.last()));
        assert(kept == kept_before || kept == kept_before.push(list.last()));
    }
}

/// Reads the return address of a local variable.
pub fn return_address_local(locals: &[(u16, ReturnAddressLocal)], index: u16) -> (local: Option<
    ReturnAddressLocal,
>)
    ensures
        local == first_entry(locals@, index),
{
    let mut i: usize = 0;
    assert(locals@.skip(0) =~= locals@);
    while i < locals.len()
        invariant
            i <= locals.len(),
            first_entry(locals@, index) == first_entry(locals@.skip(i as int), index),
        decreases locals.len() - i,
    {
        let (local_index, value) = locals[i];
        assert(locals@.skip(i as int)[0] == locals@[i as int]);
        if local_index == index {
            return Some(value);
        }
        assert(locals@.skip(i as int).drop_first() =~= locals@.skip(i + 1));
        i += 1;
    }
    None
}

/// Forgets the return address of a local variable.
pub fn clear_return_address_local(locals: &mut Vec<(u16, ReturnAddressLocal)>, index: u16)
    ensures
        final(locals)@ == entries_outside(old(locals)@, index, 1),
{
    clear_return_address_local_range(locals, index, 1);
}

/// Forgets the return addresses of a number of consecutive local variables.
pub fn clear_return_address_local_range(
    locals: &mut Vec<(u16, ReturnAddressLocal)>,
    start: u16,
    slots: u16,
)
    ensures
        final(locals)@ == entries_outside(old(locals)@, start, slots),
{
    let ghost keep = |entry: (u16, ReturnAddressLocal)| !in_range(entry.0, start, slots);
    let first = u32::from(start);
    let end = first + u32::from(slots);
    let mut kept: Vec<(u16, ReturnAddressLocal)> = Vec::new();
    let mut i: usize = 0;
    proof {
        reveal(Seq::filter);
    }
    while i < locals.len()
        invariant
            i <= locals.len(),
            locals@ == old(locals)@,
            first == start,
            end == start + slots,
            keep == (|entry: (u16, ReturnAddressLocal)| !in_range(entry.0, start, slots)),
            kept@ == locals@.take(i as int).filter(keep),
        decreases locals.len() - i,
    {
        let entry = locals[i];
        let local_index = u32::from(entry.0);
        proof {
            reveal(Seq::filter);
            assert(locals@.take(i + 1).drop_last() =~= locals@.take(i as int));
        }
        if local_index < first || local_index >= end {
            kept.push(entry);
        }
        i += 1;
    }
    assert(locals@.take(locals@.len() as int) =~= locals@);
    *locals = kept;
}

/// Records what a local variable holds: a return address, or something else.
pub fn set_return_address_local(
    locals: &mut Vec<(u16, ReturnAddressLocal)>,
    index: u16,
    value: Option<ReturnAddressLocal>,
)
    requires
        increasing(old(locals)@),
    ensures
        increasing(final(locals)@),
        local_map(final(locals)@) == local_written(local_map(old(locals)@), index, value),
{
    let ghost before = locals@;
    clear_return_address_local(locals, index);
    proof {
        lemma_entries_outside(before, index, 1);
        assert(local_map(locals@) =~= local_map(before).remove(index));
    }
    let ghost cleared = locals@;
    if let Some(value) = value {
        let mut at: usize = 0;
        while at < locals.len() && locals[at].0 < index
            invariant
                at <= locals.len(),
                locals@ == cleared,
                forall|i: int| 0 <= i < at ==> #[trigger] cleared[i].0 < index,
            decreases locals.len() - at,
        {
            at += 1;
        }
        assert forall|i: int| at <= i < cleared.len() implies #[trigger] cleared[i].0 > index by {
            assert(!in_range(cleared[i].0, index, 1));
            if i > at {
                assert(cleared[at as int].0 < cleared[i].0);
            }
        }
        locals.insert(at, (index, value));
        proof {
            lemma_insert_local(cleared, at as int, index, value);
            assert(local_map(before).remove(index).insert(index, value) =~= local_map(
                before,
            ).insert(index, value));
        }
    }
}

proof fn lemma_insert_local(
    list: Seq<(u16, ReturnAddressLocal)>,
    at: int,
    index: u16,
    value: ReturnAddressLocal,
)
    requires
        increasing(list),
        0 <= at <= list.len(),
        forall|i: int| 0 <= i < at ==> #[trigger] list[i].0 < index,
        forall|i: int| at <= i < list.len() ==> #[trigger] list[i].0 > index,
    ensures
        increasing(list.insert(at, (index, value))),
        local_map(list.insert(at, (index, value))) == local_map(list).insert(index, value),
{
    let new = list.insert(at, (index, value));
    assert forall|i: int, j: int| 0 <= i < j < new.len() implies #[trigger] new[i].0
        < #[trigger] new[j].0 by {
        let a = if i < at { i } else { i - 1 };
        let b = if j < at { j } else { j - 1 };
        if i != at {
            assert(new[i] == list[a]);
        }
        if j != at {
            assert(new[j] == list[b]);
        }
        if i != at && j != at {
            assert(list[a].0 < list[b].0);
        }
    }
    lemma_local_map(list);
    lemma_local_map(new);
    assert forall|k: u16| lists(new, k) == (lists(list, k) || k == index) by {
        if lists(new, k) {
            let i = choose|i: int| 0 <= i < new.len() && #[trigger] new[i].0 == k;
            if i < at {
                assert(list[i].0 == k);
            } else if i > at {
                assert(list[i - 1].0 == k);
            }
        }
        if k == index {
            assert(new[at].0 == k);
        }
        if lists(list, k) {
            let i = choose|i: int| 0 <= i < list.len() && #[trigger] list[i].0 == k;
            if i < at {
                assert(new[i].0 == k);
            } else {
                assert(new[i + 1].0 == k);
            }
        }
    }
    assert forall|k: u16| lists(new, k) implies local_map(new)[k] == local_map(list).insert(
        index,
        value,
    )[k] by {
        let i = choose|i: int| 0 <= i < new.len() && #[trigger] new[i].0 == k;
        assert(local_map(new)[new[i].0] == new[i].1);
        if i < at {
            assert(local_map(list)[list[i].0] == list[i].1);
        } else if i > at {
            assert(local_map(list)[list[i - 1].0] == list[i - 1].1);
        }
    }
    assert(local_map(new) =~= local_map(list).insert(index, value));
}

/// Tells whether one of a number of consecutive local variables holds a return address.
pub fn local_range_contains_return_address(
    locals: &[(u16, ReturnAddressLocal)],
    start: u16,
    slots: u16,
) -> (found: bool)
    ensures
        found == holds_address(local_map(locals@), start, slots),
{
    let first = u32::from(start);
    let end = first + u32::from(slots);
    let mut i: usize = 0;
    while i < locals.len()
        invariant
            i <= locals.len(),
            first == start,
            end == start + slots,
            forall|j: int| 0 <= j < i ==> !in_range(#[trigger] locals@[j].0, start, slots),
        decreases locals.len() - i,
    {
        let local_index = u32::from(locals[i].0);
        if first <= local_index && local_index < end {
            assert(lists(locals@, locals@[i as int].0));
            assert(local_map(locals@).contains_key(locals@[i as int].0));
            return true;
        }
        i += 1;
    }
    false
}

/// Makes the return addresses of inactive subroutine calls invalid in local variables.
pub fn invalidate_local_addresses(
    locals: &mut Vec<(u16, ReturnAddressLocal)>,
    inactive: &[ReturnAddress],
)
    requires
        increasing(old(locals)@),
    ensures
        increasing(final(locals)@),
        local_map(final(locals)@) == invalidated_locals(local_map(old(locals)@), inactive@),
{
    let ghost before = locals@;
    let mut i: usize = 0;
    while i < locals.len()
        invariant
            i <= locals.len(),
            locals.len() == before.len(),
            forall|j: int|
                #![trigger locals@[j]]
                0 <= j < i ==> locals@[j] == (
                    before[j].0,
                    invalidated_local(before[j].1, inactive@),
                ),
            forall|j: int| #![trigger locals@[j]] i <= j < before.len() ==> locals@[j] == before[j],
        decreases locals.len() - i,
    {
        let (local_index, value) = locals[i];
        if let ReturnAddressLocal::Active(address) = value {
            if contains_address(inactive, address) {
                locals.set(i, (local_index, ReturnAddressLocal::Invalid));
            }
        }
        i += 1;
    }
    proof {
        let after = locals@;
        assert forall|i: int, j: int| 0 <= i < j < after.len() implies #[trigger] after[i].0
            < #[trigger] after[j].0 by {
            assert(before[i].0 < before[j].0);
        }
        lemma_local_map(before);
        lemma_local_map(after);
        assert forall|k: u16| lists(after, k) == lists(before, k) by {
            if lists(after, k) {
                let i = choose|i: int| 0 <= i < after.len() && #[trigger] after[i].0 == k;
                assert(before[i].0 == k);
            }
            if lists(before, k) {
                let i = choose|i: int| 0 <= i < before.len() && #[trigger] before[i].0 == k;
                assert(after[i].0 == k);
            }
        }
        assert forall|k: u16| lists(after, k) implies local_map(after)[k] == invalidated_locals(
            local_map(before),
            inactive@,
        )[k] by {
            let i = choose|i: int| 0 <= i < after.len() && #[trigger] after[i].0 == k;
            assert(local_map(after)[after[i].0] == after[i].1);
            assert(local_map(before)[before[i].0] == before[i].1);
        }
        assert(local_map(after) =~= invalidated_locals(local_map(before), inactive@));
    }
}

// ---- What the lists of local variables mean.
/// What a variable holds is told by the first entry for it.
pub proof fn lemma_first_tells(list: Seq<(u16, ReturnAddressLocal)>, index: u16, i: int)
    ensures
        0 <= i < list.len() && list[i].0 == index && (forall|j: int|
            0 <= j < i ==> (#[trigger] list[j]).0 != index) ==> first_entry(list, index) == Some(
            list[i].1,
        ),
        (forall|j: int| 0 <= j < list.len() ==> (#[trigger] list[j]).0 != index) ==> first_entry(
            list,
            index,
        ) is None,
    decreases list.len(),
{
    if list.len() > 0 {
        let rest = list.drop_first();
        lemma_first_tells(rest, index, i - 1);
        assert(forall|j: int| 0 <= j < rest.len() ==> #[trigger] rest[j] == list[j + 1]);
    }
}

proof fn lemma_kept_listed(
    list: Seq<(u16, ReturnAddressLocal)>,
    start: u16,
    slots: u16,
    j: int,
)
    requires
        0 <= j < entries_outside(list, start, slots).len(),
    ensures
        list.contains(entries_outside(list, start, slots)[j]),
    decreases list.len(),
{
    reveal(Seq::filter);
    let earlier = list.drop_last();
    let kept = entries_outside(earlier, start, slots);
    if j < kept.len() {
        lemma_kept_listed(earlier, start, slots, j);
        let i = choose|i: int| 0 <= i < earlier.len() && earlier[i] == kept[j];
        assert(list[i] == kept[j]);
    } else {
        assert(list[list.len() - 1] == list.last());
    }
}

/// Removing a range of variables removes their entries and no others, and keeps the order.
pub proof fn lemma_range_removed(
    list: Seq<(u16, ReturnAddressLocal)>,
    start: u16,
    slots: u16,
    entry: (u16, ReturnAddressLocal),
)
    ensures
        entries_outside(list, start, slots).contains(entry) <==> list.contains(entry) && (entry.0
            < start || entry.0 >= start + slots),
        increasing(list) ==> increasing(entries_outside(list, start, slots)),
{
    broadcast use vstd::seq_lib::group_filter_ensures;

    let keep = |entry: (u16, ReturnAddressLocal)| !in_range(entry.0, start, slots);
    if list.contains(entry) && keep(entry) {
        let i = choose|i: int| 0 <= i < list.len() && list[i] == entry;
        assert(list.filter(keep).contains(list[i]));
    }
    if list.filter(keep).contains(entry) {
        let kept = list.filter(keep);
        let j = choose|j: int| 0 <= j < kept.len() && kept[j] == entry;
        assert(keep(kept[j]));
        lemma_kept_listed(list, start, slots, j);
    }
    if increasing(list) {
        lemma_outside_increasing(list, start, slots);
    }
}

/// A range of variables has a return address if one of them does.
pub proof fn lemma_range_holds(locals: Map<u16, ReturnAddressLocal>, start: u16, slots: u16)
    ensures
        holds_address(locals, start, slots) <==> exists|index: u16|
            start <= index < start + slots && #[trigger] locals.contains_key(index),
{
    if holds_address(locals, start, slots) {
        let index = choose|index: u16|
            in_range(index, start, slots) && #[trigger] locals.contains_key(index);
        assert(start <= index < start + slots && locals.contains_key(index));
    }
    if exists|index: u16| start <= index < start + slots && #[trigger] locals.contains_key(index) {
        let index = choose|index: u16|
            start <= index < start + slots && #[trigger] locals.contains_key(index);
        assert(in_range(index, start, slots));
    }
}

/// A list in the order of the variables tells of exactly the variables that it has entries for, and of each
/// what its entry says.
pub proof fn lemma_list_tells(list: Seq<(u16, ReturnAddressLocal)>, index: u16)
    requires
        increasing(list),
    ensures
        local_map(list).contains_key(index) <==> exists|i: int|
            0 <= i < list.len() && (#[trigger] list[i]).0 == index,
        forall|i: int|
            0 <= i < list.len() ==> local_map(list)[(#[trigger] list[i]).0] == list[i].1,
{
    lemma_local_map(list);
}

/// Writing a variable changes what it holds and nothing else.
pub proof fn lemma_variable_written(
    locals: Map<u16, ReturnAddressLocal>,
    index: u16,
    value: Option<ReturnAddressLocal>,
    other: u16,
)
    ensures
        match value {
            Some(value) => local_written(locals, index, Some(value)).contains_key(index)
                && local_written(locals, index, Some(value))[index] == value,
            None => !local_written(locals, index, None).contains_key(index),
        },
        other != index ==> local_written(locals, index, value).contains_key(other)
            == locals.contains_key(other) && (locals.contains_key(other) ==> local_written(
            locals,
            index,
            value,
        )[other] == locals[other]),
{
}

} // verus!
