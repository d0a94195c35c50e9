//! The collections of other crates that the analysis keeps its tables in.
//!
//! Everything in this file that touches a collection is believed, not proved. The contracts speak of
//! what a collection holds, never of the order in which it would be walked or of its hash keys.
use ahash::{AHashMap, AHashSet};
use indexmap::IndexMap;
use vstd::prelude::*;

verus! {

/// The hash map of the `ahash` crate.
#[verifier::external_type_specification]
#[verifier::external_body]
#[verifier::reject_recursive_types(K)]
#[verifier::reject_recursive_types(V)]
#[verifier::reject_recursive_types(S)]
pub struct ExAHashMap<K, V, S>(ahash::AHashMap<K, V, S>);

/// The hash set of the `ahash` crate.
#[verifier::external_type_specification]
#[verifier::external_body]
#[verifier::reject_recursive_types(T)]
#[verifier::reject_recursive_types(S)]
pub struct ExAHashSet<T, S>(ahash::AHashSet<T, S>);

/// The hash-key source of the `ahash` crate; it stands in the two types above and is never read.
#[verifier::external_type_specification]
#[verifier::external_body]
pub struct ExAHashState(ahash::RandomState);

/// The insertion-ordered hash map of the `indexmap` crate.
#[verifier::external_type_specification]
#[verifier::external_body]
#[verifier::reject_recursive_types(K)]
#[verifier::reject_recursive_types(V)]
#[verifier::reject_recursive_types(S)]
pub struct ExIndexMap<K, V, S>(indexmap::IndexMap<K, V, S>);

/// What identifies a node of the operand-stack arena: a tag and three addresses for the value, then
/// the identifier of the stack below it.
pub type NodeKey = (u8, usize, usize, usize, usize);

/// The entries of a node table.
pub uninterp spec fn node_entries(table: AHashMap<NodeKey, usize>) -> Map<NodeKey, usize>;

/// The members of a set of state keys.
pub uninterp spec fn key_members(keys: AHashSet<Vec<usize>>) -> Set<Seq<usize>>;

/// The values of a switch table, in the order of its entries.
pub uninterp spec fn entry_values(pairs: IndexMap<i32, i32>) -> Seq<i32>;

/// `AHashMap::default`: a new node table has no entries.
#[verifier::external_body]
pub(crate) fn node_table_new() -> (table: AHashMap<NodeKey, usize>)
    ensures
        node_entries(table).dom() == Set::<NodeKey>::empty(),
{
    AHashMap::default()
}

/// `AHashMap::get`: the value stored under the key, if there is an entry for it. Two keys are the same
/// exactly when their components are.
#[verifier::external_body]
pub(crate) fn node_table_get(table: &AHashMap<NodeKey, usize>, key: NodeKey) -> (found: Option<usize>)
    ensures
        found == (if node_entries(*table).contains_key(key) {
            Some(node_entries(*table)[key])
        } else {
            None::<usize>
        }),
{
    table.get(&key).copied()
}

/// `AHashMap::insert`: afterwards the key maps to the value, and every other entry is as it was.
#[verifier::external_body]
pub(crate) fn node_table_insert(table: &mut AHashMap<NodeKey, usize>, key: NodeKey, value: usize)
    ensures
        node_entries(*final(table)) == node_entries(*old(table)).insert(key, value),
{
    table.insert(key, value);
}

/// `AHashSet::default`: a new set of state keys has no members.
#[verifier::external_body]
pub(crate) fn key_set_new() -> (keys: AHashSet<Vec<usize>>)
    ensures
        key_members(keys) == Set::<Seq<usize>>::empty(),
{
    AHashSet::default()
}

/// `AHashSet::insert`, which is `HashSet::insert` of the standard library: afterwards the key is a
/// member, the other members are as they were, and the result tells whether the key is new. Two keys
/// are the same exactly when they have the same numbers in the same order.
#[verifier::external_body]
pub(crate) fn key_set_insert(keys: &mut AHashSet<Vec<usize>>, key: Vec<usize>) -> (added: bool)
    ensures
        key_members(*final(keys)) == key_members(*old(keys)).insert(key@),
        added == !key_members(*old(keys)).contains(key@),
{
    keys.insert(key)
}

/// `IndexMap::values`: the values of the table in the order of its entries. Which entries a table
/// holds is up to whoever filled it; nothing is claimed of that.
#[verifier::external_body]
pub(crate) fn switch_values(pairs: &IndexMap<i32, i32>) -> (values: Vec<i32>)
    ensures
        values@ == entry_values(*pairs),
{
    pairs.values().copied().collect()
}

} // verus!
