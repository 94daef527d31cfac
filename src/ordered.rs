//! The insertion-ordered maps of `indexmap` that hold the inode table.
//!
//! Verus sees an `IndexMap` only through the names below: what a map of
//! inodes holds as a `Map`, and what a map of directory children holds as a
//! `Seq` of (name, (inode, cookie)) in the map's order.

use indexmap::IndexMap;
use vstd::prelude::*;
use crate::node::NodeInner;

verus! {

/// The arena of inodes, by id.
pub type NodeMap = IndexMap<u64, NodeInner>;

/// The children of a directory: name to (inode id, listing cookie).
pub type ChildMap = IndexMap<String, (u64, u64)>;

/// A child as `IndexMap::get_index` hands it out.
pub type ChildRef<'a> = (&'a String, &'a (u64, u64));

#[verifier::external_type_specification]
#[verifier::external_body]
#[verifier::reject_recursive_types(K)]
#[verifier::reject_recursive_types(V)]
#[verifier::reject_recursive_types(S)]
pub struct ExIndexMap<K, V, S>(IndexMap<K, V, S>);

/// What a map of inodes holds, by inode id.
pub uninterp spec fn node_map(m: NodeMap) -> Map<u64, NodeInner>;

/// What a map of directory children holds, in the map's order.
pub uninterp spec fn child_entries(m: ChildMap) -> Seq<(Seq<char>, (u64, u64))>;

/// Relies on `IndexMap::new`: the map is empty.
#[verifier::external_body]
pub(crate) fn nodes_new() -> (r: NodeMap)
    ensures
        node_map(r).dom() == Set::<u64>::empty(),
{
    IndexMap::new()
}

/// Relies on `IndexMap::get`: the value stored for `k`, if any.
#[verifier::external_body]
pub(crate) fn nodes_get<'a>(m: &'a NodeMap, k: u64) -> (r: Option<&'a NodeInner>)
    ensures
        match r {
            Some(v) => node_map(*m).contains_key(k) && *v == node_map(*m)[k],
            None => !node_map(*m).contains_key(k),
        },
{
    m.get(&k)
}

/// Relies on `IndexMap::insert`: afterwards `k` maps to `v`, the other keys are kept.
#[verifier::external_body]
pub(crate) fn nodes_insert(m: &mut NodeMap, k: u64, v: NodeInner)
    ensures
        node_map(*final(m)) == node_map(*old(m)).insert(k, v),
{
    m.insert(k, v);
}

/// Relies on `IndexMap::swap_remove`: removes `k` and hands back its value.
#[verifier::external_body]
pub(crate) fn nodes_remove(m: &mut NodeMap, k: u64) -> (r: Option<NodeInner>)
    ensures
        node_map(*final(m)) == node_map(*old(m)).remove(k),
        match r {
            Some(v) => node_map(*old(m)).contains_key(k) && v == node_map(*old(m))[k],
            None => !node_map(*old(m)).contains_key(k),
        },
{
    m.swap_remove(&k)
}

/// Relies on `IndexMap::new`: the map is empty.
#[verifier::external_body]
pub(crate) fn children_new() -> (r: ChildMap)
    ensures
        child_entries(r).len() == 0,
{
    IndexMap::new()
}

/// Relies on `IndexMap::get`: the value stored under the key equal to `name`.
#[verifier::external_body]
pub(crate) fn children_get<'a>(m: &'a ChildMap, name: &str) -> (r: Option<&'a (u64, u64)>)
    ensures
        match r {
            Some(v) => exists|i: int|
                0 <= i < child_entries(*m).len() && #[trigger] child_entries(*m)[i] == (name@, *v),
            None => forall|i: int|
                0 <= i < child_entries(*m).len() ==> (#[trigger] child_entries(*m)[i]).0 != name@,
        },
{
    m.get(name)
}

/// Relies on `IndexMap::insert`: a key not yet present is added last in order.
#[verifier::external_body]
pub(crate) fn children_insert(m: &mut ChildMap, name: String, v: (u64, u64))
    requires
        forall|i: int|
            0 <= i < child_entries(*old(m)).len() ==> (#[trigger] child_entries(*old(m))[i]).0 != name@,
    ensures
        child_entries(*final(m)) == child_entries(*old(m)).push((name@, v)),
{
    m.insert(name, v);
}

/// Relies on `IndexMap::shift_remove`: removes the key equal to `name` and keeps
/// the order of the others.
#[verifier::external_body]
pub(crate) fn children_remove(m: &mut ChildMap, name: &str) -> (r: Option<(u64, u64)>)
    ensures
        match r {
            Some(v) => exists|i: int|
                0 <= i < child_entries(*old(m)).len() && #[trigger] child_entries(*old(m))[i] == (name@, v)
                    && child_entries(*final(m)) == child_entries(*old(m)).remove(i),
            None => child_entries(*final(m)) == child_entries(*old(m)) && forall|i: int|
                0 <= i < child_entries(*old(m)).len() ==> (#[trigger] child_entries(*old(m))[i]).0 != name@,
        },
{
    m.shift_remove(name)
}

/// Relies on `IndexMap::len`: the number of entries.
#[verifier::external_body]
pub(crate) fn children_len(m: &ChildMap) -> (r: usize)
    ensures
        r == child_entries(*m).len(),
{
    m.len()
}

/// Relies on `IndexMap::get_index`: the entry at position `i`.
#[verifier::external_body]
pub(crate) fn children_get_index<'a>(m: &'a ChildMap, i: usize) -> (r: Option<ChildRef<'a>>)
    ensures
        match r {
            Some((k, v)) => i < child_entries(*m).len() && k@ == child_entries(*m)[i as int].0
                && *v == child_entries(*m)[i as int].1,
            None => i >= child_entries(*m).len(),
        },
{
    m.get_index(i)
}

} // verus!
