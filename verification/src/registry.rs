//! The hash maps the kernel keeps its tables in: page-table roots by name,
//! and table slots by id. Both are `hashbrown` maps. The verifier does not
//! look inside them: what a map holds is named by a specification function,
//! and each operation states its effect on that.

use vstd::prelude::*;

verus! {

/// A `hashbrown::HashMap` from names to addresses.
#[verifier::external_body]
pub struct NameMap {
    inner: hashbrown::HashMap<String, u64>,
}

/// What a [`NameMap`] holds: the address stored under each name.
pub uninterp spec fn name_entries(m: NameMap) -> Map<Seq<char>, u64>;

/// The name map with no entry.
pub open spec fn no_names() -> Map<Seq<char>, u64> {
    Map::empty()
}

/// `hashbrown::HashMap::new`: a map that holds nothing.
#[verifier::external_body]
pub(crate) fn name_map_new() -> (m: NameMap)
    ensures
        name_entries(m) == no_names(),
{
    NameMap { inner: hashbrown::HashMap::new() }
}

/// `hashbrown::HashMap::get`: the address stored under `name`, if there is one.
#[verifier::external_body]
pub(crate) fn name_map_get(m: &NameMap, name: &str) -> (r: Option<u64>)
    ensures
        r == (if name_entries(*m).contains_key(name@) {
            Some(name_entries(*m)[name@])
        } else {
            None
        }),
{
    m.inner.get(name).copied()
}

/// `hashbrown::HashMap::insert`: afterwards `name` stands for `value`; every
/// other name keeps what it had.
#[verifier::external_body]
pub(crate) fn name_map_insert(m: &mut NameMap, name: String, value: u64)
    ensures
        name_entries(*final(m)) == name_entries(*old(m)).insert(name@, value),
{
    m.inner.insert(name, value);
}

/// A `hashbrown::HashMap` from ids to positions in a vector.
#[verifier::external_body]
pub struct IndexMap {
    inner: hashbrown::HashMap<usize, usize>,
}

/// What an [`IndexMap`] holds: the position stored under each id.
pub uninterp spec fn index_entries(m: IndexMap) -> Map<usize, usize>;

/// The index map with no entry.
pub open spec fn no_indices() -> Map<usize, usize> {
    Map::empty()
}

/// `hashbrown::HashMap::new`: a map that holds nothing.
#[verifier::external_body]
pub(crate) fn index_map_new() -> (m: IndexMap)
    ensures
        index_entries(m) == no_indices(),
{
    IndexMap { inner: hashbrown::HashMap::new() }
}

/// `hashbrown::HashMap::get`: the position stored under `id`, if there is one.
#[verifier::external_body]
pub(crate) fn index_map_get(m: &IndexMap, id: usize) -> (r: Option<usize>)
    ensures
        r == (if index_entries(*m).contains_key(id) {
            Some(index_entries(*m)[id])
        } else {
            None
        }),
{
    m.inner.get(&id).copied()
}

/// `hashbrown::HashMap::insert`: afterwards `id` stands for `position`; every
/// other id keeps what it had.
#[verifier::external_body]
pub(crate) fn index_map_insert(m: &mut IndexMap, id: usize, position: usize)
    ensures
        index_entries(*final(m)) == index_entries(*old(m)).insert(id, position),
{
    m.inner.insert(id, position);
}

/// `hashbrown::HashMap::remove`: afterwards `id` stands for nothing; every
/// other id keeps what it had.
#[verifier::external_body]
pub(crate) fn index_map_remove(m: &mut IndexMap, id: usize)
    ensures
        index_entries(*final(m)) == index_entries(*old(m)).remove(id),
{
    m.inner.remove(&id);
}

} // verus!
