use vstd::prelude::*;

use indexmap::IndexSet;

verus! {

#[verifier::external_type_specification]
#[verifier::external_body]
#[verifier::reject_recursive_types(T)]
#[verifier::reject_recursive_types(S)]
pub struct ExIndexSet<T, S>(IndexSet<T, S>);

/// The keys of a test index, in the order in which they were first inserted.
pub uninterp spec fn index_keys(s: IndexSet<(u32, u32, u32)>) -> Seq<(u32, u32, u32)>;

/// Makes an empty index.
///
/// Relies on `indexmap::IndexSet::new`: a new set is empty.
#[verifier::external_body]
pub fn new_index() -> (r: IndexSet<(u32, u32, u32)>)
    ensures
        index_keys(r) == Seq::<(u32, u32, u32)>::empty(),
{
    IndexSet::new()
}

/// The number of keys.
///
/// Relies on `indexmap::IndexSet::len`.
#[verifier::external_body]
pub fn index_len(s: &IndexSet<(u32, u32, u32)>) -> (r: usize)
    ensures
        r == index_keys(*s).len(),
{
    s.len()
}

/// The key at position `i`.
///
/// Relies on indexing an `indexmap::IndexSet` by position, which gives the `i`-th key
/// inserted.
#[verifier::external_body]
pub fn index_get(s: &IndexSet<(u32, u32, u32)>, i: usize) -> (r: (u32, u32, u32))
    requires
        i < index_keys(*s).len(),
    ensures
        r == index_keys(*s)[i as int],
{
    s[i]
}

/// Inserts `k` unless it is there, giving its position and whether it was added.
///
/// Relies on `indexmap::IndexSet::insert_full`: an existing key keeps its position and the
/// set is unchanged; a new key goes at the end.
#[verifier::external_body]
pub fn index_insert_full(s: &mut IndexSet<(u32, u32, u32)>, k: (u32, u32, u32)) -> (r: (
    usize,
    bool,
))
    ensures
        index_keys(*old(s)).contains(k) ==> !r.1 && index_keys(*final(s)) == index_keys(*old(s))
            && r.0 < index_keys(*old(s)).len() && index_keys(*old(s))[r.0 as int] == k,
        !index_keys(*old(s)).contains(k) ==> r.1 && r.0 == index_keys(*old(s)).len()
            && index_keys(*final(s)) == index_keys(*old(s)).push(k),
{
    s.insert_full(k)
}

} // verus!
