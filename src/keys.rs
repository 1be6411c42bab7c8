use indexmap::IndexSet;
use vstd::prelude::*;

verus! {

#[verifier::external_type_specification]
#[verifier::external_body]
#[verifier::reject_recursive_types(T)]
#[verifier::reject_recursive_types(S)]
pub struct ExIndexSet<T, S>(IndexSet<T, S>);

/// The keys that an `IndexSet<u64>` holds, in insertion order.
pub uninterp spec fn key_order(s: IndexSet<u64>) -> Seq<u64>;

/// Relies on `IndexSet::with_capacity`: a new set holds no key.
#[verifier::external_body]
pub(crate) fn new_key_set(n: usize) -> (r: IndexSet<u64>)
    ensures
        key_order(r) == Seq::<u64>::empty(),
{
    IndexSet::with_capacity(n)
}

/// Relies on `IndexSet::insert`: a key not yet present goes last and the
/// call returns true; a present key keeps its place and the call returns
/// false.
#[verifier::external_body]
pub(crate) fn insert_key(s: &mut IndexSet<u64>, k: u64) -> (r: bool)
    ensures
        r == !key_order(*old(s)).contains(k),
        key_order(*final(s)) == (if r {
            key_order(*old(s)).push(k)
        } else {
            key_order(*old(s))
        }),
{
    s.insert(k)
}

/// Relies on `IndexSet::get_index_of`: the position of a key, if present.
#[verifier::external_body]
pub(crate) fn key_index(s: &IndexSet<u64>, k: u64) -> (r: Option<usize>)
    ensures
        match r {
            Some(i) => i < key_order(*s).len() && key_order(*s)[i as int] == k,
            None => !key_order(*s).contains(k),
        },
{
    s.get_index_of(&k)
}

/// Relies on `IndexSet::len`: the number of keys.
#[verifier::external_body]
pub(crate) fn key_count(s: &IndexSet<u64>) -> (r: usize)
    ensures
        r == key_order(*s).len(),
{
    s.len()
}

/// Relies on `IndexSet::get_index`: the key at a position.
#[verifier::external_body]
pub(crate) fn key_at(s: &IndexSet<u64>, i: usize) -> (r: Option<u64>)
    ensures
        i < key_order(*s).len() ==> r == Some(key_order(*s)[i as int]),
        i >= key_order(*s).len() ==> r is None,
{
    s.get_index(i).copied()
}

} // verus!
