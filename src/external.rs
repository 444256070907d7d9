//! Declarations of the outside types that the library carries, and the
//! outside calls that it makes on them.
use indexmap::IndexSet;
use rustpython_bytecode::bytecode::{CodeFlags, Location};
use std::collections::hash_map::RandomState;
use vstd::prelude::*;

verus! {

/// A source position (row and column); carried through unchanged.
#[verifier::external_type_specification]
#[verifier::external_body]
pub struct ExLocation(Location);

/// The flag word of a code object; carried through, and read for its two
/// variadic-parameter flags.
#[verifier::external_type_specification]
#[verifier::external_body]
pub struct ExCodeFlags(CodeFlags);

/// An insertion-ordered set of distinct values.
#[verifier::external_type_specification]
#[verifier::external_body]
#[verifier::reject_recursive_types(T)]
#[verifier::reject_recursive_types(S)]
pub struct ExIndexSet<T, S>(IndexSet<T, S>);

/// The strings held by an interned set, in the order of their indices.
pub uninterp spec fn interned(s: IndexSet<String, RandomState>) -> Seq<Seq<char>>;

/// Relies on `IndexSet::len`: the number of values held.
#[verifier::external_body]
pub(crate) fn interned_len(s: &IndexSet<String, RandomState>) -> (r: usize)
    ensures
        r == interned(*s).len(),
{
    s.len()
}

/// Relies on `IndexSet::get_index_of`: the index at which an equal value is
/// held, which is the only such index, or `None` when no value is equal.
#[verifier::external_body]
pub(crate) fn interned_index_of(s: &IndexSet<String, RandomState>, key: &String) -> (r: Option<usize>)
    ensures
        match r {
            Some(i) => i < interned(*s).len() && interned(*s)[i as int] == key@
                && forall|j: int| 0 <= j < interned(*s).len() && interned(*s)[j] == key@ ==> j == i,
            None => forall|j: int| 0 <= j < interned(*s).len() ==> interned(*s)[j] != key@,
        },
{
    s.get_index_of(key)
}

/// Relies on `IndexSet::get_index`: the value at an index below the length.
#[verifier::external_body]
pub(crate) fn interned_get(s: &IndexSet<String, RandomState>, i: usize) -> (r: Option<&String>)
    ensures
        i < interned(*s).len() <==> r.is_some(),
        r.is_some() ==> r.unwrap()@ == interned(*s)[i as int],
{
    s.get_index(i)
}

/// Relies on `IndexSet`'s `into_iter`: the values in index order.
#[verifier::external_body]
pub(crate) fn interned_into_vec(s: IndexSet<String, RandomState>) -> (r: Vec<String>)
    ensures
        r@.map_values(|x: String| x@) == interned(s),
{
    s.into_iter().collect()
}

/// Relies on `CodeFlags::contains` (bitflags): whether the flags hold
/// `HAS_VARARGS` and `HAS_VARKEYWORDS`.
#[verifier::external_body]
pub(crate) fn variadic_flags(flags: &CodeFlags) -> (r: (bool, bool))
{
    (flags.contains(CodeFlags::HAS_VARARGS), flags.contains(CodeFlags::HAS_VARKEYWORDS))
}

} // verus!
