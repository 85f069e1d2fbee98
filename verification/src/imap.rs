//! Trusted boundary around `indexmap::IndexMap`, the insertion-order
//! preserving map that backs the store.
//!
//! The map's contents are named by the uninterpreted `entries_of`; each
//! wrapper states over that name what the method it calls does, as the
//! crate's source and documentation show it.

use vstd::prelude::*;

use indexmap::IndexMap;

use crate::model::Entry;
use crate::model::opt_chars;
use crate::model::spec_get;
use crate::model::spec_insert;

verus! {

#[verifier::external_type_specification]
#[verifier::external_body]
#[verifier::reject_recursive_types(K)]
#[verifier::reject_recursive_types(V)]
#[verifier::reject_recursive_types(S)]
pub struct ExIndexMap<K, V, S>(IndexMap<K, V, S>);

/// The entries a map holds, as (username characters, password characters)
/// pairs in the map's iteration order.
pub uninterp spec fn entries_of(m: IndexMap<String, String>) -> Seq<Entry>;

/// Relies on `IndexMap::new`: a new map holds no entries.
#[verifier::external_body]
pub(crate) fn imap_new() -> (r: IndexMap<String, String>)
    ensures
        entries_of(r) == Seq::<Entry>::empty(),
{
    IndexMap::new()
}

/// Relies on `IndexMap::len`: the number of entries held.
#[verifier::external_body]
pub(crate) fn imap_len(m: &IndexMap<String, String>) -> (r: usize)
    ensures
        r == entries_of(*m).len(),
{
    m.len()
}

/// Relies on `IndexMap::clear`: removes every entry.
#[verifier::external_body]
pub(crate) fn imap_clear(m: &mut IndexMap<String, String>)
    ensures
        entries_of(*final(m)) == Seq::<Entry>::empty(),
{
    m.clear();
}

/// Relies on `IndexMap::insert`: an equivalent key keeps its place in the
/// order and has its value replaced; a new key goes last.  Equality of
/// `String` keys is equality of their characters.
#[verifier::external_body]
pub(crate) fn imap_insert(m: &mut IndexMap<String, String>, username: String, password: String)
    ensures
        entries_of(*final(m)) == spec_insert(entries_of(*old(m)), username@, password@),
{
    m.insert(username, password);
}

/// Relies on `IndexMap::get`: the value stored for the key, if present.
/// Keys in a map are unique, so the first entry with this username is the
/// only one.
#[verifier::external_body]
pub(crate) fn imap_get(m: &IndexMap<String, String>, username: &str) -> (r: Option<String>)
    ensures
        opt_chars(r) == spec_get(entries_of(*m), username@),
{
    m.get(username).cloned()
}

/// Relies on `IndexMap::get_index`: the entry at this position in the
/// order; positions below the length are valid.
#[verifier::external_body]
pub(crate) fn imap_entry(m: &IndexMap<String, String>, i: usize) -> (r: (String, String))
    requires
        i < entries_of(*m).len(),
    ensures
        (r.0@, r.1@) == entries_of(*m)[i as int],
{
    let (k, v) = m.get_index(i).unwrap();
    (k.clone(), v.clone())
}

/// Relies on `IndexMap`'s `Clone`: the copy holds the same entries in the
/// same order.
#[verifier::external_body]
pub(crate) fn imap_clone(m: &IndexMap<String, String>) -> (r: IndexMap<String, String>)
    ensures
        entries_of(r) == entries_of(*m),
{
    m.clone()
}

} // verus!
