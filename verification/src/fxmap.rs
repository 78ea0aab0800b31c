//! `rustc_hash::FxHashMap` keyed by strings, and what its methods do.

use rustc_hash::{FxBuildHasher, FxHashMap};
use vstd::prelude::*;

verus! {

/// The hasher of `rustc_hash`.
#[verifier::external_type_specification]
#[verifier::external_body]
pub struct ExFxBuildHasher(FxBuildHasher);

/// What a map keyed by strings holds, by the texts of its keys.
pub open spec fn by_text<V>(m: Map<String, V>) -> Map<Seq<char>, V> {
    Map::new(
        |t: Seq<char>| exists|k: String| #[trigger] m.contains_key(k) && k@ == t,
        |t: Seq<char>| m[choose|k: String| #[trigger] m.contains_key(k) && k@ == t],
    )
}

/// `FxHashMap::default`: a map that holds nothing.
#[verifier::external_body]
pub(crate) fn fx_new<V>() -> (r: FxHashMap<String, V>)
    ensures
        (by_text(r@) == Map::<Seq<char>, V>::empty()),
{
    FxHashMap::default()
}

/// `HashMap::get`: the value under a key, if there is one.
#[verifier::external_body]
pub(crate) fn fx_get<'a, V>(m: &'a FxHashMap<String, V>, k: &str) -> (r: Option<&'a V>)
    ensures
        r is Some <==> by_text(m@).contains_key(k@),
        r matches Some(v) ==> *v == by_text(m@)[k@],
{
    m.get(k)
}

/// `HashMap::get_mut`: the value under a key, to be changed in place; nothing
/// else changes.
#[verifier::external_body]
pub(crate) fn fx_get_mut<'a, V>(m: &'a mut FxHashMap<String, V>, k: &str) -> (r: Option<&'a mut V>)
    ensures
        r is Some <==> by_text(old(m)@).contains_key(k@),
        r is None ==> by_text(final(m)@) == by_text(old(m)@),
        r matches Some(v) ==> *v == by_text(old(m)@)[k@] && by_text(final(m)@) == by_text(
            old(m)@,
        ).insert(k@, *final(v)),
{
    m.get_mut(k)
}

/// `HashMap::insert`: puts a value under a key, in place of the one that was
/// there.
#[verifier::external_body]
pub(crate) fn fx_insert<V>(m: &mut FxHashMap<String, V>, k: String, v: V)
    ensures
        by_text(final(m)@) == by_text(old(m)@).insert(k@, v),
{
    m.insert(k, v);
}

/// `HashMap::remove`: takes the value under a key out.
#[verifier::external_body]
pub(crate) fn fx_remove<V>(m: &mut FxHashMap<String, V>, k: &str) -> (r: Option<V>)
    ensures
        r is Some <==> by_text(old(m)@).contains_key(k@),
        r matches Some(v) ==> v == by_text(old(m)@)[k@],
        by_text(final(m)@) == by_text(old(m)@).remove(k@),
{
    m.remove(k)
}

/// `HashMap::len`: how many keys there are.
#[verifier::external_body]
pub(crate) fn fx_len<V>(m: &FxHashMap<String, V>) -> (r: usize)
    ensures
        r == by_text(m@).dom().len(),
{
    m.len()
}

/// `HashMap::is_empty`: whether there is no key.
#[verifier::external_body]
pub(crate) fn fx_is_empty<V>(m: &FxHashMap<String, V>) -> (r: bool)
    ensures
        r <==> forall|t: Seq<char>| !(#[trigger] by_text(m@).contains_key(t)),
{
    m.is_empty()
}

/// `HashMap::keys`: all keys, each once. In what order they come is left open.
#[verifier::external_body]
pub(crate) fn fx_keys<V>(m: &FxHashMap<String, V>) -> (r: Vec<String>)
    ensures
        forall|i: int, j: int| 0 <= i < j < r@.len() ==> (#[trigger] r@[i])@ != (#[trigger] r@[j])@,
        forall|i: int| 0 <= i < r@.len() ==> by_text(m@).contains_key((#[trigger] r@[i])@),
        forall|t: Seq<char>| #[trigger]
            by_text(m@).contains_key(t) ==> exists|i: int| 0 <= i < r@.len() && (#[trigger] r@[i])@
                == t,
{
    m.keys().cloned().collect()
}

} // verus!
