//! Trusted boundary around `indexmap::IndexMap`, which holds the ordered
//! phase table. The contents of a table are named by the uninterpreted
//! function `phase_entries`, a sequence of (phase name, fill color) pairs in
//! insertion order; every wrapper states what the crate's documented
//! behaviour does to that sequence.
use vstd::prelude::*;
use indexmap::IndexMap;
use crate::config::PhaseConfig;

verus! {

#[verifier::external_type_specification]
#[verifier::external_body]
#[verifier::reject_recursive_types(K)]
#[verifier::reject_recursive_types(V)]
#[verifier::reject_recursive_types(S)]
pub struct ExIndexMap<K, V, S>(IndexMap<K, V, S>);

/// The (key, value.face) pairs held by a phase table, in insertion order.
pub uninterp spec fn phase_entries(m: IndexMap<String, PhaseConfig>) -> Seq<(Seq<char>, Seq<char>)>;

/// Relies on `IndexMap::new`: creates an empty map.
#[verifier::external_body]
pub(crate) fn pt_new() -> (r: IndexMap<String, PhaseConfig>)
    ensures
        phase_entries(r) == Seq::<(Seq<char>, Seq<char>)>::empty(),
{
    IndexMap::new()
}

/// Relies on `IndexMap::insert`: an existing equivalent key keeps its place
/// in the order and has its value replaced; a new key is appended last.
#[verifier::external_body]
pub(crate) fn pt_insert(m: &mut IndexMap<String, PhaseConfig>, k: String, v: PhaseConfig)
    ensures
        (forall|i: int|
            0 <= i < phase_entries(*old(m)).len() ==> phase_entries(*old(m))[i].0 != k@) ==>
            phase_entries(*final(m)) == phase_entries(*old(m)).push((k@, v.face@)),
        (exists|i: int|
            0 <= i < phase_entries(*old(m)).len() && phase_entries(*old(m))[i].0 == k@) ==>
            (exists|i: int|
                0 <= i < phase_entries(*old(m)).len() && phase_entries(*old(m))[i].0 == k@
                    && phase_entries(*final(m)) == phase_entries(*old(m)).update(
                    i,
                    (k@, v.face@),
                )),
{
    m.insert(k, v);
}

/// Relies on `IndexMap::get`: returns the stored value for an equivalent
/// key, if present, else `None`.
#[verifier::external_body]
pub(crate) fn pt_get<'a>(m: &'a IndexMap<String, PhaseConfig>, k: &str) -> (r: Option<
    &'a PhaseConfig,
>)
    ensures
        match r {
            Some(v) => exists|i: int|
                0 <= i < phase_entries(*m).len() && phase_entries(*m)[i] == (k@, v.face@),
            None => forall|i: int|
                0 <= i < phase_entries(*m).len() ==> phase_entries(*m)[i].0 != k@,
        },
{
    m.get(k)
}

/// Relies on `IndexMap::iter`: yields the entries in their order.
#[verifier::external_body]
pub(crate) fn pt_entry_list(m: &IndexMap<String, PhaseConfig>) -> (r: Vec<(String, String)>)
    ensures
        r@.map_values(|p: (String, String)| (p.0@, p.1@)) == phase_entries(*m),
{
    m.iter().map(|(k, v)| (k.clone(), v.face.clone())).collect()
}

} // verus!
