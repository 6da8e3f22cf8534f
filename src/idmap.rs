//! Bijections between graph ids and schematic addresses, kept in `bimap`'s
//! `BiHashMap`.
use vstd::prelude::*;
use bimap::BiMap;

verus! {

#[verifier::external_type_specification]
#[verifier::external_body]
#[verifier::reject_recursive_types(L)]
#[verifier::reject_recursive_types(R)]
#[verifier::reject_recursive_types(LS)]
#[verifier::reject_recursive_types(RS)]
pub struct ExBiHashMap<L, R, LS, RS>(bimap::BiHashMap<L, R, LS, RS>);

/// A bijection between graph ids (nodes or objects) and schematic addresses.
pub type IdMap = BiMap<usize, (i32, i32)>;

/// The pairs an id map holds, as a map from left values to right values.
pub uninterp spec fn id_pairs(m: BiMap<usize, (i32, i32)>) -> Map<usize, (i32, i32)>;

/// The pairs after inserting `(l, r)`: every pair holding `l` or `r` goes,
/// then `(l, r)` is added.
pub open spec fn put(m: Map<usize, (i32, i32)>, l: usize, r: (i32, i32)) -> Map<usize, (i32, i32)> {
    m.restrict(m.dom().filter(|k: usize| k != l && m[k] != r)).insert(l, r)
}

/// No right value is held by two left values.
pub open spec fn injective(m: Map<usize, (i32, i32)>) -> bool {
    forall|x: usize, y: usize| m.contains_key(x) && m.contains_key(y) && x != y ==> m[x] != m[y]
}

/// Relies on `bimap::BiHashMap::new`: the map starts empty.
#[verifier::external_body]
pub(crate) fn id_map_new() -> (r: IdMap)
    ensures
        id_pairs(r).dom() == Set::<usize>::empty(),
{
    BiMap::new()
}

/// Relies on `bimap::BiHashMap::insert`: it removes the pair holding the
/// left value and the pair holding the right value, then adds the new pair.
#[verifier::external_body]
pub(crate) fn id_map_insert(m: &mut IdMap, l: usize, r: (i32, i32))
    ensures
        id_pairs(*final(m)) == put(id_pairs(*old(m)), l, r),
{
    m.insert(l, r);
}

/// Inserting into a bijection keeps it a bijection, and the new pair is in it.
pub proof fn lemma_put_injective(m: Map<usize, (i32, i32)>, l: usize, r: (i32, i32))
    requires
        injective(m),
    ensures
        injective(put(m, l, r)),
        put(m, l, r).contains_key(l),
        put(m, l, r)[l] == r,
        forall|k: usize| #[trigger] put(m, l, r).contains_key(k) && k != l ==> m.contains_key(k) && put(m, l, r)[k] == m[k],
{
}

} // verus!
