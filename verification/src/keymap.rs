//! The hash maps behind the indices: `ahash::AHashMap` keyed by the tuple of
//! indexed field values.
use ahash::AHashMap;
use vstd::prelude::*;

verus! {

/// `ahash::AHashMap`, carried as an opaque value: what it holds is known
/// only through `id_entries` and `head_entries`.
#[verifier::external_type_specification]
#[verifier::external_body]
#[verifier::reject_recursive_types(K)]
#[verifier::reject_recursive_types(V)]
#[verifier::reject_recursive_types(S)]
pub struct ExAHashMap<K, V, S>(AHashMap<K, V, S>);

/// `ahash::RandomState`, the default hasher parameter of `AHashMap`; nothing
/// is stated of it.
#[verifier::external_type_specification]
#[verifier::external_body]
pub struct ExRandomState(ahash::RandomState);

/// The unique-index map without entries.
pub open spec fn no_ids() -> Map<Seq<u64>, usize> {
    Map::empty()
}

/// The multi-index map without entries.
pub open spec fn no_heads() -> Map<Seq<u64>, (usize, usize)> {
    Map::empty()
}

/// What a unique index's map holds: each key with the id of its record.
pub uninterp spec fn id_entries(map: AHashMap<Vec<u64>, usize>) -> Map<Seq<u64>, usize>;

/// What a multi index's map holds: each key with its bucket head, as the pair
/// of a member id and the member count.
pub uninterp spec fn head_entries(map: AHashMap<Vec<u64>, (usize, usize)>) -> Map<
    Seq<u64>,
    (usize, usize),
>;

/// `AHashMap::new`: a map without entries.
#[verifier::external_body]
pub(crate) fn id_map_new() -> (map: AHashMap<Vec<u64>, usize>)
    ensures
        id_entries(map) == no_ids(),
{
    AHashMap::new()
}

/// `AHashMap::get`: the id stored under a key equal to the given one, if any.
#[verifier::external_body]
pub(crate) fn id_map_get(map: &AHashMap<Vec<u64>, usize>, key: &Vec<u64>) -> (out: Option<usize>)
    ensures
        out == (if id_entries(*map).contains_key(key@) {
            Some(id_entries(*map)[key@])
        } else {
            None
        }),
{
    map.get(key).copied()
}

/// `AHashMap::insert`: binds the key to the id, replacing an earlier binding
/// of an equal key; other entries stay.
#[verifier::external_body]
pub(crate) fn id_map_insert(map: &mut AHashMap<Vec<u64>, usize>, key: Vec<u64>, id: usize)
    ensures
        id_entries(*final(map)) == id_entries(*old(map)).insert(key@, id),
{
    map.insert(key, id);
}

/// `AHashMap::remove`: drops the entry of an equal key, if there is one;
/// other entries stay.
#[verifier::external_body]
pub(crate) fn id_map_remove(map: &mut AHashMap<Vec<u64>, usize>, key: &Vec<u64>)
    ensures
        id_entries(*final(map)) == id_entries(*old(map)).remove(key@),
{
    map.remove(key);
}

/// `HashMap::clear`, reached through `AHashMap`'s `DerefMut`: drops every
/// entry.
#[verifier::external_body]
pub(crate) fn id_map_clear(map: &mut AHashMap<Vec<u64>, usize>)
    ensures
        id_entries(*final(map)) == no_ids(),
{
    map.clear();
}

/// `AHashMap::new`: a map without entries.
#[verifier::external_body]
pub(crate) fn head_map_new() -> (map: AHashMap<Vec<u64>, (usize, usize)>)
    ensures
        head_entries(map) == no_heads(),
{
    AHashMap::new()
}

/// `AHashMap::get`: the bucket head stored under a key equal to the given
/// one, if any.
#[verifier::external_body]
pub(crate) fn head_map_get(
    map: &AHashMap<Vec<u64>, (usize, usize)>,
    key: &Vec<u64>,
) -> (out: Option<(usize, usize)>)
    ensures
        out == (if head_entries(*map).contains_key(key@) {
            Some(head_entries(*map)[key@])
        } else {
            None
        }),
{
    map.get(key).copied()
}

/// `AHashMap::insert`: binds the key to the bucket head, replacing an earlier
/// binding of an equal key; other entries stay.
#[verifier::external_body]
pub(crate) fn head_map_insert(
    map: &mut AHashMap<Vec<u64>, (usize, usize)>,
    key: Vec<u64>,
    head: (usize, usize),
)
    ensures
        head_entries(*final(map)) == head_entries(*old(map)).insert(key@, head),
{
    map.insert(key, head);
}

/// `AHashMap::remove`: drops the entry of an equal key, if there is one;
/// other entries stay.
#[verifier::external_body]
pub(crate) fn head_map_remove(map: &mut AHashMap<Vec<u64>, (usize, usize)>, key: &Vec<u64>)
    ensures
        head_entries(*final(map)) == head_entries(*old(map)).remove(key@),
{
    map.remove(key);
}

/// `HashMap::clear`, reached through `AHashMap`'s `DerefMut`: drops every
/// entry.
#[verifier::external_body]
pub(crate) fn head_map_clear(map: &mut AHashMap<Vec<u64>, (usize, usize)>)
    ensures
        head_entries(*final(map)) == no_heads(),
{
    map.clear();
}

} // verus!
