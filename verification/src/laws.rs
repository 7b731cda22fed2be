//! What holds of every well-formed table, stated over the model that the
//! table's operations are specified with.
use crate::model::{
    key_taken, lemma_inserted_wf, lemma_multi_insert, lemma_multi_remove, lemma_removed_wf,
    multi_sound, unique_sound, TableModel,
};
use crate::multi::bucket;
use crate::schema::key_of;
use vstd::prelude::*;

verus! {

/// Id reuse: once a live record is removed, its id is the one announced for
/// the next insertion, so a record that is then inserted is accepted or
/// refused as the table decides, and if accepted, lives under that id.
pub proof fn law_reuse(m: TableModel, id: usize, item: Seq<u64>)
    requires
        m.wf(),
        m.records.contains_key(id),
    ensures
        m.removed(id).next_id() == id,
        m.removed(id).refusal(item) is None ==> m.removed(id).outcome(item) == Ok::<
            usize,
            crate::model::InsertError,
        >(id),
        m.removed(id).inserted(item).records == m.records.insert(id, item),
{
    assert(m.removed(id).inserted(item).records =~= m.records.insert(id, item));
}

/// Ids are reused before new ones are made: while a freed id is waiting, an
/// insertion takes the most recently freed one, and only a table without
/// freed ids hands out an id that was never used.
pub proof fn law_freed_ids_first(m: TableModel, item: Seq<u64>)
    requires
        m.wf(),
    ensures
        m.vacancies.len() > 1 ==> m.inserted(item).vacancies == m.vacancies.drop_first(),
        m.vacancies.len() == 1 ==> forall|id: usize| #[trigger]
            m.records.contains_key(id) ==> id < m.next_id(),
{
}

/// A refused insertion leaves the table as it was, and an insertion is
/// refused exactly when the record does not fit the schema or conflicts.
pub proof fn law_rejected_insert_changes_nothing(m: TableModel, item: Seq<u64>)
    ensures
        m.outcome(item) is Err ==> m.attempted(item) == m,
        m.outcome(item) is Err <==> item.len() != m.arity || m.conflicts(item),
        m.outcome(item) is Ok ==> m.attempted(item) == m.inserted(item),
{
}

/// Every attempt to insert keeps the table invariant, whether it succeeds
/// or not, as long as ids have not run out.
pub proof fn law_insert_keeps_invariant(m: TableModel, item: Seq<u64>)
    requires
        m.wf(),
        m.next_id() < usize::MAX,
    ensures
        m.attempted(item).wf(),
{
    if m.refusal(item) is None {
        lemma_inserted_wf(m, item);
    }
}

/// Every removal keeps the table invariant.
pub proof fn law_remove_keeps_invariant(m: TableModel, id: usize)
    requires
        m.wf(),
    ensures
        m.removed(id).wf(),
{
    lemma_removed_wf(m, id);
}

/// Uniqueness: two different live records never share a key of a unique
/// index.
pub proof fn law_unique_keys(m: TableModel, index: int, a: usize, b: usize)
    requires
        m.wf(),
        0 <= index < m.unique_fields.len(),
        m.records.contains_key(a),
        m.records.contains_key(b),
        a != b,
    ensures
        key_of(m.records[a], m.unique_fields[index]) != key_of(m.records[b], m.unique_fields[index]),
{
    assert(unique_sound(m.records, m.unique_fields[index], m.unique_ids[index]));
}

/// An insertion conflicts exactly when some live record already has the new
/// record's key under some unique index.
pub proof fn law_conflict_is_duplicate(m: TableModel, item: Seq<u64>)
    requires
        m.wf(),
    ensures
        m.conflicts(item) <==> exists|i: int, id: usize|
            0 <= i < m.unique_fields.len() && #[trigger] m.records.contains_key(id) && key_of(
                m.records[id],
                #[trigger] m.unique_fields[i],
            ) == key_of(item, m.unique_fields[i]),
{
    if m.conflicts(item) {
        let i = choose|i: int|
            0 <= i < m.unique_ids.len() && #[trigger] key_taken(
                m.unique_ids,
                m.unique_fields,
                item,
                i,
            );
        assert(unique_sound(m.records, m.unique_fields[i], m.unique_ids[i]));
        let key = key_of(item, m.unique_fields[i]);
        assert(m.unique_ids[i].contains_key(key));
        let id = m.unique_ids[i][key];
        assert(m.records.contains_key(id) && key_of(m.records[id], m.unique_fields[i]) == key);
    }
    if exists|i: int, id: usize|
        0 <= i < m.unique_fields.len() && #[trigger] m.records.contains_key(id) && key_of(
            m.records[id],
            #[trigger] m.unique_fields[i],
        ) == key_of(item, m.unique_fields[i]) {
        let (i, id) = choose|i: int, id: usize|
            0 <= i < m.unique_fields.len() && #[trigger] m.records.contains_key(id) && key_of(
                m.records[id],
                #[trigger] m.unique_fields[i],
            ) == key_of(item, m.unique_fields[i]);
        assert(unique_sound(m.records, m.unique_fields[i], m.unique_ids[i]));
        assert(key_taken(m.unique_ids, m.unique_fields, item, i));
    }
}

/// A unique index finds exactly the live record with the key, if there is
/// one.
pub proof fn law_unique_hit(m: TableModel, index: int, key: Seq<u64>)
    requires
        m.wf(),
        0 <= index < m.unique_fields.len(),
    ensures
        match m.unique_hit(index, key) {
            Some(id) => m.records.contains_key(id) && key_of(
                m.records[id],
                m.unique_fields[index],
            ) == key,
            None => forall|id: usize| #[trigger]
                m.records.contains_key(id) ==> key_of(m.records[id], m.unique_fields[index])
                    != key,
        },
{
    assert(unique_sound(m.records, m.unique_fields[index], m.unique_ids[index]));
}

/// The live records whose key under multi index `index` is `key`.
pub open spec fn matching(m: TableModel, index: int, key: Seq<u64>) -> Set<usize> {
    Set::new(
        |id: usize|
            m.records.contains_key(id) && key_of(m.records[id], m.multi_fields[index]) == key,
    )
}

/// Completeness of a multi index: the ids filed under a key are exactly the
/// live records whose indexed fields equal the key, each of them once, so
/// the stored count is the number of those records.
pub proof fn law_bucket_complete(m: TableModel, index: int, key: Seq<u64>)
    requires
        m.wf(),
        0 <= index < m.multi_fields.len(),
    ensures
        m.multi_hits(index, key).no_duplicates(),
        m.multi_hits(index, key).to_set() == matching(m, index, key),
        m.multi_hits(index, key).len() == matching(m, index, key).len(),
{
    assert(multi_sound(m.records, m.multi_fields[index], m.buckets[index]));
    lemma_bucket_members(m.records, m.multi_fields[index], m.buckets[index], key);
    let hits = m.multi_hits(index, key);
    assert(hits.to_set() =~= matching(m, index, key));
    hits.unique_seq_to_set();
}

/// The members of a bucket of a sound multi index are the live records with
/// the bucket's key, each of them once.
pub proof fn lemma_bucket_members(
    records: Map<usize, Seq<u64>>,
    fields: Seq<usize>,
    m: Map<Seq<u64>, Seq<usize>>,
    key: Seq<u64>,
)
    requires
        multi_sound(records, fields, m),
    ensures
        bucket(m, key).no_duplicates(),
        forall|id: usize|
            bucket(m, key).contains(id) <==> records.contains_key(id) && key_of(
                records[id],
                fields,
            ) == key,
{
    let hits = bucket(m, key);
    assert forall|a: int, b: int| 0 <= a < hits.len() && 0 <= b < hits.len() && a != b implies hits[a]
        != hits[b] by {
        assert(m[key][a] == hits[a]);
        assert(m[key][b] == hits[b]);
    }
    assert forall|id: usize| hits.contains(id) implies records.contains_key(id) && key_of(
        records[id],
        fields,
    ) == key by {
        let j = choose|j: int| 0 <= j < hits.len() && hits[j] == id;
        assert(m[key][j] == id);
    }
}

/// Removal is idempotent: after a live record is removed, its id is no
/// longer live, one record fewer is live, and removing the id again changes
/// nothing.
pub proof fn law_remove_twice(m: TableModel, id: usize)
    requires
        m.wf(),
        m.records.dom().finite(),
        m.records.contains_key(id),
    ensures
        !m.removed(id).records.contains_key(id),
        m.removed(id).records.len() == m.records.len() - 1,
        m.removed(id).removed(id) == m.removed(id),
{
}

/// Round trip: removing a live record and inserting the same value again
/// succeeds, gives it the same id, and restores the records, the vacancies,
/// every unique index and the membership of every bucket.
pub proof fn law_round_trip(m: TableModel, id: usize)
    requires
        m.wf(),
        m.records.contains_key(id),
    ensures
        m.removed(id).outcome(m.records[id]) == Ok::<usize, crate::model::InsertError>(id),
        m.removed(id).attempted(m.records[id]).wf(),
        m.removed(id).attempted(m.records[id]).records == m.records,
        m.removed(id).attempted(m.records[id]).vacancies == m.vacancies,
        m.removed(id).attempted(m.records[id]).unique_ids == m.unique_ids,
        forall|index: int, key: Seq<u64>, x: usize|
            0 <= index < m.multi_fields.len() ==> (#[trigger] m.removed(id).attempted(
                m.records[id],
            ).multi_hits(index, key).contains(x) <==> m.multi_hits(index, key).contains(x)),
{
    let item = m.records[id];
    let gone = m.removed(id);
    let back = gone.inserted(item);
    lemma_removed_wf(m, id);
    assert forall|i: int| 0 <= i < m.unique_ids.len() implies !key_taken(
        gone.unique_ids,
        gone.unique_fields,
        item,
        i,
    ) && #[trigger] back.unique_ids[i] == m.unique_ids[i] by {
        assert(unique_sound(m.records, m.unique_fields[i], m.unique_ids[i]));
        assert(back.unique_ids[i] =~= m.unique_ids[i]);
    }
    assert(gone.refusal(item) is None);
    assert(back.records =~= m.records);
    assert(back.vacancies =~= m.vacancies);
    assert(back.unique_ids =~= m.unique_ids);
    assert forall|index: int| 0 <= index < back.buckets.len() implies multi_sound(
        back.records,
        back.multi_fields[index],
        #[trigger] back.buckets[index],
    ) by {
        let fields = m.multi_fields[index];
        assert(multi_sound(m.records, fields, m.buckets[index]));
        lemma_multi_remove(m.records, fields, m.buckets[index], id);
        lemma_multi_insert(gone.records, fields, gone.buckets[index], id, item);
    }
    assert(back.wf());
    assert forall|index: int, key: Seq<u64>, x: usize|
        0 <= index < m.multi_fields.len() implies (#[trigger] back.multi_hits(index, key).contains(
        x,
    ) <==> m.multi_hits(index, key).contains(x)) by {
        let fields = m.multi_fields[index];
        assert(multi_sound(m.records, fields, m.buckets[index]));
        assert(multi_sound(back.records, fields, back.buckets[index]));
        lemma_bucket_members(back.records, fields, back.buckets[index], key);
        lemma_bucket_members(m.records, fields, m.buckets[index], key);
    }
}

} // verus!
