//! The mathematical model of a table: its schema, its live records, what each
//! index holds and the id that the next insertion receives; the transitions
//! that the table's operations perform on it; and the invariant that ties the
//! indices to the records.
use crate::multi::{
    bucket, buckets_ok, lemma_with_member_ok, lemma_without_member_ok, with_member, without_member,
};
use crate::schema::{fields_fit, key_of};
use crate::slots::{after_release, after_take, fresh_chain, lemma_release_ok, lemma_take_ok, store_ok};
use vstd::prelude::*;

verus! {

/// A unique index agrees with the records: every entry names a live record
/// with that key, and every live record is filed under its key.
pub open spec fn unique_sound(
    records: Map<usize, Seq<u64>>,
    fields: Seq<usize>,
    ids: Map<Seq<u64>, usize>,
) -> bool {
    &&& forall|k: Seq<u64>| #[trigger]
        ids.contains_key(k) ==> records.contains_key(ids[k]) && key_of(records[ids[k]], fields)
            == k
    &&& forall|id: usize| #[trigger]
        records.contains_key(id) ==> ids.contains_key(key_of(records[id], fields)) && ids[key_of(
            records[id],
            fields,
        )] == id
}

/// A multi index agrees with the records: every bucket member is a live
/// record with the bucket's key, every live record is a member of the bucket
/// of its key, and no id is filed twice.
pub open spec fn multi_sound(
    records: Map<usize, Seq<u64>>,
    fields: Seq<usize>,
    m: Map<Seq<u64>, Seq<usize>>,
) -> bool {
    &&& buckets_ok(m)
    &&& forall|k: Seq<u64>, j: int|
        m.contains_key(k) && 0 <= j < m[k].len() ==> records.contains_key(#[trigger] m[k][j])
            && key_of(records[m[k][j]], fields) == k
    &&& forall|id: usize| #[trigger]
        records.contains_key(id) ==> bucket(m, key_of(records[id], fields)).contains(id)
}

/// Why an insertion was refused.
#[derive(Debug, Clone, Copy, PartialEq, Eq, Structural)]
pub enum InsertError {
    /// The record does not have as many fields as the schema declares.
    FieldCount,
    /// The record's key is already present in some unique index.
    UniquenessViolation,
}

/// The records of a sequence of rows.
pub open spec fn rows(items: Seq<Vec<u64>>) -> Seq<Seq<u64>> {
    Seq::new(items.len(), |i: int| items[i]@)
}

/// Whether the key of `item` under unique index `i` is taken.
pub open spec fn key_taken(
    ids: Seq<Map<Seq<u64>, usize>>,
    fields: Seq<Seq<usize>>,
    item: Seq<u64>,
    i: int,
) -> bool {
    ids[i].contains_key(key_of(item, fields[i]))
}

/// Whether the key of `item` is taken in at least one of the unique indices.
pub open spec fn taken_somewhere(
    ids: Seq<Map<Seq<u64>, usize>>,
    fields: Seq<Seq<usize>>,
    item: Seq<u64>,
) -> bool {
    exists|i: int| 0 <= i < ids.len() && #[trigger] key_taken(ids, fields, item, i)
}

/// The model of a table.
pub struct TableModel {
    /// The number of fields of a record.
    pub arity: nat,
    /// The field list of each unique index.
    pub unique_fields: Seq<Seq<usize>>,
    /// The field list of each multi index.
    pub multi_fields: Seq<Seq<usize>>,
    /// The live records by id.
    pub records: Map<usize, Seq<u64>>,
    /// What each unique index holds: the id filed under each key.
    pub unique_ids: Seq<Map<Seq<u64>, usize>>,
    /// What each multi index holds: the bucket of each key, head first.
    pub buckets: Seq<Map<Seq<u64>, Seq<usize>>>,
    /// The ids that coming insertions receive, in order: the freed ids, most
    /// recently freed first, and last the first id that was never used.
    pub vacancies: Seq<usize>,
}

/// The table without records under the given schema.
pub open spec fn empty_table(
    arity: nat,
    unique_fields: Seq<Seq<usize>>,
    multi_fields: Seq<Seq<usize>>,
) -> TableModel {
    TableModel {
        arity,
        unique_fields,
        multi_fields,
        records: Map::empty(),
        unique_ids: Seq::new(unique_fields.len(), |i: int| Map::empty()),
        buckets: Seq::new(multi_fields.len(), |i: int| Map::empty()),
        vacancies: fresh_chain(),
    }
}

impl TableModel {
    /// The id that the next insertion receives.
    pub open spec fn next_id(self) -> usize {
        self.vacancies[0]
    }

    /// The table invariant.
    pub open spec fn wf(self) -> bool {
        &&& self.unique_ids.len() == self.unique_fields.len()
        &&& self.buckets.len() == self.multi_fields.len()
        &&& store_ok(self.records, self.vacancies)
        &&& forall|id: usize| #[trigger]
            self.records.contains_key(id) ==> self.records[id].len() == self.arity
        &&& forall|i: int|
            0 <= i < self.unique_fields.len() ==> fields_fit(
                #[trigger] self.unique_fields[i],
                self.arity,
            )
        &&& forall|i: int|
            0 <= i < self.multi_fields.len() ==> fields_fit(
                #[trigger] self.multi_fields[i],
                self.arity,
            )
        &&& forall|i: int|
            0 <= i < self.unique_ids.len() ==> unique_sound(
                self.records,
                self.unique_fields[i],
                #[trigger] self.unique_ids[i],
            )
        &&& forall|i: int|
            0 <= i < self.buckets.len() ==> multi_sound(
                self.records,
                self.multi_fields[i],
                #[trigger] self.buckets[i],
            )
    }

    /// Whether inserting `item` would duplicate a key of some unique index.
    pub open spec fn conflicts(self, item: Seq<u64>) -> bool {
        taken_somewhere(self.unique_ids, self.unique_fields, item)
    }

    /// The table after `item` was inserted: it lives under the id that was
    /// announced, is filed in every unique index and heads its bucket in every
    /// multi index.
    pub open spec fn inserted(self, item: Seq<u64>) -> TableModel {
        TableModel {
            records: self.records.insert(self.next_id(), item),
            unique_ids: Seq::new(
                self.unique_ids.len(),
                |i: int|
                    self.unique_ids[i].insert(key_of(item, self.unique_fields[i]), self.next_id()),
            ),
            buckets: Seq::new(
                self.buckets.len(),
                |i: int|
                    with_member(self.buckets[i], key_of(item, self.multi_fields[i]), self.next_id()),
            ),
            vacancies: after_take(self.vacancies),
            ..self
        }
    }

    /// Why an attempt to insert `item` is refused, if it is: for its field
    /// count first, then for a key that some unique index already holds.
    pub open spec fn refusal(self, item: Seq<u64>) -> Option<InsertError> {
        if item.len() != self.arity {
            Some(InsertError::FieldCount)
        } else if self.conflicts(item) {
            Some(InsertError::UniquenessViolation)
        } else {
            None
        }
    }

    /// What an attempt to insert `item` returns: the announced id, or the
    /// reason of the refusal.
    pub open spec fn outcome(self, item: Seq<u64>) -> Result<usize, InsertError> {
        match self.refusal(item) {
            None => Ok(self.next_id()),
            Some(reason) => Err(reason),
        }
    }

    /// The table after an attempt to insert `item`: a refused record leaves
    /// it as it was.
    pub open spec fn attempted(self, item: Seq<u64>) -> TableModel {
        if self.refusal(item) is None {
            self.inserted(item)
        } else {
            self
        }
    }

    /// The table after attempts to insert `items`, one after the other.
    pub open spec fn attempted_all(self, items: Seq<Seq<u64>>) -> TableModel
        decreases items.len(),
    {
        if items.len() == 0 {
            self
        } else {
            self.attempted_all(items.drop_last()).attempted(items.last())
        }
    }

    /// What the attempts to insert `items`, one after the other, return.
    pub open spec fn outcomes(self, items: Seq<Seq<u64>>) -> Seq<Result<usize, InsertError>> {
        Seq::new(items.len(), |i: int| self.attempted_all(items.take(i)).outcome(items[i]))
    }

    /// The table after the record under `id` was removed: it is gone from the
    /// records and from every index, and its id is the next to be reused.
    /// Removing an id that is not live changes nothing.
    pub open spec fn removed(self, id: usize) -> TableModel {
        if self.records.contains_key(id) {
            let item = self.records[id];
            TableModel {
                records: self.records.remove(id),
                unique_ids: Seq::new(
                    self.unique_ids.len(),
                    |i: int| self.unique_ids[i].remove(key_of(item, self.unique_fields[i])),
                ),
                buckets: Seq::new(
                    self.buckets.len(),
                    |i: int| without_member(self.buckets[i], key_of(item, self.multi_fields[i]), id),
                ),
                vacancies: after_release(self.vacancies, id),
                ..self
            }
        } else {
            self
        }
    }

    /// The table after it was cleared: the same schema, no record, no index
    /// entry, and id assignment starting over at 0.
    pub open spec fn cleared(self) -> TableModel {
        empty_table(self.arity, self.unique_fields, self.multi_fields)
    }

    /// The table after the records under `ids` were removed, one after the
    /// other.
    pub open spec fn removed_all(self, ids: Seq<usize>) -> TableModel
        decreases ids.len(),
    {
        if ids.len() == 0 {
            self
        } else {
            self.removed_all(ids.drop_last()).removed(ids.last())
        }
    }

    /// The id filed under `key` in unique index `index`, if there is one.
    pub open spec fn unique_hit(self, index: int, key: Seq<u64>) -> Option<usize> {
        if 0 <= index < self.unique_ids.len() && self.unique_ids[index].contains_key(key) {
            Some(self.unique_ids[index][key])
        } else {
            None
        }
    }

    /// The ids filed under `key` in multi index `index`, head first.
    pub open spec fn multi_hits(self, index: int, key: Seq<u64>) -> Seq<usize> {
        if 0 <= index < self.buckets.len() {
            bucket(self.buckets[index], key)
        } else {
            Seq::empty()
        }
    }
}

/// Filing a fresh record under a free key keeps a unique index sound.
pub proof fn lemma_unique_insert(
    records: Map<usize, Seq<u64>>,
    fields: Seq<usize>,
    ids: Map<Seq<u64>, usize>,
    id: usize,
    item: Seq<u64>,
)
    requires
        unique_sound(records, fields, ids),
        !records.contains_key(id),
        !ids.contains_key(key_of(item, fields)),
    ensures
        unique_sound(records.insert(id, item), fields, ids.insert(key_of(item, fields), id)),
{
    let records2 = records.insert(id, item);
    let ids2 = ids.insert(key_of(item, fields), id);
    assert forall|k: Seq<u64>| #[trigger] ids2.contains_key(k) implies records2.contains_key(
        ids2[k],
    ) && key_of(records2[ids2[k]], fields) == k by {
        if k != key_of(item, fields) {
            assert(ids.contains_key(k));
        }
    }
    assert forall|x: usize| #[trigger] records2.contains_key(x) implies ids2.contains_key(
        key_of(records2[x], fields),
    ) && ids2[key_of(records2[x], fields)] == x by {
        if x != id {
            assert(records.contains_key(x));
        }
    }
}

/// Dropping a live record together with its key keeps a unique index sound.
pub proof fn lemma_unique_remove(
    records: Map<usize, Seq<u64>>,
    fields: Seq<usize>,
    ids: Map<Seq<u64>, usize>,
    id: usize,
)
    requires
        unique_sound(records, fields, ids),
        records.contains_key(id),
    ensures
        unique_sound(records.remove(id), fields, ids.remove(key_of(records[id], fields))),
{
    let records2 = records.remove(id);
    let ids2 = ids.remove(key_of(records[id], fields));
    assert forall|k: Seq<u64>| #[trigger] ids2.contains_key(k) implies records2.contains_key(
        ids2[k],
    ) && key_of(records2[ids2[k]], fields) == k by {
        assert(ids.contains_key(k));
    }
    assert forall|x: usize| #[trigger] records2.contains_key(x) implies ids2.contains_key(
        key_of(records2[x], fields),
    ) && ids2[key_of(records2[x], fields)] == x by {
        assert(records.contains_key(x));
    }
}

/// An id that is not live is a member of no bucket of a sound multi index.
pub proof fn lemma_fresh_absent(
    records: Map<usize, Seq<u64>>,
    fields: Seq<usize>,
    m: Map<Seq<u64>, Seq<usize>>,
    id: usize,
)
    requires
        multi_sound(records, fields, m),
        !records.contains_key(id),
    ensures
        crate::multi::absent(m, id),
{
}

/// Splicing a fresh record into the bucket of its key keeps a multi index
/// sound.
pub proof fn lemma_multi_insert(
    records: Map<usize, Seq<u64>>,
    fields: Seq<usize>,
    m: Map<Seq<u64>, Seq<usize>>,
    id: usize,
    item: Seq<u64>,
)
    requires
        multi_sound(records, fields, m),
        !records.contains_key(id),
    ensures
        multi_sound(records.insert(id, item), fields, with_member(m, key_of(item, fields), id)),
{
    let key = key_of(item, fields);
    let records2 = records.insert(id, item);
    let s = bucket(m, key);
    let s2 = seq![id] + s;
    let m2 = m.insert(key, s2);
    assert forall|k: Seq<u64>, j: int|
        m2.contains_key(k) && 0 <= j < m2[k].len() implies records2.contains_key(
        #[trigger] m2[k][j],
    ) && key_of(records2[m2[k][j]], fields) == k by {
        if k == key {
            if j > 0 {
                assert(s2[j] == m[key][j - 1]);
            }
        } else {
            assert(m2[k][j] == m[k][j]);
        }
    }
    assert forall|x: usize| #[trigger] records2.contains_key(x) implies bucket(
        m2,
        key_of(records2[x], fields),
    ).contains(x) by {
        if x == id {
            assert(s2[0] == id);
        } else {
            assert(records.contains_key(x));
            let kx = key_of(records[x], fields);
            let j = choose|j: int| 0 <= j < bucket(m, kx).len() && bucket(m, kx)[j] == x;
            if kx == key {
                assert(s2[j + 1] == x);
            } else {
                assert(m2[kx][j] == x);
            }
        }
    }
    lemma_fresh_absent(records, fields, m, id);
    lemma_with_member_ok(m, key, id);
}

/// Unsplicing a live record from the bucket of its key keeps a multi index
/// sound.
pub proof fn lemma_multi_remove(
    records: Map<usize, Seq<u64>>,
    fields: Seq<usize>,
    m: Map<Seq<u64>, Seq<usize>>,
    id: usize,
)
    requires
        multi_sound(records, fields, m),
        records.contains_key(id),
    ensures
        multi_sound(records.remove(id), fields, without_member(m, key_of(records[id], fields), id)),
{
    let key = key_of(records[id], fields);
    let records2 = records.remove(id);
    let s = m[key];
    assert(bucket(m, key).contains(id));
    assert(m.contains_key(key));
    let p = s.index_of(id);
    assert(0 <= p < s.len() && s[p] == id);
    assert(m[key][p] == id);
    let m2 = without_member(m, key, id);
    let s2 = s.remove(p);
    assert forall|k: Seq<u64>, j: int|
        m2.contains_key(k) && 0 <= j < m2[k].len() implies records2.contains_key(
        #[trigger] m2[k][j],
    ) && key_of(records2[m2[k][j]], fields) == k by {
        let j0 = if k == key && j >= p {
            j + 1
        } else {
            j
        };
        assert(m[k][j0] == m2[k][j]);
    }
    assert forall|x: usize| #[trigger] records2.contains_key(x) implies bucket(
        m2,
        key_of(records2[x], fields),
    ).contains(x) by {
        assert(records.contains_key(x));
        let kx = key_of(records[x], fields);
        let j = choose|j: int| 0 <= j < bucket(m, kx).len() && bucket(m, kx)[j] == x;
        assert(m[kx][j] == x);
        if kx == key {
            assert(j != p);
            if j < p {
                assert(s2[j] == x);
            } else {
                assert(s2[j - 1] == x);
            }
            assert(m2[kx] == s2);
        } else {
            assert(m2[kx][j] == x);
        }
    }
    lemma_without_member_ok(m, key, id);
}

/// A successful insertion keeps the table invariant.
pub proof fn lemma_inserted_wf(m: TableModel, item: Seq<u64>)
    requires
        m.wf(),
        m.refusal(item) is None,
        m.next_id() < usize::MAX,
    ensures
        m.inserted(item).wf(),
{
    let r = m.inserted(item);
    lemma_take_ok(m.records, m.vacancies, item);
    assert forall|i: int| 0 <= i < r.unique_ids.len() implies unique_sound(
        r.records,
        r.unique_fields[i],
        #[trigger] r.unique_ids[i],
    ) by {
        assert(unique_sound(m.records, m.unique_fields[i], m.unique_ids[i]));
        assert(!key_taken(m.unique_ids, m.unique_fields, item, i));
        lemma_unique_insert(m.records, m.unique_fields[i], m.unique_ids[i], m.next_id(), item);
    }
    assert forall|i: int| 0 <= i < r.buckets.len() implies multi_sound(
        r.records,
        r.multi_fields[i],
        #[trigger] r.buckets[i],
    ) by {
        assert(multi_sound(m.records, m.multi_fields[i], m.buckets[i]));
        lemma_multi_insert(m.records, m.multi_fields[i], m.buckets[i], m.next_id(), item);
    }
}

/// A removal keeps the table invariant.
pub proof fn lemma_removed_wf(m: TableModel, id: usize)
    requires
        m.wf(),
    ensures
        m.removed(id).wf(),
{
    let r = m.removed(id);
    if m.records.contains_key(id) {
        lemma_release_ok(m.records, m.vacancies, id);
        assert forall|i: int| 0 <= i < r.unique_ids.len() implies unique_sound(
            r.records,
            r.unique_fields[i],
            #[trigger] r.unique_ids[i],
        ) by {
            assert(unique_sound(m.records, m.unique_fields[i], m.unique_ids[i]));
            lemma_unique_remove(m.records, m.unique_fields[i], m.unique_ids[i], id);
        }
        assert forall|i: int| 0 <= i < r.buckets.len() implies multi_sound(
            r.records,
            r.multi_fields[i],
            #[trigger] r.buckets[i],
        ) by {
            assert(multi_sound(m.records, m.multi_fields[i], m.buckets[i]));
            lemma_multi_remove(m.records, m.multi_fields[i], m.buckets[i], id);
        }
    }
}

} // verus!
