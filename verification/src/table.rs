//! The table: one record store, any number of unique and multi indices, and
//! the operations that keep them consistent with each other.
use crate::model::{
    empty_table, key_taken, lemma_fresh_absent, lemma_inserted_wf, lemma_removed_wf,
    multi_sound, rows, taken_somewhere, unique_sound, InsertError,
    TableModel,
};
use crate::multi::{absent, bucket, with_member, without_member, MultiIndex};
use crate::schema::{extract_key, key_of, Schema};
use crate::slots::{fresh_chain, has_len, lists_ids, RecordStore};
use crate::unique::UniqueIndex;
use vstd::prelude::*;

verus! {

/// What each unique index of a sequence holds.
pub open spec fn unique_views(indices: Seq<UniqueIndex>) -> Seq<Map<Seq<u64>, usize>> {
    Seq::new(indices.len(), |i: int| indices[i]@)
}

/// What each multi index of a sequence holds.
pub open spec fn multi_views(indices: Seq<MultiIndex>) -> Seq<Map<Seq<u64>, Seq<usize>>> {
    Seq::new(indices.len(), |i: int| indices[i]@)
}

/// Every multi index of a sequence represents its model faithfully.
pub open spec fn all_linked(indices: Seq<MultiIndex>) -> bool {
    forall|i: int| 0 <= i < indices.len() ==> (#[trigger] indices[i]).linked()
}

/// Whether the key of `item` is taken in some unique index.
fn any_taken(uniques: &Vec<UniqueIndex>, schema: &Schema, item: &Vec<u64>) -> (taken: bool)
    requires
        schema.wf(),
        uniques@.len() == schema.unique_fields().len(),
        item@.len() == schema.arity(),
    ensures
        taken == taken_somewhere(unique_views(uniques@), schema.unique_fields(), item@),
{
    let ghost ids = unique_views(uniques@);
    let mut i: usize = 0;
    while i < uniques.len()
        invariant
            i <= uniques@.len(),
            schema.wf(),
            uniques@.len() == schema.unique_fields().len(),
            item@.len() == schema.arity(),
            ids == unique_views(uniques@),
            forall|j: int| 0 <= j < i ==> !#[trigger] key_taken(ids, schema.unique_fields(), item@, j),
        decreases uniques@.len() - i,
    {
        let key = extract_key(item, schema.unique_index(i));
        if uniques[i].would_conflict(&key) {
            proof {
                assert(key_taken(ids, schema.unique_fields(), item@, i as int));
            }
            return true;
        }
        i += 1;
    }
    false
}

/// Files `id` under the key of `item` in every unique index.
fn file_all(uniques: &mut Vec<UniqueIndex>, schema: &Schema, item: &Vec<u64>, id: usize)
    requires
        schema.wf(),
        old(uniques)@.len() == schema.unique_fields().len(),
        item@.len() == schema.arity(),
        !taken_somewhere(unique_views(old(uniques)@), schema.unique_fields(), item@),
    ensures
        unique_views(final(uniques)@) == Seq::new(
            old(uniques)@.len(),
            |i: int|
                unique_views(old(uniques)@)[i].insert(key_of(item@, schema.unique_fields()[i]), id),
        ),
{
    let ghost before = unique_views(uniques@);
    let n = uniques.len();
    let mut i: usize = 0;
    while i < n
        invariant
            i <= n,
            n == uniques@.len(),
            schema.wf(),
            before.len() == n,
            n == schema.unique_fields().len(),
            item@.len() == schema.arity(),
            !taken_somewhere(before, schema.unique_fields(), item@),
            forall|j: int|
                0 <= j < i ==> (#[trigger] uniques@[j])@ == before[j].insert(
                    key_of(item@, schema.unique_fields()[j]),
                    id,
                ),
            forall|j: int| i <= j < n ==> (#[trigger] uniques@[j])@ == before[j],
        decreases n - i,
    {
        let key = extract_key(item, schema.unique_index(i));
        proof {
            assert(!key_taken(before, schema.unique_fields(), item@, i as int));
        }
        let _ = uniques[i].insert_if_absent(key, id);
        i += 1;
    }
    proof {
        assert(unique_views(uniques@) =~= Seq::new(
            before.len(),
            |i: int| before[i].insert(key_of(item@, schema.unique_fields()[i]), id),
        ));
    }
}

/// Drops the key of `item` from every unique index.
fn unfile_all(uniques: &mut Vec<UniqueIndex>, schema: &Schema, item: &Vec<u64>)
    requires
        schema.wf(),
        old(uniques)@.len() == schema.unique_fields().len(),
        item@.len() == schema.arity(),
    ensures
        unique_views(final(uniques)@) == Seq::new(
            old(uniques)@.len(),
            |i: int| unique_views(old(uniques)@)[i].remove(key_of(item@, schema.unique_fields()[i])),
        ),
{
    let ghost before = unique_views(uniques@);
    let n = uniques.len();
    let mut i: usize = 0;
    while i < n
        invariant
            i <= n,
            n == uniques@.len(),
            schema.wf(),
            before.len() == n,
            n == schema.unique_fields().len(),
            item@.len() == schema.arity(),
            forall|j: int|
                0 <= j < i ==> (#[trigger] uniques@[j])@ == before[j].remove(
                    key_of(item@, schema.unique_fields()[j]),
                ),
            forall|j: int| i <= j < n ==> (#[trigger] uniques@[j])@ == before[j],
        decreases n - i,
    {
        let key = extract_key(item, schema.unique_index(i));
        uniques[i].remove(&key);
        i += 1;
    }
    proof {
        assert(unique_views(uniques@) =~= Seq::new(
            before.len(),
            |i: int| before[i].remove(key_of(item@, schema.unique_fields()[i])),
        ));
    }
}

/// Splices `id` into the bucket of the key of `item` in every multi index.
fn splice_all(multis: &mut Vec<MultiIndex>, schema: &Schema, item: &Vec<u64>, id: usize)
    requires
        schema.wf(),
        old(multis)@.len() == schema.multi_fields().len(),
        item@.len() == schema.arity(),
        forall|i: int|
            0 <= i < old(multis)@.len() ==> (#[trigger] old(multis)@[i]).wf() && absent(
                old(multis)@[i]@,
                id,
            ),
    ensures
        all_linked(final(multis)@),
        multi_views(final(multis)@) == Seq::new(
            old(multis)@.len(),
            |i: int|
                with_member(
                    multi_views(old(multis)@)[i],
                    key_of(item@, schema.multi_fields()[i]),
                    id,
                ),
        ),
{
    let ghost before = multi_views(multis@);
    let n = multis.len();
    let mut i: usize = 0;
    while i < n
        invariant
            i <= n,
            n == multis@.len(),
            schema.wf(),
            before.len() == n,
            n == schema.multi_fields().len(),
            item@.len() == schema.arity(),
            forall|j: int| 0 <= j < n ==> (#[trigger] multis@[j]).wf(),
            forall|j: int| i <= j < n ==> absent((#[trigger] multis@[j])@, id),
            forall|j: int|
                0 <= j < i ==> (#[trigger] multis@[j])@ == with_member(
                    before[j],
                    key_of(item@, schema.multi_fields()[j]),
                    id,
                ),
            forall|j: int| i <= j < n ==> (#[trigger] multis@[j])@ == before[j],
        decreases n - i,
    {
        let key = extract_key(item, schema.multi_index(i));
        multis[i].insert(id, key);
        i += 1;
    }
    proof {
        assert(multi_views(multis@) =~= Seq::new(
            before.len(),
            |i: int| with_member(before[i], key_of(item@, schema.multi_fields()[i]), id),
        ));
    }
}

/// Unsplices `id` from the bucket of the key of `item` in every multi index.
fn unsplice_all(multis: &mut Vec<MultiIndex>, schema: &Schema, item: &Vec<u64>, id: usize)
    requires
        schema.wf(),
        old(multis)@.len() == schema.multi_fields().len(),
        item@.len() == schema.arity(),
        forall|i: int|
            0 <= i < old(multis)@.len() ==> (#[trigger] old(multis)@[i]).wf() && bucket(
                old(multis)@[i]@,
                key_of(item@, schema.multi_fields()[i]),
            ).contains(id),
    ensures
        all_linked(final(multis)@),
        multi_views(final(multis)@) == Seq::new(
            old(multis)@.len(),
            |i: int|
                without_member(
                    multi_views(old(multis)@)[i],
                    key_of(item@, schema.multi_fields()[i]),
                    id,
                ),
        ),
{
    let ghost before = multi_views(multis@);
    let n = multis.len();
    let mut i: usize = 0;
    while i < n
        invariant
            i <= n,
            n == multis@.len(),
            schema.wf(),
            before.len() == n,
            n == schema.multi_fields().len(),
            item@.len() == schema.arity(),
            forall|j: int| 0 <= j < n ==> (#[trigger] multis@[j]).wf(),
            forall|j: int|
                i <= j < n ==> bucket(
                    (#[trigger] multis@[j])@,
                    key_of(item@, schema.multi_fields()[j]),
                ).contains(id),
            forall|j: int|
                0 <= j < i ==> (#[trigger] multis@[j])@ == without_member(
                    before[j],
                    key_of(item@, schema.multi_fields()[j]),
                    id,
                ),
            forall|j: int| i <= j < n ==> (#[trigger] multis@[j])@ == before[j],
        decreases n - i,
    {
        let key = extract_key(item, schema.multi_index(i));
        multis[i].remove(id, key);
        i += 1;
    }
    proof {
        assert(multi_views(multis@) =~= Seq::new(
            before.len(),
            |i: int| without_member(before[i], key_of(item@, schema.multi_fields()[i]), id),
        ));
    }
}

/// A table of records with its indices.
pub struct Table {
    schema: Schema,
    store: RecordStore,
    uniques: Vec<UniqueIndex>,
    multis: Vec<MultiIndex>,
}

impl View for Table {
    type V = TableModel;

    closed spec fn view(&self) -> TableModel {
        TableModel {
            arity: self.schema.arity(),
            unique_fields: self.schema.unique_fields(),
            multi_fields: self.schema.multi_fields(),
            records: self.store@,
            unique_ids: unique_views(self.uniques@),
            buckets: multi_views(self.multis@),
            vacancies: self.store.vacancies(),
        }
    }
}

impl Table {
    /// Every multi index represents its part of the model faithfully.
    pub closed spec fn linked(&self) -> bool {
        all_linked(self.multis@)
    }

    /// The table invariant: indices and records agree, and the link arrays
    /// and hash maps represent the buckets.
    pub open spec fn wf(&self) -> bool {
        self@.wf() && self.linked()
    }

    /// An empty table under the given schema.
    pub fn new(schema: Schema) -> (table: Table)
        requires
            schema.wf(),
        ensures
            table.wf(),
            table@ == empty_table(schema.arity(), schema.unique_fields(), schema.multi_fields()),
    {
        let mut uniques: Vec<UniqueIndex> = Vec::new();
        let mut i: usize = 0;
        while i < schema.unique_count()
            invariant
                i <= schema.unique_fields().len(),
                uniques@.len() == i,
                forall|j: int| 0 <= j < i ==> (#[trigger] uniques@[j])@ == Map::<Seq<u64>, usize>::empty(),
            decreases schema.unique_fields().len() - i,
        {
            uniques.push(UniqueIndex::new());
            i += 1;
        }
        let mut multis: Vec<MultiIndex> = Vec::new();
        let mut k: usize = 0;
        while k < schema.multi_count()
            invariant
                k <= schema.multi_fields().len(),
                multis@.len() == k,
                forall|j: int|
                    0 <= j < k ==> (#[trigger] multis@[j]).wf() && multis@[j]@ == Map::<
                        Seq<u64>,
                        Seq<usize>,
                    >::empty(),
            decreases schema.multi_fields().len() - k,
        {
            multis.push(MultiIndex::new());
            k += 1;
        }
        let table = Table { schema, store: RecordStore::new(), uniques, multis };
        proof {
            let empty = empty_table(schema.arity(), schema.unique_fields(), schema.multi_fields());
            assert(table@.unique_ids =~= empty.unique_ids);
            assert(table@.buckets =~= empty.buckets);
            assert(table@.records =~= empty.records);
        }
        table
    }

    /// The record with the given id, if it is live.
    pub fn get(&self, id: usize) -> (out: Option<&Vec<u64>>)
        ensures
            out.is_some() == self@.records.contains_key(id),
            out.is_some() ==> out.unwrap()@ == self@.records[id],
    {
        self.store.get(id)
    }

    /// The record with the given id, which must be live.
    pub fn record(&self, id: usize) -> (item: &Vec<u64>)
        requires
            self@.records.contains_key(id),
        ensures
            item@ == self@.records[id],
    {
        self.store.get(id).unwrap()
    }

    /// Whether a record with the given id is live.
    pub fn contains(&self, id: usize) -> (found: bool)
        ensures
            found == self@.records.contains_key(id),
    {
        self.store.contains(id)
    }

    /// The number of live records.
    pub fn len(&self) -> (n: usize)
        ensures
            has_len(self@.records, n),
    {
        self.store.len()
    }

    /// The ids of the live records in ascending order.
    pub fn ids(&self) -> (ids: Vec<usize>)
        ensures
            lists_ids(ids@, self@.records),
    {
        self.store.ids()
    }

    /// The schema the table was made with.
    pub fn schema(&self) -> (schema: &Schema)
        ensures
            schema.arity() == self@.arity,
            schema.unique_fields() == self@.unique_fields,
            schema.multi_fields() == self@.multi_fields,
    {
        &self.schema
    }

    /// Removes every record and every index entry; the schema stays.
    pub fn clear(&mut self)
        requires
            old(self).wf(),
        ensures
            final(self).wf(),
            final(self)@ == old(self)@.cleared(),
    {
        self.store.clear();
        let n = self.uniques.len();
        let mut i: usize = 0;
        while i < n
            invariant
                i <= n,
                n == self.uniques@.len(),
                self.schema == old(self).schema,
                self.multis == old(self).multis,
                self.store@ == Map::<usize, Seq<u64>>::empty(),
                self.store.vacancies() == fresh_chain(),
                forall|j: int|
                    0 <= j < i ==> (#[trigger] self.uniques@[j])@ == Map::<Seq<u64>, usize>::empty(),
            decreases n - i,
        {
            self.uniques[i].clear();
            i += 1;
        }
        let m = self.multis.len();
        let mut k: usize = 0;
        while k < m
            invariant
                k <= m,
                m == self.multis@.len(),
                n == self.uniques@.len(),
                self.schema == old(self).schema,
                self.store@ == Map::<usize, Seq<u64>>::empty(),
                self.store.vacancies() == fresh_chain(),
                forall|j: int|
                    0 <= j < n ==> (#[trigger] self.uniques@[j])@ == Map::<Seq<u64>, usize>::empty(),
                forall|j: int|
                    0 <= j < k ==> (#[trigger] self.multis@[j]).wf() && self.multis@[j]@ == Map::<
                        Seq<u64>,
                        Seq<usize>,
                    >::empty(),
                forall|j: int| k <= j < m ==> (#[trigger] self.multis@[j]).linked(),
            decreases m - k,
        {
            self.multis[k].clear();
            k += 1;
        }
        proof {
            let empty = old(self)@.cleared();
            assert(self@.unique_ids =~= empty.unique_ids);
            assert(self@.buckets =~= empty.buckets);
            assert(self@.records =~= empty.records);
        }
    }

    /// The id of the record filed under `key` in the unique index with the
    /// given number, if there is one.
    pub fn get_by_unique(&self, index: usize, key: &Vec<u64>) -> (out: Option<usize>)
        ensures
            out == self@.unique_hit(index as int, key@),
    {
        if index >= self.uniques.len() {
            return None;
        }
        self.uniques[index].lookup(key)
    }

    /// The ids of the records filed under `key` in the multi index with the
    /// given number, in ring order from the bucket head.
    pub fn get_by_multi(&self, index: usize, key: &Vec<u64>) -> (ids: Vec<usize>)
        requires
            self.wf(),
        ensures
            ids@ == self@.multi_hits(index as int, key@),
    {
        if index >= self.multis.len() {
            return Vec::new();
        }
        proof {
            assert(self@.buckets[index as int] == self.multis@[index as int]@);
        }
        self.multis[index].lookup(key)
    }

    /// The number of records filed under `key` in the multi index with the
    /// given number, read from the bucket head without walking the bucket.
    pub fn count_by_multi(&self, index: usize, key: &Vec<u64>) -> (n: usize)
        requires
            self.wf(),
        ensures
            n == self@.multi_hits(index as int, key@).len(),
    {
        if index >= self.multis.len() {
            return 0;
        }
        proof {
            assert(self@.buckets[index as int] == self.multis@[index as int]@);
        }
        self.multis[index].count(key)
    }

    /// Removes the record filed under `key` in the unique index with the
    /// given number and returns it with its id; does nothing when there is
    /// none.
    pub fn remove_by_unique(&mut self, index: usize, key: &Vec<u64>) -> (out: Option<
        (usize, Vec<u64>),
    >)
        requires
            old(self).wf(),
        ensures
            final(self).wf(),
            match old(self)@.unique_hit(index as int, key@) {
                Some(id) => out.is_some() && out.unwrap().0 == id && out.unwrap().1@ == old(
                    self,
                )@.records[id] && final(self)@ == old(self)@.removed(id),
                None => out.is_none() && final(self)@ == old(self)@,
            },
    {
        match self.get_by_unique(index, key) {
            None => None,
            Some(id) => {
                proof {
                    assert(unique_sound(
                        self@.records,
                        self@.unique_fields[index as int],
                        self@.unique_ids[index as int],
                    ));
                    assert(self@.unique_ids[index as int].contains_key(key@));
                }
                match self.remove(id) {
                    None => None,
                    Some(item) => Some((id, item)),
                }
            },
        }
    }

    /// Removes every record filed under `key` in the multi index with the
    /// given number and returns them with their ids, in ring order from the
    /// bucket head. Afterwards the index has no bucket for `key`.
    pub fn drain_by_multi(&mut self, index: usize, key: &Vec<u64>) -> (out: Vec<(usize, Vec<u64>)>)
        requires
            old(self).wf(),
        ensures
            final(self).wf(),
            final(self)@ == old(self)@.removed_all(old(self)@.multi_hits(index as int, key@)),
            out@.len() == old(self)@.multi_hits(index as int, key@).len(),
            forall|j: int|
                0 <= j < out@.len() ==> (#[trigger] out@[j]).0 == old(self)@.multi_hits(
                    index as int,
                    key@,
                )[j] && out@[j].1@ == old(self)@.records[out@[j].0],
            final(self)@.multi_hits(index as int, key@).len() == 0,
    {
        let ids = self.get_by_multi(index, key);
        let ghost before = self@;
        let ghost hits = before.multi_hits(index as int, key@);
        proof {
            if index < before.buckets.len() && before.buckets[index as int].contains_key(key@) {
                let m = before.buckets[index as int];
                assert(multi_sound(before.records, before.multi_fields[index as int], m));
                assert forall|j: int| 0 <= j < hits.len() implies before.records.contains_key(
                    #[trigger] hits[j],
                ) by {
                    assert(m[key@][j] == hits[j]);
                }
                assert forall|a: int, b: int|
                    0 <= a < hits.len() && 0 <= b < hits.len() && a != b implies hits[a]
                    != hits[b] by {
                    assert(m[key@][a] == hits[a]);
                    assert(m[key@][b] == hits[b]);
                }
            }
            assert(hits.take(0) =~= Seq::<usize>::empty());
        }
        let mut out: Vec<(usize, Vec<u64>)> = Vec::new();
        let mut i: usize = 0;
        while i < ids.len()
            invariant
                i <= ids@.len(),
                ids@ == hits,
                before == old(self)@,
                self.wf(),
                self@ == before.removed_all(hits.take(i as int)),
                self@.multi_fields == before.multi_fields,
                self@.buckets.len() == before.buckets.len(),
                forall|j: int| 0 <= j < hits.len() ==> before.records.contains_key(#[trigger] hits[j]),
                out@.len() == i,
                forall|j: int|
                    0 <= j < i ==> (#[trigger] out@[j]).0 == hits[j] && out@[j].1@
                        == before.records[hits[j]],
                forall|x: usize| #[trigger]
                    self@.records.contains_key(x) ==> before.records.contains_key(x)
                        && self@.records[x] == before.records[x],
                forall|j: int| 0 <= j < i ==> !self@.records.contains_key(#[trigger] hits[j]),
                forall|j: int| i <= j < hits.len() ==> self@.records.contains_key(#[trigger] hits[j]),
                forall|a: int, b: int|
                    0 <= a < hits.len() && 0 <= b < hits.len() && a != b ==> hits[a] != hits[b],
            decreases ids@.len() - i,
        {
            let id = ids[i];
            let ghost step = self@;
            proof {
                assert(hits.take(i as int + 1).drop_last() =~= hits.take(i as int));
                assert(hits.take(i as int + 1).last() == id);
                assert(self@.records.contains_key(hits[i as int]));
            }
            match self.remove(id) {
                Some(item) => {
                    out.push((id, item));
                },
                None => {},
            }
            i += 1;
            proof {
                assert forall|j: int| i <= j < hits.len() implies self@.records.contains_key(
                    #[trigger] hits[j],
                ) by {
                    assert(step.records.contains_key(hits[j]));
                    assert(hits[j] != id);
                }
                assert forall|j: int| 0 <= j < i implies !self@.records.contains_key(
                    #[trigger] hits[j],
                ) by {
                    if j < i - 1 {
                        assert(!step.records.contains_key(hits[j]));
                    }
                }
            }
        }
        proof {
            assert(hits.take(i as int) =~= hits);
            if index < self@.buckets.len() && self@.buckets[index as int].contains_key(key@) {
                let now = self@.buckets[index as int];
                assert(multi_sound(self@.records, self@.multi_fields[index as int], now));
                let x = now[key@][0];
                assert(self@.records.contains_key(x));
                let earlier = before.buckets[index as int];
                assert(multi_sound(before.records, before.multi_fields[index as int], earlier));
                assert(before.records.contains_key(x));
                assert(key_of(before.records[x], before.multi_fields[index as int]) == key@);
                assert(bucket(earlier, key@).contains(x));
                let j = choose|j: int| 0 <= j < hits.len() && hits[j] == x;
                assert(!self@.records.contains_key(hits[j]));
                assert(false);
            }
        }
        out
    }

    /// Removes every record filed under `key` in the multi index with the
    /// given number.
    pub fn remove_by_multi(&mut self, index: usize, key: &Vec<u64>)
        requires
            old(self).wf(),
        ensures
            final(self).wf(),
            final(self)@ == old(self)@.removed_all(old(self)@.multi_hits(index as int, key@)),
            final(self)@.multi_hits(index as int, key@).len() == 0,
    {
        let _ = self.drain_by_multi(index, key);
    }

    /// Inserts a record whose field count and keys were checked.
    fn commit(&mut self, item: Vec<u64>) -> (id: usize)
        requires
            old(self).wf(),
            old(self)@.refusal(item@) is None,
        ensures
            final(self).wf(),
            id == old(self)@.next_id(),
            final(self)@ == old(self)@.inserted(item@),
    {
        let id = self.store.vacant_id();
        proof {
            assert forall|i: int| 0 <= i < self.multis@.len() implies (#[trigger] self.multis@[i]).wf()
                && absent(self.multis@[i]@, id) by {
                assert(self@.buckets[i] == self.multis@[i]@);
                lemma_fresh_absent(self@.records, self@.multi_fields[i], self@.buckets[i], id);
            }
        }
        file_all(&mut self.uniques, &self.schema, &item, id);
        splice_all(&mut self.multis, &self.schema, &item, id);
        let ghost record = item@;
        let placed = self.store.occupy(item);
        proof {
            let after = old(self)@.inserted(record);
            assert(self@.unique_ids =~= after.unique_ids);
            assert(self@.buckets =~= after.buckets);
            assert(self@ == after);
            lemma_inserted_wf(old(self)@, record);
        }
        placed
    }

    /// Inserts a record and returns its id, if possible. A record with the
    /// wrong number of fields, or whose key is taken in some unique index, is
    /// refused and the table stays as it was. All unique indices are checked
    /// before any of them is changed.
    pub fn try_insert(&mut self, item: Vec<u64>) -> (out: Result<usize, InsertError>)
        requires
            old(self).wf(),
        ensures
            final(self).wf(),
            out == old(self)@.outcome(item@),
            final(self)@ == old(self)@.attempted(item@),
    {
        if item.len() != self.schema.field_count() {
            return Err(InsertError::FieldCount);
        }
        if any_taken(&self.uniques, &self.schema, &item) {
            return Err(InsertError::UniquenessViolation);
        }
        Ok(self.commit(item))
    }

    /// Inserts the records one after the other, each as `try_insert` does,
    /// and returns the outcome of each: a refused record is skipped and the
    /// following ones are still tried.
    pub fn extend(&mut self, items: Vec<Vec<u64>>) -> (outs: Vec<Result<usize, InsertError>>)
        requires
            old(self).wf(),
        ensures
            final(self).wf(),
            outs@ == old(self)@.outcomes(rows(items@)),
            final(self)@ == old(self)@.attempted_all(rows(items@)),
    {
        let ghost all = rows(items@);
        let ghost given = items@;
        let mut outs: Vec<Result<usize, InsertError>> = Vec::new();
        proof {
            assert(all.take(0) =~= Seq::<Seq<u64>>::empty());
        }
        for item in it: items
            invariant
                it.seq() == given,
                all == rows(given),
                self.wf(),
                outs@.len() == it.index(),
                self@ == old(self)@.attempted_all(all.take(it.index() as int)),
                forall|j: int|
                    0 <= j < outs@.len() ==> #[trigger] outs@[j] == old(self)@.attempted_all(
                        all.take(j),
                    ).outcome(all[j]),
        {
            let ghost at = it.index() as int;
            let ghost row = item@;
            let out = self.try_insert(item);
            outs.push(out);
            proof {
                assert(row == all[at]);
                assert(all.take(at + 1).drop_last() =~= all.take(at));
                assert(all.take(at + 1).last() == row);
            }
        }
        proof {
            assert(all.take(all.len() as int) =~= all);
            assert(outs@ =~= old(self)@.outcomes(all));
        }
        outs
    }

    /// Inserts a record and returns its id. The record must fit the schema
    /// and must not duplicate a key of a unique index.
    pub fn insert(&mut self, item: Vec<u64>) -> (id: usize)
        requires
            old(self).wf(),
            old(self)@.refusal(item@) is None,
        ensures
            final(self).wf(),
            id == old(self)@.next_id(),
            final(self)@ == old(self)@.inserted(item@),
    {
        self.commit(item)
    }

    /// Removes the record with the given id and returns it; returns nothing,
    /// and changes nothing, when the id is not live.
    pub fn remove(&mut self, id: usize) -> (out: Option<Vec<u64>>)
        requires
            old(self).wf(),
        ensures
            final(self).wf(),
            final(self)@ == old(self)@.removed(id),
            out.is_some() == old(self)@.records.contains_key(id),
            out.is_some() ==> out.unwrap()@ == old(self)@.records[id],
    {
        match self.store.release(id) {
            None => {
                proof {
                    assert(self@.records =~= old(self)@.records);
                }
                None
            },
            Some(item) => {
                proof {
                    assert forall|i: int| 0 <= i < self.multis@.len() implies (
                    #[trigger] self.multis@[i]).wf() && bucket(
                        self.multis@[i]@,
                        key_of(item@, self.schema.multi_fields()[i]),
                    ).contains(id) by {
                        assert(old(self)@.buckets[i] == self.multis@[i]@);
                    }
                }
                unfile_all(&mut self.uniques, &self.schema, &item);
                unsplice_all(&mut self.multis, &self.schema, &item, id);
                proof {
                    let after = old(self)@.removed(id);
                    assert(self@.unique_ids =~= after.unique_ids);
                    assert(self@.buckets =~= after.buckets);
                    assert(self@ == after);
                    lemma_removed_wf(old(self)@, id);
                }
                Some(item)
            },
        }
    }
}

} // verus!
