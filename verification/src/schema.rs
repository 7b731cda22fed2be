//! The schema of a table: how many fields a record has and which fields, in
//! which order, form the key of each index.
use vstd::prelude::*;

verus! {

/// The key of `record` under an index over `fields`: the record's values at
/// those positions, in that order.
pub open spec fn key_of(record: Seq<u64>, fields: Seq<usize>) -> Seq<u64> {
    Seq::new(fields.len(), |i: int| record[fields[i] as int])
}

/// Whether every position in `fields` names a field of a record with `arity`
/// fields.
pub open spec fn fields_fit(fields: Seq<usize>, arity: nat) -> bool {
    forall|i: int| 0 <= i < fields.len() ==> (#[trigger] fields[i]) < arity
}

/// The field lists of a sequence of index declarations.
pub open spec fn field_lists(decls: Seq<Vec<usize>>) -> Seq<Seq<usize>> {
    Seq::new(decls.len(), |i: int| decls[i]@)
}

/// Copies the indexed field values out of a record.
pub fn extract_key(record: &Vec<u64>, fields: &Vec<usize>) -> (key: Vec<u64>)
    requires
        fields_fit(fields@, record@.len()),
    ensures
        key@ == key_of(record@, fields@),
{
    let mut key: Vec<u64> = Vec::new();
    let mut i: usize = 0;
    while i < fields.len()
        invariant
            i <= fields.len(),
            fields_fit(fields@, record@.len()),
            key@ == key_of(record@, fields@.subrange(0, i as int)),
        decreases fields.len() - i,
    {
        key.push(record[fields[i]]);
        i += 1;
        proof {
            assert(key@ =~= key_of(record@, fields@.subrange(0, i as int)));
        }
    }
    proof {
        assert(fields@.subrange(0, i as int) =~= fields@);
    }
    key
}

/// Whether every position in `fields` is below `arity`.
pub fn check_fields(fields: &Vec<usize>, arity: usize) -> (fit: bool)
    ensures
        fit == fields_fit(fields@, arity as nat),
{
    let mut i: usize = 0;
    while i < fields.len()
        invariant
            i <= fields.len(),
            forall|j: int| 0 <= j < i ==> (#[trigger] fields@[j]) < arity,
        decreases fields.len() - i,
    {
        if fields[i] >= arity {
            return false;
        }
        i += 1;
    }
    true
}

/// A table schema: the number of fields of a record, and the field list of
/// each unique and each multi index.
pub struct Schema {
    arity: usize,
    unique: Vec<Vec<usize>>,
    multi: Vec<Vec<usize>>,
}

impl Schema {
    /// The number of fields of a record.
    pub closed spec fn arity(&self) -> nat {
        self.arity as nat
    }

    /// The field list of each unique index, in declaration order.
    pub closed spec fn unique_fields(&self) -> Seq<Seq<usize>> {
        field_lists(self.unique@)
    }

    /// The field list of each multi index, in declaration order.
    pub closed spec fn multi_fields(&self) -> Seq<Seq<usize>> {
        field_lists(self.multi@)
    }

    /// Every declared index reads only fields that a record has.
    pub open spec fn wf(&self) -> bool {
        &&& forall|i: int|
            0 <= i < self.unique_fields().len() ==> fields_fit(
                #[trigger] self.unique_fields()[i],
                self.arity(),
            )
        &&& forall|i: int|
            0 <= i < self.multi_fields().len() ==> fields_fit(
                #[trigger] self.multi_fields()[i],
                self.arity(),
            )
    }

    /// A schema for records of `arity` fields, without indices.
    pub fn new(arity: usize) -> (schema: Schema)
        ensures
            schema.wf(),
            schema.arity() == arity,
            schema.unique_fields() == Seq::<Seq<usize>>::empty(),
            schema.multi_fields() == Seq::<Seq<usize>>::empty(),
    {
        let schema = Schema { arity, unique: Vec::new(), multi: Vec::new() };
        proof {
            assert(schema.unique_fields() =~= Seq::<Seq<usize>>::empty());
            assert(schema.multi_fields() =~= Seq::<Seq<usize>>::empty());
        }
        schema
    }

    /// Declares an index over `fields`, unique or not, and returns its number
    /// among the indices of its kind. A field position that no record has is
    /// refused, and the schema stays as it was.
    pub fn add_index(&mut self, fields: Vec<usize>, unique: bool) -> (out: Option<usize>)
        requires
            old(self).wf(),
        ensures
            final(self).wf(),
            final(self).arity() == old(self).arity(),
            out.is_some() == fields_fit(fields@, old(self).arity()),
            final(self).unique_fields() == (if out.is_some() && unique {
                old(self).unique_fields().push(fields@)
            } else {
                old(self).unique_fields()
            }),
            final(self).multi_fields() == (if out.is_some() && !unique {
                old(self).multi_fields().push(fields@)
            } else {
                old(self).multi_fields()
            }),
            out.is_some() ==> out.unwrap() == (if unique {
                old(self).unique_fields().len()
            } else {
                old(self).multi_fields().len()
            }),
    {
        if !check_fields(&fields, self.arity) {
            return None;
        }
        if unique {
            let n = self.unique.len();
            self.unique.push(fields);
            proof {
                assert(self.unique_fields() =~= old(self).unique_fields().push(fields@));
                assert(self.multi_fields() == old(self).multi_fields());
                assert forall|i: int| 0 <= i < self.unique_fields().len() implies fields_fit(
                    #[trigger] self.unique_fields()[i],
                    self.arity(),
                ) by {
                    if i < n {
                        assert(self.unique_fields()[i] == old(self).unique_fields()[i]);
                    }
                }
            }
            Some(n)
        } else {
            let n = self.multi.len();
            self.multi.push(fields);
            proof {
                assert(self.multi_fields() =~= old(self).multi_fields().push(fields@));
                assert(self.unique_fields() == old(self).unique_fields());
                assert forall|i: int| 0 <= i < self.multi_fields().len() implies fields_fit(
                    #[trigger] self.multi_fields()[i],
                    self.arity(),
                ) by {
                    if i < n {
                        assert(self.multi_fields()[i] == old(self).multi_fields()[i]);
                    }
                }
            }
            Some(n)
        }
    }

    /// The number of fields of a record.
    pub fn field_count(&self) -> (n: usize)
        ensures
            n == self.arity(),
    {
        self.arity
    }

    /// The number of unique indices.
    pub fn unique_count(&self) -> (n: usize)
        ensures
            n == self.unique_fields().len(),
    {
        self.unique.len()
    }

    /// The number of multi indices.
    pub fn multi_count(&self) -> (n: usize)
        ensures
            n == self.multi_fields().len(),
    {
        self.multi.len()
    }

    /// The field list of a unique index.
    pub fn unique_index(&self, index: usize) -> (fields: &Vec<usize>)
        requires
            index < self.unique_fields().len(),
        ensures
            fields@ == self.unique_fields()[index as int],
    {
        &self.unique[index]
    }

    /// The field list of a multi index.
    pub fn multi_index(&self, index: usize) -> (fields: &Vec<usize>)
        requires
            index < self.multi_fields().len(),
        ensures
            fields@ == self.multi_fields()[index as int],
    {
        &self.multi[index]
    }
}

} // verus!
