//! The slot allocator and record store: one slot per live record, ids handed
//! out by a `slab::Slab` and reused after removal, the most recently freed
//! id first.
use slab::Slab;
use vstd::prelude::*;

verus! {

/// `slab::Slab`, carried as an opaque value: what it holds is known only
/// through `slab_items` and `slab_chain`.
#[verifier::external_type_specification]
#[verifier::external_body]
#[verifier::reject_recursive_types(T)]
pub struct ExSlab<T>(Slab<T>);

/// The record map without any live id.
pub open spec fn no_records() -> Map<usize, Seq<u64>> {
    Map::empty()
}

/// The vacancy chain of a store that never held a record: ids start at 0.
pub open spec fn fresh_chain() -> Seq<usize> {
    seq![0usize]
}

/// The vacancy chain after its first id was taken: the next freed id moves
/// up, and where none is left, the slot past the one just taken.
pub open spec fn after_take(chain: Seq<usize>) -> Seq<usize> {
    if chain.len() == 1 {
        seq![(chain[0] + 1) as usize]
    } else {
        chain.drop_first()
    }
}

/// The vacancy chain after `id` was freed: it is the next to be taken.
pub open spec fn after_release(chain: Seq<usize>, id: usize) -> Seq<usize> {
    seq![id] + chain
}

/// Whether the record map holds exactly `n` live ids.
pub open spec fn has_len(items: Map<usize, Seq<u64>>, n: usize) -> bool {
    items.dom().finite() && items.len() == n
}

/// Whether `ids` lists exactly the live ids, in ascending order.
pub open spec fn lists_ids(ids: Seq<usize>, items: Map<usize, Seq<u64>>) -> bool {
    &&& forall|i: int, j: int| 0 <= i < j < ids.len() ==> ids[i] < ids[j]
    &&& forall|id: usize| ids.contains(id) <==> items.contains_key(id)
}

/// Records and vacancy chain fit together: the chain ends with the first
/// slot past all slots in use, every other member is a freed slot below it,
/// no id is on the chain twice, and no live id is on it.
pub open spec fn store_ok(items: Map<usize, Seq<u64>>, chain: Seq<usize>) -> bool {
    &&& chain.len() >= 1
    &&& forall|i: int| 0 <= i < chain.len() ==> !items.contains_key(#[trigger] chain[i])
    &&& forall|i: int| 0 <= i < chain.len() - 1 ==> (#[trigger] chain[i]) < chain.last()
    &&& forall|i: int, j: int| 0 <= i < j < chain.len() ==> chain[i] != chain[j]
    &&& forall|id: usize| #[trigger] items.contains_key(id) ==> id < chain.last()
}

/// Taking the first id of the chain for a new record keeps records and chain
/// fitting together.
pub proof fn lemma_take_ok(items: Map<usize, Seq<u64>>, chain: Seq<usize>, item: Seq<u64>)
    requires
        store_ok(items, chain),
        chain[0] < usize::MAX,
    ensures
        store_ok(items.insert(chain[0], item), after_take(chain)),
{
    let items2 = items.insert(chain[0], item);
    let chain2 = after_take(chain);
    if chain.len() > 1 {
        assert forall|i: int| 0 <= i < chain2.len() implies !items2.contains_key(
            #[trigger] chain2[i],
        ) by {
            assert(chain2[i] == chain[i + 1]);
        }
        assert forall|i: int| 0 <= i < chain2.len() - 1 implies (#[trigger] chain2[i])
            < chain2.last() by {
            assert(chain2[i] == chain[i + 1]);
        }
        assert forall|i: int, j: int| 0 <= i < j < chain2.len() implies chain2[i] != chain2[j] by {
            assert(chain2[i] == chain[i + 1] && chain2[j] == chain[j + 1]);
        }
    }
}

/// Freeing a live id keeps records and chain fitting together.
pub proof fn lemma_release_ok(items: Map<usize, Seq<u64>>, chain: Seq<usize>, id: usize)
    requires
        store_ok(items, chain),
        items.contains_key(id),
    ensures
        store_ok(items.remove(id), after_release(chain, id)),
{
    let items2 = items.remove(id);
    let chain2 = after_release(chain, id);
    assert forall|i: int| 0 <= i < chain2.len() implies !items2.contains_key(#[trigger] chain2[i]) by {
        if i > 0 {
            assert(chain2[i] == chain[i - 1]);
        }
    }
    assert forall|i: int| 0 <= i < chain2.len() - 1 implies (#[trigger] chain2[i])
        < chain2.last() by {
        if i > 0 {
            assert(chain2[i] == chain[i - 1]);
        }
    }
    assert forall|i: int, j: int| 0 <= i < j < chain2.len() implies chain2[i] != chain2[j] by {
        assert(chain2[j] == chain[j - 1]);
        if i > 0 {
            assert(chain2[i] == chain[i - 1]);
        }
    }
}

/// The occupied slots of a slab: each occupied id with the record stored there.
pub uninterp spec fn slab_items(slab: Slab<Vec<u64>>) -> Map<usize, Seq<u64>>;

/// The vacancy chain of a slab, in the order in which insertions will take
/// from it: the slot that `Slab::vacant_key` reports, then the vacated slots
/// it links to, most recently vacated first, and last the number of slots in
/// use, which is the id taken once no vacated slot is left.
pub uninterp spec fn slab_chain(slab: Slab<Vec<u64>>) -> Seq<usize>;

/// `Slab::new`: a slab with no occupied slot, whose first insertion takes id 0.
#[verifier::external_body]
fn slab_new() -> (slab: Slab<Vec<u64>>)
    ensures
        slab_items(slab) == no_records(),
        slab_chain(slab) == fresh_chain(),
{
    Slab::new()
}

/// `Slab::vacant_key`: the id of the next insertion, the head of the chain.
#[verifier::external_body]
fn slab_vacant_key(slab: &Slab<Vec<u64>>) -> (key: usize)
    ensures
        key == slab_chain(*slab)[0],
{
    slab.vacant_key()
}

/// `Slab::insert`: stores the record in the slot at the head of the chain and
/// returns that id; every other slot is untouched. The chain moves on to the
/// slot that the taken one linked to, or, where the taken one was the first
/// slot past those in use, to the slot after it.
#[verifier::external_body]
fn slab_insert(slab: &mut Slab<Vec<u64>>, item: Vec<u64>) -> (key: usize)
    ensures
        key == slab_chain(*old(slab))[0],
        key < usize::MAX,
        slab_items(*final(slab)) == slab_items(*old(slab)).insert(key, item@),
        slab_chain(*final(slab)) == after_take(slab_chain(*old(slab))),
{
    slab.insert(item)
}

/// `Slab::try_remove`: on an occupied id, hands the record out, vacates the
/// slot and puts it at the head of the chain; on any other id, does nothing.
#[verifier::external_body]
fn slab_try_remove(slab: &mut Slab<Vec<u64>>, key: usize) -> (out: Option<Vec<u64>>)
    ensures
        match out {
            Some(item) => {
                &&& slab_items(*old(slab)).contains_key(key)
                &&& item@ == slab_items(*old(slab))[key]
                &&& slab_items(*final(slab)) == slab_items(*old(slab)).remove(key)
                &&& slab_chain(*final(slab)) == after_release(slab_chain(*old(slab)), key)
            },
            None => {
                &&& !slab_items(*old(slab)).contains_key(key)
                &&& slab_items(*final(slab)) == slab_items(*old(slab))
                &&& slab_chain(*final(slab)) == slab_chain(*old(slab))
            },
        },
{
    slab.try_remove(key)
}

/// `Slab::get`: the record in an occupied slot, nothing for any other id.
#[verifier::external_body]
fn slab_get(slab: &Slab<Vec<u64>>, key: usize) -> (out: Option<&Vec<u64>>)
    ensures
        match out {
            Some(item) => slab_items(*slab).contains_key(key) && item@ == slab_items(*slab)[key],
            None => !slab_items(*slab).contains_key(key),
        },
{
    slab.get(key)
}

/// `Slab::contains`: whether the id is an occupied slot.
#[verifier::external_body]
fn slab_contains(slab: &Slab<Vec<u64>>, key: usize) -> (found: bool)
    ensures
        found == slab_items(*slab).contains_key(key),
{
    slab.contains(key)
}

/// `Slab::len`: the number of occupied slots, which is always finite.
#[verifier::external_body]
fn slab_len(slab: &Slab<Vec<u64>>) -> (n: usize)
    ensures
        has_len(slab_items(*slab), n),
{
    slab.len()
}

/// `Slab::iter`: visits the occupied slots in ascending order of their ids,
/// each once; only the ids are kept.
#[verifier::external_body]
fn slab_keys(slab: &Slab<Vec<u64>>) -> (ids: Vec<usize>)
    ensures
        lists_ids(ids@, slab_items(*slab)),
{
    slab.iter().map(|(id, _)| id).collect()
}

/// `Slab::clear`: vacates every slot and restarts id assignment at 0.
#[verifier::external_body]
fn slab_clear(slab: &mut Slab<Vec<u64>>)
    ensures
        slab_items(*final(slab)) == no_records(),
        slab_chain(*final(slab)) == fresh_chain(),
{
    slab.clear()
}

/// The record store. Its model is the map from each live id to its record,
/// together with the chain of vacancies that decides which id comes next.
pub struct RecordStore {
    slab: Slab<Vec<u64>>,
}

impl View for RecordStore {
    type V = Map<usize, Seq<u64>>;

    closed spec fn view(&self) -> Map<usize, Seq<u64>> {
        slab_items(self.slab)
    }
}

impl RecordStore {
    /// The ids that coming insertions receive, in order: the freed ids, most
    /// recently freed first, and last the first id that was never used.
    pub closed spec fn vacancies(&self) -> Seq<usize> {
        slab_chain(self.slab)
    }

    /// The id that the next `occupy` will return.
    pub open spec fn next_id(&self) -> usize {
        self.vacancies()[0]
    }

    /// The store invariant.
    pub open spec fn wf(&self) -> bool {
        store_ok(self@, self.vacancies())
    }

    /// An empty store.
    pub fn new() -> (store: RecordStore)
        ensures
            store.wf(),
            store@ == no_records(),
            store.vacancies() == fresh_chain(),
    {
        RecordStore { slab: slab_new() }
    }

    /// The id the next insertion will receive, without allocating it.
    pub fn vacant_id(&self) -> (id: usize)
        ensures
            id == self.next_id(),
    {
        slab_vacant_key(&self.slab)
    }

    /// Commits a record into the vacant slot and returns its id.
    pub fn occupy(&mut self, item: Vec<u64>) -> (id: usize)
        requires
            old(self).wf(),
        ensures
            final(self).wf(),
            id == old(self).next_id(),
            id < usize::MAX,
            final(self)@ == old(self)@.insert(id, item@),
            final(self).vacancies() == after_take(old(self).vacancies()),
    {
        let id = slab_insert(&mut self.slab, item);
        proof {
            lemma_take_ok(old(self)@, old(self).vacancies(), item@);
        }
        id
    }

    /// Releases a slot and returns its record; fails, changing nothing, when
    /// the id is not live.
    pub fn release(&mut self, id: usize) -> (out: Option<Vec<u64>>)
        requires
            old(self).wf(),
        ensures
            final(self).wf(),
            out.is_some() == old(self)@.contains_key(id),
            out.is_some() ==> out.unwrap()@ == old(self)@[id],
            final(self)@ == old(self)@.remove(id),
            final(self).vacancies() == (if old(self)@.contains_key(id) {
                after_release(old(self).vacancies(), id)
            } else {
                old(self).vacancies()
            }),
    {
        let out = slab_try_remove(&mut self.slab, id);
        proof {
            if out.is_some() {
                lemma_release_ok(old(self)@, old(self).vacancies(), id);
            } else {
                assert(self@ =~= old(self)@.remove(id));
            }
        }
        out
    }

    /// The record stored under a live id.
    pub fn get(&self, id: usize) -> (out: Option<&Vec<u64>>)
        ensures
            out.is_some() == self@.contains_key(id),
            out.is_some() ==> out.unwrap()@ == self@[id],
    {
        slab_get(&self.slab, id)
    }

    /// Whether the id is live.
    pub fn contains(&self, id: usize) -> (found: bool)
        ensures
            found == self@.contains_key(id),
    {
        slab_contains(&self.slab, id)
    }

    /// The number of live records.
    pub fn len(&self) -> (n: usize)
        ensures
            has_len(self@, n),
    {
        slab_len(&self.slab)
    }

    /// The live ids in ascending order.
    pub fn ids(&self) -> (ids: Vec<usize>)
        ensures
            lists_ids(ids@, self@),
    {
        slab_keys(&self.slab)
    }

    /// Releases every slot; id assignment starts over at 0.
    pub fn clear(&mut self)
        ensures
            final(self).wf(),
            final(self)@ == no_records(),
            final(self).vacancies() == fresh_chain(),
    {
        slab_clear(&mut self.slab)
    }
}

} // verus!
