//! The multi index: all ids that share a key form one bucket, kept as a
//! circular doubly-linked list threaded through an array of link pairs that is
//! addressed by id. The hash map holds one head id and the member count per
//! key, so membership changes are constant-time link surgery.
use crate::keymap::{
    head_entries, head_map_clear, head_map_get, head_map_insert, head_map_new, head_map_remove,
};
use ahash::AHashMap;
use vstd::prelude::*;

verus! {

/// The member before position `j` on the ring `s`.
pub open spec fn ring_prev(s: Seq<usize>, j: int) -> usize {
    if j == 0 {
        s[s.len() - 1]
    } else {
        s[j - 1]
    }
}

/// The member after position `j` on the ring `s`.
pub open spec fn ring_next(s: Seq<usize>, j: int) -> usize {
    if j + 1 == s.len() {
        s[0]
    } else {
        s[j + 1]
    }
}

/// The members filed under `key`, head first; empty when the key has no bucket.
pub open spec fn bucket(m: Map<Seq<u64>, Seq<usize>>, key: Seq<u64>) -> Seq<usize> {
    if m.contains_key(key) {
        m[key]
    } else {
        Seq::empty()
    }
}

/// Whether `id` is a member of no bucket.
pub open spec fn absent(m: Map<Seq<u64>, Seq<usize>>, id: usize) -> bool {
    forall|k: Seq<u64>, j: int| m.contains_key(k) && 0 <= j < m[k].len() ==> #[trigger] m[k][j] != id
}

/// Every bucket has a member, and no id occurs twice, neither within one
/// bucket nor in two of them.
pub open spec fn buckets_ok(m: Map<Seq<u64>, Seq<usize>>) -> bool {
    &&& forall|k: Seq<u64>| #[trigger] m.contains_key(k) ==> m[k].len() > 0
    &&& forall|k1: Seq<u64>, j1: int, k2: Seq<u64>, j2: int|
        #![trigger m[k1][j1], m[k2][j2]]
        m.contains_key(k1) && 0 <= j1 < m[k1].len() && m.contains_key(k2) && 0 <= j2 < m[k2].len()
            && m[k1][j1] == m[k2][j2] ==> k1 == k2 && j1 == j2
}

/// The model after `id` joined the bucket of `key` as its new head.
pub open spec fn with_member(m: Map<Seq<u64>, Seq<usize>>, key: Seq<u64>, id: usize) -> Map<
    Seq<u64>,
    Seq<usize>,
> {
    m.insert(key, seq![id] + bucket(m, key))
}

/// The model after `id` left the bucket of `key`; the bucket of a sole member
/// disappears with it.
pub open spec fn without_member(m: Map<Seq<u64>, Seq<usize>>, key: Seq<u64>, id: usize) -> Map<
    Seq<u64>,
    Seq<usize>,
> {
    if m[key].len() == 1 {
        m.remove(key)
    } else {
        m.insert(key, m[key].remove(m[key].index_of(id)))
    }
}

/// A sequence of distinct ids below `n` has at most `n` members.
proof fn lemma_distinct_below(s: Seq<usize>, n: nat)
    requires
        s.no_duplicates(),
        forall|j: int| 0 <= j < s.len() ==> s[j] < n,
    ensures
        s.len() <= n,
{
    let ints = s.map_values(|x: usize| x as int);
    assert(ints.no_duplicates());
    ints.unique_seq_to_set();
    vstd::set_lib::lemma_int_range(0, n as int);
    let range = vstd::set_lib::set_int_range(0, n as int);
    assert(ints.to_set().subset_of(range)) by {
        assert forall|x: int| ints.to_set().contains(x) implies range.contains(x) by {
            let j = choose|j: int| 0 <= j < ints.len() && ints[j] == x;
            assert(s[j] < n);
        }
    }
    vstd::set_lib::lemma_len_subset(ints.to_set(), range);
}

/// A new head keeps the buckets sound, as long as it was a member of none.
pub proof fn lemma_with_member_ok(m: Map<Seq<u64>, Seq<usize>>, key: Seq<u64>, id: usize)
    requires
        buckets_ok(m),
        absent(m, id),
    ensures
        buckets_ok(with_member(m, key, id)),
{
    let s2 = seq![id] + bucket(m, key);
    let m2 = with_member(m, key, id);
    assert forall|k: Seq<u64>| #[trigger] m2.contains_key(k) implies m2[k].len() > 0 by {
        if k != key {
            assert(m.contains_key(k));
        }
    }
    assert forall|k1: Seq<u64>, j1: int, k2: Seq<u64>, j2: int|
        #![trigger m2[k1][j1], m2[k2][j2]]
        m2.contains_key(k1) && 0 <= j1 < m2[k1].len() && m2.contains_key(k2) && 0 <= j2
            < m2[k2].len() && m2[k1][j1] == m2[k2][j2] implies k1 == k2 && j1 == j2 by {
        if k1 != key {
            assert(m[k1][j1] != id);
        } else if j1 > 0 {
            assert(s2[j1] == m[key][j1 - 1]);
            assert(m[key][j1 - 1] != id);
        }
        if k2 != key {
            assert(m[k2][j2] != id);
        } else if j2 > 0 {
            assert(s2[j2] == m[key][j2 - 1]);
            assert(m[key][j2 - 1] != id);
        }
    }
}

/// A leaving member keeps the buckets sound.
pub proof fn lemma_without_member_ok(m: Map<Seq<u64>, Seq<usize>>, key: Seq<u64>, id: usize)
    requires
        buckets_ok(m),
        bucket(m, key).contains(id),
    ensures
        buckets_ok(without_member(m, key, id)),
{
    let s = m[key];
    let p = s.index_of(id);
    assert(m.contains_key(key));
    assert(0 <= p < s.len() && s[p] == id);
    let m2 = without_member(m, key, id);
    assert forall|k: Seq<u64>| #[trigger] m2.contains_key(k) implies m2[k].len() > 0 by {
        if k != key {
            assert(m.contains_key(k));
        }
    }
    assert forall|k1: Seq<u64>, j1: int, k2: Seq<u64>, j2: int|
        #![trigger m2[k1][j1], m2[k2][j2]]
        m2.contains_key(k1) && 0 <= j1 < m2[k1].len() && m2.contains_key(k2) && 0 <= j2
            < m2[k2].len() && m2[k1][j1] == m2[k2][j2] implies k1 == k2 && j1 == j2 by {
        let a = if k1 == key && j1 >= p {
            j1 + 1
        } else {
            j1
        };
        let b = if k2 == key && j2 >= p {
            j2 + 1
        } else {
            j2
        };
        assert(m[k1][a] == m2[k1][j1]);
        assert(m[k2][b] == m2[k2][j2]);
    }
}

/// Dropping a whole bucket keeps the others sound.
pub proof fn lemma_without_bucket_ok(m: Map<Seq<u64>, Seq<usize>>, key: Seq<u64>)
    requires
        buckets_ok(m),
    ensures
        buckets_ok(m.remove(key)),
{
    let m2 = m.remove(key);
    assert forall|k: Seq<u64>| #[trigger] m2.contains_key(k) implies m2[k].len() > 0 by {
        assert(m.contains_key(k));
    }
    assert forall|k1: Seq<u64>, j1: int, k2: Seq<u64>, j2: int|
        #![trigger m2[k1][j1], m2[k2][j2]]
        m2.contains_key(k1) && 0 <= j1 < m2[k1].len() && m2.contains_key(k2) && 0 <= j2
            < m2[k2].len() && m2[k1][j1] == m2[k2][j2] implies k1 == k2 && j1 == j2 by {
        assert(m2[k1][j1] == m[k1][j1]);
        assert(m2[k2][j2] == m[k2][j2]);
    }
}

/// The link array threads the ring `s`: the link pair of each member names
/// the member before it and the member after it.
pub open spec fn ring_ok(links: Seq<(usize, usize)>, s: Seq<usize>) -> bool {
    forall|j: int|
        0 <= j < s.len() ==> (#[trigger] s[j]) < links.len() && links[s[j] as int] == (
            ring_prev(s, j),
            ring_next(s, j),
        )
}

/// The hash map entries and the link array represent the buckets: each key
/// maps to the first member and the length of its bucket, and the link array
/// threads each bucket as a ring.
pub open spec fn represents(
    heads: Map<Seq<u64>, (usize, usize)>,
    links: Seq<(usize, usize)>,
    m: Map<Seq<u64>, Seq<usize>>,
) -> bool {
    &&& heads.dom() == m.dom()
    &&& forall|k: Seq<u64>| #[trigger]
        m.contains_key(k) ==> heads[k].0 == m[k][0] && heads[k].1 == m[k].len() && ring_ok(
            links,
            m[k],
        )
}

/// A ring stays threaded when the link pairs of its members stay.
proof fn lemma_ring_frame(links: Seq<(usize, usize)>, after: Seq<(usize, usize)>, s: Seq<usize>)
    requires
        ring_ok(links, s),
        after.len() >= links.len(),
        forall|j: int| 0 <= j < s.len() ==> after[(#[trigger] s[j]) as int] == links[s[j] as int],
    ensures
        ring_ok(after, s),
{
}

/// Splicing a new member in between the last member and the first threads
/// the ring with the new member in front.
proof fn lemma_ring_splice(links: Seq<(usize, usize)>, s: Seq<usize>, id: usize)
    requires
        ring_ok(links, s),
        s.len() >= 1,
        s.no_duplicates(),
        !s.contains(id),
        id < links.len(),
    ensures
        ({
            let head = s[0];
            let last = links[head as int].0;
            let links1 = links.update(head as int, (id, links[head as int].1));
            let links2 = links1.update(last as int, (links1[last as int].0, id));
            let links3 = links2.update(id as int, (last, head));
            &&& head < links.len()
            &&& last == s[s.len() - 1]
            &&& last < links.len()
            &&& ring_ok(links3, seq![id] + s)
        }),
{
    let n = s.len() as int;
    let head = s[0];
    let last = links[head as int].0;
    let links1 = links.update(head as int, (id, links[head as int].1));
    let links2 = links1.update(last as int, (links1[last as int].0, id));
    let links3 = links2.update(id as int, (last, head));
    let s2 = seq![id] + s;
    assert(last == s[n - 1]);
    assert forall|j: int| 0 <= j < s2.len() implies (#[trigger] s2[j]) < links3.len()
        && links3[s2[j] as int] == (ring_prev(s2, j), ring_next(s2, j)) by {
        if j > 0 {
            let x = s[j - 1];
            assert(s2[j] == x);
            assert(x != id);
            assert((x == head) == (j - 1 == 0));
            assert((x == last) == (j - 1 == n - 1));
        }
    }
}

/// Linking the two neighbours of a member to each other threads the ring
/// without it.
#[verifier::rlimit(30)]
proof fn lemma_ring_unsplice(links: Seq<(usize, usize)>, s: Seq<usize>, p: int)
    requires
        ring_ok(links, s),
        s.no_duplicates(),
        s.len() > 1,
        0 <= p < s.len(),
    ensures
        ({
            let prev = links[s[p] as int].0;
            let next = links[s[p] as int].1;
            let links1 = links.update(prev as int, (links[prev as int].0, next));
            let links2 = links1.update(next as int, (prev, links1[next as int].1));
            &&& prev == ring_prev(s, p)
            &&& next == ring_next(s, p)
            &&& prev != s[p]
            &&& prev < links.len()
            &&& next < links.len()
            &&& ring_ok(links2, s.remove(p))
        }),
{
    let n = s.len() as int;
    let prev = links[s[p] as int].0;
    let next = links[s[p] as int].1;
    let pi = if p == 0 {
        n - 1
    } else {
        p - 1
    };
    let ni = if p + 1 == n {
        0
    } else {
        p + 1
    };
    assert(s[pi] == prev);
    assert(s[ni] == next);
    let links1 = links.update(prev as int, (links[prev as int].0, next));
    let links2 = links1.update(next as int, (prev, links1[next as int].1));
    let s2 = s.remove(p);
    assert forall|j: int| 0 <= j < s2.len() implies (#[trigger] s2[j]) < links2.len()
        && links2[s2[j] as int] == (ring_prev(s2, j), ring_next(s2, j)) by {
        let j0 = if j < p {
            j
        } else {
            j + 1
        };
        let x = s[j0];
        assert(s2[j] == x);
        assert((x == prev) == (j0 == pi));
        assert((x == next) == (j0 == ni));
        assert(links[x as int] == (ring_prev(s, j0), ring_next(s, j0)));
        let a = if j == 0 {
            s2.len() - 1
        } else {
            j - 1
        };
        let b = if j + 1 == s2.len() {
            0
        } else {
            j + 1
        };
        assert(s2[a] == s[if a < p {
            a
        } else {
            a + 1
        }]);
        assert(s2[b] == s[if b < p {
            b
        } else {
            b + 1
        }]);
    }
}

/// In sound buckets each bucket has distinct members, and a member of one
/// bucket is in no other.
proof fn lemma_buckets_apart(m: Map<Seq<u64>, Seq<usize>>, key: Seq<u64>)
    requires
        buckets_ok(m),
        m.contains_key(key),
    ensures
        m[key].no_duplicates(),
        forall|k: Seq<u64>, j: int|
            m.contains_key(k) && k != key && 0 <= j < m[k].len() ==> !m[key].contains(
                #[trigger] m[k][j],
            ),
{
    let s = m[key];
    assert forall|a: int, b: int| 0 <= a < s.len() && 0 <= b < s.len() && a != b implies s[a]
        != s[b] by {
        assert(m[key][a] == s[a]);
        assert(m[key][b] == s[b]);
    }
    assert forall|k: Seq<u64>, j: int|
        m.contains_key(k) && k != key && 0 <= j < m[k].len() implies !m[key].contains(
        #[trigger] m[k][j],
    ) by {
        if m[key].contains(m[k][j]) {
            let i = choose|i: int| 0 <= i < s.len() && s[i] == m[k][j];
            assert(m[key][i] == m[k][j]);
        }
    }
}

/// A longer link array represents the same buckets.
proof fn lemma_grow(
    heads: Map<Seq<u64>, (usize, usize)>,
    links: Seq<(usize, usize)>,
    m: Map<Seq<u64>, Seq<usize>>,
    filler: (usize, usize),
)
    requires
        represents(heads, links, m),
    ensures
        represents(heads, links.push(filler), m),
{
    assert forall|k: Seq<u64>| #[trigger] m.contains_key(k) implies ring_ok(
        links.push(filler),
        m[k],
    ) by {
        lemma_ring_frame(links, links.push(filler), m[k]);
    }
}

/// Without the head entry of a key, the rest still represents the other
/// buckets.
proof fn lemma_drop_bucket(
    heads: Map<Seq<u64>, (usize, usize)>,
    links: Seq<(usize, usize)>,
    m: Map<Seq<u64>, Seq<usize>>,
    key: Seq<u64>,
)
    requires
        represents(heads, links, m),
    ensures
        represents(heads.remove(key), links, m.remove(key)),
{
    let m2 = m.remove(key);
    assert(heads.remove(key).dom() =~= m2.dom());
    assert forall|k: Seq<u64>| #[trigger] m2.contains_key(k) implies m.contains_key(k) by {}
}

/// A member's link pair lies within the link array, and it names the member
/// itself exactly when the member is alone in its bucket.
proof fn lemma_member_links(
    heads: Map<Seq<u64>, (usize, usize)>,
    links: Seq<(usize, usize)>,
    m: Map<Seq<u64>, Seq<usize>>,
    key: Seq<u64>,
    id: usize,
)
    requires
        buckets_ok(m),
        represents(heads, links, m),
        bucket(m, key).contains(id),
    ensures
        m.contains_key(key),
        id < links.len(),
        (links[id as int].0 == id) == (m[key].len() == 1),
{
    let s = m[key];
    let p = s.index_of(id);
    assert(0 <= p < s.len() && s[p] == id);
    lemma_buckets_apart(m, key);
    if s.len() > 1 {
        lemma_ring_unsplice(links, s, p);
    }
}

/// A first member for a key: linked to itself, it is the head of a bucket
/// of one.
proof fn lemma_found(
    heads: Map<Seq<u64>, (usize, usize)>,
    links: Seq<(usize, usize)>,
    m: Map<Seq<u64>, Seq<usize>>,
    key: Seq<u64>,
    id: usize,
)
    requires
        represents(heads, links, m),
        absent(m, id),
        !m.contains_key(key),
        id < links.len(),
    ensures
        represents(
            heads.insert(key, (id, 1usize)),
            links.update(id as int, (id, id)),
            with_member(m, key, id),
        ),
{
    let m2 = with_member(m, key, id);
    let links2 = links.update(id as int, (id, id));
    assert(seq![id] + bucket(m, key) =~= seq![id]);
    assert(heads.insert(key, (id, 1usize)).dom() =~= m2.dom());
    assert forall|k: Seq<u64>| #[trigger] m2.contains_key(k) implies ring_ok(links2, m2[k]) by {
        if k != key {
            assert(m.contains_key(k));
            assert forall|j: int| 0 <= j < m[k].len() implies links2[(#[trigger] m[k][j]) as int]
                == links[m[k][j] as int] by {
                assert(m[k][j] != id);
            }
            lemma_ring_frame(links, links2, m[k]);
        }
    }
}

/// Splicing a new member in between the head's predecessor and the head,
/// and making it the head, represents the bucket with the new member in
/// front. The count cannot overflow: the members are distinct ids within
/// the link array.
#[verifier::rlimit(30)]
proof fn lemma_splice(
    heads: Map<Seq<u64>, (usize, usize)>,
    links: Seq<(usize, usize)>,
    m: Map<Seq<u64>, Seq<usize>>,
    key: Seq<u64>,
    id: usize,
)
    requires
        buckets_ok(m),
        represents(heads, links, m),
        absent(m, id),
        m.contains_key(key),
        id < links.len(),
        links.len() <= usize::MAX,
    ensures
        ({
            let head = heads[key].0;
            let last = links[head as int].0;
            let links1 = links.update(head as int, (id, links[head as int].1));
            let links2 = links1.update(last as int, (links1[last as int].0, id));
            let links3 = links2.update(id as int, (last, head));
            &&& head < links.len()
            &&& last < links.len()
            &&& heads[key].1 < links.len()
            &&& represents(
                heads.insert(key, (id, (heads[key].1 + 1) as usize)),
                links3,
                with_member(m, key, id),
            )
        }),
{
    let s = m[key];
    let s2 = seq![id] + s;
    let head = heads[key].0;
    let last = links[head as int].0;
    let links1 = links.update(head as int, (id, links[head as int].1));
    let links2 = links1.update(last as int, (links1[last as int].0, id));
    let links3 = links2.update(id as int, (last, head));
    let m2 = with_member(m, key, id);
    lemma_buckets_apart(m, key);
    assert(!s.contains(id)) by {
        if s.contains(id) {
            let i = choose|i: int| 0 <= i < s.len() && s[i] == id;
            assert(m[key][i] == id);
        }
    }
    lemma_ring_splice(links, s, id);
    assert(s2.no_duplicates()) by {
        assert forall|a: int, b: int| 0 <= a < s2.len() && 0 <= b < s2.len() && a != b implies s2[a]
            != s2[b] by {
            if a > 0 {
                assert(s2[a] == s[a - 1]);
            }
            if b > 0 {
                assert(s2[b] == s[b - 1]);
            }
        }
    }
    assert forall|j: int| 0 <= j < s2.len() implies s2[j] < links.len() by {
        assert(ring_ok(links3, s2));
    }
    lemma_distinct_below(s2, links.len());
    assert(heads.insert(key, (id, (heads[key].1 + 1) as usize)).dom() =~= m2.dom());
    assert forall|k: Seq<u64>| #[trigger] m2.contains_key(k) implies ring_ok(links3, m2[k]) by {
        if k != key {
            assert(m.contains_key(k));
            assert forall|j: int| 0 <= j < m[k].len() implies links3[(#[trigger] m[k][j]) as int]
                == links[m[k][j] as int] by {
                assert(m[k][j] != id);
                assert(!s.contains(m[k][j]));
            }
            lemma_ring_frame(links, links3, m[k]);
        }
    }
}

/// Linking the two neighbours of a leaving member to each other, and moving
/// the head on where the member was the head, represents the bucket without
/// it.
proof fn lemma_unsplice(
    heads: Map<Seq<u64>, (usize, usize)>,
    links: Seq<(usize, usize)>,
    m: Map<Seq<u64>, Seq<usize>>,
    key: Seq<u64>,
    id: usize,
)
    requires
        buckets_ok(m),
        represents(heads, links, m),
        bucket(m, key).contains(id),
        m[key].len() > 1,
    ensures
        ({
            let prev = links[id as int].0;
            let next = links[id as int].1;
            let links1 = links.update(prev as int, (links[prev as int].0, next));
            let links2 = links1.update(next as int, (prev, links1[next as int].1));
            let head = if heads[key].0 == id {
                next
            } else {
                heads[key].0
            };
            &&& prev < links.len()
            &&& next < links.len()
            &&& heads.contains_key(key)
            &&& heads[key].1 >= 2
            &&& represents(
                heads.insert(key, (head, (heads[key].1 - 1) as usize)),
                links2,
                without_member(m, key, id),
            )
        }),
{
    let s = m[key];
    let p = s.index_of(id);
    assert(m.contains_key(key));
    assert(0 <= p < s.len() && s[p] == id);
    let prev = links[id as int].0;
    let next = links[id as int].1;
    let links1 = links.update(prev as int, (links[prev as int].0, next));
    let links2 = links1.update(next as int, (prev, links1[next as int].1));
    let head = if heads[key].0 == id {
        next
    } else {
        heads[key].0
    };
    let m2 = without_member(m, key, id);
    lemma_buckets_apart(m, key);
    lemma_ring_unsplice(links, s, p);
    assert(s.contains(prev) && s.contains(next)) by {
        let pi = if p == 0 {
            s.len() - 1
        } else {
            p - 1
        };
        let ni = if p + 1 == s.len() {
            0
        } else {
            p + 1
        };
        assert(s[pi] == prev && s[ni] == next);
    }
    assert(s.remove(p)[0] == head) by {
        assert((s[0] == id) == (p == 0));
    }
    assert(heads.insert(key, (head, (heads[key].1 - 1) as usize)).dom() =~= m2.dom());
    assert forall|k: Seq<u64>| #[trigger] m2.contains_key(k) implies ring_ok(links2, m2[k]) by {
        if k != key {
            assert(m.contains_key(k));
            assert forall|j: int| 0 <= j < m[k].len() implies links2[(#[trigger] m[k][j]) as int]
                == links[m[k][j] as int] by {
                assert(!s.contains(m[k][j]));
            }
            lemma_ring_frame(links, links2, m[k]);
        }
    }
}

/// A non-unique index from keys to buckets of ids. Its model maps each key
/// that has members to those members in ring order, starting at the head.
pub struct MultiIndex {
    heads: AHashMap<Vec<u64>, (usize, usize)>,
    links: Vec<(usize, usize)>,
    order: Ghost<Map<Seq<u64>, Seq<usize>>>,
}

impl View for MultiIndex {
    type V = Map<Seq<u64>, Seq<usize>>;

    closed spec fn view(&self) -> Map<Seq<u64>, Seq<usize>> {
        self.order@
    }
}

impl MultiIndex {
    /// The hash map and the link array represent the model.
    pub closed spec fn linked(&self) -> bool {
        represents(head_entries(self.heads), self.links@, self.order@)
    }

    /// The index invariant: a sound model, faithfully represented.
    pub open spec fn wf(&self) -> bool {
        buckets_ok(self@) && self.linked()
    }

    /// An index without buckets.
    pub fn new() -> (index: MultiIndex)
        ensures
            index.wf(),
            index@ == Map::<Seq<u64>, Seq<usize>>::empty(),
    {
        MultiIndex { heads: head_map_new(), links: Vec::new(), order: Ghost(Map::empty()) }
    }

    /// The number of members filed under `key`, read from the bucket head.
    pub fn count(&self, key: &Vec<u64>) -> (n: usize)
        requires
            self.wf(),
        ensures
            n == bucket(self@, key@).len(),
    {
        match head_map_get(&self.heads, key) {
            None => {
                proof {
                    assert(!self.order@.dom().contains(key@));
                }
                0
            },
            Some((_, count)) => {
                proof {
                    assert(self.order@.dom().contains(key@));
                }
                count
            },
        }
    }

    /// The members filed under `key`, in ring order from the head.
    pub fn lookup(&self, key: &Vec<u64>) -> (ids: Vec<usize>)
        requires
            self.wf(),
        ensures
            ids@ == bucket(self@, key@),
    {
        let mut ids: Vec<usize> = Vec::new();
        match head_map_get(&self.heads, key) {
            None => {
                proof {
                    assert(!self.order@.dom().contains(key@));
                }
            },
            Some((head, count)) => {
                proof {
                    assert(self.order@.dom().contains(key@));
                }
                let ghost s = self.order@[key@];
                let mut cur: usize = head;
                let mut i: usize = 0;
                while i < count
                    invariant
                        self.wf(),
                        self.order@.contains_key(key@),
                        s == self.order@[key@],
                        count == s.len(),
                        i <= count,
                        ids@ == s.subrange(0, i as int),
                        cur == (if i < count {
                            s[i as int]
                        } else {
                            s[0]
                        }),
                    decreases count - i,
                {
                    proof {
                        assert(ring_ok(self.links@, s));
                        assert(self.links@[s[i as int] as int].1 == ring_next(s, i as int));
                    }
                    ids.push(cur);
                    cur = self.links[cur].1;
                    i += 1;
                    proof {
                        assert(ids@ =~= s.subrange(0, i as int));
                    }
                }
                proof {
                    assert(ids@ =~= s);
                }
            },
        }
        ids
    }

    /// Files `id` under `key`. A key without a bucket gets one with `id` as
    /// its only member, linked to itself. Otherwise `id` is spliced in between
    /// the head's predecessor and the head, and becomes the new head.
    pub fn insert(&mut self, id: usize, key: Vec<u64>)
        requires
            old(self).wf(),
            absent(old(self)@, id),
        ensures
            final(self).wf(),
            final(self)@ == with_member(old(self)@, key@, id),
    {
        while self.links.len() <= id
            invariant
                self.wf(),
                self@ == old(self)@,
            decreases id + 1 - self.links.len(),
        {
            proof {
                lemma_grow(head_entries(self.heads), self.links@, self.order@, (0usize, 0usize));
            }
            self.links.push((0, 0));
        }
        let ghost m = self.order@;
        let ghost heads = head_entries(self.heads);
        let ghost links = self.links@;
        proof {
            lemma_with_member_ok(m, key@, id);
        }
        match head_map_get(&self.heads, &key) {
            None => {
                proof {
                    assert(!m.dom().contains(key@));
                    lemma_found(heads, links, m, key@, id);
                }
                self.links.set(id, (id, id));
                head_map_insert(&mut self.heads, key, (id, 1));
            },
            Some((head, count)) => {
                proof {
                    assert(m.dom().contains(key@));
                    lemma_splice(heads, links, m, key@, id);
                }
                let (last, head_next) = self.links[head];
                self.links.set(head, (id, head_next));
                let (last_prev, _) = self.links[last];
                self.links.set(last, (last_prev, id));
                self.links.set(id, (last, head));
                head_map_insert(&mut self.heads, key, (id, count + 1));
            },
        }
        proof {
            self.order = Ghost(with_member(m, key@, id));
        }
    }

    /// Takes `id` out of the bucket of `key`. A sole member takes the bucket
    /// with it. Otherwise its two neighbours are linked to each other, the
    /// count drops by one, and if `id` was the head, its successor becomes
    /// the head.
    pub fn remove(&mut self, id: usize, key: Vec<u64>)
        requires
            old(self).wf(),
            bucket(old(self)@, key@).contains(id),
        ensures
            final(self).wf(),
            final(self)@ == without_member(old(self)@, key@, id),
    {
        let ghost m = self.order@;
        let ghost heads = head_entries(self.heads);
        let ghost links = self.links@;
        proof {
            lemma_member_links(heads, links, m, key@, id);
            lemma_without_member_ok(m, key@, id);
        }
        let (prev, next) = self.links[id];
        if prev == id {
            proof {
                lemma_drop_bucket(heads, links, m, key@);
            }
            head_map_remove(&mut self.heads, &key);
        } else {
            proof {
                lemma_unsplice(heads, links, m, key@, id);
            }
            let (prev_prev, _) = self.links[prev];
            self.links.set(prev, (prev_prev, next));
            let (_, next_next) = self.links[next];
            self.links.set(next, (prev, next_next));
            let found = head_map_get(&self.heads, &key);
            let (head, count) = found.unwrap();
            let new_head = if head == id {
                next
            } else {
                head
            };
            head_map_insert(&mut self.heads, key, (new_head, count - 1));
        }
        proof {
            self.order = Ghost(without_member(m, key@, id));
        }
    }

    /// Empties the bucket of `key` and returns its former members, in ring
    /// order from the head. The whole bucket leaves with its head entry.
    pub fn drain(&mut self, key: &Vec<u64>) -> (ids: Vec<usize>)
        requires
            old(self).wf(),
        ensures
            final(self).wf(),
            ids@ == bucket(old(self)@, key@),
            final(self)@ == old(self)@.remove(key@),
    {
        let ids = self.lookup(key);
        let ghost m = self.order@;
        proof {
            lemma_drop_bucket(head_entries(self.heads), self.links@, m, key@);
            lemma_without_bucket_ok(m, key@);
        }
        head_map_remove(&mut self.heads, key);
        proof {
            self.order = Ghost(m.remove(key@));
        }
        ids
    }

    /// Drops every bucket.
    pub fn clear(&mut self)
        ensures
            final(self).wf(),
            final(self)@ == Map::<Seq<u64>, Seq<usize>>::empty(),
    {
        head_map_clear(&mut self.heads);
        self.links.clear();
        self.order = Ghost(Map::empty());
    }
}

} // verus!
