//! Popularity partitioning: terms in order of frequency go to the
//! direct-lookup packer until its lookup table is full; all the others are
//! left for the tree packer, in ascending byte order.
use crate::direct::{chunks_after, next_entry, ChunksWithDirectLookup};
use crate::keys::{c_str_label, ChunkStrKey};
use crate::order::{ids_below, sort_ids, sorted_by, TermOrder};
use vstd::prelude::*;
use vstd::seq_lib::group_to_multiset_ensures;

verus! {

broadcast use group_to_multiset_ensures;

/// The ids `0, 1, ..., n - 1`.
pub open spec fn all_ids(n: nat) -> Seq<usize> {
    Seq::new(n, |i: int| i as usize)
}

/// Partition completeness: when the popular ids followed by the normal ids
/// hold the same ids as `0..n`, as `partition_terms` ensures, every term id
/// below `n` occurs exactly once among them, and no other id occurs.
pub proof fn lemma_partition_complete(popular: Seq<usize>, normal: Seq<usize>, n: nat)
    requires
        (popular + normal).to_multiset() == all_ids(n).to_multiset(),
        n <= usize::MAX,
    ensures
        forall|t: usize| (t as int) < n ==> #[trigger] (popular + normal).to_multiset().count(t) == 1,
        forall|t: usize| #[trigger] (popular + normal).to_multiset().count(t) > 0 ==> (t as int) < n,
{
    let ids = all_ids(n);
    assert forall|i: int| 0 <= i < ids.len() implies #[trigger] ids[i] as int == i by {}
    assert(ids.no_duplicates()) by {
        assert forall|i: int, j: int| 0 <= i < ids.len() && 0 <= j < ids.len() && i != j implies ids[i]
            != ids[j] by {
            assert(ids[i] as int == i);
            assert(ids[j] as int == j);
        }
    }
    ids.lemma_multiset_has_no_duplicates();
    assert forall|t: usize| (t as int) < n implies #[trigger] (popular + normal).to_multiset().count(t)
        == 1 by {
        assert(ids[t as int] == t);
        assert(ids.contains(t));
    }
    assert forall|t: usize| #[trigger] (popular + normal).to_multiset().count(t) > 0 implies (t as int)
        < n by {
        assert(ids.to_multiset().contains(t));
        assert(ids.contains(t));
    }
}

/// The chunks and lookup table after placing `items` (label, value) one
/// after another, each accepted.
pub open spec fn placed(
    chunks: Seq<Seq<u8>>,
    lookup: Seq<u8>,
    items: Seq<(Seq<u8>, Seq<u8>)>,
    max_chunk_size: int,
) -> (Seq<Seq<u8>>, Seq<u8>)
    decreases items.len(),
{
    if items.len() == 0 {
        (chunks, lookup)
    } else {
        let p = placed(chunks, lookup, items.drop_last(), max_chunk_size);
        let it = items.last();
        (
            chunks_after(p.0, it.1, max_chunk_size),
            p.1 + next_entry(p.0, it.0, it.1.len() as int, max_chunk_size),
        )
    }
}

/// The label and value that the direct packer receives for each term id.
pub open spec fn items_of(ids: Seq<usize>, terms: Seq<Seq<u8>>, values: Seq<Seq<u8>>) -> Seq<
    (Seq<u8>, Seq<u8>),
> {
    ids.map_values(|t: usize| (c_str_label(terms[t as int]), values[t as int]))
}

/// Term ids in order of popularity; the first `popular_count` of them went
/// to the direct-lookup packer, and `normal` holds the rest in ascending
/// byte order.
pub struct Partition {
    pub order: Vec<usize>,
    pub popular_count: usize,
    pub normal: Vec<usize>,
}

/// Splits the terms into popular and normal ones. Terms are tried in order
/// of popularity; each is inserted, keyed by its bytes, with `values[t]` as
/// value, into `popular`, until the first one that the packer rejects.
/// That term and all after it are normal, whatever their frequency.
pub fn partition_terms(
    terms: &Vec<Vec<u8>>,
    frequencies: &Vec<usize>,
    values: &Vec<Vec<u8>>,
    popular: &mut ChunksWithDirectLookup,
) -> (r: Partition)
    requires
        frequencies@.len() == terms@.len(),
        values@.len() == terms@.len(),
        forall|t: int| 0 <= t < terms@.len() ==> (#[trigger] terms@[t])@.len() <= 255,
        old(popular).wf(),
    ensures
        ({
            let tv = terms@.map_values(|t: Vec<u8>| t@);
            let vv = values@.map_values(|v: Vec<u8>| v@);
            let n = terms@.len();
            let k = r.popular_count as int;
            let before = (old(popular).chunks_view(), old(popular).lookup_view());
            let after = (final(popular).chunks_view(), final(popular).lookup_view());
            let max = old(popular).max_chunk_size();
            &&& r.order@.to_multiset() == all_ids(n).to_multiset()
            &&& ids_below(r.order@, n as int)
            &&& ids_below(r.normal@, n as int)
            &&& sorted_by(TermOrder::Popularity, tv, frequencies@, r.order@)
            &&& k <= n
            &&& r.normal@.to_multiset() == r.order@.subrange(k, n as int).to_multiset()
            &&& sorted_by(TermOrder::Bytes, tv, frequencies@, r.normal@)
            &&& (r.order@.subrange(0, k) + r.normal@).to_multiset() == all_ids(n).to_multiset()
            &&& final(popular).wf()
            &&& final(popular).max_chunk_size() == max
            &&& final(popular).max_lookup_len() == old(popular).max_lookup_len()
            &&& after == placed(before.0, before.1, items_of(r.order@.subrange(0, k), tv, vv), max)
            &&& k < n ==> after.1.len() + next_entry(
                after.0,
                c_str_label(tv[r.order@[k] as int]),
                vv[r.order@[k] as int].len() as int,
                max,
            ).len() > final(popular).max_lookup_len()
        }),
{
    let ghost tv = terms@.map_values(|t: Vec<u8>| t@);
    let ghost vv = values@.map_values(|v: Vec<u8>| v@);
    let ghost before = (popular.chunks_view(), popular.lookup_view());
    let ghost max = popular.max_chunk_size();
    let n = terms.len();
    let mut ids: Vec<usize> = Vec::new();
    let mut i: usize = 0;
    while i < n
        invariant
            n == terms@.len(),
            i <= n,
            ids@ == all_ids(i as nat),
        decreases n - i,
    {
        ids.push(i);
        i = i + 1;
        assert(ids@ =~= all_ids(i as nat));
    }
    assert(ids_below(ids@, n as int));
    let order = sort_ids(TermOrder::Popularity, terms, frequencies, &ids, 0, n);
    assert(ids@.subrange(0, n as int) == ids@);
    proof {
        order@.to_multiset_ensures();
        ids@.to_multiset_ensures();
    }
    assert(order@.len() == n);
    let mut k: usize = 0;
    let mut open = true;
    while k < n && open
        invariant
            n == terms@.len(),
            n == order@.len(),
            frequencies@.len() == n,
            values@.len() == n,
            tv == terms@.map_values(|t: Vec<u8>| t@),
            vv == values@.map_values(|v: Vec<u8>| v@),
            forall|t: int| 0 <= t < terms@.len() ==> (#[trigger] terms@[t])@.len() <= 255,
            ids_below(order@, n as int),
            k <= n,
            popular.wf(),
            popular.max_chunk_size() == max,
            popular.max_lookup_len() == old(popular).max_lookup_len(),
            (popular.chunks_view(), popular.lookup_view()) == placed(
                before.0,
                before.1,
                items_of(order@.subrange(0, k as int), tv, vv),
                max,
            ),
            !open ==> k < n && popular.lookup_view().len() + next_entry(
                popular.chunks_view(),
                c_str_label(tv[order@[k as int] as int]),
                vv[order@[k as int] as int].len() as int,
                max,
            ).len() > popular.max_lookup_len(),
        decreases n - k + if open {
            1int
        } else {
            0int
        },
    {
        let id = order[k];
        assert(order@[k as int] < n);
        assert(tv[id as int] == terms@[id as int]@);
        assert(vv[id as int] == values@[id as int]@);
        let key = ChunkStrKey::new(terms[id].as_slice());
        let ghost prev = (popular.chunks_view(), popular.lookup_view());
        if popular.insert(&key, values[id].as_slice()) {
            proof {
                let its = items_of(order@.subrange(0, k + 1), tv, vv);
                assert(its.drop_last() == items_of(order@.subrange(0, k as int), tv, vv));
                assert(its.last() == (c_str_label(tv[id as int]), vv[id as int]));
            }
            k = k + 1;
        } else {
            open = false;
        }
    }
    let normal = sort_ids(TermOrder::Bytes, terms, frequencies, &order, k, n);
    proof {
        vstd::seq_lib::lemma_multiset_commutative(order@.subrange(0, k as int), normal@);
        vstd::seq_lib::lemma_multiset_commutative(
            order@.subrange(0, k as int),
            order@.subrange(k as int, n as int),
        );
        assert(order@.subrange(0, k as int) + order@.subrange(k as int, n as int) == order@);
    }
    Partition { order, popular_count: k, normal }
}

} // verus!
