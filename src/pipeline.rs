//! A whole build, in three stages: index the term stream, pack the terms
//! (popular ones behind the direct lookup, the rest into trees), and pack
//! the document store.
use crate::bst::BstChunks;
use crate::direct::ChunksWithDirectLookup;
use crate::endian::{append_bytes, le32};
use crate::bitmap::Bitmap;
use crate::bst::c_lookup;
use crate::index::{dictionary, docs_ordered, document_count, frequency, postings, TermIndex};
use crate::direct::next_entry;
use crate::keys::{c_str_label, c_u32_label, prefixed, ChunkStrKey, ChunkU32Key};
use crate::search::{from_le32, lemma_le32_round_trip};
use crate::partition::{all_ids, items_of, partition_terms, placed, Partition};
use crate::reader::{
    lemma_scan_terms_ordered, pairs_view, Pair, parse_terms, values_view, parse_values, read_document_terms, read_documents,
    BuildError,
};
use crate::order::{sorted_by, TermOrder};
use crate::tree::{chunk_tree, lemma_packed_prefix, packed, Entry, MAX_OFFSET};
use vstd::prelude::*;

verus! {

/// The largest value that the artifact store keeps under one key (10 MiB).
pub const KV_VALUE_MAX_SIZE: usize = 10 * 1024 * 1024;

/// The fewest distinct terms a corpus may have.
pub const MIN_TERMS: usize = 1000;

/// The largest value a term or document entry may carry: what keeps the
/// entry's bytes within a node offset.
pub const MAX_VALUE_LEN: usize = 0x7fff_fe00;

/// Every document id of the pairs fits in 32 bits.
pub open spec fn doc_ids_fit(ps: Seq<Pair>) -> bool {
    forall|k: int| 0 <= k < ps.len() ==> #[trigger] ps[k].0 <= u32::MAX
}

/// The lookup labels of tree chunks whose keys are prefixed terms: each
/// names the term of the chunk's first key.
pub open spec fn str_labels(cs: Seq<Seq<Entry>>) -> Seq<Seq<u8>> {
    cs.map_values(|c: Seq<Entry>| c_str_label(c[0].0.drop_first()))
}

/// The lookup labels of tree chunks whose keys are little-endian document
/// ids: each names the id of the chunk's first key.
pub open spec fn u32_labels(cs: Seq<Seq<Entry>>) -> Seq<Seq<u8>> {
    cs.map_values(|c: Seq<Entry>| c_u32_label(from_le32(c[0].0) as u32))
}

proof fn lemma_labels_step(before: Seq<Seq<Entry>>, after: Seq<Seq<Entry>>, term: Seq<u8>)
    requires
        forall|i: int| 0 <= i < before.len() ==> #[trigger] before[i].len() > 0,
        forall|i: int| 0 <= i < after.len() ==> #[trigger] after[i].len() > 0,
        after.len() == before.len() || after.len() == before.len() + 1,
        forall|i: int| 0 <= i < before.len() ==> #[trigger] after[i][0] == before[i][0],
        after.len() == before.len() + 1 ==> after.last()[0].0 == prefixed(term),
    ensures
        str_labels(after) == if after.len() > before.len() {
            str_labels(before).push(c_str_label(term))
        } else {
            str_labels(before)
        },
{
    assert(prefixed(term).drop_first() == term);
    if after.len() > before.len() {
        assert(str_labels(after) =~= str_labels(before).push(c_str_label(term)));
    } else {
        assert(str_labels(after) =~= str_labels(before));
    }
}

/// The document store can be packed: the chunk size is addressable by node
/// offsets, every id fits in 32 bits and no document is too large.
pub open spec fn documents_fit(vs: Seq<Seq<u8>>, max_chunk_size: usize) -> bool {
    &&& max_chunk_size <= MAX_OFFSET
    &&& vs.len() <= u32::MAX + 1
    &&& forall|d: int| 0 <= d < vs.len() ==> (#[trigger] vs[d]).len() <= MAX_VALUE_LEN
}

proof fn lemma_u32_labels_step(before: Seq<Seq<Entry>>, after: Seq<Seq<Entry>>, d: u32)
    requires
        forall|i: int| 0 <= i < before.len() ==> #[trigger] before[i].len() > 0,
        forall|i: int| 0 <= i < after.len() ==> #[trigger] after[i].len() > 0,
        after.len() == before.len() || after.len() == before.len() + 1,
        forall|i: int| 0 <= i < before.len() ==> #[trigger] after[i][0] == before[i][0],
        after.len() == before.len() + 1 ==> after.last()[0].0 == le32(d),
    ensures
        u32_labels(after) == if after.len() > before.len() {
            u32_labels(before).push(c_u32_label(d))
        } else {
            u32_labels(before)
        },
{
    lemma_le32_round_trip(d);
    if after.len() > before.len() {
        assert(u32_labels(after) =~= u32_labels(before).push(c_u32_label(d)));
    } else {
        assert(u32_labels(after) =~= u32_labels(before));
    }
}

/// The document store's entries: each document's content keyed by its id.
pub open spec fn document_entries(vs: Seq<Seq<u8>>) -> Seq<Entry> {
    Seq::new(vs.len(), |d: int| (le32(d as u32), vs[d]))
}

/// The tree packer's entries: each normal term, keyed by its bytes, with
/// its serialised postings.
pub open spec fn term_entries(ids: Seq<usize>, terms: Seq<Seq<u8>>, values: Seq<Seq<u8>>) -> Seq<
    Entry,
> {
    ids.map_values(|t: usize| (prefixed(terms[t as int]), values[t as int]))
}

/// Indexes a document-terms stream. Fails with `FormatError` when the
/// stream ends inside a term, with `CapacityExceeded` when a document id
/// does not fit in 32 bits, and with `CorpusTooSmall` when it holds fewer
/// than `MIN_TERMS` distinct terms.
pub fn index_corpus(document_terms: &[u8]) -> (r: Result<TermIndex, BuildError>)
    ensures
        match r {
            Ok(idx) => {
                &&& parse_terms(document_terms@).is_some()
                &&& doc_ids_fit(parse_terms(document_terms@).unwrap())
                &&& idx.indexes(parse_terms(document_terms@).unwrap())
                &&& idx.wf()
                &&& dictionary(parse_terms(document_terms@).unwrap()).len() >= MIN_TERMS
            },
            Err(BuildError::FormatError) => parse_terms(document_terms@).is_none(),
            Err(BuildError::CapacityExceeded) => parse_terms(document_terms@).is_some()
                && !doc_ids_fit(parse_terms(document_terms@).unwrap()),
            Err(BuildError::CorpusTooSmall) => parse_terms(document_terms@).is_some() && doc_ids_fit(
                parse_terms(document_terms@).unwrap(),
            ) && dictionary(parse_terms(document_terms@).unwrap()).len() < MIN_TERMS,
        },
{
    let pairs = match read_document_terms(document_terms) {
        Ok(p) => p,
        Err(e) => return Err(e),
    };
    let ghost ps = pairs_view(pairs@);
    proof {
        lemma_scan_terms_ordered(document_terms@);
        assert(docs_ordered(ps));
    }
    let index = match TermIndex::from_pairs(&pairs) {
        Ok(i) => i,
        Err(e) => {
            proof {
                assert(parse_terms(document_terms@) == Some(ps));
                if e == BuildError::CapacityExceeded {
                    let k = choose|k: int| 0 <= k < ps.len() && #[trigger] ps[k].0 > u32::MAX;
                    assert(parse_terms(document_terms@).unwrap()[k].0 > u32::MAX);
                    assert(!doc_ids_fit(ps));
                }
            }
            return Err(e);
        },
    };
    if index.term_count() < MIN_TERMS {
        return Err(BuildError::CorpusTooSmall);
    }
    Ok(index)
}

/// The two term packers and the partition that fed them.
pub struct TermChunks {
    pub popular: ChunksWithDirectLookup,
    pub normal: BstChunks<ChunkStrKey>,
    pub partition: Partition,
    /// The serialised postings, by term id.
    pub postings: Vec<Vec<u8>>,
}

/// What `pack_terms` produces from terms `tv`, serialised postings `sv` and
/// occurrence counts `fv`: the popularity order and its cutoff, the popular
/// terms placed behind the direct lookup, the normal terms packed into trees
/// in ascending byte order.
#[verifier::opaque]
pub open spec fn terms_packed(
    tc: TermChunks,
    tv: Seq<Seq<u8>>,
    sv: Seq<Seq<u8>>,
    fv: Seq<usize>,
    max_chunk_size: usize,
    max_lookup_len: usize,
) -> bool {
    let n = tv.len();
    let k = tc.partition.popular_count as int;
    let order = tc.partition.order@;
    &&& max_chunk_size <= MAX_OFFSET
    &&& forall|t: int| 0 <= t < n ==> (#[trigger] tv[t]).len() <= 255
    &&& order.to_multiset() == all_ids(n).to_multiset()
    &&& sorted_by(TermOrder::Popularity, tv, fv, order)
    &&& k <= n
    &&& (order.subrange(0, k) + tc.partition.normal@).to_multiset() == all_ids(
        n,
    ).to_multiset()
    &&& sorted_by(TermOrder::Bytes, tv, fv, tc.partition.normal@)
    &&& tc.postings@.map_values(|v: Vec<u8>| v@) == sv
    &&& tc.popular.wf()
    &&& tc.popular.max_lookup_len() == max_lookup_len
    &&& tc.popular.max_chunk_size() == max_chunk_size
    &&& k < n ==> tc.popular.lookup_view().len() + next_entry(
        tc.popular.chunks_view(),
        c_str_label(tv[order[k] as int]),
        sv[order[k] as int].len() as int,
        max_chunk_size as int,
    ).len() > max_lookup_len
    &&& (tc.popular.chunks_view(), tc.popular.lookup_view()) == placed(
        seq![],
        seq![],
        items_of(order.subrange(0, k), tv, sv),
        max_chunk_size as int,
    )
    &&& tc.normal.wf()
    &&& tc.normal.max() == max_chunk_size
    &&& tc.normal.view() == packed(
        term_entries(tc.partition.normal@, tv, sv),
        max_chunk_size as int,
    )
    &&& tc.normal.labels() == str_labels(tc.normal.view())
}

/// Compacts and serialises every term's postings, places the popular terms
/// into a direct-lookup packer and packs the normal ones, in ascending byte
/// order, into trees. Fails with `CapacityExceeded` when the chunk size
/// cannot be addressed by node offsets, a term is longer than 255 bytes or
/// a postings list is larger than `MAX_VALUE_LEN`.
pub fn pack_terms(index: &mut TermIndex, max_chunk_size: usize, max_lookup_len: usize) -> (r: Result<
    TermChunks,
    BuildError,
>)
    requires
        old(index).wf(),
    ensures
        final(index).wf(),
        final(index).terms_view() == old(index).terms_view(),
        final(index).postings_view() == old(index).postings_view(),
        final(index).frequencies_view() == old(index).frequencies_view(),
        final(index).documents() == old(index).documents(),
        ({
            let tv = final(index).terms_view();
            let sv = final(index).serialized_view();
            let fv = final(index).frequency_counts();
            let n = tv.len();
            match r {
                Ok(tc) => terms_packed(tc, tv, sv, fv, max_chunk_size, max_lookup_len),
                Err(e) => e == BuildError::CapacityExceeded && (max_chunk_size > MAX_OFFSET || (
                exists|t: int| 0 <= t < n && (#[trigger] tv[t]).len() > 255) || (exists|t: int|
                    0 <= t < n && (#[trigger] sv[t]).len() > MAX_VALUE_LEN)),
            }
        }),
{
    let values = index.serialize_postings();
    if max_chunk_size > MAX_OFFSET {
        return Err(BuildError::CapacityExceeded);
    }
    let ghost tv = index.terms_view();
    let ghost sv = index.serialized_view();
    let ghost settled = *index;
    proof {
        index.lemma_lens();
    }
    let terms = index.terms();
    let n = terms.len();
    let mut t: usize = 0;
    while t < n
        invariant
            *index == settled,
            settled.wf(),
            settled.terms_view() == old(index).terms_view(),
            settled.postings_view() == old(index).postings_view(),
            settled.frequencies_view() == old(index).frequencies_view(),
            settled.documents() == old(index).documents(),
            tv == settled.terms_view(),
            sv == settled.serialized_view(),
            n == terms@.len(),
            tv == terms@.map_values(|x: Vec<u8>| x@),
            t <= n,
            forall|u: int| 0 <= u < t ==> (#[trigger] terms@[u])@.len() <= 255,
        decreases n - t,
    {
        if terms[t].len() > 255 {
            assert(tv[t as int] == terms@[t as int]@);
            return Err(BuildError::CapacityExceeded);
        }
        t = t + 1;
    }
    assert forall|u: int| 0 <= u < n implies (#[trigger] tv[u]).len() <= 255 by {
        assert(tv[u] == terms@[u]@);
    }
    let mut popular = ChunksWithDirectLookup::new(max_chunk_size, max_lookup_len);
    let frequencies = index.frequencies();
    let partition = partition_terms(terms, frequencies, &values, &mut popular);
    proof {
        assert(values@.map_values(|v: Vec<u8>| v@) =~= sv);
    }
    let normal = &partition.normal;
    let mut normal_builder: BstChunks<ChunkStrKey> = BstChunks::new(max_chunk_size);
    let mut j: usize = 0;
    assert(term_entries(normal@, tv, sv).subrange(0, 0) == Seq::<Entry>::empty());
    while j < normal.len()
        invariant
            *index == settled,
            settled.wf(),
            settled.terms_view() == old(index).terms_view(),
            settled.postings_view() == old(index).postings_view(),
            settled.frequencies_view() == old(index).frequencies_view(),
            settled.documents() == old(index).documents(),
            tv == settled.terms_view(),
            sv == settled.serialized_view(),
            n == terms@.len(),
            tv == terms@.map_values(|x: Vec<u8>| x@),
            values@.len() == n,
            sv == values@.map_values(|v: Vec<u8>| v@),
            forall|u: int| 0 <= u < n ==> (#[trigger] terms@[u])@.len() <= 255,
            forall|u: int| 0 <= u < normal@.len() ==> #[trigger] normal@[u] < n,
            normal_builder.wf(),
            normal_builder.max() == max_chunk_size,
            normal_builder.view() == packed(
                term_entries(normal@, tv, sv).subrange(0, j as int),
                max_chunk_size as int,
            ),
            normal_builder.labels() == str_labels(normal_builder.view()),
            j <= normal@.len(),
        decreases normal@.len() - j,
    {
        let id = normal[j];
        assert(normal@[j as int] < n);
        let term = &terms[id];
        let value = &values[id];
        if value.len() > MAX_VALUE_LEN {
            assert(sv[id as int] == value@);
            return Err(BuildError::CapacityExceeded);
        }
        let key = ChunkStrKey::new(term.as_slice());
        let mut copy: Vec<u8> = Vec::new();
        append_bytes(&mut copy, value.as_slice());
        proof {
            lemma_packed_prefix(term_entries(normal@, tv, sv), j as int, max_chunk_size as int);
            assert(tv[id as int] == term@);
            assert(sv[id as int] == value@);
            assert(term_entries(normal@, tv, sv)[j as int] == (prefixed(term@), value@));
            normal_builder.lemma_bounds();
            assert(prefixed(term@).drop_first() == term@);
        }
        let ghost before = normal_builder.view();
        normal_builder.insert(key, copy);
        proof {
            normal_builder.lemma_bounds();
            lemma_labels_step(before, normal_builder.view(), term@);
        }
        j = j + 1;
    }
    assert(term_entries(normal@, tv, sv).subrange(0, j as int) == term_entries(normal@, tv, sv));
    let tc = TermChunks { popular, normal: normal_builder, partition, postings: values };
    proof {
        reveal(terms_packed);
    }
    Ok(tc)
}

/// Packs the document store: each document's content keyed by its id, into
/// trees. Fails with `FormatError` when the last document is unterminated,
/// and with `CapacityExceeded` when the chunk size cannot be addressed by
/// node offsets, there are more than 2^32 documents or one is larger than
/// `MAX_VALUE_LEN`.
pub fn pack_documents(documents: &[u8], max_chunk_size: usize) -> (r: Result<
    BstChunks<ChunkU32Key>,
    BuildError,
>)
    ensures
        match r {
            Ok(b) => {
                &&& parse_values(documents@).is_some()
                &&& documents_fit(parse_values(documents@).unwrap(), max_chunk_size)
                &&& b.wf()
                &&& b.max() == max_chunk_size
                &&& b.view() == packed(
                    document_entries(parse_values(documents@).unwrap()),
                    max_chunk_size as int,
                )
                &&& b.labels() == u32_labels(b.view())
            },
            Err(BuildError::FormatError) => parse_values(documents@).is_none(),
            Err(BuildError::CapacityExceeded) => parse_values(documents@).is_some() && (max_chunk_size
                > MAX_OFFSET || parse_values(documents@).unwrap().len() > u32::MAX + 1 || exists|
                d: int,
            |
                0 <= d < parse_values(documents@).unwrap().len() && (#[trigger] parse_values(
                    documents@,
                ).unwrap()[d]).len() > MAX_VALUE_LEN),
            Err(_) => false,
        },
{
    let contents = match read_documents(documents) {
        Ok(d) => d,
        Err(e) => return Err(e),
    };
    if max_chunk_size > MAX_OFFSET {
        return Err(BuildError::CapacityExceeded);
    }
    let mut builder: BstChunks<ChunkU32Key> = BstChunks::new(max_chunk_size);
    let m = contents.len();
    let mut d: usize = 0;
    let ghost vs = values_view(contents@);
    assert(document_entries(vs).subrange(0, 0) == Seq::<Entry>::empty());
    while d < m
        invariant
            m == contents@.len(),
            vs == values_view(contents@),
            parse_values(documents@) == Some(vs),
            builder.wf(),
            builder.max() == max_chunk_size,
            builder.view() == packed(document_entries(vs).subrange(0, d as int), max_chunk_size as int),
            builder.labels() == u32_labels(builder.view()),
            max_chunk_size <= MAX_OFFSET,
            d <= u32::MAX + 1,
            forall|e: int| 0 <= e < d ==> (#[trigger] vs[e]).len() <= MAX_VALUE_LEN,
            d <= m,
        decreases m - d,
    {
        if d > 0xffff_ffff {
            return Err(BuildError::CapacityExceeded);
        }
        if contents[d].len() > MAX_VALUE_LEN {
            assert(vs[d as int] == contents@[d as int]@);
            assert(parse_values(documents@).unwrap()[d as int].len() > MAX_VALUE_LEN);
            return Err(BuildError::CapacityExceeded);
        }
        let key = ChunkU32Key::new(d as u32);
        let mut copy: Vec<u8> = Vec::new();
        append_bytes(&mut copy, contents[d].as_slice());
        proof {
            lemma_packed_prefix(document_entries(vs), d as int, max_chunk_size as int);
            assert(document_entries(vs)[d as int] == (le32(d as u32), vs[d as int]));
            assert(vs[d as int] == contents@[d as int]@);
            builder.lemma_bounds();
        }
        let ghost before = builder.view();
        builder.insert(key, copy);
        proof {
            builder.lemma_bounds();
            lemma_u32_labels_step(before, builder.view(), d as u32);
        }
        d = d + 1;
    }
    assert(document_entries(vs).subrange(0, m as int) == document_entries(vs));
    Ok(builder)
}

/// Everything a build produces.
pub struct BuildOutput {
    pub document_count: u64,
    /// The dictionary: term bytes by term id.
    pub terms: Vec<Vec<u8>>,
    /// Occurrence counts by term id.
    pub frequencies: Vec<usize>,
    /// Serialised postings by term id.
    pub postings: Vec<Vec<u8>>,
    /// Which terms are popular and which normal.
    pub partition: Partition,
    /// Direct-lookup table of the popular terms.
    pub popular_lookup: Vec<u8>,
    /// Postings of the popular terms.
    pub popular_chunks: Vec<Vec<u8>>,
    /// Tree lookup table of the normal terms.
    pub normal_lookup: Vec<u8>,
    /// Postings of the normal terms, as flattened trees.
    pub normal_chunks: Vec<Vec<u8>>,
    /// Tree lookup table of the document store.
    pub documents_lookup: Vec<u8>,
    /// Document contents keyed by document id, as flattened trees.
    pub documents_chunks: Vec<Vec<u8>>,
}

/// Some term's documents, held in a valid bitmap, serialise to more than
/// `MAX_VALUE_LEN` bytes.
pub open spec fn oversize_postings(ps: Seq<Pair>) -> bool {
    exists|t: int, b: Bitmap|
        #![trigger dictionary(ps)[t], b.serialized()]
        0 <= t < dictionary(ps).len() && b.valid() && b@ == postings(ps, dictionary(ps)[t])
            && b.serialized().len() > MAX_VALUE_LEN
}

/// `cs` serialised chunk by chunk, as little-endian trees.
pub open spec fn serialised_chunks(out: Seq<Vec<u8>>, cs: Seq<Seq<Entry>>) -> bool {
    &&& out.len() == cs.len()
    &&& forall|i: int| 0 <= i < cs.len() ==> (#[trigger] out[i])@ == chunk_tree(cs[i], false).0
}

/// The dictionary part of a successful build of `ps`: term ids in
/// first-seen order, occurrence counts, and each term's postings serialised
/// from a valid bitmap of exactly its documents.
#[verifier::opaque]
pub open spec fn built_dictionary(out: BuildOutput, ps: Seq<Pair>) -> bool {
    let d = dictionary(ps);
    let n = d.len();
    let tv = values_view(out.terms@);
    let sv = values_view(out.postings@);
    let fv = out.frequencies@;
    &&& out.document_count == document_count(ps)
    &&& tv == d
    &&& fv.len() == n
    &&& forall|t: int| 0 <= t < n ==> #[trigger] fv[t] == frequency(ps, d[t])
    &&& sv.len() == n
    &&& forall|t: int| 0 <= t < n ==> #[trigger] postings_bytes(ps, d[t], sv[t])
}

/// `bytes` is the serialisation of a valid bitmap holding exactly the
/// documents of term `t`.
pub open spec fn postings_bytes(ps: Seq<Pair>, t: Seq<u8>, bytes: Seq<u8>) -> bool {
    exists|b: Bitmap| b.valid() && b@ == postings(ps, t) && #[trigger] b.serialized() == bytes
}

/// The term part of a successful build: the popularity order and its
/// cutoff, the popular terms' chunks and lookup table, and the normal terms
/// packed into trees in ascending byte order, with their lookup table.
#[verifier::opaque]
pub open spec fn built_terms(out: BuildOutput, max_chunk_size: usize, max_lookup_len: usize) -> bool {
    let tv = values_view(out.terms@);
    let sv = values_view(out.postings@);
    let fv = out.frequencies@;
    let n = tv.len();
    let order = out.partition.order@;
    let k = out.partition.popular_count as int;
    let normal = out.partition.normal@;
    let max = max_chunk_size as int;
    let cs = packed(term_entries(normal, tv, sv), max);
    let popular_chunks = values_view(out.popular_chunks@);
    &&& order.to_multiset() == all_ids(n).to_multiset()
    &&& sorted_by(TermOrder::Popularity, tv, fv, order)
    &&& k <= n
    &&& (order.subrange(0, k) + normal).to_multiset() == all_ids(n).to_multiset()
    &&& sorted_by(TermOrder::Bytes, tv, fv, normal)
    &&& (popular_chunks, out.popular_lookup@) == placed(
        seq![],
        seq![],
        items_of(order.subrange(0, k), tv, sv),
        max,
    )
    &&& out.popular_lookup@.len() <= max_lookup_len
    &&& k < n ==> out.popular_lookup@.len() + next_entry(
        popular_chunks,
        c_str_label(tv[order[k] as int]),
        sv[order[k] as int].len() as int,
        max,
    ).len() > max_lookup_len
    &&& serialised_chunks(out.normal_chunks@, cs)
    &&& out.normal_lookup@ == c_lookup(str_labels(cs), cs)
}

/// The document store part of a successful build of `vs`.
#[verifier::opaque]
pub open spec fn built_documents(out: BuildOutput, vs: Seq<Seq<u8>>, max_chunk_size: usize) -> bool {
    let ds = packed(document_entries(vs), max_chunk_size as int);
    &&& serialised_chunks(out.documents_chunks@, ds)
    &&& out.documents_lookup@ == c_lookup(u32_labels(ds), ds)
}

/// What a successful build of the term stream `ps` and the documents `vs`
/// produces.
pub open spec fn built(
    out: BuildOutput,
    ps: Seq<Pair>,
    vs: Seq<Seq<u8>>,
    max_chunk_size: usize,
    max_lookup_len: usize,
) -> bool {
    &&& doc_ids_fit(ps)
    &&& dictionary(ps).len() >= MIN_TERMS
    &&& documents_fit(vs, max_chunk_size)
    &&& forall|t: int| 0 <= t < dictionary(ps).len() ==> (#[trigger] dictionary(ps)[t]).len() <= 255
    &&& built_dictionary(out, ps)
    &&& built_terms(out, max_chunk_size, max_lookup_len)
    &&& built_documents(out, vs, max_chunk_size)
}

/// Gathers the products of the three stages into the build's output.
#[verifier::rlimit(100)]
fn assemble(
    index: TermIndex,
    documents_builder: BstChunks<ChunkU32Key>,
    tc: TermChunks,
    Ghost(ps): Ghost<Seq<Pair>>,
    Ghost(vs): Ghost<Seq<Seq<u8>>>,
    max_chunk_size: usize,
    max_lookup_len: usize,
) -> (out: BuildOutput)
    requires
        index.indexes(ps),
        index.wf(),
        doc_ids_fit(ps),
        dictionary(ps).len() >= MIN_TERMS,
        documents_fit(vs, max_chunk_size),
        documents_builder.wf(),
        documents_builder.max() == max_chunk_size,
        documents_builder.view() == packed(document_entries(vs), max_chunk_size as int),
        documents_builder.labels() == u32_labels(documents_builder.view()),
        terms_packed(
            tc,
            index.terms_view(),
            index.serialized_view(),
            index.frequency_counts(),
            max_chunk_size,
            max_lookup_len,
        ),
    ensures
        built(out, ps, vs, max_chunk_size, max_lookup_len),
{
    proof {
        index.lemma_lens();
        documents_builder.lemma_bounds();
        lemma_terms_packed_wf(
            tc,
            index.terms_view(),
            index.serialized_view(),
            index.frequency_counts(),
            max_chunk_size,
            max_lookup_len,
        );
    }
    let ghost tv = index.terms_view();
    let ghost sv = index.serialized_view();
    let ghost tcg = tc;
    let document_count = index.document_count();
    let TermChunks { popular, normal, partition, postings: serialised } = tc;
    proof {
        popular.lemma_lookup_bound();
    }
    let (normal_lookup, normal_chunks) = normal.serialise();
    let (documents_lookup, documents_chunks) = documents_builder.serialise();
    let mut popular_lookup: Vec<u8> = Vec::new();
    append_bytes(&mut popular_lookup, popular.get_raw_lookup());
    let popular_chunks = copy_chunks(popular.get_chunks());
    let ghost fv = index.frequency_counts();
    let ghost idx = index;
    let (terms, frequencies) = index.into_parts();
    let out = BuildOutput {
        document_count,
        terms,
        frequencies,
        postings: serialised,
        partition,
        popular_lookup,
        popular_chunks,
        normal_lookup,
        normal_chunks,
        documents_lookup,
        documents_chunks,
    };
    proof {
        let osv = values_view(out.postings@);
        assert(osv =~= sv);
        assert(values_view(out.terms@) =~= tv);
        assert(values_view(out.popular_chunks@) =~= popular.chunks_view());
        assert(tv == dictionary(ps));
        assert(built_dictionary(out, ps)) by {
            reveal(built_dictionary);
            let d = dictionary(ps);
            assert forall|t: int| 0 <= t < d.len() implies #[trigger] postings_bytes(ps, d[t], osv[t]) by {
                let b = idx.bitmaps_view()[t];
                assert(idx.postings_view()[t] == postings(ps, d[t]));
                assert(b.valid() && b@ == postings(ps, d[t]) && b.serialized() == osv[t]);
            }
            assert forall|t: int| 0 <= t < d.len() implies #[trigger] out.frequencies@[t] == frequency(
                ps,
                d[t],
            ) by {
                assert(idx.frequency_counts()[t] as nat == idx.frequencies_view()[t]);
            }
        }
        assert(built_terms(out, max_chunk_size, max_lookup_len)) by {
            reveal(built_terms);
            reveal(terms_packed);
            assert(values_view(out.terms@) == tv);
            assert(out.frequencies@ == fv);
        }
        assert(built_documents(out, vs, max_chunk_size)) by {
            reveal(built_documents);
        }
    }
    out
}

proof fn lemma_terms_packed_wf(
    tc: TermChunks,
    tv: Seq<Seq<u8>>,
    sv: Seq<Seq<u8>>,
    fv: Seq<usize>,
    max_chunk_size: usize,
    max_lookup_len: usize,
)
    requires
        terms_packed(tc, tv, sv, fv, max_chunk_size, max_lookup_len),
    ensures
        tc.popular.wf(),
        tc.popular.max_lookup_len() == max_lookup_len,
        tc.normal.wf(),
        tc.postings@.map_values(|v: Vec<u8>| v@) == sv,
        forall|t: int| 0 <= t < tv.len() ==> (#[trigger] tv[t]).len() <= 255,
{
    reveal(terms_packed);
}

fn copy_chunks(v: &Vec<Vec<u8>>) -> (r: Vec<Vec<u8>>)
    ensures
        r@.map_values(|c: Vec<u8>| c@) == v@.map_values(|c: Vec<u8>| c@),
{
    let mut r: Vec<Vec<u8>> = Vec::new();
    let mut i: usize = 0;
    while i < v.len()
        invariant
            i <= v@.len(),
            r@.len() == i,
            forall|j: int| 0 <= j < i ==> (#[trigger] r@[j])@ == v@[j]@,
        decreases v@.len() - i,
    {
        let mut c: Vec<u8> = Vec::new();
        append_bytes(&mut c, v[i].as_slice());
        r.push(c);
        i = i + 1;
    }
    assert(r@.map_values(|c: Vec<u8>| c@) =~= v@.map_values(|c: Vec<u8>| c@));
    r
}

/// Builds the index of a corpus. `document_terms` is the NUL-framed term
/// stream; `documents` holds one NUL-terminated value per document. Each
/// error comes only from its cause: `FormatError` from a stream that ends
/// inside a term or value, `CorpusTooSmall` from fewer than `MIN_TERMS`
/// distinct terms, `CapacityExceeded` from a value that the 32-bit encodings
/// or node offsets cannot hold.
pub fn build_index(
    document_terms: &[u8],
    documents: &[u8],
    max_chunk_size: usize,
    max_lookup_len: usize,
) -> (r: Result<BuildOutput, BuildError>)
    ensures
        ({
            let pt = parse_terms(document_terms@);
            let pv = parse_values(documents@);
            match r {
                Ok(out) => pt.is_some() && pv.is_some() && built(
                    out,
                    pt.unwrap(),
                    pv.unwrap(),
                    max_chunk_size,
                    max_lookup_len,
                ),
                Err(BuildError::FormatError) => pt.is_none() || (doc_ids_fit(pt.unwrap())
                    && dictionary(pt.unwrap()).len() >= MIN_TERMS && pv.is_none()),
                Err(BuildError::CorpusTooSmall) => pt.is_some() && doc_ids_fit(pt.unwrap())
                    && dictionary(pt.unwrap()).len() < MIN_TERMS,
                Err(BuildError::CapacityExceeded) => pt.is_some() && (!doc_ids_fit(pt.unwrap()) || (
                dictionary(pt.unwrap()).len() >= MIN_TERMS && pv.is_some() && (!documents_fit(
                    pv.unwrap(),
                    max_chunk_size,
                ) || (exists|t: int|
                    0 <= t < dictionary(pt.unwrap()).len() && (#[trigger] dictionary(
                        pt.unwrap(),
                    )[t]).len() > 255) || oversize_postings(pt.unwrap())))),
            }
        }),
{
    let mut index = match index_corpus(document_terms) {
        Ok(i) => i,
        Err(e) => return Err(e),
    };
    let ghost ps = parse_terms(document_terms@).unwrap();
    let documents_builder = match pack_documents(documents, max_chunk_size) {
        Ok(b) => b,
        Err(e) => return Err(e),
    };
    let ghost before = index;
    let term_chunks = match pack_terms(&mut index, max_chunk_size, max_lookup_len) {
        Ok(t) => t,
        Err(e) => {
            proof {
                index.lemma_lens();
                let d = dictionary(ps);
                let tv = index.terms_view();
                let sv = index.serialized_view();
                if max_chunk_size > MAX_OFFSET {
                } else if exists|t: int| 0 <= t < tv.len() && (#[trigger] tv[t]).len() > 255 {
                    let t = choose|t: int| 0 <= t < tv.len() && (#[trigger] tv[t]).len() > 255;
                    assert(d[t].len() > 255);
                } else {
                    let t = choose|t: int| 0 <= t < tv.len() && (#[trigger] sv[t]).len() > MAX_VALUE_LEN;
                    let b = index.bitmaps_view()[t];
                    assert(b.valid() && b@ == postings(ps, d[t]));
                    assert(b.serialized().len() > MAX_VALUE_LEN);
                    assert(oversize_postings(ps));
                }
            }
            return Err(e);
        },
    };
    let ghost vs = parse_values(documents@).unwrap();
    Ok(assemble(index, documents_builder, term_chunks, Ghost(ps), Ghost(vs), max_chunk_size, max_lookup_len))
}

} // verus!
