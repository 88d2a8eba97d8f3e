//! The term dictionary and inverted index: dense term ids in first-seen
//! order, one bitmap of documents per term, and occurrence counts.
use crate::bitmap::Bitmap;
use crate::reader::{pairs_view, BuildError, Pair};
use std::collections::HashMap;
use vstd::prelude::*;
use vstd::std_specs::hash::group_hash_axioms;

verus! {

broadcast use group_hash_axioms;

/// The distinct terms of `ps` in order of first occurrence; a term's id is
/// its index here.
pub open spec fn dictionary(ps: Seq<Pair>) -> Seq<Seq<u8>>
    decreases ps.len(),
{
    if ps.len() == 0 {
        seq![]
    } else {
        let d = dictionary(ps.drop_last());
        if d.contains(ps.last().1) {
            d
        } else {
            d.push(ps.last().1)
        }
    }
}

/// How many times `t` occurs in `ps`, repeats within a document included.
pub open spec fn frequency(ps: Seq<Pair>, t: Seq<u8>) -> nat
    decreases ps.len(),
{
    if ps.len() == 0 {
        0
    } else {
        frequency(ps.drop_last(), t) + if ps.last().1 == t {
            1nat
        } else {
            0nat
        }
    }
}

/// The documents in which `t` occurs.
pub open spec fn postings(ps: Seq<Pair>, t: Seq<u8>) -> Set<u32>
    decreases ps.len(),
{
    if ps.len() == 0 {
        Set::empty()
    } else {
        let s = postings(ps.drop_last(), t);
        if ps.last().1 == t {
            s.insert(ps.last().0 as u32)
        } else {
            s
        }
    }
}

/// Document ids never decrease along the stream.
pub open spec fn docs_ordered(ps: Seq<Pair>) -> bool {
    forall|i: int| 0 < i < ps.len() ==> ps[i - 1].0 <= #[trigger] ps[i].0
}

/// The number of documents: one more than the last document id seen.
pub open spec fn document_count(ps: Seq<Pair>) -> nat {
    if ps.len() == 0 {
        0
    } else {
        ps.last().0 + 1
    }
}

pub const FNV_OFFSET: u64 = 0xcbf2_9ce4_8422_2325;

pub const FNV_PRIME: u64 = 0x0000_0100_0000_01b3;

/// The 64-bit FNV-1a hash of `s`, which spreads terms over the buckets of
/// the dictionary.
pub open spec fn fnv(s: Seq<u8>) -> u64
    decreases s.len(),
{
    if s.len() == 0 {
        FNV_OFFSET
    } else {
        (fnv(s.drop_last()) ^ (s.last() as u64)).wrapping_mul(FNV_PRIME)
    }
}

fn fnv_hash(s: &[u8]) -> (r: u64)
    ensures
        r == fnv(s@),
{
    let mut h: u64 = FNV_OFFSET;
    let mut i: usize = 0;
    while i < s.len()
        invariant
            i <= s@.len(),
            h == fnv(s@.subrange(0, i as int)),
        decreases s@.len() - i,
    {
        proof {
            let p = s@.subrange(0, i + 1);
            assert(p.drop_last() == s@.subrange(0, i as int));
        }
        h = (h ^ (s[i] as u64)).wrapping_mul(FNV_PRIME);
        i = i + 1;
    }
    assert(s@.subrange(0, i as int) == s@);
    h
}

fn bytes_equal(a: &[u8], b: &[u8]) -> (r: bool)
    ensures
        r == (a@ == b@),
{
    if a.len() != b.len() {
        return false;
    }
    let mut i: usize = 0;
    while i < a.len()
        invariant
            i <= a@.len(),
            a@.len() == b@.len(),
            a@.subrange(0, i as int) == b@.subrange(0, i as int),
        decreases a@.len() - i,
    {
        if a[i] != b[i] {
            assert(a@[i as int] != b@[i as int]);
            return false;
        }
        assert(a@.subrange(0, i + 1) == a@.subrange(0, i as int).push(a@[i as int]));
        assert(b@.subrange(0, i + 1) == b@.subrange(0, i as int).push(b@[i as int]));
        i = i + 1;
    }
    assert(a@.subrange(0, i as int) == a@);
    assert(b@.subrange(0, i as int) == b@);
    true
}

/// The id of a term equal to `term` among those that `bucket` lists.
fn find_in_bucket(terms: &Vec<Vec<u8>>, bucket: &Vec<usize>, term: &[u8]) -> (r: Option<usize>)
    requires
        forall|j: int| 0 <= j < bucket@.len() ==> (#[trigger] bucket@[j]) < terms@.len(),
    ensures
        match r {
            Some(t) => bucket@.contains(t) && terms@[t as int]@ == term@,
            None => forall|j: int|
                0 <= j < bucket@.len() ==> terms@[#[trigger] bucket@[j] as int]@ != term@,
        },
{
    let mut j: usize = 0;
    while j < bucket.len()
        invariant
            j <= bucket@.len(),
            forall|jj: int| 0 <= jj < bucket@.len() ==> (#[trigger] bucket@[jj]) < terms@.len(),
            forall|jj: int| 0 <= jj < j ==> terms@[#[trigger] bucket@[jj] as int]@ != term@,
        decreases bucket@.len() - j,
    {
        let t = bucket[j];
        if bytes_equal(terms[t].as_slice(), term) {
            assert(bucket@[j as int] == t);
            return Some(t);
        }
        j = j + 1;
    }
    None
}

proof fn lemma_frequency_bound(ps: Seq<Pair>, t: Seq<u8>)
    ensures
        frequency(ps, t) <= ps.len(),
    decreases ps.len(),
{
    if ps.len() > 0 {
        lemma_frequency_bound(ps.drop_last(), t);
    }
}

proof fn lemma_absent(ps: Seq<Pair>, t: Seq<u8>)
    requires
        !dictionary(ps).contains(t),
    ensures
        postings(ps, t) == Set::<u32>::empty(),
        frequency(ps, t) == 0,
    decreases ps.len(),
{
    if ps.len() > 0 {
        let d = dictionary(ps.drop_last());
        if d.contains(t) {
            assert(dictionary(ps).contains(t)) by {
                let k = d.index_of(t);
                assert(dictionary(ps)[k] == t);
            }
        }
        if ps.last().1 == t {
            assert(dictionary(ps) == d.push(t));
            assert(dictionary(ps)[d.len() as int] == t);
        }
        lemma_absent(ps.drop_last(), t);
    }
}

proof fn lemma_dictionary_len(ps: Seq<Pair>)
    ensures
        dictionary(ps).len() <= ps.len(),
    decreases ps.len(),
{
    if ps.len() > 0 {
        lemma_dictionary_len(ps.drop_last());
    }
}

proof fn lemma_dictionary_distinct(ps: Seq<Pair>)
    ensures
        dictionary(ps).no_duplicates(),
    decreases ps.len(),
{
    if ps.len() > 0 {
        lemma_dictionary_distinct(ps.drop_last());
    }
}

/// Dictionary determinism: two indexes of the same stream assign the same
/// ids to the same terms and hold the same postings, frequencies and
/// document count.
pub proof fn lemma_index_determinism(a: TermIndex, b: TermIndex, ps: Seq<Pair>)
    requires
        a.indexes(ps),
        b.indexes(ps),
    ensures
        a.terms_view() == b.terms_view(),
        a.postings_view() == b.postings_view(),
        a.frequencies_view() == b.frequencies_view(),
        a.documents() == b.documents(),
{
    assert(a.postings_view() =~= b.postings_view());
    assert(a.frequencies_view() =~= b.frequencies_view());
}

/// The dictionary, postings and frequencies of a document-terms stream.
pub struct TermIndex {
    terms: Vec<Vec<u8>>,
    bitmaps: Vec<Bitmap>,
    frequencies: Vec<usize>,
    document_count: u64,
}

impl TermIndex {
    /// Term bytes by term id.
    pub closed spec fn terms_view(&self) -> Seq<Seq<u8>> {
        self.terms@.map_values(|t: Vec<u8>| t@)
    }

    /// Documents by term id.
    pub closed spec fn postings_view(&self) -> Seq<Set<u32>> {
        self.bitmaps@.map_values(|b: Bitmap| b@)
    }

    /// Occurrence counts by term id.
    pub closed spec fn frequencies_view(&self) -> Seq<nat> {
        self.frequencies@.map_values(|f: usize| f as nat)
    }

    /// The encoding of each term's bitmap, by term id.
    pub closed spec fn serialized_view(&self) -> Seq<Seq<u8>> {
        self.bitmaps@.map_values(|b: Bitmap| b.serialized())
    }

    pub closed spec fn documents(&self) -> nat {
        self.document_count as nat
    }

    /// Occurrence counts by term id, as stored.
    pub closed spec fn frequency_counts(&self) -> Seq<usize> {
        self.frequencies@
    }

    /// The bitmaps by term id.
    pub closed spec fn bitmaps_view(&self) -> Seq<Bitmap> {
        self.bitmaps@
    }

    /// One valid bitmap and one count for each term.
    pub closed spec fn wf(&self) -> bool {
        &&& self.bitmaps@.len() == self.terms@.len()
        &&& self.frequencies@.len() == self.terms@.len()
        &&& forall|t: int| 0 <= t < self.bitmaps@.len() ==> (#[trigger] self.bitmaps@[t]).valid()
    }

    pub proof fn lemma_lens(&self)
        requires
            self.wf(),
        ensures
            self.frequency_counts().len() == self.terms_view().len(),
            self.postings_view().len() == self.terms_view().len(),
            self.serialized_view().len() == self.terms_view().len(),
            self.bitmaps_view().len() == self.terms_view().len(),
            self.frequencies_view().len() == self.terms_view().len(),
            forall|t: int|
                0 <= t < self.terms_view().len() ==> #[trigger] self.frequency_counts()[t] as nat
                    == self.frequencies_view()[t],
            forall|t: int|
                0 <= t < self.terms_view().len() ==> (#[trigger] self.bitmaps_view()[t]).valid()
                    && self.bitmaps_view()[t]@ == self.postings_view()[t]
                    && self.bitmaps_view()[t].serialized() == self.serialized_view()[t],
    {
    }

    /// The index of the stream `ps`.
    pub open spec fn indexes(&self, ps: Seq<Pair>) -> bool {
        &&& self.terms_view() == dictionary(ps)
        &&& self.postings_view().len() == dictionary(ps).len()
        &&& self.frequencies_view().len() == dictionary(ps).len()
        &&& forall|t: int|
            0 <= t < dictionary(ps).len() ==> #[trigger] self.postings_view()[t] == postings(
                ps,
                dictionary(ps)[t],
            )
        &&& forall|t: int|
            0 <= t < dictionary(ps).len() ==> #[trigger] self.frequencies_view()[t] == frequency(
                ps,
                dictionary(ps)[t],
            )
        &&& self.documents() == document_count(ps)
    }

    /// Builds the index of a pair stream in one pass. Fails with
    /// `FormatError` when document ids decrease, and otherwise with
    /// `CapacityExceeded` when a document id does not fit in 32 bits.
    pub fn from_pairs(pairs: &Vec<(usize, Vec<u8>)>) -> (r: Result<TermIndex, BuildError>)
        ensures
            ({
                let ps = pairs_view(pairs@);
                match r {
                    Ok(idx) => docs_ordered(ps) && (forall|k: int|
                        0 <= k < ps.len() ==> #[trigger] ps[k].0 <= u32::MAX) && idx.indexes(ps)
                        && idx.wf(),
                    Err(e) => if !docs_ordered(ps) {
                        e == BuildError::FormatError
                    } else {
                        e == BuildError::CapacityExceeded && exists|k: int|
                            0 <= k < ps.len() && #[trigger] ps[k].0 > u32::MAX
                    },
                }
            }),
    {
        let ghost ps = pairs_view(pairs@);
        let n = pairs.len();
        // Validate the document ids before building anything.
        let mut k: usize = 1;
        while k < n
            invariant
                n == ps.len(),
                ps == pairs_view(pairs@),
                1 <= k,
                forall|i: int| 0 < i < k && i < n ==> ps[i - 1].0 <= #[trigger] ps[i].0,
            decreases n - k,
        {
            if pairs[k - 1].0 > pairs[k].0 {
                assert(ps[k - 1].0 > ps[k as int].0);
                return Err(BuildError::FormatError);
            }
            k = k + 1;
        }
        let mut k: usize = 0;
        while k < n
            invariant
                n == ps.len(),
                ps == pairs_view(pairs@),
                docs_ordered(ps),
                k <= n,
                forall|i: int| 0 <= i < k ==> #[trigger] ps[i].0 <= u32::MAX,
            decreases n - k,
        {
            if pairs[k].0 > 0xffff_ffff {
                assert(ps[k as int].0 > u32::MAX);
                return Err(BuildError::CapacityExceeded);
            }
            k = k + 1;
        }
        let mut terms: Vec<Vec<u8>> = Vec::new();
        let mut bitmaps: Vec<Bitmap> = Vec::new();
        let mut frequencies: Vec<usize> = Vec::new();
        let mut buckets: HashMap<u64, Vec<usize>> = HashMap::new();
        let mut i: usize = 0;
        while i < n
            invariant
                n == ps.len(),
                ps == pairs_view(pairs@),
                docs_ordered(ps),
                forall|k: int| 0 <= k < n ==> #[trigger] ps[k].0 <= u32::MAX,
                i <= n,
                ({
                    let pre = ps.subrange(0, i as int);
                    let d = dictionary(pre);
                    &&& terms@.map_values(|t: Vec<u8>| t@) == d
                    &&& d.len() <= i
                    &&& bitmaps@.len() == d.len()
                    &&& forall|t: int| 0 <= t < d.len() ==> (#[trigger] bitmaps@[t]).valid()
                    &&& frequencies@.len() == d.len()
                    &&& forall|t: int|
                        0 <= t < d.len() ==> (#[trigger] bitmaps@[t])@ == postings(pre, d[t])
                    &&& forall|t: int|
                        0 <= t < d.len() ==> #[trigger] frequencies@[t] == frequency(pre, d[t])
                    &&& forall|t: int| 0 <= t < d.len() ==> #[trigger] frequencies@[t] <= i
                    &&& forall|t: int|
                        0 <= t < d.len() ==> #[trigger] buckets@.contains_key(fnv(d[t]))
                            && buckets@[fnv(d[t])]@.contains(t as usize)
                    &&& forall|h: u64, j: int|
                        buckets@.contains_key(h) && 0 <= j < buckets@[h]@.len() ==> (
                        #[trigger] buckets@[h]@[j]) < d.len() && fnv(d[buckets@[h]@[j] as int])
                            == h
                }),
            decreases n - i,
        {
            let ghost pre = ps.subrange(0, i as int);
            let ghost d = dictionary(pre);
            let ghost next = ps.subrange(0, i + 1);
            proof {
                assert(next.drop_last() == pre);
                assert(next.last() == ps[i as int]);
                lemma_dictionary_distinct(pre);
            }
            let term = &pairs[i].1;
            let doc = pairs[i].0;
            assert(ps[i as int] == (doc as nat, term@));
            let h = fnv_hash(term.as_slice());
            let ghost b0 = buckets@;
            let found: Option<usize> = match buckets.get(&h) {
                Some(bucket) => find_in_bucket(&terms, bucket, term.as_slice()),
                None => None,
            };
            proof {
                match found {
                    Some(t) => {},
                    None => {
                        assert(!d.contains(term@)) by {
                            if d.contains(term@) {
                                let t = d.index_of(term@);
                                assert(d[t] == term@);
                                assert(buckets@.contains_key(fnv(d[t])));
                                assert(buckets@[fnv(d[t])]@.contains(t as usize));
                                let jj = buckets@[h]@.index_of(t as usize);
                                assert(buckets@[h]@[jj] == t as usize);
                            }
                        }
                    },
                }
            }
            let id: usize = match found {
                Some(t) => t,
                None => {
                    let id = terms.len();
                    let mut copy: Vec<u8> = Vec::new();
                    crate::endian::append_bytes(&mut copy, term.as_slice());
                    terms.push(copy);
                    bitmaps.push(Bitmap::create());
                    frequencies.push(0);
                    let mut bucket = match buckets.remove(&h) {
                        Some(b) => b,
                        None => Vec::new(),
                    };
                    assert(b0.contains_key(h) ==> bucket@ == b0[h]@);
                    assert(!b0.contains_key(h) ==> bucket@.len() == 0);
                    bucket.push(id);
                    buckets.insert(h, bucket);
                    assert(buckets@ == b0.insert(h, bucket));
                    id
                },
            };
            bitmaps[id].add(doc as u32);
            frequencies[id] = frequencies[id] + 1;
            proof {
                lemma_dictionary_distinct(next);
                lemma_dictionary_len(next);
                let d2 = dictionary(next);
                assert(terms@.map_values(|t: Vec<u8>| t@) =~= d2);
                assert(d2[id as int] == term@);
                if found.is_none() {
                    lemma_absent(pre, term@);
                }
                assert forall|t: int| 0 <= t < d2.len() implies (#[trigger] bitmaps@[t])@
                    == postings(next, d2[t]) by {
                    if t != id {
                        assert(d2[t] != term@);
                    }
                }
                assert forall|t: int| 0 <= t < d2.len() implies #[trigger] frequencies@[t]
                    <= i + 1 by {
                    lemma_frequency_bound(next, d2[t]);
                }
                assert forall|t: int| 0 <= t < d2.len() implies #[trigger] frequencies@[t]
                    == frequency(next, d2[t]) by {
                    if t != id {
                        assert(d2[t] != term@);
                    }
                }
                assert forall|hh: u64, j: int|
                    buckets@.contains_key(hh) && 0 <= j < buckets@[hh]@.len() implies (
                    #[trigger] buckets@[hh]@[j]) < d2.len() && fnv(d2[buckets@[hh]@[j] as int]) == hh by {
                    if found.is_none() && hh == h && j == buckets@[h]@.len() - 1 {
                    } else {
                        assert(b0.contains_key(hh) && buckets@[hh]@[j] == b0[hh]@[j]);
                        assert(d2[b0[hh]@[j] as int] == d[b0[hh]@[j] as int]);
                    }
                }
                assert forall|t: int| 0 <= t < d2.len() implies #[trigger] buckets@.contains_key(
                    fnv(d2[t]),
                ) && buckets@[fnv(d2[t])]@.contains(t as usize) by {
                    if t < d.len() {
                        assert(d2[t] == d[t]);
                        assert(b0.contains_key(fnv(d[t])));
                        assert(b0[fnv(d[t])]@.contains(t as usize));
                        if found.is_none() && fnv(d[t]) == h {
                            let k = b0[h]@.index_of(t as usize);
                            assert(buckets@[h]@[k] == t as usize);
                        }
                    } else {
                        assert(buckets@[h]@.last() == t as usize);
                    }
                }
            }
            i = i + 1;
        }
        assert(ps.subrange(0, n as int) == ps);
        assert(n > 0 ==> ps[n - 1].0 <= u32::MAX);
        let document_count: u64 = if n == 0 { 0 } else { pairs[n - 1].0 as u64 + 1 };
        let idx = TermIndex { terms, bitmaps, frequencies, document_count };
        proof {
            assert(idx.postings_view().len() == dictionary(ps).len());
            assert forall|t: int| 0 <= t < dictionary(ps).len() implies #[trigger] idx.postings_view()[t]
                == postings(ps, dictionary(ps)[t]) by {}
            assert forall|t: int| 0 <= t < dictionary(ps).len() implies #[trigger] idx.frequencies_view()[t]
                == frequency(ps, dictionary(ps)[t]) by {}
        }
        Ok(idx)
    }

    /// The number of distinct terms.
    pub fn term_count(&self) -> (r: usize)
        ensures
            self.wf() ==> r == self.postings_view().len(),
            r == self.terms_view().len(),
    {
        self.terms.len()
    }

    /// Term bytes by term id.
    pub fn terms(&self) -> (r: &Vec<Vec<u8>>)
        ensures
            r@.map_values(|t: Vec<u8>| t@) == self.terms_view(),
    {
        &self.terms
    }

    /// Occurrence counts by term id.
    pub fn frequencies(&self) -> (r: &Vec<usize>)
        ensures
            r@.map_values(|f: usize| f as nat) == self.frequencies_view(),
            r@ == self.frequency_counts(),
    {
        &self.frequencies
    }

    /// The documents of term `t`.
    pub fn postings(&self, t: usize) -> (r: &Bitmap)
        requires
            t < self.postings_view().len(),
        ensures
            r@ == self.postings_view()[t as int],
    {
        &self.bitmaps[t]
    }

    /// The terms and their occurrence counts, by term id.
    pub fn into_parts(self) -> (r: (Vec<Vec<u8>>, Vec<usize>))
        ensures
            r.0@.map_values(|t: Vec<u8>| t@) == self.terms_view(),
            r.1@ == self.frequency_counts(),
    {
        (self.terms, self.frequencies)
    }

    /// The number of documents.
    pub fn document_count(&self) -> (r: u64)
        ensures
            r == self.documents(),
    {
        self.document_count
    }

    /// Compacts every bitmap and returns the serialisations, by term id.
    pub fn serialize_postings(&mut self) -> (r: Vec<Vec<u8>>)
        requires
            old(self).wf(),
        ensures
            final(self).wf(),
            final(self).frequency_counts() == old(self).frequency_counts(),
            final(self).terms_view() == old(self).terms_view(),
            final(self).postings_view() == old(self).postings_view(),
            final(self).frequencies_view() == old(self).frequencies_view(),
            final(self).documents() == old(self).documents(),
            r@.len() == old(self).postings_view().len(),
            r@.len() == final(self).serialized_view().len(),
            forall|t: int|
                0 <= t < r@.len() ==> (#[trigger] r@[t])@ == final(self).serialized_view()[t],
    {
        let mut out: Vec<Vec<u8>> = Vec::new();
        let n = self.bitmaps.len();
        let mut i: usize = 0;
        while i < n
            invariant
                n == self.bitmaps@.len(),
                i <= n,
                out@.len() == i,
                self.terms == old(self).terms,
                self.frequencies == old(self).frequencies,
                self.document_count == old(self).document_count,
                self.postings_view() == old(self).postings_view(),
                forall|j: int| 0 <= j < i ==> (#[trigger] out@[j])@ == self.bitmaps@[j].serialized(),
                forall|j: int| 0 <= j < n ==> (#[trigger] self.bitmaps@[j]).valid(),
            decreases n - i,
        {
            let ghost before = self.bitmaps@;
            self.bitmaps[i].run_optimize();
            out.push(self.bitmaps[i].serialize());
            proof {
                assert(self.postings_view() =~= old(self).postings_view());
                assert forall|j: int| 0 <= j < i + 1 implies (#[trigger] out@[j])@
                    == self.bitmaps@[j].serialized() by {
                    if j < i {
                        assert(self.bitmaps@[j] == before[j]);
                    }
                }
                assert forall|j: int| 0 <= j < n implies (#[trigger] self.bitmaps@[j]).valid() by {
                    if j != i {
                        assert(self.bitmaps@[j] == before[j]);
                    }
                }
            }
            i = i + 1;
        }
        out
    }
}

} // verus!
