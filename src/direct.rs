//! The direct-lookup chunk packers: values appended to size-bounded chunks,
//! each located by an entry `[key,chunk,offset,length],` of a lookup table
//! whose length is bounded too.
use crate::endian::append_bytes;
use crate::keys::{ChunkEntryKey, PackedEntryKey};
use crate::text::{decimal, push_decimal};
use vstd::prelude::*;

verus! {

/// The chunk that a value of `len` bytes goes to, and its offset there: the
/// open (last) chunk if the value fits, else a new chunk.
pub open spec fn direct_target(chunks: Seq<Seq<u8>>, len: int, max_chunk_size: int) -> (int, int) {
    if chunks.len() > 0 && chunks.last().len() + len <= max_chunk_size {
        (chunks.len() - 1, chunks.last().len() as int)
    } else {
        (chunks.len() as int, 0)
    }
}

/// `[LABEL,CHUNK,OFFSET,LENGTH],`
pub open spec fn direct_entry(label: Seq<u8>, chunk: int, offset: int, len: int) -> Seq<u8> {
    seq![91u8] + label + seq![44u8] + decimal(chunk as nat) + seq![44u8] + decimal(offset as nat)
        + seq![44u8] + decimal(len as nat) + seq![93u8, 44u8]
}

/// The lookup entry that inserting a value of `len` bytes named by `label`
/// would append.
pub open spec fn next_entry(chunks: Seq<Seq<u8>>, label: Seq<u8>, len: int, max_chunk_size: int) -> Seq<
    u8,
> {
    let t = direct_target(chunks, len, max_chunk_size);
    direct_entry(label, t.0, t.1, len)
}

/// The chunks after the value is stored at its target.
pub open spec fn chunks_after(chunks: Seq<Seq<u8>>, value: Seq<u8>, max_chunk_size: int) -> Seq<
    Seq<u8>,
> {
    let t = direct_target(chunks, value.len() as int, max_chunk_size);
    if t.0 == chunks.len() {
        chunks.push(value)
    } else {
        chunks.update(t.0, chunks[t.0] + value)
    }
}

struct DirectChunks {
    lookup: Vec<u8>,
    max_lookup_len: usize,
    chunks: Vec<Vec<u8>>,
    max_chunk_size: usize,
}

impl DirectChunks {
    spec fn chunks_view(&self) -> Seq<Seq<u8>> {
        self.chunks@.map_values(|c: Vec<u8>| c@)
    }

    spec fn wf(&self) -> bool {
        self.lookup@.len() <= self.max_lookup_len
    }

    fn new(max_chunk_size: usize, max_lookup_len: usize) -> (r: DirectChunks)
        ensures
            r.wf(),
            r.lookup@ == Seq::<u8>::empty(),
            r.chunks_view() == Seq::<Seq<u8>>::empty(),
            r.max_chunk_size == max_chunk_size,
            r.max_lookup_len == max_lookup_len,
    {
        let r = DirectChunks { lookup: Vec::new(), max_lookup_len, chunks: Vec::new(), max_chunk_size };
        assert(r.chunks_view() =~= Seq::<Seq<u8>>::empty());
        r
    }

    fn insert(&mut self, label: &[u8], value: &[u8]) -> (r: bool)
        requires
            old(self).wf(),
        ensures
            final(self).wf(),
            final(self).max_chunk_size == old(self).max_chunk_size,
            final(self).max_lookup_len == old(self).max_lookup_len,
            r == (old(self).lookup@.len() + next_entry(
                old(self).chunks_view(),
                label@,
                value@.len() as int,
                old(self).max_chunk_size as int,
            ).len() <= old(self).max_lookup_len),
            r ==> final(self).lookup@ == old(self).lookup@ + next_entry(
                old(self).chunks_view(),
                label@,
                value@.len() as int,
                old(self).max_chunk_size as int,
            ),
            r ==> final(self).chunks_view() == chunks_after(
                old(self).chunks_view(),
                value@,
                old(self).max_chunk_size as int,
            ),
            !r ==> final(self).lookup@ == old(self).lookup@ && final(self).chunks_view()
                == old(self).chunks_view(),
    {
        let ghost cs = self.chunks_view();
        let n = self.chunks.len();
        let fits = n > 0 && value.len() <= self.max_chunk_size && self.chunks[n - 1].len()
            <= self.max_chunk_size - value.len();
        let chunk_id: usize = if fits { n - 1 } else { n };
        let offset: usize = if fits { self.chunks[n - 1].len() } else { 0 };
        proof {
            assert(direct_target(cs, value@.len() as int, self.max_chunk_size as int) == (
                chunk_id as int,
                offset as int,
            ));
        }
        let mut entry: Vec<u8> = Vec::new();
        entry.push(91);
        append_bytes(&mut entry, label);
        entry.push(44);
        push_decimal(&mut entry, chunk_id as u64);
        entry.push(44);
        push_decimal(&mut entry, offset as u64);
        entry.push(44);
        push_decimal(&mut entry, value.len() as u64);
        entry.push(93);
        entry.push(44);
        if entry.len() > self.max_lookup_len - self.lookup.len() {
            return false;
        }
        if fits {
            let mut last = self.chunks.pop().unwrap();
            append_bytes(&mut last, value);
            self.chunks.push(last);
        } else {
            let mut fresh: Vec<u8> = Vec::new();
            append_bytes(&mut fresh, value);
            self.chunks.push(fresh);
        }
        proof {
            assert(self.chunks_view() =~= chunks_after(cs, value@, self.max_chunk_size as int));
        }
        append_bytes(&mut self.lookup, entry.as_slice());
        true
    }
}

/// Values in chunks, located through a C lookup table.
pub struct ChunksWithDirectLookup {
    inner: DirectChunks,
}

impl ChunksWithDirectLookup {
    /// The bytes of each chunk.
    pub closed spec fn chunks_view(&self) -> Seq<Seq<u8>> {
        self.inner.chunks_view()
    }

    /// The lookup table text.
    pub closed spec fn lookup_view(&self) -> Seq<u8> {
        self.inner.lookup@
    }

    pub closed spec fn max_chunk_size(&self) -> int {
        self.inner.max_chunk_size as int
    }

    pub closed spec fn max_lookup_len(&self) -> int {
        self.inner.max_lookup_len as int
    }

    /// The lookup table never grows past its bound.
    pub closed spec fn wf(&self) -> bool {
        self.inner.wf()
    }

    pub proof fn lemma_lookup_bound(&self)
        requires
            self.wf(),
        ensures
            self.lookup_view().len() <= self.max_lookup_len(),
    {
    }

    pub fn new(max_chunk_size: usize, max_lookup_len: usize) -> (r: ChunksWithDirectLookup)
        ensures
            r.wf(),
            r.lookup_view() == Seq::<u8>::empty(),
            r.chunks_view() == Seq::<Seq<u8>>::empty(),
            r.max_chunk_size() == max_chunk_size,
            r.max_lookup_len() == max_lookup_len,
    {
        ChunksWithDirectLookup { inner: DirectChunks::new(max_chunk_size, max_lookup_len) }
    }

    /// Stores `value` and appends its lookup entry; returns false, changing
    /// nothing, when the entry would take the lookup table past its bound.
    pub fn insert<K: ChunkEntryKey>(&mut self, key: &K, value: &[u8]) -> (r: bool)
        requires
            old(self).wf(),
        ensures
            final(self).wf(),
            final(self).max_chunk_size() == old(self).max_chunk_size(),
            final(self).max_lookup_len() == old(self).max_lookup_len(),
            r == (old(self).lookup_view().len() + next_entry(
                old(self).chunks_view(),
                key.label(),
                value@.len() as int,
                old(self).max_chunk_size(),
            ).len() <= old(self).max_lookup_len()),
            r ==> final(self).lookup_view() == old(self).lookup_view() + next_entry(
                old(self).chunks_view(),
                key.label(),
                value@.len() as int,
                old(self).max_chunk_size(),
            ),
            r ==> final(self).chunks_view() == chunks_after(
                old(self).chunks_view(),
                value@,
                old(self).max_chunk_size(),
            ),
            !r ==> final(self).lookup_view() == old(self).lookup_view() && final(self).chunks_view()
                == old(self).chunks_view(),
    {
        self.inner.insert(key.c(), value)
    }

    pub fn get_chunks(&self) -> (r: &Vec<Vec<u8>>)
        ensures
            r@.map_values(|c: Vec<u8>| c@) == self.chunks_view(),
    {
        &self.inner.chunks
    }

    pub fn get_raw_lookup(&self) -> (r: &[u8])
        ensures
            r@ == self.lookup_view(),
    {
        self.inner.lookup.as_slice()
    }
}

/// Values in packages, located through a JavaScript lookup table.
pub struct PackedEntriesWithDirectLookup {
    inner: DirectChunks,
}

impl PackedEntriesWithDirectLookup {
    /// The bytes of each package.
    pub closed spec fn packages_view(&self) -> Seq<Seq<u8>> {
        self.inner.chunks_view()
    }

    /// The lookup table text.
    pub closed spec fn lookup_view(&self) -> Seq<u8> {
        self.inner.lookup@
    }

    pub closed spec fn max_package_size(&self) -> int {
        self.inner.max_chunk_size as int
    }

    pub closed spec fn max_lookup_len(&self) -> int {
        self.inner.max_lookup_len as int
    }

    /// The lookup table never grows past its bound.
    pub closed spec fn wf(&self) -> bool {
        self.inner.wf()
    }

    pub proof fn lemma_lookup_bound(&self)
        requires
            self.wf(),
        ensures
            self.lookup_view().len() <= self.max_lookup_len(),
    {
    }

    pub fn new(max_package_size: usize, max_lookup_len: usize) -> (r: PackedEntriesWithDirectLookup)
        ensures
            r.wf(),
            r.lookup_view() == Seq::<u8>::empty(),
            r.packages_view() == Seq::<Seq<u8>>::empty(),
            r.max_package_size() == max_package_size,
            r.max_lookup_len() == max_lookup_len,
    {
        PackedEntriesWithDirectLookup { inner: DirectChunks::new(max_package_size, max_lookup_len) }
    }

    /// Stores `value` and appends its lookup entry; returns false, changing
    /// nothing, when the entry would take the lookup table past its bound.
    pub fn insert<K: PackedEntryKey>(&mut self, key: &K, value: &[u8]) -> (r: bool)
        requires
            old(self).wf(),
        ensures
            final(self).wf(),
            final(self).max_package_size() == old(self).max_package_size(),
            final(self).max_lookup_len() == old(self).max_lookup_len(),
            r == (old(self).lookup_view().len() + next_entry(
                old(self).packages_view(),
                key.label(),
                value@.len() as int,
                old(self).max_package_size(),
            ).len() <= old(self).max_lookup_len()),
            r ==> final(self).lookup_view() == old(self).lookup_view() + next_entry(
                old(self).packages_view(),
                key.label(),
                value@.len() as int,
                old(self).max_package_size(),
            ),
            r ==> final(self).packages_view() == chunks_after(
                old(self).packages_view(),
                value@,
                old(self).max_package_size(),
            ),
            !r ==> final(self).lookup_view() == old(self).lookup_view()
                && final(self).packages_view() == old(self).packages_view(),
    {
        self.inner.insert(key.js(), value)
    }

    pub fn get_packages(&self) -> (r: &Vec<Vec<u8>>)
        ensures
            r@.map_values(|c: Vec<u8>| c@) == self.packages_view(),
    {
        &self.inner.chunks
    }

    pub fn get_raw_lookup(&self) -> (r: &[u8])
        ensures
            r@ == self.lookup_view(),
    {
        self.inner.lookup.as_slice()
    }
}

} // verus!
