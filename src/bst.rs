//! The balanced-tree chunk packers: entries inserted in ascending key order,
//! packed into size-bounded chunks that are each serialised as a flattened
//! binary search tree, with a lookup table naming each chunk's first key and
//! root offset.
use crate::endian::append_bytes;
use crate::keys::{ChunkEntryKey, PackedEntryKey};
use crate::text::{decimal, push_decimal};
use crate::tree::{chunk_tree, entry_cost, pack_step, packing_bounds, Entry, TreeChunks, MAX_OFFSET};
use vstd::prelude::*;
use vstd::string::StringSliceAdditionalSpecFns;

verus! {

/// `{.id = I, .mid_pos = P, .first_key = LABEL},`
pub open spec fn c_lookup_entry(id: nat, root: int, label: Seq<u8>) -> Seq<u8> {
    "{.id = ".spec_bytes() + decimal(id) + ", .mid_pos = ".spec_bytes() + decimal(root as nat)
        + ", .first_key = ".spec_bytes() + label + "},".spec_bytes()
}

/// The lookup table of chunks `cs` whose first keys are named by `labels`,
/// one entry per chunk in chunk order.
pub open spec fn c_lookup(labels: Seq<Seq<u8>>, cs: Seq<Seq<Entry>>) -> Seq<u8>
    decreases cs.len(),
{
    if cs.len() == 0 {
        seq![]
    } else {
        c_lookup(labels.drop_last(), cs.drop_last()) + c_lookup_entry(
            (cs.len() - 1) as nat,
            chunk_tree(cs.last(), false).1,
            labels.last(),
        )
    }
}

/// `[LABEL,I,P],`
pub open spec fn js_lookup_entry(id: nat, root: int, label: Seq<u8>) -> Seq<u8> {
    seq![91u8] + label + seq![44u8] + decimal(id) + seq![44u8] + decimal(root as nat) + seq![
        93u8,
        44u8,
    ]
}

/// The JavaScript lookup table of packages serialised with big-endian fields.
pub open spec fn js_lookup(labels: Seq<Seq<u8>>, cs: Seq<Seq<Entry>>) -> Seq<u8>
    decreases cs.len(),
{
    if cs.len() == 0 {
        seq![]
    } else {
        js_lookup(labels.drop_last(), cs.drop_last()) + js_lookup_entry(
            (cs.len() - 1) as nat,
            chunk_tree(cs.last(), true).1,
            labels.last(),
        )
    }
}

fn push_str(out: &mut Vec<u8>, s: &str)
    ensures
        final(out)@ == old(out)@ + s.spec_bytes(),
{
    append_bytes(out, s.as_bytes());
}

/// Tree chunks with C lookup text and little-endian node fields.
pub struct BstChunks<K: ChunkEntryKey> {
    chunks: TreeChunks,
    first_keys: Vec<K>,
}

impl<K: ChunkEntryKey> BstChunks<K> {
    /// The entries of each chunk, in insertion order.
    pub closed spec fn view(&self) -> Seq<Seq<Entry>> {
        self.chunks.view()
    }

    pub closed spec fn max(&self) -> int {
        self.chunks.max()
    }

    /// The lookup label of each chunk's first key.
    pub closed spec fn labels(&self) -> Seq<Seq<u8>> {
        self.first_keys@.map_values(|k: K| k.label())
    }

    /// Every chunk is non-empty and within the size bound unless it holds
    /// one oversize entry; each but the last was sealed because the next
    /// entry did not fit; the bound is addressable by node offsets.
    pub proof fn lemma_bounds(&self)
        requires
            self.wf(),
        ensures
            packing_bounds(self.view(), self.max()),
            self.max() <= MAX_OFFSET,
    {
        self.chunks.lemma_bounds();
    }

    pub closed spec fn wf(&self) -> bool {
        &&& self.chunks.wf()
        &&& self.first_keys@.len() == self.chunks.view().len()
        &&& forall|i: int|
            0 <= i < self.first_keys@.len() ==> (#[trigger] self.first_keys@[i]).key_bytes()
                == self.chunks.view()[i][0].0
    }

    pub fn new(max_chunk_size: usize) -> (r: BstChunks<K>)
        requires
            max_chunk_size <= MAX_OFFSET,
        ensures
            r.wf(),
            r.view() == Seq::<Seq<Entry>>::empty(),
            r.labels() == Seq::<Seq<u8>>::empty(),
            r.max() == max_chunk_size,
    {
        let r = BstChunks { chunks: TreeChunks::new(max_chunk_size), first_keys: Vec::new() };
        assert(r.labels() =~= Seq::<Seq<u8>>::empty());
        r
    }

    /// Adds an entry; keys must come in ascending order for the chunks to be
    /// searchable. The entry joins the open chunk if that stays within the
    /// size bound, else it opens a new chunk.
    pub fn insert(&mut self, key: K, value: Vec<u8>)
        requires
            old(self).wf(),
            entry_cost((key.key_bytes(), value@)) <= MAX_OFFSET,
        ensures
            final(self).wf(),
            final(self).max() == old(self).max(),
            final(self).view() == pack_step(old(self).view(), (key.key_bytes(), value@), old(self).max()),
            final(self).labels() == if final(self).view().len() > old(self).view().len() {
                old(self).labels().push(key.label())
            } else {
                old(self).labels()
            },
    {
        let ghost old_keys = self.first_keys@;
        proof {
            self.chunks.lemma_bounds();
        }
        let opened = self.chunks.insert(key.bytes(), value);
        proof {
            self.chunks.lemma_bounds();
        }
        if opened {
            self.first_keys.push(key);
            proof {
                assert(self.labels() =~= old(self).labels().push(key.label()));
                assert forall|i: int| 0 <= i < self.first_keys@.len() implies (
                #[trigger] self.first_keys@[i]).key_bytes() == self.chunks.view()[i][0].0 by {
                    if i < old_keys.len() {
                        assert(self.first_keys@[i] == old_keys[i]);
                    }
                }
            }
        } else {
            proof {
                assert forall|i: int| 0 <= i < self.first_keys@.len() implies (
                #[trigger] self.first_keys@[i]).key_bytes() == self.chunks.view()[i][0].0 by {
                    assert(self.chunks.view()[i][0] == old(self).chunks.view()[i][0]);
                }
            }
        }
    }

    pub fn chunk_count(&self) -> (r: usize)
        ensures
            r == self.view().len(),
    {
        self.chunks.len()
    }

    /// The lookup table and the serialised chunks, in chunk order.
    pub fn serialise(&self) -> (r: (Vec<u8>, Vec<Vec<u8>>))
        requires
            self.wf(),
        ensures
            r.0@ == c_lookup(self.labels(), self.view()),
            r.1@.len() == self.view().len(),
            forall|i: int|
                0 <= i < r.1@.len() ==> (#[trigger] r.1@[i])@ == chunk_tree(self.view()[i], false).0,
    {
        let ghost cs = self.view();
        let ghost labels = self.labels();
        let mut lookup: Vec<u8> = Vec::new();
        let mut serialised: Vec<Vec<u8>> = Vec::new();
        let n = self.chunks.len();
        let mut i: usize = 0;
        assert(cs.subrange(0, 0) == Seq::<Seq<Entry>>::empty());
        while i < n
            invariant
                self.wf(),
                cs == self.view(),
                labels == self.labels(),
                n == cs.len(),
                labels.len() == cs.len(),
                i <= n,
                lookup@ == c_lookup(labels.subrange(0, i as int), cs.subrange(0, i as int)),
                serialised@.len() == i,
                forall|j: int|
                    0 <= j < i ==> (#[trigger] serialised@[j])@ == chunk_tree(cs[j], false).0,
            decreases n - i,
        {
            let (pos, bytes) = self.chunks.serialise_chunk(i, false);
            push_str(&mut lookup, "{.id = ");
            push_decimal(&mut lookup, i as u64);
            push_str(&mut lookup, ", .mid_pos = ");
            push_decimal(&mut lookup, pos as u64);
            push_str(&mut lookup, ", .first_key = ");
            append_bytes(&mut lookup, self.first_keys[i].c());
            push_str(&mut lookup, "},");
            serialised.push(bytes);
            proof {
                let l1 = labels.subrange(0, i + 1);
                let c1 = cs.subrange(0, i + 1);
                assert(l1.drop_last() == labels.subrange(0, i as int));
                assert(c1.drop_last() == cs.subrange(0, i as int));
                assert(c1.last() == cs[i as int]);
                assert(l1.last() == labels[i as int]);
                assert(labels[i as int] == self.first_keys@[i as int].label());
                assert(serialised@[i as int]@ == chunk_tree(cs[i as int], false).0);
            }
            i = i + 1;
        }
        assert(labels.subrange(0, n as int) == labels);
        assert(cs.subrange(0, n as int) == cs);
        (lookup, serialised)
    }
}

/// Tree packages with JavaScript lookup text and big-endian node fields.
pub struct PackedEntriesWithBSTLookup<K: PackedEntryKey> {
    packages: TreeChunks,
    first_keys: Vec<K>,
}

impl<K: PackedEntryKey> PackedEntriesWithBSTLookup<K> {
    /// The entries of each package, in insertion order.
    pub closed spec fn view(&self) -> Seq<Seq<Entry>> {
        self.packages.view()
    }

    pub closed spec fn max(&self) -> int {
        self.packages.max()
    }

    /// The lookup label of each package's first key.
    pub closed spec fn labels(&self) -> Seq<Seq<u8>> {
        self.first_keys@.map_values(|k: K| k.label())
    }

    /// Every chunk is non-empty and within the size bound unless it holds
    /// one oversize entry; each but the last was sealed because the next
    /// entry did not fit; the bound is addressable by node offsets.
    pub proof fn lemma_bounds(&self)
        requires
            self.wf(),
        ensures
            packing_bounds(self.view(), self.max()),
            self.max() <= MAX_OFFSET,
    {
        self.packages.lemma_bounds();
    }

    pub closed spec fn wf(&self) -> bool {
        &&& self.packages.wf()
        &&& self.first_keys@.len() == self.packages.view().len()
        &&& forall|i: int|
            0 <= i < self.first_keys@.len() ==> (#[trigger] self.first_keys@[i]).key_bytes()
                == self.packages.view()[i][0].0
    }

    pub fn new(max_package_size: usize) -> (r: PackedEntriesWithBSTLookup<K>)
        requires
            max_package_size <= MAX_OFFSET,
        ensures
            r.wf(),
            r.view() == Seq::<Seq<Entry>>::empty(),
            r.labels() == Seq::<Seq<u8>>::empty(),
            r.max() == max_package_size,
    {
        let r = PackedEntriesWithBSTLookup {
            packages: TreeChunks::new(max_package_size),
            first_keys: Vec::new(),
        };
        assert(r.labels() =~= Seq::<Seq<u8>>::empty());
        r
    }

    /// Adds an entry; keys must come in ascending order for the packages to
    /// be searchable.
    pub fn insert(&mut self, key: K, value: Vec<u8>)
        requires
            old(self).wf(),
            entry_cost((key.key_bytes(), value@)) <= MAX_OFFSET,
        ensures
            final(self).wf(),
            final(self).max() == old(self).max(),
            final(self).view() == pack_step(old(self).view(), (key.key_bytes(), value@), old(self).max()),
            final(self).labels() == if final(self).view().len() > old(self).view().len() {
                old(self).labels().push(key.label())
            } else {
                old(self).labels()
            },
    {
        let ghost old_keys = self.first_keys@;
        proof {
            self.packages.lemma_bounds();
        }
        let opened = self.packages.insert(key.bytes(), value);
        proof {
            self.packages.lemma_bounds();
        }
        if opened {
            self.first_keys.push(key);
            proof {
                assert(self.labels() =~= old(self).labels().push(key.label()));
                assert forall|i: int| 0 <= i < self.first_keys@.len() implies (
                #[trigger] self.first_keys@[i]).key_bytes() == self.packages.view()[i][0].0 by {
                    if i < old_keys.len() {
                        assert(self.first_keys@[i] == old_keys[i]);
                    }
                }
            }
        } else {
            proof {
                assert forall|i: int| 0 <= i < self.first_keys@.len() implies (
                #[trigger] self.first_keys@[i]).key_bytes() == self.packages.view()[i][0].0 by {
                    assert(self.packages.view()[i][0] == old(self).packages.view()[i][0]);
                }
            }
        }
    }

    pub fn package_count(&self) -> (r: usize)
        ensures
            r == self.view().len(),
    {
        self.packages.len()
    }

    /// The lookup table and the serialised packages, in package order.
    pub fn serialise(&self) -> (r: (Vec<u8>, Vec<Vec<u8>>))
        requires
            self.wf(),
        ensures
            r.0@ == js_lookup(self.labels(), self.view()),
            r.1@.len() == self.view().len(),
            forall|i: int|
                0 <= i < r.1@.len() ==> (#[trigger] r.1@[i])@ == chunk_tree(self.view()[i], true).0,
    {
        let ghost cs = self.view();
        let ghost labels = self.labels();
        let mut lookup: Vec<u8> = Vec::new();
        let mut serialised: Vec<Vec<u8>> = Vec::new();
        let n = self.packages.len();
        let mut i: usize = 0;
        assert(cs.subrange(0, 0) == Seq::<Seq<Entry>>::empty());
        while i < n
            invariant
                self.wf(),
                cs == self.view(),
                labels == self.labels(),
                n == cs.len(),
                labels.len() == cs.len(),
                i <= n,
                lookup@ == js_lookup(labels.subrange(0, i as int), cs.subrange(0, i as int)),
                serialised@.len() == i,
                forall|j: int|
                    0 <= j < i ==> (#[trigger] serialised@[j])@ == chunk_tree(cs[j], true).0,
            decreases n - i,
        {
            let (pos, bytes) = self.packages.serialise_chunk(i, true);
            lookup.push(91);
            append_bytes(&mut lookup, self.first_keys[i].js());
            lookup.push(44);
            push_decimal(&mut lookup, i as u64);
            lookup.push(44);
            push_decimal(&mut lookup, pos as u64);
            lookup.push(93);
            lookup.push(44);
            serialised.push(bytes);
            proof {
                let l1 = labels.subrange(0, i + 1);
                let c1 = cs.subrange(0, i + 1);
                assert(l1.drop_last() == labels.subrange(0, i as int));
                assert(c1.drop_last() == cs.subrange(0, i as int));
                assert(c1.last() == cs[i as int]);
                assert(l1.last() == labels[i as int]);
                assert(labels[i as int] == self.first_keys@[i as int].label());
                assert(serialised@[i as int]@ == chunk_tree(cs[i as int], true).0);
            }
            i = i + 1;
        }
        assert(labels.subrange(0, n as int) == labels);
        assert(cs.subrange(0, n as int) == cs);
        (lookup, serialised)
    }
}

} // verus!
