//! Flattened binary search trees: entries packed into size-bounded chunks,
//! each chunk serialised as a pointer-free tree addressed by byte offsets.
use crate::endian::{append_bytes, be32, le32, push_u32_be, push_u32_le};
use vstd::prelude::*;

verus! {

/// A key's bytes and its value.
pub type Entry = (Seq<u8>, Seq<u8>);

/// The largest byte offset a node field can hold.
pub const MAX_OFFSET: usize = 0x7fff_ffff;

/// Bytes that one entry takes in a serialised tree: the key, three 4-byte
/// fields (left child, right child, value length) and the value.
pub open spec fn entry_cost(e: Entry) -> int {
    (e.0.len() + 12 + e.1.len()) as int
}

/// Bytes that a sequence of entries takes in a serialised tree.
pub open spec fn entries_cost(s: Seq<Entry>) -> int
    decreases s.len(),
{
    if s.len() == 0 {
        0
    } else {
        entries_cost(s.drop_last()) + entry_cost(s.last())
    }
}

/// The value of a child field: the child's offset, or all ones for none.
pub open spec fn child_field(p: int) -> u32 {
    if p < 0 {
        0xffff_ffffu32
    } else {
        p as u32
    }
}

/// A 4-byte field in the chosen byte order.
pub open spec fn field(x: u32, big_endian: bool) -> Seq<u8> {
    if big_endian {
        be32(x)
    } else {
        le32(x)
    }
}

/// A serialised node: key, left offset, right offset, value length, value.
pub open spec fn node_bytes(e: Entry, left: int, right: int, big_endian: bool) -> Seq<u8> {
    e.0 + field(child_field(left), big_endian) + field(child_field(right), big_endian) + field(
        e.1.len() as u32,
        big_endian,
    ) + e.1
}

/// The index of the node that roots the range `[lo, hi]`.
pub open spec fn mid(lo: int, hi: int) -> int {
    lo + (hi - lo + 1) / 2
}

/// The bytes of the tree over `s[lo..=hi]` when written from offset `base`,
/// and the offset of its root (-1 for an empty range). The left subtree is
/// written first, then the right one, then the root.
pub open spec fn flat_tree(s: Seq<Entry>, lo: int, hi: int, base: int, big_endian: bool) -> (
    Seq<u8>,
    int,
)
    decreases hi - lo + 1,
{
    if hi < lo {
        (seq![], -1)
    } else {
        let m = mid(lo, hi);
        let left = flat_tree(s, lo, m - 1, base, big_endian);
        let right = flat_tree(s, m + 1, hi, base + left.0.len(), big_endian);
        let pos = base + left.0.len() + right.0.len();
        (left.0 + right.0 + node_bytes(s[m], left.1, right.1, big_endian), pos)
    }
}

/// The serialised chunk holding `s`, and its root offset.
pub open spec fn chunk_tree(s: Seq<Entry>, big_endian: bool) -> (Seq<u8>, int) {
    flat_tree(s, 0, s.len() - 1, 0, big_endian)
}

pub proof fn lemma_entries_cost_append(a: Seq<Entry>, b: Seq<Entry>)
    ensures
        entries_cost(a + b) == entries_cost(a) + entries_cost(b),
    decreases b.len(),
{
    if b.len() > 0 {
        lemma_entries_cost_append(a, b.drop_last());
        assert((a + b).drop_last() == a + b.drop_last());
    } else {
        assert(a + b == a);
    }
}

pub proof fn lemma_entries_cost_nonneg(s: Seq<Entry>)
    ensures
        entries_cost(s) >= 0,
    decreases s.len(),
{
    if s.len() > 0 {
        lemma_entries_cost_nonneg(s.drop_last());
    }
}

pub proof fn lemma_split_cost(s: Seq<Entry>, lo: int, m: int, hi: int)
    requires
        0 <= lo <= m <= hi < s.len(),
    ensures
        entries_cost(s.subrange(lo, hi + 1)) == entries_cost(s.subrange(lo, m)) + entry_cost(s[m])
            + entries_cost(s.subrange(m + 1, hi + 1)),
        entries_cost(s.subrange(lo, m)) >= 0,
        entries_cost(s.subrange(m + 1, hi + 1)) >= 0,
{
    let a = s.subrange(lo, m);
    let b = s.subrange(m + 1, hi + 1);
    lemma_entries_cost_append(a, seq![s[m]]);
    lemma_entries_cost_append(a + seq![s[m]], b);
    assert(a + seq![s[m]] + b == s.subrange(lo, hi + 1));
    assert(seq![s[m]].drop_last() == Seq::<Entry>::empty());
    assert(seq![s[m]].last() == s[m]);
    assert(entries_cost(Seq::<Entry>::empty()) == 0);
    assert(entries_cost(seq![s[m]]) == entry_cost(s[m]));
    lemma_entries_cost_nonneg(a);
    lemma_entries_cost_nonneg(b);
}

proof fn lemma_node_len(e: Entry, left: int, right: int, big_endian: bool)
    ensures
        node_bytes(e, left, right, big_endian).len() == entry_cost(e),
{
}

/// A serialised tree takes exactly the cost of its entries, and its root
/// lies at `base` plus that cost less the root node's own size.
pub proof fn lemma_flat_tree_len(s: Seq<Entry>, lo: int, hi: int, base: int, big_endian: bool)
    requires
        0 <= lo,
        hi < s.len(),
    ensures
        flat_tree(s, lo, hi, base, big_endian).0.len() == if hi < lo {
            0
        } else {
            entries_cost(s.subrange(lo, hi + 1))
        },
        lo <= hi ==> flat_tree(s, lo, hi, base, big_endian).1 == base + entries_cost(
            s.subrange(lo, hi + 1),
        ) - entry_cost(s[mid(lo, hi)]),
    decreases hi - lo + 1,
{
    if lo <= hi {
        let m = mid(lo, hi);
        lemma_flat_tree_len(s, lo, m - 1, base, big_endian);
        let left = flat_tree(s, lo, m - 1, base, big_endian);
        lemma_flat_tree_len(s, m + 1, hi, base + left.0.len(), big_endian);
        let right = flat_tree(s, m + 1, hi, base + left.0.len(), big_endian);
        lemma_node_len(s[m], left.1, right.1, big_endian);
        lemma_split_cost(s, lo, m, hi);
        if m - 1 < lo {
            assert(s.subrange(lo, m) == Seq::<Entry>::empty());
        }
        if hi < m + 1 {
            assert(s.subrange(m + 1, hi + 1) == Seq::<Entry>::empty());
        }
        assert(flat_tree(s, lo, hi, base, big_endian) == (
            left.0 + right.0 + node_bytes(s[m], left.1, right.1, big_endian),
            base + left.0.len() + right.0.len(),
        ));
    }
}

/// One chunk's entries, in insertion order, with their total cost.
struct Tree {
    keys: Vec<Vec<u8>>,
    values: Vec<Vec<u8>>,
    serialised_len: usize,
}

impl Tree {
    spec fn entries(&self) -> Seq<Entry> {
        Seq::new(self.keys@.len(), |i: int| (self.keys@[i]@, self.values@[i]@))
    }

    spec fn wf(&self) -> bool {
        &&& self.keys@.len() == self.values@.len()
        &&& self.serialised_len == entries_cost(self.entries())
    }

    fn new() -> (r: Tree)
        ensures
            r.wf(),
            r.entries() == Seq::<Entry>::empty(),
    {
        let r = Tree { keys: Vec::new(), values: Vec::new(), serialised_len: 0 };
        assert(r.entries() == Seq::<Entry>::empty());
        r
    }

    fn insert(&mut self, key: &[u8], value: Vec<u8>, cost: usize)
        requires
            old(self).wf(),
            cost == entry_cost((key@, value@)),
            old(self).serialised_len + cost <= usize::MAX,
        ensures
            final(self).wf(),
            final(self).entries() == old(self).entries().push((key@, value@)),
    {
        let mut k: Vec<u8> = Vec::new();
        append_bytes(&mut k, key);
        let ghost old_entries = self.entries();
        self.keys.push(k);
        self.values.push(value);
        self.serialised_len = self.serialised_len + cost;
        assert(self.entries() == old_entries.push((key@, value@)));
        assert(self.entries().drop_last() == old_entries);
    }

    fn serialise_node(
        out: &mut Vec<u8>,
        left: i32,
        right: i32,
        key: &[u8],
        value: &[u8],
        big_endian: bool,
    ) -> (r: i32)
        requires
            left >= -1,
            right >= -1,
            old(out)@.len() + entry_cost((key@, value@)) <= MAX_OFFSET,
        ensures
            final(out)@ == old(out)@ + node_bytes((key@, value@), left as int, right as int, big_endian),
            r == old(out)@.len(),
    {
        let pos = out.len() as i32;
        let l: u32 = if left < 0 { 0xffff_ffff } else { left as u32 };
        let r: u32 = if right < 0 { 0xffff_ffff } else { right as u32 };
        append_bytes(out, key);
        if big_endian {
            push_u32_be(out, l);
            push_u32_be(out, r);
            push_u32_be(out, value.len() as u32);
        } else {
            push_u32_le(out, l);
            push_u32_le(out, r);
            push_u32_le(out, value.len() as u32);
        }
        append_bytes(out, value);
        pos
    }

    /// Serialises the entries with indices in `[lo, hi]` and returns the
    /// offset of the node that roots them.
    #[verifier::rlimit(40)]
    fn serialise_area(&self, out: &mut Vec<u8>, lo: usize, hi: usize, big_endian: bool) -> (r: i32)
        requires
            self.wf(),
            lo <= hi < self.keys@.len(),
            old(out)@.len() + entries_cost(self.entries().subrange(lo as int, hi + 1)) <= MAX_OFFSET,
        ensures
            final(out)@ == old(out)@ + flat_tree(
                self.entries(),
                lo as int,
                hi as int,
                old(out)@.len() as int,
                big_endian,
            ).0,
            r == flat_tree(self.entries(), lo as int, hi as int, old(out)@.len() as int, big_endian).1,
        decreases hi - lo,
    {
        let ghost s = self.entries();
        let ghost base = out@.len() as int;
        let n = self.keys.len();
        let mid = lo + (hi - lo + 1) / 2;
        proof {
            lemma_flat_tree_len(s, lo as int, hi as int, base, big_endian);
            lemma_flat_tree_len(s, lo as int, mid - 1, base, big_endian);
            lemma_split_cost(s, lo as int, mid as int, hi as int);
        }
        let left = if mid > lo {
            self.serialise_area(out, lo, mid - 1, big_endian)
        } else {
            -1
        };
        let ghost left_bytes = out@.subrange(base, out@.len() as int);
        let ghost after_left = out@.len() as int;
        proof {
            lemma_flat_tree_len(s, mid + 1, hi as int, after_left, big_endian);
            if mid <= lo {
                assert(s.subrange(lo as int, mid as int) == Seq::<Entry>::empty());
            }
            assert(left_bytes == flat_tree(s, lo as int, mid - 1, base, big_endian).0);
        }
        let right = if mid < hi {
            self.serialise_area(out, mid + 1, hi, big_endian)
        } else {
            -1
        };
        let ghost right_bytes = out@.subrange(after_left, out@.len() as int);
        proof {
            if mid >= hi {
                assert(s.subrange(mid + 1, hi + 1) == Seq::<Entry>::empty());
            }
            assert(right_bytes == flat_tree(s, mid + 1, hi as int, after_left, big_endian).0);
            assert(s[mid as int] == (self.keys@[mid as int]@, self.values@[mid as int]@));
        }
        let ghost before_node = out@;
        let r = Tree::serialise_node(out, left, right, &self.keys[mid], &self.values[mid], big_endian);
        proof {
            let node = node_bytes(s[mid as int], left as int, right as int, big_endian);
            assert(out@ == before_node + node);
            assert(before_node == old(out)@ + left_bytes + right_bytes);
            assert(out@ == old(out)@ + (left_bytes + right_bytes + node));
        }
        r
    }

    /// The serialised tree and the offset of its root.
    fn serialise(&self, big_endian: bool) -> (r: (u32, Vec<u8>))
        requires
            self.wf(),
            self.keys@.len() > 0,
            self.serialised_len <= MAX_OFFSET,
        ensures
            r.1@ == chunk_tree(self.entries(), big_endian).0,
            r.0 as int == chunk_tree(self.entries(), big_endian).1,
    {
        let mut out: Vec<u8> = Vec::new();
        assert(self.entries().subrange(0, self.keys@.len() as int) == self.entries());
        let pos = self.serialise_area(&mut out, 0, self.keys.len() - 1, big_endian);
        proof {
            lemma_flat_tree_len(self.entries(), 0, self.keys@.len() - 1, 0, big_endian);
            lemma_entries_cost_nonneg(self.entries().subrange(0, self.keys@.len() as int));
            assert(out@ == flat_tree(self.entries(), 0, self.keys@.len() - 1, 0, big_endian).0);
        }
        (pos as u32, out)
    }
}

/// Every chunk is non-empty; a chunk over `max` bytes holds a single entry;
/// and each chunk but the last was sealed because the first entry of the
/// next one would have taken it over `max`.
pub open spec fn packing_bounds(cs: Seq<Seq<Entry>>, max: int) -> bool {
    &&& forall|i: int| 0 <= i < cs.len() ==> #[trigger] cs[i].len() > 0
    &&& forall|i: int|
        0 <= i < cs.len() ==> entries_cost(#[trigger] cs[i]) <= max || cs[i].len() == 1
    &&& forall|i: int|
        0 <= i < cs.len() - 1 ==> entries_cost(#[trigger] cs[i]) + entry_cost(cs[i + 1][0]) > max
}

/// The chunks after one more entry: it joins the open (last) chunk if the
/// chunk stays within `max` bytes, else it opens a new chunk.
pub open spec fn pack_step(cs: Seq<Seq<Entry>>, e: Entry, max: int) -> Seq<Seq<Entry>> {
    if cs.len() > 0 && entries_cost(cs.last()) + entry_cost(e) <= max {
        cs.update(cs.len() - 1, cs.last().push(e))
    } else {
        cs.push(seq![e])
    }
}

/// The chunks that a sequence of inserts builds, from no chunk at all.
pub open spec fn packed(es: Seq<Entry>, max: int) -> Seq<Seq<Entry>>
    decreases es.len(),
{
    if es.len() == 0 {
        seq![]
    } else {
        pack_step(packed(es.drop_last(), max), es.last(), max)
    }
}

/// Packing one more entry of a sequence is one more packing step.
pub proof fn lemma_packed_prefix(es: Seq<Entry>, j: int, max: int)
    requires
        0 <= j < es.len(),
    ensures
        packed(es.subrange(0, j + 1), max) == pack_step(packed(es.subrange(0, j), max), es[j], max),
{
    let p = es.subrange(0, j + 1);
    assert(p.drop_last() == es.subrange(0, j));
    assert(p.last() == es[j]);
}

proof fn lemma_pack_step_bounds(cs: Seq<Seq<Entry>>, e: Entry, max: int)
    requires
        packing_bounds(cs, max),
    ensures
        packing_bounds(pack_step(cs, e, max), max),
{
    let r = pack_step(cs, e, max);
    assert(seq![e].drop_last() == Seq::<Entry>::empty());
    if cs.len() > 0 && entries_cost(cs.last()) + entry_cost(e) <= max {
        assert(r.last().drop_last() == cs.last());
        assert forall|i: int| 0 <= i < r.len() - 1 implies entries_cost(#[trigger] r[i]) + entry_cost(
            r[i + 1][0],
        ) > max by {
            assert(r[i] == cs[i]);
            assert(r[i + 1][0] == cs[i + 1][0]);
        }
    } else {
        assert forall|i: int| 0 <= i < r.len() - 1 implies entries_cost(#[trigger] r[i]) + entry_cost(
            r[i + 1][0],
        ) > max by {
            assert(r[i] == cs[i]);
            if i < cs.len() - 1 {
                assert(r[i + 1] == cs[i + 1]);
            }
        }
    }
}

proof fn lemma_pack_step_small(cs: Seq<Seq<Entry>>, e: Entry, max: int)
    requires
        forall|i: int| 0 <= i < cs.len() ==> entries_cost(#[trigger] cs[i]) <= max,
        entry_cost(e) <= max,
    ensures
        forall|i: int|
            0 <= i < pack_step(cs, e, max).len() ==> entries_cost(#[trigger] pack_step(cs, e, max)[i])
                <= max,
{
    let r = pack_step(cs, e, max);
    assert(seq![e].drop_last() == Seq::<Entry>::empty());
    if cs.len() > 0 && entries_cost(cs.last()) + entry_cost(e) <= max {
        assert(r.last().drop_last() == cs.last());
    }
    assert forall|i: int| 0 <= i < r.len() implies entries_cost(#[trigger] r[i]) <= max by {
        if i < cs.len() - 1 || (i == cs.len() - 1 && r.len() > cs.len()) {
            assert(r[i] == cs[i]);
        } else if r.len() > cs.len() {
            assert(r[i] == seq![e]);
            assert(entries_cost(Seq::<Entry>::empty()) == 0);
            assert(seq![e].last() == e);
        } else {
            assert(r[i] == cs.last().push(e));
            assert(cs.last().push(e).last() == e);
        }
    }
}

/// A serialised chunk takes exactly the cost of its entries.
pub proof fn lemma_chunk_tree_len(s: Seq<Entry>, big_endian: bool)
    requires
        s.len() >= 1,
    ensures
        chunk_tree(s, big_endian).0.len() == entries_cost(s),
{
    lemma_flat_tree_len(s, 0, s.len() - 1, 0, big_endian);
    assert(s.subrange(0, s.len() as int) == s);
}

/// Chunk size bound: whatever entries are inserted, no chunk holds more than
/// `max` bytes unless it holds a single entry that alone is larger; if no
/// entry is larger than `max`, no chunk is. The bound is tight: every chunk
/// but the last was sealed only because the next entry would have taken it
/// over `max`.
pub proof fn lemma_chunk_size_bound(es: Seq<Entry>, max: int)
    ensures
        packing_bounds(packed(es, max), max),
        (forall|j: int| 0 <= j < es.len() ==> entry_cost(#[trigger] es[j]) <= max) ==> forall|i: int|
            0 <= i < packed(es, max).len() ==> entries_cost(#[trigger] packed(es, max)[i]) <= max,
    decreases es.len(),
{
    if es.len() > 0 {
        let prev = es.drop_last();
        lemma_chunk_size_bound(prev, max);
        lemma_pack_step_bounds(packed(prev, max), es.last(), max);
        if forall|j: int| 0 <= j < es.len() ==> entry_cost(#[trigger] es[j]) <= max {
            assert forall|j: int| 0 <= j < prev.len() implies entry_cost(#[trigger] prev[j]) <= max by {
                assert(prev[j] == es[j]);
            }
            assert(entry_cost(es[es.len() - 1]) <= max);
            lemma_pack_step_small(packed(prev, max), es.last(), max);
        }
    }
}

/// What the chunk size bound counts is what serialisation writes: each
/// packed chunk serialises to exactly its entries' cost in bytes.
pub proof fn lemma_packed_serialised_len(es: Seq<Entry>, max: int)
    ensures
        forall|i: int, big_endian: bool|
            0 <= i < packed(es, max).len() ==> #[trigger] chunk_tree(packed(es, max)[i], big_endian).0.len()
                == entries_cost(packed(es, max)[i]),
{
    assert forall|i: int, big_endian: bool| 0 <= i < packed(es, max).len() implies #[trigger] chunk_tree(
        packed(es, max)[i],
        big_endian,
    ).0.len() == entries_cost(packed(es, max)[i]) by {
        lemma_chunk_size_bound_nonempty(es, max, i);
        lemma_chunk_tree_len(packed(es, max)[i], big_endian);
    }
}

proof fn lemma_chunk_size_bound_nonempty(es: Seq<Entry>, max: int, i: int)
    requires
        0 <= i < packed(es, max).len(),
    ensures
        packed(es, max)[i].len() >= 1,
    decreases es.len(),
{
    if es.len() > 0 {
        let prev = packed(es.drop_last(), max);
        let cs = packed(es, max);
        if i < prev.len() {
            lemma_chunk_size_bound_nonempty(es.drop_last(), max, i);
            if i == prev.len() - 1 && cs.len() == prev.len() {
                assert(cs[i] == prev[i].push(es.last()));
            } else {
                assert(cs[i] == prev[i]);
            }
        } else {
            assert(cs[i] == seq![es.last()]);
        }
    }
}

/// Entries packed into chunks of at most `max_chunk_size` bytes each (an
/// entry larger than that alone takes a chunk of its own).
pub struct TreeChunks {
    chunks: Vec<Tree>,
    max_chunk_size: usize,
}

impl TreeChunks {
    pub closed spec fn view(&self) -> Seq<Seq<Entry>> {
        Seq::new(self.chunks@.len(), |i: int| self.chunks@[i].entries())
    }

    pub closed spec fn max(&self) -> int {
        self.max_chunk_size as int
    }

    pub closed spec fn wf(&self) -> bool {
        &&& forall|i: int| 0 <= i < self.chunks@.len() ==> (#[trigger] self.chunks@[i]).wf()
        &&& packing_bounds(self.view(), self.max())
        &&& self.max() <= MAX_OFFSET
        &&& forall|i: int|
            0 <= i < self.chunks@.len() ==> entries_cost(#[trigger] self.view()[i]) <= MAX_OFFSET
    }

    pub proof fn lemma_bounds(&self)
        requires
            self.wf(),
        ensures
            packing_bounds(self.view(), self.max()),
            self.max() <= MAX_OFFSET,
    {
    }

    pub fn new(max_chunk_size: usize) -> (r: TreeChunks)
        requires
            max_chunk_size <= MAX_OFFSET,
        ensures
            r.wf(),
            r.view() == Seq::<Seq<Entry>>::empty(),
            r.max() == max_chunk_size,
    {
        let r = TreeChunks { chunks: Vec::new(), max_chunk_size };
        assert(r.view() == Seq::<Seq<Entry>>::empty());
        r
    }

    pub fn len(&self) -> (r: usize)
        ensures
            r == self.view().len(),
    {
        self.chunks.len()
    }

    /// Appends an entry to the open chunk, or seals it and opens a new one
    /// when the entry would take it over the size bound. Returns whether a
    /// new chunk was opened.
    pub fn insert(&mut self, key: &[u8], value: Vec<u8>) -> (opened: bool)
        requires
            old(self).wf(),
            entry_cost((key@, value@)) <= MAX_OFFSET,
        ensures
            final(self).wf(),
            final(self).max() == old(self).max(),
            final(self).view() == pack_step(old(self).view(), (key@, value@), old(self).max()),
            opened == (final(self).view().len() == old(self).view().len() + 1),
    {
        let ghost old_view = self.view();
        let ghost e = (key@, value@);
        let cost = key.len() + 12 + value.len();
        let n = self.chunks.len();
        let fits = n > 0 && cost <= self.max_chunk_size && self.chunks[n - 1].serialised_len
            <= self.max_chunk_size - cost;
        if fits {
            let mut last = self.chunks.pop().unwrap();
            proof {
                assert(last == old(self).chunks@[n - 1]);
                assert(old_view[n - 1] == last.entries());
            }
            last.insert(key, value, cost);
            self.chunks.push(last);
            proof {
                let nv = old_view.update(n - 1, old_view.last().push(e));
                assert(self.view() =~= nv);
                assert forall|i: int| 0 <= i < self.chunks@.len() implies (
                #[trigger] self.chunks@[i]).wf() by {
                    if i < n - 1 {
                        assert(self.chunks@[i] == old(self).chunks@[i]);
                    }
                }
                assert(nv.last().drop_last() == old_view.last());
            }
            false
        } else {
            let mut t = Tree::new();
            t.insert(key, value, cost);
            self.chunks.push(t);
            proof {
                let nv = old_view.push(seq![e]);
                assert(t.entries() == seq![e]);
                assert(self.view() =~= nv);
                assert(seq![e].drop_last() == Seq::<Entry>::empty());
                assert forall|i: int| 0 <= i < self.chunks@.len() implies (
                #[trigger] self.chunks@[i]).wf() by {
                    if i < n {
                        assert(self.chunks@[i] == old(self).chunks@[i]);
                    }
                }
            }
            true
        }
    }

    /// Serialises chunk `i`: its bytes and the offset of its root node.
    pub fn serialise_chunk(&self, i: usize, big_endian: bool) -> (r: (u32, Vec<u8>))
        requires
            self.wf(),
            i < self.view().len(),
        ensures
            r.1@ == chunk_tree(self.view()[i as int], big_endian).0,
            r.0 as int == chunk_tree(self.view()[i as int], big_endian).1,
    {
        let t = &self.chunks[i];
        proof {
            assert(self.view()[i as int] == t.entries());
            assert(self.view()[i as int].len() > 0);
        }
        t.serialise(big_endian)
    }
}

} // verus!
