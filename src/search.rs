//! How a reader finds a key in a serialised chunk, with nothing but the
//! bytes and the root offset, and the proof that it finds exactly the keys
//! that were packed.
use crate::endian::{from_be32, le32};
use crate::order::{lemma_lex_asymmetric, lex_lt};
use crate::tree::{
    chunk_tree, child_field, entries_cost, entry_cost, field, flat_tree, lemma_flat_tree_len, mid,
    node_bytes, Entry, MAX_OFFSET,
};
use vstd::prelude::*;

verus! {

/// The little-endian integer in `b[0..4]`.
pub open spec fn from_le32(b: Seq<u8>) -> int {
    b[0] as int + 256 * b[1] as int + 65536 * b[2] as int + 16777216 * b[3] as int
}

/// A child offset as stored: all ones stands for no child.
/// A 4-byte field in the chosen byte order, as an integer.
pub open spec fn read_field(b: Seq<u8>, be: bool) -> int {
    if be {
        from_be32(b) as int
    } else {
        from_le32(b)
    }
}

pub open spec fn child_of(v: int) -> int {
    if v == 0xffff_ffff {
        -1
    } else {
        v
    }
}

/// A key that starts with the length of the rest, as term keys do.
pub open spec fn prefixed_key(k: Seq<u8>) -> bool {
    k.len() >= 1 && k[0] as int == k.len() - 1
}

/// The shape of a key: a four-byte document id when `ids`, else a
/// length-prefixed term.
pub open spec fn key_shape(k: Seq<u8>, ids: bool) -> bool {
    if ids {
        k.len() == 4
    } else {
        prefixed_key(k)
    }
}

/// The length of the key of the node at `pos`, as a reader learns it.
pub open spec fn key_len(buf: Seq<u8>, pos: int, ids: bool) -> int {
    if ids {
        4
    } else {
        buf[pos] as int + 1
    }
}

/// The order of keys: document ids by value (read in the byte order `be`
/// says), terms by the bytes after the length.
pub open spec fn key_lt(a: Seq<u8>, b: Seq<u8>, ids: bool, be: bool) -> bool {
    if ids {
        read_field(a, be) < read_field(b, be)
    } else {
        lex_lt(a.drop_first(), b.drop_first())
    }
}

/// Binary search for `key` from the node at `pos` of a chunk with fields in
/// the byte order `be` says (and keys as `ids` says): the value on a match,
/// else on to the left child for a smaller key or the right child for a
/// larger one, and none at a missing child or a malformed node.
pub open spec fn find(buf: Seq<u8>, pos: int, key: Seq<u8>, ids: bool, be: bool) -> Option<
    Seq<u8>,
>
    decreases pos + 1,
{
    if pos < 0 || pos >= buf.len() {
        None
    } else {
        let f = pos + key_len(buf, pos, ids);
        if f + 12 > buf.len() {
            None
        } else {
            let k = buf.subrange(pos, f);
            let left = child_of(read_field(buf.subrange(f, f + 4), be));
            let right = child_of(read_field(buf.subrange(f + 4, f + 8), be));
            let vlen = read_field(buf.subrange(f + 8, f + 12), be);
            if key == k {
                if f + 12 + vlen <= buf.len() {
                    Some(buf.subrange(f + 12, f + 12 + vlen))
                } else {
                    None
                }
            } else if key_lt(key, k, ids, be) {
                if left < pos {
                    find(buf, left, key, ids, be)
                } else {
                    None
                }
            } else {
                if right < pos {
                    find(buf, right, key, ids, be)
                } else {
                    None
                }
            }
        }
    }
}

/// Keys have the shape `ids` says and are strictly ascending.
pub open spec fn searchable(s: Seq<Entry>, ids: bool, be: bool) -> bool {
    &&& forall|i: int| 0 <= i < s.len() ==> key_shape(#[trigger] s[i].0, ids)
    &&& forall|i: int, j: int|
        0 <= i < j < s.len() ==> key_lt(#[trigger] s[i].0, #[trigger] s[j].0, ids, be)
}

pub proof fn lemma_le32_round_trip(x: u32)
    ensures
        from_le32(le32(x)) == x as int,
        le32(x).len() == 4,
{
    let b = le32(x);
    assert(b[0] as int == x % 256);
    assert(b[1] as int == (x / 256) % 256);
    assert(b[2] as int == (x / 65536) % 256);
    assert(b[3] as int == x / 16777216);
    assert(x % 256 + 256 * ((x / 256) % 256) + 65536 * ((x / 65536) % 256) + 16777216 * (x
        / 16777216) == x) by (nonlinear_arith);
}

proof fn lemma_field_round_trip(x: u32, be: bool)
    ensures
        read_field(field(x, be), be) == x as int,
        field(x, be).len() == 4,
{
    lemma_le32_round_trip(x);
    crate::frames::lemma_be32_round_trip(x);
}

proof fn lemma_child_round_trip(p: int, be: bool)
    requires
        -1 <= p < MAX_OFFSET,
    ensures
        child_of(read_field(field(child_field(p), be), be)) == p,
{
    lemma_field_round_trip(child_field(p), be);
}

/// The fields of a node, read back from the buffer that holds it at `p`.
proof fn lemma_node_decode(buf: Seq<u8>, p: int, e: Entry, lp: int, rp: int, ids: bool, be: bool)
    requires
        0 <= p,
        p + entry_cost(e) <= buf.len(),
        buf.subrange(p, p + entry_cost(e)) == node_bytes(e, lp, rp, be),
        key_shape(e.0, ids),
        -1 <= lp < MAX_OFFSET,
        -1 <= rp < MAX_OFFSET,
        e.1.len() <= u32::MAX,
    ensures
        ({
            let f = p + key_len(buf, p, ids);
            &&& f == p + e.0.len()
            &&& f + 12 + e.1.len() <= buf.len()
            &&& buf.subrange(p, f) == e.0
            &&& child_of(read_field(buf.subrange(f, f + 4), be)) == lp
            &&& child_of(read_field(buf.subrange(f + 4, f + 8), be)) == rp
            &&& read_field(buf.subrange(f + 8, f + 12), be) == e.1.len()
            &&& buf.subrange(f + 12, f + 12 + e.1.len()) == e.1
        }),
{
    let node = node_bytes(e, lp, rp, be);
    let kl = e.0.len() as int;
    assert(node.len() == entry_cost(e));
    assert(buf[p] == node[0]);
    assert(node.subrange(0, kl) == e.0);
    assert(node.subrange(kl, kl + 4) == field(child_field(lp), be));
    assert(node.subrange(kl + 4, kl + 8) == field(child_field(rp), be));
    assert(node.subrange(kl + 8, kl + 12) == field(e.1.len() as u32, be));
    assert(node.subrange(kl + 12, kl + 12 + e.1.len()) == e.1);
    lemma_child_round_trip(lp, be);
    lemma_child_round_trip(rp, be);
    lemma_field_round_trip(e.1.len() as u32, be);
    let f = p + kl;
    assert(buf.subrange(p, f) == node.subrange(0, kl));
    assert(buf.subrange(f, f + 4) == node.subrange(kl, kl + 4));
    assert(buf.subrange(f + 4, f + 8) == node.subrange(kl + 4, kl + 8));
    assert(buf.subrange(f + 8, f + 12) == node.subrange(kl + 8, kl + 12));
    assert(buf.subrange(f + 12, f + 12 + e.1.len()) == node.subrange(kl + 12, kl + 12 + e.1.len()));
}

/// Where the parts of the subtree over `s[lo..=hi]` lie in the buffer.
proof fn lemma_subtree_parts(s: Seq<Entry>, lo: int, hi: int, base: int, buf: Seq<u8>, be: bool)
    requires
        0 <= lo <= hi < s.len(),
        0 <= base,
        base + entries_cost(s.subrange(lo, hi + 1)) <= buf.len(),
        buf.subrange(base, base + entries_cost(s.subrange(lo, hi + 1))) == flat_tree(
            s,
            lo,
            hi,
            base,
            be,
        ).0,
    ensures
        ({
            let m = mid(lo, hi);
            let left = flat_tree(s, lo, m - 1, base, be);
            let right = flat_tree(s, m + 1, hi, base + left.0.len(), be);
            let p = flat_tree(s, lo, hi, base, be).1;
            &&& p == base + left.0.len() + right.0.len()
            &&& p + entry_cost(s[m]) <= buf.len()
            &&& entry_cost(s[m]) <= entries_cost(s.subrange(lo, hi + 1))
            &&& buf.subrange(p, p + entry_cost(s[m])) == node_bytes(s[m], left.1, right.1, be)
            &&& lo <= m - 1 ==> base <= left.1 < base + left.0.len()
            &&& lo <= m - 1 ==> left.0.len() == entries_cost(s.subrange(lo, m))
            &&& lo <= m - 1 ==> buf.subrange(base, base + left.0.len()) == left.0
            &&& m - 1 < lo ==> left.1 == -1 && left.0.len() == 0
            &&& m + 1 <= hi ==> base + left.0.len() <= right.1 < p
            &&& m + 1 <= hi ==> right.0.len() == entries_cost(s.subrange(m + 1, hi + 1))
            &&& m + 1 <= hi ==> buf.subrange(base + left.0.len(), p) == right.0
            &&& hi < m + 1 ==> right.1 == -1
        }),
{
    let m = mid(lo, hi);
    let left = flat_tree(s, lo, m - 1, base, be);
    let right = flat_tree(s, m + 1, hi, base + left.0.len(), be);
    let node = node_bytes(s[m], left.1, right.1, be);
    let t = flat_tree(s, lo, hi, base, be);
    lemma_flat_tree_len(s, lo, hi, base, be);
    lemma_flat_tree_len(s, lo, m - 1, base, be);
    lemma_flat_tree_len(s, m + 1, hi, base + left.0.len(), be);
    crate::tree::lemma_split_cost(s, lo, m, hi);
    assert(t.0 == left.0 + right.0 + node);
    assert(node.len() == entry_cost(s[m]));
    let ll = left.0.len() as int;
    let rl = right.0.len() as int;
    let cost = entries_cost(s.subrange(lo, hi + 1));
    assert(buf.subrange(base + ll + rl, base + ll + rl + entry_cost(s[m])) == t.0.subrange(
        ll + rl,
        cost,
    ));
    assert(t.0.subrange(ll + rl, cost) == node);
    assert(buf.subrange(base, base + ll) == t.0.subrange(0, ll));
    assert(t.0.subrange(0, ll) == left.0);
    assert(buf.subrange(base + ll, base + ll + rl) == t.0.subrange(ll, ll + rl));
    assert(t.0.subrange(ll, ll + rl) == right.0);
}

/// What `find` gives from the root of the subtree over `s[lo..=hi]`, which
/// lies in `buf` at `base`.
#[verifier::rlimit(60)]
proof fn lemma_find_subtree(
    s: Seq<Entry>,
    lo: int,
    hi: int,
    base: int,
    buf: Seq<u8>,
    key: Seq<u8>,
    ids: bool,
    be: bool,
)
    requires
        searchable(s, ids, be),
        0 <= lo <= hi < s.len(),
        0 <= base,
        base + entries_cost(s.subrange(lo, hi + 1)) <= buf.len(),
        buf.len() <= MAX_OFFSET,
        buf.subrange(base, base + entries_cost(s.subrange(lo, hi + 1))) == flat_tree(
            s,
            lo,
            hi,
            base,
            be,
        ).0,
    ensures
        forall|i: int|
            lo <= i <= hi && #[trigger] s[i].0 == key ==> find(
                buf,
                flat_tree(s, lo, hi, base, be).1,
                key,
                ids,
                be,
            ) == Some(s[i].1),
        (forall|i: int| lo <= i <= hi ==> #[trigger] s[i].0 != key) ==> find(
            buf,
            flat_tree(s, lo, hi, base, be).1,
            key,
            ids,
            be,
        ) == None::<Seq<u8>>,
    decreases hi - lo,
{
    let m = mid(lo, hi);
    let left = flat_tree(s, lo, m - 1, base, be);
    let right = flat_tree(s, m + 1, hi, base + left.0.len(), be);
    let p = flat_tree(s, lo, hi, base, be).1;
    let e = s[m];
    lemma_subtree_parts(s, lo, hi, base, buf, be);
    lemma_node_decode(buf, p, e, left.1, right.1, ids, be);
    if lo <= m - 1 {
        lemma_find_subtree(s, lo, m - 1, base, buf, key, ids, be);
    }
    if m + 1 <= hi {
        lemma_find_subtree(s, m + 1, hi, base + left.0.len(), buf, key, ids, be);
    }
    assert(find(buf, -1, key, ids, be) == None::<Seq<u8>>);
    assert forall|i: int| lo <= i <= hi && #[trigger] s[i].0 == key implies find(buf, p, key, ids, be) == Some(
        s[i].1,
    ) by {
        if i < m {
            assert(key_lt(s[i].0, s[m].0, ids, be));
            lemma_lex_asymmetric(s[i].0.drop_first(), s[m].0.drop_first());
        } else if i > m {
            assert(key_lt(s[m].0, s[i].0, ids, be));
            lemma_lex_asymmetric(s[i].0.drop_first(), s[m].0.drop_first());
        }
    }
}

/// Tree search: in a chunk serialised (in either byte order) from entries
/// whose keys are document ids or length-prefixed terms (as `ids` says), in
/// strictly ascending order, searching from the root finds every packed key
/// with its exact value, and finds nothing for a key that was not packed.
pub proof fn lemma_tree_search(s: Seq<Entry>, key: Seq<u8>, ids: bool, be: bool)
    requires
        s.len() >= 1,
        searchable(s, ids, be),
        entries_cost(s) <= MAX_OFFSET,
    ensures
        forall|i: int|
            0 <= i < s.len() && #[trigger] s[i].0 == key ==> find(
                chunk_tree(s, be).0,
                chunk_tree(s, be).1,
                key,
                ids,
                be,
            ) == Some(s[i].1),
        (forall|i: int| 0 <= i < s.len() ==> #[trigger] s[i].0 != key) ==> find(
            chunk_tree(s, be).0,
            chunk_tree(s, be).1,
            key,
            ids,
            be,
        ) == None::<Seq<u8>>,
{
    let t = chunk_tree(s, be);
    assert(s.subrange(0, s.len() as int) == s);
    lemma_flat_tree_len(s, 0, s.len() - 1, 0, be);
    assert(t.0.subrange(0, t.0.len() as int) == t.0);
    lemma_find_subtree(s, 0, s.len() - 1, 0, t.0, key, ids, be);
}

} // verus!
