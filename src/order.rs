//! Byte-string order and a merge sort of term ids.
use vstd::prelude::*;
use vstd::seq_lib::group_to_multiset_ensures;

verus! {

broadcast use group_to_multiset_ensures;

/// Lexicographic order on byte strings: `a` is a proper prefix of `b`, or
/// at the first byte where they differ `a` holds the smaller one.
pub open spec fn lex_lt(a: Seq<u8>, b: Seq<u8>) -> bool
    decreases a.len(),
{
    if a.len() == 0 {
        b.len() > 0
    } else if b.len() == 0 {
        false
    } else if a[0] != b[0] {
        a[0] < b[0]
    } else {
        lex_lt(a.drop_first(), b.drop_first())
    }
}

pub proof fn lemma_lex_asymmetric(a: Seq<u8>, b: Seq<u8>)
    ensures
        !(lex_lt(a, b) && lex_lt(b, a)),
    decreases a.len(),
{
    if a.len() > 0 && b.len() > 0 && a[0] == b[0] {
        lemma_lex_asymmetric(a.drop_first(), b.drop_first());
    }
}

/// Whether `a` sorts before `b`.
pub fn lex_less(a: &[u8], b: &[u8]) -> (r: bool)
    ensures
        r == lex_lt(a@, b@),
{
    let mut i: usize = 0;
    assert(a@.subrange(0, a@.len() as int) == a@);
    assert(b@.subrange(0, b@.len() as int) == b@);
    while i < a.len() && i < b.len() && a[i] == b[i]
        invariant
            i <= a@.len(),
            i <= b@.len(),
            lex_lt(a@, b@) == lex_lt(a@.subrange(i as int, a@.len() as int), b@.subrange(i as int, b@.len() as int)),
        decreases a@.len() - i,
    {
        proof {
            let sa = a@.subrange(i as int, a@.len() as int);
            let sb = b@.subrange(i as int, b@.len() as int);
            assert(sa.drop_first() == a@.subrange(i + 1, a@.len() as int));
            assert(sb.drop_first() == b@.subrange(i + 1, b@.len() as int));
        }
        i = i + 1;
    }
    proof {
        let sa = a@.subrange(i as int, a@.len() as int);
        let sb = b@.subrange(i as int, b@.len() as int);
        if i < a@.len() && i < b@.len() {
            assert(sa[0] == a@[i as int] && sb[0] == b@[i as int]);
        }
    }
    if i == a.len() {
        i < b.len()
    } else if i == b.len() {
        false
    } else {
        a[i] < b[i]
    }
}

/// The two orders in which term ids are sorted.
#[derive(Clone, Copy, PartialEq, Eq, Structural)]
pub enum TermOrder {
    /// Higher frequency first; equal frequencies by term bytes, descending.
    Popularity,
    /// Term bytes ascending.
    Bytes,
}

/// Whether term `a` may come before term `b` in `order`.
pub open spec fn precedes(
    order: TermOrder,
    terms: Seq<Seq<u8>>,
    freqs: Seq<usize>,
    a: usize,
    b: usize,
) -> bool {
    match order {
        TermOrder::Popularity => freqs[a as int] > freqs[b as int] || (freqs[a as int]
            == freqs[b as int] && !lex_lt(terms[a as int], terms[b as int])),
        TermOrder::Bytes => !lex_lt(terms[b as int], terms[a as int]),
    }
}

/// Each id may come before the next one.
pub open spec fn sorted_by(
    order: TermOrder,
    terms: Seq<Seq<u8>>,
    freqs: Seq<usize>,
    s: Seq<usize>,
) -> bool {
    forall|i: int| 0 < i < s.len() ==> #[trigger] precedes(order, terms, freqs, s[i - 1], s[i])
}

/// Every id is a valid term id.
pub open spec fn ids_below(s: Seq<usize>, n: int) -> bool {
    forall|i: int| 0 <= i < s.len() ==> #[trigger] s[i] < n
}

proof fn lemma_precedes_total(
    order: TermOrder,
    terms: Seq<Seq<u8>>,
    freqs: Seq<usize>,
    a: usize,
    b: usize,
)
    ensures
        precedes(order, terms, freqs, a, b) || precedes(order, terms, freqs, b, a),
{
    lemma_lex_asymmetric(terms[a as int], terms[b as int]);
}

fn precedes_exec(
    order: TermOrder,
    terms: &Vec<Vec<u8>>,
    freqs: &Vec<usize>,
    a: usize,
    b: usize,
) -> (r: bool)
    requires
        a < terms@.len(),
        b < terms@.len(),
        freqs@.len() == terms@.len(),
    ensures
        r == precedes(order, terms@.map_values(|t: Vec<u8>| t@), freqs@, a, b),
{
    let ghost tv = terms@.map_values(|t: Vec<u8>| t@);
    assert(tv[a as int] == terms@[a as int]@ && tv[b as int] == terms@[b as int]@);
    match order {
        TermOrder::Popularity => freqs[a] > freqs[b] || (freqs[a] == freqs[b] && !lex_less(
            terms[a].as_slice(),
            terms[b].as_slice(),
        )),
        TermOrder::Bytes => !lex_less(terms[b].as_slice(), terms[a].as_slice()),
    }
}

fn merge(
    order: TermOrder,
    terms: &Vec<Vec<u8>>,
    freqs: &Vec<usize>,
    a: Vec<usize>,
    b: Vec<usize>,
) -> (r: Vec<usize>)
    requires
        freqs@.len() == terms@.len(),
        ids_below(a@, terms@.len() as int),
        ids_below(b@, terms@.len() as int),
        sorted_by(order, terms@.map_values(|t: Vec<u8>| t@), freqs@, a@),
        sorted_by(order, terms@.map_values(|t: Vec<u8>| t@), freqs@, b@),
    ensures
        r@.to_multiset() == a@.to_multiset().add(b@.to_multiset()),
        ids_below(r@, terms@.len() as int),
        sorted_by(order, terms@.map_values(|t: Vec<u8>| t@), freqs@, r@),
{
    let ghost tv = terms@.map_values(|t: Vec<u8>| t@);
    let mut r: Vec<usize> = Vec::new();
    let mut i: usize = 0;
    let mut j: usize = 0;
    while i < a.len() || j < b.len()
        invariant
            freqs@.len() == terms@.len(),
            tv == terms@.map_values(|t: Vec<u8>| t@),
            ids_below(a@, terms@.len() as int),
            ids_below(b@, terms@.len() as int),
            sorted_by(order, tv, freqs@, a@),
            sorted_by(order, tv, freqs@, b@),
            i <= a@.len(),
            j <= b@.len(),
            r@.to_multiset() == a@.subrange(0, i as int).to_multiset().add(
                b@.subrange(0, j as int).to_multiset(),
            ),
            r@.len() == i + j,
            ids_below(r@, terms@.len() as int),
            sorted_by(order, tv, freqs@, r@),
            r@.len() > 0 && i < a@.len() ==> precedes(order, tv, freqs@, r@.last(), a@[i as int]),
            r@.len() > 0 && j < b@.len() ==> precedes(order, tv, freqs@, r@.last(), b@[j as int]),
        decreases a@.len() + b@.len() - i - j,
    {
        let take_a = if i == a.len() {
            false
        } else if j == b.len() {
            true
        } else {
            precedes_exec(order, terms, freqs, a[i], b[j])
        };
        let ghost r0 = r@;
        if take_a {
            r.push(a[i]);
            proof {
                assert(a@.subrange(0, i + 1) == a@.subrange(0, i as int).push(a@[i as int]));
            }
            i = i + 1;
            proof {
                if j < b@.len() {
                    lemma_precedes_total(order, tv, freqs@, a@[i - 1], b@[j as int]);
                }
                if i < a@.len() {
                    assert(precedes(order, tv, freqs@, a@[i - 1], a@[i as int]));
                }
                assert forall|k: int| 0 < k < r@.len() implies #[trigger] precedes(
                    order,
                    tv,
                    freqs@,
                    r@[k - 1],
                    r@[k],
                ) by {
                    if k < r@.len() - 1 {
                        assert(r@[k - 1] == r0[k - 1] && r@[k] == r0[k]);
                    }
                }
            }
        } else {
            r.push(b[j]);
            proof {
                assert(b@.subrange(0, j + 1) == b@.subrange(0, j as int).push(b@[j as int]));
            }
            j = j + 1;
            proof {
                if i < a@.len() {
                    lemma_precedes_total(order, tv, freqs@, a@[i as int], b@[j - 1]);
                }
                if j < b@.len() {
                    assert(precedes(order, tv, freqs@, b@[j - 1], b@[j as int]));
                }
                assert forall|k: int| 0 < k < r@.len() implies #[trigger] precedes(
                    order,
                    tv,
                    freqs@,
                    r@[k - 1],
                    r@[k],
                ) by {
                    if k < r@.len() - 1 {
                        assert(r@[k - 1] == r0[k - 1] && r@[k] == r0[k]);
                    }
                }
            }
        }
    }
    assert(a@.subrange(0, i as int) == a@);
    assert(b@.subrange(0, j as int) == b@);
    r
}

/// Sorts the ids `v[lo..hi]` in `order`.
pub fn sort_ids(
    order: TermOrder,
    terms: &Vec<Vec<u8>>,
    freqs: &Vec<usize>,
    v: &Vec<usize>,
    lo: usize,
    hi: usize,
) -> (r: Vec<usize>)
    requires
        freqs@.len() == terms@.len(),
        ids_below(v@, terms@.len() as int),
        lo <= hi <= v@.len(),
    ensures
        r@.to_multiset() == v@.subrange(lo as int, hi as int).to_multiset(),
        ids_below(r@, terms@.len() as int),
        sorted_by(order, terms@.map_values(|t: Vec<u8>| t@), freqs@, r@),
    decreases hi - lo,
{
    if hi - lo <= 1 {
        let mut r: Vec<usize> = Vec::new();
        if hi > lo {
            r.push(v[lo]);
            assert(v@.subrange(lo as int, hi as int) == seq![v@[lo as int]]);
        } else {
            assert(v@.subrange(lo as int, hi as int) == Seq::<usize>::empty());
        }
        assert(r@ == v@.subrange(lo as int, hi as int));
        r
    } else {
        let m = lo + (hi - lo) / 2;
        let a = sort_ids(order, terms, freqs, v, lo, m);
        let b = sort_ids(order, terms, freqs, v, m, hi);
        proof {
            vstd::seq_lib::lemma_multiset_commutative(
                v@.subrange(lo as int, m as int),
                v@.subrange(m as int, hi as int),
            );
            assert(v@.subrange(lo as int, m as int) + v@.subrange(m as int, hi as int) == v@.subrange(
                lo as int,
                hi as int,
            ));
        }
        merge(order, terms, freqs, a, b)
    }
}

} // verus!
