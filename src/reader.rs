//! Readers of the NUL-framed ingestion streams.
use vstd::prelude::*;

verus! {

/// The fatal conditions of a build.
#[derive(Debug, Clone, Copy, PartialEq, Eq, Structural)]
pub enum BuildError {
    /// The ingestion stream is malformed (a term or document left
    /// unterminated, or document ids out of order).
    FormatError,
    /// A document id, term id or value exceeds what the 32-bit encodings can
    /// hold.
    CapacityExceeded,
    /// The corpus has fewer distinct terms than the build requires.
    CorpusTooSmall,
}

/// A `(document id, term)` pair.
pub type Pair = (nat, Seq<u8>);

/// What reading `s` from the start leaves: the pairs emitted, the current
/// document id and the bytes of the term being read. A NUL ends the current
/// term, or, right after another NUL or at the start, the current document.
pub open spec fn scan_terms(s: Seq<u8>) -> (Seq<Pair>, nat, Seq<u8>)
    decreases s.len(),
{
    if s.len() == 0 {
        (seq![], 0, seq![])
    } else {
        let st = scan_terms(s.drop_last());
        let b = s.last();
        if b == 0 {
            if st.2.len() == 0 {
                (st.0, st.1 + 1, st.2)
            } else {
                (st.0.push((st.1, st.2)), st.1, seq![])
            }
        } else {
            (st.0, st.1, st.2.push(b))
        }
    }
}

/// The pairs of a document-terms stream, or none if it ends inside a term.
pub open spec fn parse_terms(s: Seq<u8>) -> Option<Seq<Pair>> {
    let st = scan_terms(s);
    if st.2.len() > 0 {
        None
    } else {
        Some(st.0)
    }
}

/// What reading `s` from the start leaves: the values completed so far and
/// the bytes of the value being read. Each NUL ends a value.
pub open spec fn scan_values(s: Seq<u8>) -> (Seq<Seq<u8>>, Seq<u8>)
    decreases s.len(),
{
    if s.len() == 0 {
        (seq![], seq![])
    } else {
        let st = scan_values(s.drop_last());
        let b = s.last();
        if b == 0 {
            (st.0.push(st.1), seq![])
        } else {
            (st.0, st.1.push(b))
        }
    }
}

/// The values of a NUL-terminated stream, or none if the last one is left
/// unterminated.
pub open spec fn parse_values(s: Seq<u8>) -> Option<Seq<Seq<u8>>> {
    let st = scan_values(s);
    if st.1.len() > 0 {
        None
    } else {
        Some(st.0)
    }
}

pub open spec fn pairs_view(v: Seq<(usize, Vec<u8>)>) -> Seq<Pair> {
    v.map_values(|p: (usize, Vec<u8>)| (p.0 as nat, p.1@))
}

pub open spec fn values_view(v: Seq<Vec<u8>>) -> Seq<Seq<u8>> {
    v.map_values(|p: Vec<u8>| p@)
}

proof fn lemma_scan_terms_doc(s: Seq<u8>)
    ensures
        scan_terms(s).1 <= s.len(),
    decreases s.len(),
{
    if s.len() > 0 {
        lemma_scan_terms_doc(s.drop_last());
    }
}

/// The document ids of the pairs never decrease, and none is past the
/// current document.
pub proof fn lemma_scan_terms_ordered(s: Seq<u8>)
    ensures
        forall|i: int|
            0 < i < scan_terms(s).0.len() ==> scan_terms(s).0[i - 1].0 <= #[trigger] scan_terms(
                s,
            ).0[i].0,
        forall|i: int| 0 <= i < scan_terms(s).0.len() ==> #[trigger] scan_terms(s).0[i].0 <= scan_terms(s).1,
    decreases s.len(),
{
    if s.len() > 0 {
        lemma_scan_terms_ordered(s.drop_last());
        let st = scan_terms(s.drop_last());
        let r = scan_terms(s);
        assert forall|i: int| 0 <= i < r.0.len() implies #[trigger] r.0[i].0 <= r.1 by {
            if i < st.0.len() {
                assert(r.0[i] == st.0[i]);
            }
        }
        assert forall|i: int| 0 < i < r.0.len() implies r.0[i - 1].0 <= #[trigger] r.0[i].0 by {
            if i < st.0.len() {
                assert(r.0[i] == st.0[i]);
                assert(r.0[i - 1] == st.0[i - 1]);
            } else {
                assert(r.0[i - 1] == st.0[i - 1]);
            }
        }
    }
}

/// Reads a document-terms stream: terms end with a NUL, and an empty term
/// (a NUL right after another, or at the start) ends the current document.
/// The last document needs no end marker. Fails with `FormatError` exactly
/// when the stream ends inside a term.
pub fn read_document_terms(data: &[u8]) -> (r: Result<Vec<(usize, Vec<u8>)>, BuildError>)
    ensures
        match r {
            Ok(v) => parse_terms(data@) == Some(pairs_view(v@)),
            Err(e) => parse_terms(data@).is_none() && e == BuildError::FormatError,
        },
{
    let mut pairs: Vec<(usize, Vec<u8>)> = Vec::new();
    let mut doc: usize = 0;
    let mut cur: Vec<u8> = Vec::new();
    let mut i: usize = 0;
    while i < data.len()
        invariant
            i <= data@.len(),
            scan_terms(data@.subrange(0, i as int)) == (pairs_view(pairs@), doc as nat, cur@),
        decreases data@.len() - i,
    {
        let b = data[i];
        let ghost prefix = data@.subrange(0, i + 1);
        proof {
            assert(prefix.drop_last() == data@.subrange(0, i as int));
            assert(prefix.last() == b);
            lemma_scan_terms_doc(data@.subrange(0, i as int));
        }
        if b == 0 {
            if cur.len() == 0 {
                doc = doc + 1;
            } else {
                let term = cur;
                cur = Vec::new();
                let ghost before = pairs@;
                pairs.push((doc, term));
                proof {
                    assert(pairs_view(pairs@) =~= pairs_view(before).push((doc as nat, term@)));
                    assert(cur@ =~= Seq::<u8>::empty());
                }
            }
        } else {
            cur.push(b);
        }
        i = i + 1;
    }
    assert(data@.subrange(0, i as int) == data@);
    if cur.len() > 0 {
        Err(BuildError::FormatError)
    } else {
        Ok(pairs)
    }
}

/// Reads a stream of NUL-terminated values, one per document in order.
/// Fails with `FormatError` exactly when the last value is unterminated.
pub fn read_documents(data: &[u8]) -> (r: Result<Vec<Vec<u8>>, BuildError>)
    ensures
        match r {
            Ok(v) => parse_values(data@) == Some(values_view(v@)),
            Err(e) => parse_values(data@).is_none() && e == BuildError::FormatError,
        },
{
    let mut values: Vec<Vec<u8>> = Vec::new();
    let mut cur: Vec<u8> = Vec::new();
    let mut i: usize = 0;
    while i < data.len()
        invariant
            i <= data@.len(),
            scan_values(data@.subrange(0, i as int)) == (values_view(values@), cur@),
        decreases data@.len() - i,
    {
        let b = data[i];
        let ghost prefix = data@.subrange(0, i + 1);
        proof {
            assert(prefix.drop_last() == data@.subrange(0, i as int));
            assert(prefix.last() == b);
        }
        if b == 0 {
            let value = cur;
            cur = Vec::new();
            let ghost before = values@;
            values.push(value);
            proof {
                assert(values_view(values@) =~= values_view(before).push(value@));
                assert(cur@ =~= Seq::<u8>::empty());
            }
        } else {
            cur.push(b);
        }
        i = i + 1;
    }
    assert(data@.subrange(0, i as int) == data@);
    if cur.len() > 0 {
        Err(BuildError::FormatError)
    } else {
        Ok(values)
    }
}

} // verus!
