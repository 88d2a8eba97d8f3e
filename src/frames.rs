//! Length-prefixed framing of a chunk collection: each chunk is written as
//! its length (a big-endian `u32`) followed by its bytes.
use crate::endian::{append_bytes, be32, from_be32, push_u32_be, read_u32_be};
use crate::reader::BuildError;
use vstd::prelude::*;
use vstd::slice::slice_subrange;

verus! {

/// The framed form of `cs`.
pub open spec fn framed(cs: Seq<Seq<u8>>) -> Seq<u8>
    decreases cs.len(),
{
    if cs.len() == 0 {
        seq![]
    } else {
        be32(cs[0].len() as u32) + cs[0] + framed(cs.drop_first())
    }
}

/// The chunks that `s` frames, or none if it ends inside a frame.
pub open spec fn unframed(s: Seq<u8>) -> Option<Seq<Seq<u8>>>
    decreases s.len(),
{
    if s.len() == 0 {
        Some(seq![])
    } else if s.len() < 4 {
        None
    } else {
        let l = from_be32(s) as int;
        if s.len() < 4 + l {
            None
        } else {
            match unframed(s.subrange(4 + l, s.len() as int)) {
                Some(rest) => Some(seq![s.subrange(4, 4 + l)] + rest),
                None => None,
            }
        }
    }
}

/// Every chunk's length fits in a `u32`.
pub open spec fn frameable(cs: Seq<Seq<u8>>) -> bool {
    forall|i: int| 0 <= i < cs.len() ==> (#[trigger] cs[i]).len() <= u32::MAX
}

pub proof fn lemma_be32_round_trip(x: u32)
    ensures
        from_be32(be32(x)) == x,
        be32(x).len() == 4,
{
    let b = be32(x);
    assert(b[0] as int == x / 16777216);
    assert(b[1] as int == (x / 65536) % 256);
    assert(b[2] as int == (x / 256) % 256);
    assert(b[3] as int == x % 256);
    assert((x / 16777216) * 16777216 + ((x / 65536) % 256) * 65536 + ((x / 256) % 256) * 256 + x
        % 256 == x) by (nonlinear_arith);
}

proof fn lemma_framed_push(cs: Seq<Seq<u8>>, c: Seq<u8>)
    ensures
        framed(cs.push(c)) == framed(cs) + be32(c.len() as u32) + c,
    decreases cs.len(),
{
    if cs.len() == 0 {
        assert(cs.push(c).drop_first() == Seq::<Seq<u8>>::empty());
        assert(cs.push(c)[0] == c);
        assert(framed(Seq::<Seq<u8>>::empty()) == Seq::<u8>::empty());
        assert(framed(cs.push(c)) == be32(c.len() as u32) + c + Seq::<u8>::empty());
        assert(be32(c.len() as u32) + c + Seq::<u8>::empty() == be32(c.len() as u32) + c);
    } else {
        lemma_framed_push(cs.drop_first(), c);
        assert(cs.push(c).drop_first() == cs.drop_first().push(c));
        assert(cs.push(c)[0] == cs[0]);
    }
}

/// Reading back a framed collection gives the same chunks, in the same
/// order.
pub proof fn lemma_frames_round_trip(cs: Seq<Seq<u8>>)
    requires
        frameable(cs),
    ensures
        unframed(framed(cs)) == Some(cs),
    decreases cs.len(),
{
    if cs.len() > 0 {
        let c = cs[0];
        let rest = cs.drop_first();
        assert(frameable(rest)) by {
            assert forall|i: int| 0 <= i < rest.len() implies (#[trigger] rest[i]).len()
                <= u32::MAX by {
                assert(rest[i] == cs[i + 1]);
            }
        }
        lemma_frames_round_trip(rest);
        lemma_be32_round_trip(c.len() as u32);
        let s = framed(cs);
        let h = be32(c.len() as u32);
        assert(s == h + c + framed(rest));
        assert(s.subrange(0, 4) == h);
        assert(from_be32(s) == from_be32(h));
        assert(s.subrange(4, 4 + c.len() as int) == c);
        assert(s.subrange(4 + c.len() as int, s.len() as int) == framed(rest));
        assert(seq![c] + rest == cs);
    }
}

/// Frames a chunk collection for storage as one object.
pub fn write_chunks(chunks: &Vec<Vec<u8>>) -> (r: Vec<u8>)
    requires
        frameable(chunks@.map_values(|c: Vec<u8>| c@)),
    ensures
        r@ == framed(chunks@.map_values(|c: Vec<u8>| c@)),
{
    let ghost cs = chunks@.map_values(|c: Vec<u8>| c@);
    let mut out: Vec<u8> = Vec::new();
    let mut i: usize = 0;
    assert(cs.subrange(0, 0) == Seq::<Seq<u8>>::empty());
    while i < chunks.len()
        invariant
            cs == chunks@.map_values(|c: Vec<u8>| c@),
            frameable(cs),
            i <= cs.len(),
            out@ == framed(cs.subrange(0, i as int)),
        decreases cs.len() - i,
    {
        let c = &chunks[i];
        assert(cs[i as int] == c@);
        assert(c@.len() <= u32::MAX);
        push_u32_be(&mut out, c.len() as u32);
        append_bytes(&mut out, c.as_slice());
        proof {
            lemma_framed_push(cs.subrange(0, i as int), c@);
            assert(cs.subrange(0, i + 1) == cs.subrange(0, i as int).push(c@));
        }
        i = i + 1;
    }
    assert(cs.subrange(0, i as int) == cs);
    out
}

/// Reads the chunks of a framed collection, in order. Fails with
/// `FormatError` exactly when the data ends inside a frame.
pub fn read_chunks(data: &[u8]) -> (r: Result<Vec<Vec<u8>>, BuildError>)
    ensures
        match r {
            Ok(v) => unframed(data@) == Some(v@.map_values(|c: Vec<u8>| c@)),
            Err(e) => unframed(data@).is_none() && e == BuildError::FormatError,
        },
{
    let mut chunks: Vec<Vec<u8>> = Vec::new();
    let mut i: usize = 0;
    let n = data.len();
    assert(data@.subrange(0, n as int) == data@);
    proof {
        match unframed(data@) {
            Some(rest) => {
                assert(chunks@.map_values(|c: Vec<u8>| c@) + rest == rest);
            },
            None => {},
        }
    }
    while i < n
        invariant
            n == data@.len(),
            i <= n,
            unframed(data@) == match unframed(data@.subrange(i as int, n as int)) {
                Some(rest) => Some(chunks@.map_values(|c: Vec<u8>| c@) + rest),
                None => None::<Seq<Seq<u8>>>,
            },
        decreases n - i,
    {
        let ghost s = data@.subrange(i as int, n as int);
        if n - i < 4 {
            return Err(BuildError::FormatError);
        }
        let head = slice_subrange(data, i, i + 4);
        let l = read_u32_be(head) as usize;
        assert(from_be32(head@) == from_be32(s));
        if n - i - 4 < l {
            return Err(BuildError::FormatError);
        }
        let body = slice_subrange(data, i + 4, i + 4 + l);
        let mut c: Vec<u8> = Vec::new();
        append_bytes(&mut c, body);
        let ghost before = chunks@.map_values(|c: Vec<u8>| c@);
        chunks.push(c);
        proof {
            assert(s.subrange(4, 4 + l) == body@);
            assert(s.subrange(4 + l, s.len() as int) == data@.subrange(i + 4 + l, n as int));
            assert(chunks@.map_values(|c: Vec<u8>| c@) == before.push(body@));
            match unframed(data@.subrange(i + 4 + l, n as int)) {
                Some(rest) => {
                    assert(before + (seq![body@] + rest) == before.push(body@) + rest);
                },
                None => {},
            }
        }
        i = i + 4 + l;
    }
    assert(data@.subrange(i as int, n as int) == Seq::<u8>::empty());
    assert(chunks@.map_values(|c: Vec<u8>| c@) + Seq::<Seq<u8>>::empty() == chunks@.map_values(
        |c: Vec<u8>| c@,
    ));
    Ok(chunks)
}

} // verus!
