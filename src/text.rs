//! Decimal rendering and string escaping for the generated lookup tables.
use vstd::prelude::*;

verus! {

/// The decimal digits of `n`, most significant first, without leading zeros.
pub open spec fn decimal(n: nat) -> Seq<u8>
    decreases n,
{
    if n < 10 {
        seq![(48 + n) as u8]
    } else {
        decimal(n / 10).push((48 + n % 10) as u8)
    }
}

/// Every byte of `s` is ASCII.
pub open spec fn all_ascii(s: Seq<u8>) -> bool {
    forall|i: int| 0 <= i < s.len() ==> #[trigger] s[i] < 128
}

/// `s` as characters, one per byte.
pub open spec fn ascii_chars(s: Seq<u8>) -> Seq<char> {
    s.map_values(|b: u8| b as char)
}

/// `decimal(n)` with a comma before each group of three digits counted from
/// the right.
pub open spec fn grouped(d: Seq<u8>) -> Seq<u8>
    decreases d.len(),
{
    if d.len() <= 3 {
        d
    } else {
        grouped(d.subrange(0, d.len() - 3)) + seq![44u8] + d.subrange(d.len() - 3, d.len() as int)
    }
}

/// `s` with each newline written as `\n` and each double quote as `\"`.
pub open spec fn escaped(s: Seq<u8>) -> Seq<u8>
    decreases s.len(),
{
    if s.len() == 0 {
        seq![]
    } else {
        let last = s.last();
        escaped(s.drop_last()) + if last == 10 {
            seq![92u8, 110u8]
        } else if last == 34 {
            seq![92u8, 34u8]
        } else {
            seq![last]
        }
    }
}

proof fn lemma_decimal_ascii(n: nat)
    ensures
        all_ascii(decimal(n)),
        decimal(n).len() >= 1,
    decreases n,
{
    if n >= 10 {
        lemma_decimal_ascii(n / 10);
    }
}

/// Appends the decimal digits of `n`.
pub fn push_decimal(out: &mut Vec<u8>, n: u64)
    ensures
        final(out)@ == old(out)@ + decimal(n as nat),
    decreases n,
{
    if n < 10 {
        out.push((48 + n) as u8);
    } else {
        push_decimal(out, n / 10);
        out.push((48 + n % 10) as u8);
        assert(decimal(n as nat) == decimal((n / 10) as nat).push((48 + n % 10) as u8));
    }
}

/// Appends `s` with newlines and double quotes escaped by a backslash.
pub fn push_escaped(out: &mut Vec<u8>, s: &[u8])
    ensures
        final(out)@ == old(out)@ + escaped(s@),
{
    let ghost start = out@;
    let mut i: usize = 0;
    while i < s.len()
        invariant
            i <= s@.len(),
            out@ == start + escaped(s@.subrange(0, i as int)),
        decreases s@.len() - i,
    {
        let b = s[i];
        let ghost before = out@;
        if b == 10 {
            out.push(92);
            out.push(110);
        } else if b == 34 {
            out.push(92);
            out.push(34);
        } else {
            out.push(b);
        }
        proof {
            let p = s@.subrange(0, i + 1);
            assert(p.drop_last() == s@.subrange(0, i as int));
            assert(p.last() == b);
        }
        i = i + 1;
    }
    assert(s@.subrange(0, i as int) == s@);
}

/// Relies on `String::from_utf8`, which accepts every ASCII byte string and
/// maps each byte to the character of the same code.
#[verifier::external_body]
fn ascii_to_string(b: Vec<u8>) -> (r: String)
    requires
        all_ascii(b@),
    ensures
        r@ == ascii_chars(b@),
{
    String::from_utf8(b).unwrap()
}

/// `n` in decimal with thousands separated by commas (`1234567` gives
/// `1,234,567`).
pub fn number(n: u64) -> (r: String)
    ensures
        r@ == ascii_chars(grouped(decimal(n as nat))),
{
    let mut digits: Vec<u8> = Vec::new();
    push_decimal(&mut digits, n);
    proof {
        lemma_decimal_ascii(n as nat);
    }
    let ghost d = digits@;
    let len = digits.len();
    // The first group holds one to three digits, every later group three.
    let mut first: usize = len % 3;
    if first == 0 {
        first = 3;
    }
    let mut out: Vec<u8> = Vec::new();
    let mut i: usize = 0;
    while i < first
        invariant
            digits@ == d,
            len == d.len(),
            1 <= first <= 3,
            first <= len,
            (len - first) % 3 == 0,
            i <= first,
            out@ == d.subrange(0, i as int),
        decreases first - i,
    {
        out.push(digits[i]);
        i = i + 1;
        assert(out@ == d.subrange(0, i as int));
    }
    proof {
        lemma_grouped_prefix(d, first as int);
    }
    while i < len
        invariant
            digits@ == d,
            len == d.len(),
            1 <= first <= len,
            (len - first) % 3 == 0,
            first <= i <= len,
            (i - first) % 3 == 0,
            out@ == grouped(d.subrange(0, i as int)),
            all_ascii(d),
        decreases len - i,
    {
        let ghost prev = d.subrange(0, i as int);
        out.push(44);
        out.push(digits[i]);
        out.push(digits[i + 1]);
        out.push(digits[i + 2]);
        proof {
            let next = d.subrange(0, i + 3);
            assert(next.subrange(0, next.len() - 3) == prev);
            assert(next.subrange(next.len() - 3, next.len() as int) == seq![d[i as int], d[i + 1], d[i + 2]]);
            assert(out@ == grouped(prev) + seq![44u8] + next.subrange(next.len() - 3, next.len() as int));
        }
        i = i + 3;
    }
    assert(d.subrange(0, len as int) == d);
    proof {
        lemma_grouped_ascii(d);
    }
    ascii_to_string(out)
}

proof fn lemma_grouped_prefix(d: Seq<u8>, k: int)
    requires
        1 <= k <= 3,
        k <= d.len(),
    ensures
        grouped(d.subrange(0, k)) == d.subrange(0, k),
{
}

proof fn lemma_grouped_ascii(d: Seq<u8>)
    requires
        all_ascii(d),
    ensures
        all_ascii(grouped(d)),
    decreases d.len(),
{
    if d.len() > 3 {
        let p = d.subrange(0, d.len() - 3);
        assert(all_ascii(p)) by {
            assert forall|i: int| 0 <= i < p.len() implies #[trigger] p[i] < 128 by {
                assert(p[i] == d[i]);
            }
        }
        lemma_grouped_ascii(p);
        let g = grouped(d);
        assert forall|i: int| 0 <= i < g.len() implies #[trigger] g[i] < 128 by {
            let gp = grouped(p);
            if i >= gp.len() + 1 {
                assert(g[i] == d[d.len() - 3 + (i - gp.len() - 1)]);
            } else if i < gp.len() {
                assert(g[i] == gp[i]);
            }
        }
    }
}

} // verus!
