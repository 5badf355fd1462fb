//! The integer and text helpers of C-locale number handling: case-folded keyword matching,
//! hexadecimal digit values, and the trailing-zero trim of a fixed-point rendering.
use vstd::prelude::*;
use crate::text::{chars_of, string_of};

verus! {

/// Whether `b[i..]` begins with `pat` once each byte of `b` has its ASCII case bit set (the
/// lower-case pattern matches either case).
pub open spec fn ci_match_spec(b: Seq<u8>, i: int, pat: Seq<u8>) -> bool {
    &&& 0 <= i
    &&& i + pat.len() <= b.len()
    &&& forall|k: int| 0 <= k < pat.len() ==> #[trigger] (b[i + k] | 32) == pat[k]
}

/// Case-folded prefix match (see `ci_match_spec`).
pub fn ci_match(b: &[u8], i: usize, pat: &[u8]) -> (r: bool)
    ensures
        r == ci_match_spec(b@, i as int, pat@),
{
    if i > b.len() || pat.len() > b.len() - i {
        return false;
    }
    let mut k: usize = 0;
    while k < pat.len()
        invariant
            i + pat@.len() <= b@.len(),
            b@.len() == b.len(),
            0 <= k <= pat@.len(),
            forall|j: int| 0 <= j < k ==> #[trigger] (b@[i + j] | 32) == pat@[j],
        decreases pat@.len() - k,
    {
        if b[i + k] | 32 != pat[k] {
            return false;
        }
        k += 1;
    }
    true
}

/// The value of an ASCII hexadecimal digit of either case.
pub open spec fn hexval_spec(c: u8) -> Option<u64> {
    if 48 <= c <= 57 {
        Some((c - 48) as u64)
    } else if 97 <= c <= 102 {
        Some((c - 87) as u64)
    } else if 65 <= c <= 70 {
        Some((c - 55) as u64)
    } else {
        None
    }
}

/// The value of an ASCII hexadecimal digit (see `hexval_spec`).
pub fn hexval(c: u8) -> (r: Option<u64>)
    ensures
        r == hexval_spec(c),
{
    if 48 <= c && c <= 57 {
        Some((c - 48) as u64)
    } else if 97 <= c && c <= 102 {
        Some((c - 87) as u64)
    } else if 65 <= c && c <= 70 {
        Some((c - 55) as u64)
    } else {
        None
    }
}

/// The text without every trailing `c`.
pub open spec fn trim_end(s: Seq<char>, c: char) -> Seq<char>
    decreases s.len(),
{
    if s.len() > 0 && s.last() == c {
        trim_end(s.drop_last(), c)
    } else {
        s
    }
}

/// A fixed-point rendering without its trailing fractional zeros and then its bare '.';
/// text without a '.' is left as it is.
pub open spec fn strip_zeros_spec(s: Seq<char>) -> Seq<char> {
    if s.contains('.') {
        trim_end(trim_end(s, '0'), '.')
    } else {
        s
    }
}

fn trim_end_len(v: &Vec<char>, n: usize, c: char) -> (m: usize)
    requires
        n <= v@.len(),
    ensures
        m <= n,
        v@.take(m as int) == trim_end(v@.take(n as int), c),
{
    let mut m = n;
    while m > 0 && v[m - 1] == c
        invariant
            m <= n <= v@.len(),
            trim_end(v@.take(m as int), c) == trim_end(v@.take(n as int), c),
        decreases m,
    {
        proof {
            assert(v@.take(m as int).drop_last() =~= v@.take(m - 1));
        }
        m -= 1;
    }
    m
}

/// A fixed-point rendering trimmed (see `strip_zeros_spec`).
pub fn strip_zeros(s: &str) -> (r: String)
    ensures
        r@ == strip_zeros_spec(s@),
{
    let v = chars_of(s);
    let mut k: usize = 0;
    let mut dot = false;
    while k < v.len()
        invariant
            v@ == s@,
            0 <= k <= v@.len(),
            dot == v@.take(k as int).contains('.'),
        decreases v@.len() - k,
    {
        let ghost before = v@.take(k as int);
        proof {
            assert(v@.take(k + 1) =~= before.push(v@[k as int]));
            if before.contains('.') {
                let w = choose|w: int| 0 <= w < before.len() && before[w] == '.';
                assert(v@.take(k + 1)[w] == '.');
            }
            let after = v@.take(k + 1);
            if after.contains('.') && v@[k as int] != '.' {
                let w = choose|w: int| 0 <= w < after.len() && after[w] == '.';
                assert(before[w] == '.');
            }
        }
        if v[k] == '.' {
            dot = true;
            proof {
                assert(v@.take(k + 1)[k as int] == '.');
            }
        }
        k += 1;
    }
    proof {
        assert(v@.take(k as int) =~= v@);
    }
    if !dot {
        return String::from_str(s);
    }
    proof {
        assert(v@.take(v@.len() as int) =~= v@);
    }
    let m = trim_end_len(&v, v.len(), '0');
    let m2 = trim_end_len(&v, m, '.');
    let mut out: Vec<char> = Vec::new();
    let mut j: usize = 0;
    while j < m2
        invariant
            v@ == s@,
            m2 <= v@.len(),
            0 <= j <= m2,
            out@ =~= v@.take(j as int),
        decreases m2 - j,
    {
        out.push(v[j]);
        j += 1;
    }
    string_of(out.as_slice())
}

} // verus!
