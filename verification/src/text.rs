//! Text plumbing: the conversions between bytes, characters and `String`, and the exact
//! decimal and hexadecimal spellings of integers that diagnostics and sidecars print.
use vstd::prelude::*;
use vstd::utf8::*;

verus! {

/// What `String::from_utf8_lossy` makes of a byte sequence: the decoded characters, with each
/// maximal ill-formed subsequence replaced by U+FFFD.
pub uninterp spec fn lossy_text(b: Seq<u8>) -> Seq<char>;

/// `String::from_utf8_lossy(&src[i..j]).into_owned()`: the characters of a byte span, with
/// ill-formed runs replaced; std documents that well-formed UTF-8 comes back unchanged.
#[verifier::external_body]
pub(crate) fn lossy_span(src: &[u8], i: usize, j: usize) -> (s: String)
    requires
        i <= j <= src@.len(),
    ensures
        s@ == lossy_text(src@.subrange(i as int, j as int)),
        valid_utf8(src@.subrange(i as int, j as int)) ==> s@ == decode_utf8(
            src@.subrange(i as int, j as int),
        ),
{
    String::from_utf8_lossy(&src[i..j]).into_owned()
}

/// The characters of a string slice, in order.
pub(crate) fn chars_of(s: &str) -> (v: Vec<char>)
    ensures
        v@ == s@,
{
    broadcast use vstd::string::axiom_spec_iter;
    let mut v: Vec<char> = Vec::new();
    for c in it: s.chars()
        invariant
            it.seq() == s@,
            v@ == it.seq().take(it.index() as int),
    {
        v.push(c);
    }
    v
}

/// The string spelled by a sequence of characters (collected through `FromIterator<&char>`).
#[verifier::external_body]
pub(crate) fn string_of(v: &[char]) -> (s: String)
    ensures
        s@ == v@,
{
    v.iter().collect()
}

/// The ASCII character of a byte below 0x80.
pub open spec fn ascii_char(b: u8) -> char {
    ((b as u32) as char)
}

/// The decimal digit character of `d < 10`.
pub open spec fn digit_char(d: nat) -> char {
    ((48 + d) as u32) as char
}

/// The shortest decimal spelling of a natural number, most significant digit first.
pub open spec fn dec_spelling(n: nat) -> Seq<char>
    decreases n,
{
    if n < 10 {
        seq![digit_char(n)]
    } else {
        dec_spelling(n / 10).push(digit_char(n % 10))
    }
}

/// The decimal spelling of an integer, with a leading '-' when negative.
pub open spec fn int_spelling(n: int) -> Seq<char> {
    if n < 0 {
        seq!['-'].add(dec_spelling((-n) as nat))
    } else {
        dec_spelling(n as nat)
    }
}

/// The lowercase hexadecimal digit character of `d < 16`.
pub open spec fn hex_char(d: nat) -> char {
    if d < 10 {
        digit_char(d)
    } else {
        ((87 + d) as u32) as char
    }
}

/// The last `width` hexadecimal digits of `x`, zero-padded, most significant first.
pub open spec fn hex_width(x: nat, width: nat) -> Seq<char>
    decreases width,
{
    if width == 0 {
        Seq::<char>::empty()
    } else {
        hex_width(x / 16, (width - 1) as nat).push(hex_char(x % 16))
    }
}

/// The `{:016x}` spelling of a 64-bit value.
pub open spec fn hex16(x: u64) -> Seq<char> {
    hex_width(x as nat, 16)
}

fn digit(d: u64) -> (c: char)
    requires
        d < 10,
    ensures
        c == digit_char(d as nat),
{
    ((48 + d) as u8) as char
}

/// Reverses a character vector.
fn reversed(v: &Vec<char>) -> (r: Vec<char>)
    ensures
        r@ == v@.reverse(),
{
    let mut out: Vec<char> = Vec::new();
    let len = v.len();
    let mut k: usize = 0;
    while k < len
        invariant
            len == v@.len(),
            0 <= k <= len,
            out@ =~= v@.reverse().subrange(0, k as int),
        decreases len - k,
    {
        out.push(v[len - 1 - k]);
        k += 1;
    }
    assert(out@ =~= v@.reverse());
    out
}

/// Decimal digits of `n`, most significant first.
fn dec_chars(n: u64) -> (v: Vec<char>)
    ensures
        v@ == dec_spelling(n as nat),
{
    let mut rev: Vec<char> = Vec::new();
    let mut m: u64 = n;
    let ghost mut acc: Seq<char> = Seq::empty();
    while m >= 10
        invariant
            dec_spelling(n as nat) =~= dec_spelling(m as nat) + acc,
            rev@ =~= acc.reverse(),
        decreases m,
    {
        let ghost old_acc = acc;
        let ghost old_m = m;
        rev.push(digit(m % 10));
        proof {
            acc = seq![digit_char((m % 10) as nat)] + old_acc;
        }
        m = m / 10;
        proof {
            assert(dec_spelling(old_m as nat) == dec_spelling(m as nat).push(
                digit_char((old_m % 10) as nat),
            ));
            assert(rev@ =~= acc.reverse());
        }
    }
    let ghost old_acc = acc;
    rev.push(digit(m));
    proof {
        acc = seq![digit_char(m as nat)] + old_acc;
        assert(rev@ =~= acc.reverse());
        assert(acc.reverse().reverse() =~= acc);
    }
    let out = reversed(&rev);
    proof {
        assert(out@ =~= acc);
    }
    out
}

/// The decimal spelling of an unsigned value.
pub fn u64_text(n: u64) -> (s: String)
    ensures
        s@ == dec_spelling(n as nat),
{
    let v = dec_chars(n);
    string_of(v.as_slice())
}

/// The decimal spelling of a signed value, '-' first when negative.
pub fn i64_text(n: i64) -> (s: String)
    ensures
        s@ == int_spelling(n as int),
{
    if n < 0 {
        let mag: u64 = if n == i64::MIN {
            9223372036854775808u64
        } else {
            (-n) as u64
        };
        let digits = dec_chars(mag);
        let mut v: Vec<char> = Vec::new();
        v.push('-');
        let mut k: usize = 0;
        while k < digits.len()
            invariant
                0 <= k <= digits@.len(),
                v@ =~= seq!['-'].add(digits@.subrange(0, k as int)),
            decreases digits@.len() - k,
        {
            v.push(digits[k]);
            k += 1;
        }
        assert(v@ =~= seq!['-'].add(digits@));
        string_of(v.as_slice())
    } else {
        u64_text(n as u64)
    }
}

/// The `{:016x}` spelling of a 64-bit value.
pub fn hex16_text(x: u64) -> (s: String)
    ensures
        s@ == hex16(x),
{
    let mut rev: Vec<char> = Vec::new();
    let mut m: u64 = x;
    let mut k: usize = 0;
    let ghost mut acc: Seq<char> = Seq::empty();
    while k < 16
        invariant
            0 <= k <= 16,
            hex_width(x as nat, 16) =~= hex_width(m as nat, (16 - k) as nat) + acc,
            rev@ =~= acc.reverse(),
        decreases 16 - k,
    {
        let d = m % 16;
        let c: char = if d < 10 {
            ((48 + d) as u8) as char
        } else {
            ((87 + d) as u8) as char
        };
        let ghost old_acc = acc;
        let ghost old_m = m;
        rev.push(c);
        proof {
            acc = seq![c] + old_acc;
            assert(hex_width(old_m as nat, (16 - k) as nat) == hex_width(
                (old_m / 16) as nat,
                (16 - k - 1) as nat,
            ).push(hex_char((old_m % 16) as nat)));
            assert(rev@ =~= acc.reverse());
        }
        m = m / 16;
        k += 1;
    }
    proof {
        assert(hex_width(m as nat, 0) =~= Seq::<char>::empty());
        assert(acc.reverse().reverse() =~= acc);
    }
    let out = reversed(&rev);
    string_of(out.as_slice())
}

/// `b` to the power `k`.
pub open spec fn pow_nat(b: nat, k: nat) -> nat
    decreases k,
{
    if k == 0 {
        1
    } else {
        b * pow_nat(b, (k - 1) as nat)
    }
}

/// One more factor.
pub proof fn lemma_pow_step(b: nat, k: nat)
    ensures
        pow_nat(b, k + 1) == b * pow_nat(b, k),
{
}

/// Powers of a base of at least one grow with the exponent.
pub proof fn lemma_pow_mono(b: nat, k: nat, m: nat)
    requires
        b >= 1,
        k <= m,
    ensures
        pow_nat(b, k) <= pow_nat(b, m),
    decreases m - k,
{
    if k < m {
        lemma_pow_mono(b, k, (m - 1) as nat);
        let p = pow_nat(b, (m - 1) as nat);
        assert(p <= b * p) by (nonlinear_arith)
            requires
                b >= 1,
        ;
    }
}

/// Sixteen hexadecimal digits span exactly the 64-bit values.
pub proof fn lemma_pow16_16()
    ensures
        pow_nat(16, 16) == 0x1_0000_0000_0000_0000,
{
    reveal_with_fuel(pow_nat, 17);
}

/// Every character of a decimal spelling is a digit; the spelling is nonempty and starts
/// with a nonzero digit unless the number is zero.
pub proof fn lemma_dec_spelling_shape(n: nat)
    ensures
        dec_spelling(n).len() >= 1,
        forall|i: int|
            0 <= i < dec_spelling(n).len() ==> '0' <= #[trigger] dec_spelling(n)[i] && dec_spelling(
                n,
            )[i] <= '9',
        n >= 1 ==> dec_spelling(n)[0] != '0',
    decreases n,
{
    if n >= 10 {
        lemma_dec_spelling_shape(n / 10);
        let p = dec_spelling(n / 10);
        assert(dec_spelling(n) == p.push(digit_char(n % 10)));
        assert forall|i: int| 0 <= i < dec_spelling(n).len() implies '0'
            <= #[trigger] dec_spelling(n)[i] && dec_spelling(n)[i] <= '9' by {
            if i < p.len() {
                assert(dec_spelling(n)[i] == p[i]);
            }
        }
    }
}

/// The digits of a 64-bit value's hexadecimal spelling are lowercase hex digits.
pub proof fn lemma_hex_width_shape(x: nat, w: nat)
    ensures
        hex_width(x, w).len() == w,
        forall|i: int|
            0 <= i < w ==> {
                let c = #[trigger] hex_width(x, w)[i];
                ('0' <= c && c <= '9') || ('a' <= c && c <= 'f')
            },
    decreases w,
{
    if w > 0 {
        lemma_hex_width_shape(x / 16, (w - 1) as nat);
        let p = hex_width(x / 16, (w - 1) as nat);
        assert forall|i: int| 0 <= i < w implies {
            let c = #[trigger] hex_width(x, w)[i];
            ('0' <= c && c <= '9') || ('a' <= c && c <= 'f')
        } by {
            if i < p.len() {
                assert(hex_width(x, w)[i] == p[i]);
            }
        }
    }
}

/// The uppercase hexadecimal digit character of `d < 16`.
pub open spec fn hex_char_upper(d: nat) -> char {
    if d < 10 {
        digit_char(d)
    } else {
        ((55 + d) as u32) as char
    }
}

/// The last `width` uppercase hexadecimal digits of `x`, zero-padded.
pub open spec fn hex_width_upper(x: nat, width: nat) -> Seq<char>
    decreases width,
{
    if width == 0 {
        Seq::<char>::empty()
    } else {
        hex_width_upper(x / 16, (width - 1) as nat).push(hex_char_upper(x % 16))
    }
}

/// The last `width` uppercase hexadecimal digits of `x`, zero-padded (`{:0<width>X}` for a
/// value that fits the width).
pub fn hex_upper_text(x: u64, width: usize) -> (s: String)
    requires
        width <= 16,
    ensures
        s@ == hex_width_upper(x as nat, width as nat),
{
    let mut rev: Vec<char> = Vec::new();
    let mut m: u64 = x;
    let mut k: usize = 0;
    let ghost mut acc: Seq<char> = Seq::empty();
    while k < width
        invariant
            0 <= k <= width,
            hex_width_upper(x as nat, width as nat) =~= hex_width_upper(m as nat, (width - k) as nat)
                + acc,
            rev@ =~= acc.reverse(),
        decreases width - k,
    {
        let d = m % 16;
        let c: char = if d < 10 {
            ((48 + d) as u8) as char
        } else {
            ((55 + d) as u8) as char
        };
        let ghost old_acc = acc;
        let ghost old_m = m;
        rev.push(c);
        proof {
            acc = seq![c] + old_acc;
            assert(hex_width_upper(old_m as nat, (width - k) as nat) == hex_width_upper(
                (old_m / 16) as nat,
                (width - k - 1) as nat,
            ).push(hex_char_upper((old_m % 16) as nat)));
            assert(rev@ =~= acc.reverse());
        }
        m = m / 16;
        k += 1;
    }
    proof {
        assert(hex_width_upper(m as nat, 0) =~= Seq::<char>::empty());
        assert(acc.reverse().reverse() =~= acc);
    }
    let out = reversed(&rev);
    string_of(out.as_slice())
}

/// Concatenation of two strings, as a fresh `String`.
pub fn cat(a: &str, b: &str) -> (s: String)
    ensures
        s@ == a@ + b@,
{
    let mut s = String::from_str(a);
    s.append(b);
    s
}

} // verus!
