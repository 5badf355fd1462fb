//! The driver's `--!` directive grammar: a space/tab word cursor, C `atoi`, and the per-line
//! directive pass that fills the `Directives` and blanks each directive line to spaces so
//! that the lexer's line numbers hold.
use vstd::prelude::*;
use crate::{Diag, Directives, Expect, ANO_NAMESZ, Toks, TokKind, Interner};
use crate::overlay::{RegistryView, find, find_entry};
use crate::text::{lossy_span, lossy_text, cat};

verus! {

/// Most expectations a file may declare.
pub const MAXEXPECT: usize = 64;

/// Most values one expectation keeps; later ones are dropped.
pub const MAXVALS: usize = 8192;

/* ---------- views ---------- */

/// An expectation as the specification reads it.
pub ghost enum ExpectSpec {
    Col { col: Seq<char>, vals: Seq<Seq<char>> },
    Out { vals: Seq<Seq<char>> },
}

/// The texts of a list of strings.
pub open spec fn texts(v: Seq<String>) -> Seq<Seq<char>> {
    v.map_values(|s: String| s@)
}

/// An expectation's specification reading.
pub open spec fn expect_spec(e: Expect) -> ExpectSpec {
    match e {
        Expect::Col { col, vals } => ExpectSpec::Col { col: col@, vals: texts(vals@) },
        Expect::Out { vals } => ExpectSpec::Out { vals: texts(vals@) },
    }
}

/// The directives as the specification reads them.
pub ghost struct DirSpec {
    pub registry: Seq<char>,
    pub aliases: Seq<char>,
    pub expects: Seq<ExpectSpec>,
    pub expect_n: i32,
    pub ja: bool,
    pub save: bool,
    pub label: bool,
    pub trace: bool,
    pub same_tokens: Seq<char>,
}

/// The directives' specification reading.
pub open spec fn dir_spec(d: Directives) -> DirSpec {
    DirSpec {
        registry: d.registry@,
        aliases: d.aliases@,
        expects: d.expects@.map_values(|e: Expect| expect_spec(e)),
        expect_n: d.expect_n,
        ja: d.ja,
        save: d.save,
        label: d.label,
        trace: d.trace,
        same_tokens: d.same_tokens@,
    }
}

/* ---------- the word cursor ---------- */

/// A word separator: space or tab.
pub open spec fn is_sep(b: u8) -> bool {
    b == 32 || b == 9
}

/// The first position at or after `p` that is no separator.
pub open spec fn skip_sep(s: Seq<u8>, p: int) -> int
    decreases s.len() - p,
{
    if 0 <= p < s.len() && is_sep(s[p]) {
        skip_sep(s, p + 1)
    } else {
        p
    }
}

/// The first separator at or after `p`, or the end.
pub open spec fn sep_stop(s: Seq<u8>, p: int) -> int
    decreases s.len() - p,
{
    if 0 <= p < s.len() && !is_sep(s[p]) {
        sep_stop(s, p + 1)
    } else {
        p
    }
}

/// The word a cursor at `p` reads next, as a byte span; `None` when only separators remain.
pub open spec fn word_at(s: Seq<u8>, p: int) -> Option<(int, int)> {
    let a = skip_sep(s, p);
    if a >= s.len() {
        None
    } else {
        Some((a, sep_stop(s, a)))
    }
}

/// Where a cursor at `p` stands after reading a word: exactly one separator past the word,
/// or at the end.
pub open spec fn after_word(s: Seq<u8>, p: int) -> int {
    let a = skip_sep(s, p);
    if a >= s.len() {
        a
    } else {
        let e = sep_stop(s, a);
        if e < s.len() {
            e + 1
        } else {
            e
        }
    }
}

pub proof fn lemma_cursor_bounds(s: Seq<u8>, p: int)
    requires
        0 <= p <= s.len(),
    ensures
        p <= skip_sep(s, p) <= s.len(),
        skip_sep(s, p) < s.len() ==> !is_sep(s[skip_sep(s, p)]),
        skip_sep(s, p) <= sep_stop(s, skip_sep(s, p)) <= s.len(),
        skip_sep(s, p) < s.len() ==> skip_sep(s, p) < sep_stop(s, skip_sep(s, p)),
        p <= after_word(s, p) <= s.len(),
        skip_sep(s, p) < s.len() ==> p < after_word(s, p),
    decreases s.len() - p,
{
    if p < s.len() && is_sep(s[p]) {
        lemma_cursor_bounds(s, p + 1);
    } else {
        lemma_sep_stop(s, p);
        if p < s.len() {
            lemma_sep_stop(s, p + 1);
        }
    }
}

proof fn lemma_sep_stop(s: Seq<u8>, p: int)
    requires
        0 <= p <= s.len(),
    ensures
        p <= sep_stop(s, p) <= s.len(),
    decreases s.len() - p,
{
    if p < s.len() && !is_sep(s[p]) {
        lemma_sep_stop(s, p + 1);
    }
}

/// Every word a cursor at `p` would read, in order.
pub open spec fn words_at(s: Seq<u8>, p: int) -> Seq<Seq<u8>>
    decreases s.len() - p,
{
    if p < 0 || p > s.len() {
        Seq::empty()
    } else {
        proof {
            lemma_cursor_bounds(s, p);
        }
        match word_at(s, p) {
            None => Seq::empty(),
            Some((a, e)) => seq![s.subrange(a, e)] + words_at(s, after_word(s, p)),
        }
    }
}

/// A space/tab word cursor over a byte line.
pub struct Cursor<'a> {
    pub s: &'a [u8],
    pub pos: usize,
}

impl<'a> Cursor<'a> {
    /// A cursor at the start of `s`.
    pub fn new(s: &'a [u8]) -> (c: Cursor<'a>)
        ensures
            c.s@ == s@,
            c.pos == 0,
    {
        Cursor { s, pos: 0 }
    }

    /// The next word (see `word_at`), leaving the cursor one separator past it (see
    /// `after_word`).
    pub fn word(&mut self) -> (w: Option<&'a [u8]>)
        requires
            old(self).pos <= old(self).s@.len(),
        ensures
            final(self).s == old(self).s,
            final(self).pos == after_word(old(self).s@, old(self).pos as int),
            match word_at(old(self).s@, old(self).pos as int) {
                None => w is None,
                Some((a, e)) => w matches Some(x) && x@ == old(self).s@.subrange(a, e),
            },
    {
        proof {
            lemma_cursor_bounds(self.s@, self.pos as int);
        }
        while self.pos < self.s.len() && (self.s[self.pos] == 32 || self.s[self.pos] == 9)
            invariant
                self.s == old(self).s,
                old(self).pos <= self.pos <= self.s@.len(),
                skip_sep(self.s@, self.pos as int) == skip_sep(self.s@, old(self).pos as int),
            decreases self.s@.len() - self.pos,
        {
            self.pos += 1;
        }
        if self.pos >= self.s.len() {
            return None;
        }
        let start = self.pos;
        while self.pos < self.s.len() && self.s[self.pos] != 32 && self.s[self.pos] != 9
            invariant
                self.s == old(self).s,
                start <= self.pos <= self.s@.len(),
                start == skip_sep(self.s@, old(self).pos as int),
                sep_stop(self.s@, self.pos as int) == sep_stop(self.s@, start as int),
            decreases self.s@.len() - self.pos,
        {
            self.pos += 1;
        }
        let w = vstd::slice::slice_subrange(self.s, start, self.pos);
        if self.pos < self.s.len() {
            self.pos += 1;
        }
        Some(w)
    }

    /// What remains after the cursor.
    pub fn rest(&self) -> (r: &'a [u8])
        requires
            self.pos <= self.s@.len(),
        ensures
            r@ == self.s@.subrange(self.pos as int, self.s@.len() as int),
    {
        vstd::slice::slice_subrange(self.s, self.pos, self.s.len())
    }

    /// What remains after the cursor once separators are skipped; the cursor moves there.
    pub fn rest_after_ws(&mut self) -> (r: &'a [u8])
        requires
            old(self).pos <= old(self).s@.len(),
        ensures
            final(self).s == old(self).s,
            final(self).pos == skip_sep(old(self).s@, old(self).pos as int),
            r@ == old(self).s@.subrange(final(self).pos as int, old(self).s@.len() as int),
    {
        while self.pos < self.s.len() && (self.s[self.pos] == 32 || self.s[self.pos] == 9)
            invariant
                self.s == old(self).s,
                old(self).pos <= self.pos <= self.s@.len(),
                skip_sep(self.s@, self.pos as int) == skip_sep(self.s@, old(self).pos as int),
            decreases self.s@.len() - self.pos,
        {
            self.pos += 1;
        }
        vstd::slice::slice_subrange(self.s, self.pos, self.s.len())
    }
}

/* ---------- text of raw bytes ---------- */

/// Raw bytes as text, ill-formed runs replaced.
pub fn lossy(b: &[u8]) -> (s: String)
    ensures
        s@ == lossy_text(b@),
{
    proof {
        assert(b@.subrange(0, b@.len() as int) =~= b@);
    }
    lossy_span(b, 0, b.len())
}

/// The first `cap` bytes (all of them when fewer), as text: a C `snprintf` into a buffer of
/// `cap + 1` bytes.
pub open spec fn trunc_text(b: Seq<u8>, cap: int) -> Seq<char> {
    lossy_text(
        b.take(
            if b.len() < cap {
                b.len() as int
            } else {
                cap
            },
        ),
    )
}

/// The first `cap` bytes as text (see `trunc_text`).
pub fn trunc_lossy(b: &[u8], cap: usize) -> (s: String)
    ensures
        s@ == trunc_text(b@, cap as int),
{
    let n = if b.len() < cap {
        b.len()
    } else {
        cap
    };
    proof {
        assert(b@.subrange(0, n as int) =~= b@.take(n as int));
    }
    lossy_span(b, 0, n)
}

/* ---------- C atoi ---------- */

/// A byte C's `isspace` accepts.
pub open spec fn c_isspace(b: u8) -> bool {
    b == 32 || (9 <= b && b <= 13)
}

/// The first position at or after `i` that C's `isspace` rejects.
pub open spec fn skip_isspace(s: Seq<u8>, i: int) -> int
    decreases s.len() - i,
{
    if 0 <= i < s.len() && c_isspace(s[i]) {
        skip_isspace(s, i + 1)
    } else {
        i
    }
}

/// The value of the ASCII digit run starting at `i`, read up to `j`.
pub open spec fn digits_value(s: Seq<u8>, i: int, j: int) -> nat
    decreases j - i,
{
    if j <= i {
        0
    } else {
        digits_value(s, i, j - 1) * 10 + (s[j - 1] - 48) as nat
    }
}

/// The end of the ASCII digit run at `i`.
pub open spec fn digit_stop(s: Seq<u8>, i: int) -> int
    decreases s.len() - i,
{
    if 0 <= i < s.len() && 48 <= s[i] <= 57 {
        digit_stop(s, i + 1)
    } else {
        i
    }
}

/// An integer clamped into the `i32` range.
pub open spec fn clamp_i32(v: int) -> i32 {
    if v > i32::MAX {
        i32::MAX
    } else if v < i32::MIN {
        i32::MIN
    } else {
        v as i32
    }
}

/// C `atoi` as the driver reads a count: white space skipped, an optional sign, the leading
/// digits (none reads 0), the value clamped into `i32`.
pub open spec fn atoi_spec(s: Seq<u8>) -> i32 {
    let i = skip_isspace(s, 0);
    let signed = i < s.len() && (s[i] == 43 || s[i] == 45);
    let neg = signed && s[i] == 45;
    let d = if signed {
        i + 1
    } else {
        i
    };
    let v = digits_value(s, d, digit_stop(s, d)) as int;
    clamp_i32(
        if neg {
            -v
        } else {
            v
        },
    )
}

proof fn lemma_digit_stop(s: Seq<u8>, i: int)
    requires
        0 <= i <= s.len(),
    ensures
        i <= digit_stop(s, i) <= s.len(),
    decreases s.len() - i,
{
    if i < s.len() && 48 <= s[i] <= 57 {
        lemma_digit_stop(s, i + 1);
    }
}

proof fn lemma_digits_value_mono(s: Seq<u8>, i: int, j: int, k: int)
    requires
        i <= j <= k,
        forall|q: int| i <= q < k ==> 48 <= #[trigger] s[q] <= 57,
    ensures
        digits_value(s, i, j) <= digits_value(s, i, k),
    decreases k - j,
{
    if j < k {
        lemma_digits_value_mono(s, i, j, k - 1);
    }
}

/// C `atoi` (see `atoi_spec`).
pub fn atoi(s: &[u8]) -> (r: i32)
    ensures
        r == atoi_spec(s@),
{
    let mut i: usize = 0;
    while i < s.len() && (s[i] == 32 || (9 <= s[i] && s[i] <= 13))
        invariant
            0 <= i <= s@.len(),
            skip_isspace(s@, i as int) == skip_isspace(s@, 0),
        decreases s@.len() - i,
    {
        i += 1;
    }
    let mut neg = false;
    if i < s.len() && (s[i] == 43 || s[i] == 45) {
        neg = s[i] == 45;
        i += 1;
    }
    let d = i;
    let ghost stop = digit_stop(s@, d as int);
    proof {
        lemma_digit_stop(s@, d as int);
    }
    let mut v: i64 = 0;
    let mut sat = false;
    while i < s.len() && 48 <= s[i] && s[i] <= 57
        invariant
            d <= i <= s@.len(),
            stop == digit_stop(s@, d as int),
            digit_stop(s@, i as int) == stop,
            forall|q: int| d <= q < i ==> 48 <= #[trigger] s@[q] <= 57,
            !sat ==> v == digits_value(s@, d as int, i as int),
            sat ==> v == i64::MAX && digits_value(s@, d as int, i as int) >= i64::MAX,
            0 <= v,
        decreases s@.len() - i,
    {
        let dg = (s[i] - 48) as i64;
        if v > (i64::MAX - dg) / 10 {
            v = i64::MAX;
            sat = true;
        } else {
            v = v * 10 + dg;
        }
        i += 1;
    }
    proof {
        if sat {
            lemma_digits_value_mono(s@, d as int, i as int, i as int);
        }
    }
    let signed: i64 = if neg {
        -v
    } else {
        v
    };
    if signed > i32::MAX as i64 {
        i32::MAX
    } else if signed < i32::MIN as i64 {
        i32::MIN
    } else {
        signed as i32
    }
}

/* ---------- directive lines ---------- */

/// The bytes of a literal word.
pub open spec fn lit(w: Seq<char>) -> Seq<u8> {
    vstd::utf8::encode_utf8(w)
}

/// The values an expectation keeps: the cursor's remaining words, at most `MAXVALS`, as
/// text.
pub open spec fn vals_spec(s: Seq<u8>, p: int) -> Seq<Seq<char>> {
    let ws = words_at(s, p);
    ws.take(
        if ws.len() < MAXVALS {
            ws.len() as int
        } else {
            MAXVALS as int
        },
    ).map_values(|w: Seq<u8>| lossy_text(w))
}

/// Where an expectation's values start after its column (read from `p`): past an optional
/// "=" word.
pub open spec fn vals_start(s: Seq<u8>, p: int) -> int {
    match word_at(s, p) {
        Some((a, e)) => if s.subrange(a, e) == lit("="@) {
            after_word(s, p)
        } else {
            p
        },
        None => p,
    }
}

/// What one directive tail (after "--!") does to the directives: `registry NAME` (kept to
/// 255 bytes), `ja`, `expect-n COUNT` (read by `atoi`), `same-tokens REST` (the rest of the
/// line verbatim, kept to 511 bytes), `expect COLUMN [=] VALUE...` (column kept to 255
/// bytes), `out VALUE...`, at most `MAXEXPECT` expectations; an empty tail does nothing,
/// anything else is refused.
pub open spec fn dir_line_spec(s: Seq<u8>, d: DirSpec) -> Result<DirSpec, Seq<char>> {
    match word_at(s, 0) {
        None => Ok(d),
        Some((a, e)) => {
            let key = s.subrange(a, e);
            let p = after_word(s, 0);
            if key == lit("registry"@) {
                match word_at(s, p) {
                    None => Err("directive: registry needs a name"@),
                    Some((a2, e2)) => Ok(
                        DirSpec { registry: trunc_text(s.subrange(a2, e2), 255), ..d },
                    ),
                }
            } else if key == lit("ja"@) {
                Ok(DirSpec { ja: true, ..d })
            } else if key == lit("expect-n"@) {
                match word_at(s, p) {
                    None => Err("directive: expect-n needs a count"@),
                    Some((a2, e2)) => Ok(DirSpec { expect_n: atoi_spec(s.subrange(a2, e2)), ..d }),
                }
            } else if key == lit("same-tokens"@) {
                Ok(DirSpec { same_tokens: trunc_text(s.skip(skip_sep(s, p)), 511), ..d })
            } else if key == lit("expect"@) || key == lit("out"@) {
                if d.expects.len() >= MAXEXPECT {
                    Err("directive: too many expects"@)
                } else if key == lit("out"@) {
                    Ok(DirSpec { expects: d.expects.push(ExpectSpec::Out { vals: vals_spec(s, p) }), ..d })
                } else {
                    match word_at(s, p) {
                        None => Err("directive: expect needs a column"@),
                        Some((a2, e2)) => Ok(
                            DirSpec {
                                expects: d.expects.push(
                                    ExpectSpec::Col {
                                        col: trunc_text(s.subrange(a2, e2), ANO_NAMESZ - 1),
                                        vals: vals_spec(s, vals_start(s, after_word(s, p))),
                                    },
                                ),
                                ..d
                            },
                        ),
                    }
                }
            } else {
                Err("directive: unknown key '"@ + lossy_text(key) + "'"@)
            }
        },
    }
}

/// Whether two byte strings are equal.
fn bytes_eq(a: &[u8], b: &[u8]) -> (r: bool)
    ensures
        r == (a@ == b@),
{
    if a.len() != b.len() {
        return false;
    }
    let mut k: usize = 0;
    while k < a.len()
        invariant
            a@.len() == b@.len(),
            0 <= k <= a@.len(),
            forall|j: int| 0 <= j < k ==> a@[j] == b@[j],
        decreases a@.len() - k,
    {
        if a[k] != b[k] {
            return false;
        }
        k += 1;
    }
    assert(a@ =~= b@);
    true
}

/// Whether a word is the given literal.
fn is_lit(w: &[u8], l: &str) -> (r: bool)
    ensures
        r == (w@ == lit(l@)),
{
    bytes_eq(w, l.as_bytes())
}

/// Reads every remaining word as an expectation's values (see `vals_spec`).
fn collect_vals(c: &mut Cursor) -> (vals: Vec<String>)
    requires
        old(c).pos <= old(c).s@.len(),
    ensures
        final(c).s == old(c).s,
        texts(vals@) == vals_spec(old(c).s@, old(c).pos as int),
{
    let ghost s = c.s@;
    let ghost all = words_at(s, c.pos as int);
    let ghost mut k: int = 0;
    let mut vals: Vec<String> = Vec::new();
    loop
        invariant
            c.s == old(c).s,
            s == c.s@,
            c.pos <= s.len(),
            all == words_at(s, old(c).pos as int),
            0 <= k <= all.len(),
            all == all.take(k) + words_at(s, c.pos as int),
            vals@.len() <= MAXVALS,
            texts(vals@) == all.take(
                if k < MAXVALS {
                    k
                } else {
                    MAXVALS as int
                },
            ).map_values(|w: Seq<u8>| lossy_text(w)),
        ensures
            c.s == old(c).s,
            texts(vals@) == vals_spec(s, old(c).pos as int),
        decreases s.len() - c.pos,
    {
        let ghost p0 = c.pos as int;
        proof {
            lemma_cursor_bounds(s, p0);
        }
        match c.word() {
            None => {
                proof {
                    assert(words_at(s, p0) =~= Seq::<Seq<u8>>::empty());
                    assert(all.take(k) =~= all);
                    assert(k == all.len());
                }
                break;
            },
            Some(v) => {
                proof {
                    let rest = words_at(s, c.pos as int);
                    assert(words_at(s, p0) == seq![v@] + rest);
                    assert(all.take(k + 1) =~= all.take(k).push(v@));
                    assert(all.take(k) + words_at(s, p0) =~= all.take(k + 1) + rest);
                    assert(all[k] == v@);
                }
                if vals.len() < MAXVALS {
                    let ghost before = texts(vals@);
                    vals.push(lossy(v));
                    proof {
                        assert(texts(vals@) =~= before.push(lossy_text(v@)));
                        assert(all.take(k + 1).map_values(|w: Seq<u8>| lossy_text(w)) =~= all.take(k).map_values(|w: Seq<u8>| lossy_text(w)).push(lossy_text(v@)));
                    }
                }
                proof {
                    k = k + 1;
                }
            },
        }
    }
    vals
}

/// Applies one directive tail to the directives (see `dir_line_spec`); on a refusal the
/// directives are unchanged.
pub fn dir_line(s: &[u8], dirs: &mut Directives) -> (r: Result<(), Diag>)
    ensures
        match r {
            Ok(_) => dir_line_spec(s@, dir_spec(*old(dirs))) == Ok::<DirSpec, Seq<char>>(dir_spec(*final(dirs))),
            Err(d) => d.code == 2 && dir_line_spec(s@, dir_spec(*old(dirs))) == Err::<DirSpec, Seq<char>>(d.msg@)
                && dir_spec(*final(dirs)) == dir_spec(*old(dirs)),
        },
{
    let mut c = Cursor::new(s);
    let key = match c.word() {
        None => {
            return Ok(());
        },
        Some(k) => k,
    };
    let p = c.pos;
    proof {
        lemma_cursor_bounds(s@, 0);
    }
    if is_lit(key, "registry") {
        match c.word() {
            None => {
                return Err(Diag::refuse(String::from_str("directive: registry needs a name")));
            },
            Some(v) => {
                dirs.registry = trunc_lossy(v, 255);
            },
        }
    } else if is_lit(key, "ja") {
        dirs.ja = true;
    } else if is_lit(key, "expect-n") {
        match c.word() {
            None => {
                return Err(Diag::refuse(String::from_str("directive: expect-n needs a count")));
            },
            Some(v) => {
                dirs.expect_n = atoi(v);
            },
        }
    } else if is_lit(key, "same-tokens") {
        let rest = c.rest_after_ws();
        proof {
            assert(rest@ =~= s@.skip(skip_sep(s@, p as int)));
        }
        dirs.same_tokens = trunc_lossy(rest, 511);
    } else if is_lit(key, "expect") || is_lit(key, "out") {
        if dirs.expects.len() >= MAXEXPECT {
            return Err(Diag::refuse(String::from_str("directive: too many expects")));
        }
        let is_out = is_lit(key, "out");
        let ghost before = dir_spec(*dirs).expects;
        if is_out {
            let vals = collect_vals(&mut c);
            dirs.expects.push(Expect::Out { vals });
        } else {
            let cw = match c.word() {
                None => {
                    return Err(Diag::refuse(String::from_str("directive: expect needs a column")));
                },
                Some(cw) => cw,
            };
            let col = trunc_lossy(cw, ANO_NAMESZ - 1);
            let p2 = c.pos;
            proof {
                lemma_cursor_bounds(s@, p as int);
                lemma_cursor_bounds(s@, p2 as int);
            }
            let w = c.word();
            let eq = match w {
                Some(x) => is_lit(x, "="),
                None => false,
            };
            if !eq {
                c.pos = p2;
            }
            let vals = collect_vals(&mut c);
            dirs.expects.push(Expect::Col { col, vals });
        }
        proof {
            assert(dir_spec(*dirs).expects =~= before.push(expect_spec(dirs.expects@.last())));
        }
    } else {
        let k = lossy(key);
        let m = cat("directive: unknown key '", k.as_str());
        let m = cat(m.as_str(), "'");
        return Err(Diag::refuse(m));
    }
    Ok(())
}

/* ---------- the directive pass ---------- */

/// The first newline at or after `i`, or the end.
pub open spec fn next_lf(s: Seq<u8>, i: int) -> int
    decreases s.len() - i,
{
    if 0 <= i < s.len() && s[i] != 10 {
        next_lf(s, i + 1)
    } else {
        i
    }
}

/// The first position in `[p, e)` that is no space or tab, or `e`.
pub open spec fn skip_sep_to(s: Seq<u8>, p: int, e: int) -> int
    decreases e - p,
{
    if p < e && 0 <= p < s.len() && is_sep(s[p]) {
        skip_sep_to(s, p + 1, e)
    } else {
        p
    }
}

/// Bytes without trailing returns, spaces and tabs.
pub open spec fn strip_tail(b: Seq<u8>) -> Seq<u8>
    decreases b.len(),
{
    if b.len() > 0 && (b.last() == 13 || b.last() == 32 || b.last() == 9) {
        strip_tail(b.drop_last())
    } else {
        b
    }
}

/// The bytes with `[a, b)` blanked to spaces.
pub open spec fn blank(s: Seq<u8>, a: int, b: int) -> Seq<u8> {
    Seq::new(s.len(), |k: int| if a <= k < b { 32u8 } else { s[k] })
}

/// The directive pass from the line starting at `line`: each line whose first non-blank
/// bytes are "--!" hands the rest of the line, trailing blanks stripped, to the directive
/// grammar and is then blanked to spaces (its newline kept); the pass stops at the first
/// refusal. The result is the source as the pass leaves it, and the directives or the
/// refusal.
pub open spec fn scan_directives(s: Seq<u8>, line: int, d: DirSpec) -> (Seq<u8>, Result<DirSpec, Seq<char>>)
    decreases s.len() - line,
{
    if line < 0 || line >= s.len() {
        (s, Ok(d))
    } else {
        let e = next_lf(s, line);
        let p = skip_sep_to(s, line, e);
        if e < line {
            (s, Ok(d))
        } else if p + 3 <= e && s.subrange(p, p + 3) == lit("--!"@) {
            match dir_line_spec(strip_tail(s.subrange(p + 3, e)), d) {
                Err(m) => (s, Err(m)),
                Ok(d2) => {
                    let s2 = blank(s, line, e);
                    if e < s.len() {
                        scan_directives(s2, e + 1, d2)
                    } else {
                        (s2, Ok(d2))
                    }
                },
            }
        } else if e < s.len() {
            scan_directives(s, e + 1, d)
        } else {
            (s, Ok(d))
        }
    }
}

proof fn lemma_next_lf(s: Seq<u8>, i: int)
    requires
        0 <= i <= s.len(),
    ensures
        i <= next_lf(s, i) <= s.len(),
        next_lf(s, i) < s.len() ==> s[next_lf(s, i)] == 10,
    decreases s.len() - i,
{
    if i < s.len() && s[i] != 10 {
        lemma_next_lf(s, i + 1);
    }
}

proof fn lemma_skip_sep_to(s: Seq<u8>, p: int, e: int)
    requires
        0 <= p <= e <= s.len(),
    ensures
        p <= skip_sep_to(s, p, e) <= e,
    decreases e - p,
{
    if p < e && is_sep(s[p]) {
        lemma_skip_sep_to(s, p + 1, e);
    }
}

/// Runs the directive pass over a source (see `scan_directives`), blanking its directive
/// lines in place.
pub fn parse_directives(src: &mut Vec<u8>, dirs: &mut Directives) -> (r: Result<(), Diag>)
    ensures
        final(src)@ == scan_directives(old(src)@, 0, dir_spec(*old(dirs))).0,
        match r {
            Ok(_) => scan_directives(old(src)@, 0, dir_spec(*old(dirs))).1 == Ok::<DirSpec, Seq<char>>(dir_spec(*final(dirs))),
            Err(d) => d.code == 2 && scan_directives(old(src)@, 0, dir_spec(*old(dirs))).1 == Err::<DirSpec, Seq<char>>(d.msg@),
        },
{
    let total = src.len();
    let mut line: usize = 0;
    while line < total
        invariant
            total == src@.len(),
            0 <= line <= total,
            scan_directives(src@, line as int, dir_spec(*dirs)) == scan_directives(old(src)@, 0, dir_spec(*old(dirs))),
        decreases total - line,
    {
        let mut e = line;
        while e < total && src[e] != 10
            invariant
                total == src@.len(),
                line <= e <= total,
                next_lf(src@, line as int) == next_lf(src@, e as int),
            decreases total - e,
        {
            e += 1;
        }
        let mut p = line;
        while p < e && (src[p] == 32 || src[p] == 9)
            invariant
                total == src@.len(),
                line <= p <= e <= total,
                skip_sep_to(src@, line as int, e as int) == skip_sep_to(src@, p as int, e as int),
            decreases e - p,
        {
            p += 1;
        }
        proof {
            lemma_skip_sep_to(src@, p as int, e as int);
        }
        let marked = e >= 3 && p <= e - 3 && is_lit(vstd::slice::slice_subrange(src.as_slice(), p, p + 3), "--!");
        if marked {
            let mut q = e;
            while q > p + 3 && (src[q - 1] == 13 || src[q - 1] == 32 || src[q - 1] == 9)
                invariant
                    total == src@.len(),
                    p + 3 <= q <= e <= total,
                    strip_tail(src@.subrange(p + 3, e as int)) == strip_tail(src@.subrange(p + 3, q as int)),
                decreases q,
            {
                proof {
                    assert(src@.subrange(p + 3, q as int).drop_last() =~= src@.subrange(p + 3, q - 1));
                }
                q -= 1;
            }
            let buf = vstd::slice::slice_to_vec(vstd::slice::slice_subrange(src.as_slice(), p + 3, q));
            proof {
                assert(buf@ =~= strip_tail(src@.subrange(p + 3, e as int)));
            }
            match dir_line(buf.as_slice(), dirs) {
                Err(d) => {
                    return Err(d);
                },
                Ok(_) => {},
            }
            let ghost s0 = src@;
            let mut k = line;
            while k < e
                invariant
                    total == src@.len(),
                    s0.len() == total,
                    line <= k <= e <= total,
                    forall|j: int| 0 <= j < total ==> #[trigger] src@[j] == (if line <= j < k { 32u8 } else { s0[j] }),
                decreases e - k,
            {
                src.set(k, 32);
                k += 1;
            }
            proof {
                assert(src@ =~= blank(s0, line as int, e as int));
            }
        }
        if e >= total {
            return Ok(());
        }
        line = e + 1;
    }
    Ok(())
}

/// The directive pass keeps the source's length and every newline where it was, and turns
/// no other byte into a newline: line numbers after the pass are those before it.
pub proof fn lemma_directives_keep_lines(s: Seq<u8>, line: int, d: DirSpec)
    requires
        0 <= line,
    ensures
        scan_directives(s, line, d).0.len() == s.len(),
        forall|k: int|
            0 <= k < s.len() ==> (#[trigger] scan_directives(s, line, d).0[k] == 10) == (s[k] == 10),
    decreases s.len() - line,
{
    if line < s.len() {
        lemma_next_lf(s, line);
        let e = next_lf(s, line);
        lemma_skip_sep_to(s, line, e);
        let p = skip_sep_to(s, line, e);
        if p + 3 <= e && s.subrange(p, p + 3) == lit("--!"@) {
            if let Ok(d2) = dir_line_spec(strip_tail(s.subrange(p + 3, e)), d) {
                let s2 = blank(s, line, e);
                assert forall|k: int| 0 <= k < s.len() implies (s2[k] == 10) == (s[k] == 10) by {
                    if line <= k < e {
                        lemma_no_lf_before(s, line, k);
                    }
                }
                if e < s.len() {
                    lemma_directives_keep_lines(s2, e + 1, d2);
                }
            }
        } else if e < s.len() {
            lemma_directives_keep_lines(s, e + 1, d);
        }
    }
}

proof fn lemma_no_lf_before(s: Seq<u8>, i: int, k: int)
    requires
        0 <= i <= k < next_lf(s, i),
        next_lf(s, i) <= s.len(),
    ensures
        s[k] != 10,
    decreases k - i,
{
    if i < k {
        lemma_no_lf_before(s, i + 1, k);
    }
}

/* ---------- comparing token streams ---------- */

/// Whether a token is a line separator or the end marker.
pub open spec fn sep_kind(k: TokKind) -> bool {
    k == TokKind::Nl || k == TokKind::Eof
}

/// The first token at or after `i` that is neither a separator nor the end marker.
pub open spec fn next_tok(ks: Seq<TokKind>, i: nat) -> nat
    decreases ks.len() - i,
{
    if i < ks.len() && sep_kind(ks[i as int]) {
        next_tok(ks, i + 1)
    } else {
        i
    }
}

pub proof fn lemma_next_tok(ks: Seq<TokKind>, i: nat)
    ensures
        i <= next_tok(ks, i),
        i <= ks.len() ==> next_tok(ks, i) <= ks.len(),
    decreases ks.len() - i,
{
    if i < ks.len() && sep_kind(ks[i as int]) {
        lemma_next_tok(ks, i + 1);
    }
}

/// Whether two token streams say the same from positions `i` and `j` on, separators and end
/// markers skipped: the same kinds, the same numbers (as the doubles they read as), and the
/// same names, where two different spellings of a name or alias token still agree when both
/// name the same registry declaration.
pub open spec fn same_from(a: Toks, b: Toks, av: Seq<u64>, bv: Seq<u64>, it: Seq<Seq<char>>, v: RegistryView, i: nat, j: nat) -> bool
    decreases a.kind@.len() - i,
{
    let i2 = next_tok(a.kind@, i);
    let j2 = next_tok(b.kind@, j);
    if i2 >= a.kind@.len() || j2 >= b.kind@.len() {
        i2 >= a.kind@.len() && j2 >= b.kind@.len()
    } else if a.kind@[i2 as int] != b.kind@[j2 as int] || av[i2 as int] != bv[j2 as int] {
        false
    } else if a.name@[i2 as int] != b.name@[j2 as int] && !((a.kind@[i2 as int] == TokKind::Name
        || a.kind@[i2 as int] == TokKind::Alias) && find_entry(v, it[a.name@[i2 as int].0 as int]) is Some
        && find_entry(v, it[a.name@[i2 as int].0 as int]) == find_entry(v, it[b.name@[j2 as int].0 as int])) {
        false
    } else {
        proof {
            lemma_next_tok(a.kind@, i);
        }
        same_from(a, b, av, bv, it, v, i2 + 1, j2 + 1)
    }
}

/// Whether the file's tokens and the directive's tokens are the same stream (see
/// `same_from`). Each stream's numbers come as the bit patterns of the doubles they read
/// as; token numbers are never negative or NaN, so equal doubles have equal bits.
pub fn same_stream(a: &Toks, b: &Toks, a_values: &[u64], b_values: &[u64], it: &Interner, view: &RegistryView) -> (r: bool)
    requires
        a.wf(),
        b.wf(),
        a_values@.len() == a.kind@.len(),
        b_values@.len() == b.kind@.len(),
        forall|k: int| 0 <= k < a.name@.len() ==> it.holds(#[trigger] a.name@[k]),
        forall|k: int| 0 <= k < b.name@.len() ==> it.holds(#[trigger] b.name@[k]),
    ensures
        r == same_from(*a, *b, a_values@, b_values@, it@, *view, 0, 0),
{
    let ghost want = same_from(*a, *b, a_values@, b_values@, it@, *view, 0, 0);
    let mut i: usize = 0;
    let mut j: usize = 0;
    loop
        invariant
            a.wf(),
            b.wf(),
            a_values@.len() == a.kind@.len(),
            b_values@.len() == b.kind@.len(),
            forall|k: int| 0 <= k < a.name@.len() ==> it.holds(#[trigger] a.name@[k]),
            forall|k: int| 0 <= k < b.name@.len() ==> it.holds(#[trigger] b.name@[k]),
            i <= a.kind@.len(),
            j <= b.kind@.len(),
            want == same_from(*a, *b, a_values@, b_values@, it@, *view, 0, 0),
            want == same_from(*a, *b, a_values@, b_values@, it@, *view, i as nat, j as nat),
        decreases a.kind@.len() - i,
    {
        let ghost i0 = i as nat;
        let ghost j0 = j as nat;
        while i < a.kind.len() && (a.kind[i] == TokKind::Nl || a.kind[i] == TokKind::Eof)
            invariant
                i0 <= i <= a.kind@.len(),
                next_tok(a.kind@, i0) == next_tok(a.kind@, i as nat),
            decreases a.kind@.len() - i,
        {
            i += 1;
        }
        while j < b.kind.len() && (b.kind[j] == TokKind::Nl || b.kind[j] == TokKind::Eof)
            invariant
                j0 <= j <= b.kind@.len(),
                next_tok(b.kind@, j0) == next_tok(b.kind@, j as nat),
            decreases b.kind@.len() - j,
        {
            j += 1;
        }
        proof {
            assert(next_tok(a.kind@, i as nat) == i as nat);
            assert(next_tok(b.kind@, j as nat) == j as nat);
            assert(want == same_from(*a, *b, a_values@, b_values@, it@, *view, i0, j0));
        }
        if i >= a.kind.len() || j >= b.kind.len() {
            return i >= a.kind.len() && j >= b.kind.len();
        }
        if a.kind[i] != b.kind[j] || a_values[i] != b_values[j] {
            return false;
        }
        if a.name[i].0 != b.name[j].0 {
            if a.kind[i] != TokKind::Name && a.kind[i] != TokKind::Alias {
                return false;
            }
            proof {
                assert(it.holds(a.name@[i as int]));
                assert(it.holds(b.name@[j as int]));
            }
            let ex = find(view, it.resolve(a.name[i]));
            let ey = find(view, it.resolve(b.name[j]));
            let agree = match (ex, ey) {
                (Some(x), Some(y)) => x == y,
                _ => false,
            };
            if !agree {
                return false;
            }
        }
        i += 1;
        j += 1;
    }
}

} // verus!
