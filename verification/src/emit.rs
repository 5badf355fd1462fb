//! The pure helpers of the BQN backend: refusal texts, identifier tests on emitted text, guard
//! conjunction, the row-domain and traversal-order lineage laws of scan values, the small
//! spellings the lowering prints, the walks over the syntax tree that find frames, generators
//! and despawns, and the audit of relationship writes in the emitted text.
use vstd::prelude::*;
use vstd::string::StringSliceAdditionalSpecFns;
use crate::{BindKind, Diag, Node, NodeKind, Symbol};
use crate::alias::{LookupMode, same_text, dec_value, is_digit, lemma_dec_value_monotone};
use crate::text::{
    cat, chars_of, string_of, lossy_span, lossy_text, i64_text, int_spelling, dec_spelling, u64_text,
};

verus! {

/* ---------- lookup spellings ---------- */

/// The spelling a lookup refusal prints: `^name` keeps its sigil.
pub open spec fn spelled_spec(req: Seq<char>, lm: LookupMode) -> Seq<char> {
    match lm {
        LookupMode::Bare => req,
        LookupMode::DynamicAliasThenBare => "^"@ + req,
    }
}

/// The requested stem as a refusal spells it (see `spelled_spec`).
pub fn spelled(req: &str, lm: LookupMode) -> (s: String)
    ensures
        s@ == spelled_spec(req@, lm),
{
    match lm {
        LookupMode::Bare => String::from_str(req),
        LookupMode::DynamicAliasThenBare => cat("^", req),
    }
}

/// Whether the overlay moved a `^name` lookup off its source spelling, so that a refusal
/// must name both.
pub fn moved(n: &str, req: &str, lm: LookupMode) -> (b: bool)
    ensures
        b == (lm == LookupMode::DynamicAliasThenBare && n@ != req@),
{
    match lm {
        LookupMode::Bare => false,
        LookupMode::DynamicAliasThenBare => !same_text(n, req),
    }
}

/* ---------- frames ---------- */

/// The shape a statement evaluates over: the entity world, a 2-D lattice, a 1-D line, or a
/// board literal.
#[derive(Debug, Clone, Copy, PartialEq, Eq)]
pub enum FrameKind {
    Ent,
    Lat,
    Line,
    Board,
}

/// A frame: its kind, width and height, and the glyph run of a board literal.
#[derive(Debug, Clone)]
pub struct Frame {
    pub kind: FrameKind,
    pub w: i32,
    pub h: i32,
    pub lit: String,
}

impl Frame {
    /// The entity-world frame.
    pub fn ent() -> (f: Frame)
        ensures
            f.kind == FrameKind::Ent,
            f.w == 0,
            f.h == 0,
            f.lit@ == Seq::<char>::empty(),
    {
        Frame { kind: FrameKind::Ent, w: 0, h: 0, lit: String::new() }
    }
}

/* ---------- refusals ---------- */

/// The number of bytes the UTF-8 encoding of a character takes.
pub open spec fn char_width(c: char) -> nat {
    if (c as u32) < 0x80 {
        1
    } else if (c as u32) < 0x800 {
        2
    } else if (c as u32) < 0x10000 {
        3
    } else {
        4
    }
}

/// How many leading characters of `s` fit in `budget` bytes of UTF-8.
pub open spec fn fit(s: Seq<char>, budget: int) -> nat
    decreases s.len(),
{
    if s.len() == 0 || char_width(s[0]) > budget {
        0
    } else {
        1 + fit(s.skip(1), budget - char_width(s[0]))
    }
}

/// A message cut to the longest character prefix whose UTF-8 encoding fits in 399 bytes (the
/// whole message when it does).
pub open spec fn clip399_spec(s: Seq<char>) -> Seq<char> {
    s.take(fit(s, 399) as int)
}

fn width_of_char(c: char) -> (w: u32)
    ensures
        w == char_width(c),
{
    let u = c as u32;
    if u < 0x80 {
        1
    } else if u < 0x800 {
        2
    } else if u < 0x10000 {
        3
    } else {
        4
    }
}

proof fn lemma_fit_bound(s: Seq<char>, budget: int)
    ensures
        fit(s, budget) <= s.len(),
    decreases s.len(),
{
    if s.len() > 0 && char_width(s[0]) <= budget {
        lemma_fit_bound(s.skip(1), budget - char_width(s[0]));
    }
}

/// A message cut to at most 399 bytes of UTF-8, whole characters only (see `clip399_spec`).
pub fn clip399(msg: &str) -> (r: String)
    ensures
        r@ == clip399_spec(msg@),
{
    let v = chars_of(msg);
    let mut budget: u32 = 399;
    let mut k: usize = 0;
    proof {
        lemma_fit_bound(msg@, 399);
        assert(msg@.skip(0) =~= msg@);
    }
    while k < v.len() && width_of_char(v[k]) <= budget
        invariant
            v@ == msg@,
            0 <= k <= v@.len(),
            budget <= 399,
            k + fit(msg@.skip(k as int), budget as int) == fit(msg@, 399),
        decreases v@.len() - k,
    {
        proof {
            assert(msg@.skip(k as int)[0] == v@[k as int]);
            assert(msg@.skip(k as int).skip(1) =~= msg@.skip(k + 1));
        }
        budget = budget - width_of_char(v[k]);
        k += 1;
    }
    proof {
        if k < v@.len() {
            assert(msg@.skip(k as int)[0] == v@[k as int]);
        }
    }
    let mut out: Vec<char> = Vec::new();
    let mut j: usize = 0;
    while j < k
        invariant
            v@ == msg@,
            0 <= j <= k <= v@.len(),
            out@ =~= msg@.take(j as int),
        decreases k - j,
    {
        out.push(v[j]);
        j += 1;
    }
    string_of(out.as_slice())
}

/// The text of a backend refusal: "emit: line <n>: <message cut to 399 bytes>".
pub open spec fn emit_fail_text(line: int, msg: Seq<char>) -> Seq<char> {
    "emit: line "@ + int_spelling(line) + ": "@ + clip399_spec(msg)
}

/// A backend refusal at a source line.
pub fn fail(line: i32, msg: &str) -> (d: Diag)
    ensures
        d.msg@ == emit_fail_text(line as int, msg@),
        d.code == 2,
{
    let num = i64_text(line as i64);
    let head = cat("emit: line ", num.as_str());
    let head2 = cat(head.as_str(), ": ");
    let body = clip399(msg);
    Diag::refuse(cat(head2.as_str(), body.as_str()))
}

/* ---------- BQN identifiers ---------- */

/// An ASCII letter.
pub open spec fn is_alpha(c: char) -> bool {
    ('A' <= c && c <= 'Z') || ('a' <= c && c <= 'z')
}

/// A BQN identifier character: an ASCII letter or digit, or '_'.
pub open spec fn ident_char_spec(c: char) -> bool {
    is_alpha(c) || ('0' <= c && c <= '9') || c == '_'
}

/// Whether a name is a legal BQN identifier: `[A-Za-z][A-Za-z0-9_]*`.
pub open spec fn bqnlegal_spec(n: Seq<char>) -> bool {
    &&& n.len() > 0
    &&& is_alpha(n[0])
    &&& forall|k: int| 1 <= k < n.len() ==> ident_char_spec(#[trigger] n[k])
}

/// A BQN identifier character (see `ident_char_spec`).
pub fn ident_char(c: char) -> (b: bool)
    ensures
        b == ident_char_spec(c),
{
    ('A' <= c && c <= 'Z') || ('a' <= c && c <= 'z') || ('0' <= c && c <= '9') || c == '_'
}

/// Whether a name is a legal BQN identifier (see `bqnlegal_spec`).
pub fn bqnlegal(n: &str) -> (b: bool)
    ensures
        b == bqnlegal_spec(n@),
{
    let v = chars_of(n);
    if v.len() == 0 {
        return false;
    }
    let c0 = v[0];
    if !(('A' <= c0 && c0 <= 'Z') || ('a' <= c0 && c0 <= 'z')) {
        return false;
    }
    let mut k: usize = 1;
    while k < v.len()
        invariant
            v@ == n@,
            1 <= k <= v@.len(),
            forall|j: int| 1 <= j < k ==> ident_char_spec(#[trigger] n@[j]),
        decreases v@.len() - k,
    {
        if !ident_char(v[k]) {
            return false;
        }
        k += 1;
    }
    true
}

/// A BQN identifier byte: an ASCII letter or digit, or '_'.
pub open spec fn ident_byte(b: u8) -> bool {
    (65 <= b <= 90) || (97 <= b <= 122) || (48 <= b <= 57) || b == 95
}

/// Whether the bytes `e[at..end]` stand as a whole identifier: no identifier byte touches
/// either side.
pub open spec fn whole_at(e: Seq<u8>, at: int, end: int) -> bool {
    &&& (at == 0 || !ident_byte(e[at - 1]))
    &&& (end == e.len() || !ident_byte(e[end]))
}

/// Whether byte `i` of UTF-8 text starts a character or ends the text.
pub open spec fn char_boundary(e: Seq<u8>, i: int) -> bool {
    i == e.len() || (e[i] & 0xC0) != 0x80
}

/// Scanning for the non-empty pattern `n` from `i` on, taking matches left to right without
/// overlap: whether one of them stands as a whole identifier.
pub open spec fn whole_match_from(e: Seq<u8>, n: Seq<u8>, i: int) -> bool
    decreases e.len() - i,
{
    if n.len() == 0 || i < 0 || i + n.len() > e.len() {
        false
    } else if e.subrange(i, i + n.len()) == n {
        whole_at(e, i, i + n.len()) || whole_match_from(e, n, i + n.len())
    } else {
        whole_match_from(e, n, i + 1)
    }
}

/// Whether `name` occurs in `expr` as one whole identifier, never as a piece of a longer one
/// (`t1` is not mentioned by `t10`). Occurrences are those `str::match_indices` reports: for
/// a non-empty name, the leftmost non-overlapping matches; for the empty name, every
/// character boundary.
pub open spec fn mentions_spec(expr: Seq<u8>, name: Seq<u8>) -> bool {
    if name.len() == 0 {
        exists|at: int| 0 <= at <= expr.len() && char_boundary(expr, at) && whole_at(expr, at, at)
    } else {
        whole_match_from(expr, name, 0)
    }
}

fn is_ident_byte(b: u8) -> (r: bool)
    ensures
        r == ident_byte(b),
{
    (65 <= b && b <= 90) || (97 <= b && b <= 122) || (48 <= b && b <= 57) || b == 95
}

fn whole_at_exec(e: &[u8], at: usize, end: usize) -> (r: bool)
    requires
        at <= end <= e@.len(),
    ensures
        r == whole_at(e@, at as int, end as int),
{
    (at == 0 || !is_ident_byte(e[at - 1])) && (end == e.len() || !is_ident_byte(e[end]))
}

fn bytes_at(e: &[u8], i: usize, n: &[u8]) -> (r: bool)
    requires
        i + n@.len() <= e@.len(),
    ensures
        r == (e@.subrange(i as int, i + n@.len()) == n@),
{
    let mut k: usize = 0;
    while k < n.len()
        invariant
            i + n@.len() <= e@.len(),
            e@.len() == e.len(),
            0 <= k <= n@.len(),
            forall|j: int| 0 <= j < k ==> e@[i + j] == n@[j],
        decreases n@.len() - k,
    {
        if e[i + k] != n[k] {
            proof {
                assert(e@.subrange(i as int, i + n@.len())[k as int] != n@[k as int]);
            }
            return false;
        }
        k += 1;
    }
    proof {
        assert(e@.subrange(i as int, i + n@.len()) =~= n@);
    }
    true
}

/// Whether `name` occurs in `expr` as one whole BQN identifier (see `mentions_spec`).
pub fn mentions_bqn_name(expr: &str, name: &str) -> (b: bool)
    ensures
        b == mentions_spec(expr.spec_bytes(), name.spec_bytes()),
{
    let e = expr.as_bytes();
    let n = name.as_bytes();
    if n.len() == 0 {
        let mut at: usize = 0;
        while at < e.len()
            invariant
                e@ == expr.spec_bytes(),
                n@ == name.spec_bytes(),
                n@.len() == 0,
                e@.len() == e.len(),
                0 <= at <= e@.len(),
                forall|j: int|
                    0 <= j < at ==> !(char_boundary(e@, j) && whole_at(e@, j, j)),
            decreases e@.len() - at,
        {
            if (e[at] & 0xC0) != 0x80 && whole_at_exec(e, at, at) {
                proof {
                    assert(char_boundary(e@, at as int) && whole_at(e@, at as int, at as int));
                }
                return true;
            }
            at += 1;
        }
        if whole_at_exec(e, at, at) {
            proof {
                assert(char_boundary(e@, at as int) && whole_at(e@, at as int, at as int));
            }
            return true;
        }
        proof {
            assert forall|j: int| 0 <= j <= e@.len() implies !(char_boundary(e@, j) && whole_at(
                e@,
                j,
                j,
            )) by {
                if j == e@.len() {
                    assert(!whole_at(e@, at as int, at as int));
                }
            }
        }
        return false;
    }
    let mut i: usize = 0;
    while n.len() <= e.len() && i <= e.len() - n.len()
        invariant
            e@ == expr.spec_bytes(),
            e@.len() == e.len(),
            n@ == name.spec_bytes(),
            n@.len() > 0,
            0 <= i,
            whole_match_from(e@, n@, i as int) == mentions_spec(e@, n@),
        decreases e@.len() - i,
    {
        if bytes_at(e, i, n) {
            if whole_at_exec(e, i, i + n.len()) {
                return true;
            }
            i = i + n.len();
        } else {
            i = i + 1;
        }
    }
    false
}

/// The name with its first character ASCII-lowercased, the rest exact.
pub open spec fn lc_spec(n: Seq<char>) -> Seq<char> {
    if n.len() == 0 {
        n
    } else {
        seq![crate::alias::fold_char(n[0])] + n.skip(1)
    }
}

/// The name with its first character ASCII-lowercased (see `lc_spec`).
pub fn lc(n: &str) -> (r: String)
    ensures
        r@ == lc_spec(n@),
{
    let v = chars_of(n);
    if v.len() == 0 {
        return String::new();
    }
    let mut out: Vec<char> = Vec::new();
    out.push(crate::alias::fold_one(v[0]));
    let mut k: usize = 1;
    while k < v.len()
        invariant
            v@ == n@,
            1 <= k <= v@.len(),
            out@ =~= seq![crate::alias::fold_char(n@[0])] + n@.subrange(1, k as int),
        decreases v@.len() - k,
    {
        out.push(v[k]);
        k += 1;
    }
    proof {
        assert(n@.subrange(1, n@.len() as int) =~= n@.skip(1));
    }
    string_of(out.as_slice())
}

/* ---------- guards and lineage ---------- */

/// The text of an optional string.
pub open spec fn opt_text(o: Option<String>) -> Option<Seq<char>> {
    match o {
        Some(s) => Some(s@),
        None => None,
    }
}

/// Guard conjunction, `None` being the total guard: either side alone, or both
/// parenthesized and joined by `∧`.
pub open spec fn g_and_spec(a: Option<Seq<char>>, b: Option<Seq<char>>) -> Option<Seq<char>> {
    match (a, b) {
        (None, b) => b,
        (a, None) => a,
        (Some(x), Some(y)) => Some("("@ + x + ")∧("@ + y + ")"@),
    }
}

/// Guard conjunction (see `g_and_spec`).
pub fn g_and(a: Option<String>, b: Option<String>) -> (r: Option<String>)
    ensures
        opt_text(r) == g_and_spec(opt_text(a), opt_text(b)),
{
    match (a, b) {
        (None, b) => b,
        (a, None) => a,
        (Some(x), Some(y)) => {
            let t1 = cat("(", x.as_str());
            let t2 = cat(t1.as_str(), ")∧(");
            let t3 = cat(t2.as_str(), y.as_str());
            Some(cat(t3.as_str(), ")"))
        },
    }
}

/// A lowered value: its BQN expression, its world-space guard (and whether that guard is a
/// validity guard), its value shape, the row order of an ordered scan, the world-row vector a
/// scan result is aligned with, and the relationship whose values it holds.
#[derive(Debug, Clone)]
pub struct Ev {
    pub v: String,
    pub g: Option<String>,
    pub gv: bool,
    pub pair: bool,
    pub unit: bool,
    pub sym: bool,
    pub along: Option<String>,
    pub domain: Option<String>,
    pub rel_ent: Option<usize>,
}

/// The row-domain lineage of a pointwise dyad: equal domains join; a scalar, or an ordinary
/// column evaluated over exactly the implicit row vector, extends over a scan's domain;
/// anything else is refused.
pub open spec fn domain_join_spec(
    a: Option<Seq<char>>,
    a_unit: bool,
    b: Option<Seq<char>>,
    b_unit: bool,
    implicit: Option<Seq<char>>,
    line: int,
) -> Result<Option<Seq<char>>, Seq<char>> {
    match (a, b) {
        (None, None) => Ok(None),
        (Some(x), Some(y)) => if x == y {
            Ok(Some(x))
        } else {
            Err(emit_fail_text(line, "values from distinct scan domains cannot compose"@))
        },
        (Some(x), None) => if b_unit || implicit == Some(x) {
            Ok(Some(x))
        } else {
            Err(emit_fail_text(line, "scan value composed against a value without its row domain"@))
        },
        (None, Some(y)) => if a_unit || implicit == Some(y) {
            Ok(Some(y))
        } else {
            Err(emit_fail_text(line, "scan value composed against a value without its row domain"@))
        },
    }
}

/// The traversal-order lineage of a pointwise dyad: equal orders join, a scalar extends over
/// an ordered scan, anything else is refused.
pub open spec fn order_join_spec(
    a: Option<Seq<char>>,
    a_unit: bool,
    b: Option<Seq<char>>,
    b_unit: bool,
    line: int,
) -> Result<Option<Seq<char>>, Seq<char>> {
    match (a, b) {
        (None, None) => Ok(None),
        (Some(x), Some(y)) => if x == y {
            Ok(Some(x))
        } else {
            Err(emit_fail_text(line, "scan-along composed against a differently-ordered operand"@))
        },
        (Some(x), None) => if b_unit {
            Ok(Some(x))
        } else {
            Err(emit_fail_text(line, "scan-along composed against a differently-ordered operand"@))
        },
        (None, Some(y)) => if a_unit {
            Ok(Some(y))
        } else {
            Err(emit_fail_text(line, "scan-along composed against a differently-ordered operand"@))
        },
    }
}

/// A lineage result as text: the joined value, or the refusal's message.
pub open spec fn joined(r: Result<Option<String>, Diag>) -> Result<Option<Seq<char>>, Seq<char>> {
    match r {
        Ok(o) => Ok(opt_text(o)),
        Err(d) => Err(d.msg@),
    }
}

fn opt_same(a: Option<&str>, b: &str) -> (r: bool)
    ensures
        r == (a matches Some(x) && x@ == b@),
{
    match a {
        Some(x) => same_text(x, b),
        None => false,
    }
}

fn copy_text(s: &String) -> (r: String)
    ensures
        r@ == s@,
{
    String::from_str(s.as_str())
}

/// The row-domain lineage of a pointwise dyad (see `domain_join_spec`).
pub fn scan_domain_join(a: &Ev, b: &Ev, implicit: Option<&str>, line: i32) -> (r: Result<
    Option<String>,
    Diag,
>)
    ensures
        joined(r) == domain_join_spec(
            opt_text(a.domain),
            a.unit,
            opt_text(b.domain),
            b.unit,
            match implicit {
                Some(s) => Some(s@),
                None => None,
            },
            line as int,
        ),
        r matches Err(d) ==> d.code == 2,
{
    match (&a.domain, &b.domain) {
        (None, None) => Ok(None),
        (Some(x), Some(y)) => {
            if same_text(x.as_str(), y.as_str()) {
                Ok(Some(copy_text(x)))
            } else {
                Err(fail(line, "values from distinct scan domains cannot compose"))
            }
        },
        (Some(x), None) => {
            if b.unit || opt_same(implicit, x.as_str()) {
                Ok(Some(copy_text(x)))
            } else {
                Err(fail(line, "scan value composed against a value without its row domain"))
            }
        },
        (None, Some(y)) => {
            if a.unit || opt_same(implicit, y.as_str()) {
                Ok(Some(copy_text(y)))
            } else {
                Err(fail(line, "scan value composed against a value without its row domain"))
            }
        },
    }
}

/// The traversal-order lineage of a pointwise dyad (see `order_join_spec`).
pub fn scan_order_join(a: &Ev, b: &Ev, line: i32) -> (r: Result<Option<String>, Diag>)
    ensures
        joined(r) == order_join_spec(opt_text(a.along), a.unit, opt_text(b.along), b.unit, line as int),
        r matches Err(d) ==> d.code == 2,
{
    match (&a.along, &b.along) {
        (None, None) => Ok(None),
        (Some(x), Some(y)) => {
            if same_text(x.as_str(), y.as_str()) {
                Ok(Some(copy_text(x)))
            } else {
                Err(fail(line, "scan-along composed against a differently-ordered operand"))
            }
        },
        (Some(x), None) => {
            if b.unit {
                Ok(Some(copy_text(x)))
            } else {
                Err(fail(line, "scan-along composed against a differently-ordered operand"))
            }
        },
        (None, Some(y)) => {
            if a.unit {
                Ok(Some(copy_text(y)))
            } else {
                Err(fail(line, "scan-along composed against a differently-ordered operand"))
            }
        },
    }
}

/* ---------- spellings ---------- */

/// The word a diagnostic prints for a binding kind.
pub open spec fn bind_kind_word(k: BindKind) -> Seq<char> {
    match k {
        BindKind::Entity => "entity"@,
        BindKind::Mask => "mask"@,
        BindKind::Point => "point"@,
        BindKind::Num => "num"@,
        BindKind::Vec => "vec"@,
    }
}

/// The word a diagnostic prints for a binding kind (see `bind_kind_word`).
pub fn bind_kind_str(k: BindKind) -> (s: &'static str)
    ensures
        s@ == bind_kind_word(k),
{
    match k {
        BindKind::Entity => "entity",
        BindKind::Mask => "mask",
        BindKind::Point => "point",
        BindKind::Num => "num",
        BindKind::Vec => "vec",
    }
}

/// A byte C's `isspace` accepts: space, tab, newline, vertical tab, form feed, return.
pub open spec fn c_space(b: u8) -> bool {
    b == 32 || b == 9 || b == 10 || b == 11 || b == 12 || b == 13
}

/// The first byte at or after `i` that is not a C space.
pub open spec fn skip_c_space(b: Seq<u8>, i: int) -> int
    decreases b.len() - i,
{
    if 0 <= i < b.len() && c_space(b[i]) {
        skip_c_space(b, i + 1)
    } else {
        i
    }
}

/// The end of a word starting at `i`: the next C space, the end, or `max` bytes on.
pub open spec fn word_end_within(b: Seq<u8>, i: int, max: int) -> int
    decreases max,
{
    if max <= 0 || i < 0 || i >= b.len() || c_space(b[i]) {
        i
    } else {
        word_end_within(b, i + 1, max - 1)
    }
}

/// The first word of a verb's raw text, as `sscanf("%63s")` reads it: C spaces skipped, then
/// at most 63 bytes up to the next C space, decoded with ill-formed runs replaced.
pub open spec fn verb_target_spec(raw: Seq<u8>) -> Seq<char> {
    let start = skip_c_space(raw, 0);
    lossy_text(raw.subrange(start, word_end_within(raw, start, 63)))
}

fn is_c_space(b: u8) -> (r: bool)
    ensures
        r == c_space(b),
{
    b == 32 || b == 9 || b == 10 || b == 11 || b == 12 || b == 13
}

/// The first word of a verb's raw text (see `verb_target_spec`).
pub fn verb_target(raw: &str) -> (s: String)
    ensures
        s@ == verb_target_spec(raw.spec_bytes()),
{
    let b = raw.as_bytes();
    let mut i: usize = 0;
    while i < b.len() && is_c_space(b[i])
        invariant
            0 <= i <= b@.len(),
            skip_c_space(b@, i as int) == skip_c_space(b@, 0),
        decreases b@.len() - i,
    {
        i += 1;
    }
    let start = i;
    let mut n: usize = 0;
    while i < b.len() && !is_c_space(b[i]) && n < 63
        invariant
            start <= i <= b@.len(),
            n == i - start,
            n <= 63,
            word_end_within(b@, i as int, 63 - n) == word_end_within(b@, start as int, 63),
        decreases b@.len() - i,
    {
        i += 1;
        n += 1;
    }
    lossy_span(b, start, i)
}

/// The serial of the staged binding a publication's right-hand side names: the text starts
/// "anoRelStage", a nonempty run of ASCII digits follows, no identifier character comes
/// right after it, and its value fits a `usize`; `None` otherwise, a longer name that merely
/// starts that way included.
pub open spec fn staged_serial_spec(rhs: Seq<char>) -> Option<usize> {
    let p = "anoRelStage"@;
    if !p.is_prefix_of(rhs) {
        None
    } else {
        let digits = rhs.skip(p.len() as int);
        let end = digit_run_len(digits, 0);
        if end == 0 || (end < digits.len() && ident_char_spec(digits[end])) {
            None
        } else if dec_value(digits.take(end)) > usize::MAX {
            None
        } else {
            Some(dec_value(digits.take(end)) as usize)
        }
    }
}

/// The length of the ASCII digit run at `i`.
pub open spec fn digit_run_len(s: Seq<char>, i: int) -> int
    decreases s.len() - i,
{
    if 0 <= i < s.len() && is_digit(s[i]) {
        digit_run_len(s, i + 1)
    } else {
        i
    }
}

proof fn lemma_digit_run_len(s: Seq<char>, i: int)
    requires
        0 <= i <= s.len(),
    ensures
        i <= digit_run_len(s, i) <= s.len(),
        forall|k: int| i <= k < digit_run_len(s, i) ==> is_digit(#[trigger] s[k]),
    decreases s.len() - i,
{
    if i < s.len() && is_digit(s[i]) {
        lemma_digit_run_len(s, i + 1);
    }
}

/// The serial a publication's right-hand side names (see `staged_serial_spec`).
pub fn staged_serial(rhs: &str) -> (r: Option<usize>)
    ensures
        r == staged_serial_spec(rhs@),
{
    let v = chars_of(rhs);
    let p = chars_of("anoRelStage");
    proof {
        reveal_strlit("anoRelStage");
    }
    if v.len() < p.len() {
        return None;
    }
    let mut k: usize = 0;
    while k < p.len()
        invariant
            v@ == rhs@,
            p@ == "anoRelStage"@,
            p@.len() <= v@.len(),
            0 <= k <= p@.len(),
            forall|j: int| 0 <= j < k ==> v@[j] == p@[j],
        decreases p@.len() - k,
    {
        if v[k] != p[k] {
            return None;
        }
        k += 1;
    }
    proof {
        assert(p@ =~= rhs@.subrange(0, p@.len() as int));
    }
    let ghost digits = rhs@.skip(p@.len() as int);
    proof {
        lemma_digit_run_len(digits, 0);
    }
    let base = p.len();
    let mut i: usize = base;
    let mut acc: usize = 0;
    let mut overflow = false;
    while i < v.len() && '0' <= v[i] && v[i] <= '9'
        invariant
            v@ == rhs@,
            base == p@.len(),
            base <= i <= v@.len(),
            digits == rhs@.skip(base as int),
            digit_run_len(digits, 0) == digit_run_len(digits, i - base),
            !overflow ==> acc == dec_value(digits.take(i - base)),
            overflow ==> dec_value(digits.take(i - base)) > usize::MAX,
        decreases v@.len() - i,
    {
        let d = (v[i] as u32 - 48) as usize;
        proof {
            assert(digits[i - base] == v@[i as int]);
            assert(digits.take(i - base + 1).drop_last() =~= digits.take(i - base));
        }
        if !overflow {
            if acc > (usize::MAX - d) / 10 {
                overflow = true;
            } else {
                acc = acc * 10 + d;
            }
        } else {
            proof {
                lemma_dec_value_monotone(digits, 0, i - base, i - base + 1);
                assert(digits.subrange(0, i - base) =~= digits.take(i - base));
                assert(digits.subrange(0, i - base + 1) =~= digits.take(i - base + 1));
            }
        }
        i += 1;
    }
    proof {
        if i < v@.len() {
            assert(digits[i - base] == v@[i as int]);
        }
    }
    let end = i - base;
    if end == 0 {
        return None;
    }
    if i < v.len() && ident_char(v[i]) {
        proof {
            assert(digits[end as int] == v@[i as int]);
        }
        return None;
    }
    if overflow {
        return None;
    }
    Some(acc)
}

/* ---------- semantic carriers ---------- */

/// The reading a value takes when a mixed comparison or reducer resolves over it.
#[derive(Debug, Clone, Copy, PartialEq, Eq)]
pub enum SemanticCarrier {
    Mask,
    Number,
    Char,
    Sym,
    Other,
}

impl SemanticCarrier {
    /// The word a refusal names the carrier by.
    pub open spec fn word(self) -> Seq<char> {
        match self {
            SemanticCarrier::Mask => "mask"@,
            SemanticCarrier::Number => "number"@,
            SemanticCarrier::Char => "char"@,
            SemanticCarrier::Sym => "sym"@,
            SemanticCarrier::Other => "value"@,
        }
    }

    /// The order a refusal names two carriers in: mask, number, char, sym, value.
    pub open spec fn order(self) -> u8 {
        match self {
            SemanticCarrier::Mask => 0,
            SemanticCarrier::Number => 1,
            SemanticCarrier::Char => 2,
            SemanticCarrier::Sym => 3,
            SemanticCarrier::Other => 4,
        }
    }

    /// The word a refusal names the carrier by (see `word`).
    pub fn name(self) -> (s: &'static str)
        ensures
            s@ == self.word(),
    {
        match self {
            SemanticCarrier::Mask => "mask",
            SemanticCarrier::Number => "number",
            SemanticCarrier::Char => "char",
            SemanticCarrier::Sym => "sym",
            SemanticCarrier::Other => "value",
        }
    }

    /// The fixed position of the carrier in a refusal (see `order`), so that one mixture has
    /// one diagnostic however it was written.
    pub fn rank(self) -> (r: u8)
        ensures
            r == self.order(),
    {
        match self {
            SemanticCarrier::Mask => 0,
            SemanticCarrier::Number => 1,
            SemanticCarrier::Char => 2,
            SemanticCarrier::Sym => 3,
            SemanticCarrier::Other => 4,
        }
    }
}

/// Distinct carriers hold distinct ranks, so ranking names two carriers in one order.
pub proof fn lemma_rank_injective(a: SemanticCarrier, b: SemanticCarrier)
    ensures
        a.order() == b.order() ==> a == b,
{
}

/* ---------- walking the syntax tree ---------- */

/// An optional kid as a sequence of zero or one nodes.
pub open spec fn opt_kid(o: Option<Box<Node>>) -> Seq<Node> {
    match o {
        Some(b) => seq![*b],
        None => Seq::empty(),
    }
}

/// A node's kids in the order the generic traversal visits them; a set hop's and a
/// presence-any comparison's name is no kid.
pub open spec fn kids(nd: Node) -> Seq<Node> {
    match nd.kind {
        NodeKind::Not(a) => seq![*a],
        NodeKind::IotaX(a) => seq![*a],
        NodeKind::Expand(a) => seq![*a],
        NodeKind::Query(a) => seq![*a],
        NodeKind::And(a, b) => seq![*a, *b],
        NodeKind::Or(a, b) => seq![*a, *b],
        NodeKind::Cmp { l, r, .. } => seq![*l, *r],
        NodeKind::Arith { l, r, .. } => seq![*l, *r],
        NodeKind::Hop { l, r } => seq![*l, *r],
        NodeKind::Scope { l, r, origin } => seq![*l, *r] + opt_kid(origin),
        NodeKind::Call { args, .. } => args@,
        NodeKind::EVerb { args, .. } => args@,
        NodeKind::Fold { operand, .. } => seq![*operand],
        NodeKind::ScanExpr { operand, .. } => seq![*operand],
        NodeKind::ScanAlong { col, order, .. } => seq![*col, *order],
        NodeKind::Shape(v) => v@,
        NodeKind::Tuple(v) => v@,
        NodeKind::Program(v) => v@,
        NodeKind::To { shape, poured } => seq![*shape] + opt_kid(poured),
        NodeKind::Grade { key, .. } => seq![*key],
        NodeKind::Top { inner, .. } => seq![*inner],
        NodeKind::Pipe { src, stages } => seq![*src] + stages@,
        NodeKind::OrderBy { key, .. } => seq![*key],
        NodeKind::CrossV { a, b, .. } => seq![*a, *b],
        NodeKind::Binder { source, .. } => seq![*source],
        NodeKind::EAssign { target, rhs, .. } => seq![*target, *rhs],
        NodeKind::ESpawn { what, count, at } => seq![*what] + opt_kid(count) + opt_kid(at),
        NodeKind::EVia { col, .. } => seq![*col],
        NodeKind::Stmt { sel, effects, .. } => opt_kid(sel) + effects@,
        NodeKind::DefStmt { body, .. } => seq![*body],
        NodeKind::Compr { sel, effect, rest } => seq![*sel, *effect] + rest@,
        _ => Seq::empty(),
    }
}

fn push_opt<'a>(v: &mut Vec<&'a Node>, o: &'a Option<Box<Node>>)
    ensures
        final(v)@.len() == old(v)@.len() + opt_kid(*o).len(),
        forall|i: int| 0 <= i < old(v)@.len() ==> final(v)@[i] == old(v)@[i],
        forall|i: int| 0 <= i < opt_kid(*o).len() ==> *final(v)@[old(v)@.len() + i] == opt_kid(*o)[i],
{
    match o {
        Some(b) => v.push(&**b),
        None => {},
    }
}

fn push_all<'a>(v: &mut Vec<&'a Node>, ns: &'a Vec<Node>)
    ensures
        final(v)@.len() == old(v)@.len() + ns@.len(),
        forall|i: int| 0 <= i < old(v)@.len() ==> final(v)@[i] == old(v)@[i],
        forall|i: int| 0 <= i < ns@.len() ==> *final(v)@[old(v)@.len() + i] == ns@[i],
{
    let ghost start = v@;
    let mut k: usize = 0;
    while k < ns.len()
        invariant
            0 <= k <= ns@.len(),
            v@.len() == start.len() + k,
            forall|i: int| 0 <= i < start.len() ==> v@[i] == start[i],
            forall|i: int| 0 <= i < k ==> *v@[start.len() + i] == ns@[i],
        decreases ns@.len() - k,
    {
        v.push(&ns[k]);
        k += 1;
    }
}

/// A node's kids (see `kids`).
pub fn children<'a>(nd: &'a Node) -> (v: Vec<&'a Node>)
    ensures
        v@.len() == kids(*nd).len(),
        forall|i: int| 0 <= i < v@.len() ==> *v@[i] == kids(*nd)[i],
{
    let mut v: Vec<&'a Node> = Vec::new();
    match &nd.kind {
        NodeKind::Not(a) => v.push(&**a),
        NodeKind::IotaX(a) => v.push(&**a),
        NodeKind::Expand(a) => v.push(&**a),
        NodeKind::Query(a) => v.push(&**a),
        NodeKind::And(a, b) => {
            v.push(&**a);
            v.push(&**b);
        },
        NodeKind::Or(a, b) => {
            v.push(&**a);
            v.push(&**b);
        },
        NodeKind::Cmp { l, r, .. } => {
            v.push(&**l);
            v.push(&**r);
        },
        NodeKind::Arith { l, r, .. } => {
            v.push(&**l);
            v.push(&**r);
        },
        NodeKind::Hop { l, r } => {
            v.push(&**l);
            v.push(&**r);
        },
        NodeKind::Scope { l, r, origin } => {
            v.push(&**l);
            v.push(&**r);
            push_opt(&mut v, origin);
        },
        NodeKind::Call { args, .. } => push_all(&mut v, args),
        NodeKind::EVerb { args, .. } => push_all(&mut v, args),
        NodeKind::Fold { operand, .. } => v.push(&**operand),
        NodeKind::ScanExpr { operand, .. } => v.push(&**operand),
        NodeKind::ScanAlong { col, order, .. } => {
            v.push(&**col);
            v.push(&**order);
        },
        NodeKind::Shape(ns) => push_all(&mut v, ns),
        NodeKind::Tuple(ns) => push_all(&mut v, ns),
        NodeKind::Program(ns) => push_all(&mut v, ns),
        NodeKind::To { shape, poured } => {
            v.push(&**shape);
            push_opt(&mut v, poured);
        },
        NodeKind::Grade { key, .. } => v.push(&**key),
        NodeKind::Top { inner, .. } => v.push(&**inner),
        NodeKind::Pipe { src, stages } => {
            v.push(&**src);
            push_all(&mut v, stages);
        },
        NodeKind::OrderBy { key, .. } => v.push(&**key),
        NodeKind::CrossV { a, b, .. } => {
            v.push(&**a);
            v.push(&**b);
        },
        NodeKind::Binder { source, .. } => v.push(&**source),
        NodeKind::EAssign { target, rhs, .. } => {
            v.push(&**target);
            v.push(&**rhs);
        },
        NodeKind::ESpawn { what, count, at } => {
            v.push(&**what);
            push_opt(&mut v, count);
            push_opt(&mut v, at);
        },
        NodeKind::EVia { col, .. } => v.push(&**col),
        NodeKind::Stmt { sel, effects, .. } => {
            push_opt(&mut v, sel);
            push_all(&mut v, effects);
        },
        NodeKind::DefStmt { body, .. } => v.push(&**body),
        NodeKind::Compr { sel, effect, rest } => {
            v.push(&**sel);
            v.push(&**effect);
            push_all(&mut v, rest);
        },
        _ => {},
    }
    v
}

/// The node kinds a subtree search looks for: an `↕` generator or a despawn effect.
#[derive(Debug, Clone, Copy, PartialEq, Eq, Structural)]
pub enum Sought {
    Iota,
    Despawn,
}

/// Whether a node is itself of the sought kind.
pub open spec fn is_sought(nd: Node, w: Sought) -> bool {
    match w {
        Sought::Iota => nd.kind is IotaX,
        Sought::Despawn => nd.kind is EDespawn,
    }
}

/// Whether an optional kid's subtree holds a node of the sought kind.
pub open spec fn opt_holds(o: Option<Box<Node>>, w: Sought) -> bool
    decreases o, 1nat,
{
    match o {
        Some(b) => holds(*b, w),
        None => false,
    }
}

/// Whether a node's subtree (the node and its kids', as `kids` orders them) holds a node of
/// the sought kind.
pub open spec fn holds(nd: Node, w: Sought) -> bool
    decreases nd, 0nat,
{
    is_sought(nd, w) || match nd.kind {
        NodeKind::Not(a) => holds(*a, w),
        NodeKind::IotaX(a) => holds(*a, w),
        NodeKind::Expand(a) => holds(*a, w),
        NodeKind::Query(a) => holds(*a, w),
        NodeKind::And(a, b) => holds(*a, w) || holds(*b, w),
        NodeKind::Or(a, b) => holds(*a, w) || holds(*b, w),
        NodeKind::Cmp { l, r, .. } => holds(*l, w) || holds(*r, w),
        NodeKind::Arith { l, r, .. } => holds(*l, w) || holds(*r, w),
        NodeKind::Hop { l, r } => holds(*l, w) || holds(*r, w),
        NodeKind::Scope { l, r, origin } => holds(*l, w) || holds(*r, w) || opt_holds(origin, w),
        NodeKind::Call { args, .. } => any_holds(args@, args@.len(), w),
        NodeKind::EVerb { args, .. } => any_holds(args@, args@.len(), w),
        NodeKind::Fold { operand, .. } => holds(*operand, w),
        NodeKind::ScanExpr { operand, .. } => holds(*operand, w),
        NodeKind::ScanAlong { col, order, .. } => holds(*col, w) || holds(*order, w),
        NodeKind::Shape(v) => any_holds(v@, v@.len(), w),
        NodeKind::Tuple(v) => any_holds(v@, v@.len(), w),
        NodeKind::Program(v) => any_holds(v@, v@.len(), w),
        NodeKind::To { shape, poured } => holds(*shape, w) || opt_holds(poured, w),
        NodeKind::Grade { key, .. } => holds(*key, w),
        NodeKind::Top { inner, .. } => holds(*inner, w),
        NodeKind::Pipe { src, stages } => holds(*src, w) || any_holds(stages@, stages@.len(), w),
        NodeKind::OrderBy { key, .. } => holds(*key, w),
        NodeKind::CrossV { a, b, .. } => holds(*a, w) || holds(*b, w),
        NodeKind::Binder { source, .. } => holds(*source, w),
        NodeKind::EAssign { target, rhs, .. } => holds(*target, w) || holds(*rhs, w),
        NodeKind::ESpawn { what, count, at } => holds(*what, w) || opt_holds(count, w) || opt_holds(at, w),
        NodeKind::EVia { col, .. } => holds(*col, w),
        NodeKind::Stmt { sel, effects, .. } => opt_holds(sel, w) || any_holds(effects@, effects@.len(), w),
        NodeKind::DefStmt { body, .. } => holds(*body, w),
        NodeKind::Compr { sel, effect, rest } => holds(*sel, w) || holds(*effect, w) || any_holds(rest@, rest@.len(), w),
        _ => false,
    }
}

/// Whether one of the first `n` nodes' subtrees holds a node of the sought kind.
pub open spec fn any_holds(s: Seq<Node>, n: nat, w: Sought) -> bool
    decreases s, n,
{
    if n == 0 || n > s.len() {
        false
    } else {
        any_holds(s, (n - 1) as nat, w) || holds(s[n - 1], w)
    }
}

fn opt_has(o: &Option<Box<Node>>, w: Sought) -> (r: bool)
    ensures
        r == opt_holds(*o, w),
    decreases *o, 1nat,
{
    match o {
        Some(b) => subtree_has(b, w),
        None => false,
    }
}

fn any_has(ns: &Vec<Node>, n: usize, w: Sought) -> (r: bool)
    requires
        n <= ns@.len(),
    ensures
        r == any_holds(ns@, n as nat, w),
    decreases ns@, n,
{
    if n == 0 {
        return false;
    }
    if any_has(ns, n - 1, w) {
        return true;
    }
    subtree_has(&ns[n - 1], w)
}

/// Whether a node's subtree holds a node of the sought kind (see `holds`).
pub fn subtree_has(nd: &Node, w: Sought) -> (r: bool)
    ensures
        r == holds(*nd, w),
    decreases *nd, 0nat,
{
    let here = match w {
        Sought::Iota => matches!(nd.kind, NodeKind::IotaX(_)),
        Sought::Despawn => matches!(nd.kind, NodeKind::EDespawn),
    };
    if here {
        return true;
    }
    match &nd.kind {
        NodeKind::Not(a) => subtree_has(a, w),
        NodeKind::IotaX(a) => subtree_has(a, w),
        NodeKind::Expand(a) => subtree_has(a, w),
        NodeKind::Query(a) => subtree_has(a, w),
        NodeKind::And(a, b) => subtree_has(a, w) || subtree_has(b, w),
        NodeKind::Or(a, b) => subtree_has(a, w) || subtree_has(b, w),
        NodeKind::Cmp { l, r, .. } => subtree_has(l, w) || subtree_has(r, w),
        NodeKind::Arith { l, r, .. } => subtree_has(l, w) || subtree_has(r, w),
        NodeKind::Hop { l, r } => subtree_has(l, w) || subtree_has(r, w),
        NodeKind::Scope { l, r, origin } => subtree_has(l, w) || subtree_has(r, w) || opt_has(origin, w),
        NodeKind::Call { args, .. } => any_has(args, args.len(), w),
        NodeKind::EVerb { args, .. } => any_has(args, args.len(), w),
        NodeKind::Fold { operand, .. } => subtree_has(operand, w),
        NodeKind::ScanExpr { operand, .. } => subtree_has(operand, w),
        NodeKind::ScanAlong { col, order, .. } => subtree_has(col, w) || subtree_has(order, w),
        NodeKind::Shape(v) => any_has(v, v.len(), w),
        NodeKind::Tuple(v) => any_has(v, v.len(), w),
        NodeKind::Program(v) => any_has(v, v.len(), w),
        NodeKind::To { shape, poured } => subtree_has(shape, w) || opt_has(poured, w),
        NodeKind::Grade { key, .. } => subtree_has(key, w),
        NodeKind::Top { inner, .. } => subtree_has(inner, w),
        NodeKind::Pipe { src, stages } => subtree_has(src, w) || any_has(stages, stages.len(), w),
        NodeKind::OrderBy { key, .. } => subtree_has(key, w),
        NodeKind::CrossV { a, b, .. } => subtree_has(a, w) || subtree_has(b, w),
        NodeKind::Binder { source, .. } => subtree_has(source, w),
        NodeKind::EAssign { target, rhs, .. } => subtree_has(target, w) || subtree_has(rhs, w),
        NodeKind::ESpawn { what, count, at } => subtree_has(what, w) || opt_has(count, w) || opt_has(at, w),
        NodeKind::EVia { col, .. } => subtree_has(col, w),
        NodeKind::Stmt { sel, effects, .. } => opt_has(sel, w) || any_has(effects, effects.len(), w),
        NodeKind::DefStmt { body, .. } => subtree_has(body, w),
        NodeKind::Compr { sel, effect, rest } => subtree_has(sel, w) || subtree_has(effect, w) || any_has(rest, rest.len(), w),
        _ => false,
    }
}

/// Whether an `↕` generator appears anywhere in the subtree.
pub fn contains_iota(nd: &Node) -> (r: bool)
    ensures
        r == holds(*nd, Sought::Iota),
{
    subtree_has(nd, Sought::Iota)
}

/// Whether the subtree holds a despawn effect.
pub fn scan_despawn(nd: &Node) -> (r: bool)
    ensures
        r == holds(*nd, Sought::Despawn),
{
    subtree_has(nd, Sought::Despawn)
}

/// Whether some node of a sequence has a subtree that holds a node of the sought kind.
pub open spec fn some_holds(s: Seq<Node>, w: Sought) -> bool {
    exists|i: int| 0 <= i < s.len() && #[trigger] holds(s[i], w)
}

proof fn lemma_any_holds(s: Seq<Node>, n: nat, w: Sought)
    requires
        n <= s.len(),
    ensures
        any_holds(s, n, w) <==> exists|i: int| 0 <= i < n && #[trigger] holds(s[i], w),
    decreases n,
{
    if n > 0 {
        lemma_any_holds(s, (n - 1) as nat, w);
        if holds(s[n - 1], w) {
            assert(0 <= n - 1 < n && holds(s[n - 1], w));
        }
    }
}

proof fn lemma_all_holds(s: Seq<Node>, w: Sought)
    ensures
        any_holds(s, s.len(), w) <==> some_holds(s, w),
{
    lemma_any_holds(s, s.len(), w);
}

proof fn lemma_opt_holds(o: Option<Box<Node>>, w: Sought)
    ensures
        opt_holds(o, w) <==> some_holds(opt_kid(o), w),
{
    match o {
        Some(b) => {
            let k = opt_kid(o);
            assert(k[0] == *b);
            if holds(*b, w) {
                assert(holds(k[0], w));
            }
            if some_holds(k, w) {
                let i = choose|i: int| 0 <= i < k.len() && #[trigger] holds(k[i], w);
                assert(i == 0);
            }
        },
        None => {},
    }
}

proof fn lemma_one_holds(a: Node, w: Sought)
    ensures
        some_holds(seq![a], w) <==> holds(a, w),
{
    let k = seq![a];
    if holds(a, w) {
        assert(holds(k[0], w));
    }
}

proof fn lemma_two_holds(a: Node, b: Node, w: Sought)
    ensures
        some_holds(seq![a, b], w) <==> (holds(a, w) || holds(b, w)),
{
    let k = seq![a, b];
    if holds(a, w) {
        assert(holds(k[0], w));
    }
    if holds(b, w) {
        assert(holds(k[1], w));
    }
}

proof fn lemma_concat_holds(a: Seq<Node>, b: Seq<Node>, w: Sought)
    ensures
        some_holds(a + b, w) <==> (some_holds(a, w) || some_holds(b, w)),
{
    let ab = a + b;
    if some_holds(ab, w) {
        let i = choose|i: int| 0 <= i < ab.len() && #[trigger] holds(ab[i], w);
        if i < a.len() {
            assert(a[i] == ab[i]);
        } else {
            assert(b[i - a.len()] == ab[i]);
        }
    }
    if some_holds(a, w) {
        let i = choose|i: int| 0 <= i < a.len() && #[trigger] holds(a[i], w);
        assert(ab[i] == a[i]);
    }
    if some_holds(b, w) {
        let i = choose|i: int| 0 <= i < b.len() && #[trigger] holds(b[i], w);
        assert(ab[i + a.len()] == b[i]);
    }
}

proof fn lemma_kids_with_options(nd: Node, w: Sought)
    requires
        nd.kind is Scope || nd.kind is To || nd.kind is ESpawn || nd.kind is Stmt,
    ensures
        holds(nd, w) <==> (is_sought(nd, w) || some_holds(kids(nd), w)),
{
    match nd.kind {
        NodeKind::Scope { l, r, origin } => {
            lemma_two_holds(*l, *r, w);
            lemma_opt_holds(origin, w);
            lemma_concat_holds(seq![*l, *r], opt_kid(origin), w);
        },
        NodeKind::To { shape, poured } => {
            lemma_one_holds(*shape, w);
            lemma_opt_holds(poured, w);
            lemma_concat_holds(seq![*shape], opt_kid(poured), w);
        },
        NodeKind::ESpawn { what, count, at } => {
            lemma_one_holds(*what, w);
            lemma_opt_holds(count, w);
            lemma_opt_holds(at, w);
            lemma_concat_holds(seq![*what], opt_kid(count), w);
            lemma_concat_holds(seq![*what] + opt_kid(count), opt_kid(at), w);
        },
        NodeKind::Stmt { sel, effects, .. } => {
            lemma_opt_holds(sel, w);
            lemma_all_holds(effects@, w);
            lemma_concat_holds(opt_kid(sel), effects@, w);
        },
        _ => {},
    }
}

proof fn lemma_kids_with_lists(nd: Node, w: Sought)
    requires
        nd.kind is Call || nd.kind is EVerb || nd.kind is Shape || nd.kind is Tuple
            || nd.kind is Program || nd.kind is Pipe || nd.kind is Compr,
    ensures
        holds(nd, w) <==> (is_sought(nd, w) || some_holds(kids(nd), w)),
{
    match nd.kind {
        NodeKind::Call { args, .. } => lemma_all_holds(args@, w),
        NodeKind::EVerb { args, .. } => lemma_all_holds(args@, w),
        NodeKind::Shape(v) => lemma_all_holds(v@, w),
        NodeKind::Tuple(v) => lemma_all_holds(v@, w),
        NodeKind::Program(v) => lemma_all_holds(v@, w),
        NodeKind::Pipe { src, stages } => {
            lemma_one_holds(*src, w);
            lemma_all_holds(stages@, w);
            lemma_concat_holds(seq![*src], stages@, w);
        },
        NodeKind::Compr { sel, effect, rest } => {
            lemma_two_holds(*sel, *effect, w);
            lemma_all_holds(rest@, w);
            lemma_concat_holds(seq![*sel, *effect], rest@, w);
        },
        _ => {},
    }
}

proof fn lemma_kids_fixed(nd: Node, w: Sought)
    requires
        !(nd.kind is Scope || nd.kind is To || nd.kind is ESpawn || nd.kind is Stmt),
        !(nd.kind is Call || nd.kind is EVerb || nd.kind is Shape || nd.kind is Tuple
            || nd.kind is Program || nd.kind is Pipe || nd.kind is Compr),
    ensures
        holds(nd, w) <==> (is_sought(nd, w) || some_holds(kids(nd), w)),
{
    let ks = kids(nd);
    if ks.len() == 1 {
        lemma_one_holds(ks[0], w);
        assert(ks =~= seq![ks[0]]);
    } else if ks.len() == 2 {
        lemma_two_holds(ks[0], ks[1], w);
        assert(ks =~= seq![ks[0], ks[1]]);
    }
}

/// A subtree holds a node of the sought kind exactly when the node is of that kind or one
/// of its kids' subtrees holds one: the search covers every kid the generic traversal
/// visits, and nothing else.
pub proof fn lemma_holds_through_kids(nd: Node, w: Sought)
    ensures
        holds(nd, w) <==> (is_sought(nd, w) || some_holds(kids(nd), w)),
{
    if nd.kind is Scope || nd.kind is To || nd.kind is ESpawn || nd.kind is Stmt {
        lemma_kids_with_options(nd, w);
    } else if nd.kind is Call || nd.kind is EVerb || nd.kind is Shape || nd.kind is Tuple
        || nd.kind is Program || nd.kind is Pipe || nd.kind is Compr {
        lemma_kids_with_lists(nd, w);
    } else {
        lemma_kids_fixed(nd, w);
    }
}

/* ---------- frames and selections ---------- */

/// The leftmost leaf of an `&` / `|` / `@` chain: the node that sets a selection's frame.
pub open spec fn leftmost_of(nd: Node) -> Node
    decreases nd,
{
    match nd.kind {
        NodeKind::And(l, _) => leftmost_of(*l),
        NodeKind::Or(l, _) => leftmost_of(*l),
        NodeKind::Scope { l, .. } => leftmost_of(*l),
        _ => nd,
    }
}

/// The leftmost leaf of an `&` / `|` / `@` chain (see `leftmost_of`).
pub fn leftmost(nd: &Node) -> (m: &Node)
    ensures
        *m == leftmost_of(*nd),
    decreases *nd,
{
    match &nd.kind {
        NodeKind::And(l, _) => leftmost(l),
        NodeKind::Or(l, _) => leftmost(l),
        NodeKind::Scope { l, .. } => leftmost(l),
        _ => nd,
    }
}

/// An optional borrowed node as an optional node.
pub open spec fn node_opt(o: Option<&Node>) -> Option<Node> {
    match o {
        Some(x) => Some(*x),
        None => None,
    }
}

/// The first of two search results that found something.
pub open spec fn first_found(a: Option<Node>, b: Option<Node>) -> Option<Node> {
    if a is Some {
        a
    } else {
        b
    }
}

/// The shape node of the first `@`-scope with a shape on its right, searching the subtree
/// in pre-order with kids in the order `kids` gives them.
pub open spec fn shape_scope(nd: Node) -> Option<Node>
    decreases nd, 0nat,
{
    match nd.kind {
        NodeKind::Scope { l, r, origin } => if r.kind is Shape {
            Some(*r)
        } else {
            first_found(first_found(shape_scope(*l), shape_scope(*r)), opt_shape_scope(origin))
        },
        NodeKind::Not(a) => shape_scope(*a),
        NodeKind::IotaX(a) => shape_scope(*a),
        NodeKind::Expand(a) => shape_scope(*a),
        NodeKind::Query(a) => shape_scope(*a),
        NodeKind::And(a, b) => first_found(shape_scope(*a), shape_scope(*b)),
        NodeKind::Or(a, b) => first_found(shape_scope(*a), shape_scope(*b)),
        NodeKind::Cmp { l, r, .. } => first_found(shape_scope(*l), shape_scope(*r)),
        NodeKind::Arith { l, r, .. } => first_found(shape_scope(*l), shape_scope(*r)),
        NodeKind::Hop { l, r } => first_found(shape_scope(*l), shape_scope(*r)),
        NodeKind::Call { args, .. } => list_shape_scope(args@, args@.len()),
        NodeKind::EVerb { args, .. } => list_shape_scope(args@, args@.len()),
        NodeKind::Fold { operand, .. } => shape_scope(*operand),
        NodeKind::ScanExpr { operand, .. } => shape_scope(*operand),
        NodeKind::ScanAlong { col, order, .. } => first_found(shape_scope(*col), shape_scope(*order)),
        NodeKind::Shape(v) => list_shape_scope(v@, v@.len()),
        NodeKind::Tuple(v) => list_shape_scope(v@, v@.len()),
        NodeKind::Program(v) => list_shape_scope(v@, v@.len()),
        NodeKind::To { shape, poured } => first_found(shape_scope(*shape), opt_shape_scope(poured)),
        NodeKind::Grade { key, .. } => shape_scope(*key),
        NodeKind::Top { inner, .. } => shape_scope(*inner),
        NodeKind::Pipe { src, stages } => first_found(shape_scope(*src), list_shape_scope(stages@, stages@.len())),
        NodeKind::OrderBy { key, .. } => shape_scope(*key),
        NodeKind::CrossV { a, b, .. } => first_found(shape_scope(*a), shape_scope(*b)),
        NodeKind::Binder { source, .. } => shape_scope(*source),
        NodeKind::EAssign { target, rhs, .. } => first_found(shape_scope(*target), shape_scope(*rhs)),
        NodeKind::ESpawn { what, count, at } => first_found(
            first_found(shape_scope(*what), opt_shape_scope(count)),
            opt_shape_scope(at),
        ),
        NodeKind::EVia { col, .. } => shape_scope(*col),
        NodeKind::Stmt { sel, effects, .. } => first_found(opt_shape_scope(sel), list_shape_scope(effects@, effects@.len())),
        NodeKind::DefStmt { body, .. } => shape_scope(*body),
        NodeKind::Compr { sel, effect, rest } => first_found(
            first_found(shape_scope(*sel), shape_scope(*effect)),
            list_shape_scope(rest@, rest@.len()),
        ),
        _ => None,
    }
}

/// `shape_scope` of an optional kid.
pub open spec fn opt_shape_scope(o: Option<Box<Node>>) -> Option<Node>
    decreases o, 1nat,
{
    match o {
        Some(b) => shape_scope(*b),
        None => None,
    }
}

/// `shape_scope` of the first of the first `n` nodes whose subtree has one.
pub open spec fn list_shape_scope(s: Seq<Node>, n: nat) -> Option<Node>
    decreases s, n,
{
    if n == 0 || n > s.len() {
        None
    } else {
        first_found(list_shape_scope(s, (n - 1) as nat), shape_scope(s[n - 1]))
    }
}

fn opt_find_shape_scope(o: &Option<Box<Node>>) -> (r: Option<&Node>)
    ensures
        node_opt(r) == opt_shape_scope(*o),
        r matches Some(x) ==> x.kind is Shape,
    decreases *o, 1nat,
{
    match o {
        Some(b) => find_shape_scope(b),
        None => None,
    }
}

fn list_find_shape_scope(ns: &Vec<Node>, n: usize) -> (r: Option<&Node>)
    requires
        n <= ns@.len(),
    ensures
        node_opt(r) == list_shape_scope(ns@, n as nat),
        r matches Some(x) ==> x.kind is Shape,
    decreases ns@, n,
{
    if n == 0 {
        return None;
    }
    let first = list_find_shape_scope(ns, n - 1);
    if first.is_some() {
        return first;
    }
    find_shape_scope(&ns[n - 1])
}

fn either<'a>(a: Option<&'a Node>, b: Option<&'a Node>) -> (r: Option<&'a Node>)
    ensures
        node_opt(r) == first_found(node_opt(a), node_opt(b)),
        r == (if a is Some { a } else { b }),
{
    if a.is_some() {
        a
    } else {
        b
    }
}

/// The shape node of the first `@`-scope with a shape on its right anywhere in the subtree
/// (see `shape_scope`); what it returns is a shape node.
pub fn find_shape_scope(nd: &Node) -> (r: Option<&Node>)
    ensures
        node_opt(r) == shape_scope(*nd),
        r matches Some(x) ==> x.kind is Shape,
    decreases *nd, 0nat,
{
    match &nd.kind {
        NodeKind::Scope { l, r, origin } => {
            if matches!(r.kind, NodeKind::Shape(_)) {
                return Some(&**r);
            }
            let a = find_shape_scope(l);
            if a.is_some() {
                return a;
            }
            let b = find_shape_scope(r);
            if b.is_some() {
                return b;
            }
            opt_find_shape_scope(origin)
        },
        NodeKind::Not(a) => find_shape_scope(a),
        NodeKind::IotaX(a) => find_shape_scope(a),
        NodeKind::Expand(a) => find_shape_scope(a),
        NodeKind::Query(a) => find_shape_scope(a),
        NodeKind::And(a, b) => either(find_shape_scope(a), find_shape_scope(b)),
        NodeKind::Or(a, b) => either(find_shape_scope(a), find_shape_scope(b)),
        NodeKind::Cmp { l, r, .. } => either(find_shape_scope(l), find_shape_scope(r)),
        NodeKind::Arith { l, r, .. } => either(find_shape_scope(l), find_shape_scope(r)),
        NodeKind::Hop { l, r } => either(find_shape_scope(l), find_shape_scope(r)),
        NodeKind::Call { args, .. } => list_find_shape_scope(args, args.len()),
        NodeKind::EVerb { args, .. } => list_find_shape_scope(args, args.len()),
        NodeKind::Fold { operand, .. } => find_shape_scope(operand),
        NodeKind::ScanExpr { operand, .. } => find_shape_scope(operand),
        NodeKind::ScanAlong { col, order, .. } => either(find_shape_scope(col), find_shape_scope(order)),
        NodeKind::Shape(v) => list_find_shape_scope(v, v.len()),
        NodeKind::Tuple(v) => list_find_shape_scope(v, v.len()),
        NodeKind::Program(v) => list_find_shape_scope(v, v.len()),
        NodeKind::To { shape, poured } => either(find_shape_scope(shape), opt_find_shape_scope(poured)),
        NodeKind::Grade { key, .. } => find_shape_scope(key),
        NodeKind::Top { inner, .. } => find_shape_scope(inner),
        NodeKind::Pipe { src, stages } => either(find_shape_scope(src), list_find_shape_scope(stages, stages.len())),
        NodeKind::OrderBy { key, .. } => find_shape_scope(key),
        NodeKind::CrossV { a, b, .. } => either(find_shape_scope(a), find_shape_scope(b)),
        NodeKind::Binder { source, .. } => find_shape_scope(source),
        NodeKind::EAssign { target, rhs, .. } => either(find_shape_scope(target), find_shape_scope(rhs)),
        NodeKind::ESpawn { what, count, at } => either(
            either(find_shape_scope(what), opt_find_shape_scope(count)),
            opt_find_shape_scope(at),
        ),
        NodeKind::EVia { col, .. } => find_shape_scope(col),
        NodeKind::Stmt { sel, effects, .. } => either(opt_find_shape_scope(sel), list_find_shape_scope(effects, effects.len())),
        NodeKind::DefStmt { body, .. } => find_shape_scope(body),
        NodeKind::Compr { sel, effect, rest } => either(
            either(find_shape_scope(sel), find_shape_scope(effect)),
            list_find_shape_scope(rest, rest.len()),
        ),
        _ => None,
    }
}

/// A selection with its frame-setting source taken out: a bare shape or a board `to` (one
/// poured from a string) leaves no predicate; an `&` whose left arm is a shape leaves its
/// right arm; anything else, a shape buried deeper included, stays as it is.
pub open spec fn strip_frame_spec(sel: Option<Node>) -> Option<Node> {
    match sel {
        None => None,
        Some(s) => match s.kind {
            NodeKind::Shape(_) => None,
            NodeKind::To { poured: Some(p), .. } => if p.kind is Str {
                None
            } else {
                Some(s)
            },
            NodeKind::And(l, r) => if l.kind is Shape {
                Some(*r)
            } else {
                Some(s)
            },
            _ => Some(s),
        },
    }
}

/// A selection with its frame-setting source taken out (see `strip_frame_spec`).
pub fn strip_frame(sel: Option<&Node>) -> (r: Option<&Node>)
    ensures
        node_opt(r) == strip_frame_spec(node_opt(sel)),
{
    let s = match sel {
        Some(s) => s,
        None => return None,
    };
    if matches!(s.kind, NodeKind::Shape(_)) {
        return None;
    }
    if let NodeKind::To { poured: Some(p), .. } = &s.kind {
        if matches!(p.kind, NodeKind::Str(_)) {
            return None;
        }
    }
    if let NodeKind::And(l, r) = &s.kind {
        proof {
            if l.kind is Shape {
                assert(leftmost_of(**l) == **l);
            }
        }
        let lm = leftmost(s);
        if matches!(lm.kind, NodeKind::Shape(_)) && matches!(l.kind, NodeKind::Shape(_)) {
            return Some(&**r);
        }
    }
    Some(s)
}

/// Whether a subtree starts a gamma: a set hop at fold-operand level, alone or as the left
/// side of a hop or a conjunction.
pub open spec fn gamma_operand(nd: Node) -> bool {
    match nd.kind {
        NodeKind::SetHop { .. } => true,
        NodeKind::Hop { l, .. } => l.kind is SetHop,
        NodeKind::And(l, _) => l.kind is SetHop,
        _ => false,
    }
}

/// Whether a subtree starts a gamma (see `gamma_operand`).
pub fn is_gamma_operand(nd: &Node) -> (b: bool)
    ensures
        b == gamma_operand(*nd),
{
    match &nd.kind {
        NodeKind::SetHop { .. } => true,
        NodeKind::Hop { l, .. } => matches!(l.kind, NodeKind::SetHop { .. }),
        NodeKind::And(l, _) => matches!(l.kind, NodeKind::SetHop { .. }),
        _ => false,
    }
}

/// A statement's selection; nothing for a node that is no statement.
pub fn stmt_sel(st: &Node) -> (r: Option<&Node>)
    ensures
        node_opt(r) == (match st.kind {
            NodeKind::Stmt { sel, .. } => match sel {
                Some(b) => Some(*b),
                None => None,
            },
            _ => None,
        }),
{
    match &st.kind {
        NodeKind::Stmt { sel, .. } => match sel {
            Some(b) => Some(&**b),
            None => None,
        },
        _ => None,
    }
}

/// A statement's effects; none for a node that is no statement.
pub fn stmt_effects(st: &Node) -> (r: &[Node])
    ensures
        r@ == (match st.kind {
            NodeKind::Stmt { effects, .. } => effects@,
            _ => Seq::empty(),
        }),
{
    match &st.kind {
        NodeKind::Stmt { effects, .. } => effects.as_slice(),
        _ => &[],
    }
}

/// A shape's dimensions; none for a node that is no shape.
pub fn shape_dims(nd: &Node) -> (r: &[Node])
    ensures
        r@ == (match nd.kind {
            NodeKind::Shape(v) => v@,
            _ => Seq::empty(),
        }),
{
    match &nd.kind {
        NodeKind::Shape(v) => v.as_slice(),
        _ => &[],
    }
}

/// A definition's body; the node itself when it is no definition.
pub fn def_body(d: &Node) -> (b: &Node)
    ensures
        *b == (match d.kind {
            NodeKind::DefStmt { body, .. } => *body,
            _ => *d,
        }),
{
    match &d.kind {
        NodeKind::DefStmt { body, .. } => &**body,
        _ => d,
    }
}

/// The fiber name a node in relation position spells: a name's, an alias request's lookup
/// name, a set hop's relation; the empty spelling otherwise.
pub fn fiber_sym(nd: &Node) -> (s: Symbol)
    ensures
        s == (match nd.kind {
            NodeKind::Name(x) => x,
            NodeKind::Alias { look, .. } => look,
            NodeKind::SetHop { rel } => rel,
            _ => Symbol(0),
        }),
{
    match &nd.kind {
        NodeKind::Name(x) => *x,
        NodeKind::Alias { look, .. } => *look,
        NodeKind::SetHop { rel } => *rel,
        _ => Symbol::empty(),
    }
}

/* ---------- the relationship-write audit ---------- */

/// The variable a registry entry is published to: its name with the first letter lowered
/// when the name is a legal BQN identifier, `jp<index>` otherwise.
pub open spec fn entry_var(name: Seq<char>, index: nat) -> Seq<char> {
    if bqnlegal_spec(name) {
        lc_spec(name)
    } else {
        "jp"@ + dec_spelling(index)
    }
}

/// The text that starts a write to a variable: its name, then " ↩ ".
pub open spec fn write_text(var: Seq<char>) -> Seq<char> {
    var + " ↩ "@
}

/// The first position at or after `at` where `p` occurs in `s`.
pub open spec fn find_from(s: Seq<char>, p: Seq<char>, at: int) -> Option<int>
    decreases s.len() - at,
{
    if at < 0 || at + p.len() > s.len() {
        None
    } else if s.subrange(at, at + p.len()) == p {
        Some(at)
    } else {
        proof {
            if p.len() == 0 {
                assert(s.subrange(at, at + p.len()) =~= p);
            }
        }
        find_from(s, p, at + 1)
    }
}

pub proof fn lemma_find_from(s: Seq<char>, p: Seq<char>, at: int)
    requires
        0 <= at,
    ensures
        find_from(s, p, at) matches Some(h) ==> at <= h && h + p.len() <= s.len() && s.subrange(h, h + p.len()) == p,
    decreases s.len() - at,
{
    if at + p.len() <= s.len() && s.subrange(at, at + p.len()) != p {
        if p.len() == 0 {
            assert(s.subrange(at, at + p.len()) =~= p);
        }
        lemma_find_from(s, p, at + 1);
    }
}

/// Scanning `bqn` from `at` for writes that start with `write`: a match right after an
/// identifier character is part of a longer name and passes; any other must assign a staged
/// binding (`anoRelStage<n>`, `n` below the number staged) that no write has published yet,
/// and publishes it. The publication marks after the scan, or `None` for a write outside
/// the seal.
pub open spec fn publish_scan(bqn: Seq<char>, write: Seq<char>, at: int, published: Seq<bool>) -> Option<Seq<bool>>
    decreases bqn.len() - at,
{
    if write.len() == 0 || at < 0 {
        Some(published)
    } else {
        match find_from(bqn, write, at) {
            None => Some(published),
            Some(h) => {
                proof {
                    lemma_find_from(bqn, write, at);
                }
                let next = h + write.len();
                if h > 0 && ident_char_spec(bqn[h - 1]) {
                    publish_scan(bqn, write, next, published)
                } else {
                    match staged_serial_spec(bqn.skip(next)) {
                        Some(n) => if n < published.len() && !published[n as int] {
                            publish_scan(bqn, write, next, published.update(n as int, true))
                        } else {
                            None
                        },
                        None => None,
                    }
                }
            },
        }
    }
}

/// The audit of the registry entries from `i` on, each given by its name and whether it is
/// a watched relationship (a functional one, or a set-valued one that is no inverse): the
/// publication marks after every watched entry's writes, or the name of the first entry
/// written outside the seal.
pub open spec fn audit_from(bqn: Seq<char>, ents: Seq<(String, bool)>, i: int, published: Seq<bool>) -> Result<Seq<bool>, Seq<char>>
    decreases ents.len() - i,
{
    if i < 0 || i >= ents.len() {
        Ok(published)
    } else if !ents[i].1 {
        audit_from(bqn, ents, i + 1, published)
    } else {
        match publish_scan(bqn, write_text(entry_var(ents[i].0@, i as nat)), 0, published) {
            None => Err(ents[i].0@),
            Some(p) => audit_from(bqn, ents, i + 1, p),
        }
    }
}

/// How many marks are set.
pub open spec fn count_true(p: Seq<bool>) -> nat
    decreases p.len(),
{
    if p.len() == 0 {
        0
    } else {
        count_true(p.drop_last()) + if p.last() {
            1nat
        } else {
            0nat
        }
    }
}

/// No mark set, one per staged binding.
pub open spec fn unpublished(staged: nat) -> Seq<bool> {
    Seq::new(staged, |k: int| false)
}

/// The verdict on emitted text: every write to a watched relationship's variable publishes
/// a distinct staged binding, and every staged binding is published; otherwise the refusal
/// text, naming the relation written outside the seal or counting the bindings that never
/// reached the world.
pub open spec fn audit_spec(bqn: Seq<char>, ents: Seq<(String, bool)>, staged: nat) -> Result<(), Seq<char>> {
    match audit_from(bqn, ents, 0, unpublished(staged)) {
        Err(name) => Err("emit: relationship '"@ + name + "' is written outside the validity seal"@),
        Ok(p) => if count_true(p) != staged {
            Err(
                "emit: "@ + dec_spelling(staged) + " relationship writes were staged but "@
                    + dec_spelling(count_true(p)) + " reached the world"@,
            )
        } else {
            Ok(())
        },
    }
}

fn chars_at(s: &Vec<char>, i: usize, p: &Vec<char>) -> (r: bool)
    requires
        i + p@.len() <= s@.len(),
    ensures
        r == (s@.subrange(i as int, i + p@.len()) == p@),
{
    let mut k: usize = 0;
    while k < p.len()
        invariant
            i + p@.len() <= s@.len(),
            s@.len() == s.len(),
            0 <= k <= p@.len(),
            forall|j: int| 0 <= j < k ==> s@[i + j] == p@[j],
        decreases p@.len() - k,
    {
        if s[i + k] != p[k] {
            proof {
                assert(s@.subrange(i as int, i + p@.len())[k as int] != p@[k as int]);
            }
            return false;
        }
        k += 1;
    }
    proof {
        assert(s@.subrange(i as int, i + p@.len()) =~= p@);
    }
    true
}

fn find_from_exec(s: &Vec<char>, p: &Vec<char>, at: usize) -> (r: Option<usize>)
    ensures
        match r {
            Some(h) => find_from(s@, p@, at as int) == Some(h as int),
            None => find_from(s@, p@, at as int) == None::<int>,
        },
{
    let mut i: usize = at;
    while p.len() <= s.len() && i <= s.len() - p.len()
        invariant
            at <= i,
            find_from(s@, p@, at as int) == find_from(s@, p@, i as int),
        decreases s@.len() - i,
    {
        if chars_at(s, i, p) {
            return Some(i);
        }
        proof {
            if p@.len() == 0 {
                assert(s@.subrange(i as int, i as int) =~= p@);
            }
        }
        i += 1;
    }
    None
}

fn tail_string(s: &Vec<char>, from: usize) -> (t: String)
    requires
        from <= s@.len(),
    ensures
        t@ == s@.skip(from as int),
{
    let mut out: Vec<char> = Vec::new();
    let mut k: usize = from;
    while k < s.len()
        invariant
            from <= k <= s@.len(),
            out@ =~= s@.subrange(from as int, k as int),
        decreases s@.len() - k,
    {
        out.push(s[k]);
        k += 1;
    }
    proof {
        assert(s@.subrange(from as int, s@.len() as int) =~= s@.skip(from as int));
    }
    string_of(out.as_slice())
}

proof fn lemma_publish_len(bqn: Seq<char>, write: Seq<char>, at: int, published: Seq<bool>)
    ensures
        publish_scan(bqn, write, at, published) matches Some(p) ==> p.len() == published.len(),
    decreases bqn.len() - at,
{
    if write.len() > 0 && at >= 0 {
        match find_from(bqn, write, at) {
            None => {},
            Some(h) => {
                lemma_find_from(bqn, write, at);
                let next = h + write.len();
                if h > 0 && ident_char_spec(bqn[h - 1]) {
                    lemma_publish_len(bqn, write, next, published);
                } else {
                    match staged_serial_spec(bqn.skip(next)) {
                        Some(n) => if n < published.len() && !published[n as int] {
                            lemma_publish_len(bqn, write, next, published.update(n as int, true));
                        },
                        None => {},
                    }
                }
            },
        }
    }
}

proof fn lemma_audit_len(bqn: Seq<char>, ents: Seq<(String, bool)>, i: int, published: Seq<bool>)
    ensures
        audit_from(bqn, ents, i, published) matches Ok(p) ==> p.len() == published.len(),
    decreases ents.len() - i,
{
    if 0 <= i < ents.len() {
        if !ents[i].1 {
            lemma_audit_len(bqn, ents, i + 1, published);
        } else {
            let w = write_text(entry_var(ents[i].0@, i as nat));
            lemma_publish_len(bqn, w, 0, published);
            match publish_scan(bqn, w, 0, published) {
                None => {},
                Some(p) => lemma_audit_len(bqn, ents, i + 1, p),
            }
        }
    }
}

proof fn lemma_count_true(p: Seq<bool>)
    ensures
        count_true(p) <= p.len(),
        count_true(p) == p.len() <==> forall|k: int| 0 <= k < p.len() ==> #[trigger] p[k],
    decreases p.len(),
{
    if p.len() > 0 {
        let q = p.drop_last();
        lemma_count_true(q);
        if count_true(p) == p.len() {
            assert forall|k: int| 0 <= k < p.len() implies #[trigger] p[k] by {
                if k < q.len() {
                    assert(q[k] == p[k]);
                }
            }
        }
        if forall|k: int| 0 <= k < p.len() ==> #[trigger] p[k] {
            assert forall|k: int| 0 <= k < q.len() implies #[trigger] q[k] by {
                assert(q[k] == p[k]);
            }
            assert(p[p.len() - 1]);
        }
    }
}

/// Checks emitted text against the relationship writes the lowering staged: each write to a
/// watched relationship's variable (`entries` gives every registry entry in declaration
/// order, by name and whether it is watched) must publish a distinct staged binding, and
/// all `staged` of them must be published (see `audit_spec`). The scan reads the text
/// itself, so a write spelled some other way is refused, and a doubled publication cannot
/// pay for a dropped one.
pub fn audit_relationship_writes(bqn: &str, entries: &[(String, bool)], staged: usize) -> (r: Result<(), Diag>)
    ensures
        match r {
            Ok(_) => audit_spec(bqn@, entries@, staged as nat) == Ok::<(), Seq<char>>(()),
            Err(d) => audit_spec(bqn@, entries@, staged as nat) == Err::<(), Seq<char>>(d.msg@) && d.code == 2,
        },
{
    let b = chars_of(bqn);
    let mut published: Vec<bool> = Vec::new();
    let mut k: usize = 0;
    while k < staged
        invariant
            0 <= k <= staged,
            published@ =~= unpublished(k as nat),
        decreases staged - k,
    {
        published.push(false);
        k += 1;
    }
    let ghost start = published@;
    let mut i: usize = 0;
    while i < entries.len()
        invariant
            b@ == bqn@,
            start == unpublished(staged as nat),
            0 <= i <= entries@.len(),
            published@.len() == staged,
            audit_from(b@, entries@, 0, start) == audit_from(b@, entries@, i as int, published@),
        decreases entries@.len() - i,
    {
        if !entries[i].1 {
            i += 1;
            continue;
        }
        let name = &entries[i].0;
        let var = if bqnlegal(name.as_str()) {
            lc(name.as_str())
        } else {
            let num = u64_text(i as u64);
            cat("jp", num.as_str())
        };
        let write_s = cat(var.as_str(), " ↩ ");
        let w = chars_of(write_s.as_str());
        proof {
            reveal_strlit("jp");
            reveal_strlit(" ↩ ");
            assert(w@ == write_text(entry_var(entries@[i as int].0@, i as nat)));
        }
        let ghost before = published@;
        let mut at: usize = 0;
        loop
            invariant
                b@ == bqn@,
                start == unpublished(staged as nat),
                0 <= i < entries@.len(),
                entries@[i as int].1,
                name@ == entries@[i as int].0@,
                audit_from(b@, entries@, 0, start) == audit_from(b@, entries@, i as int, before),
                w@ == write_text(entry_var(entries@[i as int].0@, i as nat)),
                w@.len() > 0,
                at <= b@.len(),
                published@.len() == staged,
                before.len() == staged,
                publish_scan(b@, w@, 0, before) == publish_scan(b@, w@, at as int, published@),
            ensures
                published@.len() == staged,
                publish_scan(b@, w@, 0, before) == Some(published@),
            decreases b@.len() - at,
        {
            let found = find_from_exec(&b, &w, at);
            match found {
                None => {
                    break;
                },
                Some(hit) => {
                    proof {
                        lemma_find_from(b@, w@, at as int);
                    }
                    let next = hit + w.len();
                    if hit > 0 && ident_char(b[hit - 1]) {
                        at = next;
                    } else {
                        let tail = tail_string(&b, next);
                        let serial = staged_serial(tail.as_str());
                        let fresh = match serial {
                            Some(n) => n < staged && !published[n],
                            None => false,
                        };
                        proof {
                            assert(tail@ == b@.skip(next as int));
                            assert(publish_scan(b@, w@, at as int, published@) == (if fresh {
                                publish_scan(b@, w@, next as int, published@.update(serial.unwrap() as int, true))
                            } else {
                                None
                            }));
                        }
                        if !fresh {
                            let m = cat("emit: relationship '", name.as_str());
                            let m = cat(m.as_str(), "' is written outside the validity seal");
                            proof {
                                reveal_strlit("emit: relationship '");
                                reveal_strlit("' is written outside the validity seal");
                            }
                            return Err(Diag::refuse(m));
                        }
                        let n = serial.unwrap();
                        published.set(n, true);
                        at = next;
                    }
                },
            }
        }
        proof {
            lemma_publish_len(b@, w@, 0, before);
            assert(audit_from(b@, entries@, i as int, before) == audit_from(b@, entries@, i + 1, published@));
        }
        i += 1;
    }
    proof {
        lemma_audit_len(b@, entries@, 0, start);
    }
    let mut reached: usize = 0;
    let mut j: usize = 0;
    while j < published.len()
        invariant
            0 <= j <= published@.len(),
            reached == count_true(published@.take(j as int)),
            reached <= j,
        decreases published@.len() - j,
    {
        proof {
            assert(published@.take(j + 1).drop_last() =~= published@.take(j as int));
            lemma_count_true(published@.take(j as int));
        }
        if published[j] {
            reached += 1;
        }
        j += 1;
    }
    proof {
        assert(published@.take(published@.len() as int) =~= published@);
    }
    if reached != staged {
        let m = cat("emit: ", u64_text(staged as u64).as_str());
        let m = cat(m.as_str(), " relationship writes were staged but ");
        let m = cat(m.as_str(), u64_text(reached as u64).as_str());
        let m = cat(m.as_str(), " reached the world");
        proof {
            reveal_strlit("emit: ");
            reveal_strlit(" relationship writes were staged but ");
            reveal_strlit(" reached the world");
        }
        return Err(Diag::refuse(m));
    }
    Ok(())
}

/// A text the audit accepts has published every staged binding: after the scan each of the
/// `staged` marks is set, each by exactly one write.
pub proof fn lemma_audit_publishes_every_stage(bqn: Seq<char>, entries: Seq<(String, bool)>, staged: nat)
    requires
        audit_spec(bqn, entries, staged) is Ok,
    ensures
        audit_from(bqn, entries, 0, unpublished(staged)) matches Ok(p) && p.len() == staged
            && forall|k: int| 0 <= k < staged ==> #[trigger] p[k],
{
    lemma_audit_len(bqn, entries, 0, unpublished(staged));
    match audit_from(bqn, entries, 0, unpublished(staged)) {
        Ok(p) => lemma_count_true(p),
        Err(_) => {},
    }
}

} // verus!
