//! The tokenizer for both surfaces. The ASCII skin is maximal munch; the Japanese skin reads
//! space-separated words against a closed table, re-roots postfix operators before their
//! operand, and deletes the `に` target markers. Both skins are registry-blind, and every
//! refusal reads "line <n>: <message>".
use vstd::prelude::*;
use vstd::string::StringSliceAdditionalSpecFns;
use vstd::utf8::*;
use crate::{Diag, Interner, Symbol, TokKind, Toks, ANO_NAMESZ};
use crate::text::{lossy_span, lossy_text, cat, int_spelling, i64_text};

verus! {

/* ---------- byte classes ---------- */

/// ASCII letters: the bytes an identifier may start with.
pub open spec fn nstart(c: u8) -> bool {
    (65 <= c && c <= 90) || (97 <= c && c <= 122)
}

/// ASCII letters, digits and '_': the bytes an identifier may continue with.
pub open spec fn nchar(c: u8) -> bool {
    nstart(c) || (48 <= c && c <= 57) || c == 95
}

/// ASCII decimal digits.
pub open spec fn dig(c: u8) -> bool {
    48 <= c && c <= 57
}

fn is_nstart(c: u8) -> (r: bool)
    ensures
        r == nstart(c),
{
    (65 <= c && c <= 90) || (97 <= c && c <= 122)
}

fn is_nchar(c: u8) -> (r: bool)
    ensures
        r == nchar(c),
{
    is_nstart(c) || (48 <= c && c <= 57) || c == 95
}

fn is_dig(c: u8) -> (r: bool)
    ensures
        r == dig(c),
{
    48 <= c && c <= 57
}

/// The byte at `i`, or 0 past the end.
pub open spec fn at(s: Seq<u8>, i: int) -> u8 {
    if 0 <= i < s.len() {
        s[i]
    } else {
        0
    }
}

fn at_exec(s: &[u8], i: usize) -> (r: u8)
    ensures
        r == at(s@, i as int),
{
    if i < s.len() {
        s[i]
    } else {
        0
    }
}

/// Codepoints that are never identifier characters: U+3000 ideographic space, U+3001 、,
/// U+30FB ・, and the retired generator glyph U+2195 ↕.
pub open spec fn ublack(cp: u32) -> bool {
    cp == 0x3000 || cp == 0x3001 || cp == 0x30FB || cp == 0x2195
}

fn is_ublack(cp: u32) -> (r: bool)
    ensures
        r == ublack(cp),
{
    cp == 0x3000 || cp == 0x3001 || cp == 0x30FB || cp == 0x2195
}

/* ---------- strict UTF-8 ---------- */

/// Whether byte `b` is a UTF-8 continuation byte.
pub open spec fn cont(b: u8) -> bool {
    b & 0xC0 == 0x80
}

/// A decoded scalar's range check: at least `min` (no overlong form), at most U+10FFFF, and
/// no surrogate.
pub open spec fn scalar_ok(r: u32, min: u32) -> bool {
    r >= min && r <= 0x10FFFF && !(0xD800 <= r && r <= 0xDFFF)
}

/// The strict decoding of the character starting at byte `i`: its codepoint and byte length
/// (1-4), or `None` when the bytes there are not a well-formed, shortest, non-surrogate
/// UTF-8 scalar (a stray continuation byte, an F8-FF lead, truncation, overlong forms,
/// surrogates, or codepoints above U+10FFFF).
pub open spec fn ucp_spec(s: Seq<u8>, i: int) -> Option<(u32, int)> {
    if i < 0 || i >= s.len() {
        None
    } else {
        let b0 = s[i];
        if b0 < 0x80 {
            Some((b0 as u32, 1))
        } else if b0 & 0xE0 == 0xC0 {
            if i + 1 >= s.len() || !cont(s[i + 1]) {
                None
            } else {
                let r = (((b0 & 0x1F) as u32) << 6u32) | ((s[i + 1] & 0x3F) as u32);
                if scalar_ok(r, 0x80) {
                    Some((r, 2))
                } else {
                    None
                }
            }
        } else if b0 & 0xF0 == 0xE0 {
            if i + 2 >= s.len() || !cont(s[i + 1]) || !cont(s[i + 2]) {
                None
            } else {
                let r = (((((b0 & 0x0F) as u32) << 6u32) | ((s[i + 1] & 0x3F) as u32)) << 6u32)
                    | ((s[i + 2] & 0x3F) as u32);
                if scalar_ok(r, 0x800) {
                    Some((r, 3))
                } else {
                    None
                }
            }
        } else if b0 & 0xF8 == 0xF0 {
            if i + 3 >= s.len() || !cont(s[i + 1]) || !cont(s[i + 2]) || !cont(s[i + 3]) {
                None
            } else {
                let r = (((((((b0 & 0x07) as u32) << 6u32) | ((s[i + 1] & 0x3F) as u32)) << 6u32)
                    | ((s[i + 2] & 0x3F) as u32)) << 6u32) | ((s[i + 3] & 0x3F) as u32);
                if scalar_ok(r, 0x10000) {
                    Some((r, 4))
                } else {
                    None
                }
            }
        } else {
            None
        }
    }
}

/// Decodes the character at byte `i` strictly (see `ucp_spec`).
pub fn ucp(s: &[u8], i: usize) -> (r: Option<(u32, usize)>)
    ensures
        r matches Some((cp, l)) ==> ucp_spec(s@, i as int) == Some((cp, l as int)),
        r is None ==> ucp_spec(s@, i as int) is None,
{
    if i >= s.len() {
        return None;
    }
    let b0 = s[i];
    if b0 < 0x80 {
        return Some((b0 as u32, 1));
    }
    if b0 & 0xE0 == 0xC0 {
        if s.len() - i <= 1 || s[i + 1] & 0xC0 != 0x80 {
            return None;
        }
        let r = (((b0 & 0x1F) as u32) << 6u32) | ((s[i + 1] & 0x3F) as u32);
        if r >= 0x80 && r <= 0x10FFFF && !(0xD800 <= r && r <= 0xDFFF) {
            return Some((r, 2));
        }
        return None;
    }
    if b0 & 0xF0 == 0xE0 {
        if s.len() - i <= 2 || s[i + 1] & 0xC0 != 0x80 || s[i + 2] & 0xC0 != 0x80 {
            return None;
        }
        let r = (((((b0 & 0x0F) as u32) << 6u32) | ((s[i + 1] & 0x3F) as u32)) << 6u32) | ((s[i
            + 2] & 0x3F) as u32);
        if r >= 0x800 && r <= 0x10FFFF && !(0xD800 <= r && r <= 0xDFFF) {
            return Some((r, 3));
        }
        return None;
    }
    if b0 & 0xF8 == 0xF0 {
        if s.len() - i <= 3 || s[i + 1] & 0xC0 != 0x80 || s[i + 2] & 0xC0 != 0x80 || s[i + 3]
            & 0xC0 != 0x80 {
            return None;
        }
        let r = (((((((b0 & 0x07) as u32) << 6u32) | ((s[i + 1] & 0x3F) as u32)) << 6u32) | ((s[i
            + 2] & 0x3F) as u32)) << 6u32) | ((s[i + 3] & 0x3F) as u32);
        if r >= 0x10000 && r <= 0x10FFFF && !(0xD800 <= r && r <= 0xDFFF) {
            return Some((r, 4));
        }
        return None;
    }
    None
}

/// Whether a decoded character is never blacklisted and has length at least one.
proof fn lemma_ucp_len(s: Seq<u8>, i: int)
    ensures
        ucp_spec(s, i) matches Some((cp, l)) ==> 1 <= l <= 4 && i + l <= s.len(),
{
}

/* ---------- identifier spans ---------- */

/// The byte length of the identifier character at `i`: 1 for an ASCII identifier byte, the
/// encoded length of a non-blacklisted codepoint at or above U+0080, else 0.
pub open spec fn ident_unit(s: Seq<u8>, i: int) -> int {
    let c = at(s, i);
    if nchar(c) {
        1
    } else if c >= 0x80 {
        match ucp_spec(s, i) {
            Some((cp, l)) => if !ublack(cp) {
                l
            } else {
                0
            },
            None => 0,
        }
    } else {
        0
    }
}

/// One past the last byte of the identifier run that starts at `i` (maximal munch: ASCII
/// [A-Za-z0-9_] plus non-blacklisted codepoints at or above U+0080).
pub open spec fn nspan_spec(s: Seq<u8>, i: int) -> int
    decreases s.len() - i,
{
    if 0 <= i < s.len() && ident_unit(s, i) > 0 {
        nspan_spec(s, i + ident_unit(s, i))
    } else {
        i
    }
}

proof fn lemma_ident_unit(s: Seq<u8>, i: int)
    requires
        0 <= i,
    ensures
        ident_unit(s, i) > 0 ==> i < s.len() && i + ident_unit(s, i) <= s.len(),
        ident_unit(s, i) >= 0,
{
    lemma_ucp_len(s, i);
}

/// The identifier run's span is within the input and never shorter than nothing.
pub proof fn lemma_nspan_bounds(s: Seq<u8>, i: int)
    requires
        0 <= i <= s.len(),
    ensures
        i <= nspan_spec(s, i) <= s.len(),
    decreases s.len() - i,
{
    lemma_ident_unit(s, i);
    if 0 <= i < s.len() && ident_unit(s, i) > 0 {
        lemma_nspan_bounds(s, i + ident_unit(s, i));
    }
}

fn ident_unit_exec(s: &[u8], i: usize) -> (u: usize)
    ensures
        u == ident_unit(s@, i as int),
{
    let c = at_exec(s, i);
    if is_nchar(c) {
        return 1;
    }
    if c >= 0x80 {
        match ucp(s, i) {
            Some((cp, l)) => {
                if !is_ublack(cp) {
                    return l;
                }
                return 0;
            },
            None => {
                return 0;
            },
        }
    }
    0
}

/// One past the identifier run starting at `i`.
pub fn nspan(s: &[u8], i: usize) -> (j: usize)
    requires
        i <= s@.len(),
    ensures
        j == nspan_spec(s@, i as int),
        i <= j <= s@.len(),
{
    let mut j = i;
    proof {
        lemma_nspan_bounds(s@, i as int);
    }
    while j < s.len()
        invariant
            i <= j <= s@.len(),
            nspan_spec(s@, i as int) == nspan_spec(s@, j as int),
        ensures
            nspan_spec(s@, i as int) == j,
        decreases s@.len() - j,
    {
        let u = ident_unit_exec(s, j);
        proof {
            lemma_ident_unit(s@, j as int);
        }
        if u == 0 {
            break;
        }
        j = j + u;
    }
    proof {
        lemma_nspan_bounds(s@, j as int);
    }
    j
}

/// The byte length of an identifier-start character at `i`: an ASCII letter, or a
/// non-blacklisted codepoint at or above U+0080; 0 otherwise.
pub open spec fn nstart_span_spec(s: Seq<u8>, i: int) -> int {
    let c = at(s, i);
    if nstart(c) {
        1
    } else if c >= 0x80 {
        match ucp_spec(s, i) {
            Some((cp, l)) => if !ublack(cp) {
                l
            } else {
                0
            },
            None => 0,
        }
    } else {
        0
    }
}

/// The byte length of an identifier-start character at `i`, or 0.
pub fn nstart_span(s: &[u8], i: usize) -> (l: usize)
    ensures
        l == nstart_span_spec(s@, i as int),
        l > 0 ==> i + l <= s@.len(),
{
    proof {
        lemma_ucp_len(s@, i as int);
    }
    let c = at_exec(s, i);
    if is_nstart(c) {
        return 1;
    }
    if c >= 0x80 {
        match ucp(s, i) {
            Some((cp, l)) => {
                if !is_ublack(cp) {
                    return l;
                }
                return 0;
            },
            None => {
                return 0;
            },
        }
    }
    0
}

/// Whether a byte span equals a literal's bytes.
fn span_is(s: &[u8], i: usize, j: usize, lit: &str) -> (r: bool)
    requires
        i <= j <= s@.len(),
    ensures
        r == (s@.subrange(i as int, j as int) == lit.spec_bytes()),
{
    let b = lit.as_bytes();
    if j - i != b.len() {
        proof {
            assert(s@.subrange(i as int, j as int).len() != lit.spec_bytes().len());
        }
        return false;
    }
    let mut k: usize = 0;
    while k < b.len()
        invariant
            b@ == lit.spec_bytes(),
            j - i == b@.len(),
            i <= j <= s@.len(),
            0 <= k <= b@.len(),
            forall|x: int| 0 <= x < k ==> s@[i + x] == b@[x],
        decreases b@.len() - k,
    {
        if s[i + k] != b[k] {
            proof {
                assert(s@.subrange(i as int, j as int)[k as int] != b@[k as int]);
            }
            return false;
        }
        k += 1;
    }
    assert(s@.subrange(i as int, j as int) =~= b@);
    true
}

/* ---------- keywords ---------- */

/// Number of keywords.
pub const KW_LEN: usize = 17;

/// The spelling of keyword `k`.
pub open spec fn kw_word(k: usize) -> Seq<char> {
    match k {
        0 => "def"@,
        1 => "spawn"@,
        2 => "at"@,
        3 => "to"@,
        4 => "via"@,
        5 => "along"@,
        6 => "order"@,
        7 => "by"@,
        8 => "take"@,
        9 => "desc"@,
        10 => "top"@,
        11 => "grade"@,
        12 => "fold"@,
        13 => "scan"@,
        14 => "cross"@,
        15 => "expand"@,
        16 => "til"@,
        _ => Seq::empty(),
    }
}

/// The token kind of keyword `k`.
pub open spec fn kw_kind(k: usize) -> TokKind {
    match k {
        0 => TokKind::Def,
        1 => TokKind::Spawn,
        2 => TokKind::AtKw,
        3 => TokKind::To,
        4 => TokKind::Via,
        5 => TokKind::Along,
        6 => TokKind::Order,
        7 => TokKind::By,
        8 => TokKind::Take,
        9 => TokKind::Desc,
        10 => TokKind::Top,
        11 => TokKind::Grade,
        12 => TokKind::FoldKw,
        13 => TokKind::ScanKw,
        14 => TokKind::Cross,
        15 => TokKind::Expand,
        _ => TokKind::Iota,
    }
}

fn kw_row(k: usize) -> (r: (&'static str, TokKind))
    requires
        k < KW_LEN,
    ensures
        r.0@ == kw_word(k),
        r.1 == kw_kind(k),
{
    match k {
        0 => ("def", TokKind::Def),
        1 => ("spawn", TokKind::Spawn),
        2 => ("at", TokKind::AtKw),
        3 => ("to", TokKind::To),
        4 => ("via", TokKind::Via),
        5 => ("along", TokKind::Along),
        6 => ("order", TokKind::Order),
        7 => ("by", TokKind::By),
        8 => ("take", TokKind::Take),
        9 => ("desc", TokKind::Desc),
        10 => ("top", TokKind::Top),
        11 => ("grade", TokKind::Grade),
        12 => ("fold", TokKind::FoldKw),
        13 => ("scan", TokKind::ScanKw),
        14 => ("cross", TokKind::Cross),
        15 => ("expand", TokKind::Expand),
        _ => ("til", TokKind::Iota),
    }
}

/// The first keyword at or after `k` whose bytes are `w`.
pub open spec fn kw_find_from(w: Seq<u8>, k: int) -> Option<TokKind>
    decreases KW_LEN - k,
{
    if k < 0 || k >= KW_LEN {
        None
    } else if vstd::utf8::encode_utf8(kw_word(k as usize)) == w {
        Some(kw_kind(k as usize))
    } else {
        kw_find_from(w, k + 1)
    }
}

/// The keyword kind a whole word spells, if it is one of the closed set (til included).
pub open spec fn kw_spec(w: Seq<u8>) -> Option<TokKind> {
    kw_find_from(w, 0)
}

/// The keyword kind of the byte span `s[i..j]`, if any.
pub fn kwkind(s: &[u8], i: usize, j: usize) -> (r: Option<TokKind>)
    requires
        i <= j <= s@.len(),
    ensures
        r == kw_spec(s@.subrange(i as int, j as int)),
{
    let mut k: usize = 0;
    while k < KW_LEN
        invariant
            0 <= k <= KW_LEN,
            i <= j <= s@.len(),
            kw_spec(s@.subrange(i as int, j as int)) == kw_find_from(
                s@.subrange(i as int, j as int),
                k as int,
            ),
        decreases KW_LEN - k,
    {
        let (w, kind) = kw_row(k);
        if span_is(s, i, j, w) {
            return Some(kind);
        }
        k += 1;
    }
    None
}

/* ---------- the closed Japanese-surface table ---------- */

/// The internal token kind: a public kind, or the `に` target marker that the Japanese skin
/// deletes before returning.
#[derive(Debug, Clone, Copy, PartialEq, Eq, Structural)]
pub enum Bk {
    T(TokKind),
    Tgt,
}

/// Number of rows of the closed Japanese-surface table.
pub const JATAB_LEN: usize = 79;

/// The word of row `k` of the closed Japanese-surface table.
pub open spec fn jatab_word(k: usize) -> Seq<char> {
    match k {
        0 => "と"@,
        1 => "か"@,
        2 => "の"@,
        3 => "で"@,
        4 => "、"@,
        5 => "が"@,
        6 => "は"@,
        7 => "に"@,
        8 => "より"@,
        9 => "超"@,
        10 => "未満"@,
        11 => "同"@,
        12 => "以上"@,
        13 => "以下"@,
        14 => "不同"@,
        15 => "ない"@,
        16 => "たす"@,
        17 => "ひく"@,
        18 => "かける"@,
        19 => "わる"@,
        20 => "にする"@,
        21 => "付"@,
        22 => "除"@,
        23 => "消"@,
        24 => "て"@,
        25 => "なる"@,
        26 => "総和"@,
        27 => "総積"@,
        28 => "総数"@,
        29 => "最大"@,
        30 => "最小"@,
        31 => "平均"@,
        32 => "皆"@,
        33 => "或"@,
        34 => "累和"@,
        35 => "累積"@,
        36 => "累数"@,
        37 => "累小"@,
        38 => "累平均"@,
        39 => "累大"@,
        40 => "累皆"@,
        41 => "累或"@,
        42 => "連番"@,
        43 => "前"@,
        44 => "行"@,
        45 => "番号"@,
        46 => "字"@,
        47 => "定義"@,
        48 => "生成"@,
        49 => "於"@,
        50 => "至"@,
        51 => "経由"@,
        52 => "沿"@,
        53 => "整列"@,
        54 => "別"@,
        55 => "取"@,
        56 => "降順"@,
        57 => "上位"@,
        58 => "格付"@,
        59 => "縮約"@,
        60 => "走査"@,
        61 => "交差"@,
        62 => "展開"@,
        63 => "("@,
        64 => ")"@,
        65 => "["@,
        66 => "]"@,
        67 => ";"@,
        68 => "<-"@,
        69 => "|>"@,
        70 => "'"@,
        71 => "_"@,
        72 => "+"@,
        73 => "-"@,
        74 => "*"@,
        75 => "/"@,
        76 => "%"@,
        77 => "="@,
        78 => "|"@,
        _ => Seq::empty(),
    }
}

/// The token kind of row `k` (the `に` target marker is `Tgt`).
pub open spec fn jatab_kind(k: usize) -> Bk {
    match k {
        0 => Bk::T(TokKind::Amp),
        1 => Bk::T(TokKind::Bar),
        2 => Bk::T(TokKind::Dot),
        3 => Bk::T(TokKind::At),
        4 => Bk::T(TokKind::Comma),
        5 => Bk::T(TokKind::Comma),
        6 => Bk::T(TokKind::Comma),
        7 => Bk::Tgt,
        8 => Bk::T(TokKind::Gt),
        9 => Bk::T(TokKind::Gt),
        10 => Bk::T(TokKind::Lt),
        11 => Bk::T(TokKind::EqEq),
        12 => Bk::T(TokKind::Ge),
        13 => Bk::T(TokKind::Le),
        14 => Bk::T(TokKind::Ne),
        15 => Bk::T(TokKind::Bang),
        16 => Bk::T(TokKind::PlusEq),
        17 => Bk::T(TokKind::MinusEq),
        18 => Bk::T(TokKind::StarEq),
        19 => Bk::T(TokKind::SlashEq),
        20 => Bk::T(TokKind::Eq),
        21 => Bk::T(TokKind::Plus),
        22 => Bk::T(TokKind::Minus),
        23 => Bk::T(TokKind::Tilde),
        24 => Bk::T(TokKind::Semi),
        25 => Bk::T(TokKind::Arrow),
        26 => Bk::T(TokKind::Fold),
        27 => Bk::T(TokKind::Fold),
        28 => Bk::T(TokKind::Fold),
        29 => Bk::T(TokKind::Fold),
        30 => Bk::T(TokKind::Fold),
        31 => Bk::T(TokKind::Fold),
        32 => Bk::T(TokKind::Fold),
        33 => Bk::T(TokKind::Fold),
        34 => Bk::T(TokKind::ScanOp),
        35 => Bk::T(TokKind::ScanOp),
        36 => Bk::T(TokKind::ScanOp),
        37 => Bk::T(TokKind::ScanOp),
        38 => Bk::T(TokKind::ScanOp),
        39 => Bk::T(TokKind::ScanOp),
        40 => Bk::T(TokKind::ScanOp),
        41 => Bk::T(TokKind::ScanOp),
        42 => Bk::T(TokKind::Iota),
        43 => Bk::T(TokKind::Name),
        44 => Bk::T(TokKind::Name),
        45 => Bk::T(TokKind::Name),
        46 => Bk::T(TokKind::Name),
        47 => Bk::T(TokKind::Def),
        48 => Bk::T(TokKind::Spawn),
        49 => Bk::T(TokKind::AtKw),
        50 => Bk::T(TokKind::To),
        51 => Bk::T(TokKind::Via),
        52 => Bk::T(TokKind::Along),
        53 => Bk::T(TokKind::Order),
        54 => Bk::T(TokKind::By),
        55 => Bk::T(TokKind::Take),
        56 => Bk::T(TokKind::Desc),
        57 => Bk::T(TokKind::Top),
        58 => Bk::T(TokKind::Grade),
        59 => Bk::T(TokKind::FoldKw),
        60 => Bk::T(TokKind::ScanKw),
        61 => Bk::T(TokKind::Cross),
        62 => Bk::T(TokKind::Expand),
        63 => Bk::T(TokKind::Lp),
        64 => Bk::T(TokKind::Rp),
        65 => Bk::T(TokKind::Lb),
        66 => Bk::T(TokKind::Rb),
        67 => Bk::T(TokKind::Semi),
        68 => Bk::T(TokKind::LArrow),
        69 => Bk::T(TokKind::PipeGt),
        70 => Bk::T(TokKind::Tick),
        71 => Bk::T(TokKind::Wild),
        72 => Bk::T(TokKind::Plus),
        73 => Bk::T(TokKind::Minus),
        74 => Bk::T(TokKind::Star),
        75 => Bk::T(TokKind::Slash),
        76 => Bk::T(TokKind::Pct),
        77 => Bk::T(TokKind::Eq),
        78 => Bk::T(TokKind::Bar),
        _ => Bk::Tgt,
    }
}

/// Whether row `k` is a postfix operator, re-rooted before its operand.
pub open spec fn jatab_post(k: usize) -> bool {
    match k {
        3 | 8 | 9 | 10 | 11 | 12 | 13 | 14 | 15 | 16 | 17 | 18 | 19 | 20 | 21 | 22 => true,
        _ => false,
    }
}

/// The operator payload of row `k` (empty when none).
pub open spec fn jatab_payload(k: usize) -> Seq<char> {
    match k {
        26 => "+"@,
        27 => "*"@,
        28 => "#"@,
        29 => "max"@,
        30 => "min"@,
        31 => "avg"@,
        32 => "&"@,
        33 => "|"@,
        34 => "+"@,
        35 => "*"@,
        36 => "#"@,
        37 => "min"@,
        38 => "avg"@,
        39 => "max"@,
        40 => "&"@,
        41 => "|"@,
        43 => "prev"@,
        44 => "row"@,
        45 => "index"@,
        46 => "char"@,
        _ => Seq::empty(),
    }
}

/// Row `k` of the closed Japanese-surface table: word, kind, postfix flag, payload.
fn jatab_row(k: usize) -> (r: (&'static str, Bk, bool, &'static str))
    requires
        k < JATAB_LEN,
    ensures
        r.0@ == jatab_word(k),
        r.1 == jatab_kind(k),
        r.2 == jatab_post(k),
        r.3@ == jatab_payload(k),
{
    proof {
        reveal_strlit("");
    }
    match k {
        0 => ("と", Bk::T(TokKind::Amp), false, ""),
        1 => ("か", Bk::T(TokKind::Bar), false, ""),
        2 => ("の", Bk::T(TokKind::Dot), false, ""),
        3 => ("で", Bk::T(TokKind::At), true, ""),
        4 => ("、", Bk::T(TokKind::Comma), false, ""),
        5 => ("が", Bk::T(TokKind::Comma), false, ""),
        6 => ("は", Bk::T(TokKind::Comma), false, ""),
        7 => ("に", Bk::Tgt, false, ""),
        8 => ("より", Bk::T(TokKind::Gt), true, ""),
        9 => ("超", Bk::T(TokKind::Gt), true, ""),
        10 => ("未満", Bk::T(TokKind::Lt), true, ""),
        11 => ("同", Bk::T(TokKind::EqEq), true, ""),
        12 => ("以上", Bk::T(TokKind::Ge), true, ""),
        13 => ("以下", Bk::T(TokKind::Le), true, ""),
        14 => ("不同", Bk::T(TokKind::Ne), true, ""),
        15 => ("ない", Bk::T(TokKind::Bang), true, ""),
        16 => ("たす", Bk::T(TokKind::PlusEq), true, ""),
        17 => ("ひく", Bk::T(TokKind::MinusEq), true, ""),
        18 => ("かける", Bk::T(TokKind::StarEq), true, ""),
        19 => ("わる", Bk::T(TokKind::SlashEq), true, ""),
        20 => ("にする", Bk::T(TokKind::Eq), true, ""),
        21 => ("付", Bk::T(TokKind::Plus), true, ""),
        22 => ("除", Bk::T(TokKind::Minus), true, ""),
        23 => ("消", Bk::T(TokKind::Tilde), false, ""),
        24 => ("て", Bk::T(TokKind::Semi), false, ""),
        25 => ("なる", Bk::T(TokKind::Arrow), false, ""),
        26 => ("総和", Bk::T(TokKind::Fold), false, "+"),
        27 => ("総積", Bk::T(TokKind::Fold), false, "*"),
        28 => ("総数", Bk::T(TokKind::Fold), false, "#"),
        29 => ("最大", Bk::T(TokKind::Fold), false, "max"),
        30 => ("最小", Bk::T(TokKind::Fold), false, "min"),
        31 => ("平均", Bk::T(TokKind::Fold), false, "avg"),
        32 => ("皆", Bk::T(TokKind::Fold), false, "&"),
        33 => ("或", Bk::T(TokKind::Fold), false, "|"),
        34 => ("累和", Bk::T(TokKind::ScanOp), false, "+"),
        35 => ("累積", Bk::T(TokKind::ScanOp), false, "*"),
        36 => ("累数", Bk::T(TokKind::ScanOp), false, "#"),
        37 => ("累小", Bk::T(TokKind::ScanOp), false, "min"),
        38 => ("累平均", Bk::T(TokKind::ScanOp), false, "avg"),
        39 => ("累大", Bk::T(TokKind::ScanOp), false, "max"),
        40 => ("累皆", Bk::T(TokKind::ScanOp), false, "&"),
        41 => ("累或", Bk::T(TokKind::ScanOp), false, "|"),
        42 => ("連番", Bk::T(TokKind::Iota), false, ""),
        43 => ("前", Bk::T(TokKind::Name), false, "prev"),
        44 => ("行", Bk::T(TokKind::Name), false, "row"),
        45 => ("番号", Bk::T(TokKind::Name), false, "index"),
        46 => ("字", Bk::T(TokKind::Name), false, "char"),
        47 => ("定義", Bk::T(TokKind::Def), false, ""),
        48 => ("生成", Bk::T(TokKind::Spawn), false, ""),
        49 => ("於", Bk::T(TokKind::AtKw), false, ""),
        50 => ("至", Bk::T(TokKind::To), false, ""),
        51 => ("経由", Bk::T(TokKind::Via), false, ""),
        52 => ("沿", Bk::T(TokKind::Along), false, ""),
        53 => ("整列", Bk::T(TokKind::Order), false, ""),
        54 => ("別", Bk::T(TokKind::By), false, ""),
        55 => ("取", Bk::T(TokKind::Take), false, ""),
        56 => ("降順", Bk::T(TokKind::Desc), false, ""),
        57 => ("上位", Bk::T(TokKind::Top), false, ""),
        58 => ("格付", Bk::T(TokKind::Grade), false, ""),
        59 => ("縮約", Bk::T(TokKind::FoldKw), false, ""),
        60 => ("走査", Bk::T(TokKind::ScanKw), false, ""),
        61 => ("交差", Bk::T(TokKind::Cross), false, ""),
        62 => ("展開", Bk::T(TokKind::Expand), false, ""),
        63 => ("(", Bk::T(TokKind::Lp), false, ""),
        64 => (")", Bk::T(TokKind::Rp), false, ""),
        65 => ("[", Bk::T(TokKind::Lb), false, ""),
        66 => ("]", Bk::T(TokKind::Rb), false, ""),
        67 => (";", Bk::T(TokKind::Semi), false, ""),
        68 => ("<-", Bk::T(TokKind::LArrow), false, ""),
        69 => ("|>", Bk::T(TokKind::PipeGt), false, ""),
        70 => ("'", Bk::T(TokKind::Tick), false, ""),
        71 => ("_", Bk::T(TokKind::Wild), false, ""),
        72 => ("+", Bk::T(TokKind::Plus), false, ""),
        73 => ("-", Bk::T(TokKind::Minus), false, ""),
        74 => ("*", Bk::T(TokKind::Star), false, ""),
        75 => ("/", Bk::T(TokKind::Slash), false, ""),
        76 => ("%", Bk::T(TokKind::Pct), false, ""),
        77 => ("=", Bk::T(TokKind::Eq), false, ""),
        78 => ("|", Bk::T(TokKind::Bar), false, ""),
        _ => ("", Bk::Tgt, false, ""),
    }
}

/// The first row at or after `k` whose word's bytes are `w`.
pub open spec fn jatab_find_from(w: Seq<u8>, k: int) -> Option<int>
    decreases JATAB_LEN - k,
{
    if k < 0 || k >= JATAB_LEN {
        None
    } else if vstd::utf8::encode_utf8(jatab_word(k as usize)) == w {
        Some(k)
    } else {
        jatab_find_from(w, k + 1)
    }
}

/// The table row a whole word is, if any.
pub open spec fn jatab_find(w: Seq<u8>) -> Option<int> {
    jatab_find_from(w, 0)
}

proof fn lemma_jatab_find_from(w: Seq<u8>, k: int)
    ensures
        jatab_find_from(w, k) matches Some(r) ==> 0 <= r < JATAB_LEN,
    decreases JATAB_LEN - k,
{
    if 0 <= k < JATAB_LEN && vstd::utf8::encode_utf8(jatab_word(k as usize)) != w {
        lemma_jatab_find_from(w, k + 1);
    }
}

/// The table row the byte span `s[i..j]` is, if any.
fn jatab_lookup(s: &[u8], i: usize, j: usize) -> (r: Option<usize>)
    requires
        i <= j <= s@.len(),
    ensures
        r matches Some(k) ==> jatab_find(s@.subrange(i as int, j as int)) == Some(k as int) && k
            < JATAB_LEN,
        r is None ==> jatab_find(s@.subrange(i as int, j as int)) is None,
{
    let mut k: usize = 0;
    while k < JATAB_LEN
        invariant
            0 <= k <= JATAB_LEN,
            i <= j <= s@.len(),
            jatab_find(s@.subrange(i as int, j as int)) == jatab_find_from(
                s@.subrange(i as int, j as int),
                k as int,
            ),
        decreases JATAB_LEN - k,
    {
        let row = jatab_row(k);
        if span_is(s, i, j, row.0) {
            return Some(k);
        }
        k += 1;
    }
    None
}


/* ---------- words ---------- */

/// A copy of the byte span `s[i..j]`.
pub fn span_vec(s: &[u8], i: usize, j: usize) -> (v: Vec<u8>)
    requires
        i <= j <= s@.len(),
    ensures
        v@ == s@.subrange(i as int, j as int),
{
    let mut v: Vec<u8> = Vec::new();
    let mut k = i;
    while k < j
        invariant
            i <= k <= j <= s@.len(),
            v@ =~= s@.subrange(i as int, k as int),
        decreases j - k,
    {
        v.push(s[k]);
        k += 1;
    }
    v
}

/// Whether `w[i..]` continues a legal identifier (`first`: nothing read yet): an ASCII
/// letter first and [A-Za-z0-9_] after, or any non-blacklisted codepoint at or above U+0080.
pub open spec fn word_name_from(w: Seq<u8>, i: int, first: bool) -> bool
    decreases w.len() - i,
{
    if i < 0 || i >= w.len() {
        true
    } else if w[i] < 0x80 {
        (if first {
            nstart(w[i])
        } else {
            nchar(w[i])
        }) && word_name_from(w, i + 1, false)
    } else {
        match ucp_spec(w, i) {
            Some((cp, l)) => !ublack(cp) && l >= 1 && word_name_from(w, i + l, false),
            None => false,
        }
    }
}

/// Whether a whole word is a legal identifier.
pub open spec fn word_name_spec(w: Seq<u8>) -> bool {
    w.len() > 0 && word_name_from(w, 0, true)
}

/// Whether a whole word (as bytes) is a legal identifier.
pub fn word_name(w: &Vec<u8>) -> (r: bool)
    ensures
        r == word_name_spec(w@),
{
    let n = w.len();
    let mut i: usize = 0;
    let mut first = true;
    while i < n
        invariant
            n == w@.len(),
            0 <= i <= n,
            word_name_from(w@, 0, true) == word_name_from(w@, i as int, first),
            first ==> i == 0,
        decreases n - i,
    {
        let c = w[i];
        if c < 0x80 {
            let ok = if first {
                is_nstart(c)
            } else {
                is_nchar(c)
            };
            if !ok {
                return false;
            }
            i += 1;
        } else {
            match ucp(w.as_slice(), i) {
                Some((cp, l)) => {
                    proof {
                        lemma_ucp_len(w@, i as int);
                    }
                    if is_ublack(cp) {
                        return false;
                    }
                    i += l;
                },
                None => {
                    return false;
                },
            }
        }
        first = false;
    }
    n > 0
}

/* ---------- numerals ---------- */

/// The value of a Japanese digit codepoint: kanji 〇一..九 or fullwidth ０-９; -1 otherwise.
pub open spec fn jadig_spec(cp: u32) -> int {
    if 0xFF10 <= cp && cp <= 0xFF19 {
        cp - 0xFF10
    } else if cp == 0x3007 {
        0
    } else if cp == 0x4E00 {
        1
    } else if cp == 0x4E8C {
        2
    } else if cp == 0x4E09 {
        3
    } else if cp == 0x56DB {
        4
    } else if cp == 0x4E94 {
        5
    } else if cp == 0x516D {
        6
    } else if cp == 0x4E03 {
        7
    } else if cp == 0x516B {
        8
    } else if cp == 0x4E5D {
        9
    } else {
        -1
    }
}

/// The digit value of a codepoint, or -1.
pub fn jadig(cp: u32) -> (d: i32)
    ensures
        d == jadig_spec(cp),
{
    if 0xFF10 <= cp && cp <= 0xFF19 {
        return (cp - 0xFF10) as i32;
    }
    if cp == 0x3007 {
        0
    } else if cp == 0x4E00 {
        1
    } else if cp == 0x4E8C {
        2
    } else if cp == 0x4E09 {
        3
    } else if cp == 0x56DB {
        4
    } else if cp == 0x4E94 {
        5
    } else if cp == 0x516D {
        6
    } else if cp == 0x4E03 {
        7
    } else if cp == 0x516B {
        8
    } else if cp == 0x4E5D {
        9
    } else {
        -1
    }
}

/// The magnitude of a codepoint: 十 10, 百 100, 千 1000, 万 10000; 0 otherwise.
pub open spec fn jamag_spec(cp: u32) -> int {
    if cp == 0x5341 {
        10
    } else if cp == 0x767E {
        100
    } else if cp == 0x5343 {
        1000
    } else if cp == 0x4E07 {
        10000
    } else {
        0
    }
}

/// The magnitude of a codepoint, or 0.
pub fn jamag(cp: u32) -> (m: i32)
    ensures
        m == jamag_spec(cp),
{
    if cp == 0x5341 {
        10
    } else if cp == 0x767E {
        100
    } else if cp == 0x5343 {
        1000
    } else if cp == 0x4E07 {
        10000
    } else {
        0
    }
}

/// One classified numeral symbol: a digit (value 0-9), a magnitude (10, 100, 1000, 10000),
/// or the decimal point ・.
#[derive(Debug, Clone, Copy, PartialEq, Eq)]
pub enum JaSym {
    Digit(u8),
    Mag(u32),
    Dot,
}

/// The classification of the codepoint `cp`, if it is a numeral symbol.
pub open spec fn classify_spec(cp: u32) -> Option<JaSym> {
    if jadig_spec(cp) >= 0 {
        Some(JaSym::Digit(jadig_spec(cp) as u8))
    } else if jamag_spec(cp) != 0 {
        Some(JaSym::Mag(jamag_spec(cp) as u32))
    } else if cp == 0x30FB {
        Some(JaSym::Dot)
    } else {
        None
    }
}

/// The numeral symbols of `w[i..]`, or `None` when a byte run there is not a well-formed
/// character or a character is no numeral symbol.
pub open spec fn classify_from(w: Seq<u8>, i: int) -> Option<Seq<JaSym>>
    decreases w.len() - i,
{
    if i < 0 || i >= w.len() {
        Some(Seq::empty())
    } else {
        match ucp_spec(w, i) {
            Some((cp, l)) => if l >= 1 {
                match classify_spec(cp) {
                    Some(sym) => match classify_from(w, i + l) {
                        Some(rest) => Some(seq![sym] + rest),
                        None => None,
                    },
                    None => None,
                }
            } else {
                None
            },
            None => None,
        }
    }
}

/// What a numeral word denotes, exactly, for the float conversion that reads it: the digit
/// bytes of an Arabic numeral (with its optional '.' fraction), the digit values of a
/// positional kanji numeral, the two digit runs of a kanji decimal (一・〇五), or the value
/// of a named-magnitude numeral (九千九百九十九).
#[derive(Debug, Clone, PartialEq, Eq)]
pub enum NumText {
    Zero,
    Digits(Vec<u8>),
    JaDigits(Vec<u8>),
    JaDecimal(Vec<u8>, Vec<u8>),
    JaCount(u64),
}

/// The mathematical reading of `NumText`.
pub ghost enum NumSpec {
    Zero,
    Digits(Seq<u8>),
    JaDigits(Seq<u8>),
    JaDecimal(Seq<u8>, Seq<u8>),
    JaCount(nat),
}

impl View for NumText {
    type V = NumSpec;

    open spec fn view(&self) -> NumSpec {
        match self {
            NumText::Zero => NumSpec::Zero,
            NumText::Digits(v) => NumSpec::Digits(v@),
            NumText::JaDigits(v) => NumSpec::JaDigits(v@),
            NumText::JaDecimal(a, b) => NumSpec::JaDecimal(a@, b@),
            NumText::JaCount(n) => NumSpec::JaCount(*n as nat),
        }
    }
}

/// The number of leading ASCII digits of `w[i..]`.
pub open spec fn digit_run(w: Seq<u8>, i: int) -> int
    decreases w.len() - i,
{
    if 0 <= i < w.len() && dig(w[i]) {
        1 + digit_run(w, i + 1)
    } else {
        0
    }
}

/// Whether an Arabic numeral is digits, optionally followed by '.' and more digits, and
/// nothing else.
pub open spec fn arabic_ok(w: Seq<u8>) -> bool {
    let p = digit_run(w, 0);
    p == w.len() || (w[p] == 46 && digit_run(w, p + 1) >= 1 && p + 1 + digit_run(w, p + 1)
        == w.len())
}

/// The number of leading digit symbols of `syms[k..]`.
pub open spec fn sym_digit_run(syms: Seq<JaSym>, k: int) -> int
    decreases syms.len() - k,
{
    if 0 <= k < syms.len() && syms[k] is Digit {
        1 + sym_digit_run(syms, k + 1)
    } else {
        0
    }
}

/// The digit values of symbols `syms[a..b]` (all digits there).
pub open spec fn sym_digits(syms: Seq<JaSym>, a: int, b: int) -> Seq<u8> {
    syms.subrange(a, b).map_values(|x: JaSym| match x {
        JaSym::Digit(d) => d,
        _ => 0u8,
    })
}

/// The value of a named-magnitude numeral read from symbol `k` on: `v` is the finished
/// myriads, `sect` the current section, `cur` the pending digit (`curset` when one was
/// written). A magnitude below 万 multiplies the pending digit (or 1) into the section; 万
/// multiplies the section plus the pending digit (or 1) by 10000.
pub open spec fn mag_value(
    syms: Seq<JaSym>,
    k: int,
    v: nat,
    sect: nat,
    cur: nat,
    curset: bool,
) -> nat
    decreases syms.len() - k,
{
    if k < 0 || k >= syms.len() {
        v + sect + cur
    } else {
        match syms[k] {
            JaSym::Digit(d) => mag_value(syms, k + 1, v, sect, d as nat, true),
            JaSym::Mag(m) => if m == 10000 {
                let s2 = sect + cur;
                mag_value(
                    syms,
                    k + 1,
                    v + (if s2 > 0 {
                        s2
                    } else {
                        1
                    }) * 10000,
                    0,
                    0,
                    false,
                )
            } else {
                mag_value(
                    syms,
                    k + 1,
                    v,
                    sect + (if curset {
                        cur
                    } else {
                        1
                    }) * (m as nat),
                    0,
                    false,
                )
            },
            JaSym::Dot => mag_value(syms, k + 1, v, sect, cur, curset),
        }
    }
}

/// Whether a symbol run holds the decimal point.
pub open spec fn has_dot(syms: Seq<JaSym>) -> bool {
    exists|k: int| 0 <= k < syms.len() && syms[k] is Dot
}

/// Whether a symbol run holds a magnitude.
pub open spec fn has_mag(syms: Seq<JaSym>) -> bool {
    exists|k: int| 0 <= k < syms.len() && syms[k] is Mag
}

/// The bytes of the counter suffix ヶ月.
pub open spec fn kagetsu() -> Seq<u8> {
    seq![0xE3u8, 0x83u8, 0xB6u8, 0xE6u8, 0x9Cu8, 0x88u8]
}

/// What a whole word denotes as a numeral, with whether it carried the ヶ月 counter suffix
/// (unit "mo"); `None` when it is no numeral. Words of 128 bytes or more are never numerals.
pub open spec fn ja_numeral_spec(w: Seq<u8>) -> Option<(NumSpec, bool)> {
    let n0 = w.len();
    if n0 == 0 || n0 >= 128 {
        None
    } else {
        let mo = n0 > 6 && w.subrange(n0 - 6, n0 as int) == kagetsu();
        let len = if mo {
            n0 - 6
        } else {
            n0 as int
        };
        let buf = w.subrange(0, len);
        if dig(buf[0]) {
            if arabic_ok(buf) {
                Some((NumSpec::Digits(buf), mo))
            } else {
                None
            }
        } else {
            match classify_from(buf, 0) {
                None => None,
                Some(syms) => {
                    let nn = syms.len();
                    let hasdot = has_dot(syms);
                    let hasmag = has_mag(syms);
                    if nn > 32 {
                        None
                    } else if hasdot {
                        let k = sym_digit_run(syms, 0);
                        if hasmag || syms[0] is Dot || k >= nn || !(syms[k] is Dot) || k + 1
                            >= nn || sym_digit_run(syms, k + 1) != nn - k - 1 {
                            None
                        } else {
                            Some(
                                (
                                    NumSpec::JaDecimal(
                                        sym_digits(syms, 0, k),
                                        sym_digits(syms, k + 1, nn as int),
                                    ),
                                    mo,
                                ),
                            )
                        }
                    } else if hasmag {
                        Some((NumSpec::JaCount(mag_value(syms, 0, 0, 0, 0, false)), mo))
                    } else {
                        Some((NumSpec::JaDigits(sym_digits(syms, 0, nn as int)), mo))
                    }
                },
            }
        }
    }
}


proof fn lemma_digit_run(w: Seq<u8>, i: int, p: int)
    requires
        0 <= i <= p <= w.len(),
        forall|x: int| i <= x < p ==> dig(#[trigger] w[x]),
        p == w.len() || !dig(w[p]),
    ensures
        digit_run(w, i) == p - i,
    decreases p - i,
{
    if i < p {
        lemma_digit_run(w, i + 1, p);
    }
}

proof fn lemma_sym_digit_run(syms: Seq<JaSym>, i: int, p: int)
    requires
        0 <= i <= p <= syms.len(),
        forall|x: int| i <= x < p ==> #[trigger] syms[x] is Digit,
        p == syms.len() || !(syms[p] is Digit),
    ensures
        sym_digit_run(syms, i) == p - i,
    decreases p - i,
{
    if i < p {
        lemma_sym_digit_run(syms, i + 1, p);
    }
}

/// The end of the digit run of `w` starting at `i`.
fn digit_run_exec(w: &Vec<u8>, i: usize) -> (p: usize)
    requires
        i <= w@.len(),
    ensures
        i <= p <= w@.len(),
        p - i == digit_run(w@, i as int),
{
    let mut p = i;
    while p < w.len() && is_dig(w[p])
        invariant
            i <= p <= w@.len(),
            forall|x: int| i <= x < p ==> dig(#[trigger] w@[x]),
        decreases w@.len() - p,
    {
        p += 1;
    }
    proof {
        lemma_digit_run(w@, i as int, p as int);
    }
    p
}

/// The end of the digit-symbol run of `syms` starting at `i`.
fn sym_digit_run_exec(syms: &Vec<JaSym>, i: usize) -> (p: usize)
    requires
        i <= syms@.len(),
    ensures
        i <= p <= syms@.len(),
        p - i == sym_digit_run(syms@, i as int),
{
    let mut p = i;
    while p < syms.len() && matches!(syms[p], JaSym::Digit(_))
        invariant
            i <= p <= syms@.len(),
            forall|x: int| i <= x < p ==> #[trigger] syms@[x] is Digit,
        decreases syms@.len() - p,
    {
        p += 1;
    }
    proof {
        lemma_sym_digit_run(syms@, i as int, p as int);
    }
    p
}

/// The digit values of `syms[a..b]`.
fn sym_digits_exec(syms: &Vec<JaSym>, a: usize, b: usize) -> (v: Vec<u8>)
    requires
        a <= b <= syms@.len(),
    ensures
        v@ == sym_digits(syms@, a as int, b as int),
{
    let mut v: Vec<u8> = Vec::new();
    let mut k = a;
    while k < b
        invariant
            a <= k <= b <= syms@.len(),
            v@ =~= sym_digits(syms@, a as int, k as int),
        decreases b - k,
    {
        let d: u8 = match syms[k] {
            JaSym::Digit(d) => d,
            _ => 0u8,
        };
        v.push(d);
        proof {
            assert(sym_digits(syms@, a as int, k + 1) =~= sym_digits(syms@, a as int, k as int).push(d));
        }
        k += 1;
    }
    v
}

/// The classification of a codepoint as a numeral symbol.
fn classify(cp: u32) -> (r: Option<JaSym>)
    ensures
        r == classify_spec(cp),
{
    let d = jadig(cp);
    if d >= 0 {
        return Some(JaSym::Digit(d as u8));
    }
    let m = jamag(cp);
    if m != 0 {
        return Some(JaSym::Mag(m as u32));
    }
    if cp == 0x30FB {
        return Some(JaSym::Dot);
    }
    None
}

/// The numeral symbols of a whole byte buffer, or `None`.
fn classify_all(buf: &Vec<u8>) -> (r: Option<Vec<JaSym>>)
    ensures
        match r {
            Some(v) => classify_from(buf@, 0) == Some(v@),
            None => classify_from(buf@, 0) is None,
        },
{
    let mut syms: Vec<JaSym> = Vec::new();
    let mut p: usize = 0;
    while p < buf.len()
        invariant
            0 <= p <= buf@.len(),
            classify_from(buf@, 0) == match classify_from(buf@, p as int) {
                Some(rest) => Some(syms@ + rest),
                None => None::<Seq<JaSym>>,
            },
        decreases buf@.len() - p,
    {
        proof {
            lemma_ucp_len(buf@, p as int);
        }
        match ucp(buf.as_slice(), p) {
            None => {
                return None;
            },
            Some((cp, l)) => {
                match classify(cp) {
                    None => {
                        return None;
                    },
                    Some(sym) => {
                        let ghost before = syms@;
                        syms.push(sym);
                        proof {
                            match classify_from(buf@, p + l) {
                                Some(rest) => {
                                    assert(before + (seq![sym] + rest) =~= syms@ + rest);
                                },
                                None => {},
                            }
                        }
                        p = p + l;
                    },
                }
            },
        }
    }
    proof {
        assert(syms@ + Seq::<JaSym>::empty() =~= syms@);
    }
    Some(syms)
}

/// The named-magnitude value of a symbol run (see `mag_value`).
fn mag_value_exec(syms: &Vec<JaSym>) -> (v: u64)
    requires
        syms@.len() <= 32,
        forall|k: int|
            0 <= k < syms@.len() ==> match #[trigger] syms@[k] {
                JaSym::Digit(d) => d <= 9,
                JaSym::Mag(m) => m == 10 || m == 100 || m == 1000 || m == 10000,
                JaSym::Dot => true,
            },
    ensures
        v == mag_value(syms@, 0, 0, 0, 0, false),
{
    let mut v: u64 = 0;
    let mut sect: u64 = 0;
    let mut cur: u64 = 0;
    let mut curset = false;
    let mut k: usize = 0;
    while k < syms.len()
        invariant
            syms@.len() <= 32,
            forall|x: int|
                0 <= x < syms@.len() ==> match #[trigger] syms@[x] {
                    JaSym::Digit(d) => d <= 9,
                    JaSym::Mag(m) => m == 10 || m == 100 || m == 1000 || m == 10000,
                    JaSym::Dot => true,
                },
            0 <= k <= syms@.len(),
            cur <= 9,
            sect <= 9000 * k,
            v <= 3_000_000_000 * k,
            mag_value(syms@, 0, 0, 0, 0, false) == mag_value(
                syms@,
                k as int,
                v as nat,
                sect as nat,
                cur as nat,
                curset,
            ),
        decreases syms@.len() - k,
    {
        match syms[k] {
            JaSym::Digit(d) => {
                cur = d as u64;
                curset = true;
            },
            JaSym::Mag(m) => {
                if m == 10000 {
                    let s2 = sect + cur;
                    let f = if s2 > 0 {
                        s2
                    } else {
                        1
                    };
                    v = v + f * 10000;
                    sect = 0;
                    cur = 0;
                    curset = false;
                } else {
                    let c = if curset {
                        cur
                    } else {
                        1
                    };
                    assert(c * (m as u64) <= 9000) by (nonlinear_arith)
                        requires
                            c <= 9,
                            m <= 1000,
                    ;
                    sect = sect + c * (m as u64);
                    cur = 0;
                    curset = false;
                }
            },
            JaSym::Dot => {},
        }
        k += 1;
    }
    v + sect + cur
}

/// Whether `syms` holds a symbol matching `dot` (the point) or, otherwise, a magnitude.
fn has_sym(syms: &Vec<JaSym>, dot: bool) -> (r: bool)
    ensures
        dot ==> (r == has_dot(syms@)),
        !dot ==> (r == has_mag(syms@)),
{
    let mut k: usize = 0;
    while k < syms.len()
        invariant
            0 <= k <= syms@.len(),
            dot ==> forall|x: int| 0 <= x < k ==> !(syms@[x] is Dot),
            !dot ==> forall|x: int| 0 <= x < k ==> !(syms@[x] is Mag),
        decreases syms@.len() - k,
    {
        let hit = match syms[k] {
            JaSym::Dot => dot,
            JaSym::Mag(_) => !dot,
            JaSym::Digit(_) => false,
        };
        if hit {
            return true;
        }
        k += 1;
    }
    false
}

proof fn lemma_classify_bounds(w: Seq<u8>, i: int)
    ensures
        classify_from(w, i) matches Some(syms) ==> forall|k: int|
            0 <= k < syms.len() ==> match #[trigger] syms[k] {
                JaSym::Digit(d) => d <= 9,
                JaSym::Mag(m) => m == 10 || m == 100 || m == 1000 || m == 10000,
                JaSym::Dot => true,
            },
    decreases w.len() - i,
{
    if 0 <= i < w.len() {
        if let Some((cp, l)) = ucp_spec(w, i) {
            if l >= 1 {
                lemma_classify_bounds(w, i + l);
                if let Some(syms) = classify_from(w, i) {
                    let rest = classify_from(w, i + l).unwrap();
                    assert forall|k: int| 0 <= k < syms.len() implies match #[trigger] syms[k] {
                        JaSym::Digit(d) => d <= 9,
                        JaSym::Mag(m) => m == 10 || m == 100 || m == 1000 || m == 10000,
                        JaSym::Dot => true,
                    } by {
                        if k > 0 {
                            assert(syms[k] == rest[k - 1]);
                        }
                    }
                }
            }
        }
    }
}

/// What a whole word denotes as a numeral, and whether it carried ヶ月 (see
/// `ja_numeral_spec`); `None` when it is no numeral.
pub fn ja_numeral(w: &Vec<u8>) -> (r: Option<(NumText, bool)>)
    ensures
        match r {
            Some((t, mo)) => ja_numeral_spec(w@) == Some((t@, mo)),
            None => ja_numeral_spec(w@) is None,
        },
{
    let n0 = w.len();
    if n0 == 0 || n0 >= 128 {
        return None;
    }
    let mut len = n0;
    let mut mo = false;
    if n0 > 6 && w[n0 - 6] == 0xE3 && w[n0 - 5] == 0x83 && w[n0 - 4] == 0xB6 && w[n0 - 3] == 0xE6
        && w[n0 - 2] == 0x9C && w[n0 - 1] == 0x88 {
        len = n0 - 6;
        mo = true;
        proof {
            assert(w@.subrange(n0 - 6, n0 as int) =~= kagetsu());
        }
    } else {
        proof {
            if n0 > 6 && w@.subrange(n0 - 6, n0 as int) == kagetsu() {
                assert(w@.subrange(n0 - 6, n0 as int)[0] == w@[n0 - 6]);
                assert(w@.subrange(n0 - 6, n0 as int)[1] == w@[n0 - 5]);
                assert(w@.subrange(n0 - 6, n0 as int)[2] == w@[n0 - 4]);
                assert(w@.subrange(n0 - 6, n0 as int)[3] == w@[n0 - 3]);
                assert(w@.subrange(n0 - 6, n0 as int)[4] == w@[n0 - 2]);
                assert(w@.subrange(n0 - 6, n0 as int)[5] == w@[n0 - 1]);
            }
        }
    }
    let buf = span_vec(w.as_slice(), 0, len);
    if is_dig(buf[0]) {
        let p = digit_run_exec(&buf, 0);
        if p == len {
            return Some((NumText::Digits(buf), mo));
        }
        if buf[p] != 46 {
            return None;
        }
        let q = digit_run_exec(&buf, p + 1);
        if q - (p + 1) >= 1 && q == len {
            return Some((NumText::Digits(buf), mo));
        }
        return None;
    }
    let classified = classify_all(&buf);
    let syms = match classified {
        None => {
            return None;
        },
        Some(v) => v,
    };
    proof {
        lemma_classify_bounds(buf@, 0);
    }
    let nn = syms.len();
    if nn > 32 {
        return None;
    }
    let hasdot = has_sym(&syms, true);
    let hasmag = has_sym(&syms, false);
    if hasdot {
        let k = sym_digit_run_exec(&syms, 0);
        if hasmag || matches!(syms[0], JaSym::Dot) || k >= nn {
            return None;
        }
        if !matches!(syms[k], JaSym::Dot) || k + 1 >= nn {
            return None;
        }
        let e = sym_digit_run_exec(&syms, k + 1);
        if e != nn {
            return None;
        }
        let a = sym_digits_exec(&syms, 0, k);
        let b = sym_digits_exec(&syms, k + 1, nn);
        return Some((NumText::JaDecimal(a, b), mo));
    }
    if hasmag {
        let v = mag_value_exec(&syms);
        return Some((NumText::JaCount(v), mo));
    }
    let d = sym_digits_exec(&syms, 0, nn);
    Some((NumText::JaDigits(d), mo))
}


/* ---------- reserved words ---------- */

/// Whether the closed grammar owns a whole word on either surface: a keyword (til
/// included), the fused reducers max/min/avg, any word of the Japanese-surface table (its
/// ASCII glyph rows included), or any numeral. Exact bytes.
pub open spec fn lex_reserved_spec(w: Seq<u8>) -> bool {
    ||| kw_spec(w) is Some
    ||| w == vstd::utf8::encode_utf8("max"@)
    ||| w == vstd::utf8::encode_utf8("min"@)
    ||| w == vstd::utf8::encode_utf8("avg"@)
    ||| jatab_find(w) is Some
    ||| ja_numeral_spec(w) is Some
}

/// Whether the closed grammar owns the word (see `lex_reserved_spec`).
pub fn lex_reserved(w: &str) -> (r: bool)
    ensures
        r == lex_reserved_spec(w.spec_bytes()),
{
    let b = w.as_bytes();
    let n = b.len();
    if kwkind(b, 0, n).is_some() {
        proof {
            assert(b@.subrange(0, n as int) =~= b@);
        }
        return true;
    }
    proof {
        assert(b@.subrange(0, n as int) =~= b@);
    }
    if span_is(b, 0, n, "max") || span_is(b, 0, n, "min") || span_is(b, 0, n, "avg") {
        return true;
    }
    if jatab_lookup(b, 0, n).is_some() {
        return true;
    }
    let v = span_vec(b, 0, n);
    ja_numeral(&v).is_some()
}

/// Whether some character of a name is an ASCII capital.
pub open spec fn has_upper(s: Seq<char>) -> bool {
    exists|i: int| 0 <= i < s.len() && 'A' <= s[i] && s[i] <= 'Z'
}

/// Registry-loader reservation: reserved as written, or — for words shorter than
/// `ANO_NAMESZ` bytes with at least one ASCII capital — reserved once ASCII A-Z is folded.
pub open spec fn lex_reserved_fold_spec(w: Seq<char>) -> bool {
    let b = vstd::utf8::encode_utf8(w);
    lex_reserved_spec(b) || (b.len() < ANO_NAMESZ && has_upper(w) && lex_reserved_spec(
        vstd::utf8::encode_utf8(crate::alias::fold_spec(w)),
    ))
}

/// Whether the word is reserved as written or after the registry's ASCII case fold.
pub fn lex_reserved_fold(w: &str) -> (r: bool)
    ensures
        r == lex_reserved_fold_spec(w@),
{
    if lex_reserved(w) {
        return true;
    }
    if w.as_bytes().len() >= ANO_NAMESZ {
        return false;
    }
    let cs = crate::text::chars_of(w);
    let mut folded = false;
    let mut k: usize = 0;
    while k < cs.len()
        invariant
            cs@ == w@,
            0 <= k <= cs@.len(),
            folded == exists|i: int| 0 <= i < k && 'A' <= cs@[i] && cs@[i] <= 'Z',
        decreases cs@.len() - k,
    {
        if 'A' <= cs[k] && cs[k] <= 'Z' {
            folded = true;
        }
        k += 1;
    }
    if !folded {
        return false;
    }
    let f = crate::alias::canonical_name(w);
    lex_reserved(f.as_str())
}


/* ---------- tokens ---------- */

/// A token as the skins buffer it: kind (possibly the `に` marker), interned name, numeral
/// text, 1-based physical line, and the postfix flag of the Japanese skin.
#[derive(Debug, Clone)]
pub struct RawTok {
    pub kind: Bk,
    pub name: Symbol,
    pub num: NumText,
    pub line: i32,
    pub post: bool,
}

/// A token as the specification reads it, with its name spelled out.
pub ghost struct SpecTok {
    pub kind: Bk,
    pub name: Seq<char>,
    pub num: NumSpec,
    pub line: int,
    pub post: bool,
}

/// A plain token of kind `k`.
pub open spec fn stok(k: TokKind, name: Seq<char>, line: int) -> SpecTok {
    SpecTok { kind: Bk::T(k), name, num: NumSpec::Zero, line, post: false }
}

/// Whether a buffered token is the specified token, its name read through the pool.
pub open spec fn tok_is(t: RawTok, st: SpecTok, pool: Seq<Seq<char>>) -> bool {
    &&& t.kind == st.kind
    &&& (t.name.0 as int) < pool.len()
    &&& pool[t.name.0 as int] == st.name
    &&& t.num@ == st.num
    &&& t.line == st.line
    &&& t.post == st.post
}

/// Whether a buffer is the specified token sequence.
pub open spec fn toks_are(ts: Seq<RawTok>, sts: Seq<SpecTok>, pool: Seq<Seq<char>>) -> bool {
    &&& ts.len() == sts.len()
    &&& forall|k: int| 0 <= k < ts.len() ==> tok_is(#[trigger] ts[k], sts[k], pool)
}

/// A grown pool keeps every name it had.
proof fn lemma_toks_are_grow(
    ts: Seq<RawTok>,
    sts: Seq<SpecTok>,
    pool: Seq<Seq<char>>,
    pool2: Seq<Seq<char>>,
)
    requires
        toks_are(ts, sts, pool),
        pool.is_prefix_of(pool2),
    ensures
        toks_are(ts, sts, pool2),
{
    assert forall|k: int| 0 <= k < ts.len() implies tok_is(#[trigger] ts[k], sts[k], pool2) by {
        assert(tok_is(ts[k], sts[k], pool));
        assert(pool2[ts[k].name.0 as int] == pool[ts[k].name.0 as int]);
    }
}

/// The characters a byte span decodes to, as the pool records them: the strict decoding of
/// a well-formed span, else its lossy reading.
pub open spec fn span_text(s: Seq<u8>, i: int, j: int) -> Seq<char> {
    if valid_utf8(s.subrange(i, j)) {
        decode_utf8(s.subrange(i, j))
    } else {
        lossy_text(s.subrange(i, j))
    }
}

/// The text of a lexer refusal: "line <n>: <message>".
pub open spec fn lex_err_text(line: int, msg: Seq<char>) -> Seq<char> {
    "line "@ + int_spelling(line) + ": "@ + msg
}

/// A lexer refusal at a line.
pub fn lex_err(line: i32, msg: &str) -> (d: Diag)
    ensures
        d.msg@ == lex_err_text(line as int, msg@),
        d.code == 2,
{
    let num = i64_text(line as i64);
    let head = cat("line ", num.as_str());
    let head2 = cat(head.as_str(), ": ");
    Diag::refuse(cat(head2.as_str(), msg))
}

/// Interns the spelling of a byte span.
fn intern_span(it: &mut Interner, s: &[u8], i: usize, j: usize) -> (sym: Symbol)
    requires
        old(it).wf(),
        old(it)@.len() < u32::MAX,
        i <= j <= s@.len(),
    ensures
        final(it).wf(),
        old(it)@.is_prefix_of(final(it)@),
        final(it)@.len() <= old(it)@.len() + 1,
        (sym.0 as int) < final(it)@.len(),
        final(it)@[sym.0 as int] == span_text(s@, i as int, j as int),
{
    let text = lossy_span(s, i, j);
    it.intern(text.as_str())
}

/// Interns a literal spelling.
fn intern_lit(it: &mut Interner, lit: &str) -> (sym: Symbol)
    requires
        old(it).wf(),
        old(it)@.len() < u32::MAX,
    ensures
        final(it).wf(),
        old(it)@.is_prefix_of(final(it)@),
        final(it)@.len() <= old(it)@.len() + 1,
        (sym.0 as int) < final(it)@.len(),
        final(it)@[sym.0 as int] == lit@,
{
    it.intern(lit)
}

/* ---------- runs ---------- */

/// The first newline at or after `i`, or the end.
pub open spec fn line_end(s: Seq<u8>, i: int) -> int
    decreases s.len() - i,
{
    if 0 <= i < s.len() && s[i] != 10 {
        line_end(s, i + 1)
    } else {
        i
    }
}

/// The first '"' or newline at or after `i`, or the end.
pub open spec fn str_end(s: Seq<u8>, i: int) -> int
    decreases s.len() - i,
{
    if 0 <= i < s.len() && s[i] != 34 && s[i] != 10 {
        str_end(s, i + 1)
    } else {
        i
    }
}

/// The end of the ASCII digit run at `i`.
pub open spec fn digit_end(s: Seq<u8>, i: int) -> int
    decreases s.len() - i,
{
    if 0 <= i < s.len() && dig(s[i]) {
        digit_end(s, i + 1)
    } else {
        i
    }
}

/// The end of the ASCII identifier-byte run at `i`.
pub open spec fn nchar_end(s: Seq<u8>, i: int) -> int
    decreases s.len() - i,
{
    if 0 <= i < s.len() && nchar(s[i]) {
        nchar_end(s, i + 1)
    } else {
        i
    }
}

proof fn lemma_line_end_bounds(s: Seq<u8>, i: int)
    requires
        0 <= i <= s.len(),
    ensures
        i <= line_end(s, i) <= s.len(),
    decreases s.len() - i,
{
    if i < s.len() && s[i] != 10 {
        lemma_line_end_bounds(s, i + 1);
    }
}

proof fn lemma_digit_end_bounds(s: Seq<u8>, i: int)
    requires
        0 <= i <= s.len(),
    ensures
        i <= digit_end(s, i) <= s.len(),
    decreases s.len() - i,
{
    if i < s.len() && dig(s[i]) {
        lemma_digit_end_bounds(s, i + 1);
    }
}

fn line_end_exec(s: &[u8], i: usize) -> (j: usize)
    requires
        i <= s@.len(),
    ensures
        j == line_end(s@, i as int),
        i <= j <= s@.len(),
{
    let mut j = i;
    while j < s.len() && s[j] != 10
        invariant
            i <= j <= s@.len(),
            line_end(s@, i as int) == line_end(s@, j as int),
        decreases s@.len() - j,
    {
        j += 1;
    }
    j
}

fn str_end_exec(s: &[u8], i: usize) -> (j: usize)
    requires
        i <= s@.len(),
    ensures
        j == str_end(s@, i as int),
        i <= j <= s@.len(),
{
    let mut j = i;
    while j < s.len() && s[j] != 34 && s[j] != 10
        invariant
            i <= j <= s@.len(),
            str_end(s@, i as int) == str_end(s@, j as int),
        decreases s@.len() - j,
    {
        j += 1;
    }
    j
}

fn digit_end_exec(s: &[u8], i: usize) -> (j: usize)
    requires
        i <= s@.len(),
    ensures
        j == digit_end(s@, i as int),
        i <= j <= s@.len(),
{
    let mut j = i;
    while j < s.len() && is_dig(s[j])
        invariant
            i <= j <= s@.len(),
            digit_end(s@, i as int) == digit_end(s@, j as int),
        decreases s@.len() - j,
    {
        j += 1;
    }
    j
}

fn nchar_end_exec(s: &[u8], i: usize) -> (j: usize)
    requires
        i <= s@.len(),
    ensures
        j == nchar_end(s@, i as int),
        i <= j <= s@.len(),
{
    let mut j = i;
    while j < s.len() && is_nchar(s[j])
        invariant
            i <= j <= s@.len(),
            nchar_end(s@, i as int) == nchar_end(s@, j as int),
        decreases s@.len() - j,
    {
        j += 1;
    }
    j
}

/* ---------- the ASCII skin ---------- */

/// What one scan step at a position does: end a line, skip bytes, emit tokens, or refuse.
/// `Skip(x)` and `Emit(_, x)` resume at the position plus `1 + x`.
pub ghost enum AStep {
    Newline,
    Skip(nat),
    Emit(Seq<SpecTok>, nat),
    Fail(Seq<char>),
}

/// The executable counterpart of `AStep`, resuming at an absolute position.
pub enum Step {
    Newline,
    Skip(usize),
    Emit(Vec<RawTok>, usize),
    Fail(String),
}

/// Whether an executed step is the specified step at position `i`.
pub open spec fn step_is(r: Step, a: AStep, i: int, pool: Seq<Seq<char>>) -> bool {
    match (r, a) {
        (Step::Newline, AStep::Newline) => true,
        (Step::Skip(n), AStep::Skip(x)) => n == i + 1 + x,
        (Step::Emit(v, n), AStep::Emit(ts, x)) => n == i + 1 + x && toks_are(v@, ts, pool),
        (Step::Fail(m), AStep::Fail(msg)) => m@ == msg,
        _ => false,
    }
}

/// One token of kind `k`, no name, resuming `x` bytes past the next one.
pub open spec fn emit1(k: TokKind, name: Seq<char>, line: int, x: nat) -> AStep {
    AStep::Emit(seq![stok(k, name, line)], x)
}

/// The name-led tail shared by ASCII and UTF-8 identifiers: the word `s[i..j]` fuses with a
/// following '/' (not "/=") into a fold, with '\' into a scan, takes a postfix tick, or is a
/// plain name.
pub open spec fn name_tail(s: Seq<u8>, i: int, j: int, line: int) -> AStep {
    let w = span_text(s, i, j);
    if at(s, j) == 47 && at(s, j + 1) != 61 {
        emit1(TokKind::Fold, w, line, (j - i) as nat)
    } else if at(s, j) == 92 {
        emit1(TokKind::ScanOp, w, line, (j - i) as nat)
    } else if at(s, j) == 39 {
        AStep::Emit(
            seq![stok(TokKind::Name, w, line), stok(TokKind::Tick, Seq::empty(), line)],
            (j - i) as nat,
        )
    } else {
        emit1(TokKind::Name, w, line, (j - i - 1) as nat)
    }
}

/// An ASCII-letter-led word: a keyword, else the name-led tail.
pub open spec fn ascii_word(s: Seq<u8>, i: int, line: int) -> AStep {
    let j = nspan_spec(s, i + 1);
    match kw_spec(s.subrange(i, j)) {
        Some(k) => emit1(k, Seq::empty(), line, (j - i - 1) as nat),
        None => name_tail(s, i, j, line),
    }
}

/// A number: digits, an optional '.' and digits, then either a counter unit or nothing.
pub open spec fn ascii_number(s: Seq<u8>, i: int, line: int) -> AStep {
    let j1 = digit_end(s, i);
    let j = if at(s, j1) == 46 && dig(at(s, j1 + 1)) {
        digit_end(s, j1 + 1)
    } else {
        j1
    };
    if j - i >= 64 {
        AStep::Fail("number too long"@)
    } else if nstart(at(s, j)) {
        let k = nchar_end(s, j + 1);
        AStep::Emit(
            seq![
                SpecTok {
                    kind: Bk::T(TokKind::Counter),
                    name: span_text(s, j, k),
                    num: NumSpec::Digits(s.subrange(i, j)),
                    line,
                    post: false,
                },
            ],
            (k - i - 1) as nat,
        )
    } else {
        AStep::Emit(
            seq![
                SpecTok {
                    kind: Bk::T(TokKind::Num),
                    name: Seq::empty(),
                    num: NumSpec::Digits(s.subrange(i, j)),
                    line,
                    post: false,
                },
            ],
            (j - i - 1) as nat,
        )
    }
}

/// A word led by a byte at or above 0x80.
pub open spec fn ascii_utf8(s: Seq<u8>, i: int, line: int) -> AStep {
    match ucp_spec(s, i) {
        None => AStep::Fail("malformed UTF-8"@),
        Some((cp, l)) => if ublack(cp) {
            AStep::Fail("unknown character U+"@ + crate::text::hex_width_upper(cp as nat, 4))
        } else {
            name_tail(s, i, nspan_spec(s, i + l), line)
        },
    }
}

/// A sigil followed by a name (`:sym`, `^alias`), or the given refusal.
pub open spec fn sigil(s: Seq<u8>, i: int, line: int, k: TokKind, refusal: Seq<char>) -> AStep {
    let st = nstart_span_spec(s, i + 1);
    if st == 0 {
        AStep::Fail(refusal)
    } else {
        let j = nspan_spec(s, i + 1 + st);
        emit1(k, span_text(s, i + 1, j), line, (j - i - 1) as nat)
    }
}

/// An operator glyph: single, double, fused fold or scan, or a refusal.
pub open spec fn ascii_punct(s: Seq<u8>, i: int, line: int) -> AStep {
    let c = s[i];
    let d = at(s, i + 1);
    let e = Seq::<char>::empty();
    if c == 44 {
        emit1(TokKind::Comma, e, line, 0)
    } else if c == 59 {
        emit1(TokKind::Semi, e, line, 0)
    } else if c == 40 {
        emit1(TokKind::Lp, e, line, 0)
    } else if c == 41 {
        emit1(TokKind::Rp, e, line, 0)
    } else if c == 91 {
        emit1(TokKind::Lb, e, line, 0)
    } else if c == 93 {
        emit1(TokKind::Rb, e, line, 0)
    } else if c == 126 {
        emit1(TokKind::Tilde, e, line, 0)
    } else if c == 46 {
        emit1(TokKind::Dot, e, line, 0)
    } else if c == 37 {
        emit1(TokKind::Pct, e, line, 0)
    } else if c == 64 {
        emit1(TokKind::At, e, line, 0)
    } else if c == 61 {
        if d == 62 {
            emit1(TokKind::Arrow, e, line, 1)
        } else if d == 61 {
            emit1(TokKind::EqEq, e, line, 1)
        } else {
            emit1(TokKind::Eq, e, line, 0)
        }
    } else if c == 33 {
        if d == 61 {
            emit1(TokKind::Ne, e, line, 1)
        } else {
            emit1(TokKind::Bang, e, line, 0)
        }
    } else if c == 60 {
        if d == 61 {
            emit1(TokKind::Le, e, line, 1)
        } else if d == 45 {
            emit1(TokKind::LArrow, e, line, 1)
        } else {
            emit1(TokKind::Lt, e, line, 0)
        }
    } else if c == 62 {
        if d == 61 {
            emit1(TokKind::Ge, e, line, 1)
        } else {
            emit1(TokKind::Gt, e, line, 0)
        }
    } else if c == 124 {
        if d == 62 {
            emit1(TokKind::PipeGt, e, line, 1)
        } else if d == 47 {
            emit1(TokKind::Fold, "|"@, line, 1)
        } else if d == 92 {
            emit1(TokKind::ScanOp, "|"@, line, 1)
        } else {
            emit1(TokKind::Bar, e, line, 0)
        }
    } else if c == 38 {
        if d == 47 {
            emit1(TokKind::Fold, "&"@, line, 1)
        } else if d == 92 {
            emit1(TokKind::ScanOp, "&"@, line, 1)
        } else {
            emit1(TokKind::Amp, e, line, 0)
        }
    } else if c == 43 {
        if d == 61 {
            emit1(TokKind::PlusEq, e, line, 1)
        } else if d == 47 {
            emit1(TokKind::Fold, "+"@, line, 1)
        } else if d == 92 {
            emit1(TokKind::ScanOp, "+"@, line, 1)
        } else {
            emit1(TokKind::Plus, e, line, 0)
        }
    } else if c == 45 {
        if d == 61 {
            emit1(TokKind::MinusEq, e, line, 1)
        } else if d == 47 {
            emit1(TokKind::Fold, "-"@, line, 1)
        } else if d == 92 {
            emit1(TokKind::ScanOp, "-"@, line, 1)
        } else {
            emit1(TokKind::Minus, e, line, 0)
        }
    } else if c == 42 {
        if d == 61 {
            emit1(TokKind::StarEq, e, line, 1)
        } else if d == 47 {
            emit1(TokKind::Fold, "*"@, line, 1)
        } else if d == 92 {
            emit1(TokKind::ScanOp, "*"@, line, 1)
        } else {
            emit1(TokKind::Star, e, line, 0)
        }
    } else if c == 47 {
        if d == 61 {
            emit1(TokKind::SlashEq, e, line, 1)
        } else if d == 92 {
            emit1(TokKind::ScanOp, "/"@, line, 1)
        } else {
            emit1(TokKind::Slash, e, line, 0)
        }
    } else if c == 35 {
        if d == 47 {
            emit1(TokKind::Fold, "#"@, line, 1)
        } else if d == 92 {
            emit1(TokKind::ScanOp, "#"@, line, 1)
        } else {
            AStep::Fail("'#' begins only '#/' or '#\\'"@)
        }
    } else if c == 94 {
        sigil(s, i, line, TokKind::Alias, "'^' begins only the ^alias sigil"@)
    } else if c == 39 {
        AStep::Fail("stray tick: ' is postfix on a name"@)
    } else if c == 92 {
        AStep::Fail("stray '\\': scans are +\\ -\\ *\\ /\\ &\\ |\\ #\\ or name\\ glued"@)
    } else {
        AStep::Fail("unknown byte 0x"@ + crate::text::hex_width_upper(c as nat, 2))
    }
}

/// The ASCII skin's step at byte `i`.
pub open spec fn ascii_step(s: Seq<u8>, i: int, line: int) -> AStep {
    let c = s[i];
    if c == 10 {
        AStep::Newline
    } else if c == 32 || c == 9 || c == 13 {
        AStep::Skip(0)
    } else if c == 45 && at(s, i + 1) == 45 {
        AStep::Skip((line_end(s, i) - i - 1) as nat)
    } else if nstart(c) {
        ascii_word(s, i, line)
    } else if dig(c) {
        ascii_number(s, i, line)
    } else if c == 34 {
        let j = str_end(s, i + 1);
        if at(s, j) != 34 {
            AStep::Fail("unterminated string"@)
        } else {
            emit1(TokKind::Str, span_text(s, i + 1, j), line, (j - i) as nat)
        }
    } else if c == 58 {
        sigil(s, i, line, TokKind::Sym, "':' needs a name: symbols are :Name"@)
    } else if c == 95 {
        if nchar(at(s, i + 1)) {
            AStep::Fail("names cannot start with '_'"@)
        } else {
            emit1(TokKind::Wild, Seq::empty(), line, 0)
        }
    } else if c >= 0x80 {
        ascii_utf8(s, i, line)
    } else {
        ascii_punct(s, i, line)
    }
}

/// The separator a newline contributes: one `Nl` after a nonempty line, never a leading or a
/// doubled one.
pub open spec fn push_nl(acc: Seq<SpecTok>, line: int) -> Seq<SpecTok> {
    if acc.len() > 0 && acc.last().kind != Bk::T(TokKind::Nl) {
        acc.push(stok(TokKind::Nl, Seq::empty(), line))
    } else {
        acc
    }
}

/// Where scanning resumes after a step at `i` that consumed `1 + x` bytes (never past the
/// end).
pub open spec fn resume(s: Seq<u8>, i: int, x: nat) -> int {
    if i + 1 + x > s.len() {
        s.len() as int
    } else {
        i + 1 + x
    }
}

/* ---------- the Japanese skin ---------- */

/// The end of the word that runs from `j`: the next ASCII space, tab, CR, newline or
/// U+3000, or the end; `None` when a malformed character comes first.
pub open spec fn ja_word_end(s: Seq<u8>, j: int) -> Option<int>
    decreases s.len() - j,
{
    if j < 0 || j >= s.len() {
        Some(j)
    } else if s[j] == 32 || s[j] == 9 || s[j] == 13 || s[j] == 10 {
        Some(j)
    } else if s[j] >= 0x80 {
        match ucp_spec(s, j) {
            None => None,
            Some((cp, l)) => if cp == 0x3000 {
                Some(j)
            } else if l >= 1 {
                ja_word_end(s, j + l)
            } else {
                None
            },
        }
    } else {
        ja_word_end(s, j + 1)
    }
}

/// A whole Japanese-surface word `s[i..j]`, in order: the `^alias` and `:symbol` sigils, a
/// row of the closed table (kind, postfix flag and payload), a numeral, a fused reducer word
/// (`name/`, `name\`), an identifier (a keyword, else a name by its spelling), else a
/// refusal naming the word.
pub open spec fn ja_word(s: Seq<u8>, i: int, j: int, line: int) -> AStep {
    let w = s.subrange(i, j);
    let x = (j - i - 1) as nat;
    let e = Seq::<char>::empty();
    if s[i] == 94 && word_name_spec(s.subrange(i + 1, j)) {
        emit1(TokKind::Alias, span_text(s, i + 1, j), line, x)
    } else if s[i] == 58 && word_name_spec(s.subrange(i + 1, j)) {
        emit1(TokKind::Sym, span_text(s, i + 1, j), line, x)
    } else if jatab_find(w) is Some {
        let k = jatab_find(w)->Some_0 as usize;
        AStep::Emit(
            seq![
                SpecTok {
                    kind: jatab_kind(k),
                    name: jatab_payload(k),
                    num: NumSpec::Zero,
                    line,
                    post: jatab_post(k),
                },
            ],
            x,
        )
    } else if ja_numeral_spec(w) is Some {
        let (nv, mo) = ja_numeral_spec(w)->Some_0;
        AStep::Emit(
            seq![
                SpecTok {
                    kind: Bk::T(
                        if mo {
                            TokKind::Counter
                        } else {
                            TokKind::Num
                        },
                    ),
                    name: if mo {
                        "mo"@
                    } else {
                        e
                    },
                    num: nv,
                    line,
                    post: false,
                },
            ],
            x,
        )
    } else if j - i > 1 && (s[j - 1] == 47 || s[j - 1] == 92) && word_name_spec(
        s.subrange(i, j - 1),
    ) {
        emit1(
            if s[j - 1] == 47 {
                TokKind::Fold
            } else {
                TokKind::ScanOp
            },
            span_text(s, i, j - 1),
            line,
            x,
        )
    } else if word_name_spec(w) {
        match kw_spec(w) {
            Some(k) => emit1(k, e, line, x),
            None => emit1(TokKind::Name, span_text(s, i, j), line, x),
        }
    } else {
        AStep::Fail("unknown word '"@ + span_text(s, i, j) + "'"@)
    }
}

/// The Japanese skin's step at byte `i`: whitespace (U+3000 too), comments and strings as
/// on the ASCII surface, else a whole word of at most 127 bytes.
pub open spec fn ja_step(s: Seq<u8>, i: int, line: int) -> AStep {
    let c = s[i];
    if c == 10 {
        AStep::Newline
    } else if c == 32 || c == 9 || c == 13 {
        AStep::Skip(0)
    } else if c >= 0x80 && ucp_spec(s, i) is None {
        AStep::Fail("malformed UTF-8"@)
    } else if c >= 0x80 && ucp_spec(s, i)->Some_0.0 == 0x3000 {
        AStep::Skip((ucp_spec(s, i)->Some_0.1 - 1) as nat)
    } else if c == 45 && at(s, i + 1) == 45 {
        AStep::Skip((line_end(s, i) - i - 1) as nat)
    } else if c == 34 {
        let j = str_end(s, i + 1);
        if at(s, j) != 34 {
            AStep::Fail("unterminated string"@)
        } else {
            emit1(TokKind::Str, span_text(s, i + 1, j), line, (j - i) as nat)
        }
    } else {
        match ja_word_end(s, i) {
            None => AStep::Fail("malformed UTF-8"@),
            Some(j) => if j - i >= 128 {
                AStep::Fail("word too long"@)
            } else {
                ja_word(s, i, j, line)
            },
        }
    }
}

/// One step of either skin.
#[verifier::opaque]
pub open spec fn skin_step(s: Seq<u8>, i: int, line: int, ja: bool) -> AStep {
    if ja {
        ja_step(s, i, line)
    } else {
        ascii_step(s, i, line)
    }
}

/// A skin from byte `i` on, at physical line `line`, after tokens `acc`: the token
/// sequence, or the refusal text.
pub open spec fn scan_from(s: Seq<u8>, ja: bool, i: int, line: int, acc: Seq<SpecTok>) -> Result<
    Seq<SpecTok>,
    Seq<char>,
>
    decreases s.len() - i,
{
    if i < 0 || i >= s.len() {
        Ok(acc)
    } else {
        match skin_step(s, i, line, ja) {
            AStep::Newline => scan_from(s, ja, i + 1, line + 1, push_nl(acc, line)),
            AStep::Skip(x) => scan_from(s, ja, resume(s, i, x), line, acc),
            AStep::Emit(ts, x) => scan_from(s, ja, resume(s, i, x), line, acc + ts),
            AStep::Fail(msg) => Err(lex_err_text(line, msg)),
        }
    }
}

/// The ASCII skin over a whole source.
pub open spec fn ascii_lex(s: Seq<u8>) -> Result<Seq<SpecTok>, Seq<char>> {
    scan_from(s, false, 0, 1, Seq::empty())
}

/// The Japanese skin's word pass over a whole source, before normalization.
pub open spec fn ja_scan(s: Seq<u8>) -> Result<Seq<SpecTok>, Seq<char>> {
    scan_from(s, true, 0, 1, Seq::empty())
}

/// Either skin's scan over a whole source.
pub open spec fn skin_scan(s: Seq<u8>, ja: bool) -> Result<Seq<SpecTok>, Seq<char>> {
    scan_from(s, ja, 0, 1, Seq::empty())
}

/// The resumption position of an executed step lies past `i` and within the input.
pub open spec fn step_in_bounds(r: Step, i: int, len: int) -> bool {
    match r {
        Step::Skip(n) => i < n <= len,
        Step::Emit(v, n) => i < n <= len && v@.len() <= n - i,
        _ => true,
    }
}

/// The interner grew by at most one spelling and kept every earlier one.
pub open spec fn grew_by_one(old_it: Interner, new_it: Interner) -> bool {
    &&& new_it.wf()
    &&& old_it@.is_prefix_of(new_it@)
    &&& new_it@.len() <= old_it@.len() + 1
}

fn plain(kind: TokKind, name: Symbol, line: i32) -> (t: RawTok)
    ensures
        t.kind == Bk::T(kind),
        t.name == name,
        t.num@ == NumSpec::Zero,
        t.line == line,
        !t.post,
{
    RawTok { kind: Bk::T(kind), name, num: NumText::Zero, line, post: false }
}

/// One token with the empty name.
fn one_plain(kind: TokKind, line: i32, next: usize) -> (r: Step)
    ensures
        r matches Step::Emit(v, n) && n == next && v@.len() == 1 && v@[0].kind == Bk::T(kind)
            && v@[0].name.0 == 0 && v@[0].num@ == NumSpec::Zero && v@[0].line == line
            && !v@[0].post,
{
    let mut v: Vec<RawTok> = Vec::new();
    v.push(plain(kind, Symbol(0), line));
    Step::Emit(v, next)
}

/// One token named by a literal.
fn one_lit(kind: TokKind, lit: &str, line: i32, next: usize, it: &mut Interner) -> (r: Step)
    requires
        old(it).wf(),
        old(it)@.len() < u32::MAX,
    ensures
        grew_by_one(*old(it), *final(it)),
        r matches Step::Emit(v, n) && n == next && v@.len() == 1 && tok_is(
            v@[0],
            stok(kind, lit@, line as int),
            final(it)@,
        ),
{
    let sym = intern_lit(it, lit);
    let mut v: Vec<RawTok> = Vec::new();
    v.push(plain(kind, sym, line));
    Step::Emit(v, next)
}

/// One token named by a byte span.
fn one_span(kind: TokKind, s: &[u8], a: usize, b: usize, line: i32, next: usize, it: &mut Interner) -> (r: Step)
    requires
        old(it).wf(),
        old(it)@.len() < u32::MAX,
        a <= b <= s@.len(),
    ensures
        grew_by_one(*old(it), *final(it)),
        r matches Step::Emit(v, n) && n == next && v@.len() == 1 && tok_is(
            v@[0],
            stok(kind, span_text(s@, a as int, b as int), line as int),
            final(it)@,
        ),
{
    let sym = intern_span(it, s, a, b);
    let mut v: Vec<RawTok> = Vec::new();
    v.push(plain(kind, sym, line));
    Step::Emit(v, next)
}

/// A refusal step.
fn fail_step(msg: &str) -> (r: Step)
    ensures
        r matches Step::Fail(m) && m@ == msg@,
{
    Step::Fail(String::from_str(msg))
}

/// The name-led tail (see `name_tail`), the word already interned as `nm`.
fn name_tail_exec(s: &[u8], i: usize, j: usize, line: i32, nm: Symbol, it: &Interner) -> (r: Step)
    requires
        i < j <= s@.len(),
        s@.len() < usize::MAX,
        it.wf(),
        it.holds(nm),
        it@[nm.0 as int] == span_text(s@, i as int, j as int),
    ensures
        step_is(r, name_tail(s@, i as int, j as int, line as int), i as int, it@),
        step_in_bounds(r, i as int, s@.len() as int),
{
    let mut v: Vec<RawTok> = Vec::new();
    if at_exec(s, j) == 47 && at_exec(s, j + 1) != 61 {
        v.push(plain(TokKind::Fold, nm, line));
        return Step::Emit(v, j + 1);
    }
    if at_exec(s, j) == 92 {
        v.push(plain(TokKind::ScanOp, nm, line));
        return Step::Emit(v, j + 1);
    }
    v.push(plain(TokKind::Name, nm, line));
    if at_exec(s, j) == 39 {
        v.push(plain(TokKind::Tick, Symbol(0), line));
        return Step::Emit(v, j + 1);
    }
    Step::Emit(v, j)
}

/// An ASCII-letter-led word (see `ascii_word`); its spelling is interned even when it is a
/// keyword.
fn ascii_word_exec(s: &[u8], i: usize, line: i32, it: &mut Interner) -> (r: Step)
    requires
        old(it).wf(),
        old(it)@.len() < u32::MAX,
        i < s@.len() < usize::MAX,
    ensures
        grew_by_one(*old(it), *final(it)),
        step_is(r, ascii_word(s@, i as int, line as int), i as int, final(it)@),
        step_in_bounds(r, i as int, s@.len() as int),
{
    let j = nspan(s, i + 1);
    let nm = intern_span(it, s, i, j);
    match kwkind(s, i, j) {
        Some(k) => one_plain(k, line, j),
        None => name_tail_exec(s, i, j, line, nm, it),
    }
}

/// A number (see `ascii_number`).
fn ascii_number_exec(s: &[u8], i: usize, line: i32, it: &mut Interner) -> (r: Step)
    requires
        old(it).wf(),
        old(it)@.len() < u32::MAX,
        i < s@.len() < usize::MAX,
        dig(s@[i as int]),
    ensures
        grew_by_one(*old(it), *final(it)),
        step_is(r, ascii_number(s@, i as int, line as int), i as int, final(it)@),
        step_in_bounds(r, i as int, s@.len() as int),
{
    let j1 = digit_end_exec(s, i);
    proof {
        lemma_digit_end_bounds(s@, i as int + 1);
        assert(digit_end(s@, i as int) == digit_end(s@, i as int + 1));
    }
    let j = if at_exec(s, j1) == 46 && is_dig(at_exec(s, j1 + 1)) {
        digit_end_exec(s, j1 + 1)
    } else {
        j1
    };
    if j - i >= 64 {
        return fail_step("number too long");
    }
    let digits = span_vec(s, i, j);
    if is_nstart(at_exec(s, j)) {
        let k = nchar_end_exec(s, j + 1);
        let sym = intern_span(it, s, j, k);
        let mut v: Vec<RawTok> = Vec::new();
        v.push(
            RawTok { kind: Bk::T(TokKind::Counter), name: sym, num: NumText::Digits(digits), line, post: false },
        );
        return Step::Emit(v, k);
    }
    let mut v: Vec<RawTok> = Vec::new();
    v.push(
        RawTok { kind: Bk::T(TokKind::Num), name: Symbol(0), num: NumText::Digits(digits), line, post: false },
    );
    proof {
        assert(v@[0].num@ == NumSpec::Digits(s@.subrange(i as int, j as int)));
        assert(tok_is(v@[0], ascii_number(s@, i as int, line as int)->Emit_0[0], it@));
    }
    Step::Emit(v, j)
}

/// A sigil and its name (see `sigil`).
fn sigil_exec(s: &[u8], i: usize, line: i32, k: TokKind, refusal: &str, it: &mut Interner) -> (r: Step)
    requires
        old(it).wf(),
        old(it)@.len() < u32::MAX,
        i < s@.len() < usize::MAX,
    ensures
        grew_by_one(*old(it), *final(it)),
        step_is(r, sigil(s@, i as int, line as int, k, refusal@), i as int, final(it)@),
        step_in_bounds(r, i as int, s@.len() as int),
{
    let st = nstart_span(s, i + 1);
    if st == 0 {
        return fail_step(refusal);
    }
    let j = nspan(s, i + 1 + st);
    one_span(k, s, i + 1, j, line, j, it)
}

/// A word led by a byte at or above 0x80 (see `ascii_utf8`).
fn ascii_utf8_exec(s: &[u8], i: usize, line: i32, it: &mut Interner) -> (r: Step)
    requires
        old(it).wf(),
        old(it)@.len() < u32::MAX,
        i < s@.len() < usize::MAX,
    ensures
        grew_by_one(*old(it), *final(it)),
        step_is(r, ascii_utf8(s@, i as int, line as int), i as int, final(it)@),
        step_in_bounds(r, i as int, s@.len() as int),
{
    proof {
        lemma_ucp_len(s@, i as int);
    }
    match ucp(s, i) {
        None => fail_step("malformed UTF-8"),
        Some((cp, l)) => {
            if is_ublack(cp) {
                let hex = crate::text::hex_upper_text(cp as u64, 4);
                let msg = cat("unknown character U+", hex.as_str());
                proof {
                    reveal_strlit("unknown character U+");
                }
                return Step::Fail(msg);
            }
            let j = nspan(s, i + l);
            let nm = intern_span(it, s, i, j);
            name_tail_exec(s, i, j, line, nm, it)
        },
    }
}


/// Two-way choice of a glyph step: the paired form when the next byte is `d2`, else the
/// single form.
fn glyph2(single: TokKind, pair: TokKind, i: usize, line: i32, paired: bool) -> (r: Step)
    requires
        i + 2 <= usize::MAX,
    ensures
        paired ==> (r matches Step::Emit(v, n) && n == i + 2 && v@.len() == 1 && v@[0].kind
            == Bk::T(pair) && v@[0].name.0 == 0 && v@[0].num@ == NumSpec::Zero && v@[0].line
            == line && !v@[0].post),
        !paired ==> (r matches Step::Emit(v, n) && n == i + 1 && v@.len() == 1 && v@[0].kind
            == Bk::T(single) && v@[0].name.0 == 0 && v@[0].num@ == NumSpec::Zero && v@[0].line
            == line && !v@[0].post),
{
    if paired {
        one_plain(pair, line, i + 2)
    } else {
        one_plain(single, line, i + 1)
    }
}

/// An operator glyph (see `ascii_punct`).
#[verifier::rlimit(40)]
fn ascii_punct_exec(s: &[u8], i: usize, line: i32, it: &mut Interner) -> (r: Step)
    requires
        old(it).wf(),
        old(it)@.len() < u32::MAX,
        i < s@.len() < usize::MAX,
    ensures
        grew_by_one(*old(it), *final(it)),
        step_is(r, ascii_punct(s@, i as int, line as int), i as int, final(it)@),
        step_in_bounds(r, i as int, s@.len() as int),
{
    let c = s[i];
    let d = at_exec(s, i + 1);
    if c == 44 {
        one_plain(TokKind::Comma, line, i + 1)
    } else if c == 59 {
        one_plain(TokKind::Semi, line, i + 1)
    } else if c == 40 {
        one_plain(TokKind::Lp, line, i + 1)
    } else if c == 41 {
        one_plain(TokKind::Rp, line, i + 1)
    } else if c == 91 {
        one_plain(TokKind::Lb, line, i + 1)
    } else if c == 93 {
        one_plain(TokKind::Rb, line, i + 1)
    } else if c == 126 {
        one_plain(TokKind::Tilde, line, i + 1)
    } else if c == 46 {
        one_plain(TokKind::Dot, line, i + 1)
    } else if c == 37 {
        one_plain(TokKind::Pct, line, i + 1)
    } else if c == 64 {
        one_plain(TokKind::At, line, i + 1)
    } else if c == 61 {
        if d == 62 {
            one_plain(TokKind::Arrow, line, i + 2)
        } else {
            glyph2(TokKind::Eq, TokKind::EqEq, i, line, d == 61)
        }
    } else if c == 33 {
        glyph2(TokKind::Bang, TokKind::Ne, i, line, d == 61)
    } else if c == 60 {
        if d == 45 {
            one_plain(TokKind::LArrow, line, i + 2)
        } else {
            glyph2(TokKind::Lt, TokKind::Le, i, line, d == 61)
        }
    } else if c == 62 {
        glyph2(TokKind::Gt, TokKind::Ge, i, line, d == 61)
    } else if c == 124 {
        if d == 62 {
            one_plain(TokKind::PipeGt, line, i + 2)
        } else if d == 47 {
            one_lit(TokKind::Fold, "|", line, i + 2, it)
        } else if d == 92 {
            one_lit(TokKind::ScanOp, "|", line, i + 2, it)
        } else {
            one_plain(TokKind::Bar, line, i + 1)
        }
    } else if c == 38 {
        if d == 47 {
            one_lit(TokKind::Fold, "&", line, i + 2, it)
        } else if d == 92 {
            one_lit(TokKind::ScanOp, "&", line, i + 2, it)
        } else {
            one_plain(TokKind::Amp, line, i + 1)
        }
    } else if c == 43 {
        if d == 61 {
            one_plain(TokKind::PlusEq, line, i + 2)
        } else if d == 47 {
            one_lit(TokKind::Fold, "+", line, i + 2, it)
        } else if d == 92 {
            one_lit(TokKind::ScanOp, "+", line, i + 2, it)
        } else {
            one_plain(TokKind::Plus, line, i + 1)
        }
    } else if c == 45 {
        if d == 61 {
            one_plain(TokKind::MinusEq, line, i + 2)
        } else if d == 47 {
            one_lit(TokKind::Fold, "-", line, i + 2, it)
        } else if d == 92 {
            one_lit(TokKind::ScanOp, "-", line, i + 2, it)
        } else {
            one_plain(TokKind::Minus, line, i + 1)
        }
    } else if c == 42 {
        if d == 61 {
            one_plain(TokKind::StarEq, line, i + 2)
        } else if d == 47 {
            one_lit(TokKind::Fold, "*", line, i + 2, it)
        } else if d == 92 {
            one_lit(TokKind::ScanOp, "*", line, i + 2, it)
        } else {
            one_plain(TokKind::Star, line, i + 1)
        }
    } else if c == 47 {
        if d == 61 {
            one_plain(TokKind::SlashEq, line, i + 2)
        } else if d == 92 {
            one_lit(TokKind::ScanOp, "/", line, i + 2, it)
        } else {
            one_plain(TokKind::Slash, line, i + 1)
        }
    } else if c == 35 {
        if d == 47 {
            one_lit(TokKind::Fold, "#", line, i + 2, it)
        } else if d == 92 {
            one_lit(TokKind::ScanOp, "#", line, i + 2, it)
        } else {
            fail_step("'#' begins only '#/' or '#\\'")
        }
    } else if c == 94 {
        sigil_exec(s, i, line, TokKind::Alias, "'^' begins only the ^alias sigil", it)
    } else if c == 39 {
        fail_step("stray tick: ' is postfix on a name")
    } else if c == 92 {
        fail_step("stray '\\': scans are +\\ -\\ *\\ /\\ &\\ |\\ #\\ or name\\ glued")
    } else {
        let hex = crate::text::hex_upper_text(c as u64, 2);
        let msg = cat("unknown byte 0x", hex.as_str());
        Step::Fail(msg)
    }
}

/// The ASCII skin's step at byte `i` (see `ascii_step`).
fn ascii_step_exec(s: &[u8], i: usize, line: i32, it: &mut Interner) -> (r: Step)
    requires
        old(it).wf(),
        old(it)@.len() < u32::MAX,
        i < s@.len() < usize::MAX,
    ensures
        grew_by_one(*old(it), *final(it)),
        step_is(r, ascii_step(s@, i as int, line as int), i as int, final(it)@),
        step_in_bounds(r, i as int, s@.len() as int),
{
    let c = s[i];
    if c == 10 {
        Step::Newline
    } else if c == 32 || c == 9 || c == 13 {
        Step::Skip(i + 1)
    } else if c == 45 && at_exec(s, i + 1) == 45 {
        let j = line_end_exec(s, i);
        proof {
            assert(line_end(s@, i as int) == line_end(s@, i as int + 1));
            assert(line_end(s@, i as int + 1) == line_end(s@, i as int + 2));
            lemma_line_end_bounds(s@, i as int + 2);
        }
        Step::Skip(j)
    } else if is_nstart(c) {
        ascii_word_exec(s, i, line, it)
    } else if is_dig(c) {
        ascii_number_exec(s, i, line, it)
    } else if c == 34 {
        let j = str_end_exec(s, i + 1);
        if at_exec(s, j) != 34 {
            fail_step("unterminated string")
        } else {
            one_span(TokKind::Str, s, i + 1, j, line, j + 1, it)
        }
    } else if c == 58 {
        sigil_exec(s, i, line, TokKind::Sym, "':' needs a name: symbols are :Name", it)
    } else if c == 95 {
        if is_nchar(at_exec(s, i + 1)) {
            fail_step("names cannot start with '_'")
        } else {
            one_plain(TokKind::Wild, line, i + 1)
        }
    } else if c >= 0x80 {
        ascii_utf8_exec(s, i, line, it)
    } else {
        ascii_punct_exec(s, i, line, it)
    }
}

/// Two buffers that are their specified sequences make a buffer that is the concatenation.
proof fn lemma_toks_are_concat(
    a: Seq<RawTok>,
    sa: Seq<SpecTok>,
    b: Seq<RawTok>,
    sb: Seq<SpecTok>,
    pool: Seq<Seq<char>>,
)
    requires
        toks_are(a, sa, pool),
        toks_are(b, sb, pool),
    ensures
        toks_are(a + b, sa + sb, pool),
{
    assert forall|k: int| 0 <= k < (a + b).len() implies tok_is(
        #[trigger] (a + b)[k],
        (sa + sb)[k],
        pool,
    ) by {
        if k < a.len() {
            assert(tok_is(a[k], sa[k], pool));
        } else {
            assert(tok_is(b[k - a.len()], sb[k - a.len()], pool));
        }
    }
}

/// Whether the last buffered token is a line separator.
fn ends_in_nl(v: &Vec<RawTok>) -> (r: bool)
    ensures
        r == (v@.len() > 0 && v@.last().kind == Bk::T(TokKind::Nl)),
{
    if v.len() == 0 {
        return false;
    }
    match v[v.len() - 1].kind {
        Bk::T(TokKind::Nl) => true,
        _ => false,
    }
}

/// A skin's scan over a whole source: the buffered tokens, `Nl` between nonempty lines and
/// neither leading nor doubled, or the refusal, exactly as `skin_scan` says.
fn scan_skin(s: &[u8], ja: bool, it: &mut Interner) -> (r: Result<Vec<RawTok>, Diag>)
    requires
        old(it).wf(),
        old(it)@.len() + s@.len() < u32::MAX,
        s@.len() < i32::MAX,
    ensures
        final(it).wf(),
        old(it)@.is_prefix_of(final(it)@),
        final(it)@.len() <= old(it)@.len() + s@.len(),
        match r {
            Ok(v) => skin_scan(s@, ja) matches Ok(ts) && toks_are(v@, ts, final(it)@) && v@.len()
                <= s@.len(),
            Err(d) => skin_scan(s@, ja) == Err::<Seq<SpecTok>, Seq<char>>(d.msg@) && d.code == 2,
        },
{
    let mut v: Vec<RawTok> = Vec::new();
    let mut i: usize = 0;
    let mut line: i32 = 1;
    let ghost mut acc: Seq<SpecTok> = Seq::empty();
    while i < s.len()
        invariant
            0 <= i <= s@.len(),
            1 <= line <= i + 1,
            s@.len() < i32::MAX,
            old(it)@.len() + s@.len() < u32::MAX,
            it.wf(),
            old(it)@.is_prefix_of(it@),
            it@.len() <= old(it)@.len() + i,
            v@.len() <= i,
            scan_from(s@, ja, i as int, line as int, acc) == skin_scan(s@, ja),
            toks_are(v@, acc, it@),
        decreases s@.len() - i,
    {
        let ghost pool0 = it@;
        let ghost a = skin_step(s@, i as int, line as int, ja);
        proof {
            reveal(skin_step);
        }
        let st = if ja {
            ja_step_exec(s, i, line, it)
        } else {
            ascii_step_exec(s, i, line, it)
        };
        proof {
            lemma_toks_are_grow(v@, acc, pool0, it@);
        }
        match st {
            Step::Newline => {
                if v.len() > 0 && !ends_in_nl(&v) {
                    let t = plain(TokKind::Nl, Symbol(0), line);
                    proof {
                        lemma_toks_are_concat(v@, acc, seq![t], seq![stok(TokKind::Nl, Seq::empty(), line as int)], it@);
                        assert(v@.push(t) == v@ + seq![t]);
                    }
                    v.push(t);
                }
                proof {
                    acc = push_nl(acc, line as int);
                }
                line = line + 1;
                i = i + 1;
            },
            Step::Skip(n) => {
                i = n;
            },
            Step::Emit(mut ts, n) => {
                proof {
                    lemma_toks_are_concat(v@, acc, ts@, a->Emit_0, it@);
                    acc = acc + a->Emit_0;
                }
                v.append(&mut ts);
                i = n;
            },
            Step::Fail(m) => {
                return Err(lex_err(line, m.as_str()));
            },
        }
    }
    Ok(v)
}

proof fn lemma_ja_word_end_bounds(s: Seq<u8>, k: int)
    requires
        0 <= k <= s.len(),
    ensures
        ja_word_end(s, k) matches Some(e) ==> k <= e <= s.len(),
    decreases s.len() - k,
{
    if k < s.len() && !(s[k] == 32 || s[k] == 9 || s[k] == 13 || s[k] == 10) {
        if s[k] >= 0x80 {
            lemma_ucp_len(s, k);
            if let Some((cp, l)) = ucp_spec(s, k) {
                if cp != 0x3000 {
                    lemma_ja_word_end_bounds(s, k + l);
                }
            }
        } else {
            lemma_ja_word_end_bounds(s, k + 1);
        }
    }
}

/// The end of the word at `j` (see `ja_word_end`).
fn ja_word_end_exec(s: &[u8], j: usize) -> (r: Option<usize>)
    requires
        j <= s@.len(),
    ensures
        match r {
            Some(e) => ja_word_end(s@, j as int) == Some(e as int) && j <= e <= s@.len(),
            None => ja_word_end(s@, j as int) is None,
        },
{
    let mut k = j;
    while k < s.len()
        invariant
            j <= k <= s@.len(),
            ja_word_end(s@, j as int) == ja_word_end(s@, k as int),
        decreases s@.len() - k,
    {
        let d = s[k];
        if d == 32 || d == 9 || d == 13 || d == 10 {
            return Some(k);
        }
        if d >= 0x80 {
            proof {
                lemma_ucp_len(s@, k as int);
            }
            match ucp(s, k) {
                None => {
                    return None;
                },
                Some((cp, l)) => {
                    if cp == 0x3000 {
                        return Some(k);
                    }
                    k = k + l;
                },
            }
        } else {
            k = k + 1;
        }
    }
    Some(k)
}

/// One token of kind `kind`, named `nm`, with the given numeral and postfix flag.
fn one_tok(kind: Bk, nm: Symbol, num: NumText, line: i32, post: bool, next: usize) -> (r: Step)
    ensures
        r matches Step::Emit(v, n) && n == next && v@.len() == 1 && v@[0].kind == kind
            && v@[0].name == nm && v@[0].num@ == num@ && v@[0].line == line && v@[0].post
            == post,
{
    let mut v: Vec<RawTok> = Vec::new();
    v.push(RawTok { kind, name: nm, num, line, post });
    Step::Emit(v, next)
}

/// A whole Japanese-surface word (see `ja_word`).
#[verifier::rlimit(40)]
fn ja_word_exec(s: &[u8], i: usize, j: usize, line: i32, it: &mut Interner) -> (r: Step)
    requires
        old(it).wf(),
        old(it)@.len() < u32::MAX,
        i < j <= s@.len() < usize::MAX,
    ensures
        grew_by_one(*old(it), *final(it)),
        step_is(r, ja_word(s@, i as int, j as int, line as int), i as int, final(it)@),
        step_in_bounds(r, i as int, s@.len() as int),
{
    let rest = span_vec(s, i + 1, j);
    if s[i] == 94 && word_name(&rest) {
        return one_span(TokKind::Alias, s, i + 1, j, line, j, it);
    }
    if s[i] == 58 && word_name(&rest) {
        return one_span(TokKind::Sym, s, i + 1, j, line, j, it);
    }
    match jatab_lookup(s, i, j) {
        Some(k) => {
            let row = jatab_row(k);
            let sym = intern_lit(it, row.3);
            return one_tok(row.1, sym, NumText::Zero, line, row.2, j);
        },
        None => {},
    }
    let w = span_vec(s, i, j);
    match ja_numeral(&w) {
        Some((nt, mo)) => {
            if mo {
                let sym = intern_lit(it, "mo");
                return one_tok(Bk::T(TokKind::Counter), sym, nt, line, false, j);
            } else {
                return one_tok(Bk::T(TokKind::Num), Symbol(0), nt, line, false, j);
            }
        },
        None => {},
    }
    let last = s[j - 1];
    if j - i > 1 && (last == 47 || last == 92) {
        let stem = span_vec(s, i, j - 1);
        if word_name(&stem) {
            let k = if last == 47 {
                TokKind::Fold
            } else {
                TokKind::ScanOp
            };
            return one_span(k, s, i, j - 1, line, j, it);
        }
    }
    if word_name(&w) {
        let nm = intern_span(it, s, i, j);
        return match kwkind(s, i, j) {
            Some(k) => one_plain(k, line, j),
            None => one_tok(Bk::T(TokKind::Name), nm, NumText::Zero, line, false, j),
        };
    }
    let text = lossy_span(s, i, j);
    let head = cat("unknown word '", text.as_str());
    Step::Fail(cat(head.as_str(), "'"))
}

/// The Japanese skin's step at byte `i` (see `ja_step`).
fn ja_step_exec(s: &[u8], i: usize, line: i32, it: &mut Interner) -> (r: Step)
    requires
        old(it).wf(),
        old(it)@.len() < u32::MAX,
        i < s@.len() < usize::MAX,
    ensures
        grew_by_one(*old(it), *final(it)),
        step_is(r, ja_step(s@, i as int, line as int), i as int, final(it)@),
        step_in_bounds(r, i as int, s@.len() as int),
{
    let c = s[i];
    if c == 10 {
        return Step::Newline;
    }
    if c == 32 || c == 9 || c == 13 {
        return Step::Skip(i + 1);
    }
    if c >= 0x80 {
        proof {
            lemma_ucp_len(s@, i as int);
        }
        match ucp(s, i) {
            None => {
                return fail_step("malformed UTF-8");
            },
            Some((cp, l)) => {
                if cp == 0x3000 {
                    return Step::Skip(i + l);
                }
            },
        }
    }
    if c == 45 && at_exec(s, i + 1) == 45 {
        let j = line_end_exec(s, i);
        proof {
            assert(line_end(s@, i as int) == line_end(s@, i as int + 1));
            assert(line_end(s@, i as int + 1) == line_end(s@, i as int + 2));
            lemma_line_end_bounds(s@, i as int + 2);
        }
        return Step::Skip(j);
    }
    if c == 34 {
        let j = str_end_exec(s, i + 1);
        if at_exec(s, j) != 34 {
            return fail_step("unterminated string");
        }
        return one_span(TokKind::Str, s, i + 1, j, line, j + 1, it);
    }
    match ja_word_end_exec(s, i) {
        None => fail_step("malformed UTF-8"),
        Some(j) => {
            if j - i >= 128 {
                fail_step("word too long")
            } else {
                proof {
                    if c < 0x80 {
                        assert(ja_word_end(s@, i as int) == ja_word_end(s@, i as int + 1));
                        lemma_ja_word_end_bounds(s@, i as int + 1);
                    } else {
                        lemma_ucp_len(s@, i as int);
                        let l = ucp_spec(s@, i as int)->Some_0.1;
                        lemma_ja_word_end_bounds(s@, i as int + l);
                    }
                }
                ja_word_exec(s, i, j, line, it)
            }
        },
    }
}

/* ---------- Japanese normalization ---------- */

/// The kinds of a specified token sequence.
pub open spec fn kinds(ts: Seq<SpecTok>) -> Seq<Bk> {
    ts.map_values(|t: SpecTok| t.kind)
}

/// The kinds of a buffer.
pub open spec fn raw_kinds(v: Seq<RawTok>) -> Seq<Bk> {
    v.map_values(|t: RawTok| t.kind)
}

/// Scanning left from `o` with `depth` groups open: the index of the bracket `open` that
/// closes the scan, or where it stopped (a line separator, or -1).
pub open spec fn open_scan(ks: Seq<Bk>, o: int, depth: int, open: Bk, close: Bk) -> int
    decreases o + 1,
{
    if o < 0 || o >= ks.len() || ks[o] == Bk::T(TokKind::Nl) {
        o
    } else if ks[o] == close {
        open_scan(ks, o - 1, depth + 1, open, close)
    } else if ks[o] == open {
        if depth - 1 == 0 {
            o
        } else {
            open_scan(ks, o - 1, depth - 1, open, close)
        }
    } else {
        open_scan(ks, o - 1, depth, open, close)
    }
}

/// The first index of the primary that ends at `j`: a matched `(..)` or `[..]` group (with a
/// callee name or alias just before it), a name with its postfix tick, else the atom at `j`.
/// Never crosses a line separator.
pub open spec fn grab_primary(ks: Seq<Bk>, j: int) -> int {
    if j < 0 || j >= ks.len() || ks[j] == Bk::T(TokKind::Nl) {
        j
    } else if ks[j] == Bk::T(TokKind::Rp) || ks[j] == Bk::T(TokKind::Rb) {
        let open = if ks[j] == Bk::T(TokKind::Rp) {
            Bk::T(TokKind::Lp)
        } else {
            Bk::T(TokKind::Lb)
        };
        let o = open_scan(ks, j, 0, open, ks[j]);
        if o < 0 || ks[o] != open {
            j
        } else if o > 0 && (ks[o - 1] == Bk::T(TokKind::Name) || ks[o - 1] == Bk::T(
            TokKind::Alias,
        )) {
            o - 1
        } else {
            o
        }
    } else if ks[j] == Bk::T(TokKind::Tick) && j > 0 && ks[j - 1] == Bk::T(TokKind::Name) {
        j - 1
    } else {
        j
    }
}

/// A numeral or a wildcard, the pieces of a shape run such as `8 8` or `4 _`.
pub open spec fn numwild(k: Bk) -> bool {
    k == Bk::T(TokKind::Num) || k == Bk::T(TokKind::Wild)
}

/// Extends an operand start leftwards over hop chains (`a.b.c`), shape runs, and a leading
/// `to`.
pub open spec fn hop_start(ks: Seq<Bk>, j: int) -> int
    decreases j,
{
    if j < 0 || j >= ks.len() {
        j
    } else if j >= 2 && ks[j - 1] == Bk::T(TokKind::Dot) {
        let g = grab_primary(ks, j - 2);
        if 0 <= g < j {
            hop_start(ks, g)
        } else {
            j
        }
    } else if j >= 1 && numwild(ks[j]) && numwild(ks[j - 1]) {
        hop_start(ks, j - 1)
    } else if j >= 1 && ks[j - 1] == Bk::T(TokKind::To) {
        j - 1
    } else {
        j
    }
}

/// Where the postfix operator at `k` re-roots: the start of its operand.
pub open spec fn operand_start(ks: Seq<Bk>, k: int) -> int {
    hop_start(ks, grab_primary(ks, k - 1))
}

/// The token at `k` moved to `st`, its postfix flag cleared; the tokens between shift right.
pub open spec fn rotate(ts: Seq<SpecTok>, st: int, k: int) -> Seq<SpecTok> {
    ts.subrange(0, st) + seq![SpecTok { post: false, ..ts[k] }] + ts.subrange(st, k) + ts.subrange(
        k + 1,
        ts.len() as int,
    )
}

/// Re-roots every postfix operator from `k` on before its operand, or refuses one that has
/// none.
pub open spec fn reroot_from(ts: Seq<SpecTok>, k: int) -> Result<Seq<SpecTok>, Seq<char>>
    decreases ts.len() - k,
{
    if k < 0 || k >= ts.len() {
        Ok(ts)
    } else if !ts[k].post {
        reroot_from(ts, k + 1)
    } else if k == 0 || ts[k - 1].kind == Bk::T(TokKind::Nl) {
        Err(lex_err_text(ts[k].line, "postfix operator with no operand"@))
    } else {
        let st = operand_start(kinds(ts), k);
        if 0 <= st <= k {
            reroot_from(rotate(ts, st, k), k + 1)
        } else {
            Ok(ts)
        }
    }
}

/// The tokens without the `に` target markers.
pub open spec fn drop_tgt(ts: Seq<SpecTok>) -> Seq<SpecTok>
    decreases ts.len(),
{
    if ts.len() == 0 {
        ts
    } else if ts[0].kind == Bk::Tgt {
        drop_tgt(ts.skip(1))
    } else {
        seq![ts[0]] + drop_tgt(ts.skip(1))
    }
}

/// `ts` appended to the kept tokens `out`, each separator dropped that would lead or
/// follow another separator.
pub open spec fn tidy_from(out: Seq<SpecTok>, ts: Seq<SpecTok>) -> Seq<SpecTok>
    decreases ts.len(),
{
    if ts.len() == 0 {
        out
    } else if ts[0].kind == Bk::T(TokKind::Nl) && (out.len() == 0 || out.last().kind == Bk::T(
        TokKind::Nl,
    )) {
        tidy_from(out, ts.skip(1))
    } else {
        tidy_from(out.push(ts[0]), ts.skip(1))
    }
}

/// The tokens with every separator dropped that leads or follows another separator (a line
/// that held only target markers leaves none behind).
pub open spec fn tidy_seps(ts: Seq<SpecTok>) -> Seq<SpecTok> {
    tidy_from(Seq::empty(), ts)
}

/// The Japanese skin over a whole source: the word pass, then every postfix operator
/// re-rooted before its operand, then the target markers deleted, and with them the
/// separators of lines that held nothing else.
pub open spec fn ja_lex(s: Seq<u8>) -> Result<Seq<SpecTok>, Seq<char>> {
    match ja_scan(s) {
        Err(e) => Err(e),
        Ok(ts) => match reroot_from(ts, 0) {
            Err(e) => Err(e),
            Ok(t2) => Ok(tidy_seps(drop_tgt(t2))),
        },
    }
}

proof fn lemma_open_scan_bounds(ks: Seq<Bk>, o: int, depth: int, open: Bk, close: Bk)
    ensures
        open_scan(ks, o, depth, open, close) <= o,
        o >= -1 ==> open_scan(ks, o, depth, open, close) >= -1,
    decreases o + 1,
{
    if !(o < 0 || o >= ks.len() || ks[o] == Bk::T(TokKind::Nl)) {
        if ks[o] == close {
            lemma_open_scan_bounds(ks, o - 1, depth + 1, open, close);
        } else if ks[o] == open {
            if depth - 1 != 0 {
                lemma_open_scan_bounds(ks, o - 1, depth - 1, open, close);
            }
        } else {
            lemma_open_scan_bounds(ks, o - 1, depth, open, close);
        }
    }
}

proof fn lemma_grab_primary_bounds(ks: Seq<Bk>, j: int)
    requires
        0 <= j < ks.len(),
    ensures
        0 <= grab_primary(ks, j) <= j,
{
    if ks[j] == Bk::T(TokKind::Rp) || ks[j] == Bk::T(TokKind::Rb) {
        let open = if ks[j] == Bk::T(TokKind::Rp) {
            Bk::T(TokKind::Lp)
        } else {
            Bk::T(TokKind::Lb)
        };
        lemma_open_scan_bounds(ks, j, 0, open, ks[j]);
    }
}

proof fn lemma_hop_start_bounds(ks: Seq<Bk>, j: int)
    requires
        0 <= j < ks.len(),
    ensures
        0 <= hop_start(ks, j) <= j,
    decreases j,
{
    if j >= 2 && ks[j - 1] == Bk::T(TokKind::Dot) {
        lemma_grab_primary_bounds(ks, j - 2);
        let g = grab_primary(ks, j - 2);
        lemma_hop_start_bounds(ks, g);
    } else if j >= 1 && numwild(ks[j]) && numwild(ks[j - 1]) {
        lemma_hop_start_bounds(ks, j - 1);
    }
}

/// Where the postfix operator at `k` lands lies within the line before it.
pub proof fn lemma_operand_start_bounds(ks: Seq<Bk>, k: int)
    requires
        0 < k < ks.len(),
    ensures
        0 <= operand_start(ks, k) <= k - 1,
{
    lemma_grab_primary_bounds(ks, k - 1);
    lemma_hop_start_bounds(ks, grab_primary(ks, k - 1));
}

fn kind_at(v: &Vec<RawTok>, k: usize) -> (r: Bk)
    requires
        k < v@.len(),
    ensures
        r == raw_kinds(v@)[k as int],
{
    v[k].kind
}

/// The open bracket matching the group closed at `j` (see `open_scan`), as a signed index.
fn open_scan_exec(v: &Vec<RawTok>, j: usize, open: Bk, close: Bk) -> (r: i64)
    requires
        j < v@.len() < i32::MAX,
    ensures
        r == open_scan(raw_kinds(v@), j as int, 0, open, close),
{
    let ghost ks = raw_kinds(v@);
    let mut o: i64 = j as i64;
    let mut depth: i64 = 0;
    while o >= 0 && kind_at(v, o as usize) != Bk::T(TokKind::Nl)
        invariant
            -1 <= o < v@.len(),
            j < v@.len() < i32::MAX,
            ks == raw_kinds(v@),
            depth <= j - o,
            -depth <= j - o,
            open_scan(ks, j as int, 0, open, close) == open_scan(ks, o as int, depth as int, open, close),
        decreases o + 1,
    {
        let k = kind_at(v, o as usize);
        if k == close {
            depth = depth + 1;
        } else if k == open {
            depth = depth - 1;
            if depth == 0 {
                return o;
            }
        }
        o = o - 1;
    }
    o
}

/// The first index of the primary ending at `j` (see `grab_primary`).
fn grab_primary_exec(v: &Vec<RawTok>, j: usize) -> (r: usize)
    requires
        j < v@.len() < i32::MAX,
    ensures
        r == grab_primary(raw_kinds(v@), j as int),
{
    let ghost ks = raw_kinds(v@);
    let kj = kind_at(v, j);
    if kj == Bk::T(TokKind::Nl) {
        return j;
    }
    if kj == Bk::T(TokKind::Rp) || kj == Bk::T(TokKind::Rb) {
        let open = if kj == Bk::T(TokKind::Rp) {
            Bk::T(TokKind::Lp)
        } else {
            Bk::T(TokKind::Lb)
        };
        let o = open_scan_exec(v, j, open, kj);
        proof {
            lemma_open_scan_bounds(ks, j as int, 0, open, kj);
        }
        if o < 0 || kind_at(v, o as usize) != open {
            return j;
        }
        let ou = o as usize;
        if ou > 0 && (kind_at(v, ou - 1) == Bk::T(TokKind::Name) || kind_at(v, ou - 1) == Bk::T(
            TokKind::Alias,
        )) {
            return ou - 1;
        }
        return ou;
    }
    if kj == Bk::T(TokKind::Tick) && j > 0 && kind_at(v, j - 1) == Bk::T(TokKind::Name) {
        return j - 1;
    }
    j
}

fn is_numwild(k: Bk) -> (r: bool)
    ensures
        r == numwild(k),
{
    k == Bk::T(TokKind::Num) || k == Bk::T(TokKind::Wild)
}

/// Where the postfix operator at `k` re-roots (see `operand_start`).
fn operand_start_exec(v: &Vec<RawTok>, k: usize) -> (r: usize)
    requires
        0 < k < v@.len() < i32::MAX,
    ensures
        r == operand_start(raw_kinds(v@), k as int),
        r < k,
{
    let ghost ks = raw_kinds(v@);
    proof {
        lemma_operand_start_bounds(ks, k as int);
        lemma_grab_primary_bounds(ks, k - 1);
    }
    let mut j = grab_primary_exec(v, k - 1);
    loop
        invariant
            0 <= j < k,
            k < v@.len() < i32::MAX,
            ks == raw_kinds(v@),
            hop_start(ks, j as int) == operand_start(ks, k as int),
        decreases j,
    {
        if j >= 2 && kind_at(v, j - 1) == Bk::T(TokKind::Dot) {
            proof {
                lemma_grab_primary_bounds(ks, j - 2);
            }
            j = grab_primary_exec(v, j - 2);
            continue;
        }
        if j >= 1 && is_numwild(kind_at(v, j)) && is_numwild(kind_at(v, j - 1)) {
            j = j - 1;
            continue;
        }
        if j >= 1 && kind_at(v, j - 1) == Bk::T(TokKind::To) {
            return j - 1;
        }
        return j;
    }
}

proof fn lemma_toks_are_kinds(v: Seq<RawTok>, ts: Seq<SpecTok>, pool: Seq<Seq<char>>)
    requires
        toks_are(v, ts, pool),
    ensures
        raw_kinds(v) == kinds(ts),
{
    assert forall|k: int| 0 <= k < v.len() implies raw_kinds(v)[k] == kinds(ts)[k] by {
        assert(tok_is(v[k], ts[k], pool));
    }
    assert(raw_kinds(v) =~= kinds(ts));
}

proof fn lemma_toks_are_rotate(
    v: Seq<RawTok>,
    ts: Seq<SpecTok>,
    pool: Seq<Seq<char>>,
    st: int,
    k: int,
    t: RawTok,
)
    requires
        toks_are(v, ts, pool),
        0 <= st <= k < v.len(),
        t == (RawTok { post: false, ..v[k] }),
    ensures
        toks_are(v.remove(k).insert(st, t), rotate(ts, st, k), pool),
{
    let w = v.remove(k).insert(st, t);
    let r = rotate(ts, st, k);
    assert(w.len() == r.len());
    assert forall|m: int| 0 <= m < w.len() implies tok_is(#[trigger] w[m], r[m], pool) by {
        if m < st {
            assert(tok_is(v[m], ts[m], pool));
        } else if m == st {
            assert(tok_is(v[k], ts[k], pool));
        } else if m <= k {
            assert(tok_is(v[m - 1], ts[m - 1], pool));
        } else {
            assert(tok_is(v[m], ts[m], pool));
        }
    }
}

proof fn lemma_toks_are_remove(v: Seq<RawTok>, ts: Seq<SpecTok>, pool: Seq<Seq<char>>, k: int)
    requires
        toks_are(v, ts, pool),
        0 <= k < v.len(),
    ensures
        toks_are(v.remove(k), ts.remove(k), pool),
{
    assert forall|m: int| 0 <= m < v.remove(k).len() implies tok_is(
        #[trigger] v.remove(k)[m],
        ts.remove(k)[m],
        pool,
    ) by {
        if m < k {
            assert(tok_is(v[m], ts[m], pool));
        } else {
            assert(tok_is(v[m + 1], ts[m + 1], pool));
        }
    }
}

/// Re-roots every postfix operator before its operand (see `reroot_from`).
fn reroot(v: &mut Vec<RawTok>, Ghost(ts): Ghost<Seq<SpecTok>>, Ghost(pool): Ghost<Seq<Seq<char>>>) -> (r: Result<(), Diag>)
    requires
        toks_are(old(v)@, ts, pool),
        old(v)@.len() < i32::MAX,
    ensures
        match r {
            Ok(_) => reroot_from(ts, 0) matches Ok(t2) && toks_are(final(v)@, t2, pool),
            Err(d) => reroot_from(ts, 0) == Err::<Seq<SpecTok>, Seq<char>>(d.msg@) && d.code == 2,
        },
{
    let ghost mut cur = ts;
    let mut k: usize = 0;
    while k < v.len()
        invariant
            0 <= k <= v@.len(),
            v@.len() == cur.len(),
            v@.len() < i32::MAX,
            toks_are(v@, cur, pool),
            reroot_from(cur, k as int) == reroot_from(ts, 0),
        decreases v@.len() - k,
    {
        proof {
            assert(tok_is(v@[k as int], cur[k as int], pool));
        }
        if !v[k].post {
            k += 1;
            continue;
        }
        if k == 0 || v[k - 1].kind == Bk::T(TokKind::Nl) {
            proof {
                if k > 0 {
                    assert(tok_is(v@[k - 1], cur[k - 1], pool));
                }
            }
            return Err(lex_err(v[k].line, "postfix operator with no operand"));
        }
        proof {
            assert(tok_is(v@[k - 1], cur[k - 1], pool));
            lemma_toks_are_kinds(v@, cur, pool);
        }
        let st = operand_start_exec(v, k);
        let ghost v0 = v@;
        let mut t = v.remove(k);
        t.post = false;
        v.insert(st, t);
        proof {
            lemma_toks_are_rotate(v0, cur, pool, st as int, k as int, t);
            cur = rotate(cur, st as int, k as int);
        }
        k += 1;
    }
    Ok(())
}

/// Deletes the `に` target markers (see `drop_tgt`).
fn drop_targets(v: &mut Vec<RawTok>, Ghost(ts): Ghost<Seq<SpecTok>>, Ghost(pool): Ghost<Seq<Seq<char>>>)
    requires
        toks_are(old(v)@, ts, pool),
    ensures
        toks_are(final(v)@, drop_tgt(ts), pool),
{
    let ghost n = ts.len() as int;
    let mut k = v.len();
    proof {
        assert(ts.subrange(0, n) + drop_tgt(ts.subrange(n, n)) =~= ts);
    }
    while k > 0
        invariant
            0 <= k <= n,
            n == ts.len(),
            toks_are(v@, ts.subrange(0, k as int) + drop_tgt(ts.subrange(k as int, n)), pool),
        decreases k,
    {
        k = k - 1;
        let ghost a = ts.subrange(0, k as int);
        let ghost x = ts[k as int];
        let ghost rest = drop_tgt(ts.subrange(k as int + 1, n));
        proof {
            assert(ts.subrange(k as int, n).skip(1) =~= ts.subrange(k as int + 1, n));
            assert(ts.subrange(0, k as int + 1) + rest =~= a + seq![x] + rest);
            assert(tok_is(v@[k as int], (a + seq![x] + rest)[k as int], pool));
        }
        if v[k].kind == Bk::Tgt {
            let ghost v0 = v@;
            v.remove(k);
            proof {
                lemma_toks_are_remove(v0, a + seq![x] + rest, pool, k as int);
                assert((a + seq![x] + rest).remove(k as int) =~= a + rest);
            }
        } else {
            proof {
                assert(a + (seq![x] + rest) =~= a + seq![x] + rest);
            }
        }
    }
    proof {
        assert(ts.subrange(0, 0) + drop_tgt(ts.subrange(0, n)) =~= drop_tgt(ts));
    }
}

/// Drops each separator that would lead or double (see `tidy_seps`).
fn tidy_separators(v: &mut Vec<RawTok>, Ghost(ts): Ghost<Seq<SpecTok>>, Ghost(pool): Ghost<Seq<Seq<char>>>)
    requires
        toks_are(old(v)@, ts, pool),
    ensures
        toks_are(final(v)@, tidy_seps(ts), pool),
{
    let ghost mut out: Seq<SpecTok> = Seq::empty();
    let ghost mut rest: Seq<SpecTok> = ts;
    let mut k: usize = 0;
    proof {
        assert(out + rest =~= ts);
    }
    while k < v.len()
        invariant
            toks_are(v@, out + rest, pool),
            out.len() == k,
            tidy_from(out, rest) == tidy_seps(ts),
        decreases v@.len() - k,
    {
        proof {
            assert(tok_is(v@[k as int], (out + rest)[k as int], pool));
            assert((out + rest)[k as int] == rest[0]);
            if k > 0 {
                assert(tok_is(v@[k - 1], (out + rest)[k - 1], pool));
                assert((out + rest)[k - 1] == out.last());
            }
        }
        let is_nl = v[k].kind == Bk::T(TokKind::Nl);
        let prev_nl = k == 0 || v[k - 1].kind == Bk::T(TokKind::Nl);
        if is_nl && prev_nl {
            let ghost v0 = v@;
            v.remove(k);
            proof {
                lemma_toks_are_remove(v0, out + rest, pool, k as int);
                assert((out + rest).remove(k as int) =~= out + rest.skip(1));
                rest = rest.skip(1);
            }
        } else {
            proof {
                assert(out + rest =~= out.push(rest[0]) + rest.skip(1));
                out = out.push(rest[0]);
                rest = rest.skip(1);
            }
            k += 1;
        }
    }
    proof {
        assert(rest.len() == 0);
        assert(out + rest =~= out);
    }
}

proof fn lemma_tidy_seps(out: Seq<SpecTok>, ts: Seq<SpecTok>)
    requires
        seps_ok(out),
    ensures
        seps_ok(tidy_from(out, ts)),
    decreases ts.len(),
{
    if ts.len() > 0 {
        if ts[0].kind == Bk::T(TokKind::Nl) && (out.len() == 0 || out.last().kind == Bk::T(TokKind::Nl)) {
            lemma_tidy_seps(out, ts.skip(1));
        } else {
            let o2 = out.push(ts[0]);
            assert(seps_ok(o2)) by {
                reveal(seps_ok);
                assert forall|i: int| 0 <= i < o2.len() - 1 && (#[trigger] o2[i]).kind == Bk::T(TokKind::Nl) implies o2[i + 1].kind != Bk::T(TokKind::Nl) by {
                    if i + 1 < out.len() {
                        assert(o2[i] == out[i]);
                        assert(o2[i + 1] == out[i + 1]);
                    } else {
                        assert(o2[i] == out.last());
                    }
                }
                if out.len() > 0 {
                    assert(o2[0] == out[0]);
                }
            }
            lemma_tidy_seps(o2, ts.skip(1));
        }
    }
}

proof fn lemma_tidy_none(out: Seq<SpecTok>, ts: Seq<SpecTok>, kind: Bk)
    requires
        none_of(out, kind),
        none_of(ts, kind),
    ensures
        none_of(tidy_from(out, ts), kind),
    decreases ts.len(),
{
    if ts.len() > 0 {
        assert(none_of(ts.skip(1), kind)) by {
            reveal(none_of);
            assert forall|i: int| 0 <= i < ts.skip(1).len() implies (#[trigger] ts.skip(1)[i]).kind != kind by {
                assert(ts.skip(1)[i] == ts[i + 1]);
            }
        }
        if ts[0].kind == Bk::T(TokKind::Nl) && (out.len() == 0 || out.last().kind == Bk::T(TokKind::Nl)) {
            lemma_tidy_none(out, ts.skip(1), kind);
        } else {
            let o2 = out.push(ts[0]);
            assert(none_of(o2, kind)) by {
                reveal(none_of);
                assert forall|i: int| 0 <= i < o2.len() implies (#[trigger] o2[i]).kind != kind by {
                    if i < out.len() {
                        assert(o2[i] == out[i]);
                    }
                }
            }
            lemma_tidy_none(o2, ts.skip(1), kind);
        }
    }
}

proof fn lemma_tidy_shape(ts: Seq<SpecTok>)
    requires
        none_of(ts, Bk::Tgt),
        none_of(ts, Bk::T(TokKind::Eof)),
    ensures
        seps_ok(tidy_seps(ts)),
        none_of(tidy_seps(ts), Bk::Tgt),
        none_of(tidy_seps(ts), Bk::T(TokKind::Eof)),
{
    let e = Seq::<SpecTok>::empty();
    assert(seps_ok(e)) by {
        reveal(seps_ok);
    }
    assert(none_of(e, Bk::Tgt) && none_of(e, Bk::T(TokKind::Eof))) by {
        reveal(none_of);
    }
    lemma_tidy_seps(e, ts);
    lemma_tidy_none(e, ts, Bk::Tgt);
    lemma_tidy_none(e, ts, Bk::T(TokKind::Eof));
}

/* ---------- what the skins emit ---------- */

/// A kind a skin step may emit: neither a line separator nor the end marker.
pub open spec fn inner_kind(k: Bk) -> bool {
    k != Bk::T(TokKind::Nl) && k != Bk::T(TokKind::Eof)
}

/// No token of the sequence has kind `k`.
#[verifier::opaque]
pub open spec fn none_of(ts: Seq<SpecTok>, k: Bk) -> bool {
    forall|i: int| 0 <= i < ts.len() ==> (#[trigger] ts[i]).kind != k
}

/// Line separators neither lead nor come twice in a row.
#[verifier::opaque]
pub open spec fn seps_ok(ts: Seq<SpecTok>) -> bool {
    &&& ts.len() > 0 ==> ts[0].kind != Bk::T(TokKind::Nl)
    &&& forall|i: int|
        0 <= i < ts.len() - 1 && (#[trigger] ts[i]).kind == Bk::T(TokKind::Nl) ==> ts[i
            + 1].kind != Bk::T(TokKind::Nl)
}

/// What a step emits holds only inner kinds, and no target marker unless `tgt`.
pub open spec fn emits_inner(a: AStep, tgt: bool) -> bool {
    a matches AStep::Emit(ts, _) ==> forall|k: int|
        0 <= k < ts.len() ==> inner_kind((#[trigger] ts[k]).kind) && (tgt || ts[k].kind
            != Bk::Tgt)
}

proof fn lemma_kw_find_inner(w: Seq<u8>, k: int)
    ensures
        kw_find_from(w, k) matches Some(t) ==> inner_kind(Bk::T(t)),
    decreases KW_LEN - k,
{
    if 0 <= k < KW_LEN && vstd::utf8::encode_utf8(kw_word(k as usize)) != w {
        lemma_kw_find_inner(w, k + 1);
    }
}

proof fn lemma_name_tail_inner(s: Seq<u8>, i: int, j: int, line: int)
    ensures
        emits_inner(name_tail(s, i, j, line), false),
{
}

proof fn lemma_ascii_step_inner(s: Seq<u8>, i: int, line: int)
    requires
        0 <= i < s.len(),
    ensures
        emits_inner(ascii_step(s, i, line), false),
{
    let j = nspan_spec(s, i + 1);
    lemma_kw_find_inner(s.subrange(i, j), 0);
    lemma_name_tail_inner(s, i, j, line);
    if let Some((cp, l)) = ucp_spec(s, i) {
        lemma_name_tail_inner(s, i, nspan_spec(s, i + l), line);
    }
}

proof fn lemma_jatab_inner(k: usize)
    requires
        k < JATAB_LEN,
    ensures
        inner_kind(jatab_kind(k)),
{
}

proof fn lemma_ja_step_inner(s: Seq<u8>, i: int, line: int)
    requires
        0 <= i < s.len(),
    ensures
        emits_inner(ja_step(s, i, line), true),
{
    if let Some(j) = ja_word_end(s, i) {
        let w = s.subrange(i, j);
        lemma_kw_find_inner(w, 0);
        lemma_jatab_find_from(w, 0);
        if let Some(k) = jatab_find(w) {
            lemma_jatab_inner(k as usize);
        }
    }
}

proof fn lemma_skin_step_inner(s: Seq<u8>, i: int, line: int, ja: bool)
    requires
        0 <= i < s.len(),
    ensures
        emits_inner(skin_step(s, i, line, ja), ja),
{
    reveal(skin_step);
    if ja {
        lemma_ja_step_inner(s, i, line);
    } else {
        lemma_ascii_step_inner(s, i, line);
    }
}

#[verifier::rlimit(100)]
proof fn lemma_shape_push_nl(acc: Seq<SpecTok>, line: int, ja: bool)
    requires
        none_of(acc, Bk::T(TokKind::Eof)),
        !ja ==> none_of(acc, Bk::Tgt),
        seps_ok(acc),
    ensures
        none_of(push_nl(acc, line), Bk::T(TokKind::Eof)),
        !ja ==> none_of(push_nl(acc, line), Bk::Tgt),
        seps_ok(push_nl(acc, line)),
{
    reveal(none_of);
    reveal(seps_ok);
    let r = push_nl(acc, line);
    if acc.len() > 0 && acc.last().kind != Bk::T(TokKind::Nl) {
        assert forall|k: int| 0 <= k < r.len() implies (#[trigger] r[k]).kind != Bk::T(TokKind::Eof) && (!ja ==> r[k].kind != Bk::Tgt) by {
            if k < acc.len() {
                assert(r[k] == acc[k]);
            }
        }
        assert forall|k: int|
            0 <= k < r.len() - 1 && (#[trigger] r[k]).kind == Bk::T(TokKind::Nl) implies r[k
                + 1].kind != Bk::T(TokKind::Nl) by {
            if k + 1 < acc.len() {
                assert(r[k] == acc[k]);
                assert(r[k + 1] == acc[k + 1]);
            }
        }
    }
}

#[verifier::rlimit(100)]
proof fn lemma_shape_append(acc: Seq<SpecTok>, ts: Seq<SpecTok>, ja: bool)
    requires
        none_of(acc, Bk::T(TokKind::Eof)),
        !ja ==> none_of(acc, Bk::Tgt),
        seps_ok(acc),
        forall|k: int|
            0 <= k < ts.len() ==> inner_kind((#[trigger] ts[k]).kind) && (ja || ts[k].kind
                != Bk::Tgt),
    ensures
        none_of(acc + ts, Bk::T(TokKind::Eof)),
        !ja ==> none_of(acc + ts, Bk::Tgt),
        seps_ok(acc + ts),
{
    reveal(none_of);
    reveal(seps_ok);
    let r = acc + ts;
    assert forall|k: int| 0 <= k < r.len() implies (#[trigger] r[k]).kind != Bk::T(TokKind::Eof) && (!ja ==> r[k].kind != Bk::Tgt) by {
        if k >= acc.len() {
            assert(r[k] == ts[k - acc.len()]);
            assert(inner_kind(ts[k - acc.len()].kind));
        } else {
            assert(r[k] == acc[k]);
        }
    }
    assert forall|k: int|
        0 <= k < r.len() - 1 && (#[trigger] r[k]).kind == Bk::T(TokKind::Nl) implies r[k
            + 1].kind != Bk::T(TokKind::Nl) by {
        if k + 1 >= acc.len() {
            assert(r[k + 1] == ts[k + 1 - acc.len()]);
            assert(inner_kind(ts[k + 1 - acc.len()].kind));
        } else {
            assert(r[k] == acc[k]);
            assert(r[k + 1] == acc[k + 1]);
        }
    }
    if r.len() > 0 {
        if acc.len() == 0 {
            assert(r[0] == ts[0]);
            assert(inner_kind(ts[0].kind));
        } else {
            assert(r[0] == acc[0]);
        }
    }
}

/// What a scan adds keeps the end marker out, keeps the target marker out of the ASCII
/// skin, and keeps line separators from leading or doubling.
#[verifier::rlimit(100)]
proof fn lemma_scan_from_shape(s: Seq<u8>, ja: bool, i: int, line: int, acc: Seq<SpecTok>)
    requires
        none_of(acc, Bk::T(TokKind::Eof)),
        !ja ==> none_of(acc, Bk::Tgt),
        seps_ok(acc),
    ensures
        scan_from(s, ja, i, line, acc) matches Ok(r) ==> none_of(r, Bk::T(TokKind::Eof)) && (!ja
            ==> none_of(r, Bk::Tgt)) && seps_ok(r),
    decreases s.len() - i,
{
    if 0 <= i < s.len() {
        lemma_skin_step_inner(s, i, line, ja);
        let a = skin_step(s, i, line, ja);
        if a is Newline {
            lemma_shape_push_nl(acc, line, ja);
            lemma_scan_from_shape(s, ja, i + 1, line + 1, push_nl(acc, line));
        } else if let AStep::Skip(x) = a {
            lemma_scan_from_shape(s, ja, resume(s, i, x), line, acc);
        } else if let AStep::Emit(ts, x) = a {
            lemma_shape_append(acc, ts, ja);
            lemma_scan_from_shape(s, ja, resume(s, i, x), line, acc + ts);
        }
    }
}

proof fn lemma_rotate_none(ts: Seq<SpecTok>, st: int, k: int, kind: Bk)
    requires
        none_of(ts, kind),
        0 <= st <= k < ts.len(),
    ensures
        none_of(rotate(ts, st, k), kind),
        rotate(ts, st, k).len() == ts.len(),
{
    reveal(none_of);
    let r = rotate(ts, st, k);
    assert forall|m: int| 0 <= m < r.len() implies (#[trigger] r[m]).kind != kind by {
        if m < st {
            assert(r[m] == ts[m]);
        } else if m == st {
            assert(r[m].kind == ts[k].kind);
        } else if m <= k {
            assert(r[m] == ts[m - 1]);
        } else {
            assert(r[m] == ts[m]);
        }
    }
}

proof fn lemma_reroot_none(ts: Seq<SpecTok>, k: int, kind: Bk)
    requires
        none_of(ts, kind),
    ensures
        reroot_from(ts, k) matches Ok(r) ==> none_of(r, kind),
    decreases ts.len() - k,
{
    if 0 <= k < ts.len() {
        if !ts[k].post {
            lemma_reroot_none(ts, k + 1, kind);
        } else if !(k == 0 || ts[k - 1].kind == Bk::T(TokKind::Nl)) {
            let st = operand_start(kinds(ts), k);
            if 0 <= st <= k {
                lemma_rotate_none(ts, st, k, kind);
                lemma_reroot_none(rotate(ts, st, k), k + 1, kind);
            }
        }
    }
}

proof fn lemma_drop_tgt_none(ts: Seq<SpecTok>, kind: Bk)
    ensures
        none_of(drop_tgt(ts), Bk::Tgt),
        none_of(ts, kind) ==> none_of(drop_tgt(ts), kind),
    decreases ts.len(),
{
    reveal(none_of);
    if ts.len() > 0 {
        lemma_drop_tgt_none(ts.skip(1), kind);
        if none_of(ts, kind) {
            assert forall|i: int| 0 <= i < ts.skip(1).len() implies (#[trigger] ts.skip(1)[i]).kind
                != kind by {
                assert(ts.skip(1)[i] == ts[i + 1]);
            }
        }
        let rest = drop_tgt(ts.skip(1));
        if ts[0].kind != Bk::Tgt {
            let r = seq![ts[0]] + rest;
            assert forall|i: int| 0 <= i < r.len() implies (#[trigger] r[i]).kind != Bk::Tgt && (
            none_of(ts, kind) ==> r[i].kind != kind) by {
                if i > 0 {
                    assert(r[i] == rest[i - 1]);
                }
            }
        }
    }
}

/* ---------- the lexer ---------- */

/// The first NUL byte at or after `i`, or the end.
pub open spec fn first_nul(s: Seq<u8>, i: int) -> int
    decreases s.len() - i,
{
    if i < 0 || i >= s.len() {
        s.len() as int
    } else if s[i] == 0 {
        i
    } else {
        first_nul(s, i + 1)
    }
}

/// The bytes before the first NUL: what a NUL-terminated reader sees.
pub open spec fn nul_cut(s: Seq<u8>) -> Seq<u8> {
    s.subrange(0, first_nul(s, 0))
}

/// The physical line (1 plus the newlines before it) of the first character from `i` on
/// that is not strict UTF-8, counting from line `pl`; `None` when all are well formed.
pub open spec fn bad_utf8_line(s: Seq<u8>, i: int, pl: int) -> Option<int>
    decreases s.len() - i,
{
    if i < 0 || i >= s.len() {
        None
    } else if s[i] < 0x80 {
        bad_utf8_line(
            s,
            i + 1,
            if s[i] == 10 {
                pl + 1
            } else {
                pl
            },
        )
    } else {
        match ucp_spec(s, i) {
            None => Some(pl),
            Some((_, l)) => if l >= 1 {
                bad_utf8_line(s, i + l, pl)
            } else {
                None
            },
        }
    }
}

/// The skin chosen by `ja`, over a whole source.
pub open spec fn skin_lex(s: Seq<u8>, ja: bool) -> Result<Seq<SpecTok>, Seq<char>> {
    if ja {
        ja_lex(s)
    } else {
        ascii_lex(s)
    }
}

/// A trailing separator dropped (a separator separates, never terminates), then one end
/// marker on the last token's line, or line 1 when there is none.
pub open spec fn finish(ts: Seq<SpecTok>) -> Seq<SpecTok> {
    let t = if ts.len() > 0 && ts.last().kind == Bk::T(TokKind::Nl) {
        ts.drop_last()
    } else {
        ts
    };
    t.push(
        stok(
            TokKind::Eof,
            Seq::empty(),
            if t.len() > 0 {
                t.last().line
            } else {
                1
            },
        ),
    )
}

/// The lexer over raw source bytes: the bytes before the first NUL, refused at the physical
/// line of the first malformed UTF-8 character, else the chosen skin's tokens finished with
/// one end marker.
pub open spec fn lex_spec(src: Seq<u8>, ja: bool) -> Result<Seq<SpecTok>, Seq<char>> {
    let s = nul_cut(src);
    match bad_utf8_line(s, 0, 1) {
        Some(pl) => Err(lex_err_text(pl, "malformed UTF-8"@)),
        None => match skin_lex(s, ja) {
            Err(e) => Err(e),
            Ok(ts) => Ok(finish(ts)),
        },
    }
}

/// The lexer's columns are the specified tokens, names read through the pool.
pub open spec fn toks_match(t: Toks, sts: Seq<SpecTok>, pool: Seq<Seq<char>>) -> bool {
    &&& t.wf()
    &&& t.kind@.len() == sts.len()
    &&& forall|k: int|
        0 <= k < sts.len() ==> {
            &&& Bk::T(#[trigger] t.kind@[k]) == sts[k].kind
            &&& (t.name@[k].0 as int) < pool.len()
            &&& pool[t.name@[k].0 as int] == sts[k].name
            &&& t.num@[k]@ == sts[k].num
            &&& t.line@[k] == sts[k].line
        }
}

proof fn lemma_first_nul_bounds(s: Seq<u8>, i: int)
    requires
        0 <= i <= s.len(),
    ensures
        i <= first_nul(s, i) <= s.len(),
    decreases s.len() - i,
{
    if i < s.len() && s[i] != 0 {
        lemma_first_nul_bounds(s, i + 1);
    }
}

proof fn lemma_skin_lex_shape(s: Seq<u8>, ja: bool)
    ensures
        skin_lex(s, ja) matches Ok(ts) ==> none_of(ts, Bk::T(TokKind::Eof)) && none_of(
            ts,
            Bk::Tgt,
        ) && seps_ok(ts),
{
    if ja {
        lemma_ja_lex_shape(s);
    } else {
        reveal(none_of);
        reveal(seps_ok);
        lemma_scan_from_shape(s, ja, 0, 1, Seq::empty());
    }
}

proof fn lemma_ja_lex_shape(s: Seq<u8>)
    ensures
        ja_lex(s) matches Ok(ts) ==> none_of(ts, Bk::T(TokKind::Eof)) && none_of(ts, Bk::Tgt)
            && seps_ok(ts),
{
    assert(ja_scan(s) matches Ok(ts) ==> none_of(ts, Bk::T(TokKind::Eof))) by {
        reveal(none_of);
        reveal(seps_ok);
        lemma_scan_from_shape(s, true, 0, 1, Seq::empty());
    }
    if let Ok(ts) = ja_scan(s) {
        lemma_reroot_none(ts, 0, Bk::T(TokKind::Eof));
        if let Ok(t2) = reroot_from(ts, 0) {
            lemma_drop_tgt_none(t2, Bk::T(TokKind::Eof));
            lemma_tidy_shape(drop_tgt(t2));
        }
    }
}

/// The first NUL byte of `s`, or its length.
pub(crate) fn nul_len(s: &[u8]) -> (n: usize)
    ensures
        n == first_nul(s@, 0),
        n <= s@.len(),
{
    let mut i: usize = 0;
    while i < s.len() && s[i] != 0
        invariant
            0 <= i <= s@.len(),
            first_nul(s@, 0) == first_nul(s@, i as int),
        decreases s@.len() - i,
    {
        i += 1;
    }
    i
}

/// The physical line of the first character that is not strict UTF-8 (see
/// `bad_utf8_line`).
fn bad_line(s: &[u8]) -> (r: Option<i32>)
    requires
        s@.len() < i32::MAX,
    ensures
        match r {
            Some(pl) => bad_utf8_line(s@, 0, 1) == Some(pl as int),
            None => bad_utf8_line(s@, 0, 1) is None,
        },
{
    let n = s.len();
    let mut pl: i32 = 1;
    let mut i: usize = 0;
    while i < n
        invariant
            0 <= i <= n,
            n == s@.len(),
            n < i32::MAX,
            1 <= pl <= i + 1,
            bad_utf8_line(s@, i as int, pl as int) == bad_utf8_line(s@, 0, 1),
        decreases n - i,
    {
        let c = s[i];
        if c < 0x80 {
            if c == 10 {
                pl = pl + 1;
            }
            i = i + 1;
            continue;
        }
        proof {
            lemma_ucp_len(s@, i as int);
        }
        match ucp(s, i) {
            None => {
                return Some(pl);
            },
            Some((_, l)) => {
                i = i + l;
            },
        }
    }
    None
}

/// The buffered tokens, then one end marker, as the lexer's columns.
fn into_toks(v: Vec<RawTok>, line: i32, Ghost(sts): Ghost<Seq<SpecTok>>, Ghost(pool): Ghost<Seq<Seq<char>>>) -> (t: Toks)
    requires
        toks_are(v@, sts, pool),
        none_of(sts, Bk::Tgt),
        pool.len() >= 1,
        pool[0] == Seq::<char>::empty(),
    ensures
        toks_match(t, sts.push(stok(TokKind::Eof, Seq::empty(), line as int)), pool),
{
    let ghost orig = v@;
    let ghost n = orig.len();
    let mut v = v;
    let mut rev: Vec<RawTok> = Vec::new();
    while v.len() > 0
        invariant
            rev@.len() + v@.len() == n,
            n == orig.len(),
            v@ == orig.subrange(0, v@.len() as int),
            forall|i: int| 0 <= i < rev@.len() ==> #[trigger] rev@[i] == orig[n - 1 - i],
        decreases v@.len(),
    {
        let x = v.pop().unwrap();
        rev.push(x);
    }
    let mut t = Toks::new();
    while rev.len() > 0
        invariant
            t.kind@.len() + rev@.len() == n,
            n == orig.len() == sts.len(),
            toks_are(orig, sts, pool),
            none_of(sts, Bk::Tgt),
            forall|i: int| 0 <= i < rev@.len() ==> #[trigger] rev@[i] == orig[n - 1 - i],
            toks_match(t, sts.take(t.kind@.len() as int), pool),
        decreases rev@.len(),
    {
        let ghost m = t.kind@.len() as int;
        let x = rev.pop().unwrap();
        proof {
            assert(x == orig[m]);
            assert(tok_is(orig[m], sts[m], pool));
            reveal(none_of);
        }
        let k = match x.kind {
            Bk::T(k) => k,
            Bk::Tgt => {
                proof {
                    assert(sts[m].kind != Bk::Tgt);
                }
                TokKind::Eof
            },
        };
        let ghost t0 = t;
        t.push(k, x.name, x.num, x.line);
        proof {
            assert(sts.take(m + 1) =~= sts.take(m).push(sts[m]));
            assert forall|q: int| 0 <= q < m + 1 implies Bk::T(#[trigger] t.kind@[q]) == sts.take(m + 1)[q].kind && (t.name@[q].0 as int) < pool.len() && pool[t.name@[q].0 as int] == sts.take(m + 1)[q].name && t.num@[q]@ == sts.take(m + 1)[q].num && t.line@[q] == sts.take(m + 1)[q].line by {
                if q < m {
                    assert(t.kind@[q] == t0.kind@[q]);
                    assert(Bk::T(t0.kind@[q]) == sts.take(m)[q].kind);
                }
            }
        }
    }
    let ghost t0 = t;
    t.push(TokKind::Eof, Symbol(0), NumText::Zero, line);
    proof {
        let full = sts.push(stok(TokKind::Eof, Seq::empty(), line as int));
        assert(sts.take(n as int) =~= sts);
        assert forall|q: int| 0 <= q < full.len() implies Bk::T(#[trigger] t.kind@[q]) == full[q].kind && (t.name@[q].0 as int) < pool.len() && pool[t.name@[q].0 as int] == full[q].name && t.num@[q]@ == full[q].num && t.line@[q] == full[q].line by {
            if q < n {
                assert(t.kind@[q] == t0.kind@[q]);
                assert(Bk::T(t0.kind@[q]) == sts.take(n as int)[q].kind);
            }
        }
    }
    t
}

/// Tokenizes source bytes on the chosen surface (see `lex_spec`): the bytes before the
/// first NUL, checked as strict UTF-8 once, scanned by the skin, the last separator
/// dropped, and one end marker appended.
pub fn lex(src: &[u8], ja: bool, it: &mut Interner) -> (r: Result<Toks, Diag>)
    requires
        old(it).wf(),
        old(it)@.len() + src@.len() < u32::MAX,
        src@.len() < i32::MAX,
    ensures
        final(it).wf(),
        old(it)@.is_prefix_of(final(it)@),
        match r {
            Ok(t) => lex_spec(src@, ja) matches Ok(ts) && toks_match(t, ts, final(it)@),
            Err(d) => lex_spec(src@, ja) == Err::<Seq<SpecTok>, Seq<char>>(d.msg@) && d.code == 2,
        },
{
    let n = nul_len(src);
    proof {
        lemma_first_nul_bounds(src@, 0);
    }
    let s = vstd::slice::slice_subrange(src, 0, n);
    assert(s@ == nul_cut(src@));
    match bad_line(s) {
        Some(pl) => {
            return Err(lex_err(pl, "malformed UTF-8"));
        },
        None => {},
    }
    let scanned = scan_skin(s, ja, it);
    let mut v = match scanned {
        Err(d) => {
            return Err(d);
        },
        Ok(v) => v,
    };
    let ghost pool = it@;
    let ghost ts = skin_scan(s@, ja)->Ok_0;
    let ghost mut cur = ts;
    proof {
        lemma_skin_lex_shape(s@, ja);
    }
    if ja {
        match reroot(&mut v, Ghost(ts), Ghost(pool)) {
            Err(d) => {
                return Err(d);
            },
            Ok(_) => {},
        }
        let ghost t2 = reroot_from(ts, 0)->Ok_0;
        drop_targets(&mut v, Ghost(t2), Ghost(pool));
        tidy_separators(&mut v, Ghost(drop_tgt(t2)), Ghost(pool));
        proof {
            cur = tidy_seps(drop_tgt(t2));
        }
    }
    assert(skin_lex(s@, ja) == Ok::<Seq<SpecTok>, Seq<char>>(cur));
    if ends_in_nl(&v) {
        let ghost v0 = v@;
        v.pop();
        proof {
            assert(tok_is(v0[v0.len() - 1], cur[cur.len() - 1], pool));
            assert forall|k: int| 0 <= k < v@.len() implies tok_is(#[trigger] v@[k], cur.drop_last()[k], pool) by {
                assert(tok_is(v0[k], cur[k], pool));
            }
            cur = cur.drop_last();
        }
    } else {
        proof {
            if cur.len() > 0 {
                assert(tok_is(v@[v@.len() - 1], cur[cur.len() - 1], pool));
            }
        }
    }
    let line = if v.len() > 0 {
        v[v.len() - 1].line
    } else {
        1
    };
    proof {
        if v@.len() > 0 {
            assert(tok_is(v@[v@.len() - 1], cur[cur.len() - 1], pool));
        }
        reveal(none_of);
        assert(none_of(cur, Bk::Tgt));
    }
    Ok(into_toks(v, line, Ghost(cur), Ghost(pool)))
}

/* ---------- laws of the lexer ---------- */

/// Whatever the surface, a lexed program ends in exactly one end marker, and no internal
/// target marker survives.
pub proof fn lemma_lex_ends_in_one_eof(src: Seq<u8>, ja: bool)
    ensures
        lex_spec(src, ja) matches Ok(ts) ==> {
            &&& ts.len() >= 1
            &&& ts.last().kind == Bk::T(TokKind::Eof)
            &&& forall|i: int| 0 <= i < ts.len() - 1 ==> (#[trigger] ts[i]).kind != Bk::T(TokKind::Eof)
            &&& forall|i: int| 0 <= i < ts.len() ==> (#[trigger] ts[i]).kind != Bk::Tgt
        },
{
    let s = nul_cut(src);
    lemma_skin_lex_shape(s, ja);
    reveal(none_of);
    if let Ok(ts) = skin_lex(s, ja) {
        let t = if ts.len() > 0 && ts.last().kind == Bk::T(TokKind::Nl) {
            ts.drop_last()
        } else {
            ts
        };
        let f = finish(ts);
        assert forall|i: int| 0 <= i < f.len() - 1 implies (#[trigger] f[i]).kind != Bk::T(
            TokKind::Eof,
        ) && f[i].kind != Bk::Tgt by {
            assert(f[i] == t[i]);
            assert(t[i] == ts[i]);
        }
    }
}

/// Finishing keeps separators from leading or doubling, and leaves none right before the
/// end marker.
pub open spec fn finished_seps_ok(f: Seq<SpecTok>) -> bool {
    &&& f[0].kind != Bk::T(TokKind::Nl)
    &&& forall|i: int|
        0 <= i < f.len() - 1 && (#[trigger] f[i]).kind == Bk::T(TokKind::Nl) ==> f[i + 1].kind
            != Bk::T(TokKind::Nl)
    &&& f.len() >= 2 ==> f[f.len() - 2].kind != Bk::T(TokKind::Nl)
}

#[verifier::rlimit(100)]
#[verifier::spinoff_prover]
proof fn lemma_finish_seps(ts: Seq<SpecTok>)
    requires
        seps_ok(ts),
    ensures
        finished_seps_ok(finish(ts)),
{
    reveal(seps_ok);
    let t = if ts.len() > 0 && ts.last().kind == Bk::T(TokKind::Nl) {
        ts.drop_last()
    } else {
        ts
    };
    let f = finish(ts);
    assert forall|i: int|
        0 <= i < f.len() - 1 && (#[trigger] f[i]).kind == Bk::T(TokKind::Nl) implies f[i
            + 1].kind != Bk::T(TokKind::Nl) by {
        assert(f[i] == t[i]);
        assert(t[i] == ts[i]);
        if i + 1 < t.len() {
            assert(f[i + 1] == t[i + 1]);
            assert(t[i + 1] == ts[i + 1]);
        }
    }
    if t.len() > 0 {
        assert(f[0] == t[0]);
        assert(t[0] == ts[0]);
        assert(f[f.len() - 2] == t.last());
        if ts.len() > 0 && ts.last().kind == Bk::T(TokKind::Nl) {
            assert(t.last() == ts[ts.len() - 2]);
        }
    }
}

/// On either surface a line separator never leads, never doubles, and never stands right
/// before the end marker.
pub proof fn lemma_lex_separators(src: Seq<u8>, ja: bool)
    ensures
        lex_spec(src, ja) matches Ok(ts) ==> finished_seps_ok(ts),
{
    let s = nul_cut(src);
    lemma_skin_lex_shape(s, ja);
    if let Ok(ts) = skin_lex(s, ja) {
        lemma_finish_seps(ts);
    }
}

/// The two-byte operators of the ASCII surface, by their bytes, and the token each reads as
/// with the glyph it carries: `=>` `==` `!=` `<=` `<-` `>=` `|>` `+=` `-=` `*=` `/=`, a
/// reducer glyph (`|` `&` `+` `-` `*` `#`) before '/' as a fold and before '\' as a scan,
/// and `/\` as the scan of '/'.
pub open spec fn ascii_pair_token(c: u8, d: u8) -> Option<(TokKind, Seq<char>)> {
    let e = Seq::<char>::empty();
    if c == 61 && d == 62 {
        Some((TokKind::Arrow, e))
    } else if c == 61 && d == 61 {
        Some((TokKind::EqEq, e))
    } else if c == 33 && d == 61 {
        Some((TokKind::Ne, e))
    } else if c == 60 && d == 61 {
        Some((TokKind::Le, e))
    } else if c == 60 && d == 45 {
        Some((TokKind::LArrow, e))
    } else if c == 62 && d == 61 {
        Some((TokKind::Ge, e))
    } else if c == 124 && d == 62 {
        Some((TokKind::PipeGt, e))
    } else if c == 43 && d == 61 {
        Some((TokKind::PlusEq, e))
    } else if c == 45 && d == 61 {
        Some((TokKind::MinusEq, e))
    } else if c == 42 && d == 61 {
        Some((TokKind::StarEq, e))
    } else if c == 47 && d == 61 {
        Some((TokKind::SlashEq, e))
    } else if d == 47 && reducer_glyph(c) is Some {
        Some((TokKind::Fold, seq![reducer_glyph(c)->Some_0]))
    } else if d == 92 && reducer_glyph(c) is Some {
        Some((TokKind::ScanOp, seq![reducer_glyph(c)->Some_0]))
    } else if c == 47 && d == 92 {
        Some((TokKind::ScanOp, seq!['/']))
    } else {
        None
    }
}

/// The glyphs that fuse with a following '/' or '' into a fold or a scan.
pub open spec fn reducer_glyph(c: u8) -> Option<char> {
    if c == 124 {
        Some('|')
    } else if c == 38 {
        Some('&')
    } else if c == 43 {
        Some('+')
    } else if c == 45 {
        Some('-')
    } else if c == 42 {
        Some('*')
    } else if c == 35 {
        Some('#')
    } else {
        None
    }
}

/// The one-byte operators and brackets of the ASCII surface, by their byte.
pub open spec fn ascii_glyph_token(c: u8) -> Option<TokKind> {
    if c == 44 {
        Some(TokKind::Comma)
    } else if c == 59 {
        Some(TokKind::Semi)
    } else if c == 40 {
        Some(TokKind::Lp)
    } else if c == 41 {
        Some(TokKind::Rp)
    } else if c == 91 {
        Some(TokKind::Lb)
    } else if c == 93 {
        Some(TokKind::Rb)
    } else if c == 126 {
        Some(TokKind::Tilde)
    } else if c == 46 {
        Some(TokKind::Dot)
    } else if c == 37 {
        Some(TokKind::Pct)
    } else if c == 64 {
        Some(TokKind::At)
    } else if c == 61 {
        Some(TokKind::Eq)
    } else if c == 33 {
        Some(TokKind::Bang)
    } else if c == 60 {
        Some(TokKind::Lt)
    } else if c == 62 {
        Some(TokKind::Gt)
    } else if c == 124 {
        Some(TokKind::Bar)
    } else if c == 38 {
        Some(TokKind::Amp)
    } else if c == 43 {
        Some(TokKind::Plus)
    } else if c == 45 {
        Some(TokKind::Minus)
    } else if c == 42 {
        Some(TokKind::Star)
    } else if c == 47 {
        Some(TokKind::Slash)
    } else {
        None
    }
}

/// Wherever the ASCII skin stands on the two bytes of an operator of the pair table, it
/// reads them as that one token, on the current line, and resumes after both bytes.
pub proof fn lemma_ascii_operator_pairs(s: Seq<u8>, i: int, line: int)
    requires
        0 <= i,
        i + 1 < s.len(),
        ascii_pair_token(s[i], s[i + 1]) is Some,
    ensures
        ascii_step(s, i, line) == AStep::Emit(
            seq![stok(ascii_pair_token(s[i], s[i + 1])->Some_0.0, ascii_pair_token(s[i], s[i + 1])->Some_0.1, line)],
            1,
        ),
{
    reveal_strlit("|");
    reveal_strlit("&");
    reveal_strlit("+");
    reveal_strlit("-");
    reveal_strlit("*");
    reveal_strlit("#");
    reveal_strlit("/");
    assert("|"@ =~= seq!['|']);
    assert("&"@ =~= seq!['&']);
    assert("+"@ =~= seq!['+']);
    assert("-"@ =~= seq!['-']);
    assert("*"@ =~= seq!['*']);
    assert("#"@ =~= seq!['#']);
    assert("/"@ =~= seq!['/']);
    assert(at(s, i + 1) == s[i + 1]);
}

/// Wherever the ASCII skin stands on a one-byte operator or bracket that does not begin a
/// pair of the table (nor a `--` comment), it reads that byte alone as its token.
pub proof fn lemma_ascii_single_glyphs(s: Seq<u8>, i: int, line: int)
    requires
        0 <= i < s.len(),
        ascii_glyph_token(s[i]) is Some,
        ascii_pair_token(s[i], at(s, i + 1)) is None,
        !(s[i] == 45 && at(s, i + 1) == 45),
    ensures
        ascii_step(s, i, line) == AStep::Emit(
            seq![stok(ascii_glyph_token(s[i])->Some_0, Seq::empty(), line)],
            0,
        ),
{
}

proof fn lemma_str_end_at(s: Seq<u8>, i: int, j: int)
    requires
        0 <= i <= j,
        forall|k: int| i <= k < j ==> #[trigger] s[k] != 34 && s[k] != 10,
        j < s.len(),
        s[j] == 34 || s[j] == 10,
    ensures
        str_end(s, i) == j,
    decreases j - i,
{
    if i < j {
        lemma_str_end_at(s, i + 1, j);
    }
}

/// A string literal on either surface: from an opening '"', when a closing '"' follows on
/// the same line, the skin reads one string token holding exactly the bytes between the two
/// quotes (decoded, when they are well-formed UTF-8) and resumes after the closing quote;
/// when a newline comes first, the literal is refused as unterminated.
pub proof fn lemma_string_literals(s: Seq<u8>, i: int, j: int, line: int, ja: bool)
    requires
        0 <= i < j < s.len(),
        s[i] == 34,
        forall|k: int| i < k < j ==> #[trigger] s[k] != 34 && s[k] != 10,
        s[j] == 34 || s[j] == 10,
    ensures
        s[j] == 34 && valid_utf8(s.subrange(i + 1, j)) ==> skin_step(s, i, line, ja) == AStep::Emit(
            seq![stok(TokKind::Str, decode_utf8(s.subrange(i + 1, j)), line)],
            (j - i) as nat,
        ),
        s[j] == 10 ==> skin_step(s, i, line, ja) == AStep::Fail("unterminated string"@),
{
    reveal(skin_step);
    lemma_str_end_at(s, i + 1, j);
    assert(at(s, j) == s[j]);
}

proof fn lemma_digit_end_at(s: Seq<u8>, i: int, j: int)
    requires
        0 <= i <= j <= s.len(),
        forall|k: int| i <= k < j ==> dig(#[trigger] s[k]),
        !dig(at(s, j)),
    ensures
        digit_end(s, i) == j,
    decreases j - i,
{
    if i < j {
        lemma_digit_end_at(s, i + 1, j);
    }
}

/// A numeral on the ASCII surface: a maximal run of digits, or digits, '.', digits, that no
/// letter follows and that is shorter than 64 bytes, is read as one number token carrying
/// exactly those bytes as written, and scanning resumes right after it.
pub proof fn lemma_ascii_numerals(s: Seq<u8>, i: int, d: int, j: int, line: int)
    requires
        0 <= i < d <= j <= s.len(),
        j - i < 64,
        forall|k: int| i <= k < d ==> dig(#[trigger] s[k]),
        d == j || (s[d] == 46 && d + 1 < j && forall|k: int| d < k < j ==> dig(#[trigger] s[k])),
        !dig(at(s, j)),
        d == j ==> !(at(s, j) == 46 && dig(at(s, j + 1))),
        !nstart(at(s, j)),
    ensures
        ascii_step(s, i, line) == AStep::Emit(
            seq![
                SpecTok {
                    kind: Bk::T(TokKind::Num),
                    name: Seq::empty(),
                    num: NumSpec::Digits(s.subrange(i, j)),
                    line,
                    post: false,
                },
            ],
            (j - i - 1) as nat,
        ),
{
    if d == j {
        lemma_digit_end_at(s, i, j);
    } else {
        assert(!dig(at(s, d))) by {
            assert(at(s, d) == s[d]);
        }
        lemma_digit_end_at(s, i, d);
        assert(at(s, d) == 46);
        assert(at(s, d + 1) == s[d + 1]);
        lemma_digit_end_at(s, d + 1, j);
    }
    assert(dig(s[i]));
}

/// Line numbers never fall from one token to a later one.
pub open spec fn lines_rise(ts: Seq<SpecTok>) -> bool {
    forall|i: int, j: int| 0 <= i <= j < ts.len() ==> (#[trigger] ts[i]).line <= (#[trigger] ts[j]).line
}

/// Every token a step emits stands on the step's line.
pub open spec fn emits_on(a: AStep, line: int) -> bool {
    a matches AStep::Emit(ts, _) ==> forall|k: int|
        0 <= k < ts.len() ==> (#[trigger] ts[k]).line == line
}

proof fn lemma_skin_step_on_line(s: Seq<u8>, i: int, line: int, ja: bool)
    requires
        0 <= i < s.len(),
    ensures
        emits_on(skin_step(s, i, line, ja), line),
{
    reveal(skin_step);
    if ja {
        if let Some(j) = ja_word_end(s, i) {
            let w = s.subrange(i, j);
            lemma_jatab_find_from(w, 0);
        }
    } else {
        let j = nspan_spec(s, i + 1);
        assert(emits_on(name_tail(s, i, j, line), line));
        if let Some((cp, l)) = ucp_spec(s, i) {
            assert(emits_on(name_tail(s, i, nspan_spec(s, i + l), line), line));
        }
    }
}

#[verifier::rlimit(100)]
proof fn lemma_scan_from_lines(s: Seq<u8>, ja: bool, i: int, line: int, acc: Seq<SpecTok>)
    requires
        lines_rise(acc),
        forall|k: int| 0 <= k < acc.len() ==> (#[trigger] acc[k]).line <= line,
    ensures
        scan_from(s, ja, i, line, acc) matches Ok(r) ==> lines_rise(r),
    decreases s.len() - i,
{
    if 0 <= i < s.len() {
        lemma_skin_step_on_line(s, i, line, ja);
        let a = skin_step(s, i, line, ja);
        if a is Newline {
            let n = push_nl(acc, line);
            assert forall|k: int| 0 <= k < n.len() implies (#[trigger] n[k]).line <= line + 1 by {
                if k < acc.len() {
                    assert(n[k] == acc[k]);
                }
            }
            assert forall|p: int, q: int| 0 <= p <= q < n.len() implies (#[trigger] n[p]).line
                <= (#[trigger] n[q]).line by {
                if q < acc.len() {
                    assert(n[p] == acc[p] && n[q] == acc[q]);
                } else if p < acc.len() {
                    assert(n[p] == acc[p]);
                }
            }
            lemma_scan_from_lines(s, ja, i + 1, line + 1, n);
        } else if let AStep::Skip(x) = a {
            lemma_scan_from_lines(s, ja, resume(s, i, x), line, acc);
        } else if let AStep::Emit(ts, x) = a {
            let n = acc + ts;
            assert forall|k: int| 0 <= k < n.len() implies (#[trigger] n[k]).line <= line by {
                if k < acc.len() {
                    assert(n[k] == acc[k]);
                } else {
                    assert(n[k] == ts[k - acc.len()]);
                }
            }
            assert forall|p: int, q: int| 0 <= p <= q < n.len() implies (#[trigger] n[p]).line
                <= (#[trigger] n[q]).line by {
                if q < acc.len() {
                    assert(n[p] == acc[p] && n[q] == acc[q]);
                } else if p < acc.len() {
                    assert(n[p] == acc[p]);
                    assert(n[q] == ts[q - acc.len()]);
                } else {
                    assert(n[p] == ts[p - acc.len()]);
                    assert(n[q] == ts[q - acc.len()]);
                }
            }
            lemma_scan_from_lines(s, ja, resume(s, i, x), line, n);
        }
    }
}

/// The end marker stands on the line of the token before it, or on line 1 when it stands
/// alone; on the ASCII surface, line numbers never fall from one token to a later one.
pub proof fn lemma_lex_lines(src: Seq<u8>, ja: bool)
    ensures
        lex_spec(src, ja) matches Ok(ts) ==> ts.len() >= 1 && ts.last().line == (if ts.len() > 1 {
            ts[ts.len() - 2].line
        } else {
            1
        }),
        !ja ==> (lex_spec(src, ja) matches Ok(ts) ==> lines_rise(ts)),
{
    let s = nul_cut(src);
    if let Ok(ts) = skin_lex(s, ja) {
        let t = if ts.len() > 0 && ts.last().kind == Bk::T(TokKind::Nl) {
            ts.drop_last()
        } else {
            ts
        };
        let f = finish(ts);
        if t.len() > 0 {
            assert(f[f.len() - 2] == t.last());
        }
        if !ja {
            lemma_scan_from_lines(s, false, 0, 1, Seq::empty());
            assert(lines_rise(ts));
            assert forall|p: int, q: int| 0 <= p <= q < f.len() implies (#[trigger] f[p]).line
                <= (#[trigger] f[q]).line by {
                if q < t.len() {
                    assert(f[p] == t[p] && f[q] == t[q]);
                    assert(t[p] == ts[p] && t[q] == ts[q]);
                } else if p < t.len() {
                    assert(f[p] == t[p]);
                    assert(t[p] == ts[p]);
                    assert(t.last() == ts[t.len() - 1]);
                }
            }
        }
    }
}

/* ---------- strict UTF-8 ---------- */

proof fn lemma_utf8_byte_classes(b: u8)
    ensures
        (b & 0xE0 == 0xC0) <==> is_leading_byte_width_2(b),
        (b & 0xF0 == 0xE0) <==> is_leading_byte_width_3(b),
        (b & 0xF8 == 0xF0) <==> is_leading_byte_width_4(b),
        cont(b) <==> is_continuation_byte(b),
        b >= 0x80 && !is_leading_byte_width_2(b) && !is_leading_byte_width_3(b)
            && !is_leading_byte_width_4(b) ==> !is_leading_byte_width_1(b),
{
    assert((b & 0xE0 == 0xC0) <==> (0xc0 <= b && b <= 0xdf)) by (bit_vector);
    assert((b & 0xF0 == 0xE0) <==> (0xe0 <= b && b <= 0xef)) by (bit_vector);
    assert((b & 0xF8 == 0xF0) <==> (0xf0 <= b && b <= 0xf7)) by (bit_vector);
    assert((b & 0xC0 == 0x80) <==> (0x80 <= b && b <= 0xbf)) by (bit_vector);
}

proof fn lemma_codepoints(b0: u8, b1: u8, b2: u8, b3: u8)
    ensures
        (((b0 & 0x1F) as u32) << 6u32) | ((b1 & 0x3F) as u32) == codepoint_width_2(b0, b1),
        (((((b0 & 0x0F) as u32) << 6u32) | ((b1 & 0x3F) as u32)) << 6u32) | ((b2 & 0x3F) as u32)
            == codepoint_width_3(b0, b1, b2),
        (((((((b0 & 0x07) as u32) << 6u32) | ((b1 & 0x3F) as u32)) << 6u32) | ((b2 & 0x3F) as u32))
            << 6u32) | ((b3 & 0x3F) as u32) == codepoint_width_4(b0, b1, b2, b3),
        codepoint_width_2(b0, b1) <= 0x7FF,
        codepoint_width_3(b0, b1, b2) <= 0xFFFF,
{
    assert((((b0 & 0x1F) as u32) << 6u32) | ((b1 & 0x3F) as u32) == (((b0 & 0x1F) as u32) << 6)
        | ((b1 & 0x3f) as u32)) by (bit_vector);
    assert((((b0 & 0x1F) as u32) << 6u32) | ((b1 & 0x3F) as u32) <= 0x7FF) by (bit_vector);
    assert((((((b0 & 0x0F) as u32) << 6u32) | ((b1 & 0x3F) as u32)) << 6u32) | ((b2 & 0x3F) as u32)
        == (((b0 & 0x0F) as u32) << 12) | (((b1 & 0x3f) as u32) << 6) | ((b2 & 0x3f) as u32)) by (bit_vector);
    assert((((((b0 & 0x0F) as u32) << 6u32) | ((b1 & 0x3F) as u32)) << 6u32) | ((b2 & 0x3F) as u32)
        <= 0xFFFF) by (bit_vector);
    assert((((((((b0 & 0x07) as u32) << 6u32) | ((b1 & 0x3F) as u32)) << 6u32) | ((b2 & 0x3F) as u32))
        << 6u32) | ((b3 & 0x3F) as u32) == (((b0 & 0x07) as u32) << 18) | (((b1 & 0x3f) as u32) << 12)
        | (((b2 & 0x3f) as u32) << 6) | ((b3 & 0x3f) as u32)) by (bit_vector);
}

/// The strict decoding at `i` agrees with the standard definition of a well-formed first
/// scalar: it succeeds exactly when the bytes from `i` begin with one, with its length.
proof fn lemma_ucp_standard(s: Seq<u8>, i: int)
    requires
        0 <= i < s.len(),
    ensures
        ucp_spec(s, i) is Some <==> valid_first_scalar(s.skip(i)),
        ucp_spec(s, i) matches Some((c, l)) ==> l == length_of_first_scalar(s.skip(i)) && 1 <= l,
{
    let t = s.skip(i);
    let b0 = s[i];
    assert(t[0] == b0);
    lemma_utf8_byte_classes(b0);
    if t.len() > 1 {
        assert(t[1] == s[i + 1]);
        lemma_utf8_byte_classes(s[i + 1]);
    }
    if t.len() > 2 {
        assert(t[2] == s[i + 2]);
        lemma_utf8_byte_classes(s[i + 2]);
    }
    if t.len() > 3 {
        assert(t[3] == s[i + 3]);
        lemma_utf8_byte_classes(s[i + 3]);
        lemma_codepoints(b0, s[i + 1], s[i + 2], s[i + 3]);
    } else if t.len() > 2 {
        lemma_codepoints(b0, s[i + 1], s[i + 2], 0);
    } else if t.len() > 1 {
        lemma_codepoints(b0, s[i + 1], 0, 0);
    }
}

/// Scanning for a malformed character from `i` finds none exactly when the bytes from `i`
/// are well-formed UTF-8.
proof fn lemma_bad_utf8_line_valid(s: Seq<u8>, i: int, pl: int)
    requires
        0 <= i <= s.len(),
    ensures
        bad_utf8_line(s, i, pl) is None <==> valid_utf8(s.skip(i)),
    decreases s.len() - i,
{
    let t = s.skip(i);
    if i < s.len() {
        lemma_ucp_standard(s, i);
        if s[i] < 0x80 {
            assert(valid_first_scalar(t));
            assert(pop_first_scalar(t) =~= s.skip(i + 1));
            lemma_bad_utf8_line_valid(s, i + 1, if s[i] == 10 { pl + 1 } else { pl });
        } else {
            match ucp_spec(s, i) {
                None => {},
                Some((_, l)) => {
                    assert(pop_first_scalar(t) =~= s.skip(i + l));
                    lemma_bad_utf8_line_valid(s, i + l, pl);
                },
            }
        }
    } else {
        assert(t.len() == 0);
    }
}

proof fn lemma_first_nul_of_cut(s: Seq<u8>, p: int, i: int)
    requires
        0 <= i <= p <= s.len(),
        forall|j: int| 0 <= j < p ==> s[j] != 0,
    ensures
        first_nul(s.subrange(0, p), i) == p,
    decreases p - i,
{
    if i < p {
        lemma_first_nul_of_cut(s, p, i + 1);
    }
}

proof fn lemma_first_nul_props(s: Seq<u8>, i: int)
    requires
        0 <= i <= s.len(),
    ensures
        i <= first_nul(s, i) <= s.len(),
        forall|j: int| i <= j < first_nul(s, i) ==> s[j] != 0,
    decreases s.len() - i,
{
    if i < s.len() && s[i] != 0 {
        lemma_first_nul_props(s, i + 1);
    }
}

/// The lexer reads nothing from the first NUL on, and refuses a source exactly when what it
/// reads is not strict UTF-8: then at the physical line (1 plus the newlines before it) of
/// the first malformed character.
pub proof fn lemma_lex_utf8(src: Seq<u8>, ja: bool)
    ensures
        lex_spec(src, ja) == lex_spec(nul_cut(src), ja),
        !valid_utf8(nul_cut(src)) <==> bad_utf8_line(nul_cut(src), 0, 1) is Some,
        bad_utf8_line(nul_cut(src), 0, 1) matches Some(pl) ==> lex_spec(src, ja) == Err::<Seq<SpecTok>, Seq<char>>(
            lex_err_text(pl, "malformed UTF-8"@),
        ),
{
    let p = first_nul(src, 0);
    lemma_first_nul_props(src, 0);
    lemma_first_nul_of_cut(src, p, 0);
    assert(nul_cut(src).subrange(0, p) =~= nul_cut(src));
    lemma_bad_utf8_line_valid(nul_cut(src), 0, 1);
    assert(nul_cut(src).skip(0) =~= nul_cut(src));
}

} // verus!
