//! Dynamic `^name` aliases: the name discipline of the overlay (the ASCII-only registry fold,
//! the single-line token shape), the carriers a target declares, the service stamps a
//! resolver target records, and the FNV-1a hashing the sidecar identities are built from.
use vstd::prelude::*;
use vstd::string::StringSliceAdditionalSpecFns;
use crate::Diag;
use crate::text::{chars_of, string_of, cat, dec_spelling, hex16, u64_text, hex16_text};

verus! {

/* ---------- names ---------- */

/// The registry name fold on one character: ASCII 'A'..='Z' to lowercase, all else exact.
pub open spec fn fold_char(c: char) -> char {
    if 'A' <= c && c <= 'Z' {
        ((c as u32) + 32) as char
    } else {
        c
    }
}

/// The registry name fold: ASCII A-Z only, every other character exact.
pub open spec fn fold_spec(s: Seq<char>) -> Seq<char> {
    s.map_values(|c: char| fold_char(c))
}

/// One character folded.
pub fn fold_one(c: char) -> (r: char)
    ensures
        r == fold_char(c),
{
    if 'A' <= c && c <= 'Z' {
        ((c as u8) + 32) as char
    } else {
        c
    }
}

/// The canonical spelling of a name: ASCII A-Z folded to lowercase, all non-ASCII exact.
pub fn canonical_name(name: &str) -> (r: String)
    ensures
        r@ == fold_spec(name@),
{
    let v = chars_of(name);
    let mut out: Vec<char> = Vec::new();
    let mut k: usize = 0;
    while k < v.len()
        invariant
            0 <= k <= v@.len(),
            v@ == name@,
            out@ =~= fold_spec(name@).subrange(0, k as int),
        decreases v@.len() - k,
    {
        out.push(fold_one(v[k]));
        k += 1;
    }
    assert(out@ =~= fold_spec(name@));
    string_of(out.as_slice())
}

/// Whether two names denote the same registry entry: equal after the registry fold.
pub open spec fn names_eq_spec(a: Seq<char>, b: Seq<char>) -> bool {
    fold_spec(a) == fold_spec(b)
}

/// Registry name equality: the two spellings agree after the ASCII-only fold.
pub fn names_eq(a: &str, b: &str) -> (r: bool)
    ensures
        r == names_eq_spec(a@, b@),
{
    let x = chars_of(a);
    let y = chars_of(b);
    if x.len() != y.len() {
        proof {
            assert(fold_spec(a@).len() != fold_spec(b@).len());
        }
        return false;
    }
    let mut k: usize = 0;
    while k < x.len()
        invariant
            x@ == a@,
            y@ == b@,
            x@.len() == y@.len(),
            0 <= k <= x@.len(),
            forall|j: int| 0 <= j < k ==> fold_char(x@[j]) == fold_char(y@[j]),
        decreases x@.len() - k,
    {
        if fold_one(x[k]) != fold_one(y[k]) {
            proof {
                assert(fold_spec(a@)[k as int] != fold_spec(b@)[k as int]);
            }
            return false;
        }
        k += 1;
    }
    assert(fold_spec(a@) =~= fold_spec(b@));
    true
}

/// Folding twice is folding once.
pub proof fn lemma_fold_idempotent(s: Seq<char>)
    ensures
        fold_spec(fold_spec(s)) == fold_spec(s),
{
    assert forall|i: int| 0 <= i < s.len() implies fold_char(fold_char(s[i])) == fold_char(
        s[i],
    ) by {
        let c = s[i];
        if 'A' <= c && c <= 'Z' {
            assert(fold_char(c) as u32 == c as u32 + 32);
        }
    }
    assert(fold_spec(fold_spec(s)) =~= fold_spec(s));
}

/// The fold leaves every character outside 'A'..='Z' untouched, so the fold of a name that
/// holds none of them is the name itself.
pub proof fn lemma_fold_fixes_non_upper(s: Seq<char>)
    requires
        forall|i: int| 0 <= i < s.len() ==> !('A' <= #[trigger] s[i] && s[i] <= 'Z'),
    ensures
        fold_spec(s) == s,
{
    assert(fold_spec(s) =~= s);
}

/// Name equality is an equivalence: reflexive, symmetric and transitive.
pub proof fn lemma_names_eq_equivalence(a: Seq<char>, b: Seq<char>, c: Seq<char>)
    ensures
        names_eq_spec(a, a),
        names_eq_spec(a, b) ==> names_eq_spec(b, a),
        names_eq_spec(a, b) && names_eq_spec(b, c) ==> names_eq_spec(a, c),
{
}

/// A name and its canonical spelling denote the same entry.
pub proof fn lemma_canonical_names_eq(s: Seq<char>)
    ensures
        names_eq_spec(fold_spec(s), s),
{
    lemma_fold_idempotent(s);
}

/// Whether two character sequences are equal, decided on their characters.
pub fn same_text(a: &str, b: &str) -> (r: bool)
    ensures
        r == (a@ == b@),
{
    let x = chars_of(a);
    let y = chars_of(b);
    if x.len() != y.len() {
        return false;
    }
    let mut k: usize = 0;
    while k < x.len()
        invariant
            x@ == a@,
            y@ == b@,
            x@.len() == y@.len(),
            0 <= k <= x@.len(),
            forall|j: int| 0 <= j < k ==> x@[j] == y@[j],
        decreases x@.len() - k,
    {
        if x[k] != y[k] {
            return false;
        }
        k += 1;
    }
    assert(x@ =~= y@);
    true
}

/// The spelling of the sidecar beside a registry: the registry path with ".aliases" appended.
pub fn sidecar_spelling(registry_path: &str) -> (s: String)
    ensures
        s@ == registry_path@ + ".aliases"@,
{
    cat(registry_path, ".aliases")
}

#[verifier::external_type_specification]
#[verifier::external_body]
pub struct ExPathBuf(std::path::PathBuf);

/// What a `PathBuf` holds: the text of the path it names.
pub uninterp spec fn path_text(p: std::path::PathBuf) -> Seq<char>;

/// `PathBuf::from(String)`: the path value of a spelling; std documents that the conversion
/// takes the string over as the path's contents, without copying or changing it.
#[verifier::external_body]
pub(crate) fn path_of(s: String) -> (p: std::path::PathBuf)
    ensures
        path_text(p) == s@,
{
    std::path::PathBuf::from(s)
}

/// Dynamic aliases live beside the registry: `<registry>.aliases`.
pub fn sidecar_path(registry_path: &str) -> (p: std::path::PathBuf)
    ensures
        path_text(p) == registry_path@ + ".aliases"@,
{
    path_of(sidecar_spelling(registry_path))
}

/// The two resolver requests a source name can make: `name` (registry and definitions only,
/// never the overlay) and `^name` (the overlay first, then an explicit bare fallback).
#[derive(Debug, Clone, Copy, PartialEq, Eq)]
pub enum LookupMode {
    Bare,
    DynamicAliasThenBare,
}

/// The value shapes an alias target can declare.
#[derive(Debug, Clone, Copy, PartialEq, Eq, Structural)]
pub enum AliasCarrier {
    Mask,
    Number,
    Entity,
    Point,
    Vector,
    Symbol,
}

/// The word each carrier is spelled with in sidecars and diagnostics.
pub open spec fn carrier_word(c: AliasCarrier) -> Seq<char> {
    match c {
        AliasCarrier::Mask => "mask"@,
        AliasCarrier::Number => "number"@,
        AliasCarrier::Entity => "entity"@,
        AliasCarrier::Point => "point"@,
        AliasCarrier::Vector => "vector"@,
        AliasCarrier::Symbol => "symbol"@,
    }
}

impl AliasCarrier {
    /// The carrier's word.
    pub fn word(self) -> (s: &'static str)
        ensures
            s@ == carrier_word(self),
    {
        match self {
            AliasCarrier::Mask => "mask",
            AliasCarrier::Number => "number",
            AliasCarrier::Entity => "entity",
            AliasCarrier::Point => "point",
            AliasCarrier::Vector => "vector",
            AliasCarrier::Symbol => "symbol",
        }
    }

    /// The carrier a word names, exactly; `None` for any other word.
    pub fn parse(word: &str) -> (r: Option<AliasCarrier>)
        ensures
            r matches Some(c) ==> carrier_word(c) == word@,
            r is None ==> forall|c: AliasCarrier| carrier_word(c) != word@,
    {
        if same_text(word, "mask") {
            return Some(AliasCarrier::Mask);
        }
        if same_text(word, "number") {
            return Some(AliasCarrier::Number);
        }
        if same_text(word, "entity") {
            return Some(AliasCarrier::Entity);
        }
        if same_text(word, "point") {
            return Some(AliasCarrier::Point);
        }
        if same_text(word, "vector") {
            return Some(AliasCarrier::Vector);
        }
        if same_text(word, "symbol") {
            return Some(AliasCarrier::Symbol);
        }
        proof {
            assert forall|c: AliasCarrier| carrier_word(c) != word@ by {
                match c {
                    AliasCarrier::Mask => {},
                    AliasCarrier::Number => {},
                    AliasCarrier::Entity => {},
                    AliasCarrier::Point => {},
                    AliasCarrier::Vector => {},
                    AliasCarrier::Symbol => {},
                }
            }
        }
        None
    }
}

/// Parsing a carrier's own word gives that carrier back.
pub proof fn lemma_carrier_words_distinct(a: AliasCarrier, b: AliasCarrier)
    ensures
        carrier_word(a) == carrier_word(b) ==> a == b,
{
    reveal_strlit("mask");
    reveal_strlit("number");
    reveal_strlit("entity");
    reveal_strlit("point");
    reveal_strlit("vector");
    reveal_strlit("symbol");
    if carrier_word(a) == carrier_word(b) && a != b {
        assert(carrier_word(a).len() == carrier_word(b).len());
        assert(carrier_word(a)[0] == carrier_word(b)[0]);
    }
}

/* ---------- refusals ---------- */

/// The text of an alias refusal: "alias: " and the message.
pub open spec fn alias_fail_text(msg: Seq<char>) -> Seq<char> {
    "alias: "@ + msg
}

/// An alias refusal carrying "alias: <message>".
pub fn fail(msg: &str) -> (d: Diag)
    ensures
        d.msg@ == alias_fail_text(msg@),
        d.code == 2,
{
    Diag::refuse(cat("alias: ", msg))
}

/// Whether a character is one a single-line token may not hold.
pub open spec fn line_breaking(c: char) -> bool {
    c == '\t' || c == '\r' || c == '\n'
}

/// Whether a name has the token shape: nonempty, no tab, carriage return or newline.
pub open spec fn token_shaped(s: Seq<char>) -> bool {
    s.len() > 0 && forall|i: int| 0 <= i < s.len() ==> !line_breaking(#[trigger] s[i])
}

/// `Ok` when `name` is a nonempty single-line token; else the refusal
/// "alias: <what> must be a nonempty single-line token".
pub fn validate_name(name: &str, what: &str) -> (r: Result<(), Diag>)
    ensures
        r is Ok <==> token_shaped(name@),
        r matches Err(d) ==> d.msg@ == alias_fail_text(
            what@ + " must be a nonempty single-line token"@,
        ) && d.code == 2,
{
    let v = chars_of(name);
    let mut bad = v.len() == 0;
    let mut k: usize = 0;
    while k < v.len() && !bad
        invariant
            v@ == name@,
            0 <= k <= v@.len(),
            bad == (v@.len() == 0 || exists|j: int| 0 <= j < k && line_breaking(#[trigger] v@[j])),
        decreases v@.len() - k,
    {
        if v[k] == '\t' || v[k] == '\r' || v[k] == '\n' {
            bad = true;
        }
        k += 1;
    }
    if bad {
        let msg = cat(what, " must be a nonempty single-line token");
        return Err(fail(msg.as_str()));
    }
    Ok(())
}

/* ---------- service stamps ---------- */

/// A declaration identity: a nonzero 64-bit id minted by the registry.
#[derive(Debug, Clone, Copy, PartialEq, Eq, Structural)]
pub struct DeclId(pub u64);

/// A service as diagnostics describe it: the version, then the declaration id when present.
pub open spec fn service_description_spec(version: u64, declaration: Option<DeclId>) -> Seq<
    char,
> {
    match declaration {
        Some(id) => dec_spelling(version as nat) + " declaration "@ + hex16(id.0),
        None => dec_spelling(version as nat),
    }
}

/// "<version> declaration <id as 16 hex digits>", or just the version.
pub fn service_description(version: u64, declaration: Option<DeclId>) -> (s: String)
    ensures
        s@ == service_description_spec(version, declaration),
{
    let v = u64_text(version);
    match declaration {
        Some(id) => {
            let head = cat(v.as_str(), " declaration ");
            let hex = hex16_text(id.0);
            cat(head.as_str(), hex.as_str())
        },
        None => v,
    }
}

/// The sidecar word recording a service: "<id as 16 hex digits>@<version>", or the version.
pub open spec fn stamp_word_spec(declaration: Option<DeclId>, version: u64) -> Seq<char> {
    match declaration {
        Some(id) => hex16(id.0) + seq!['@'] + dec_spelling(version as nat),
        None => dec_spelling(version as nat),
    }
}

/// The sidecar word of a service stamp.
pub fn service_stamp_word(declaration: Option<DeclId>, version: u64) -> (s: String)
    ensures
        s@ == stamp_word_spec(declaration, version),
{
    let v = u64_text(version);
    match declaration {
        Some(id) => {
            let hex = hex16_text(id.0);
            let head = cat(hex.as_str(), "@");
            proof {
                reveal_strlit("@");
            }
            cat(head.as_str(), v.as_str())
        },
        None => v,
    }
}

/// Whether a character is an ASCII decimal digit.
pub open spec fn is_digit(c: char) -> bool {
    '0' <= c && c <= '9'
}

/// Whether a character is a lowercase hexadecimal digit.
pub open spec fn is_lower_hex(c: char) -> bool {
    ('0' <= c && c <= '9') || ('a' <= c && c <= 'f')
}

/// The value of a lowercase hexadecimal digit.
pub open spec fn hex_digit_value(c: char) -> nat {
    if '0' <= c && c <= '9' {
        (c as u32 - 48) as nat
    } else {
        (c as u32 - 87) as nat
    }
}

/// The value of a string of decimal digits, most significant first.
pub open spec fn dec_value(s: Seq<char>) -> nat
    decreases s.len(),
{
    if s.len() == 0 {
        0
    } else {
        dec_value(s.drop_last()) * 10 + (s.last() as u32 - 48) as nat
    }
}

/// The value of a string of hexadecimal digits, most significant first.
pub open spec fn hex_value(s: Seq<char>) -> nat
    decreases s.len(),
{
    if s.len() == 0 {
        0
    } else {
        hex_value(s.drop_last()) * 16 + hex_digit_value(s.last())
    }
}

/// Whether a word is the canonical decimal spelling of a positive 64-bit version: digits
/// only, no leading zero, and within range.
pub open spec fn canonical_version(w: Seq<char>) -> bool {
    &&& w.len() > 0
    &&& forall|i: int| 0 <= i < w.len() ==> is_digit(#[trigger] w[i])
    &&& w[0] != '0'
    &&& dec_value(w) <= u64::MAX
}

/// The index of the first '@' in a word, when it has one.
pub open spec fn first_at(w: Seq<char>) -> Option<int> {
    if exists|i: int| 0 <= i < w.len() && w[i] == '@' {
        Some(choose|i: int| 0 <= i < w.len() && w[i] == '@' && forall|j: int| 0 <= j < i ==> w[j] != '@')
    } else {
        None
    }
}

/// What a sidecar stamp word records: an optional nonzero declaration id spelled as exactly
/// 16 lowercase hex digits before the first '@', then a canonical positive version.
pub open spec fn parse_stamp_spec(w: Seq<char>) -> Option<(Option<DeclId>, u64)> {
    match first_at(w) {
        Some(at) => {
            let id_word = w.subrange(0, at);
            let vw = w.subrange(at + 1, w.len() as int);
            if id_word.len() == 16 && (forall|i: int| 0 <= i < 16 ==> is_lower_hex(
                #[trigger] id_word[i],
            )) && hex_value(id_word) != 0 && canonical_version(vw) {
                Some((Some(DeclId(hex_value(id_word) as u64)), dec_value(vw) as u64))
            } else {
                None
            }
        },
        None => if canonical_version(w) {
            Some((None, dec_value(w) as u64))
        } else {
            None
        },
    }
}

/// The value of a number's decimal spelling is the number.
pub proof fn lemma_dec_value_spelling(n: nat)
    ensures
        dec_value(dec_spelling(n)) == n,
    decreases n,
{
    if n < 10 {
        assert(dec_spelling(n).drop_last() =~= Seq::<char>::empty());
        assert(dec_spelling(n).last() == crate::text::digit_char(n));
        assert(crate::text::digit_char(n) as u32 == 48 + n);
        assert(dec_value(Seq::<char>::empty()) == 0);
        assert(dec_value(dec_spelling(n)) == dec_value(dec_spelling(n).drop_last()) * 10 + (
        dec_spelling(n).last() as u32 - 48) as nat);
    } else {
        lemma_dec_value_spelling(n / 10);
        assert(dec_spelling(n).drop_last() == dec_spelling(n / 10));
        assert(dec_spelling(n).last() == crate::text::digit_char(n % 10));
        assert(crate::text::digit_char(n % 10) as u32 == 48 + n % 10);
        assert(dec_value(dec_spelling(n)) == dec_value(dec_spelling(n).drop_last()) * 10 + (
        dec_spelling(n).last() as u32 - 48) as nat);
    }
}

/// The value of a hexadecimal spelling of width `w` is the number modulo 16^w.
pub proof fn lemma_hex_value_width(x: nat, w: nat)
    ensures
        hex_value(crate::text::hex_width(x, w)) == x % crate::text::pow_nat(16, w),
    decreases w,
{
    if w == 0 {
    } else {
        lemma_hex_value_width(x / 16, (w - 1) as nat);
        let hw = crate::text::hex_width(x, w);
        assert(hw.drop_last() == crate::text::hex_width(x / 16, (w - 1) as nat));
        let p = crate::text::pow_nat(16, (w - 1) as nat);
        assert(crate::text::pow_nat(16, w) == 16 * p);
        crate::text::lemma_pow_mono(16, 0, (w - 1) as nat);
        assert(hex_digit_value(crate::text::hex_char(x % 16)) == x % 16);
        assert(((x / 16) % p) * 16 + x % 16 == x % (16 * p)) by (nonlinear_arith)
            requires
                p >= 1,
        {
            vstd::arithmetic::div_mod::lemma_breakdown(x as int, 16, p as int);
        }
    }
}

/// A stamp word reads back as the stamp it records: parsing the word of a positive version,
/// with or without a nonzero declaration id, gives that declaration and version.
pub proof fn lemma_stamp_roundtrip(declaration: Option<DeclId>, version: u64)
    requires
        version >= 1,
        declaration matches Some(id) ==> id.0 != 0,
    ensures
        parse_stamp_spec(stamp_word_spec(declaration, version)) == Some((declaration, version)),
{
    let dv = dec_spelling(version as nat);
    crate::text::lemma_dec_spelling_shape(version as nat);
    lemma_dec_value_spelling(version as nat);
    assert(canonical_version(dv));
    match declaration {
        None => {
            let w = stamp_word_spec(declaration, version);
            assert(w == dv);
            assert(!(exists|i: int| 0 <= i < w.len() && w[i] == '@'));
        },
        Some(id) => {
            let hx = hex16(id.0);
            crate::text::lemma_hex_width_shape(id.0 as nat, 16);
            lemma_hex_value_width(id.0 as nat, 16);
            crate::text::lemma_pow16_16();
            let w = hx + seq!['@'] + dv;
            assert(w == stamp_word_spec(declaration, version));
            assert(w[16] == '@');
            assert forall|j: int| 0 <= j < 16 implies w[j] != '@' by {
                assert(w[j] == hx[j]);
            }
            let c = choose|i: int| 0 <= i < w.len() && w[i] == '@' && forall|j: int| 0 <= j < i ==> w[j] != '@';
            assert(0 <= 16 < w.len() && w[16] == '@' && forall|j: int| 0 <= j < 16 ==> w[j] != '@');
            if c < 16 {
                assert(w[c] == hx[c]);
            } else if c > 16 {
                assert(w[16] != '@');
            }
            assert(first_at(w) == Some(16int));
            assert(w.subrange(0, 16) =~= hx);
            assert(w.subrange(17, w.len() as int) =~= dv);
        },
    }
}

/// Decodes a canonical positive decimal version.
fn parse_version(v: &Vec<char>, from: usize) -> (r: Option<u64>)
    requires
        from <= v@.len(),
    ensures
        r is Some <==> canonical_version(v@.subrange(from as int, v@.len() as int)),
        r matches Some(x) ==> x == dec_value(v@.subrange(from as int, v@.len() as int)),
{
    let ghost w = v@.subrange(from as int, v@.len() as int);
    if from >= v.len() || v[from] == '0' {
        return None;
    }
    let mut acc: u64 = 0;
    let mut k: usize = from;
    while k < v.len()
        invariant
            from <= k <= v@.len(),
            w == v@.subrange(from as int, v@.len() as int),
            forall|i: int| from <= i < k ==> is_digit(#[trigger] v@[i]),
            acc == dec_value(v@.subrange(from as int, k as int)),
        decreases v@.len() - k,
    {
        let c = v[k];
        if !('0' <= c && c <= '9') {
            proof {
                assert(!is_digit(w[k - from]));
            }
            return None;
        }
        let d = (c as u32 - 48) as u64;
        proof {
            assert(v@.subrange(from as int, k + 1).drop_last() =~= v@.subrange(
                from as int,
                k as int,
            ));
        }
        if acc > (u64::MAX - d) / 10 {
            proof {
                lemma_dec_value_monotone(v@, from as int, (k + 1) as int, v@.len() as int);
            }
            return None;
        }
        acc = acc * 10 + d;
        k += 1;
    }
    proof {
        assert(w =~= v@.subrange(from as int, k as int));
    }
    Some(acc)
}

/// A longer digit string never has a smaller value.
pub proof fn lemma_dec_value_monotone(v: Seq<char>, from: int, k: int, n: int)
    requires
        0 <= from <= k <= n <= v.len(),
    ensures
        dec_value(v.subrange(from, k)) <= dec_value(v.subrange(from, n)),
    decreases n - k,
{
    if k < n {
        lemma_dec_value_monotone(v, from, k, n - 1);
        assert(v.subrange(from, n).drop_last() =~= v.subrange(from, n - 1));
    }
}

/// Decodes a sidecar stamp word: an optional 16-hex-digit nonzero declaration id and '@',
/// then a canonical positive version.
pub fn parse_service_stamp(word: &str) -> (r: Option<(Option<DeclId>, u64)>)
    ensures
        r == parse_stamp_spec(word@),
{
    let v = chars_of(word);
    let mut at: usize = 0;
    while at < v.len() && v[at] != '@'
        invariant
            v@ == word@,
            0 <= at <= v@.len(),
            forall|j: int| 0 <= j < at ==> v@[j] != '@',
        decreases v@.len() - at,
    {
        at += 1;
    }
    if at == v.len() {
        proof {
            assert(!(exists|i: int| 0 <= i < word@.len() && word@[i] == '@'));
            assert(v@.subrange(0, v@.len() as int) =~= word@);
        }
        let version = parse_version(&v, 0);
        return match version {
            Some(x) => Some((None, x)),
            None => None,
        };
    }
    proof {
        let w = word@;
        assert(w[at as int] == '@');
        let c = choose|i: int| 0 <= i < w.len() && w[i] == '@' && forall|j: int| 0 <= j < i ==> w[j] != '@';
        assert(0 <= at < w.len() && w[at as int] == '@' && forall|j: int| 0 <= j < at ==> w[j] != '@');
        if c < at {
            assert(w[c] == '@');
        } else if c > at {
            assert(w[at as int] != '@');
        }
        assert(first_at(w) == Some(at as int));
    }
    if at != 16 {
        return None;
    }
    let mut id: u64 = 0;
    let mut k: usize = 0;
    while k < 16
        invariant
            v@ == word@,
            at == 16,
            16 <= v@.len(),
            first_at(word@) == Some(16int),
            0 <= k <= 16,
            forall|i: int| 0 <= i < k ==> is_lower_hex(#[trigger] v@[i]),
            id == hex_value(v@.subrange(0, k as int)),
            id < crate::text::pow_nat(16, k as nat),
        decreases 16 - k,
    {
        let c = v[k];
        let d: u64 = if '0' <= c && c <= '9' {
            (c as u32 - 48) as u64
        } else if 'a' <= c && c <= 'f' {
            (c as u32 - 87) as u64
        } else {
            proof {
                assert(!is_lower_hex(word@.subrange(0, 16)[k as int]));
            }
            return None;
        };
        proof {
            assert(v@.subrange(0, k + 1).drop_last() =~= v@.subrange(0, k as int));
            crate::text::lemma_pow_step(16, k as nat);
            assert(id * 16 + d < crate::text::pow_nat(16, (k + 1) as nat)) by (nonlinear_arith)
                requires
                    id < crate::text::pow_nat(16, k as nat),
                    d < 16,
                    crate::text::pow_nat(16, (k + 1) as nat) == 16 * crate::text::pow_nat(
                        16,
                        k as nat,
                    ),
            ;
            crate::text::lemma_pow16_16();
            crate::text::lemma_pow_mono(16, (k + 1) as nat, 16);
        }
        id = id * 16 + d;
        k += 1;
    }
    if id == 0 {
        return None;
    }
    let version = parse_version(&v, 17);
    proof {
        assert(word@.subrange(0, 16) =~= v@.subrange(0, 16));
    }
    match version {
        Some(x) => Some((Some(DeclId(id)), x)),
        None => None,
    }
}

/* ---------- FNV-1a hashing ---------- */

/// The FNV-1a 64-bit offset basis.
pub const FNV_OFFSET: u64 = 0xcbf29ce484222325;

/// The FNV-1a 64-bit prime.
pub const FNV_PRIME: u64 = 0x100000001b3;

/// FNV-1a over bytes from state `h`: each byte XORed in, then the state multiplied by the
/// prime modulo 2^64.
pub open spec fn fnv(h: u64, b: Seq<u8>) -> u64
    decreases b.len(),
{
    if b.len() == 0 {
        h
    } else {
        fnv(vstd::wrapping::u64_specs::wrapping_mul(h ^ (b[0] as u64), FNV_PRIME), b.skip(1))
    }
}

/// The eight little-endian bytes of a 64-bit word.
pub open spec fn le_bytes(x: u64) -> Seq<u8> {
    seq![
        (x & 0xff) as u8,
        ((x >> 8u64) & 0xff) as u8,
        ((x >> 16u64) & 0xff) as u8,
        ((x >> 24u64) & 0xff) as u8,
        ((x >> 32u64) & 0xff) as u8,
        ((x >> 40u64) & 0xff) as u8,
        ((x >> 48u64) & 0xff) as u8,
        ((x >> 56u64) & 0xff) as u8,
    ]
}

/// Hashing a concatenation is hashing its parts in turn.
pub proof fn lemma_fnv_concat(h: u64, a: Seq<u8>, b: Seq<u8>)
    ensures
        fnv(h, a + b) == fnv(fnv(h, a), b),
    decreases a.len(),
{
    if a.len() > 0 {
        let h1 = vstd::wrapping::u64_specs::wrapping_mul(h ^ (a[0] as u64), FNV_PRIME);
        assert((a + b).skip(1) =~= a.skip(1) + b);
        lemma_fnv_concat(h1, a.skip(1), b);
    } else {
        assert(a + b =~= b);
    }
}

/// The little-endian bytes of a word (`u64::to_le_bytes`).
pub fn le_bytes_of(x: u64) -> (v: Vec<u8>)
    ensures
        v@ == le_bytes(x),
{
    let mut v: Vec<u8> = Vec::new();
    v.push((x & 0xff) as u8);
    v.push(((x >> 8u64) & 0xff) as u8);
    v.push(((x >> 16u64) & 0xff) as u8);
    v.push(((x >> 24u64) & 0xff) as u8);
    v.push(((x >> 32u64) & 0xff) as u8);
    v.push(((x >> 40u64) & 0xff) as u8);
    v.push(((x >> 48u64) & 0xff) as u8);
    v.push(((x >> 56u64) & 0xff) as u8);
    assert(v@ =~= le_bytes(x));
    v
}

/// FNV-1a over bytes from a given state (see `fnv`).
pub fn hash_bytes(hash: u64, bytes: &[u8]) -> (h: u64)
    ensures
        h == fnv(hash, bytes@),
{
    let mut h = hash;
    let mut k: usize = 0;
    assert(bytes@.skip(0) =~= bytes@);
    while k < bytes.len()
        invariant
            0 <= k <= bytes@.len(),
            fnv(h, bytes@.skip(k as int)) == fnv(hash, bytes@),
        decreases bytes@.len() - k,
    {
        proof {
            assert(bytes@.skip(k as int)[0] == bytes@[k as int]);
            assert(bytes@.skip(k as int).skip(1) =~= bytes@.skip(k + 1));
        }
        h = (h ^ (bytes[k] as u64)).wrapping_mul(FNV_PRIME);
        k += 1;
    }
    proof {
        assert(bytes@.skip(k as int) =~= Seq::<u8>::empty());
    }
    h
}

/// A length-prefixed field: the length's little-endian bytes, then the bytes.
pub open spec fn field_hash(h: u64, b: Seq<u8>) -> u64 {
    fnv(fnv(h, le_bytes(b.len() as u64)), b)
}

/// Hashes a length-prefixed field (see `field_hash`).
pub fn hash_field(hash: u64, bytes: &[u8]) -> (h: u64)
    ensures
        h == field_hash(hash, bytes@),
{
    let len = le_bytes_of(bytes.len() as u64);
    let h = hash_bytes(hash, len.as_slice());
    hash_bytes(h, bytes)
}

/// Hashes a text as a length-prefixed field of its UTF-8 bytes.
pub fn hash_text(hash: u64, text: &str) -> (h: u64)
    ensures
        h == field_hash(hash, text.spec_bytes()),
{
    hash_field(hash, text.as_bytes())
}

/// An optional text: a presence byte, then the text's field when present.
pub open spec fn optional_text_hash(h: u64, text: Option<Seq<u8>>) -> u64 {
    match text {
        None => fnv(h, seq![0u8]),
        Some(t) => field_hash(fnv(h, seq![1u8]), t),
    }
}

/// Hashes an optional text (see `optional_text_hash`).
pub fn hash_optional_text(hash: u64, text: &Option<String>) -> (h: u64)
    ensures
        h == optional_text_hash(
            hash,
            match text {
                Some(t) => Some(vstd::utf8::encode_utf8(t@)),
                None => None,
            },
        ),
{
    let mut tag: Vec<u8> = Vec::new();
    match text {
        Some(t) => {
            tag.push(1u8);
            assert(tag@ =~= seq![1u8]);
            let h = hash_bytes(hash, tag.as_slice());
            hash_text(h, t.as_str())
        },
        None => {
            tag.push(0u8);
            assert(tag@ =~= seq![0u8]);
            hash_bytes(hash, tag.as_slice())
        },
    }
}

/// A list of names: its length's little-endian bytes, then each name as a field.
pub open spec fn names_hash_from(h: u64, names: Seq<Seq<u8>>) -> u64
    decreases names.len(),
{
    if names.len() == 0 {
        h
    } else {
        field_hash(names_hash_from(h, names.drop_last()), names.last())
    }
}

/// Hashes a list of names (see `names_hash_from`).
pub fn hash_names(hash: u64, names: &[String]) -> (h: u64)
    ensures
        h == names_hash_from(
            fnv(hash, le_bytes(names@.len() as u64)),
            names@.map_values(|n: String| vstd::utf8::encode_utf8(n@)),
        ),
{
    let len = le_bytes_of(names.len() as u64);
    let mut h = hash_bytes(hash, len.as_slice());
    let ghost h0 = h;
    let ghost all = names@.map_values(|n: String| vstd::utf8::encode_utf8(n@));
    let mut k: usize = 0;
    while k < names.len()
        invariant
            0 <= k <= names@.len(),
            all == names@.map_values(|n: String| vstd::utf8::encode_utf8(n@)),
            h == names_hash_from(h0, all.take(k as int)),
        decreases names@.len() - k,
    {
        proof {
            assert(all.take(k + 1).drop_last() =~= all.take(k as int));
            assert(all.take(k + 1).last() == vstd::utf8::encode_utf8(names@[k as int]@));
        }
        h = hash_text(h, names[k].as_str());
        k += 1;
    }
    proof {
        assert(all.take(k as int) =~= all);
    }
    h
}

/* ---------- resolver inputs ---------- */

/// The order of texts by character codes, which is the byte order of their UTF-8.
pub open spec fn text_lt(a: Seq<char>, b: Seq<char>) -> bool
    decreases a.len(),
{
    if a.len() == 0 {
        b.len() > 0
    } else if b.len() == 0 {
        false
    } else if a[0] != b[0] {
        a[0] < b[0]
    } else {
        text_lt(a.skip(1), b.skip(1))
    }
}

/// `text_lt` is irreflexive.
pub proof fn lemma_text_lt_irreflexive(a: Seq<char>)
    ensures
        !text_lt(a, a),
    decreases a.len(),
{
    if a.len() > 0 {
        lemma_text_lt_irreflexive(a.skip(1));
    }
}

/// `text_lt` is transitive.
pub proof fn lemma_text_lt_transitive(a: Seq<char>, b: Seq<char>, c: Seq<char>)
    requires
        text_lt(a, b),
        text_lt(b, c),
    ensures
        text_lt(a, c),
    decreases a.len(),
{
    if a.len() > 0 && b.len() > 0 && c.len() > 0 && a[0] == b[0] && b[0] == c[0] {
        lemma_text_lt_transitive(a.skip(1), b.skip(1), c.skip(1));
    }
}

/// Two different texts are ordered one way or the other.
pub proof fn lemma_text_lt_total(a: Seq<char>, b: Seq<char>)
    requires
        a != b,
    ensures
        text_lt(a, b) || text_lt(b, a),
    decreases a.len(),
{
    if a.len() > 0 && b.len() > 0 && a[0] == b[0] {
        if a.skip(1) == b.skip(1) {
            assert(a =~= seq![a[0]] + a.skip(1));
            assert(b =~= seq![b[0]] + b.skip(1));
        }
        lemma_text_lt_total(a.skip(1), b.skip(1));
    } else if a.len() == 0 && b.len() == 0 {
        assert(a =~= b);
    }
}

/// Compares two texts (see `text_lt`).
pub fn text_less(a: &str, b: &str) -> (r: bool)
    ensures
        r == text_lt(a@, b@),
{
    let x = chars_of(a);
    let y = chars_of(b);
    let mut k: usize = 0;
    proof {
        assert(x@.skip(0) =~= x@);
        assert(y@.skip(0) =~= y@);
    }
    while k < x.len() && k < y.len() && x[k] == y[k]
        invariant
            x@ == a@,
            y@ == b@,
            0 <= k <= x@.len(),
            k <= y@.len(),
            text_lt(a@, b@) == text_lt(x@.skip(k as int), y@.skip(k as int)),
        decreases x@.len() - k,
    {
        proof {
            assert(x@.skip(k as int).skip(1) =~= x@.skip(k + 1));
            assert(y@.skip(k as int).skip(1) =~= y@.skip(k + 1));
        }
        k += 1;
    }
    if k >= x.len() {
        return k < y.len();
    }
    if k >= y.len() {
        return false;
    }
    proof {
        assert(x@.skip(k as int)[0] == x@[k as int]);
        assert(y@.skip(k as int)[0] == y@[k as int]);
    }
    x[k] < y[k]
}

/// The texts of key/value pairs.
pub open spec fn pair_texts(v: Seq<(String, String)>) -> Seq<(Seq<char>, Seq<char>)> {
    v.map_values(|p: (String, String)| (p.0@, p.1@))
}

/// The refusal among the first `n` host input pairs, in order: a key that is not a
/// single-line token, a key holding '=', a value that is not a single-line token, or a key
/// given twice; `None` when they are all admissible.
pub open spec fn pair_refusal(pairs: Seq<(Seq<char>, Seq<char>)>, n: int) -> Option<Seq<char>>
    decreases n,
{
    if n <= 0 {
        None
    } else {
        match pair_refusal(pairs, n - 1) {
            Some(e) => Some(e),
            None => {
                let k = pairs[n - 1].0;
                let v = pairs[n - 1].1;
                if !token_shaped(k) {
                    Some(alias_fail_text("resolver input key must be a nonempty single-line token"@))
                } else if k.contains('=') {
                    Some(alias_fail_text("resolver input key cannot contain '='"@))
                } else if !token_shaped(v) {
                    Some(alias_fail_text("resolver input value must be a nonempty single-line token"@))
                } else if exists|j: int| 0 <= j < n - 1 && (#[trigger] pairs[j]).0 == k {
                    Some(alias_fail_text("duplicate resolver input '"@ + k + "'"@))
                } else {
                    None
                }
            },
        }
    }
}

/// Strictly increasing keys.
pub open spec fn keys_sorted(v: Seq<(Seq<char>, Seq<char>)>) -> bool {
    forall|i: int, j: int| 0 <= i < j < v.len() ==> text_lt(#[trigger] v[i].0, #[trigger] v[j].0)
}

fn has_char(s: &str, c: char) -> (r: bool)
    ensures
        r == s@.contains(c),
{
    let v = chars_of(s);
    let mut k: usize = 0;
    while k < v.len()
        invariant
            v@ == s@,
            0 <= k <= v@.len(),
            forall|j: int| 0 <= j < k ==> v@[j] != c,
        decreases v@.len() - k,
    {
        if v[k] == c {
            proof {
                assert(s@[k as int] == c);
            }
            return true;
        }
        k += 1;
    }
    false
}

/// The frozen resolver inputs: the host's pairs keyed and ordered by key, or the first
/// refusal (see `pair_refusal`); a key given twice is an error, never a merge.
pub fn input_pairs(pairs: &[(String, String)]) -> (r: Result<Vec<(String, String)>, Diag>)
    ensures
        match r {
            Err(d) => d.code == 2 && pair_refusal(pair_texts(pairs@), pairs@.len() as int) == Some(d.msg@),
            Ok(v) => {
                &&& pair_refusal(pair_texts(pairs@), pairs@.len() as int) is None
                &&& keys_sorted(pair_texts(v@))
                &&& pair_texts(v@).len() == pairs@.len()
                &&& forall|k: int| 0 <= k < pairs@.len() ==> pair_texts(v@).contains(#[trigger] pair_texts(pairs@)[k])
                &&& forall|k: int| 0 <= k < v@.len() ==> pair_texts(pairs@).contains(#[trigger] pair_texts(v@)[k])
            },
        },
{
    let ghost ps = pair_texts(pairs@);
    let mut out: Vec<(String, String)> = Vec::new();
    let mut n: usize = 0;
    while n < pairs.len()
        invariant
            ps == pair_texts(pairs@),
            0 <= n <= pairs@.len(),
            pair_refusal(ps, n as int) is None,
            keys_sorted(pair_texts(out@)),
            pair_texts(out@).len() == n,
            forall|k: int| 0 <= k < n ==> pair_texts(out@).contains(#[trigger] ps[k]),
            forall|k: int| 0 <= k < out@.len() ==> exists|j: int| 0 <= j < n && #[trigger] pair_texts(out@)[k] == ps[j],
        decreases pairs@.len() - n,
    {
        let key = &pairs[n].0;
        let value = &pairs[n].1;
        proof {
            assert(ps[n as int] == (key@, value@));
        }
        match validate_name(key.as_str(), "resolver input key") {
            Err(d) => {
                proof {
                    reveal_strlit("resolver input key");
                    reveal_strlit(" must be a nonempty single-line token");
                    assert(d.msg@ =~= alias_fail_text("resolver input key must be a nonempty single-line token"@)) by {
                        reveal_strlit("resolver input key must be a nonempty single-line token");
                    }
                    lemma_pair_refusal_stays(ps, n + 1, pairs@.len() as int);
                }
                return Err(d);
            },
            Ok(_) => {},
        }
        if has_char(key.as_str(), '=') {
            let d = fail("resolver input key cannot contain '='");
            proof {
                lemma_pair_refusal_stays(ps, n + 1, pairs@.len() as int);
            }
            return Err(d);
        }
        match validate_name(value.as_str(), "resolver input value") {
            Err(d) => {
                proof {
                    reveal_strlit("resolver input value");
                    reveal_strlit(" must be a nonempty single-line token");
                    assert(d.msg@ =~= alias_fail_text("resolver input value must be a nonempty single-line token"@)) by {
                        reveal_strlit("resolver input value must be a nonempty single-line token");
                    }
                    lemma_pair_refusal_stays(ps, n + 1, pairs@.len() as int);
                }
                return Err(d);
            },
            Ok(_) => {},
        }
        let ghost ov = pair_texts(out@);
        let mut pos: usize = 0;
        while pos < out.len() && text_less(out[pos].0.as_str(), key.as_str())
            invariant
                ov == pair_texts(out@),
                0 <= pos <= out@.len(),
                forall|i: int| 0 <= i < pos ==> text_lt(#[trigger] ov[i].0, key@),
            decreases out@.len() - pos,
        {
            pos += 1;
        }
        if pos < out.len() && same_text(out[pos].0.as_str(), key.as_str()) {
            let m = cat("duplicate resolver input '", key.as_str());
            let m = cat(m.as_str(), "'");
            let d = fail(m.as_str());
            proof {
                let j = choose|j: int| 0 <= j < n && ov[pos as int] == ps[j];
                assert(ps[j].0 == key@);
                lemma_pair_refusal_stays(ps, n + 1, pairs@.len() as int);
            }
            return Err(d);
        }
        proof {
            if pos < ov.len() {
                lemma_text_lt_total(ov[pos as int].0, key@);
            }
            assert forall|j: int| 0 <= j < n implies (#[trigger] ps[j]).0 != key@ by {
                assert(ov.contains(ps[j]));
                let i = choose|i: int| 0 <= i < ov.len() && ov[i] == ps[j];
                if i < pos {
                    lemma_text_lt_irreflexive(key@);
                } else {
                    if i > pos {
                        lemma_text_lt_transitive(key@, ov[pos as int].0, ov[i].0);
                    }
                    lemma_text_lt_irreflexive(key@);
                }
            }
        }
        let entry = (String::from_str(key.as_str()), String::from_str(value.as_str()));
        out.insert(pos, entry);
        proof {
            let nv = pair_texts(out@);
            assert(nv =~= ov.insert(pos as int, (key@, value@)));
            assert forall|m: int| pos <= m < ov.len() implies text_lt(key@, #[trigger] ov[m].0) by {
                if m > pos {
                    lemma_text_lt_transitive(key@, ov[pos as int].0, ov[m].0);
                }
            }
            assert forall|i: int, j: int| 0 <= i < j < nv.len() implies text_lt(#[trigger] nv[i].0, #[trigger] nv[j].0) by {
                if j < pos {
                } else if j == pos {
                } else if i < pos {
                    lemma_text_lt_transitive(ov[i].0, key@, ov[j - 1].0);
                } else if i == pos {
                } else {
                }
            }
            assert forall|k: int| 0 <= k < n + 1 implies nv.contains(#[trigger] ps[k]) by {
                if k == n {
                    assert(nv[pos as int] == ps[k]);
                } else {
                    let i = choose|i: int| 0 <= i < ov.len() && ov[i] == ps[k];
                    if i < pos {
                        assert(nv[i] == ps[k]);
                    } else {
                        assert(nv[i + 1] == ps[k]);
                    }
                }
            }
            assert forall|k: int| 0 <= k < nv.len() implies exists|j: int| 0 <= j < n + 1 && #[trigger] nv[k] == ps[j] by {
                if k == pos {
                    assert(nv[k] == ps[n as int]);
                } else if k < pos {
                    assert(nv[k] == ov[k]);
                } else {
                    assert(nv[k] == ov[k - 1]);
                }
            }
        }
        n += 1;
    }
    proof {
        assert forall|k: int| 0 <= k < out@.len() implies ps.contains(#[trigger] pair_texts(out@)[k]) by {
            let j = choose|j: int| 0 <= j < n && pair_texts(out@)[k] == ps[j];
        }
    }
    Ok(out)
}

proof fn lemma_pair_refusal_stays(pairs: Seq<(Seq<char>, Seq<char>)>, a: int, b: int)
    requires
        0 <= a <= b,
        pair_refusal(pairs, a) is Some,
    ensures
        pair_refusal(pairs, b) == pair_refusal(pairs, a),
    decreases b - a,
{
    if a < b {
        lemma_pair_refusal_stays(pairs, a, b - 1);
    }
}

/// The frozen host-input events one resolver target was installed against: the overlay
/// version at which the snapshot became visible, and the key/value pairs the resolver may
/// read besides the registry, ordered by key with no key twice (as `input_pairs` makes them).
#[derive(Debug, Clone, PartialEq)]
pub struct HostInput {
    pub version: u64,
    pub pairs: Vec<(String, String)>,
}

impl HostInput {
    /// The pairs are ordered by key, no key twice.
    pub open spec fn wf(&self) -> bool {
        keys_sorted(pair_texts(self.pairs@))
    }

    /// The value stored under `key`, if any.
    pub fn get(&self, key: &str) -> (r: Option<&str>)
        ensures
            match r {
                Some(v) => exists|k: int|
                    0 <= k < self.pairs@.len() && #[trigger] pair_texts(self.pairs@)[k] == (key@, v@),
                None => forall|k: int|
                    0 <= k < self.pairs@.len() ==> (#[trigger] pair_texts(self.pairs@)[k]).0 != key@,
            },
    {
        let mut k: usize = 0;
        while k < self.pairs.len()
            invariant
                0 <= k <= self.pairs@.len(),
                forall|j: int| 0 <= j < k ==> (#[trigger] pair_texts(self.pairs@)[j]).0 != key@,
            decreases self.pairs@.len() - k,
        {
            if same_text(self.pairs[k].0.as_str(), key) {
                let v = self.pairs[k].1.as_str();
                proof {
                    assert(pair_texts(self.pairs@)[k as int] == (key@, v@));
                }
                return Some(v);
            }
            k += 1;
        }
        None
    }
}

} // verus!
