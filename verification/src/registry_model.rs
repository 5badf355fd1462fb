//! The loaded world as plain values: every declaration with its descriptors, the world values
//! each holds (numbers as the bit patterns of their `f64` values), the spelling-alias table,
//! the roles and the reclamation policy; and the registry's structural fingerprint, the schema
//! identity that sidecars, manifests and stamped handles carry; and the save line, one line of
//! world values piped back from a run into the registry.
use vstd::prelude::*;
use vstd::utf8::encode_utf8;
use vstd::arithmetic::div_mod::{lemma_mul_mod_noop_left, lemma_mul_mod_noop_right, lemma_small_mod};
use vstd::arithmetic::mul::lemma_mul_is_associative;
use crate::{AliasRow, BindKind, ColType, Diag, Reap, ANO_NAMESZ};
use crate::directives::{Cursor, words_at, word_at, after_word, lossy, lemma_cursor_bounds};
use crate::text::{lossy_text, cat, int_spelling, i64_text};
use crate::alias::{names_eq, names_eq_spec};
use crate::lex::{nul_cut, first_nul, nul_len};
use crate::alias::AliasCarrier;
use crate::overlay::{EntryRole, RegistryView, ViewEntry};
use crate::alias::{
    FNV_OFFSET, FNV_PRIME, lemma_fnv_concat, fnv, le_bytes, le_bytes_of, hash_bytes, hash_text, hash_optional_text, field_hash,
    optional_text_hash,
};

verus! {

/// One proto field pair: the column's canonical name, the value word as written, and the
/// value's bit pattern.
#[derive(Debug, Clone)]
pub struct ProtoFieldModel {
    pub col: String,
    pub spelling: String,
    pub num: u64,
}

/// What a registry entry means, with its world values.
#[derive(Debug, Clone)]
pub enum EntryKindModel {
    /// An entity column: type, declared uniqueness, values, symbol values, optional presence
    /// mask, declared value range.
    Col { ty: ColType, uniq: bool, nums: Vec<u64>, syms: Vec<String>, pres: Option<Vec<u64>>, rng: Option<(u64, u64)> },
    /// A lattice field.
    Field { ty: ColType, nums: Vec<u64>, syms: Vec<String>, rng: Option<(u64, u64)> },
    /// A functional relation: one target per row, keyed by a declared unique column or not.
    Rel { targets: Vec<u64>, key_of: Option<String> },
    /// A set-valued relation: one fiber per row; an inverse read names its relation.
    SRel { fib: Vec<Vec<u64>>, inv_of: Option<String>, key_of: Option<String> },
    /// A stored static alias mask.
    AliasMask { mask: Vec<u64> },
    /// A named binding.
    Bind { kind: BindKind, vals: Vec<u64> },
    /// A registered function and its body as written.
    Fn { body: Option<String> },
    /// A derived tag over a carrier column.
    Tag { col: String, carrier_ty: ColType, num: u64, sym: Option<String> },
    /// A registered archetype.
    Proto { fields: Vec<ProtoFieldModel> },
}

/// One registry entry: its name, its default value's bit pattern, and its meaning.
#[derive(Debug, Clone)]
pub struct EntryModel {
    pub name: String,
    pub defval: u64,
    pub kind: EntryKindModel,
}

/// The loaded world: the row count, the lattice size, the entries in declaration order, the
/// spelling-alias table, the roles as written, and the reclamation policy.
#[derive(Debug, Clone)]
pub struct RegistryModel {
    pub n: i32,
    pub lat_w: i32,
    pub lat_h: i32,
    pub ents: Vec<EntryModel>,
    pub aliases: Vec<AliasRow>,
    pub roles: Vec<(String, String)>,
    pub reap: Option<Reap>,
}

/// What an entry means, as the specification reads it.
pub ghost enum KindSpec {
    Col { ty: ColType, uniq: bool, nums: Seq<u64>, syms: Seq<Seq<char>>, pres: Option<Seq<u64>>, rng: Option<(u64, u64)> },
    Field { ty: ColType, nums: Seq<u64>, syms: Seq<Seq<char>>, rng: Option<(u64, u64)> },
    Rel { targets: Seq<u64>, key_of: Option<Seq<char>> },
    SRel { fib: Seq<Seq<u64>>, inv_of: Option<Seq<char>>, key_of: Option<Seq<char>> },
    AliasMask { mask: Seq<u64> },
    Bind { kind: BindKind, vals: Seq<u64> },
    Fn { body: Option<Seq<char>> },
    Tag { col: Seq<char>, carrier_ty: ColType, num: u64, sym: Option<Seq<char>> },
    Proto { fields: Seq<(Seq<char>, Seq<char>, u64)> },
}

/// An entry as the specification reads it.
pub ghost struct EntrySpec {
    pub name: Seq<char>,
    pub defval: u64,
    pub kind: KindSpec,
}

/// The registry as the specification reads it.
pub ghost struct RegistrySpec {
    pub n: i32,
    pub lat_w: i32,
    pub lat_h: i32,
    pub ents: Seq<EntrySpec>,
    pub aliases: Seq<(Seq<char>, Seq<char>, bool)>,
    pub roles: Seq<(Seq<char>, Seq<char>)>,
    pub reap: Option<Reap>,
}

/// The text of an optional string.
pub open spec fn opt_view(o: Option<String>) -> Option<Seq<char>> {
    match o {
        Some(s) => Some(s@),
        None => None,
    }
}

impl View for EntryKindModel {
    type V = KindSpec;

    open spec fn view(&self) -> KindSpec {
        match self {
            EntryKindModel::Col { ty, uniq, nums, syms, pres, rng } => KindSpec::Col {
                ty: *ty,
                uniq: *uniq,
                nums: nums@,
                syms: syms@.map_values(|s: String| s@),
                pres: match pres {
                    Some(p) => Some(p@),
                    None => None,
                },
                rng: *rng,
            },
            EntryKindModel::Field { ty, nums, syms, rng } => KindSpec::Field {
                ty: *ty,
                nums: nums@,
                syms: syms@.map_values(|s: String| s@),
                rng: *rng,
            },
            EntryKindModel::Rel { targets, key_of } => KindSpec::Rel { targets: targets@, key_of: opt_view(*key_of) },
            EntryKindModel::SRel { fib, inv_of, key_of } => KindSpec::SRel {
                fib: fib@.map_values(|f: Vec<u64>| f@),
                inv_of: opt_view(*inv_of),
                key_of: opt_view(*key_of),
            },
            EntryKindModel::AliasMask { mask } => KindSpec::AliasMask { mask: mask@ },
            EntryKindModel::Bind { kind, vals } => KindSpec::Bind { kind: *kind, vals: vals@ },
            EntryKindModel::Fn { body } => KindSpec::Fn { body: opt_view(*body) },
            EntryKindModel::Tag { col, carrier_ty, num, sym } => KindSpec::Tag {
                col: col@,
                carrier_ty: *carrier_ty,
                num: *num,
                sym: opt_view(*sym),
            },
            EntryKindModel::Proto { fields } => KindSpec::Proto {
                fields: fields@.map_values(|f: ProtoFieldModel| (f.col@, f.spelling@, f.num)),
            },
        }
    }
}

impl View for EntryModel {
    type V = EntrySpec;

    open spec fn view(&self) -> EntrySpec {
        EntrySpec { name: self.name@, defval: self.defval, kind: self.kind@ }
    }
}

impl View for RegistryModel {
    type V = RegistrySpec;

    open spec fn view(&self) -> RegistrySpec {
        RegistrySpec {
            n: self.n,
            lat_w: self.lat_w,
            lat_h: self.lat_h,
            ents: self.ents@.map_values(|e: EntryModel| e@),
            aliases: self.aliases@.map_values(|r: AliasRow| (r.from@, r.to@, r.ja)),
            roles: self.roles@.map_values(|r: (String, String)| (r.0@, r.1@)),
            reap: self.reap,
        }
    }
}

/* ---------- the structural fingerprint ---------- */

/// The bit pattern of negative zero.
pub const NEG_ZERO_BITS: u64 = 0x8000000000000000;

/// A number's hashed bits: both zeros hash as positive zero.
pub open spec fn number_bits(b: u64) -> u64 {
    if b == NEG_ZERO_BITS {
        0
    } else {
        b
    }
}

/// A number: the little-endian bytes of its hashed bits.
pub open spec fn number_hash(h: u64, b: u64) -> u64 {
    fnv(h, le_bytes(number_bits(b)))
}

/// A declared range: a presence byte, then its bounds as numbers.
pub open spec fn range_hash(h: u64, r: Option<(u64, u64)>) -> u64 {
    match r {
        None => fnv(h, seq![0u8]),
        Some((lo, hi)) => number_hash(number_hash(fnv(h, seq![1u8]), lo), hi),
    }
}

/// An element type's code, in declaration order.
pub open spec fn col_code(t: ColType) -> u8 {
    match t {
        ColType::Num => 0,
        ColType::Bool => 1,
        ColType::Nat => 2,
        ColType::Int => 3,
        ColType::Sym => 4,
        ColType::Char => 5,
    }
}

/// A binding kind's code, in declaration order.
pub open spec fn bind_code(k: BindKind) -> u8 {
    match k {
        BindKind::Entity => 0,
        BindKind::Mask => 1,
        BindKind::Point => 2,
        BindKind::Num => 3,
        BindKind::Vec => 4,
    }
}

/// A boolean's byte.
pub open spec fn bool_byte(b: bool) -> u8 {
    if b {
        1
    } else {
        0
    }
}

/// The UTF-8 bytes of an optional text.
pub open spec fn opt_bytes(o: Option<Seq<char>>) -> Option<Seq<u8>> {
    match o {
        Some(t) => Some(encode_utf8(t)),
        None => None,
    }
}

/// The proto fields: each column name and spelling as a field, then its number.
pub open spec fn proto_hash(h: u64, fs: Seq<(Seq<char>, Seq<char>, u64)>) -> u64
    decreases fs.len(),
{
    if fs.len() == 0 {
        h
    } else {
        let f = fs.last();
        number_hash(field_hash(field_hash(proto_hash(h, fs.drop_last()), encode_utf8(f.0)), encode_utf8(f.1)), f.2)
    }
}

/// What an entry's meaning contributes: its descriptors, never its world values.
pub open spec fn kind_hash(h: u64, k: KindSpec) -> u64 {
    match k {
        KindSpec::Col { ty, uniq, pres, rng, .. } => range_hash(
            fnv(fnv(h, seq![0x10u8, col_code(ty), bool_byte(uniq), bool_byte(pres is Some)]), seq![0u8]),
            rng,
        ),
        KindSpec::Field { ty, rng, .. } => range_hash(fnv(fnv(h, seq![0x20u8, col_code(ty)]), seq![0u8]), rng),
        KindSpec::Rel { key_of, .. } => optional_text_hash(fnv(h, seq![0x30u8]), opt_bytes(key_of)),
        KindSpec::SRel { inv_of, key_of, .. } => optional_text_hash(
            optional_text_hash(fnv(h, seq![0x40u8]), opt_bytes(inv_of)),
            opt_bytes(key_of),
        ),
        KindSpec::AliasMask { .. } => fnv(h, seq![0x50u8]),
        KindSpec::Bind { kind, .. } => fnv(h, seq![0x60u8, bind_code(kind)]),
        KindSpec::Fn { body } => optional_text_hash(fnv(h, seq![0x70u8]), opt_bytes(body)),
        KindSpec::Tag { col, carrier_ty, num, sym } => optional_text_hash(
            number_hash(field_hash(fnv(h, seq![0x80u8, col_code(carrier_ty)]), encode_utf8(col)), num),
            opt_bytes(sym),
        ),
        KindSpec::Proto { fields } => proto_hash(fnv(fnv(h, seq![0x90u8]), le_bytes(fields.len() as u64)), fields),
    }
}

/// One entry: its name as a field, its default value, its meaning, and a closing 0xFF.
pub open spec fn entry_hash(h: u64, e: EntrySpec) -> u64 {
    fnv(kind_hash(number_hash(field_hash(h, encode_utf8(e.name)), e.defval), e.kind), seq![0xffu8])
}

/// The entries in declaration order.
pub open spec fn entries_hash(h: u64, es: Seq<EntrySpec>) -> u64
    decreases es.len(),
{
    if es.len() == 0 {
        h
    } else {
        entry_hash(entries_hash(h, es.drop_last()), es.last())
    }
}

/// The spelling-alias rows: each surface word and entry name as a field, then the surface
/// byte.
pub open spec fn aliases_hash(h: u64, rows: Seq<(Seq<char>, Seq<char>, bool)>) -> u64
    decreases rows.len(),
{
    if rows.len() == 0 {
        h
    } else {
        let r = rows.last();
        fnv(field_hash(field_hash(aliases_hash(h, rows.drop_last()), encode_utf8(r.0)), encode_utf8(r.1)), seq![bool_byte(r.2)])
    }
}

/// The roles: each role word and column word as a field.
pub open spec fn roles_hash(h: u64, rows: Seq<(Seq<char>, Seq<char>)>) -> u64
    decreases rows.len(),
{
    if rows.len() == 0 {
        h
    } else {
        let r = rows.last();
        field_hash(field_hash(roles_hash(h, rows.drop_last()), encode_utf8(r.0)), encode_utf8(r.1))
    }
}

/// The little-endian bytes of a 32-bit signed value.
pub open spec fn le32(x: i32) -> Seq<u8> {
    let u = x as u32;
    seq![(u & 0xff) as u8, ((u >> 8u32) & 0xff) as u8, ((u >> 16u32) & 0xff) as u8, ((u >> 24u32) & 0xff) as u8]
}

/// The reclamation policy's byte.
pub open spec fn reap_code(r: Option<Reap>) -> u8 {
    match r {
        None => 0,
        Some(Reap::Seal) => 1,
        Some(Reap::Host) => 2,
    }
}

/// The structural fingerprint: FNV-1a from its offset over the tag
/// "ano-schema-fingerprint-v2", the lattice size, every entry, the alias table and the roles
/// (each list after its length), and the reclamation policy. World values and the row count
/// take no part.
pub open spec fn fingerprint_spec(r: RegistrySpec) -> u64 {
    let h0 = fnv(FNV_OFFSET, encode_utf8("ano-schema-fingerprint-v2"@));
    let h1 = fnv(fnv(h0, le32(r.lat_w)), le32(r.lat_h));
    let h2 = entries_hash(h1, r.ents);
    let h3 = aliases_hash(fnv(h2, le_bytes(r.aliases.len() as u64)), r.aliases);
    let h4 = roles_hash(fnv(h3, le_bytes(r.roles.len() as u64)), r.roles);
    fnv(h4, seq![reap_code(r.reap)])
}

/// Two meanings that differ at most in their world values: the same kind with the same
/// descriptors (types, uniqueness, whether a presence mask exists, ranges, keys, inverse
/// names, binding kinds, bodies, tag and proto declarations).
pub open spec fn same_descriptor(a: KindSpec, b: KindSpec) -> bool {
    match (a, b) {
        (KindSpec::Col { ty: t1, uniq: u1, pres: p1, rng: r1, .. }, KindSpec::Col { ty: t2, uniq: u2, pres: p2, rng: r2, .. }) =>
            t1 == t2 && u1 == u2 && (p1 is Some) == (p2 is Some) && r1 == r2,
        (KindSpec::Field { ty: t1, rng: r1, .. }, KindSpec::Field { ty: t2, rng: r2, .. }) => t1 == t2 && r1 == r2,
        (KindSpec::Rel { key_of: k1, .. }, KindSpec::Rel { key_of: k2, .. }) => k1 == k2,
        (KindSpec::SRel { inv_of: i1, key_of: k1, .. }, KindSpec::SRel { inv_of: i2, key_of: k2, .. }) => i1 == i2 && k1 == k2,
        (KindSpec::AliasMask { .. }, KindSpec::AliasMask { .. }) => true,
        (KindSpec::Bind { kind: k1, .. }, KindSpec::Bind { kind: k2, .. }) => k1 == k2,
        _ => a == b,
    }
}

/// Two registries that differ at most in their world values and row count.
pub open spec fn same_schema(a: RegistrySpec, b: RegistrySpec) -> bool {
    &&& a.lat_w == b.lat_w
    &&& a.lat_h == b.lat_h
    &&& a.ents.len() == b.ents.len()
    &&& forall|k: int|
        0 <= k < a.ents.len() ==> (#[trigger] a.ents[k]).name == b.ents[k].name && a.ents[k].defval
            == b.ents[k].defval && same_descriptor(a.ents[k].kind, b.ents[k].kind)
    &&& a.aliases == b.aliases
    &&& a.roles == b.roles
    &&& a.reap == b.reap
}

proof fn lemma_entries_hash_schema(h: u64, a: Seq<EntrySpec>, b: Seq<EntrySpec>)
    requires
        a.len() == b.len(),
        forall|k: int|
            0 <= k < a.len() ==> (#[trigger] a[k]).name == b[k].name && a[k].defval == b[k].defval
                && same_descriptor(a[k].kind, b[k].kind),
    ensures
        entries_hash(h, a) == entries_hash(h, b),
    decreases a.len(),
{
    if a.len() > 0 {
        lemma_entries_hash_schema(h, a.drop_last(), b.drop_last());
        let x = a.last();
        let y = b.last();
        assert(x == a[a.len() - 1]);
        let g = number_hash(field_hash(entries_hash(h, a.drop_last()), encode_utf8(x.name)), x.defval);
        assert(kind_hash(g, x.kind) == kind_hash(g, y.kind));
    }
}

/// The fingerprint ignores world values: registries that differ only in their values and
/// their row count have the same fingerprint.
pub proof fn lemma_fingerprint_ignores_world_values(a: RegistrySpec, b: RegistrySpec)
    requires
        same_schema(a, b),
    ensures
        fingerprint_spec(a) == fingerprint_spec(b),
{
    let h0 = fnv(FNV_OFFSET, encode_utf8("ano-schema-fingerprint-v2"@));
    let h1 = fnv(fnv(h0, le32(a.lat_w)), le32(a.lat_h));
    lemma_entries_hash_schema(h1, a.ents, b.ents);
}

/* ---------- what the fingerprint tells apart ---------- */

/// Two byte strings of one length that differ in exactly one byte.
pub open spec fn one_byte_apart(a: Seq<u8>, b: Seq<u8>) -> bool {
    &&& a.len() == b.len()
    &&& exists|j: int|
        0 <= j < a.len() && a[j] != b[j] && forall|i: int| 0 <= i < a.len() && i != j ==> #[trigger] a[i] == b[i]
}

/// One FNV-1a step: the byte XORed in, then the product with the prime modulo 2^64.
spec fn fnv_step(h: u64, x: u8) -> u64 {
    vstd::wrapping::u64_specs::wrapping_mul(h ^ (x as u64), FNV_PRIME)
}

proof fn lemma_prime_mul_undo(x: u64)
    ensures
        ((vstd::wrapping::u64_specs::wrapping_mul(x, FNV_PRIME) as int) * 0xce965057aff6957b) % 0x1_0000_0000_0000_0000
            == x as int,
{
    let m: int = 0x1_0000_0000_0000_0000;
    let p: int = FNV_PRIME as int;
    let q: int = 0xce965057aff6957b;
    assert(p * q % m == 1) by (nonlinear_arith)
        requires
            p == 0x100000001b3,
            q == 0xce965057aff6957b,
            m == 0x1_0000_0000_0000_0000,
    ;
    let w = vstd::wrapping::u64_specs::wrapping_mul(x, FNV_PRIME);
    assert(w as int == (x as int * p) % m);
    lemma_mul_mod_noop_left(x as int * p, q, m);
    lemma_mul_is_associative(x as int, p, q);
    lemma_mul_mod_noop_right(x as int, p * q, m);
    assert(x as int * 1 == x as int);
    lemma_small_mod(x as nat, m as nat);
}

/// Multiplying by the (odd) FNV prime modulo 2^64 is invertible.
proof fn lemma_prime_mul_injective(x: u64, y: u64)
    requires
        vstd::wrapping::u64_specs::wrapping_mul(x, FNV_PRIME) == vstd::wrapping::u64_specs::wrapping_mul(y, FNV_PRIME),
    ensures
        x == y,
{
    lemma_prime_mul_undo(x);
    lemma_prime_mul_undo(y);
}

proof fn lemma_step_injective(g: u64, h: u64, x: u8, y: u8)
    ensures
        fnv_step(g, x) == fnv_step(h, y) && x == y ==> g == h,
        fnv_step(g, x) == fnv_step(h, y) && g == h ==> x == y,
{
    if fnv_step(g, x) == fnv_step(h, y) {
        lemma_prime_mul_injective(g ^ (x as u64), h ^ (y as u64));
        assert((g ^ (x as u64)) == (h ^ (y as u64)) && x == y ==> g == h) by (bit_vector);
        assert((g ^ (x as u64)) == (h ^ (y as u64)) && g == h ==> x == y) by (bit_vector);
    }
}

/// FNV-1a over fixed bytes tells its starting states apart.
proof fn lemma_fnv_injective(g: u64, h: u64, b: Seq<u8>)
    requires
        fnv(g, b) == fnv(h, b),
    ensures
        g == h,
    decreases b.len(),
{
    if b.len() > 0 {
        lemma_fnv_injective(fnv_step(g, b[0]), fnv_step(h, b[0]), b.skip(1));
        lemma_step_injective(g, h, b[0], b[0]);
    }
}

proof fn lemma_fnv_one(g: u64, x: u8)
    ensures
        fnv(g, seq![x]) == fnv_step(g, x),
{
    assert(seq![x].skip(1) =~= Seq::<u8>::empty());
    assert(seq![x][0] == x);
    assert(fnv(fnv_step(g, x), Seq::<u8>::empty()) == fnv_step(g, x));
}

/// Two role rows that differ in one byte of one word's spelling hash apart from one state.
proof fn lemma_role_rows_apart(x: u64, ra: (Seq<char>, Seq<char>), rb: (Seq<char>, Seq<char>))
    requires
        (ra.0 == rb.0 && one_byte_apart(encode_utf8(ra.1), encode_utf8(rb.1)))
            || (ra.1 == rb.1 && one_byte_apart(encode_utf8(ra.0), encode_utf8(rb.0))),
    ensures
        field_hash(field_hash(x, encode_utf8(ra.0)), encode_utf8(ra.1)) != field_hash(
            field_hash(x, encode_utf8(rb.0)),
            encode_utf8(rb.1),
        ),
{
    let ka = field_hash(field_hash(x, encode_utf8(ra.0)), encode_utf8(ra.1));
    let kb = field_hash(field_hash(x, encode_utf8(rb.0)), encode_utf8(rb.1));
    if ra.0 == rb.0 && one_byte_apart(encode_utf8(ra.1), encode_utf8(rb.1)) {
        let y = field_hash(x, encode_utf8(ra.0));
        lemma_fnv_one_byte_apart(fnv(y, le_bytes(encode_utf8(ra.1).len() as u64)), encode_utf8(ra.1), encode_utf8(rb.1));
    } else {
        lemma_fnv_one_byte_apart(fnv(x, le_bytes(encode_utf8(ra.0).len() as u64)), encode_utf8(ra.0), encode_utf8(rb.0));
        if ka == kb {
            lemma_field_hash_injective(
                field_hash(x, encode_utf8(ra.0)),
                field_hash(x, encode_utf8(rb.0)),
                encode_utf8(ra.1),
            );
        }
    }
}

/// FNV-1a from one state tells apart two byte strings that differ in exactly one byte.
proof fn lemma_fnv_one_byte_apart(h: u64, a: Seq<u8>, b: Seq<u8>)
    requires
        one_byte_apart(a, b),
    ensures
        fnv(h, a) != fnv(h, b),
{
    let j = choose|j: int|
        0 <= j < a.len() && a[j] != b[j] && forall|i: int| 0 <= i < a.len() && i != j ==> #[trigger] a[i] == b[i];
    let pre = a.take(j);
    assert(b.take(j) =~= pre);
    let post = a.skip(j + 1);
    assert(b.skip(j + 1) =~= post);
    assert(a =~= pre + (seq![a[j]] + post));
    assert(b =~= pre + (seq![b[j]] + post));
    lemma_fnv_concat(h, pre, seq![a[j]] + post);
    lemma_fnv_concat(h, pre, seq![b[j]] + post);
    let g = fnv(h, pre);
    lemma_fnv_concat(g, seq![a[j]], post);
    lemma_fnv_concat(g, seq![b[j]], post);
    lemma_fnv_one(g, a[j]);
    lemma_fnv_one(g, b[j]);
    if fnv(h, a) == fnv(h, b) {
        lemma_fnv_injective(fnv_step(g, a[j]), fnv_step(g, b[j]), post);
        lemma_step_injective(g, g, a[j], b[j]);
    }
}

proof fn lemma_field_hash_injective(g: u64, h: u64, b: Seq<u8>)
    requires
        field_hash(g, b) == field_hash(h, b),
    ensures
        g == h,
{
    lemma_fnv_injective(fnv(g, le_bytes(b.len() as u64)), fnv(h, le_bytes(b.len() as u64)), b);
    lemma_fnv_injective(g, h, le_bytes(b.len() as u64));
}

proof fn lemma_roles_hash_concat(h: u64, x: Seq<(Seq<char>, Seq<char>)>, y: Seq<(Seq<char>, Seq<char>)>)
    ensures
        roles_hash(h, x + y) == roles_hash(roles_hash(h, x), y),
    decreases y.len(),
{
    if y.len() == 0 {
        assert(x + y =~= x);
    } else {
        assert((x + y).drop_last() =~= x + y.drop_last());
        assert((x + y).last() == y.last());
        lemma_roles_hash_concat(h, x, y.drop_last());
    }
}

proof fn lemma_roles_hash_injective(g: u64, h: u64, y: Seq<(Seq<char>, Seq<char>)>)
    requires
        roles_hash(g, y) == roles_hash(h, y),
    ensures
        g == h,
    decreases y.len(),
{
    if y.len() > 0 {
        let r = y.last();
        let a = field_hash(roles_hash(g, y.drop_last()), encode_utf8(r.0));
        let b = field_hash(roles_hash(h, y.drop_last()), encode_utf8(r.0));
        lemma_field_hash_injective(a, b, encode_utf8(r.1));
        lemma_field_hash_injective(roles_hash(g, y.drop_last()), roles_hash(h, y.drop_last()), encode_utf8(r.0));
        lemma_roles_hash_injective(g, h, y.drop_last());
    }
}

proof fn lemma_number_hash_injective(g: u64, h: u64, b: u64)
    requires
        number_hash(g, b) == number_hash(h, b),
    ensures
        g == h,
{
    lemma_fnv_injective(g, h, le_bytes(number_bits(b)));
}

proof fn lemma_range_hash_injective(g: u64, h: u64, r: Option<(u64, u64)>)
    requires
        range_hash(g, r) == range_hash(h, r),
    ensures
        g == h,
{
    match r {
        None => lemma_fnv_injective(g, h, seq![0u8]),
        Some((lo, hi)) => {
            lemma_number_hash_injective(number_hash(fnv(g, seq![1u8]), lo), number_hash(fnv(h, seq![1u8]), lo), hi);
            lemma_number_hash_injective(fnv(g, seq![1u8]), fnv(h, seq![1u8]), lo);
            lemma_fnv_injective(g, h, seq![1u8]);
        },
    }
}

proof fn lemma_optional_text_injective(g: u64, h: u64, t: Option<Seq<u8>>)
    requires
        optional_text_hash(g, t) == optional_text_hash(h, t),
    ensures
        g == h,
{
    match t {
        None => lemma_fnv_injective(g, h, seq![0u8]),
        Some(b) => {
            lemma_field_hash_injective(fnv(g, seq![1u8]), fnv(h, seq![1u8]), b);
            lemma_fnv_injective(g, h, seq![1u8]);
        },
    }
}

proof fn lemma_proto_hash_injective(g: u64, h: u64, fs: Seq<(Seq<char>, Seq<char>, u64)>)
    requires
        proto_hash(g, fs) == proto_hash(h, fs),
    ensures
        g == h,
    decreases fs.len(),
{
    if fs.len() > 0 {
        let f = fs.last();
        let a = proto_hash(g, fs.drop_last());
        let b = proto_hash(h, fs.drop_last());
        lemma_number_hash_injective(
            field_hash(field_hash(a, encode_utf8(f.0)), encode_utf8(f.1)),
            field_hash(field_hash(b, encode_utf8(f.0)), encode_utf8(f.1)),
            f.2,
        );
        lemma_field_hash_injective(field_hash(a, encode_utf8(f.0)), field_hash(b, encode_utf8(f.0)), encode_utf8(f.1));
        lemma_field_hash_injective(a, b, encode_utf8(f.0));
        lemma_proto_hash_injective(g, h, fs.drop_last());
    }
}

proof fn lemma_kind_hash_injective(g: u64, h: u64, k: KindSpec)
    requires
        kind_hash(g, k) == kind_hash(h, k),
    ensures
        g == h,
{
    match k {
        KindSpec::Col { ty, uniq, pres, rng, .. } => {
            let b4 = seq![0x10u8, col_code(ty), bool_byte(uniq), bool_byte(pres is Some)];
            lemma_range_hash_injective(fnv(fnv(g, b4), seq![0u8]), fnv(fnv(h, b4), seq![0u8]), rng);
            lemma_fnv_injective(fnv(g, b4), fnv(h, b4), seq![0u8]);
            lemma_fnv_injective(g, h, b4);
        },
        KindSpec::Field { ty, rng, .. } => {
            let b2 = seq![0x20u8, col_code(ty)];
            lemma_range_hash_injective(fnv(fnv(g, b2), seq![0u8]), fnv(fnv(h, b2), seq![0u8]), rng);
            lemma_fnv_injective(fnv(g, b2), fnv(h, b2), seq![0u8]);
            lemma_fnv_injective(g, h, b2);
        },
        KindSpec::Rel { key_of, .. } => {
            lemma_optional_text_injective(fnv(g, seq![0x30u8]), fnv(h, seq![0x30u8]), opt_bytes(key_of));
            lemma_fnv_injective(g, h, seq![0x30u8]);
        },
        KindSpec::SRel { inv_of, key_of, .. } => {
            let a = optional_text_hash(fnv(g, seq![0x40u8]), opt_bytes(inv_of));
            let b = optional_text_hash(fnv(h, seq![0x40u8]), opt_bytes(inv_of));
            lemma_optional_text_injective(a, b, opt_bytes(key_of));
            lemma_optional_text_injective(fnv(g, seq![0x40u8]), fnv(h, seq![0x40u8]), opt_bytes(inv_of));
            lemma_fnv_injective(g, h, seq![0x40u8]);
        },
        KindSpec::AliasMask { .. } => lemma_fnv_injective(g, h, seq![0x50u8]),
        KindSpec::Bind { kind, .. } => lemma_fnv_injective(g, h, seq![0x60u8, bind_code(kind)]),
        KindSpec::Fn { body } => {
            lemma_optional_text_injective(fnv(g, seq![0x70u8]), fnv(h, seq![0x70u8]), opt_bytes(body));
            lemma_fnv_injective(g, h, seq![0x70u8]);
        },
        KindSpec::Tag { col, carrier_ty, num, sym } => {
            let b2 = seq![0x80u8, col_code(carrier_ty)];
            let a = number_hash(field_hash(fnv(g, b2), encode_utf8(col)), num);
            let b = number_hash(field_hash(fnv(h, b2), encode_utf8(col)), num);
            lemma_optional_text_injective(a, b, opt_bytes(sym));
            lemma_number_hash_injective(field_hash(fnv(g, b2), encode_utf8(col)), field_hash(fnv(h, b2), encode_utf8(col)), num);
            lemma_field_hash_injective(fnv(g, b2), fnv(h, b2), encode_utf8(col));
            lemma_fnv_injective(g, h, b2);
        },
        KindSpec::Proto { fields } => {
            let l = le_bytes(fields.len() as u64);
            lemma_proto_hash_injective(fnv(fnv(g, seq![0x90u8]), l), fnv(fnv(h, seq![0x90u8]), l), fields);
            lemma_fnv_injective(fnv(g, seq![0x90u8]), fnv(h, seq![0x90u8]), l);
            lemma_fnv_injective(g, h, seq![0x90u8]);
        },
    }
}

proof fn lemma_entry_hash_injective(g: u64, h: u64, e: EntrySpec)
    requires
        entry_hash(g, e) == entry_hash(h, e),
    ensures
        g == h,
{
    let a = number_hash(field_hash(g, encode_utf8(e.name)), e.defval);
    let b = number_hash(field_hash(h, encode_utf8(e.name)), e.defval);
    lemma_fnv_injective(kind_hash(a, e.kind), kind_hash(b, e.kind), seq![0xffu8]);
    lemma_kind_hash_injective(a, b, e.kind);
    lemma_number_hash_injective(field_hash(g, encode_utf8(e.name)), field_hash(h, encode_utf8(e.name)), e.defval);
    lemma_field_hash_injective(g, h, encode_utf8(e.name));
}

proof fn lemma_entries_hash_concat(h: u64, x: Seq<EntrySpec>, y: Seq<EntrySpec>)
    ensures
        entries_hash(h, x + y) == entries_hash(entries_hash(h, x), y),
    decreases y.len(),
{
    if y.len() == 0 {
        assert(x + y =~= x);
    } else {
        assert((x + y).drop_last() =~= x + y.drop_last());
        assert((x + y).last() == y.last());
        lemma_entries_hash_concat(h, x, y.drop_last());
    }
}

proof fn lemma_entries_hash_injective(g: u64, h: u64, y: Seq<EntrySpec>)
    requires
        entries_hash(g, y) == entries_hash(h, y),
    ensures
        g == h,
    decreases y.len(),
{
    if y.len() > 0 {
        lemma_entry_hash_injective(entries_hash(g, y.drop_last()), entries_hash(h, y.drop_last()), y.last());
        lemma_entries_hash_injective(g, h, y.drop_last());
    }
}

proof fn lemma_aliases_hash_injective(g: u64, h: u64, y: Seq<(Seq<char>, Seq<char>, bool)>)
    requires
        aliases_hash(g, y) == aliases_hash(h, y),
    ensures
        g == h,
    decreases y.len(),
{
    if y.len() > 0 {
        let r = y.last();
        let a = field_hash(field_hash(aliases_hash(g, y.drop_last()), encode_utf8(r.0)), encode_utf8(r.1));
        let b = field_hash(field_hash(aliases_hash(h, y.drop_last()), encode_utf8(r.0)), encode_utf8(r.1));
        lemma_fnv_injective(a, b, seq![bool_byte(r.2)]);
        lemma_field_hash_injective(
            field_hash(aliases_hash(g, y.drop_last()), encode_utf8(r.0)),
            field_hash(aliases_hash(h, y.drop_last()), encode_utf8(r.0)),
            encode_utf8(r.1),
        );
        lemma_field_hash_injective(aliases_hash(g, y.drop_last()), aliases_hash(h, y.drop_last()), encode_utf8(r.0));
        lemma_aliases_hash_injective(g, h, y.drop_last());
    }
}

/// Everything the fingerprint hashes after the entries tells the entries' states apart.
proof fn lemma_after_entries_injective(a: RegistrySpec, b: RegistrySpec, ha: u64, hb: u64)
    requires
        a.aliases == b.aliases,
        a.roles == b.roles,
        a.reap == b.reap,
        ha != hb,
    ensures
        fnv(
            roles_hash(fnv(aliases_hash(fnv(ha, le_bytes(a.aliases.len() as u64)), a.aliases), le_bytes(a.roles.len() as u64)), a.roles),
            seq![reap_code(a.reap)],
        ) != fnv(
            roles_hash(fnv(aliases_hash(fnv(hb, le_bytes(b.aliases.len() as u64)), b.aliases), le_bytes(b.roles.len() as u64)), b.roles),
            seq![reap_code(b.reap)],
        ),
{
    let la = le_bytes(a.aliases.len() as u64);
    let lr = le_bytes(a.roles.len() as u64);
    let x3a = aliases_hash(fnv(ha, la), a.aliases);
    let x3b = aliases_hash(fnv(hb, la), a.aliases);
    let x4a = roles_hash(fnv(x3a, lr), a.roles);
    let x4b = roles_hash(fnv(x3b, lr), a.roles);
    if fnv(x4a, seq![reap_code(a.reap)]) == fnv(x4b, seq![reap_code(a.reap)]) {
        lemma_fnv_injective(x4a, x4b, seq![reap_code(a.reap)]);
        lemma_roles_hash_injective(fnv(x3a, lr), fnv(x3b, lr), a.roles);
        lemma_fnv_injective(x3a, x3b, lr);
        lemma_aliases_hash_injective(fnv(ha, la), fnv(hb, la), a.aliases);
        lemma_fnv_injective(ha, hb, la);
    }
}

/// The fingerprint sees every declaration's name: two registries alike in all else whose
/// declarations differ only in one declaration's name, and there in one byte of its UTF-8
/// spelling, have different fingerprints.
#[verifier::rlimit(60)]
#[verifier::spinoff_prover]
pub proof fn lemma_fingerprint_sees_names(a: RegistrySpec, b: RegistrySpec, k: int)
    requires
        a.lat_w == b.lat_w,
        a.lat_h == b.lat_h,
        a.aliases == b.aliases,
        a.roles == b.roles,
        a.reap == b.reap,
        a.ents.len() == b.ents.len(),
        0 <= k < a.ents.len(),
        forall|i: int| 0 <= i < a.ents.len() && i != k ==> a.ents[i] == b.ents[i],
        a.ents[k].defval == b.ents[k].defval,
        a.ents[k].kind == b.ents[k].kind,
        one_byte_apart(encode_utf8(a.ents[k].name), encode_utf8(b.ents[k].name)),
    ensures
        fingerprint_spec(a) != fingerprint_spec(b),
{
    let h0 = fnv(FNV_OFFSET, encode_utf8("ano-schema-fingerprint-v2"@));
    let h1 = fnv(fnv(h0, le32(a.lat_w)), le32(a.lat_h));
    let pre = a.ents.take(k);
    let post = a.ents.skip(k + 1);
    let ea = a.ents[k];
    let eb = b.ents[k];
    assert(b.ents.take(k) =~= pre);
    assert(b.ents.skip(k + 1) =~= post);
    assert(a.ents =~= (pre + seq![ea]) + post);
    assert(b.ents =~= (pre + seq![eb]) + post);
    lemma_entries_hash_concat(h1, pre + seq![ea], post);
    lemma_entries_hash_concat(h1, pre + seq![eb], post);
    assert((pre + seq![ea]).drop_last() =~= pre);
    assert((pre + seq![eb]).drop_last() =~= pre);
    let x = entries_hash(h1, pre);
    let ka = entries_hash(h1, pre + seq![ea]);
    let kb = entries_hash(h1, pre + seq![eb]);
    assert(ka == entry_hash(x, ea));
    assert(kb == entry_hash(x, eb));
    lemma_fnv_one_byte_apart(fnv(x, le_bytes(encode_utf8(ea.name).len() as u64)), encode_utf8(ea.name), encode_utf8(eb.name));
    if ka == kb {
        let na = field_hash(x, encode_utf8(ea.name));
        let nb = field_hash(x, encode_utf8(eb.name));
        lemma_fnv_injective(
            kind_hash(number_hash(na, ea.defval), ea.kind),
            kind_hash(number_hash(nb, ea.defval), ea.kind),
            seq![0xffu8],
        );
        lemma_kind_hash_injective(number_hash(na, ea.defval), number_hash(nb, ea.defval), ea.kind);
        lemma_number_hash_injective(na, nb, ea.defval);
    }
    let ha = entries_hash(h1, a.ents);
    let hb = entries_hash(h1, b.ents);
    if ha == hb {
        lemma_entries_hash_injective(ka, kb, post);
    }
    lemma_after_entries_injective(a, b, ha, hb);
}

proof fn lemma_aliases_hash_concat(h: u64, x: Seq<(Seq<char>, Seq<char>, bool)>, y: Seq<(Seq<char>, Seq<char>, bool)>)
    ensures
        aliases_hash(h, x + y) == aliases_hash(aliases_hash(h, x), y),
    decreases y.len(),
{
    if y.len() == 0 {
        assert(x + y =~= x);
    } else {
        assert((x + y).drop_last() =~= x + y.drop_last());
        assert((x + y).last() == y.last());
        lemma_aliases_hash_concat(h, x, y.drop_last());
    }
}

/// Two spelling-alias rows that differ in one byte of one word, or only in their surface
/// flag, hash apart from one state.
proof fn lemma_alias_rows_apart(x: u64, ra: (Seq<char>, Seq<char>, bool), rb: (Seq<char>, Seq<char>, bool))
    requires
        (ra.0 == rb.0 && ra.2 == rb.2 && one_byte_apart(encode_utf8(ra.1), encode_utf8(rb.1)))
            || (ra.1 == rb.1 && ra.2 == rb.2 && one_byte_apart(encode_utf8(ra.0), encode_utf8(rb.0)))
            || (ra.0 == rb.0 && ra.1 == rb.1 && ra.2 != rb.2),
    ensures
        fnv(field_hash(field_hash(x, encode_utf8(ra.0)), encode_utf8(ra.1)), seq![bool_byte(ra.2)]) != fnv(
            field_hash(field_hash(x, encode_utf8(rb.0)), encode_utf8(rb.1)),
            seq![bool_byte(rb.2)],
        ),
{
    let ka = field_hash(field_hash(x, encode_utf8(ra.0)), encode_utf8(ra.1));
    let kb = field_hash(field_hash(x, encode_utf8(rb.0)), encode_utf8(rb.1));
    lemma_fnv_one(ka, bool_byte(ra.2));
    lemma_fnv_one(kb, bool_byte(rb.2));
    if ra.0 == rb.0 && ra.1 == rb.1 {
        lemma_step_injective(ka, kb, bool_byte(ra.2), bool_byte(rb.2));
    } else {
        lemma_role_rows_apart(x, (ra.0, ra.1), (rb.0, rb.1));
        if fnv_step(ka, bool_byte(ra.2)) == fnv_step(kb, bool_byte(rb.2)) {
            lemma_step_injective(ka, kb, bool_byte(ra.2), bool_byte(rb.2));
        }
    }
}

/// The fingerprint sees every spelling-alias row: two registries alike in all else whose
/// alias tables differ only in one row, there in one byte of the UTF-8 spelling of one of
/// its two words or only in its surface flag, have different fingerprints.
#[verifier::rlimit(60)]
#[verifier::spinoff_prover]
pub proof fn lemma_fingerprint_sees_aliases(a: RegistrySpec, b: RegistrySpec, k: int)
    requires
        a.lat_w == b.lat_w,
        a.lat_h == b.lat_h,
        a.ents == b.ents,
        a.roles == b.roles,
        a.reap == b.reap,
        a.aliases.len() == b.aliases.len(),
        0 <= k < a.aliases.len(),
        forall|i: int| 0 <= i < a.aliases.len() && i != k ==> a.aliases[i] == b.aliases[i],
        (a.aliases[k].0 == b.aliases[k].0 && a.aliases[k].2 == b.aliases[k].2 && one_byte_apart(
            encode_utf8(a.aliases[k].1),
            encode_utf8(b.aliases[k].1),
        )) || (a.aliases[k].1 == b.aliases[k].1 && a.aliases[k].2 == b.aliases[k].2 && one_byte_apart(
            encode_utf8(a.aliases[k].0),
            encode_utf8(b.aliases[k].0),
        )) || (a.aliases[k].0 == b.aliases[k].0 && a.aliases[k].1 == b.aliases[k].1 && a.aliases[k].2
            != b.aliases[k].2),
    ensures
        fingerprint_spec(a) != fingerprint_spec(b),
{
    let h0 = fnv(FNV_OFFSET, encode_utf8("ano-schema-fingerprint-v2"@));
    let h1 = fnv(fnv(h0, le32(a.lat_w)), le32(a.lat_h));
    let h2 = entries_hash(h1, a.ents);
    let hs = fnv(h2, le_bytes(a.aliases.len() as u64));
    let pre = a.aliases.take(k);
    let post = a.aliases.skip(k + 1);
    let ra = a.aliases[k];
    let rb = b.aliases[k];
    assert(b.aliases.take(k) =~= pre);
    assert(b.aliases.skip(k + 1) =~= post);
    assert(a.aliases =~= (pre + seq![ra]) + post);
    assert(b.aliases =~= (pre + seq![rb]) + post);
    lemma_aliases_hash_concat(hs, pre + seq![ra], post);
    lemma_aliases_hash_concat(hs, pre + seq![rb], post);
    assert((pre + seq![ra]).drop_last() =~= pre);
    assert((pre + seq![rb]).drop_last() =~= pre);
    let x = aliases_hash(hs, pre);
    let ka = aliases_hash(hs, pre + seq![ra]);
    let kb = aliases_hash(hs, pre + seq![rb]);
    lemma_alias_rows_apart(x, ra, rb);
    let fa = aliases_hash(hs, a.aliases);
    let fb = aliases_hash(hs, b.aliases);
    if fa == fb {
        lemma_aliases_hash_injective(ka, kb, post);
    }
    let lr = le_bytes(a.roles.len() as u64);
    let x4a = roles_hash(fnv(fa, lr), a.roles);
    let x4b = roles_hash(fnv(fb, lr), a.roles);
    if fnv(x4a, seq![reap_code(a.reap)]) == fnv(x4b, seq![reap_code(a.reap)]) {
        lemma_fnv_injective(x4a, x4b, seq![reap_code(a.reap)]);
        lemma_roles_hash_injective(fnv(fa, lr), fnv(fb, lr), a.roles);
        lemma_fnv_injective(fa, fb, lr);
    }
}

/// The fingerprint sees a column's descriptors: two registries alike in all else whose
/// declarations differ only in one column's element type, or only in whether it is unique,
/// or only in whether it has a presence mask (its values aside), have different fingerprints.
#[verifier::rlimit(60)]
#[verifier::spinoff_prover]
pub proof fn lemma_fingerprint_sees_column_descriptors(a: RegistrySpec, b: RegistrySpec, k: int)
    requires
        a.lat_w == b.lat_w,
        a.lat_h == b.lat_h,
        a.aliases == b.aliases,
        a.roles == b.roles,
        a.reap == b.reap,
        a.ents.len() == b.ents.len(),
        0 <= k < a.ents.len(),
        forall|i: int| 0 <= i < a.ents.len() && i != k ==> a.ents[i] == b.ents[i],
        a.ents[k].name == b.ents[k].name,
        a.ents[k].defval == b.ents[k].defval,
        a.ents[k].kind matches KindSpec::Col { ty: t1, uniq: u1, pres: p1, rng: r1, .. } && b.ents[k].kind matches KindSpec::Col {
            ty: t2,
            uniq: u2,
            pres: p2,
            rng: r2,
            ..
        } && r1 == r2 && ((t1 != t2 && u1 == u2 && (p1 is Some) == (p2 is Some)) || (t1 == t2 && u1 != u2 && (p1 is Some)
            == (p2 is Some)) || (t1 == t2 && u1 == u2 && (p1 is Some) != (p2 is Some))),
    ensures
        fingerprint_spec(a) != fingerprint_spec(b),
{
    let h0 = fnv(FNV_OFFSET, encode_utf8("ano-schema-fingerprint-v2"@));
    let h1 = fnv(fnv(h0, le32(a.lat_w)), le32(a.lat_h));
    let pre = a.ents.take(k);
    let post = a.ents.skip(k + 1);
    let ea = a.ents[k];
    let eb = b.ents[k];
    assert(b.ents.take(k) =~= pre);
    assert(b.ents.skip(k + 1) =~= post);
    assert(a.ents =~= (pre + seq![ea]) + post);
    assert(b.ents =~= (pre + seq![eb]) + post);
    lemma_entries_hash_concat(h1, pre + seq![ea], post);
    lemma_entries_hash_concat(h1, pre + seq![eb], post);
    assert((pre + seq![ea]).drop_last() =~= pre);
    assert((pre + seq![eb]).drop_last() =~= pre);
    let x = entries_hash(h1, pre);
    let ka = entries_hash(h1, pre + seq![ea]);
    let kb = entries_hash(h1, pre + seq![eb]);
    assert(ka == entry_hash(x, ea));
    assert(kb == entry_hash(x, eb));
    let g = number_hash(field_hash(x, encode_utf8(ea.name)), ea.defval);
    if let (KindSpec::Col { ty: t1, uniq: u1, pres: p1, rng, .. }, KindSpec::Col { ty: t2, uniq: u2, pres: p2, .. }) = (ea.kind, eb.kind) {
        let ba = seq![0x10u8, col_code(t1), bool_byte(u1), bool_byte(p1 is Some)];
        let bb = seq![0x10u8, col_code(t2), bool_byte(u2), bool_byte(p2 is Some)];
        assert(t1 != t2 ==> col_code(t1) != col_code(t2));
        assert(one_byte_apart(ba, bb)) by {
            if t1 != t2 {
                assert(forall|i: int| 0 <= i < 4 && i != 1 ==> #[trigger] ba[i] == bb[i]);
                assert(ba[1] != bb[1]);
            } else if u1 != u2 {
                assert(forall|i: int| 0 <= i < 4 && i != 2 ==> #[trigger] ba[i] == bb[i]);
                assert(ba[2] != bb[2]);
            } else {
                assert(forall|i: int| 0 <= i < 4 && i != 3 ==> #[trigger] ba[i] == bb[i]);
                assert(ba[3] != bb[3]);
            }
        }
        lemma_fnv_one_byte_apart(g, ba, bb);
        let ca = fnv(fnv(g, ba), seq![0u8]);
        let cb = fnv(fnv(g, bb), seq![0u8]);
        if ca == cb {
            lemma_fnv_injective(fnv(g, ba), fnv(g, bb), seq![0u8]);
        }
        if range_hash(ca, rng) == range_hash(cb, rng) {
            lemma_range_hash_injective(ca, cb, rng);
        }
        assert(kind_hash(g, ea.kind) == range_hash(ca, rng));
        assert(kind_hash(g, eb.kind) == range_hash(cb, rng));
        if ka == kb {
            lemma_fnv_injective(kind_hash(g, ea.kind), kind_hash(g, eb.kind), seq![0xffu8]);
        }
    }
    let ha = entries_hash(h1, a.ents);
    let hb = entries_hash(h1, b.ents);
    if ha == hb {
        lemma_entries_hash_injective(ka, kb, post);
    }
    lemma_after_entries_injective(a, b, ha, hb);
}

/// The fingerprint sees the reclamation policy: two registries alike in all else with
/// different policies have different fingerprints.
pub proof fn lemma_fingerprint_sees_reap(a: RegistrySpec, b: RegistrySpec)
    requires
        a.lat_w == b.lat_w,
        a.lat_h == b.lat_h,
        a.ents == b.ents,
        a.aliases == b.aliases,
        a.roles == b.roles,
        a.reap != b.reap,
    ensures
        fingerprint_spec(a) != fingerprint_spec(b),
{
    let h0 = fnv(FNV_OFFSET, encode_utf8("ano-schema-fingerprint-v2"@));
    let h1 = fnv(fnv(h0, le32(a.lat_w)), le32(a.lat_h));
    let h2 = entries_hash(h1, a.ents);
    let h3 = aliases_hash(fnv(h2, le_bytes(a.aliases.len() as u64)), a.aliases);
    let h4 = roles_hash(fnv(h3, le_bytes(a.roles.len() as u64)), a.roles);
    lemma_fnv_one(h4, reap_code(a.reap));
    lemma_fnv_one(h4, reap_code(b.reap));
    assert(reap_code(a.reap) != reap_code(b.reap));
    lemma_step_injective(h4, h4, reap_code(a.reap), reap_code(b.reap));
}

/// The fingerprint sees both words of every role row: two registries alike in all else, whose
/// role tables differ only in one row, and there only in one byte of the UTF-8 spelling of
/// the row's role word or of its column word, have different fingerprints.
#[verifier::rlimit(60)]
#[verifier::spinoff_prover]
pub proof fn lemma_fingerprint_sees_roles(a: RegistrySpec, b: RegistrySpec, k: int)
    requires
        a.lat_w == b.lat_w,
        a.lat_h == b.lat_h,
        a.ents == b.ents,
        a.aliases == b.aliases,
        a.reap == b.reap,
        a.roles.len() == b.roles.len(),
        0 <= k < a.roles.len(),
        forall|i: int| 0 <= i < a.roles.len() && i != k ==> a.roles[i] == b.roles[i],
        (a.roles[k].0 == b.roles[k].0 && one_byte_apart(encode_utf8(a.roles[k].1), encode_utf8(b.roles[k].1)))
            || (a.roles[k].1 == b.roles[k].1 && one_byte_apart(encode_utf8(a.roles[k].0), encode_utf8(b.roles[k].0))),
    ensures
        fingerprint_spec(a) != fingerprint_spec(b),
{
    let h0 = fnv(FNV_OFFSET, encode_utf8("ano-schema-fingerprint-v2"@));
    let h1 = fnv(fnv(h0, le32(a.lat_w)), le32(a.lat_h));
    let h2 = entries_hash(h1, a.ents);
    let h3 = aliases_hash(fnv(h2, le_bytes(a.aliases.len() as u64)), a.aliases);
    let hs = fnv(h3, le_bytes(a.roles.len() as u64));
    let pre = a.roles.take(k);
    let post = a.roles.skip(k + 1);
    let ra = a.roles[k];
    let rb = b.roles[k];
    assert(b.roles.take(k) =~= pre);
    assert(b.roles.skip(k + 1) =~= post);
    assert(a.roles =~= (pre + seq![ra]) + post);
    assert(b.roles =~= (pre + seq![rb]) + post);
    lemma_roles_hash_concat(hs, pre + seq![ra], post);
    lemma_roles_hash_concat(hs, pre + seq![rb], post);
    assert((pre + seq![ra]).drop_last() =~= pre);
    assert((pre + seq![rb]).drop_last() =~= pre);
    let x = roles_hash(hs, pre);
    let ka = roles_hash(hs, pre + seq![ra]);
    let kb = roles_hash(hs, pre + seq![rb]);
    assert(ka == field_hash(field_hash(x, encode_utf8(ra.0)), encode_utf8(ra.1)));
    assert(kb == field_hash(field_hash(x, encode_utf8(rb.0)), encode_utf8(rb.1)));
    lemma_role_rows_apart(x, ra, rb);
    let fa = roles_hash(hs, a.roles);
    let fb = roles_hash(hs, b.roles);
    if fa == fb {
        lemma_roles_hash_injective(ka, kb, post);
    }
    assert(fa != fb);
    lemma_fnv_one(fa, reap_code(a.reap));
    lemma_fnv_one(fb, reap_code(a.reap));
    assert(fingerprint_spec(a) == fnv_step(fa, reap_code(a.reap)));
    assert(fingerprint_spec(b) == fnv_step(fb, reap_code(a.reap)));
    lemma_step_injective(fa, fb, reap_code(a.reap), reap_code(a.reap));
}

fn col_byte(t: ColType) -> (b: u8)
    ensures
        b == col_code(t),
{
    match t {
        ColType::Num => 0,
        ColType::Bool => 1,
        ColType::Nat => 2,
        ColType::Int => 3,
        ColType::Sym => 4,
        ColType::Char => 5,
    }
}

fn bind_byte(k: BindKind) -> (b: u8)
    ensures
        b == bind_code(k),
{
    match k {
        BindKind::Entity => 0,
        BindKind::Mask => 1,
        BindKind::Point => 2,
        BindKind::Num => 3,
        BindKind::Vec => 4,
    }
}

fn flag_byte(b: bool) -> (r: u8)
    ensures
        r == bool_byte(b),
{
    if b {
        1
    } else {
        0
    }
}

fn hash1(h: u64, a: u8) -> (r: u64)
    ensures
        r == fnv(h, seq![a]),
{
    let v = vec![a];
    assert(v@ =~= seq![a]);
    hash_bytes(h, v.as_slice())
}

fn hash2(h: u64, a: u8, b: u8) -> (r: u64)
    ensures
        r == fnv(h, seq![a, b]),
{
    let v = vec![a, b];
    assert(v@ =~= seq![a, b]);
    hash_bytes(h, v.as_slice())
}

fn hash4(h: u64, a: u8, b: u8, c: u8, d: u8) -> (r: u64)
    ensures
        r == fnv(h, seq![a, b, c, d]),
{
    let v = vec![a, b, c, d];
    assert(v@ =~= seq![a, b, c, d]);
    hash_bytes(h, v.as_slice())
}

fn hash_number(h: u64, b: u64) -> (r: u64)
    ensures
        r == number_hash(h, b),
{
    let bits = if b == NEG_ZERO_BITS {
        0
    } else {
        b
    };
    let v = le_bytes_of(bits);
    hash_bytes(h, v.as_slice())
}

fn hash_range(h: u64, r: Option<(u64, u64)>) -> (out: u64)
    ensures
        out == range_hash(h, r),
{
    match r {
        None => hash1(h, 0u8),
        Some((lo, hi)) => {
            let h1 = hash1(h, 1u8);
            let h2 = hash_number(h1, lo);
            hash_number(h2, hi)
        },
    }
}

fn hash_opt(h: u64, o: &Option<String>) -> (r: u64)
    ensures
        r == optional_text_hash(h, opt_bytes(opt_view(*o))),
{
    hash_optional_text(h, o)
}

fn hash_proto(h: u64, fs: &Vec<ProtoFieldModel>) -> (r: u64)
    ensures
        r == proto_hash(h, fs@.map_values(|f: ProtoFieldModel| (f.col@, f.spelling@, f.num))),
{
    let ghost all = fs@.map_values(|f: ProtoFieldModel| (f.col@, f.spelling@, f.num));
    let mut acc = h;
    let mut k: usize = 0;
    while k < fs.len()
        invariant
            0 <= k <= fs@.len(),
            all == fs@.map_values(|f: ProtoFieldModel| (f.col@, f.spelling@, f.num)),
            acc == proto_hash(h, all.take(k as int)),
        decreases fs@.len() - k,
    {
        proof {
            assert(all.take(k + 1).drop_last() =~= all.take(k as int));
        }
        let a = hash_text(acc, fs[k].col.as_str());
        let b = hash_text(a, fs[k].spelling.as_str());
        acc = hash_number(b, fs[k].num);
        k += 1;
    }
    proof {
        assert(all.take(k as int) =~= all);
    }
    acc
}

fn hash_kind(h: u64, k: &EntryKindModel) -> (r: u64)
    ensures
        r == kind_hash(h, k@),
{
    match k {
        EntryKindModel::Col { ty, uniq, pres, rng, .. } => {
            let h1 = hash4(h, 0x10u8, col_byte(*ty), flag_byte(*uniq), flag_byte(pres.is_some()));
            let h2 = hash1(h1, 0u8);
            hash_range(h2, *rng)
        },
        EntryKindModel::Field { ty, rng, .. } => {
            let h1 = hash2(h, 0x20u8, col_byte(*ty));
            let h2 = hash1(h1, 0u8);
            hash_range(h2, *rng)
        },
        EntryKindModel::Rel { key_of, .. } => {
            let h1 = hash1(h, 0x30u8);
            hash_opt(h1, key_of)
        },
        EntryKindModel::SRel { inv_of, key_of, .. } => {
            let h1 = hash1(h, 0x40u8);
            let h2 = hash_opt(h1, inv_of);
            hash_opt(h2, key_of)
        },
        EntryKindModel::AliasMask { .. } => hash1(h, 0x50u8),
        EntryKindModel::Bind { kind, .. } => hash2(h, 0x60u8, bind_byte(*kind)),
        EntryKindModel::Fn { body } => {
            let h1 = hash1(h, 0x70u8);
            hash_opt(h1, body)
        },
        EntryKindModel::Tag { col, carrier_ty, num, sym } => {
            let h1 = hash2(h, 0x80u8, col_byte(*carrier_ty));
            let h2 = hash_text(h1, col.as_str());
            let h3 = hash_number(h2, *num);
            hash_opt(h3, sym)
        },
        EntryKindModel::Proto { fields } => {
            let h1 = hash1(h, 0x90u8);
            let len = le_bytes_of(fields.len() as u64);
            let h2 = hash_bytes(h1, len.as_slice());
            hash_proto(h2, fields)
        },
    }
}

fn hash_entry(h: u64, e: &EntryModel) -> (r: u64)
    ensures
        r == entry_hash(h, e@),
{
    let a = hash_text(h, e.name.as_str());
    let b = hash_number(a, e.defval);
    let c = hash_kind(b, &e.kind);
    hash1(c, 0xffu8)
}

fn hash_alias_row(h: u64, row: &AliasRow) -> (r: u64)
    ensures
        r == fnv(field_hash(field_hash(h, encode_utf8(row.from@)), encode_utf8(row.to@)), seq![bool_byte(row.ja)]),
{
    let a = hash_text(h, row.from.as_str());
    let b = hash_text(a, row.to.as_str());
    hash1(b, flag_byte(row.ja))
}

fn le32_of(x: i32) -> (v: Vec<u8>)
    ensures
        v@ == le32(x),
{
    let u = x as u32;
    let v = vec![(u & 0xff) as u8, ((u >> 8u32) & 0xff) as u8, ((u >> 16u32) & 0xff) as u8, ((u >> 24u32) & 0xff) as u8];
    proof {
        assert(v@ =~= le32(x));
    }
    v
}

/// The registry's structural fingerprint (see `fingerprint_spec`).
pub fn registry_fingerprint(reg: &RegistryModel) -> (h: u64)
    ensures
        h == fingerprint_spec(reg@),
{
    reg.fingerprint()
}

impl RegistryModel {
    /// The structural fingerprint (see `fingerprint_spec`).
    pub fn fingerprint(&self) -> (h: u64)
        ensures
            h == fingerprint_spec(self@),
    {
        let ghost r = self@;
        let h0 = hash_bytes(FNV_OFFSET, "ano-schema-fingerprint-v2".as_bytes());
        let w = le32_of(self.lat_w);
        let hw = hash_bytes(h0, w.as_slice());
        let hh = le32_of(self.lat_h);
        let h1 = hash_bytes(hw, hh.as_slice());
        let mut acc = h1;
        let mut k: usize = 0;
        while k < self.ents.len()
            invariant
                0 <= k <= self.ents@.len(),
                r == self@,
                acc == entries_hash(h1, r.ents.take(k as int)),
            decreases self.ents@.len() - k,
        {
            proof {
                assert(r.ents.take(k + 1).drop_last() =~= r.ents.take(k as int));
                assert(r.ents.take(k + 1).last() == self.ents@[k as int]@);
            }
            acc = hash_entry(acc, &self.ents[k]);
            k += 1;
        }
        proof {
            assert(r.ents.take(k as int) =~= r.ents);
        }
        let h2 = acc;
        let la = le_bytes_of(self.aliases.len() as u64);
        let h3a = hash_bytes(h2, la.as_slice());
        let mut acc = h3a;
        let mut k: usize = 0;
        while k < self.aliases.len()
            invariant
                0 <= k <= self.aliases@.len(),
                r == self@,
                acc == aliases_hash(h3a, r.aliases.take(k as int)),
            decreases self.aliases@.len() - k,
        {
            proof {
                assert(r.aliases.take(k + 1).drop_last() =~= r.aliases.take(k as int));
            }
            acc = hash_alias_row(acc, &self.aliases[k]);
            k += 1;
        }
        proof {
            assert(r.aliases.take(k as int) =~= r.aliases);
        }
        let h3 = acc;
        let lr = le_bytes_of(self.roles.len() as u64);
        let h4a = hash_bytes(h3, lr.as_slice());
        let mut acc = h4a;
        let mut k: usize = 0;
        while k < self.roles.len()
            invariant
                0 <= k <= self.roles@.len(),
                r == self@,
                acc == roles_hash(h4a, r.roles.take(k as int)),
            decreases self.roles@.len() - k,
        {
            proof {
                assert(r.roles.take(k + 1).drop_last() =~= r.roles.take(k as int));
            }
            let a = hash_text(acc, self.roles[k].0.as_str());
            acc = hash_text(a, self.roles[k].1.as_str());
            k += 1;
        }
        proof {
            assert(r.roles.take(k as int) =~= r.roles);
        }
        let code: u8 = match self.reap {
            None => 0,
            Some(Reap::Seal) => 1,
            Some(Reap::Host) => 2,
        };
        hash1(acc, code)
    }
}

/* ---------- the save line ---------- */

/// The words of a save line, in order (space/tab separated).
pub open spec fn save_words(line: Seq<u8>) -> Seq<Seq<u8>> {
    words_at(line, 0)
}

/// What follows the second word and exactly one separator: a character run's raw payload.
pub open spec fn save_tail(line: Seq<u8>) -> Seq<u8> {
    let p = after_word(line, after_word(line, 0));
    line.subrange(p, line.len() as int)
}

/// Whether a number's bits are those of a value at least zero (negative zero included).
pub open spec fn nonneg_bits(b: u64) -> bool {
    b >> 63u64 == 0 || b == NEG_ZERO_BITS
}

/// A value at least zero, truncated toward zero and saturated to `i32` (what `as i32` gives).
pub open spec fn trunc_i32_bits(b: u64) -> i32 {
    let e = ((b >> 52u64) & 0x7ff) as int;
    if e < 1023 {
        0
    } else if e - 1023 >= 31 {
        i32::MAX
    } else {
        (((b & 0xFFFFFFFFFFFFFu64) | 0x10000000000000u64) >> ((52 - (e - 1023)) as u64)) as i32
    }
}

/// The first entry whose name matches `name` after the ASCII fold.
pub open spec fn entry_index(es: Seq<EntrySpec>, name: Seq<char>, i: int) -> Option<int>
    decreases es.len() - i,
{
    if i < 0 || i >= es.len() {
        None
    } else if names_eq_spec(es[i].name, name) {
        Some(i)
    } else {
        entry_index(es, name, i + 1)
    }
}

/// The values of the words from `i` on, after `acc`; the first word without a value refuses.
pub open spec fn read_nums(ws: Seq<Seq<u8>>, vals: Seq<Option<u64>>, i: int, acc: Seq<u64>) -> Result<Seq<u64>, Seq<u8>>
    decreases ws.len() - i,
{
    if i < 0 || i >= ws.len() {
        Ok(acc)
    } else {
        match vals[i] {
            None => Err(ws[i]),
            Some(b) => read_nums(ws, vals, i + 1, acc.push(b)),
        }
    }
}

/// The fibers of the words from `i` on, after `acc`: a "|" word starts the next fiber, any
/// other word adds its value to the last; the first word without a value refuses.
pub open spec fn read_fibers(ws: Seq<Seq<u8>>, vals: Seq<Option<u64>>, i: int, acc: Seq<Seq<u64>>) -> Result<Seq<Seq<u64>>, Seq<u8>>
    decreases ws.len() - i,
{
    if i < 0 || i >= ws.len() || acc.len() == 0 {
        Ok(acc)
    } else if ws[i] == seq![124u8] {
        read_fibers(ws, vals, i + 1, acc.push(Seq::empty()))
    } else {
        match vals[i] {
            None => Err(ws[i]),
            Some(b) => read_fibers(ws, vals, i + 1, acc.update(acc.len() - 1, acc.last().push(b))),
        }
    }
}

/// Whether a separator byte: space or tab.
pub open spec fn blank(b: u8) -> bool {
    b == 32 || b == 9
}

/// Whether a character run of `n` cells has no `.reg` spelling: it is empty, begins with
/// whitespace or '#', ends with whitespace, or holds a '#' right after whitespace.
pub open spec fn glyph_run_bad(t: Seq<u8>, n: int) -> bool {
    ||| n == 0
    ||| blank(t[0]) || t[0] == 35
    ||| blank(t[n - 1])
    ||| exists|j: int| 1 <= j < n && t[j] == 35 && blank(#[trigger] t[j - 1])
}

/// The registry with entry `i`'s meaning replaced.
pub open spec fn with_kind(r: RegistrySpec, i: int, k: KindSpec) -> RegistrySpec {
    RegistrySpec { ents: r.ents.update(i, EntrySpec { kind: k, ..r.ents[i] }), ..r }
}

/// A column's or field's symbol values replaced.
pub open spec fn set_syms(k: KindSpec, v: Seq<Seq<char>>) -> KindSpec {
    match k {
        KindSpec::Col { ty, uniq, nums, pres, rng, .. } => KindSpec::Col { ty, uniq, nums, syms: v, pres, rng },
        KindSpec::Field { ty, nums, rng, .. } => KindSpec::Field { ty, nums, syms: v, rng },
        _ => k,
    }
}

/// A column's or field's numeric values replaced.
pub open spec fn set_nums(k: KindSpec, v: Seq<u64>) -> KindSpec {
    match k {
        KindSpec::Col { ty, uniq, syms, pres, rng, .. } => KindSpec::Col { ty, uniq, nums: v, syms, pres, rng },
        KindSpec::Field { ty, syms, rng, .. } => KindSpec::Field { ty, nums: v, syms, rng },
        _ => k,
    }
}

/// The refusal text "save: <message>".
pub open spec fn save_err(m: Seq<char>) -> Seq<char> {
    "save: "@ + m
}

/// What one save line does to the registry (`vals[i]` being the finite value the `i`-th
/// word spells, if any): an empty line nothing; "n <value>" sets the row count to a value at
/// least zero; "col", "field", "pres", "rel" or "srel" then an entry name replace that
/// entry's values of that kind, each count checked against the rows it must fill; anything
/// else is refused, the registry unchanged.
pub open spec fn save_spec(r: RegistrySpec, line: Seq<u8>, vals: Seq<Option<u64>>) -> Result<RegistrySpec, Seq<char>> {
    let ws = save_words(line);
    if ws.len() == 0 {
        Ok(r)
    } else {
        let k = ws[0];
        if k == seq![110u8] {
            if ws.len() >= 2 && vals[1] is Some && nonneg_bits(vals[1]->Some_0) {
                Ok(RegistrySpec { n: trunc_i32_bits(vals[1]->Some_0), ..r })
            } else {
                Err(save_err("bad n line"@))
            }
        } else {
            let is_col = k == seq![99u8, 111, 108];
            let is_field = k == seq![102u8, 105, 101, 108, 100];
            let is_pres = k == seq![112u8, 114, 101, 115];
            let is_rel = k == seq![114u8, 101, 108];
            let is_srel = k == seq![115u8, 114, 101, 108];
            let kw = lossy_text(k);
            if !is_col && !is_field && !is_pres && !is_rel && !is_srel {
                Err(save_err("unknown line kind '"@ + kw + "'"@))
            } else if ws.len() < 2 {
                Err(save_err(kw + " line without a name"@))
            } else {
                let name = lossy_text(ws[1]);
                match entry_index(r.ents, name, 0) {
                    None => Err(save_err("unknown entry '"@ + name + "'"@)),
                    Some(ei) => save_entry(r, ei, kw, name, is_col, is_field, is_pres, is_rel, ws, vals, save_tail(line)),
                }
            }
        }
    }
}

/// What a save line does to entry `ei` (see `save_spec`).
pub open spec fn save_entry(
    r: RegistrySpec,
    ei: int,
    kw: Seq<char>,
    name: Seq<char>,
    is_col: bool,
    is_field: bool,
    is_pres: bool,
    is_rel: bool,
    ws: Seq<Seq<u8>>,
    vals: Seq<Option<u64>>,
    tail: Seq<u8>,
) -> Result<RegistrySpec, Seq<char>> {
    let kind = r.ents[ei].kind;
    let rows: int = if is_field { r.lat_w * r.lat_h } else { r.n as int };
    let rows_u: int = if rows < 0 { 0 } else { rows };
    let head = kw + " "@ + name + ": "@;
    let char_target = match kind {
        KindSpec::Col { ty: ColType::Char, .. } => is_col,
        KindSpec::Field { ty: ColType::Char, .. } => is_field,
        _ => false,
    };
    let nw = ws.len() - 2;
    if (is_col || is_field) && char_target {
        if tail.len() != rows_u {
            Err(save_err(head + int_spelling(tail.len() as int) + " glyphs for "@ + int_spelling(rows) + " cells"@))
        } else if glyph_run_bad(tail, rows_u) {
            Err(save_err(head + "the post-state glyph run has no .reg spelling (empty, boundary whitespace, or a word-boundary '#')"@))
        } else {
            Ok(with_kind(r, ei, set_syms(kind, seq![lossy_text(tail)])))
        }
    } else if is_col || is_field {
        let kind_ok = match kind {
            KindSpec::Col { .. } => is_col,
            KindSpec::Field { .. } => is_field,
            _ => false,
        };
        let is_sym = match kind {
            KindSpec::Col { ty: ColType::Sym, .. } => true,
            KindSpec::Field { ty: ColType::Sym, .. } => true,
            _ => false,
        };
        if !kind_ok {
            Err(save_err("'"@ + name + "' is not a "@ + kw))
        } else if is_sym {
            if nw != rows {
                Err(save_err(head + int_spelling(nw) + " values for "@ + int_spelling(rows) + " rows (an empty sym value has no .reg spelling)"@))
            } else if exists|j: int| 2 <= j < ws.len() && (#[trigger] ws[j]).len() >= ANO_NAMESZ {
                Err(save_err(head + "sym value too long"@))
            } else {
                Ok(with_kind(r, ei, set_syms(kind, ws.skip(2).map_values(|w: Seq<u8>| lossy_text(w)))))
            }
        } else if nw != rows && nw != 2 * rows {
            Err(save_err(head + int_spelling(nw) + " values for "@ + int_spelling(rows) + " rows"@))
        } else {
            match read_nums(ws, vals, 2, Seq::empty()) {
                Err(w) => Err(save_err(head + "bad number '"@ + lossy_text(w) + "'"@)),
                Ok(v) => Ok(with_kind(r, ei, set_nums(kind, v))),
            }
        }
    } else if is_pres {
        if !(kind is Col) {
            Err(save_err("pres on non-column '"@ + name + "'"@))
        } else if nw != r.n {
            Err(save_err("pres "@ + name + ": "@ + int_spelling(nw) + " bits for "@ + int_spelling(r.n as int) + " rows"@))
        } else {
            match read_nums(ws, vals, 2, Seq::empty()) {
                Err(w) => Err(save_err("pres "@ + name + ": bad bit '"@ + lossy_text(w) + "'"@)),
                Ok(v) => Ok(with_kind(r, ei, match kind {
                    KindSpec::Col { ty, uniq, nums, syms, rng, .. } => KindSpec::Col { ty, uniq, nums, syms, pres: Some(v), rng },
                    _ => kind,
                })),
            }
        }
    } else if is_rel {
        if !(kind is Rel) {
            Err(save_err("'"@ + name + "' is not a rel"@))
        } else if nw != r.n {
            Err(save_err("rel "@ + name + ": "@ + int_spelling(nw) + " values for "@ + int_spelling(r.n as int) + " rows"@))
        } else {
            match read_nums(ws, vals, 2, Seq::empty()) {
                Err(w) => Err(save_err("rel "@ + name + ": bad index '"@ + lossy_text(w) + "'"@)),
                Ok(v) => Ok(with_kind(r, ei, match kind {
                    KindSpec::Rel { key_of, .. } => KindSpec::Rel { targets: v, key_of },
                    _ => kind,
                })),
            }
        }
    } else {
        if !(kind is SRel) {
            Err(save_err("'"@ + name + "' is not an srel"@))
        } else {
            match read_fibers(ws, vals, 2, seq![Seq::empty()]) {
                Err(w) => Err(save_err("srel "@ + name + ": bad id '"@ + lossy_text(w) + "'"@)),
                Ok(f) => Ok(with_kind(r, ei, match kind {
                    KindSpec::SRel { key_of, .. } => KindSpec::SRel { fib: f, inv_of: None, key_of },
                    _ => kind,
                })),
            }
        }
    }
}

/// The values the words from `i` on spell, in order.
pub open spec fn spelled_values(ws: Seq<Seq<u8>>, vals: Seq<Option<u64>>, i: int) -> Seq<u64> {
    Seq::new((ws.len() - i) as nat, |j: int| vals[i + j]->Some_0)
}

proof fn lemma_read_nums_values(ws: Seq<Seq<u8>>, vals: Seq<Option<u64>>, i: int, acc: Seq<u64>)
    requires
        0 <= i <= ws.len(),
    ensures
        read_nums(ws, vals, i, acc) is Ok ==> (forall|j: int| i <= j < ws.len() ==> (#[trigger] vals[j]) is Some)
            && read_nums(ws, vals, i, acc)->Ok_0 == acc + spelled_values(ws, vals, i),
    decreases ws.len() - i,
{
    if i < ws.len() {
        if let Some(b) = vals[i] {
            lemma_read_nums_values(ws, vals, i + 1, acc.push(b));
            assert(acc.push(b) + spelled_values(ws, vals, i + 1) =~= acc + spelled_values(ws, vals, i));
        }
    } else {
        assert(acc + spelled_values(ws, vals, i) =~= acc);
    }
}

/// An accepted `rel NAME v1 .. vn` line: the name found a relation, the line held one value
/// per row, and the relation's targets become exactly the values the words spell, in order,
/// its key kept; every other declaration, the row count, the lattice, the alias and role
/// tables and the reclamation policy stay as they were.
pub proof fn lemma_save_rel_line(r: RegistrySpec, line: Seq<u8>, vals: Seq<Option<u64>>, ei: int, r2: RegistrySpec)
    requires
        save_words(line).len() >= 2,
        save_words(line)[0] == seq![114u8, 101, 108],
        entry_index(r.ents, lossy_text(save_words(line)[1]), 0) == Some(ei),
        save_spec(r, line, vals) == Ok::<RegistrySpec, Seq<char>>(r2),
    ensures
        0 <= ei < r.ents.len(),
        r.ents[ei].kind is Rel,
        save_words(line).len() - 2 == r.n,
        forall|j: int| 2 <= j < save_words(line).len() ==> (#[trigger] vals[j]) is Some,
        r2.ents[ei] == (EntrySpec {
            kind: KindSpec::Rel {
                targets: spelled_values(save_words(line), vals, 2),
                key_of: r.ents[ei].kind->Rel_key_of,
            },
            ..r.ents[ei]
        }),
        r2.ents.len() == r.ents.len(),
        forall|j: int| 0 <= j < r.ents.len() && j != ei ==> r2.ents[j] == #[trigger] r.ents[j],
        r2.n == r.n && r2.lat_w == r.lat_w && r2.lat_h == r.lat_h,
        r2.aliases == r.aliases && r2.roles == r.roles && r2.reap == r.reap,
{
    let ws = save_words(line);
    lemma_entry_index_range(r.ents, lossy_text(ws[1]), 0);
    lemma_read_nums_values(ws, vals, 2, Seq::empty());
    assert(Seq::<u64>::empty() + spelled_values(ws, vals, 2) =~= spelled_values(ws, vals, 2));
}

/// An accepted `col NAME v1 .. vn` line on a numeric column: its values become exactly the
/// values the words spell, in order (one per row, or two per row for a legacy pair), every
/// descriptor, its symbols and its presence mask kept; nothing else changes.
pub proof fn lemma_save_col_line(r: RegistrySpec, line: Seq<u8>, vals: Seq<Option<u64>>, ei: int, r2: RegistrySpec)
    requires
        save_words(line).len() >= 2,
        save_words(line)[0] == seq![99u8, 111, 108],
        entry_index(r.ents, lossy_text(save_words(line)[1]), 0) == Some(ei),
        save_spec(r, line, vals) == Ok::<RegistrySpec, Seq<char>>(r2),
        r.ents[ei].kind matches KindSpec::Col { ty, .. } && ty != ColType::Sym && ty != ColType::Char,
    ensures
        0 <= ei < r.ents.len(),
        forall|j: int| 2 <= j < save_words(line).len() ==> (#[trigger] vals[j]) is Some,
        r2.ents[ei] == (EntrySpec {
            kind: KindSpec::Col {
                ty: r.ents[ei].kind->Col_ty,
                uniq: r.ents[ei].kind->Col_uniq,
                nums: spelled_values(save_words(line), vals, 2),
                syms: r.ents[ei].kind->Col_syms,
                pres: r.ents[ei].kind->Col_pres,
                rng: r.ents[ei].kind->Col_rng,
            },
            ..r.ents[ei]
        }),
        r2.ents.len() == r.ents.len(),
        forall|j: int| 0 <= j < r.ents.len() && j != ei ==> r2.ents[j] == #[trigger] r.ents[j],
        r2.n == r.n && r2.lat_w == r.lat_w && r2.lat_h == r.lat_h,
        r2.aliases == r.aliases && r2.roles == r.roles && r2.reap == r.reap,
{
    let ws = save_words(line);
    lemma_entry_index_range(r.ents, lossy_text(ws[1]), 0);
    lemma_read_nums_values(ws, vals, 2, Seq::empty());
    assert(Seq::<u64>::empty() + spelled_values(ws, vals, 2) =~= spelled_values(ws, vals, 2));
}

/// An accepted `field NAME v1 .. vn` line on a numeric field: its values become exactly the
/// values the words spell, in order, every descriptor and its symbols kept; nothing else
/// changes.
pub proof fn lemma_save_field_line(r: RegistrySpec, line: Seq<u8>, vals: Seq<Option<u64>>, ei: int, r2: RegistrySpec)
    requires
        save_words(line).len() >= 2,
        save_words(line)[0] == seq![102u8, 105, 101, 108, 100],
        entry_index(r.ents, lossy_text(save_words(line)[1]), 0) == Some(ei),
        save_spec(r, line, vals) == Ok::<RegistrySpec, Seq<char>>(r2),
        r.ents[ei].kind matches KindSpec::Field { ty, .. } && ty != ColType::Sym && ty != ColType::Char,
    ensures
        0 <= ei < r.ents.len(),
        forall|j: int| 2 <= j < save_words(line).len() ==> (#[trigger] vals[j]) is Some,
        r2.ents[ei] == (EntrySpec {
            kind: KindSpec::Field {
                ty: r.ents[ei].kind->Field_ty,
                nums: spelled_values(save_words(line), vals, 2),
                syms: r.ents[ei].kind->Field_syms,
                rng: r.ents[ei].kind->Field_rng,
            },
            ..r.ents[ei]
        }),
        r2.ents.len() == r.ents.len(),
        forall|j: int| 0 <= j < r.ents.len() && j != ei ==> r2.ents[j] == #[trigger] r.ents[j],
        r2.n == r.n && r2.lat_w == r.lat_w && r2.lat_h == r.lat_h,
        r2.aliases == r.aliases && r2.roles == r.roles && r2.reap == r.reap,
{
    let ws = save_words(line);
    lemma_entry_index_range(r.ents, lossy_text(ws[1]), 0);
    lemma_read_nums_values(ws, vals, 2, Seq::empty());
    assert(Seq::<u64>::empty() + spelled_values(ws, vals, 2) =~= spelled_values(ws, vals, 2));
}

/// An accepted `pres NAME b1 .. bn` line: the name found a column, the line held one bit per
/// row, and the column's presence mask becomes exactly the values the words spell, its
/// descriptors, values and symbols kept; nothing else changes.
pub proof fn lemma_save_pres_line(r: RegistrySpec, line: Seq<u8>, vals: Seq<Option<u64>>, ei: int, r2: RegistrySpec)
    requires
        save_words(line).len() >= 2,
        save_words(line)[0] == seq![112u8, 114, 101, 115],
        entry_index(r.ents, lossy_text(save_words(line)[1]), 0) == Some(ei),
        save_spec(r, line, vals) == Ok::<RegistrySpec, Seq<char>>(r2),
    ensures
        0 <= ei < r.ents.len(),
        r.ents[ei].kind is Col,
        save_words(line).len() - 2 == r.n,
        forall|j: int| 2 <= j < save_words(line).len() ==> (#[trigger] vals[j]) is Some,
        r2.ents[ei] == (EntrySpec {
            kind: KindSpec::Col {
                ty: r.ents[ei].kind->Col_ty,
                uniq: r.ents[ei].kind->Col_uniq,
                nums: r.ents[ei].kind->Col_nums,
                syms: r.ents[ei].kind->Col_syms,
                pres: Some(spelled_values(save_words(line), vals, 2)),
                rng: r.ents[ei].kind->Col_rng,
            },
            ..r.ents[ei]
        }),
        r2.ents.len() == r.ents.len(),
        forall|j: int| 0 <= j < r.ents.len() && j != ei ==> r2.ents[j] == #[trigger] r.ents[j],
        r2.n == r.n && r2.lat_w == r.lat_w && r2.lat_h == r.lat_h,
        r2.aliases == r.aliases && r2.roles == r.roles && r2.reap == r.reap,
{
    let ws = save_words(line);
    lemma_entry_index_range(r.ents, lossy_text(ws[1]), 0);
    lemma_read_nums_values(ws, vals, 2, Seq::empty());
    assert(Seq::<u64>::empty() + spelled_values(ws, vals, 2) =~= spelled_values(ws, vals, 2));
}

proof fn lemma_entry_index_range(es: Seq<EntrySpec>, name: Seq<char>, i: int)
    requires
        0 <= i,
    ensures
        entry_index(es, name, i) matches Some(k) ==> i <= k < es.len(),
    decreases es.len() - i,
{
    if i < es.len() && !names_eq_spec(es[i].name, name) {
        lemma_entry_index_range(es, name, i + 1);
    }
}

proof fn lemma_words_len(s: Seq<u8>, p: int)
    requires
        0 <= p <= s.len(),
    ensures
        words_at(s, p).len() <= s.len() - p,
    decreases s.len() - p,
{
    lemma_cursor_bounds(s, p);
    if let Some((a, e)) = word_at(s, p) {
        lemma_words_len(s, after_word(s, p));
    }
}

/// The words of a save line (see `save_words`).
pub fn save_words_of(line: &[u8]) -> (ws: Vec<Vec<u8>>)
    ensures
        ws@.map_values(|w: Vec<u8>| w@) == save_words(line@),
{
    let mut c = Cursor::new(line);
    let mut out: Vec<Vec<u8>> = Vec::new();
    loop
        invariant
            c.s@ == line@,
            c.pos <= line@.len(),
            out@.map_values(|w: Vec<u8>| w@) + words_at(line@, c.pos as int) == words_at(line@, 0),
        decreases line@.len() - c.pos,
    {
        proof {
            lemma_cursor_bounds(line@, c.pos as int);
        }
        let ghost p = c.pos as int;
        match c.word() {
            None => {
                proof {
                    assert(words_at(line@, p) =~= Seq::<Seq<u8>>::empty());
                    assert(out@.map_values(|w: Vec<u8>| w@) + Seq::<Seq<u8>>::empty() =~= out@.map_values(|w: Vec<u8>| w@));
                }
                return out;
            },
            Some(w) => {
                let ghost before = out@.map_values(|w: Vec<u8>| w@);
                let v = copy_bytes(w);
                out.push(v);
                proof {
                    assert(out@.map_values(|w: Vec<u8>| w@) =~= before.push(w@));
                    assert(before.push(w@) + words_at(line@, c.pos as int) =~= before + (seq![w@] + words_at(line@, c.pos as int)));
                }
            },
        }
    }
}

fn copy_bytes(w: &[u8]) -> (v: Vec<u8>)
    ensures
        v@ == w@,
{
    let mut v: Vec<u8> = Vec::new();
    let mut k: usize = 0;
    while k < w.len()
        invariant
            0 <= k <= w@.len(),
            v@ =~= w@.take(k as int),
        decreases w@.len() - k,
    {
        v.push(w[k]);
        k += 1;
    }
    proof {
        assert(w@.take(k as int) =~= w@);
    }
    v
}

fn bytes_are(w: &Vec<u8>, lit: Vec<u8>) -> (r: bool)
    ensures
        r == (w@ == lit@),
{
    if w.len() != lit.len() {
        return false;
    }
    let mut k: usize = 0;
    while k < w.len()
        invariant
            w@.len() == lit@.len(),
            0 <= k <= w@.len(),
            forall|j: int| 0 <= j < k ==> w@[j] == lit@[j],
        decreases w@.len() - k,
    {
        if w[k] != lit[k] {
            return false;
        }
        k += 1;
    }
    proof {
        assert(w@ =~= lit@);
    }
    true
}

fn nonneg_exec(b: u64) -> (r: bool)
    ensures
        r == nonneg_bits(b),
{
    b >> 63u64 == 0 || b == NEG_ZERO_BITS
}

fn trunc_exec(b: u64) -> (r: i32)
    ensures
        r == trunc_i32_bits(b),
{
    let e = (b >> 52u64) & 0x7ff;
    if e < 1023 {
        0
    } else if e - 1023 >= 31 {
        i32::MAX
    } else {
        let k = e - 1023;
        let m = (b & 0xFFFFFFFFFFFFFu64) | 0x10000000000000u64;
        assert(m <= 0x1FFFFFFFFFFFFFu64) by (bit_vector)
            requires
                m == (b & 0xFFFFFFFFFFFFFu64) | 0x10000000000000u64,
        ;
        assert(m >> ((52 - k) as u64) <= 0x7fffffff) by (bit_vector)
            requires
                m <= 0x1FFFFFFFFFFFFFu64,
                k <= 30,
        ;
        (m >> ((52 - k) as u64)) as i32
    }
}

fn refuse(m: String) -> (d: Diag)
    ensures
        d.msg@ == save_err(m@),
        d.code == 2,
{
    proof {
        reveal_strlit("save: ");
    }
    Diag::refuse(cat("save: ", m.as_str()))
}

fn cat3(a: &str, b: &str, c: &str) -> (s: String)
    ensures
        s@ == a@ + b@ + c@,
{
    let t = cat(a, b);
    cat(t.as_str(), c)
}

fn read_nums_exec(ws: &Vec<Vec<u8>>, vals: &[Option<u64>]) -> (r: Result<Vec<u64>, usize>)
    requires
        vals@.len() == ws@.len(),
    ensures
        match r {
            Ok(v) => read_nums(ws@.map_values(|w: Vec<u8>| w@), vals@, 2, Seq::empty()) == Ok::<Seq<u64>, Seq<u8>>(v@),
            Err(j) => 2 <= j < ws@.len() && read_nums(ws@.map_values(|w: Vec<u8>| w@), vals@, 2, Seq::empty()) == Err::<Seq<u64>, Seq<u8>>(ws@[j as int]@),
        },
{
    let ghost wv = ws@.map_values(|w: Vec<u8>| w@);
    let mut acc: Vec<u64> = Vec::new();
    let mut i: usize = 2;
    while i < ws.len()
        invariant
            vals@.len() == ws@.len(),
            wv == ws@.map_values(|w: Vec<u8>| w@),
            2 <= i,
            read_nums(wv, vals@, 2, Seq::empty()) == read_nums(wv, vals@, i as int, acc@),
        decreases ws@.len() - i,
    {
        match vals[i] {
            None => {
                return Err(i);
            },
            Some(b) => {
                acc.push(b);
            },
        }
        i += 1;
    }
    Ok(acc)
}

fn read_fibers_exec(ws: &Vec<Vec<u8>>, vals: &[Option<u64>]) -> (r: Result<Vec<Vec<u64>>, usize>)
    requires
        vals@.len() == ws@.len(),
    ensures
        match r {
            Ok(v) => read_fibers(ws@.map_values(|w: Vec<u8>| w@), vals@, 2, seq![Seq::empty()]) == Ok::<Seq<Seq<u64>>, Seq<u8>>(v@.map_values(|f: Vec<u64>| f@)),
            Err(j) => 2 <= j < ws@.len() && read_fibers(ws@.map_values(|w: Vec<u8>| w@), vals@, 2, seq![Seq::empty()]) == Err::<Seq<Seq<u64>>, Seq<u8>>(ws@[j as int]@),
        },
{
    let ghost wv = ws@.map_values(|w: Vec<u8>| w@);
    let mut acc: Vec<Vec<u64>> = Vec::new();
    acc.push(Vec::new());
    proof {
        assert(acc@.map_values(|f: Vec<u64>| f@) =~= seq![Seq::<u64>::empty()]);
    }
    let mut i: usize = 2;
    while i < ws.len()
        invariant
            vals@.len() == ws@.len(),
            wv == ws@.map_values(|w: Vec<u8>| w@),
            2 <= i,
            acc@.len() >= 1,
            read_fibers(wv, vals@, 2, seq![Seq::empty()]) == read_fibers(wv, vals@, i as int, acc@.map_values(|f: Vec<u64>| f@)),
        decreases ws@.len() - i,
    {
        let ghost a0 = acc@.map_values(|f: Vec<u64>| f@);
        let bar = vec![124u8];
        assert(bar@ =~= seq![124u8]);
        if bytes_are(&ws[i], bar) {
            acc.push(Vec::new());
            proof {
                assert(acc@.map_values(|f: Vec<u64>| f@) =~= a0.push(Seq::empty()));
            }
        } else {
            match vals[i] {
                None => {
                    return Err(i);
                },
                Some(b) => {
                    let last = acc.len() - 1;
                    let mut f = acc.pop().unwrap();
                    f.push(b);
                    acc.push(f);
                    proof {
                        assert(acc@.map_values(|f: Vec<u64>| f@) =~= a0.update(a0.len() - 1, a0.last().push(b)));
                    }
                },
            }
        }
        i += 1;
    }
    Ok(acc)
}

fn find_entry_index(es: &Vec<EntryModel>, name: &str) -> (r: Option<usize>)
    ensures
        match r {
            Some(i) => entry_index(es@.map_values(|e: EntryModel| e@), name@, 0) == Some(i as int) && i < es@.len(),
            None => entry_index(es@.map_values(|e: EntryModel| e@), name@, 0) is None,
        },
{
    let ghost ev = es@.map_values(|e: EntryModel| e@);
    let mut k: usize = 0;
    while k < es.len()
        invariant
            0 <= k <= es@.len(),
            ev == es@.map_values(|e: EntryModel| e@),
            entry_index(ev, name@, 0) == entry_index(ev, name@, k as int),
        decreases es@.len() - k,
    {
        if names_eq(es[k].name.as_str(), name) {
            return Some(k);
        }
        k += 1;
    }
    None
}

fn glyph_run_bad_exec(t: &[u8], n: usize) -> (r: bool)
    requires
        n == t@.len(),
    ensures
        r == glyph_run_bad(t@, n as int),
{
    if n == 0 {
        return true;
    }
    let bl = |b: u8| -> (r: bool)
        ensures
            r == blank(b),
        { b == 32 || b == 9 };
    if bl(t[0]) || t[0] == 35 || bl(t[n - 1]) {
        return true;
    }
    let mut j: usize = 1;
    while j < n
        invariant
            n == t@.len(),
            1 <= j <= n,
            forall|i: int| 1 <= i < j ==> !(t@[i] == 35 && blank(#[trigger] t@[i - 1])),
        decreases n - j,
    {
        if t[j] == 35 && (t[j - 1] == 32 || t[j - 1] == 9) {
            proof {
                assert(t@[j as int] == 35 && blank(t@[j - 1]));
            }
            return true;
        }
        j += 1;
    }
    false
}

fn put_entry(reg: &mut RegistryModel, ei: usize, e2: EntryModel, Ghost(before): Ghost<RegistrySpec>)
    requires
        ei <= old(reg).ents@.len(),
        before.ents.len() == old(reg).ents@.len() + 1,
        old(reg)@ == (RegistrySpec { ents: before.ents.remove(ei as int), ..before }),
        e2@.name == before.ents[ei as int].name,
        e2@.defval == before.ents[ei as int].defval,
    ensures
        final(reg)@ == with_kind(before, ei as int, e2@.kind),
{
    let ghost mid = reg.ents@;
    let ghost old_view = reg@;
    reg.ents.insert(ei, e2);
    proof {
        let target = before.ents.update(ei as int, EntrySpec { kind: e2@.kind, ..before.ents[ei as int] });
        assert(reg.ents@ =~= mid.insert(ei as int, e2));
        assert(reg@.ents.len() == target.len());
        assert forall|k: int| 0 <= k < target.len() implies reg@.ents[k] == target[k] by {
            if k < ei {
                assert(reg.ents@[k] == mid[k]);
                assert(old_view.ents[k] == mid[k]@);
                assert(before.ents.remove(ei as int)[k] == before.ents[k]);
            } else if k == ei {
                assert(reg.ents@[k] == e2);
            } else {
                assert(reg.ents@[k] == mid[k - 1]);
                assert(old_view.ents[k - 1] == mid[k - 1]@);
                assert(before.ents.remove(ei as int)[k - 1] == before.ents[k]);
            }
        }
        assert(reg@.ents =~= target);
    }
}

fn take_entry(reg: &mut RegistryModel, ei: usize) -> (e: EntryModel)
    requires
        ei < old(reg).ents@.len(),
    ensures
        e@ == old(reg)@.ents[ei as int],
        final(reg)@ == (RegistrySpec { ents: old(reg)@.ents.remove(ei as int), ..old(reg)@ }),
        final(reg).ents@.len() == old(reg).ents@.len() - 1,
{
    let ghost mid = reg.ents@;
    let e = reg.ents.remove(ei);
    proof {
        assert(reg@.ents =~= old(reg)@.ents.remove(ei as int));
    }
    e
}

fn set_syms_at(reg: &mut RegistryModel, ei: usize, v: Vec<String>)
    requires
        ei < old(reg).ents@.len(),
    ensures
        final(reg)@ == with_kind(old(reg)@, ei as int, set_syms(old(reg)@.ents[ei as int].kind, v@.map_values(|s: String| s@))),
{
    let ghost before = reg@;
    let e = take_entry(reg, ei);
    let EntryModel { name, defval, kind } = e;
    let k2 = match kind {
        EntryKindModel::Col { ty, uniq, nums, syms: _, pres, rng } => EntryKindModel::Col { ty, uniq, nums, syms: v, pres, rng },
        EntryKindModel::Field { ty, nums, syms: _, rng } => EntryKindModel::Field { ty, nums, syms: v, rng },
        other => other,
    };
    put_entry(reg, ei, EntryModel { name, defval, kind: k2 }, Ghost(before));
}

fn set_nums_at(reg: &mut RegistryModel, ei: usize, v: Vec<u64>)
    requires
        ei < old(reg).ents@.len(),
    ensures
        final(reg)@ == with_kind(old(reg)@, ei as int, set_nums(old(reg)@.ents[ei as int].kind, v@)),
{
    let ghost before = reg@;
    let e = take_entry(reg, ei);
    let EntryModel { name, defval, kind } = e;
    let k2 = match kind {
        EntryKindModel::Col { ty, uniq, nums: _, syms, pres, rng } => EntryKindModel::Col { ty, uniq, nums: v, syms, pres, rng },
        EntryKindModel::Field { ty, nums: _, syms, rng } => EntryKindModel::Field { ty, nums: v, syms, rng },
        other => other,
    };
    put_entry(reg, ei, EntryModel { name, defval, kind: k2 }, Ghost(before));
}

fn set_pres_at(reg: &mut RegistryModel, ei: usize, v: Vec<u64>)
    requires
        ei < old(reg).ents@.len(),
    ensures
        final(reg)@ == with_kind(old(reg)@, ei as int, match old(reg)@.ents[ei as int].kind {
            KindSpec::Col { ty, uniq, nums, syms, rng, .. } => KindSpec::Col { ty, uniq, nums, syms, pres: Some(v@), rng },
            k => k,
        }),
{
    let ghost before = reg@;
    let e = take_entry(reg, ei);
    let EntryModel { name, defval, kind } = e;
    let k2 = match kind {
        EntryKindModel::Col { ty, uniq, nums, syms, pres: _, rng } => EntryKindModel::Col { ty, uniq, nums, syms, pres: Some(v), rng },
        other => other,
    };
    put_entry(reg, ei, EntryModel { name, defval, kind: k2 }, Ghost(before));
}

fn set_targets_at(reg: &mut RegistryModel, ei: usize, v: Vec<u64>)
    requires
        ei < old(reg).ents@.len(),
    ensures
        final(reg)@ == with_kind(old(reg)@, ei as int, match old(reg)@.ents[ei as int].kind {
            KindSpec::Rel { key_of, .. } => KindSpec::Rel { targets: v@, key_of },
            k => k,
        }),
{
    let ghost before = reg@;
    let e = take_entry(reg, ei);
    let EntryModel { name, defval, kind } = e;
    let k2 = match kind {
        EntryKindModel::Rel { targets: _, key_of } => EntryKindModel::Rel { targets: v, key_of },
        other => other,
    };
    put_entry(reg, ei, EntryModel { name, defval, kind: k2 }, Ghost(before));
}

fn set_fib_at(reg: &mut RegistryModel, ei: usize, v: Vec<Vec<u64>>)
    requires
        ei < old(reg).ents@.len(),
    ensures
        final(reg)@ == with_kind(old(reg)@, ei as int, match old(reg)@.ents[ei as int].kind {
            KindSpec::SRel { key_of, .. } => KindSpec::SRel { fib: v@.map_values(|f: Vec<u64>| f@), inv_of: None, key_of },
            k => k,
        }),
{
    let ghost before = reg@;
    let e = take_entry(reg, ei);
    let EntryModel { name, defval, kind } = e;
    let k2 = match kind {
        EntryKindModel::SRel { fib: _, inv_of: _, key_of } => EntryKindModel::SRel { fib: v, inv_of: None, key_of },
        other => other,
    };
    put_entry(reg, ei, EntryModel { name, defval, kind: k2 }, Ghost(before));
}

fn sym_words(ws: &Vec<Vec<u8>>) -> (r: Result<Vec<String>, ()>)
    requires
        ws@.len() >= 2,
    ensures
        match r {
            Ok(v) => !(exists|j: int| 2 <= j < ws@.len() && (#[trigger] ws@[j])@.len() >= ANO_NAMESZ)
                && v@.map_values(|s: String| s@) == ws@.map_values(|w: Vec<u8>| w@).skip(2).map_values(|w: Seq<u8>| lossy_text(w)),
            Err(_) => exists|j: int| 2 <= j < ws@.len() && (#[trigger] ws@[j])@.len() >= ANO_NAMESZ,
        },
{
    let ghost wv = ws@.map_values(|w: Vec<u8>| w@);
    let mut out: Vec<String> = Vec::new();
    let mut i: usize = 2;
    while i < ws.len()
        invariant
            2 <= i <= ws@.len(),
            wv == ws@.map_values(|w: Vec<u8>| w@),
            forall|j: int| 2 <= j < i ==> (#[trigger] ws@[j])@.len() < ANO_NAMESZ,
            out@.map_values(|s: String| s@) =~= wv.subrange(2, i as int).map_values(|w: Seq<u8>| lossy_text(w)),
        decreases ws@.len() - i,
    {
        if ws[i].len() >= ANO_NAMESZ {
            return Err(());
        }
        let t = lossy(ws[i].as_slice());
        let ghost o0 = out@.map_values(|s: String| s@);
        out.push(t);
        proof {
            assert(out@.map_values(|s: String| s@) =~= o0.push(t@));
            assert(wv.subrange(2, i + 1) =~= wv.subrange(2, i as int).push(wv[i as int]));
        }
        i += 1;
    }
    proof {
        assert(wv.subrange(2, i as int) =~= wv.skip(2));
    }
    Ok(out)
}

#[verifier::rlimit(100)]
fn save_entry_exec(
    reg: &mut RegistryModel,
    ei: usize,
    kw: &String,
    name: &String,
    is_col: bool,
    is_field: bool,
    is_pres: bool,
    is_rel: bool,
    ws: &Vec<Vec<u8>>,
    vals: &[Option<u64>],
    tail: &[u8],
) -> (r: Result<(), Diag>)
    requires
        ei < old(reg).ents@.len(),
        vals@.len() == ws@.len(),
        2 <= ws@.len() < i32::MAX,
        i32::MIN <= old(reg).lat_w * old(reg).lat_h <= i32::MAX,
        tail@.len() < i32::MAX,
    ensures
        match r {
            Ok(_) => save_entry(old(reg)@, ei as int, kw@, name@, is_col, is_field, is_pres, is_rel, ws@.map_values(|w: Vec<u8>| w@), vals@, tail@)
                == Ok::<RegistrySpec, Seq<char>>(final(reg)@),
            Err(d) => save_entry(old(reg)@, ei as int, kw@, name@, is_col, is_field, is_pres, is_rel, ws@.map_values(|w: Vec<u8>| w@), vals@, tail@)
                == Err::<RegistrySpec, Seq<char>>(d.msg@) && d.code == 2 && final(reg)@ == old(reg)@,
        },
{
    let ghost wv = ws@.map_values(|w: Vec<u8>| w@);
    let ghost r0 = reg@;
    proof {
        assert(r0.ents[ei as int] == reg.ents@[ei as int]@);
    }
    let rows: i64 = if is_field {
        (reg.lat_w as i64) * (reg.lat_h as i64)
    } else {
        reg.n as i64
    };
    let rows_u: i64 = if rows < 0 {
        0
    } else {
        rows
    };
    let h1 = cat(kw.as_str(), " ");
    let h2 = cat(h1.as_str(), name.as_str());
    let head = cat(h2.as_str(), ": ");
    proof {
        reveal_strlit(" ");
        reveal_strlit(": ");
    }
    let char_target = match &reg.ents[ei].kind {
        EntryKindModel::Col { ty: ColType::Char, .. } => is_col,
        EntryKindModel::Field { ty: ColType::Char, .. } => is_field,
        _ => false,
    };
    let nw: i64 = (ws.len() - 2) as i64;
    if (is_col || is_field) && char_target {
        if tail.len() as i64 != rows_u {
            let m = cat3(head.as_str(), i64_text(tail.len() as i64).as_str(), " glyphs for ");
            let m = cat3(m.as_str(), i64_text(rows).as_str(), " cells");
            proof {
                reveal_strlit(" glyphs for ");
                reveal_strlit(" cells");
            }
            return Err(refuse(m));
        }
        if glyph_run_bad_exec(tail, tail.len()) {
            let m = cat(head.as_str(), "the post-state glyph run has no .reg spelling (empty, boundary whitespace, or a word-boundary '#')");
            proof {
                reveal_strlit("the post-state glyph run has no .reg spelling (empty, boundary whitespace, or a word-boundary '#')");
            }
            return Err(refuse(m));
        }
        let mut v: Vec<String> = Vec::new();
        v.push(lossy(tail));
        proof {
            assert(v@.map_values(|s: String| s@) =~= seq![lossy_text(tail@)]);
        }
        set_syms_at(reg, ei, v);
        return Ok(());
    }
    if is_col || is_field {
        let kind_ok = match &reg.ents[ei].kind {
            EntryKindModel::Col { .. } => is_col,
            EntryKindModel::Field { .. } => is_field,
            _ => false,
        };
        let is_sym = match &reg.ents[ei].kind {
            EntryKindModel::Col { ty: ColType::Sym, .. } => true,
            EntryKindModel::Field { ty: ColType::Sym, .. } => true,
            _ => false,
        };
        if !kind_ok {
            let m = cat3("'", name.as_str(), "' is not a ");
            let m = cat(m.as_str(), kw.as_str());
            proof {
                reveal_strlit("'");
                reveal_strlit("' is not a ");
            }
            return Err(refuse(m));
        }
        if is_sym {
            if nw != rows {
                let m = cat3(head.as_str(), i64_text(nw).as_str(), " values for ");
                let m = cat3(m.as_str(), i64_text(rows).as_str(), " rows (an empty sym value has no .reg spelling)");
                proof {
                    reveal_strlit(" values for ");
                    reveal_strlit(" rows (an empty sym value has no .reg spelling)");
                }
                return Err(refuse(m));
            }
            match sym_words(ws) {
                Err(_) => {
                    proof {
                        reveal_strlit("sym value too long");
                        let j = choose|j: int| 2 <= j < ws@.len() && (#[trigger] ws@[j])@.len() >= ANO_NAMESZ;
                        assert(wv[j].len() >= ANO_NAMESZ);
                    }
                    return Err(refuse(cat(head.as_str(), "sym value too long")));
                },
                Ok(v) => {
                    proof {
                        if exists|j: int| 2 <= j < wv.len() && (#[trigger] wv[j]).len() >= ANO_NAMESZ {
                            let j = choose|j: int| 2 <= j < wv.len() && (#[trigger] wv[j]).len() >= ANO_NAMESZ;
                            assert(ws@[j]@ == wv[j]);
                        }
                    }
                    set_syms_at(reg, ei, v);
                    return Ok(());
                },
            }
        }
        if nw != rows && nw != 2 * rows {
            let m = cat3(head.as_str(), i64_text(nw).as_str(), " values for ");
            let m = cat3(m.as_str(), i64_text(rows).as_str(), " rows");
            proof {
                reveal_strlit(" values for ");
                reveal_strlit(" rows");
            }
            return Err(refuse(m));
        }
        match read_nums_exec(ws, vals) {
            Err(j) => {
                let m = cat3(head.as_str(), "bad number '", lossy(ws[j].as_slice()).as_str());
                let m = cat(m.as_str(), "'");
                proof {
                    reveal_strlit("bad number '");
                    reveal_strlit("'");
                }
                return Err(refuse(m));
            },
            Ok(v) => {
                set_nums_at(reg, ei, v);
                return Ok(());
            },
        }
    }
    let n_now: i64 = reg.n as i64;
    if is_pres {
        let is_c = match &reg.ents[ei].kind {
            EntryKindModel::Col { .. } => true,
            _ => false,
        };
        if !is_c {
            proof {
                reveal_strlit("pres on non-column '");
                reveal_strlit("'");
            }
            return Err(refuse(cat3("pres on non-column '", name.as_str(), "'")));
        }
        if nw != n_now {
            let m = cat3("pres ", name.as_str(), ": ");
            let m = cat3(m.as_str(), i64_text(nw).as_str(), " bits for ");
            let m = cat3(m.as_str(), i64_text(n_now).as_str(), " rows");
            proof {
                reveal_strlit("pres ");
                reveal_strlit(": ");
                reveal_strlit(" bits for ");
                reveal_strlit(" rows");
            }
            return Err(refuse(m));
        }
        match read_nums_exec(ws, vals) {
            Err(j) => {
                let m = cat3("pres ", name.as_str(), ": bad bit '");
                let m = cat3(m.as_str(), lossy(ws[j].as_slice()).as_str(), "'");
                proof {
                    reveal_strlit("pres ");
                    reveal_strlit(": bad bit '");
                    reveal_strlit("'");
                }
                return Err(refuse(m));
            },
            Ok(v) => {
                set_pres_at(reg, ei, v);
                return Ok(());
            },
        }
    }
    if is_rel {
        let is_r = match &reg.ents[ei].kind {
            EntryKindModel::Rel { .. } => true,
            _ => false,
        };
        if !is_r {
            proof {
                reveal_strlit("'");
                reveal_strlit("' is not a rel");
            }
            return Err(refuse(cat3("'", name.as_str(), "' is not a rel")));
        }
        if nw != n_now {
            let m = cat3("rel ", name.as_str(), ": ");
            let m = cat3(m.as_str(), i64_text(nw).as_str(), " values for ");
            let m = cat3(m.as_str(), i64_text(n_now).as_str(), " rows");
            proof {
                reveal_strlit("rel ");
                reveal_strlit(": ");
                reveal_strlit(" values for ");
                reveal_strlit(" rows");
            }
            return Err(refuse(m));
        }
        match read_nums_exec(ws, vals) {
            Err(j) => {
                let m = cat3("rel ", name.as_str(), ": bad index '");
                let m = cat3(m.as_str(), lossy(ws[j].as_slice()).as_str(), "'");
                proof {
                    reveal_strlit("rel ");
                    reveal_strlit(": bad index '");
                    reveal_strlit("'");
                }
                return Err(refuse(m));
            },
            Ok(v) => {
                set_targets_at(reg, ei, v);
                return Ok(());
            },
        }
    }
    let is_s = match &reg.ents[ei].kind {
        EntryKindModel::SRel { .. } => true,
        _ => false,
    };
    if !is_s {
        proof {
            reveal_strlit("'");
            reveal_strlit("' is not an srel");
        }
        return Err(refuse(cat3("'", name.as_str(), "' is not an srel")));
    }
    match read_fibers_exec(ws, vals) {
        Err(j) => {
            let m = cat3("srel ", name.as_str(), ": bad id '");
            let m = cat3(m.as_str(), lossy(ws[j].as_slice()).as_str(), "'");
            proof {
                reveal_strlit("srel ");
                reveal_strlit(": bad id '");
                reveal_strlit("'");
            }
            Err(refuse(m))
        },
        Ok(v) => {
            set_fib_at(reg, ei, v);
            Ok(())
        },
    }
}

/// Applies one save line to the registry (see `save_spec`); `word_values[i]` is the finite
/// value the line's `i`-th word spells, if any (see `save_words_of`). A refusal leaves the
/// registry as it was.
pub fn save_line(reg: &mut RegistryModel, line: &[u8], word_values: &[Option<u64>]) -> (r: Result<(), Diag>)
    requires
        word_values@.len() == save_words(line@).len(),
        line@.len() < i32::MAX,
        i32::MIN <= old(reg).lat_w * old(reg).lat_h <= i32::MAX,
    ensures
        match r {
            Ok(_) => save_spec(old(reg)@, line@, word_values@) == Ok::<RegistrySpec, Seq<char>>(final(reg)@),
            Err(d) => save_spec(old(reg)@, line@, word_values@) == Err::<RegistrySpec, Seq<char>>(d.msg@)
                && d.code == 2 && final(reg)@ == old(reg)@,
        },
{
    let ws = save_words_of(line);
    let ghost wv = ws@.map_values(|w: Vec<u8>| w@);
    proof {
        lemma_words_len(line@, 0);
    }
    if ws.len() == 0 {
        return Ok(());
    }
    let n_word = vec![110u8];
    assert(n_word@ =~= seq![110u8]);
    if bytes_are(&ws[0], n_word) {
        if ws.len() >= 2 {
            match word_values[1] {
                Some(b) => {
                    if nonneg_exec(b) {
                        reg.n = trunc_exec(b);
                        return Ok(());
                    }
                },
                None => {},
            }
        }
        proof {
            reveal_strlit("bad n line");
        }
        return Err(refuse(String::from_str("bad n line")));
    }
    let w_col = vec![99u8, 111, 108];
    let w_field = vec![102u8, 105, 101, 108, 100];
    let w_pres = vec![112u8, 114, 101, 115];
    let w_rel = vec![114u8, 101, 108];
    let w_srel = vec![115u8, 114, 101, 108];
    assert(w_col@ =~= seq![99u8, 111, 108]);
    assert(w_field@ =~= seq![102u8, 105, 101, 108, 100]);
    assert(w_pres@ =~= seq![112u8, 114, 101, 115]);
    assert(w_rel@ =~= seq![114u8, 101, 108]);
    assert(w_srel@ =~= seq![115u8, 114, 101, 108]);
    let is_col = bytes_are(&ws[0], w_col);
    let is_field = bytes_are(&ws[0], w_field);
    let is_pres = bytes_are(&ws[0], w_pres);
    let is_rel = bytes_are(&ws[0], w_rel);
    let is_srel = bytes_are(&ws[0], w_srel);
    let kw = lossy(ws[0].as_slice());
    if !is_col && !is_field && !is_pres && !is_rel && !is_srel {
        proof {
            reveal_strlit("unknown line kind '");
            reveal_strlit("'");
        }
        return Err(refuse(cat3("unknown line kind '", kw.as_str(), "'")));
    }
    if ws.len() < 2 {
        proof {
            reveal_strlit(" line without a name");
        }
        return Err(refuse(cat(kw.as_str(), " line without a name")));
    }
    let name = lossy(ws[1].as_slice());
    let ei = match find_entry_index(&reg.ents, name.as_str()) {
        None => {
            proof {
                assert(reg@.ents == reg.ents@.map_values(|e: EntryModel| e@));
                reveal_strlit("unknown entry '");
                reveal_strlit("'");
            }
            return Err(refuse(cat3("unknown entry '", name.as_str(), "'")));
        },
        Some(i) => i,
    };
    proof {
        assert(reg@.ents == reg.ents@.map_values(|e: EntryModel| e@));
    }
    let mut c = Cursor::new(line);
    proof {
        lemma_cursor_bounds(line@, 0);
    }
    let _w0 = c.word();
    proof {
        lemma_cursor_bounds(line@, c.pos as int);
    }
    let _w1 = c.word();
    let tail = c.rest();
    assert(tail@ == save_tail(line@));
    let r = save_entry_exec(reg, ei, &kw, &name, is_col, is_field, is_pres, is_rel, &ws, word_values, tail);
    r
}

/* ---------- the save patch ---------- */

/// The pieces of `s` between newlines, from `i` on, after the pieces `acc` and the piece
/// `cur` read so far.
pub open spec fn pieces_from(s: Seq<u8>, i: int, cur: Seq<u8>, acc: Seq<Seq<u8>>) -> Seq<Seq<u8>>
    decreases s.len() - i,
{
    if i < 0 || i >= s.len() {
        acc.push(cur)
    } else if s[i] == 10 {
        pieces_from(s, i + 1, Seq::empty(), acc.push(cur))
    } else {
        pieces_from(s, i + 1, cur.push(s[i]), acc)
    }
}

/// The lines of a capture: the bytes before its first NUL, split at every newline (a final
/// newline leaves an empty last line).
pub open spec fn patch_lines(cap: Seq<u8>) -> Seq<Seq<u8>> {
    pieces_from(nul_cut(cap), 0, Seq::empty(), Seq::empty())
}

/// The lines from `i` on applied in turn; the registry after the last line applied, and the
/// first refusal, if any (the lines before it stay applied).
pub open spec fn apply_lines(r: RegistrySpec, ls: Seq<Seq<u8>>, vals: Seq<Seq<Option<u64>>>, i: int) -> (RegistrySpec, Option<Seq<char>>)
    decreases ls.len() - i,
{
    if i < 0 || i >= ls.len() {
        (r, None)
    } else {
        match save_spec(r, ls[i], vals[i]) {
            Err(e) => (r, Some(e)),
            Ok(r2) => apply_lines(r2, ls, vals, i + 1),
        }
    }
}

/// Values fitted to `n` rows: cut, or padded with zeros.
pub open spec fn fit_rows(v: Seq<u64>, n: int) -> Seq<u64> {
    if v.len() >= n {
        v.take(n)
    } else {
        v + Seq::new((n - v.len()) as nat, |k: int| 0u64)
    }
}

/// Every stored mask and mask binding fitted to the row count, so the world reloads.
pub open spec fn reconcile_kind(k: KindSpec, n: int) -> KindSpec {
    match k {
        KindSpec::AliasMask { mask } => KindSpec::AliasMask { mask: fit_rows(mask, n) },
        KindSpec::Bind { kind: BindKind::Mask, vals } => KindSpec::Bind { kind: BindKind::Mask, vals: fit_rows(vals, n) },
        _ => k,
    }
}

/// The registry with every stored mask fitted to its row count (at least zero).
pub open spec fn reconcile(r: RegistrySpec) -> RegistrySpec {
    let n: int = if r.n < 0 { 0 } else { r.n as int };
    RegistrySpec { ents: r.ents.map_values(|e: EntrySpec| EntrySpec { kind: reconcile_kind(e.kind, n), ..e }), ..r }
}

/// What a whole capture does (`vals[i]` giving the values of line `i`'s words): the lines in
/// order, stopping at the first refusal; when all apply, every stored mask fitted to the rows.
pub open spec fn save_patch_spec(r: RegistrySpec, cap: Seq<u8>, vals: Seq<Seq<Option<u64>>>) -> (RegistrySpec, Option<Seq<char>>) {
    let (r2, e) = apply_lines(r, patch_lines(cap), vals, 0);
    match e {
        Some(m) => (r2, Some(m)),
        None => (reconcile(r2), None),
    }
}

/// The lines of a capture (see `patch_lines`).
pub fn patch_lines_of(cap: &[u8]) -> (ls: Vec<Vec<u8>>)
    ensures
        ls@.map_values(|l: Vec<u8>| l@) == patch_lines(cap@),
{
    let end = nul_len(cap);
    let ghost s = nul_cut(cap@);
    let mut acc: Vec<Vec<u8>> = Vec::new();
    let mut cur: Vec<u8> = Vec::new();
    let mut i: usize = 0;
    proof {
        assert(acc@.map_values(|l: Vec<u8>| l@) =~= Seq::<Seq<u8>>::empty());
        assert(cur@ =~= Seq::<u8>::empty());
    }
    while i < end
        invariant
            end == first_nul(cap@, 0),
            end <= cap@.len(),
            s == cap@.subrange(0, end as int),
            0 <= i <= end,
            pieces_from(s, i as int, cur@, acc@.map_values(|l: Vec<u8>| l@)) == patch_lines(cap@),
        decreases end - i,
    {
        let ghost a0 = acc@.map_values(|l: Vec<u8>| l@);
        assert(s[i as int] == cap@[i as int]);
        if cap[i] == 10 {
            let piece = cur;
            cur = Vec::new();
            acc.push(piece);
            proof {
                assert(acc@.map_values(|l: Vec<u8>| l@) =~= a0.push(piece@));
            }
        } else {
            cur.push(cap[i]);
        }
        i += 1;
    }
    let ghost a0 = acc@.map_values(|l: Vec<u8>| l@);
    let last = cur;
    acc.push(last);
    proof {
        assert(acc@.map_values(|l: Vec<u8>| l@) =~= a0.push(last@));
    }
    acc
}

fn fit_rows_exec(v: Vec<u64>, n: usize) -> (r: Vec<u64>)
    ensures
        r@ == fit_rows(v@, n as int),
{
    let mut out: Vec<u64> = Vec::new();
    let mut k: usize = 0;
    while k < n
        invariant
            0 <= k <= n,
            out@.len() == k,
            forall|j: int| 0 <= j < k ==> out@[j] == (if j < v@.len() { v@[j] } else { 0u64 }),
        decreases n - k,
    {
        if k < v.len() {
            out.push(v[k]);
        } else {
            out.push(0u64);
        }
        k += 1;
    }
    proof {
        assert(out@ =~= fit_rows(v@, n as int));
    }
    out
}

fn reconcile_at(reg: &mut RegistryModel, i: usize, n: usize)
    requires
        i < old(reg).ents@.len(),
    ensures
        final(reg)@ == with_kind(old(reg)@, i as int, reconcile_kind(old(reg)@.ents[i as int].kind, n as int)),
{
    let ghost before = reg@;
    let e = take_entry(reg, i);
    let EntryModel { name, defval, kind } = e;
    let k2 = match kind {
        EntryKindModel::AliasMask { mask } => EntryKindModel::AliasMask { mask: fit_rows_exec(mask, n) },
        EntryKindModel::Bind { kind: BindKind::Mask, vals } => EntryKindModel::Bind { kind: BindKind::Mask, vals: fit_rows_exec(vals, n) },
        other => other,
    };
    put_entry(reg, i, EntryModel { name, defval, kind: k2 }, Ghost(before));
}

/// Applies a whole capture to the registry (see `save_patch_spec`): `values[i]` holds the
/// values of the words of the capture's `i`-th line (see `patch_lines_of`). On a refusal the
/// lines before it stay applied.
pub fn save_patch(reg: &mut RegistryModel, cap: &[u8], values: &[Vec<Option<u64>>]) -> (r: Result<(), Diag>)
    requires
        values@.len() == patch_lines(cap@).len(),
        forall|i: int| 0 <= i < values@.len() ==> (#[trigger] values@[i])@.len() == save_words(patch_lines(cap@)[i]).len(),
        cap@.len() < i32::MAX,
        i32::MIN <= old(reg).lat_w * old(reg).lat_h <= i32::MAX,
    ensures
        match r {
            Ok(_) => save_patch_spec(old(reg)@, cap@, values@.map_values(|v: Vec<Option<u64>>| v@)) == (final(reg)@, None::<Seq<char>>),
            Err(d) => save_patch_spec(old(reg)@, cap@, values@.map_values(|v: Vec<Option<u64>>| v@)) == (final(reg)@, Some(d.msg@))
                && d.code == 2,
        },
{
    let ls = patch_lines_of(cap);
    let ghost lv = ls@.map_values(|l: Vec<u8>| l@);
    let ghost vv = values@.map_values(|v: Vec<Option<u64>>| v@);
    let ghost r0 = reg@;
    proof {
        lemma_pieces_len(nul_cut(cap@), 0, Seq::empty(), Seq::empty());
        lemma_first_nul_le(cap@);
        assert(nul_cut(cap@).len() <= cap@.len());
        assert forall|j: int| 0 <= j < lv.len() implies (#[trigger] lv[j]).len() < i32::MAX by {
            assert(lv[j] == pieces_from(nul_cut(cap@), 0, Seq::empty(), Seq::empty())[j]);
        }
    }
    match apply_from(reg, &ls, values, 0, Ghost(lv), Ghost(vv)) {
        Err(d) => {
            return Err(d);
        },
        Ok(_) => {},
    }
    let n: usize = if reg.n < 0 {
        0
    } else {
        reg.n as usize
    };
    let ghost r1 = reg@;
    proof {
        assert(r1.ents.take(0).map_values(|e: EntrySpec| EntrySpec { kind: reconcile_kind(e.kind, n as int), ..e }) + r1.ents.skip(0) =~= r1.ents);
    }
    let mut k: usize = 0;
    while k < reg.ents.len()
        invariant
            0 <= k <= reg.ents@.len(),
            reg.ents@.len() == r1.ents.len(),
            n as int == (if r1.n < 0 { 0 } else { r1.n as int }),
            reg@ == (RegistrySpec {
                ents: r1.ents.take(k as int).map_values(|e: EntrySpec| EntrySpec { kind: reconcile_kind(e.kind, n as int), ..e }) + r1.ents.skip(k as int),
                ..r1
            }),
        decreases reg.ents@.len() - k,
    {
        let ghost b = reg@;
        reconcile_at(reg, k, n);
        proof {
            assert(r1.ents.take(k + 1).map_values(|e: EntrySpec| EntrySpec { kind: reconcile_kind(e.kind, n as int), ..e }) + r1.ents.skip(k + 1)
                =~= b.ents.update(k as int, EntrySpec { kind: reconcile_kind(b.ents[k as int].kind, n as int), ..b.ents[k as int] }));
        }
        k += 1;
    }
    proof {
        assert(r1.ents.take(k as int).map_values(|e: EntrySpec| EntrySpec { kind: reconcile_kind(e.kind, n as int), ..e }) + r1.ents.skip(k as int)
            =~= r1.ents.map_values(|e: EntrySpec| EntrySpec { kind: reconcile_kind(e.kind, n as int), ..e }));
        assert(reg@ == reconcile(r1));
    }
    Ok(())
}

fn apply_from(
    reg: &mut RegistryModel,
    ls: &Vec<Vec<u8>>,
    values: &[Vec<Option<u64>>],
    i: usize,
    Ghost(lv): Ghost<Seq<Seq<u8>>>,
    Ghost(vv): Ghost<Seq<Seq<Option<u64>>>>,
) -> (r: Result<(), Diag>)
    requires
        lv == ls@.map_values(|l: Vec<u8>| l@),
        vv == values@.map_values(|v: Vec<Option<u64>>| v@),
        values@.len() == lv.len(),
        forall|j: int| 0 <= j < values@.len() ==> (#[trigger] values@[j])@.len() == save_words(lv[j]).len(),
        forall|j: int| 0 <= j < lv.len() ==> (#[trigger] lv[j]).len() < i32::MAX,
        i32::MIN <= old(reg).lat_w * old(reg).lat_h <= i32::MAX,
        i <= ls@.len(),
    ensures
        match r {
            Ok(_) => apply_lines(old(reg)@, lv, vv, i as int) == (final(reg)@, None::<Seq<char>>),
            Err(d) => apply_lines(old(reg)@, lv, vv, i as int) == (final(reg)@, Some(d.msg@)) && d.code == 2,
        },
    decreases ls@.len() - i,
{
    if i >= ls.len() {
        return Ok(());
    }
    proof {
        assert(ls@[i as int]@ == lv[i as int]);
        assert(values@[i as int]@ == vv[i as int]);
    }
    let ghost before = reg@;
    match save_line(reg, ls[i].as_slice(), values[i].as_slice()) {
        Err(d) => Err(d),
        Ok(_) => {
            proof {
                lemma_save_keeps_lattice(before, lv[i as int], vv[i as int]);
            }
            apply_from(reg, ls, values, i + 1, Ghost(lv), Ghost(vv))
        },
    }
}

proof fn lemma_save_keeps_lattice(r: RegistrySpec, line: Seq<u8>, vals: Seq<Option<u64>>)
    ensures
        save_spec(r, line, vals) matches Ok(r2) ==> r2.lat_w == r.lat_w && r2.lat_h == r.lat_h,
{
}

proof fn lemma_first_nul_le(s: Seq<u8>)
    ensures
        0 <= first_nul(s, 0) <= s.len(),
{
    lemma_first_nul_le_from(s, 0);
}

proof fn lemma_first_nul_le_from(s: Seq<u8>, i: int)
    requires
        0 <= i <= s.len(),
    ensures
        i <= first_nul(s, i) <= s.len(),
    decreases s.len() - i,
{
    if i < s.len() && s[i] != 0 {
        lemma_first_nul_le_from(s, i + 1);
    }
}

proof fn lemma_pieces_len(s: Seq<u8>, i: int, cur: Seq<u8>, acc: Seq<Seq<u8>>)
    requires
        0 <= i <= s.len(),
        cur.len() <= i,
        forall|j: int| 0 <= j < acc.len() ==> (#[trigger] acc[j]).len() <= i,
    ensures
        forall|j: int| 0 <= j < pieces_from(s, i, cur, acc).len() ==> (#[trigger] pieces_from(s, i, cur, acc)[j]).len() <= s.len(),
    decreases s.len() - i,
{
    if i >= s.len() {
        let r = acc.push(cur);
        assert(pieces_from(s, i, cur, acc) == r);
        assert forall|j: int| 0 <= j < r.len() implies (#[trigger] r[j]).len() <= s.len() by {}
    } else if s[i] == 10 {
        let a2 = acc.push(cur);
        assert forall|j: int| 0 <= j < a2.len() implies (#[trigger] a2[j]).len() <= i + 1 by {}
        lemma_pieces_len(s, i + 1, Seq::empty(), a2);
        assert(pieces_from(s, i, cur, acc) == pieces_from(s, i + 1, Seq::empty(), a2));
    } else {
        lemma_pieces_len(s, i + 1, cur.push(s[i]), acc);
        assert(pieces_from(s, i, cur, acc) == pieces_from(s, i + 1, cur.push(s[i]), acc));
    }
}

/* ---------- what the overlay reads ---------- */

/// The role an entry plays for the alias overlay: the carrier a target bound to a value
/// declares (boolean columns, fields, stored masks and tags are masks; symbol and character
/// columns and fields are symbols; other columns, fields and relations are numbers; set
/// relations are vectors; a binding by its kind), or no value for functions and archetypes.
pub open spec fn role_of(k: KindSpec) -> EntryRole {
    match k {
        KindSpec::Col { ty, .. } => match ty {
            ColType::Bool => EntryRole::Value(AliasCarrier::Mask),
            ColType::Sym => EntryRole::Value(AliasCarrier::Symbol),
            ColType::Char => EntryRole::Value(AliasCarrier::Symbol),
            _ => EntryRole::Value(AliasCarrier::Number),
        },
        KindSpec::Field { ty, .. } => match ty {
            ColType::Bool => EntryRole::Value(AliasCarrier::Mask),
            ColType::Sym => EntryRole::Value(AliasCarrier::Symbol),
            ColType::Char => EntryRole::Value(AliasCarrier::Symbol),
            _ => EntryRole::Value(AliasCarrier::Number),
        },
        KindSpec::AliasMask { .. } => EntryRole::Value(AliasCarrier::Mask),
        KindSpec::Tag { .. } => EntryRole::Value(AliasCarrier::Mask),
        KindSpec::Rel { .. } => EntryRole::Value(AliasCarrier::Number),
        KindSpec::SRel { .. } => EntryRole::Value(AliasCarrier::Vector),
        KindSpec::Bind { kind, .. } => EntryRole::Value(match kind {
            BindKind::Entity => AliasCarrier::Entity,
            BindKind::Mask => AliasCarrier::Mask,
            BindKind::Point => AliasCarrier::Point,
            BindKind::Num => AliasCarrier::Number,
            BindKind::Vec => AliasCarrier::Vector,
        }),
        KindSpec::Fn { .. } => EntryRole::Other,
        KindSpec::Proto { .. } => EntryRole::Other,
    }
}

fn role_exec(k: &EntryKindModel) -> (r: EntryRole)
    ensures
        r == role_of(k@),
{
    match k {
        EntryKindModel::Col { ty, .. } | EntryKindModel::Field { ty, .. } => match ty {
            ColType::Bool => EntryRole::Value(AliasCarrier::Mask),
            ColType::Sym => EntryRole::Value(AliasCarrier::Symbol),
            ColType::Char => EntryRole::Value(AliasCarrier::Symbol),
            _ => EntryRole::Value(AliasCarrier::Number),
        },
        EntryKindModel::AliasMask { .. } => EntryRole::Value(AliasCarrier::Mask),
        EntryKindModel::Tag { .. } => EntryRole::Value(AliasCarrier::Mask),
        EntryKindModel::Rel { .. } => EntryRole::Value(AliasCarrier::Number),
        EntryKindModel::SRel { .. } => EntryRole::Value(AliasCarrier::Vector),
        EntryKindModel::Bind { kind, .. } => EntryRole::Value(match kind {
            BindKind::Entity => AliasCarrier::Entity,
            BindKind::Mask => AliasCarrier::Mask,
            BindKind::Point => AliasCarrier::Point,
            BindKind::Num => AliasCarrier::Number,
            BindKind::Vec => AliasCarrier::Vector,
        }),
        EntryKindModel::Fn { .. } => EntryRole::Other,
        EntryKindModel::Proto { .. } => EntryRole::Other,
    }
}

fn copy_text(s: &String) -> (r: String)
    ensures
        r@ == s@,
{
    String::from_str(s.as_str())
}

impl RegistryModel {
    /// What the alias overlay reads of this registry: its structural fingerprint, its row
    /// count (at least zero), and each declaration's name and role, in declaration order.
    pub fn overlay_view(&self) -> (v: RegistryView)
        ensures
            v.fingerprint == fingerprint_spec(self@),
            v.rows == (if self.n < 0 { 0 } else { self.n as int }),
            v.entries@.len() == self@.ents.len(),
            forall|k: int|
                0 <= k < self@.ents.len() ==> (#[trigger] v.entries@[k]).name@ == self@.ents[k].name
                    && v.entries@[k].role == role_of(self@.ents[k].kind),
    {
        let fp = self.fingerprint();
        let rows: usize = if self.n < 0 {
            0
        } else {
            self.n as usize
        };
        let mut entries: Vec<ViewEntry> = Vec::new();
        let mut k: usize = 0;
        while k < self.ents.len()
            invariant
                0 <= k <= self.ents@.len(),
                entries@.len() == k,
                forall|j: int|
                    0 <= j < k ==> (#[trigger] entries@[j]).name@ == self@.ents[j].name && entries@[j].role
                        == role_of(self@.ents[j].kind),
            decreases self.ents@.len() - k,
        {
            proof {
                assert(self@.ents[k as int] == self.ents@[k as int]@);
            }
            let e = ViewEntry { name: copy_text(&self.ents[k].name), role: role_exec(&self.ents[k].kind) };
            entries.push(e);
            k += 1;
        }
        RegistryView { fingerprint: fp, rows, entries }
    }
}

} // verus!
