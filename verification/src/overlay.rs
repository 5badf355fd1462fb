//! The dynamic `^name` overlay: a versioned environment of alias targets kept beside a
//! frozen registry, the host resolvers a target may name, the snapshots an emission reads,
//! and the tab-separated sidecar an environment is saved in.
use vstd::prelude::*;
use crate::Diag;
use crate::alias::{
    AliasCarrier, carrier_word, DeclId, HostInput, fail, alias_fail_text, names_eq,
    names_eq_spec, same_text, service_description, service_description_spec, pair_texts,
    keys_sorted, text_lt, lemma_text_lt_irreflexive, lemma_text_lt_transitive,
    lemma_text_lt_total, text_less, token_shaped, fold_spec, canonical_name, validate_name,
    lemma_fold_idempotent, pair_refusal, input_pairs,
};
use crate::text::{cat, u64_text, dec_spelling, chars_of, string_of, hex16, hex16_text};
use crate::alias::{stamp_word_spec, service_stamp_word};
use crate::migration::{
    words_from, words_exec, parse_dec_spec, parse_dec_exec, word_is, lines_from, lines_exec,
    fields, fields_exec, parse_hex_spec, parse_hex_exec, sub_chars,
};
use crate::alias::{parse_stamp_spec, parse_service_stamp, lemma_stamp_roundtrip, lemma_names_eq_equivalence};
use crate::migration::{
    lacks, lemma_lines_cons, lemma_fields_cons, lemma_fields_one, lemma_hex16_shape,
    lemma_parse_hex16, lemma_parse_dec,
};

verus! {

/* ---------- what the overlay reads of a registry ---------- */

/// What one registry declaration offers the overlay.
#[derive(Debug, Clone, Copy, PartialEq, Eq)]
pub enum EntryRole {
    /// A value binding (a column, field, relation, tag, stored mask or named binding), with
    /// the carrier a target bound to it declares.
    Value(AliasCarrier),
    /// A service declaration: its identity and version, whether it is an input service that
    /// takes no arguments, and its output carrier when the output is an entity or a mask.
    Service { declaration: DeclId, version: u64, input_unit: bool, output: Option<AliasCarrier> },
    /// Any other declaration: a function, array, enum, constructor or archetype.
    Other,
}

/// One declaration as the overlay sees it: its registry name and its role.
#[derive(Debug, Clone)]
pub struct ViewEntry {
    pub name: String,
    pub role: EntryRole,
}

/// A frozen registry as the overlay reads it: its schema fingerprint, its row count, and its
/// declarations in declaration order. A name is looked up as the registry does, by the
/// ASCII-only name fold, the first declaration in order winning.
#[derive(Debug, Clone)]
pub struct RegistryView {
    pub fingerprint: u64,
    pub rows: usize,
    pub entries: Vec<ViewEntry>,
}

/// The first declaration at or after `i` whose name folds to the word's fold.
pub open spec fn find_from(es: Seq<ViewEntry>, w: Seq<char>, i: int) -> Option<int>
    decreases es.len() - i,
{
    if i < 0 || i >= es.len() {
        None
    } else if names_eq_spec(es[i].name@, w) {
        Some(i)
    } else {
        find_from(es, w, i + 1)
    }
}

/// The declaration a word names in a registry, if any.
pub open spec fn find_entry(v: RegistryView, w: Seq<char>) -> Option<int> {
    find_from(v.entries@, w, 0)
}

pub proof fn lemma_find_range(es: Seq<ViewEntry>, w: Seq<char>, i: int)
    requires
        0 <= i,
    ensures
        find_from(es, w, i) matches Some(k) ==> i <= k < es.len() && names_eq_spec(es[k].name@, w),
    decreases es.len() - i,
{
    if i < es.len() && !names_eq_spec(es[i].name@, w) {
        lemma_find_range(es, w, i + 1);
    }
}

/// The declaration a word names (see `find_entry`).
pub fn find(view: &RegistryView, w: &str) -> (r: Option<usize>)
    ensures
        match r {
            Some(i) => find_entry(*view, w@) == Some(i as int) && i < view.entries@.len(),
            None => find_entry(*view, w@) is None,
        },
{
    let mut k: usize = 0;
    while k < view.entries.len()
        invariant
            0 <= k <= view.entries@.len(),
            find_entry(*view, w@) == find_from(view.entries@, w@, k as int),
        decreases view.entries@.len() - k,
    {
        if names_eq(view.entries[k].name.as_str(), w) {
            return Some(k);
        }
        k += 1;
    }
    None
}

/// The carrier of the value binding at `i`, or the refusal of a declaration that is none.
pub open spec fn carrier_at(v: RegistryView, i: int) -> Result<AliasCarrier, Seq<char>> {
    match v.entries@[i].role {
        EntryRole::Value(c) => Ok(c),
        _ => Err(alias_fail_text("'"@ + v.entries@[i].name@ + "' is not a value binding"@)),
    }
}

/// The carrier of the value binding at `i` (see `carrier_at`).
pub fn entry_carrier(view: &RegistryView, i: usize) -> (r: Result<AliasCarrier, Diag>)
    requires
        i < view.entries@.len(),
    ensures
        match r {
            Ok(c) => carrier_at(*view, i as int) == Ok::<AliasCarrier, Seq<char>>(c),
            Err(d) => carrier_at(*view, i as int) == Err::<AliasCarrier, Seq<char>>(d.msg@) && d.code == 2,
        },
{
    match view.entries[i].role {
        EntryRole::Value(c) => Ok(c),
        _ => {
            let m = cat("'", view.entries[i].name.as_str());
            let m = cat(m.as_str(), "' is not a value binding");
            Err(fail(m.as_str()))
        },
    }
}

/* ---------- mask rows ---------- */

/// A mask row as the overlay holds it: 0, 1, or the signed zero that prints as "-0" and
/// counts as 0.
#[derive(Debug, Clone, Copy, PartialEq, Eq, Structural)]
pub enum MaskCell {
    Zero,
    NegativeZero,
    One,
}

/// The word a sidecar spells a mask row with: "0", "-0" or "1".
pub open spec fn cell_word(c: MaskCell) -> Seq<char> {
    match c {
        MaskCell::Zero => seq!['0'],
        MaskCell::NegativeZero => seq!['-', '0'],
        MaskCell::One => seq!['1'],
    }
}

/// The mask row a word spells, exactly: "0", "-0" or "1".
pub open spec fn cell_of_word(w: Seq<char>) -> Option<MaskCell> {
    if w == seq!['0'] {
        Some(MaskCell::Zero)
    } else if w == seq!['-', '0'] {
        Some(MaskCell::NegativeZero)
    } else if w == seq!['1'] {
        Some(MaskCell::One)
    } else {
        None
    }
}

/// Reading a row's own word gives the row back.
pub proof fn lemma_cell_word_roundtrip(c: MaskCell)
    ensures
        cell_of_word(cell_word(c)) == Some(c),
{
    assert(seq!['-', '0'].len() != seq!['0'].len());
    assert(seq!['1'][0] != seq!['0'][0]);
    assert(seq!['1'].len() != seq!['-', '0'].len());
}

/// The mask row a word spells (see `cell_of_word`).
pub fn cell_of(w: &Vec<char>) -> (r: Option<MaskCell>)
    ensures
        r == cell_of_word(w@),
{
    if w.len() == 1 && w[0] == '0' {
        assert(w@ =~= seq!['0']);
        Some(MaskCell::Zero)
    } else if w.len() == 2 && w[0] == '-' && w[1] == '0' {
        assert(w@ =~= seq!['-', '0']);
        assert(w@ != seq!['0']);
        Some(MaskCell::NegativeZero)
    } else if w.len() == 1 && w[0] == '1' {
        assert(w@ =~= seq!['1']);
        assert(w@ != seq!['0']);
        Some(MaskCell::One)
    } else {
        proof {
            if w@ == seq!['0'] {
                assert(w@[0] == '0');
            }
            if w@ == seq!['-', '0'] {
                assert(w@[0] == '-' && w@[1] == '0');
            }
            if w@ == seq!['1'] {
                assert(w@[0] == '1');
            }
        }
        None
    }
}

/// The row's word.
pub fn cell_text(c: MaskCell) -> (s: &'static str)
    ensures
        s@ == cell_word(c),
{
    proof {
        reveal_strlit("0");
        reveal_strlit("-0");
        reveal_strlit("1");
    }
    match c {
        MaskCell::Zero => "0",
        MaskCell::NegativeZero => "-0",
        MaskCell::One => "1",
    }
}

/* ---------- resolvers ---------- */

/// The host resolvers a target may name. Registration is fixed here, never host data.
#[derive(Debug, Clone, Copy, PartialEq, Eq, Structural)]
pub enum Resolver {
    InputEntity,
    InputMask,
    DeicticCursor,
    DeicticObserver,
    DeicticSelected,
    DeicticWorld,
}

/// A resolver's registered id.
pub open spec fn resolver_id(r: Resolver) -> Seq<char> {
    match r {
        Resolver::InputEntity => "input.entity"@,
        Resolver::InputMask => "input.mask"@,
        Resolver::DeicticCursor => "deictic.cursor"@,
        Resolver::DeicticObserver => "deictic.observer"@,
        Resolver::DeicticSelected => "deictic.selected"@,
        Resolver::DeicticWorld => "deictic.world"@,
    }
}

impl Resolver {
    /// The resolver's registered id.
    pub fn id(self) -> (s: &'static str)
        ensures
            s@ == resolver_id(self),
    {
        match self {
            Resolver::InputEntity => "input.entity",
            Resolver::InputMask => "input.mask",
            Resolver::DeicticCursor => "deictic.cursor",
            Resolver::DeicticObserver => "deictic.observer",
            Resolver::DeicticSelected => "deictic.selected",
            Resolver::DeicticWorld => "deictic.world",
        }
    }
}

/// A registered resolver: which one, the service version its behaviour carries, and the
/// carrier its result inhabits.
#[derive(Debug, Clone, Copy, PartialEq, Eq, Structural)]
pub struct ResolverSpec {
    pub resolver: Resolver,
    pub service: u64,
    pub carrier: AliasCarrier,
}

/// The registration of each resolver: service 1; the entity inputs and the cursor and
/// observer return an entity, the others a mask.
pub open spec fn registration(r: Resolver) -> ResolverSpec {
    ResolverSpec {
        resolver: r,
        service: 1,
        carrier: match r {
            Resolver::InputEntity | Resolver::DeicticCursor | Resolver::DeicticObserver => AliasCarrier::Entity,
            _ => AliasCarrier::Mask,
        },
    }
}

/// The resolver registered under an id, if any.
pub open spec fn resolver_named(id: Seq<char>) -> Option<Resolver> {
    if id == "input.entity"@ {
        Some(Resolver::InputEntity)
    } else if id == "input.mask"@ {
        Some(Resolver::InputMask)
    } else if id == "deictic.cursor"@ {
        Some(Resolver::DeicticCursor)
    } else if id == "deictic.observer"@ {
        Some(Resolver::DeicticObserver)
    } else if id == "deictic.selected"@ {
        Some(Resolver::DeicticSelected)
    } else if id == "deictic.world"@ {
        Some(Resolver::DeicticWorld)
    } else {
        None
    }
}

/// A resolver's id names it.
pub proof fn lemma_resolver_id_names(r: Resolver)
    ensures
        resolver_named(resolver_id(r)) == Some(r),
{
    reveal_strlit("input.entity");
    reveal_strlit("input.mask");
    reveal_strlit("deictic.cursor");
    reveal_strlit("deictic.observer");
    reveal_strlit("deictic.selected");
    reveal_strlit("deictic.world");
    let a = "input.entity"@;
    let b = "input.mask"@;
    let c = "deictic.cursor"@;
    let d = "deictic.observer"@;
    let e = "deictic.selected"@;
    let f = "deictic.world"@;
    assert(a[6] != b[6] || a.len() != b.len());
    assert(a.len() != c.len() || a[0] != c[0]);
    assert(a[0] != d[0]);
    assert(a[0] != e[0]);
    assert(a[0] != f[0]);
    assert(b[0] != c[0]);
    assert(b[0] != d[0]);
    assert(b[0] != e[0]);
    assert(b[0] != f[0]);
    assert(c[8] != d[8]);
    assert(c[8] != e[8]);
    assert(c[8] != f[8]);
    assert(d[8] != e[8]);
    assert(d[8] != f[8]);
    assert(e[8] != f[8]);
}

/// The registered resolver under `id`, or `None`.
pub fn resolver_spec(id: &str) -> (r: Option<ResolverSpec>)
    ensures
        match r {
            Some(s) => resolver_named(id@) == Some(s.resolver) && s == registration(s.resolver),
            None => resolver_named(id@) is None,
        },
{
    if same_text(id, "input.entity") {
        return Some(ResolverSpec { resolver: Resolver::InputEntity, service: 1, carrier: AliasCarrier::Entity });
    }
    if same_text(id, "input.mask") {
        return Some(ResolverSpec { resolver: Resolver::InputMask, service: 1, carrier: AliasCarrier::Mask });
    }
    if same_text(id, "deictic.cursor") {
        return Some(ResolverSpec { resolver: Resolver::DeicticCursor, service: 1, carrier: AliasCarrier::Entity });
    }
    if same_text(id, "deictic.observer") {
        return Some(ResolverSpec { resolver: Resolver::DeicticObserver, service: 1, carrier: AliasCarrier::Entity });
    }
    if same_text(id, "deictic.selected") {
        return Some(ResolverSpec { resolver: Resolver::DeicticSelected, service: 1, carrier: AliasCarrier::Mask });
    }
    if same_text(id, "deictic.world") {
        return Some(ResolverSpec { resolver: Resolver::DeicticWorld, service: 1, carrier: AliasCarrier::Mask });
    }
    None
}

/// What a resolver returns: an entity row, or a mask of one row per registry row.
#[derive(Debug, Clone, PartialEq)]
pub enum ResolverValue {
    Entity(usize),
    Mask(Vec<MaskCell>),
}

/// A resolver result as a value.
pub enum ValueSpec {
    Entity(nat),
    Mask(Seq<MaskCell>),
}

impl View for ResolverValue {
    type V = ValueSpec;

    open spec fn view(&self) -> ValueSpec {
        match self {
            ResolverValue::Entity(row) => ValueSpec::Entity(*row as nat),
            ResolverValue::Mask(vs) => ValueSpec::Mask(vs@),
        }
    }
}

/// The value stored under a key among pairs with distinct keys.
pub open spec fn pairs_get(ps: Seq<(Seq<char>, Seq<char>)>, k: Seq<char>) -> Option<Seq<char>> {
    if exists|i: int| 0 <= i < ps.len() && (#[trigger] ps[i]).0 == k {
        Some(ps[choose|i: int| 0 <= i < ps.len() && (#[trigger] ps[i]).0 == k].1)
    } else {
        None
    }
}

/// Keys in strictly increasing order are distinct.
proof fn lemma_sorted_keys_distinct(ps: Seq<(Seq<char>, Seq<char>)>, i: int, j: int)
    requires
        keys_sorted(ps),
        0 <= i < ps.len(),
        0 <= j < ps.len(),
        ps[i].0 == ps[j].0,
    ensures
        i == j,
{
    if i < j {
        lemma_text_lt_irreflexive(ps[i].0);
    } else if j < i {
        lemma_text_lt_irreflexive(ps[j].0);
    }
}

/// The value of the frozen input under `key` (see `pairs_get`).
fn input_get<'a>(input: &'a HostInput, key: &str) -> (r: Option<&'a str>)
    requires
        input.wf(),
    ensures
        match r {
            Some(v) => pairs_get(pair_texts(input.pairs@), key@) == Some(v@),
            None => pairs_get(pair_texts(input.pairs@), key@) is None,
        },
{
    let r = input.get(key);
    proof {
        let ps = pair_texts(input.pairs@);
        match r {
            Some(v) => {
                let k = choose|k: int| 0 <= k < input.pairs@.len() && #[trigger] ps[k] == (key@, v@);
                assert(ps[k].0 == key@);
                let j = choose|i: int| 0 <= i < ps.len() && (#[trigger] ps[i]).0 == key@;
                lemma_sorted_keys_distinct(ps, j, k);
            },
            None => {
                assert(!(exists|i: int| 0 <= i < ps.len() && (#[trigger] ps[i]).0 == key@));
            },
        }
    }
    r
}

/// `w.parse::<usize>()`: an optional '+' and decimal digits, the value within `usize`.
pub open spec fn parse_row_spec(w: Seq<char>) -> Option<nat> {
    match parse_dec_spec(w) {
        Some(x) => if x <= usize::MAX {
            Some(x as nat)
        } else {
            None
        },
        None => None,
    }
}

/// What an entity resolver makes of its input: the row spelled under `key`, refused when
/// the key is absent, the spelling is no row index, or the row is outside the world.
pub open spec fn entity_input_spec(rows: nat, input: Seq<(Seq<char>, Seq<char>)>, r: Seq<char>, key: Seq<char>) -> Result<ValueSpec, Seq<char>> {
    match pairs_get(input, key) {
        None => Err(alias_fail_text("resolver '"@ + r + "' needs a '"@ + key + "' input"@)),
        Some(s) => match parse_row_spec(s) {
            None => Err(alias_fail_text("resolver '"@ + r + "' input '"@ + s + "' is not a row index"@)),
            Some(row) => if row >= rows {
                Err(alias_fail_text("resolver '"@ + r + "' row "@ + dec_spelling(row) + " is outside a world of "@ + dec_spelling(rows) + " rows"@))
            } else {
                Ok(ValueSpec::Entity(row))
            },
        },
    }
}

/// The mask rows the first `n` tokens spell, or the first token that is neither "0" nor "1".
pub open spec fn token_cells(ts: Seq<Seq<char>>, n: int) -> Result<Seq<MaskCell>, Seq<char>>
    decreases n,
{
    if n <= 0 {
        Ok(Seq::empty())
    } else {
        match token_cells(ts, n - 1) {
            Err(t) => Err(t),
            Ok(cs) => if ts[n - 1] == seq!['0'] {
                Ok(cs.push(MaskCell::Zero))
            } else if ts[n - 1] == seq!['1'] {
                Ok(cs.push(MaskCell::One))
            } else {
                Err(ts[n - 1])
            },
        }
    }
}

proof fn lemma_token_cells_len(ts: Seq<Seq<char>>, n: int)
    requires
        0 <= n,
    ensures
        token_cells(ts, n) matches Ok(cs) ==> cs.len() == n,
    decreases n,
{
    if n > 0 {
        lemma_token_cells_len(ts, n - 1);
    }
}

proof fn lemma_token_cells_err_stays(ts: Seq<Seq<char>>, a: int, b: int)
    requires
        0 <= a <= b,
        token_cells(ts, a) is Err,
    ensures
        token_cells(ts, b) == token_cells(ts, a),
    decreases b - a,
{
    if a < b {
        lemma_token_cells_err_stays(ts, a, b - 1);
    }
}

/// What a mask resolver makes of its input: the white-space separated "0"/"1" tokens under
/// `key`, exactly one per registry row.
pub open spec fn mask_input_spec(rows: nat, input: Seq<(Seq<char>, Seq<char>)>, r: Seq<char>, key: Seq<char>) -> Result<ValueSpec, Seq<char>> {
    match pairs_get(input, key) {
        None => Err(alias_fail_text("resolver '"@ + r + "' needs a '"@ + key + "' input"@)),
        Some(s) => {
            let ts = words_from(s, 0);
            match token_cells(ts, ts.len() as int) {
                Err(t) => Err(alias_fail_text("resolver '"@ + r + "' token '"@ + t + "' is not 0 or 1"@)),
                Ok(cs) => if cs.len() != rows {
                    Err(alias_fail_text("resolver '"@ + r + "' produced "@ + dec_spelling(cs.len()) + " rows, registry has "@ + dec_spelling(rows)))
                } else {
                    Ok(ValueSpec::Mask(cs))
                },
            }
        },
    }
}

/// What a resolver returns for a frozen (row count, input) pair.
pub open spec fn run_spec(r: Resolver, rows: nat, input: Seq<(Seq<char>, Seq<char>)>) -> Result<ValueSpec, Seq<char>> {
    match r {
        Resolver::InputEntity => entity_input_spec(rows, input, "input.entity"@, "entity"@),
        Resolver::InputMask => mask_input_spec(rows, input, "input.mask"@, "mask"@),
        Resolver::DeicticCursor => entity_input_spec(rows, input, "deictic.cursor"@, "cursor"@),
        Resolver::DeicticObserver => entity_input_spec(rows, input, "deictic.observer"@, "observer"@),
        Resolver::DeicticSelected => mask_input_spec(rows, input, "deictic.selected"@, "selected"@),
        Resolver::DeicticWorld => Ok(ValueSpec::Mask(Seq::new(rows, |i: int| MaskCell::One))),
    }
}

fn run_entity_input(rows: usize, input: &HostInput, resolver: &str, key: &str) -> (r: Result<ResolverValue, Diag>)
    requires
        input.wf(),
    ensures
        match r {
            Ok(v) => entity_input_spec(rows as nat, pair_texts(input.pairs@), resolver@, key@) == Ok::<ValueSpec, Seq<char>>(v@),
            Err(d) => entity_input_spec(rows as nat, pair_texts(input.pairs@), resolver@, key@) == Err::<ValueSpec, Seq<char>>(d.msg@) && d.code == 2,
        },
{
    let spelling = match input_get(input, key) {
        None => {
            let m = cat("resolver '", resolver);
            let m = cat(m.as_str(), "' needs a '");
            let m = cat(m.as_str(), key);
            let m = cat(m.as_str(), "' input");
            return Err(fail(m.as_str()));
        },
        Some(s) => s,
    };
    let v = chars_of(spelling);
    let parsed = parse_dec_exec(&v);
    let row: usize = match parsed {
        Some(x) if x <= usize::MAX as u64 => x as usize,
        _ => {
            let m = cat("resolver '", resolver);
            let m = cat(m.as_str(), "' input '");
            let m = cat(m.as_str(), spelling);
            let m = cat(m.as_str(), "' is not a row index");
            return Err(fail(m.as_str()));
        },
    };
    if row >= rows {
        let m = cat("resolver '", resolver);
        let m = cat(m.as_str(), "' row ");
        let t = u64_text(row as u64);
        let m = cat(m.as_str(), t.as_str());
        let m = cat(m.as_str(), " is outside a world of ");
        let t = u64_text(rows as u64);
        let m = cat(m.as_str(), t.as_str());
        let m = cat(m.as_str(), " rows");
        return Err(fail(m.as_str()));
    }
    Ok(ResolverValue::Entity(row))
}

fn run_mask_input(rows: usize, input: &HostInput, resolver: &str, key: &str) -> (r: Result<ResolverValue, Diag>)
    requires
        input.wf(),
    ensures
        match r {
            Ok(v) => mask_input_spec(rows as nat, pair_texts(input.pairs@), resolver@, key@) == Ok::<ValueSpec, Seq<char>>(v@),
            Err(d) => mask_input_spec(rows as nat, pair_texts(input.pairs@), resolver@, key@) == Err::<ValueSpec, Seq<char>>(d.msg@) && d.code == 2,
        },
{
    let spelling = match input_get(input, key) {
        None => {
            let m = cat("resolver '", resolver);
            let m = cat(m.as_str(), "' needs a '");
            let m = cat(m.as_str(), key);
            let m = cat(m.as_str(), "' input");
            return Err(fail(m.as_str()));
        },
        Some(s) => s,
    };
    let v = chars_of(spelling);
    let ts = words_exec(&v);
    let ghost tv = ts@.map_values(|w: Vec<char>| w@);
    let mut cells: Vec<MaskCell> = Vec::new();
    let mut k: usize = 0;
    while k < ts.len()
        invariant
            tv == ts@.map_values(|w: Vec<char>| w@),
            tv == words_from(spelling@, 0),
            pairs_get(pair_texts(input.pairs@), key@) == Some(spelling@),
            0 <= k <= ts@.len(),
            token_cells(tv, k as int) == Ok::<Seq<MaskCell>, Seq<char>>(cells@),
        decreases ts@.len() - k,
    {
        proof {
            assert(tv[k as int] == ts@[k as int]@);
        }
        if word_is(&ts[k], "0") {
            proof {
                reveal_strlit("0");
            }
            cells.push(MaskCell::Zero);
        } else if word_is(&ts[k], "1") {
            proof {
                reveal_strlit("0");
                reveal_strlit("1");
                assert("0"@ =~= seq!['0']);
            }
            cells.push(MaskCell::One);
        } else {
            let t = string_of(ts[k].as_slice());
            let m = cat("resolver '", resolver);
            let m = cat(m.as_str(), "' token '");
            let m = cat(m.as_str(), t.as_str());
            let m = cat(m.as_str(), "' is not 0 or 1");
            proof {
                reveal_strlit("0");
                reveal_strlit("1");
                assert("0"@ =~= seq!['0']);
                assert("1"@ =~= seq!['1']);
                assert(tv.len() == ts@.len());
                assert(token_cells(tv, k + 1) == Err::<Seq<MaskCell>, Seq<char>>(tv[k as int]));
                lemma_token_cells_err_stays(tv, k + 1, tv.len() as int);
            }
            return Err(fail(m.as_str()));
        }
        proof {
            reveal_strlit("0");
            reveal_strlit("1");
            assert("0"@ =~= seq!['0']);
            assert("1"@ =~= seq!['1']);
        }
        k += 1;
    }
    assert(tv.len() == ts@.len());
    if cells.len() != rows {
        let m = cat("resolver '", resolver);
        let m = cat(m.as_str(), "' produced ");
        let t = u64_text(cells.len() as u64);
        let m = cat(m.as_str(), t.as_str());
        let m = cat(m.as_str(), " rows, registry has ");
        let t = u64_text(rows as u64);
        let m = cat(m.as_str(), t.as_str());
        return Err(fail(m.as_str()));
    }
    Ok(ResolverValue::Mask(cells))
}

/// Runs a resolver against a frozen (row count, input) pair (see `run_spec`).
pub fn run_resolver(resolver: Resolver, rows: usize, input: &HostInput) -> (r: Result<ResolverValue, Diag>)
    requires
        input.wf(),
    ensures
        match r {
            Ok(v) => run_spec(resolver, rows as nat, pair_texts(input.pairs@)) == Ok::<ValueSpec, Seq<char>>(v@),
            Err(d) => run_spec(resolver, rows as nat, pair_texts(input.pairs@)) == Err::<ValueSpec, Seq<char>>(d.msg@) && d.code == 2,
        },
{
    match resolver {
        Resolver::InputEntity => run_entity_input(rows, input, "input.entity", "entity"),
        Resolver::InputMask => run_mask_input(rows, input, "input.mask", "mask"),
        Resolver::DeicticCursor => run_entity_input(rows, input, "deictic.cursor", "cursor"),
        Resolver::DeicticObserver => run_entity_input(rows, input, "deictic.observer", "observer"),
        Resolver::DeicticSelected => run_mask_input(rows, input, "deictic.selected", "selected"),
        Resolver::DeicticWorld => {
            let mut cells: Vec<MaskCell> = Vec::new();
            let mut k: usize = 0;
            while k < rows
                invariant
                    0 <= k <= rows,
                    cells@ =~= Seq::new(k as nat, |i: int| MaskCell::One),
                decreases rows - k,
            {
                cells.push(MaskCell::One);
                k += 1;
            }
            Ok(ResolverValue::Mask(cells))
        },
    }
}

/// Whether a result inhabits a carrier over a row count: an entity below it, or a mask of
/// exactly that many rows.
pub open spec fn fits_spec(v: ValueSpec, c: AliasCarrier, rows: nat) -> bool {
    match v {
        ValueSpec::Entity(row) => c == AliasCarrier::Entity && row < rows,
        ValueSpec::Mask(vs) => c == AliasCarrier::Mask && vs.len() == rows,
    }
}

/// Whether a result inhabits a carrier over a row count (see `fits_spec`).
pub fn value_fits(value: &ResolverValue, carrier: AliasCarrier, rows: usize) -> (b: bool)
    ensures
        b == fits_spec(value@, carrier, rows as nat),
{
    match value {
        ResolverValue::Entity(row) => carrier == AliasCarrier::Entity && *row < rows,
        ResolverValue::Mask(vs) => carrier == AliasCarrier::Mask && vs.len() == rows,
    }
}

/// The contract a resolver answers under in a registry: a service declaration under its id
/// upgrades the registration, and must be an input service from unit to the registration's
/// carrier; an id no declaration claims keeps the registration.
pub open spec fn contract_spec(v: RegistryView, s: ResolverSpec) -> Result<(Option<DeclId>, u64, AliasCarrier), Seq<char>> {
    let id = resolver_id(s.resolver);
    match find_entry(v, id) {
        None => Ok((None, s.service, s.carrier)),
        Some(i) => match v.entries@[i].role {
            EntryRole::Service { declaration, version, input_unit, output } => {
                if !input_unit {
                    Err(alias_fail_text("resolver '"@ + id + "' needs an input service with signature unit->"@ + carrier_word(s.carrier)))
                } else {
                    match output {
                        Some(AliasCarrier::Entity) | Some(AliasCarrier::Mask) => {
                            let c = output->Some_0;
                            if c != s.carrier {
                                Err(alias_fail_text("resolver '"@ + id + "' service declares "@ + carrier_word(c) + ", implementation returns "@ + carrier_word(s.carrier)))
                            } else {
                                Ok((Some(declaration), version, c))
                            }
                        },
                        _ => Err(alias_fail_text("resolver '"@ + id + "' service output is not entity or mask"@)),
                    }
                }
            },
            _ => Err(alias_fail_text("resolver '"@ + id + "' is shadowed by a non-service declaration"@)),
        },
    }
}

/// The contract a resolver answers under (see `contract_spec`).
pub fn resolver_contract(view: &RegistryView, s: ResolverSpec) -> (r: Result<(Option<DeclId>, u64, AliasCarrier), Diag>)
    ensures
        match r {
            Ok(c) => contract_spec(*view, s) == Ok::<(Option<DeclId>, u64, AliasCarrier), Seq<char>>(c),
            Err(d) => contract_spec(*view, s) == Err::<(Option<DeclId>, u64, AliasCarrier), Seq<char>>(d.msg@) && d.code == 2,
        },
{
    let id = s.resolver.id();
    let i = match find(view, id) {
        None => return Ok((None, s.service, s.carrier)),
        Some(i) => i,
    };
    match view.entries[i].role {
        EntryRole::Service { declaration, version, input_unit, output } => {
            if !input_unit {
                let m = cat("resolver '", id);
                let m = cat(m.as_str(), "' needs an input service with signature unit->");
                let m = cat(m.as_str(), s.carrier.word());
                return Err(fail(m.as_str()));
            }
            match output {
                Some(AliasCarrier::Entity) | Some(AliasCarrier::Mask) => {
                    let c = output.unwrap();
                    if c != s.carrier {
                        let m = cat("resolver '", id);
                        let m = cat(m.as_str(), "' service declares ");
                        let m = cat(m.as_str(), c.word());
                        let m = cat(m.as_str(), ", implementation returns ");
                        let m = cat(m.as_str(), s.carrier.word());
                        return Err(fail(m.as_str()));
                    }
                    Ok((Some(declaration), version, c))
                },
                _ => {
                    let m = cat("resolver '", id);
                    let m = cat(m.as_str(), "' service output is not entity or mask");
                    Err(fail(m.as_str()))
                },
            }
        },
        _ => {
            let m = cat("resolver '", id);
            let m = cat(m.as_str(), "' is shadowed by a non-service declaration");
            Err(fail(m.as_str()))
        },
    }
}

/* ---------- targets ---------- */

/// What an overlay name stands for: a registry binding, a stored mask over the registry's
/// rows, or a registered resolver run against frozen host input. Each records the schema it
/// was installed under.
#[derive(Debug, Clone, PartialEq)]
pub enum AliasTarget {
    Binding { binding: String, carrier: AliasCarrier, schema: u64 },
    Mask { values: Vec<MaskCell>, rows: usize, schema: u64 },
    Resolver {
        resolver: String,
        carrier: AliasCarrier,
        service: u64,
        service_declaration: Option<DeclId>,
        schema: u64,
        input: HostInput,
    },
}

/// A target as a value: texts for strings, sequences for vectors.
pub enum TargetSpec {
    Binding { binding: Seq<char>, carrier: AliasCarrier, schema: u64 },
    Mask { values: Seq<MaskCell>, rows: nat, schema: u64 },
    Resolver {
        resolver: Seq<char>,
        carrier: AliasCarrier,
        service: u64,
        declaration: Option<DeclId>,
        schema: u64,
        input_version: u64,
        input: Seq<(Seq<char>, Seq<char>)>,
    },
}

impl View for AliasTarget {
    type V = TargetSpec;

    open spec fn view(&self) -> TargetSpec {
        match self {
            AliasTarget::Binding { binding, carrier, schema } => TargetSpec::Binding {
                binding: binding@,
                carrier: *carrier,
                schema: *schema,
            },
            AliasTarget::Mask { values, rows, schema } => TargetSpec::Mask {
                values: values@,
                rows: *rows as nat,
                schema: *schema,
            },
            AliasTarget::Resolver { resolver, carrier, service, service_declaration, schema, input } => TargetSpec::Resolver {
                resolver: resolver@,
                carrier: *carrier,
                service: *service,
                declaration: *service_declaration,
                schema: *schema,
                input_version: input.version,
                input: pair_texts(input.pairs@),
            },
        }
    }
}

/// A resolver target's frozen input keeps its keys ordered and distinct.
pub open spec fn target_wf(t: TargetSpec) -> bool {
    match t {
        TargetSpec::Resolver { input, .. } => keys_sorted(input) && forall|k: int| 0 <= k < input.len() ==> pair_ok(#[trigger] input[k]),
        _ => true,
    }
}

/// An admissible input pair: a single-line key without '=', and a single-line value.
pub open spec fn pair_ok(p: (Seq<char>, Seq<char>)) -> bool {
    token_shaped(p.0) && !p.0.contains('=') && token_shaped(p.1)
}

proof fn lemma_refusal_free_ok(ps: Seq<(Seq<char>, Seq<char>)>, n: int)
    requires
        0 <= n <= ps.len(),
        pair_refusal(ps, n) is None,
    ensures
        forall|k: int| 0 <= k < n ==> pair_ok(#[trigger] ps[k]),
    decreases n,
{
    if n > 0 {
        lemma_refusal_free_ok(ps, n - 1);
    }
}

/// The carrier a target declares: a mask target's is the mask carrier.
pub open spec fn target_carrier(t: TargetSpec) -> AliasCarrier {
    match t {
        TargetSpec::Binding { carrier, .. } => carrier,
        TargetSpec::Mask { .. } => AliasCarrier::Mask,
        TargetSpec::Resolver { carrier, .. } => carrier,
    }
}

/// The schema a target records.
pub open spec fn target_schema(t: TargetSpec) -> u64 {
    match t {
        TargetSpec::Binding { schema, .. } => schema,
        TargetSpec::Mask { schema, .. } => schema,
        TargetSpec::Resolver { schema, .. } => schema,
    }
}

/// A mask row as a display bit: "1" for one, "0" for either zero.
pub open spec fn bit_char(c: MaskCell) -> char {
    if c == MaskCell::One {
        '1'
    } else {
        '0'
    }
}

/// The rows of a mask as display bits separated by single spaces.
pub open spec fn bits_text(vs: Seq<MaskCell>) -> Seq<char>
    decreases vs.len(),
{
    if vs.len() == 0 {
        Seq::empty()
    } else if vs.len() == 1 {
        seq![bit_char(vs[0])]
    } else {
        bits_text(vs.drop_last()) + seq![' ', bit_char(vs.last())]
    }
}

/// How a target is described to an operator.
pub open spec fn describe_spec(t: TargetSpec) -> Seq<char> {
    match t {
        TargetSpec::Binding { binding, carrier, .. } => binding + " ("@ + carrier_word(carrier) + ")"@,
        TargetSpec::Mask { values, .. } => "mask ["@ + bits_text(values) + "]"@,
        TargetSpec::Resolver { resolver, carrier, service, declaration, input_version, .. } =>
            "resolver "@ + resolver + " ("@ + carrier_word(carrier) + ", service "@
                + service_description_spec(service, declaration) + ", input v"@
                + dec_spelling(input_version as nat) + ")"@,
    }
}

/// The trace clause naming what answered one consultation; a mask names the registry name
/// its result was materialized under, or nothing.
pub open spec fn provenance_spec(t: TargetSpec, materialized: Option<Seq<char>>) -> Seq<char> {
    match t {
        TargetSpec::Binding { binding, .. } => "binding '"@ + binding + "'"@,
        TargetSpec::Mask { .. } => "mask '"@ + match materialized {
            Some(m) => m,
            None => Seq::empty(),
        } + "'"@,
        TargetSpec::Resolver { resolver, service, declaration, input_version, .. } =>
            "resolver '"@ + resolver + "' service "@ + service_description_spec(service, declaration)
                + " input v"@ + dec_spelling(input_version as nat),
    }
}

fn bits_exec(vs: &Vec<MaskCell>) -> (s: String)
    ensures
        s@ == bits_text(vs@),
{
    let mut out: Vec<char> = Vec::new();
    let mut k: usize = 0;
    while k < vs.len()
        invariant
            0 <= k <= vs@.len(),
            out@ == bits_text(vs@.take(k as int)),
        decreases vs@.len() - k,
    {
        let b = if vs[k] == MaskCell::One {
            '1'
        } else {
            '0'
        };
        proof {
            assert(vs@.take(k + 1).drop_last() =~= vs@.take(k as int));
        }
        if k > 0 {
            out.push(' ');
            out.push(b);
            proof {
                assert(out@ =~= bits_text(vs@.take(k as int)) + seq![' ', b]);
            }
        } else {
            out.push(b);
            proof {
                assert(out@ =~= seq![b]);
            }
        }
        k += 1;
    }
    assert(vs@.take(vs@.len() as int) =~= vs@);
    string_of(out.as_slice())
}

fn pairs_copy(v: &Vec<(String, String)>) -> (r: Vec<(String, String)>)
    ensures
        pair_texts(r@) == pair_texts(v@),
{
    let mut out: Vec<(String, String)> = Vec::new();
    let mut k: usize = 0;
    while k < v.len()
        invariant
            0 <= k <= v@.len(),
            out@.len() == k,
            pair_texts(out@) =~= pair_texts(v@).take(k as int),
        decreases v@.len() - k,
    {
        let ghost before = out@;
        let a = v[k].0.clone();
        let b = v[k].1.clone();
        out.push((a, b));
        proof {
            assert(out@ =~= before.push((a, b)));
            assert(pair_texts(out@)[k as int] == pair_texts(v@)[k as int]);
            assert forall|j: int| 0 <= j < k implies pair_texts(out@)[j] == pair_texts(before)[j] by {
                assert(out@[j] == before[j]);
            }
            assert(pair_texts(out@) =~= pair_texts(v@).take(k + 1));
        }
        k += 1;
    }
    out
}

fn cells_copy(v: &Vec<MaskCell>) -> (r: Vec<MaskCell>)
    ensures
        r@ == v@,
{
    let mut out: Vec<MaskCell> = Vec::new();
    let mut k: usize = 0;
    while k < v.len()
        invariant
            0 <= k <= v@.len(),
            out@ =~= v@.take(k as int),
        decreases v@.len() - k,
    {
        out.push(v[k]);
        proof {
            assert(out@ =~= v@.take(k + 1));
        }
        k += 1;
    }
    out
}

impl AliasTarget {
    /// The carrier the target declares (see `target_carrier`).
    pub fn carrier(&self) -> (c: AliasCarrier)
        ensures
            c == target_carrier(self@),
    {
        match self {
            AliasTarget::Binding { carrier, .. } => *carrier,
            AliasTarget::Mask { .. } => AliasCarrier::Mask,
            AliasTarget::Resolver { carrier, .. } => *carrier,
        }
    }

    /// The operator's description: "<binding> (<carrier>)", "mask [<bits>]", or
    /// "resolver <id> (<carrier>, service <service>, input v<version>)".
    pub fn describe(&self) -> (s: String)
        ensures
            s@ == describe_spec(self@),
    {
        match self {
            AliasTarget::Binding { binding, carrier, .. } => {
                let m = cat(binding.as_str(), " (");
                let m = cat(m.as_str(), carrier.word());
                cat(m.as_str(), ")")
            },
            AliasTarget::Mask { values, .. } => {
                let b = bits_exec(values);
                let m = cat("mask [", b.as_str());
                cat(m.as_str(), "]")
            },
            AliasTarget::Resolver { resolver, carrier, service, service_declaration, input, .. } => {
                let m = cat("resolver ", resolver.as_str());
                let m = cat(m.as_str(), " (");
                let m = cat(m.as_str(), carrier.word());
                let m = cat(m.as_str(), ", service ");
                let d = service_description(*service, *service_declaration);
                let m = cat(m.as_str(), d.as_str());
                let m = cat(m.as_str(), ", input v");
                let v = u64_text(input.version);
                let m = cat(m.as_str(), v.as_str());
                cat(m.as_str(), ")")
            },
        }
    }

    /// The trace clause naming what answered: "binding '<name>'", "mask '<materialized>'",
    /// or "resolver '<id>' service <service> input v<version>".
    pub fn provenance(&self, materialized: Option<&str>) -> (s: String)
        ensures
            s@ == provenance_spec(self@, match materialized {
                Some(m) => Some(m@),
                None => None,
            }),
    {
        match self {
            AliasTarget::Binding { binding, .. } => {
                let m = cat("binding '", binding.as_str());
                cat(m.as_str(), "'")
            },
            AliasTarget::Mask { .. } => {
                let name = match materialized {
                    Some(m) => m,
                    None => "",
                };
                proof {
                    reveal_strlit("");
                }
                let m = cat("mask '", name);
                cat(m.as_str(), "'")
            },
            AliasTarget::Resolver { resolver, service, service_declaration, input, .. } => {
                let m = cat("resolver '", resolver.as_str());
                let m = cat(m.as_str(), "' service ");
                let d = service_description(*service, *service_declaration);
                let m = cat(m.as_str(), d.as_str());
                let m = cat(m.as_str(), " input v");
                let v = u64_text(input.version);
                cat(m.as_str(), v.as_str())
            },
        }
    }

    /// A copy of the target, equal to it as a value.
    pub fn copy(&self) -> (t: AliasTarget)
        ensures
            t@ == self@,
    {
        match self {
            AliasTarget::Binding { binding, carrier, schema } => AliasTarget::Binding {
                binding: binding.clone(),
                carrier: *carrier,
                schema: *schema,
            },
            AliasTarget::Mask { values, rows, schema } => AliasTarget::Mask {
                values: cells_copy(values),
                rows: *rows,
                schema: *schema,
            },
            AliasTarget::Resolver { resolver, carrier, service, service_declaration, schema, input } => AliasTarget::Resolver {
                resolver: resolver.clone(),
                carrier: *carrier,
                service: *service,
                service_declaration: *service_declaration,
                schema: *schema,
                input: HostInput { version: input.version, pairs: pairs_copy(&input.pairs) },
            },
        }
    }
}

/// The target a binding word installs under a schema: the registry's own spelling of the
/// declaration it names, with its carrier; refused when no declaration has the name or the
/// declaration is no value binding.
pub open spec fn binding_target_spec(v: RegistryView, binding: Seq<char>, schema: u64) -> Result<TargetSpec, Seq<char>> {
    match find_entry(v, binding) {
        None => Err(alias_fail_text("unregistered binding '"@ + binding + "'"@)),
        Some(i) => match carrier_at(v, i) {
            Err(e) => Err(e),
            Ok(c) => Ok(TargetSpec::Binding { binding: v.entries@[i].name@, carrier: c, schema }),
        },
    }
}

/// The target a binding word installs (see `binding_target_spec`).
pub fn binding_target(view: &RegistryView, binding: &str, schema: u64) -> (r: Result<AliasTarget, Diag>)
    ensures
        match r {
            Ok(t) => binding_target_spec(*view, binding@, schema) == Ok::<TargetSpec, Seq<char>>(t@),
            Err(d) => binding_target_spec(*view, binding@, schema) == Err::<TargetSpec, Seq<char>>(d.msg@) && d.code == 2,
        },
{
    let i = match find(view, binding) {
        None => {
            let m = cat("unregistered binding '", binding);
            let m = cat(m.as_str(), "'");
            return Err(fail(m.as_str()));
        },
        Some(i) => i,
    };
    let carrier = match entry_carrier(view, i) {
        Err(d) => return Err(d),
        Ok(c) => c,
    };
    Ok(AliasTarget::Binding { binding: view.entries[i].name.clone(), carrier, schema })
}

/* ---------- the environment ---------- */

/// The entries of an environment as values: canonical name and target.
pub open spec fn entry_texts(v: Seq<(String, AliasTarget)>) -> Seq<(Seq<char>, TargetSpec)> {
    v.map_values(|e: (String, AliasTarget)| (e.0@, e.1@))
}

/// What the entries hold, name to target; a later entry under a name wins.
pub open spec fn entry_map(es: Seq<(Seq<char>, TargetSpec)>) -> Map<Seq<char>, TargetSpec>
    decreases es.len(),
{
    if es.len() == 0 {
        Map::empty()
    } else {
        entry_map(es.drop_last()).insert(es.last().0, es.last().1)
    }
}

/// Whether a name is a canonical overlay key: a single-line token that the fold fixes.
pub open spec fn canonical_key(k: Seq<char>) -> bool {
    token_shaped(k) && fold_spec(k) == k
}

/// The entries invariant: names strictly increasing, each a canonical key, each target's
/// frozen input ordered.
pub open spec fn entries_wf(es: Seq<(Seq<char>, TargetSpec)>) -> bool {
    &&& forall|i: int, j: int| 0 <= i < j < es.len() ==> text_lt(#[trigger] es[i].0, #[trigger] es[j].0)
    &&& forall|i: int| 0 <= i < es.len() ==> canonical_key(#[trigger] es[i].0) && target_wf(es[i].1)
}

/// The next version: one more, wrapping at the top of the range.
pub open spec fn next_version(v: u64) -> u64 {
    vstd::wrapping::u64_specs::wrapping_add(v, 1)
}

/// An environment as a value.
pub struct EnvSpec {
    pub version: u64,
    pub schema: u64,
    pub entries: Seq<(Seq<char>, TargetSpec)>,
}

/// The dynamic-alias environment: a version that every successful transition moves forward
/// once, the schema fingerprint its targets were installed under (0 before any), and its
/// targets keyed by canonical name in name order.
///
/// The targets are a vector kept sorted by key, with no key twice (`entries_wf`), rather
/// than an ordered map: the keys are `String`s, and vstd's specification of std's ordered
/// map gives nothing for a key type whose comparison Verus does not read. The sorted
/// vector keeps what the map gave (one target per key, walked in key order) as a proved
/// invariant.
#[derive(Debug, Clone, PartialEq)]
pub struct AliasEnvironment {
    version: u64,
    schema: u64,
    entries: Vec<(String, AliasTarget)>,
}

impl View for AliasEnvironment {
    type V = EnvSpec;

    closed spec fn view(&self) -> EnvSpec {
        EnvSpec { version: self.version, schema: self.schema, entries: entry_texts(self.entries@) }
    }
}

proof fn lemma_entry_map_dom(es: Seq<(Seq<char>, TargetSpec)>, k: Seq<char>)
    ensures
        entry_map(es).dom().contains(k) <==> exists|i: int| 0 <= i < es.len() && (#[trigger] es[i]).0 == k,
    decreases es.len(),
{
    if es.len() > 0 {
        lemma_entry_map_dom(es.drop_last(), k);
        if exists|i: int| 0 <= i < es.drop_last().len() && (#[trigger] es.drop_last()[i]).0 == k {
            let i = choose|i: int| 0 <= i < es.drop_last().len() && (#[trigger] es.drop_last()[i]).0 == k;
            assert(es[i].0 == k);
        }
        if exists|i: int| 0 <= i < es.len() && (#[trigger] es[i]).0 == k {
            let i = choose|i: int| 0 <= i < es.len() && (#[trigger] es[i]).0 == k;
            if i < es.len() - 1 {
                assert(es.drop_last()[i].0 == k);
            }
        }
    }
}

proof fn lemma_entry_map_at(es: Seq<(Seq<char>, TargetSpec)>, i: int)
    requires
        0 <= i < es.len(),
        forall|j: int| 0 <= j < es.len() && j != i ==> (#[trigger] es[j]).0 != es[i].0,
    ensures
        entry_map(es).dom().contains(es[i].0),
        entry_map(es)[es[i].0] == es[i].1,
    decreases es.len(),
{
    if i < es.len() - 1 {
        assert forall|j: int| 0 <= j < es.drop_last().len() && j != i implies (#[trigger] es.drop_last()[j]).0 != es.drop_last()[i].0 by {
            assert(es[j].0 != es[i].0);
        }
        lemma_entry_map_at(es.drop_last(), i);
        assert(es.last().0 != es[i].0);
    }
}

proof fn lemma_entry_map_insert(es: Seq<(Seq<char>, TargetSpec)>, p: int, x: (Seq<char>, TargetSpec))
    requires
        0 <= p <= es.len(),
        forall|j: int| 0 <= j < es.len() ==> (#[trigger] es[j]).0 != x.0,
    ensures
        entry_map(es.insert(p, x)) == entry_map(es).insert(x.0, x.1),
    decreases es.len(),
{
    if p == es.len() {
        assert(es.insert(p, x).drop_last() =~= es);
    } else {
        let l = es.last();
        assert(es.insert(p, x).drop_last() =~= es.drop_last().insert(p, x));
        assert(es.insert(p, x).last() == l);
        lemma_entry_map_insert(es.drop_last(), p, x);
        assert(l.0 != x.0);
        assert(entry_map(es.insert(p, x)) =~= entry_map(es).insert(x.0, x.1));
    }
}

proof fn lemma_entry_map_update(es: Seq<(Seq<char>, TargetSpec)>, p: int, x: (Seq<char>, TargetSpec))
    requires
        0 <= p < es.len(),
        es[p].0 == x.0,
        forall|j: int| 0 <= j < es.len() && j != p ==> (#[trigger] es[j]).0 != x.0,
    ensures
        entry_map(es.update(p, x)) == entry_map(es).insert(x.0, x.1),
    decreases es.len(),
{
    if p == es.len() - 1 {
        assert(es.update(p, x).drop_last() =~= es.drop_last());
        assert(entry_map(es.update(p, x)) =~= entry_map(es).insert(x.0, x.1));
    } else {
        let l = es.last();
        assert(es.update(p, x).drop_last() =~= es.drop_last().update(p, x));
        lemma_entry_map_update(es.drop_last(), p, x);
        assert(l.0 != x.0);
        assert(entry_map(es.update(p, x)) =~= entry_map(es).insert(x.0, x.1));
    }
}

proof fn lemma_entry_map_remove(es: Seq<(Seq<char>, TargetSpec)>, p: int)
    requires
        0 <= p < es.len(),
        forall|j: int| 0 <= j < es.len() && j != p ==> (#[trigger] es[j]).0 != es[p].0,
    ensures
        entry_map(es.remove(p)) == entry_map(es).remove(es[p].0),
    decreases es.len(),
{
    let k = es[p].0;
    if p == es.len() - 1 {
        assert(es.remove(p) =~= es.drop_last());
        lemma_entry_map_dom(es.drop_last(), k);
        assert(!entry_map(es.drop_last()).dom().contains(k));
        assert(entry_map(es.remove(p)) =~= entry_map(es).remove(k));
    } else {
        let l = es.last();
        assert(es.remove(p).drop_last() =~= es.drop_last().remove(p));
        assert(es.remove(p).last() == l);
        lemma_entry_map_remove(es.drop_last(), p);
        assert(l.0 != k);
        assert(entry_map(es.remove(p)) =~= entry_map(es).remove(k));
    }
}

proof fn lemma_entry_wf_at(es: Seq<(Seq<char>, TargetSpec)>, i: int)
    requires
        entries_wf(es),
        0 <= i < es.len(),
    ensures
        canonical_key(es[i].0),
        target_wf(es[i].1),
{
    let x = es[i].0;
    assert(canonical_key(x) && target_wf(es[i].1));
}

proof fn lemma_sorted_distinct(es: Seq<(Seq<char>, TargetSpec)>, i: int, j: int)
    requires
        entries_wf(es),
        0 <= i < es.len(),
        0 <= j < es.len(),
        i != j,
    ensures
        es[i].0 != es[j].0,
{
    if i < j {
        assert(text_lt(es[i].0, es[j].0));
        if es[i].0 == es[j].0 {
            lemma_text_lt_irreflexive(es[i].0);
        }
    } else {
        assert(text_lt(es[j].0, es[i].0));
        if es[i].0 == es[j].0 {
            lemma_text_lt_irreflexive(es[j].0);
        }
    }
}

/// Puts a target under a canonical key, in name order, replacing any target already there.
fn put(entries: &mut Vec<(String, AliasTarget)>, key: String, t: AliasTarget)
    requires
        entries_wf(entry_texts(old(entries)@)),
        canonical_key(key@),
        target_wf(t@),
    ensures
        entries_wf(entry_texts(final(entries)@)),
        entry_map(entry_texts(final(entries)@)) == entry_map(entry_texts(old(entries)@)).insert(key@, t@),
        (forall|i: int| 0 <= i < old(entries)@.len() ==> text_lt(#[trigger] entry_texts(old(entries)@)[i].0, key@))
            ==> entry_texts(final(entries)@) == entry_texts(old(entries)@).push((key@, t@)),
{
    let ghost ov = entry_texts(entries@);
    let ghost x = (key@, t@);
    let mut pos: usize = 0;
    while pos < entries.len() && text_less(entries[pos].0.as_str(), key.as_str())
        invariant
            ov == entry_texts(entries@),
            0 <= pos <= entries@.len(),
            forall|i: int| 0 <= i < pos ==> text_lt(#[trigger] ov[i].0, key@),
        decreases entries@.len() - pos,
    {
        proof {
            assert(ov[pos as int].0 == entries@[pos as int].0@);
        }
        pos += 1;
    }
    proof {
        if pos < ov.len() {
            assert(ov[pos as int].0 == entries@[pos as int].0@);
            assert(!text_lt(ov[pos as int].0, key@));
        }
    }
    if pos < entries.len() && same_text(entries[pos].0.as_str(), key.as_str()) {
        entries.set(pos, (key, t));
        proof {
            assert(entry_texts(entries@) =~= ov.update(pos as int, x));
            assert forall|j: int| 0 <= j < ov.len() && j != pos implies (#[trigger] ov[j]).0 != x.0 by {
                lemma_sorted_distinct(ov, j, pos as int);
            }
            lemma_entry_map_update(ov, pos as int, x);
            let nv = entry_texts(entries@);
            assert forall|i: int, j: int| 0 <= i < j < nv.len() implies text_lt(#[trigger] nv[i].0, #[trigger] nv[j].0) by {
                assert(nv[i].0 == ov[i].0);
                assert(nv[j].0 == ov[j].0);
            }
            assert forall|i: int| 0 <= i < nv.len() implies canonical_key(#[trigger] nv[i].0) && target_wf(nv[i].1) by {
                if i != pos {
                    assert(nv[i] == ov[i]);
                }
            }
            assert(!(forall|i: int| 0 <= i < ov.len() ==> text_lt(#[trigger] ov[i].0, key@))) by {
                if forall|i: int| 0 <= i < ov.len() ==> text_lt(#[trigger] ov[i].0, key@) {
                    assert(text_lt(ov[pos as int].0, key@));
                    lemma_text_lt_irreflexive(key@);
                }
            }
        }
    } else {
        proof {
            if pos < ov.len() {
                lemma_text_lt_total(ov[pos as int].0, key@);
                assert(text_lt(key@, ov[pos as int].0));
            }
            assert forall|j: int| 0 <= j < ov.len() implies (#[trigger] ov[j]).0 != x.0 by {
                if j < pos {
                    assert(text_lt(ov[j].0, key@));
                    if ov[j].0 == key@ {
                        lemma_text_lt_irreflexive(key@);
                    }
                } else {
                    if j > pos {
                        lemma_text_lt_transitive(key@, ov[pos as int].0, ov[j].0);
                    }
                    if ov[j].0 == key@ {
                        lemma_text_lt_irreflexive(key@);
                    }
                }
            }
        }
        entries.insert(pos, (key, t));
        proof {
            let nv = entry_texts(entries@);
            assert(nv =~= ov.insert(pos as int, x));
            lemma_entry_map_insert(ov, pos as int, x);
            assert forall|m: int| pos <= m < ov.len() implies text_lt(key@, #[trigger] ov[m].0) by {
                if m > pos {
                    lemma_text_lt_transitive(key@, ov[pos as int].0, ov[m].0);
                }
            }
            assert forall|i: int, j: int| 0 <= i < j < nv.len() implies text_lt(#[trigger] nv[i].0, #[trigger] nv[j].0) by {
                if j < pos {
                } else if j == pos {
                } else if i < pos {
                    lemma_text_lt_transitive(ov[i].0, key@, ov[j - 1].0);
                } else if i == pos {
                } else {
                }
            }
            assert forall|i: int| 0 <= i < nv.len() implies canonical_key(#[trigger] nv[i].0) && target_wf(nv[i].1) by {
                if i < pos {
                    assert(nv[i] == ov[i]);
                } else if i > pos {
                    assert(nv[i] == ov[i - 1]);
                }
            }
            if forall|i: int| 0 <= i < ov.len() ==> text_lt(#[trigger] ov[i].0, key@) {
                if pos < ov.len() {
                    lemma_text_lt_transitive(key@, ov[pos as int].0, key@);
                    lemma_text_lt_irreflexive(key@);
                }
                assert(ov.insert(pos as int, x) =~= ov.push(x));
            }
        }
    }
}

/// Takes the target under a canonical key out; `false` when there is none.
fn take_out(entries: &mut Vec<(String, AliasTarget)>, key: &str) -> (found: bool)
    requires
        entries_wf(entry_texts(old(entries)@)),
    ensures
        entries_wf(entry_texts(final(entries)@)),
        found == entry_map(entry_texts(old(entries)@)).dom().contains(key@),
        found ==> entry_map(entry_texts(final(entries)@)) == entry_map(entry_texts(old(entries)@)).remove(key@),
        !found ==> final(entries)@ == old(entries)@,
{
    let ghost ov = entry_texts(entries@);
    let mut k: usize = 0;
    while k < entries.len()
        invariant
            ov == entry_texts(entries@),
            entries@ == old(entries)@,
            entries_wf(ov),
            0 <= k <= entries@.len(),
            forall|i: int| 0 <= i < k ==> (#[trigger] ov[i]).0 != key@,
        decreases entries@.len() - k,
    {
        if same_text(entries[k].0.as_str(), key) {
            proof {
                assert(ov[k as int].0 == key@);
                assert forall|j: int| 0 <= j < ov.len() && j != k implies (#[trigger] ov[j]).0 != ov[k as int].0 by {
                    lemma_sorted_distinct(ov, j, k as int);
                }
                lemma_entry_map_remove(ov, k as int);
                lemma_entry_map_dom(ov, key@);
            }
            entries.remove(k);
            proof {
                let nv = entry_texts(entries@);
                assert(nv =~= ov.remove(k as int));
                assert forall|i: int, j: int| 0 <= i < j < nv.len() implies text_lt(#[trigger] nv[i].0, #[trigger] nv[j].0) by {
                    let a = if i < k { i } else { i + 1 };
                    let b = if j < k { j } else { j + 1 };
                    assert(nv[i] == ov[a]);
                    assert(nv[j] == ov[b]);
                }
                assert forall|i: int| 0 <= i < nv.len() implies canonical_key(#[trigger] nv[i].0) && target_wf(nv[i].1) by {
                    if i < k {
                        assert(nv[i] == ov[i]);
                    } else {
                        assert(nv[i] == ov[i + 1]);
                    }
                }
            }
            return true;
        }
        proof {
            assert(ov[k as int].0 == entries@[k as int].0@);
        }
        k += 1;
    }
    proof {
        lemma_entry_map_dom(ov, key@);
    }
    false
}

/// The environment schema check: an environment installed under one schema refuses a
/// registry with another; an environment with no schema yet takes the registry's.
pub open spec fn schema_check(schema: u64, v: RegistryView) -> Result<u64, Seq<char>> {
    if schema != 0 && schema != v.fingerprint {
        Err(alias_fail_text("environment schema "@ + hex16(schema) + " is stale for registry "@ + hex16(v.fingerprint)))
    } else {
        Ok(v.fingerprint)
    }
}

/// The refusal of a name that is not a single-line token.
pub open spec fn name_refusal() -> Seq<char> {
    alias_fail_text("alias name must be a nonempty single-line token"@)
}

/// What installing a binding target decides: the schema and the target, or the refusal.
pub open spec fn install_binding_spec(e: EnvSpec, v: RegistryView, name: Seq<char>, binding: Seq<char>) -> Result<(u64, TargetSpec), Seq<char>> {
    if !token_shaped(name) {
        Err(name_refusal())
    } else {
        match schema_check(e.schema, v) {
            Err(x) => Err(x),
            Ok(s) => match binding_target_spec(v, binding, s) {
                Err(x) => Err(x),
                Ok(t) => Ok((s, t)),
            },
        }
    }
}

/// The first row among the spellings from `i` that is no mask row.
pub open spec fn bad_cell_from(sp: Seq<Seq<char>>, i: int) -> Option<int>
    decreases sp.len() - i,
{
    if i < 0 || i >= sp.len() {
        None
    } else if cell_of_word(sp[i]) is None {
        Some(i)
    } else {
        bad_cell_from(sp, i + 1)
    }
}

/// The mask rows spelled, each read as `cell_of_word` reads it.
pub open spec fn cells_of(sp: Seq<Seq<char>>) -> Seq<MaskCell> {
    Seq::new(sp.len(), |i: int| cell_of_word(sp[i])->Some_0)
}

/// What installing a mask decides, the rows given as `%.17g` spells each value: refused
/// when the count is not the registry's row count, or a row is not 0, -0 or 1.
pub open spec fn install_mask_spec(e: EnvSpec, v: RegistryView, name: Seq<char>, sp: Seq<Seq<char>>) -> Result<(u64, TargetSpec), Seq<char>> {
    if !token_shaped(name) {
        Err(name_refusal())
    } else {
        match schema_check(e.schema, v) {
            Err(x) => Err(x),
            Ok(s) => if sp.len() != v.rows {
                Err(alias_fail_text("mask '^"@ + name + "' has "@ + dec_spelling(sp.len()) + " rows, registry has "@ + dec_spelling(v.rows as nat)))
            } else {
                match bad_cell_from(sp, 0) {
                    Some(r) => Err(alias_fail_text("mask '^"@ + name + "' row "@ + dec_spelling(r as nat) + " is "@ + sp[r] + ", expected 0 or 1"@)),
                    None => Ok((s, TargetSpec::Mask { values: cells_of(sp), rows: v.rows as nat, schema: s })),
                }
            },
        }
    }
}

/// Two lists of pairs hold the same pairs.
pub open spec fn same_pairs(a: Seq<(Seq<char>, Seq<char>)>, b: Seq<(Seq<char>, Seq<char>)>) -> bool {
    &&& a.len() == b.len()
    &&& forall|k: int| 0 <= k < a.len() ==> b.contains(#[trigger] a[k])
    &&& forall|k: int| 0 <= k < b.len() ==> a.contains(#[trigger] b[k])
}

/// The mask rows the spellings give, or the refusal naming the first row that is none.
fn mask_cells(name: &str, values: &[String]) -> (r: Result<Vec<MaskCell>, Diag>)
    ensures
        match r {
            Ok(c) => bad_cell_from(values@.map_values(|s: String| s@), 0) is None
                && c@ == cells_of(values@.map_values(|s: String| s@)),
            Err(d) => {
                let sp = values@.map_values(|s: String| s@);
                &&& bad_cell_from(sp, 0) is Some
                &&& d.msg@ == alias_fail_text("mask '^"@ + name@ + "' row "@ + dec_spelling(bad_cell_from(sp, 0)->Some_0 as nat) + " is "@ + sp[bad_cell_from(sp, 0)->Some_0] + ", expected 0 or 1"@)
                &&& d.code == 2
            },
        },
{
    let ghost sp = values@.map_values(|s: String| s@);
    let mut cells: Vec<MaskCell> = Vec::new();
    let mut k: usize = 0;
    while k < values.len()
        invariant
            sp == values@.map_values(|s: String| s@),
            0 <= k <= values@.len(),
            bad_cell_from(sp, 0) == bad_cell_from(sp, k as int),
            cells@ =~= cells_of(sp).take(k as int),
        decreases values@.len() - k,
    {
        let w = chars_of(values[k].as_str());
        proof {
            assert(sp[k as int] == values@[k as int]@);
        }
        match cell_of(&w) {
            Some(c) => {
                cells.push(c);
            },
            None => {
                let m = cat("mask '^", name);
                let m = cat(m.as_str(), "' row ");
                let t = u64_text(k as u64);
                let m = cat(m.as_str(), t.as_str());
                let m = cat(m.as_str(), " is ");
                let m = cat(m.as_str(), values[k].as_str());
                let m = cat(m.as_str(), ", expected 0 or 1");
                return Err(fail(m.as_str()));
            },
        }
        k += 1;
    }
    assert(cells@ =~= cells_of(sp));
    Ok(cells)
}

/// What installing a resolver target decides, the result run once against the frozen
/// input: the schema, the resolver and its contract, or the first refusal.
pub open spec fn install_resolver_spec(e: EnvSpec, v: RegistryView, name: Seq<char>, id: Seq<char>, ps: Seq<(Seq<char>, Seq<char>)>) -> Result<(u64, Resolver, (Option<DeclId>, u64, AliasCarrier)), Seq<char>> {
    if !token_shaped(name) {
        Err(name_refusal())
    } else if !token_shaped(id) {
        Err(alias_fail_text("resolver id must be a nonempty single-line token"@))
    } else if pair_refusal(ps, ps.len() as int) is Some {
        Err(pair_refusal(ps, ps.len() as int)->Some_0)
    } else {
        match schema_check(e.schema, v) {
            Err(x) => Err(x),
            Ok(s) => match resolver_named(id) {
                None => Err(alias_fail_text("unknown resolver '"@ + id + "'"@)),
                Some(r) => match contract_spec(v, registration(r)) {
                    Err(x) => Err(x),
                    Ok(c) => match run_spec(r, v.rows as nat, ps) {
                        Err(x) => Err(x),
                        Ok(val) => if !fits_spec(val, c.2, v.rows as nat) {
                            Err(alias_fail_text("resolver '"@ + id + "' result does not inhabit "@ + carrier_word(c.2) + " over "@ + dec_spelling(v.rows as nat) + " rows"@))
                        } else {
                            Ok((s, r, c))
                        },
                    },
                },
            },
        }
    }
}

/// A successful install: the version moves forward once, the schema is the one checked, and
/// the target stands under the name's canonical key, every other entry kept.
pub open spec fn installed(old: EnvSpec, new: EnvSpec, key: Seq<char>, s: u64, t: TargetSpec) -> bool {
    &&& new.version == next_version(old.version)
    &&& new.schema == s
    &&& entry_map(new.entries) == entry_map(old.entries).insert(key, t)
}

proof fn lemma_pairs_get_same(a: Seq<(Seq<char>, Seq<char>)>, b: Seq<(Seq<char>, Seq<char>)>, k: Seq<char>)
    requires
        same_pairs(a, b),
        keys_sorted(b),
        forall|i: int, j: int| 0 <= i < j < a.len() ==> (#[trigger] a[i]).0 != (#[trigger] a[j]).0,
    ensures
        pairs_get(a, k) == pairs_get(b, k),
{
    if exists|i: int| 0 <= i < a.len() && (#[trigger] a[i]).0 == k {
        let i = choose|i: int| 0 <= i < a.len() && (#[trigger] a[i]).0 == k;
        assert(b.contains(a[i]));
        let j = choose|j: int| 0 <= j < b.len() && b[j] == a[i];
        assert(b[j].0 == k);
        let j2 = choose|j: int| 0 <= j < b.len() && (#[trigger] b[j]).0 == k;
        lemma_sorted_keys_distinct(b, j, j2);
        assert(a.contains(b[j2]));
        let i2 = choose|i: int| 0 <= i < a.len() && a[i] == b[j2];
        if i2 != i {
            if i < i2 {
                assert(a[i].0 != a[i2].0);
            } else {
                assert(a[i2].0 != a[i].0);
            }
        }
    } else {
        if exists|j: int| 0 <= j < b.len() && (#[trigger] b[j]).0 == k {
            let j = choose|j: int| 0 <= j < b.len() && (#[trigger] b[j]).0 == k;
            assert(a.contains(b[j]));
            let i = choose|i: int| 0 <= i < a.len() && a[i] == b[j];
            assert(a[i].0 == k);
        }
    }
}

proof fn lemma_run_same(r: Resolver, rows: nat, a: Seq<(Seq<char>, Seq<char>)>, b: Seq<(Seq<char>, Seq<char>)>)
    requires
        same_pairs(a, b),
        keys_sorted(b),
        forall|i: int, j: int| 0 <= i < j < a.len() ==> (#[trigger] a[i]).0 != (#[trigger] a[j]).0,
    ensures
        run_spec(r, rows, a) == run_spec(r, rows, b),
{
    lemma_pairs_get_same(a, b, "entity"@);
    lemma_pairs_get_same(a, b, "mask"@);
    lemma_pairs_get_same(a, b, "cursor"@);
    lemma_pairs_get_same(a, b, "observer"@);
    lemma_pairs_get_same(a, b, "selected"@);
}

proof fn lemma_refusal_free_distinct(ps: Seq<(Seq<char>, Seq<char>)>, n: int)
    requires
        0 <= n <= ps.len(),
        pair_refusal(ps, n) is None,
    ensures
        forall|i: int, j: int| 0 <= i < j < n ==> (#[trigger] ps[i]).0 != (#[trigger] ps[j]).0,
    decreases n,
{
    if n > 0 {
        lemma_refusal_free_distinct(ps, n - 1);
        assert forall|i: int, j: int| 0 <= i < j < n implies (#[trigger] ps[i]).0 != (#[trigger] ps[j]).0 by {
            if j == n - 1 {
                assert(!(exists|m: int| 0 <= m < n - 1 && (#[trigger] ps[m]).0 == ps[n - 1].0));
                if ps[i].0 == ps[j].0 {
                    assert(0 <= i < n - 1 && ps[i].0 == ps[n - 1].0);
                }
            }
        }
    }
}

impl AliasEnvironment {
    /// The invariant every environment keeps (see `entries_wf`).
    pub closed spec fn wf(&self) -> bool {
        entries_wf(entry_texts(self.entries@))
    }

    /// The empty environment for a registry: version 0, its schema.
    pub fn for_registry(view: &RegistryView) -> (e: AliasEnvironment)
        ensures
            e.wf(),
            e@.version == 0,
            e@.schema == view.fingerprint,
            e@.entries.len() == 0,
    {
        AliasEnvironment { version: 0, schema: view.fingerprint, entries: Vec::new() }
    }

    /// The version.
    pub fn version(&self) -> (v: u64)
        ensures
            v == self@.version,
    {
        self.version
    }

    /// The schema fingerprint.
    pub fn schema(&self) -> (s: u64)
        ensures
            s == self@.schema,
    {
        self.schema
    }

    /// Whether no name has a target.
    pub fn is_empty(&self) -> (b: bool)
        ensures
            b == (self@.entries.len() == 0),
    {
        self.entries.len() == 0
    }

    /// The targets in name order, each under its canonical name.
    pub fn iter(&self) -> (v: &[(String, AliasTarget)])
        ensures
            entry_texts(v@) == self@.entries,
    {
        self.entries.as_slice()
    }

    /// The schema an install proceeds under (see `schema_check`).
    fn check_schema(&self, view: &RegistryView) -> (r: Result<u64, Diag>)
        ensures
            match r {
                Ok(s) => schema_check(self@.schema, *view) == Ok::<u64, Seq<char>>(s),
                Err(d) => schema_check(self@.schema, *view) == Err::<u64, Seq<char>>(d.msg@) && d.code == 2,
            },
    {
        let current = view.fingerprint;
        if self.schema != 0 && self.schema != current {
            let a = hex16_text(self.schema);
            let b = hex16_text(current);
            let m = cat("environment schema ", a.as_str());
            let m = cat(m.as_str(), " is stale for registry ");
            let m = cat(m.as_str(), b.as_str());
            return Err(fail(m.as_str()));
        }
        Ok(current)
    }

    /// Binds `^name` to a registry value binding (see `install_binding_spec`); a refusal
    /// leaves the environment as it was. In a registry whose declarations could all stand in
    /// a sidecar (`view_writable`), an environment whose entries are all writable stays so.
    pub fn install_binding(&mut self, view: &RegistryView, name: &str, binding: &str) -> (r: Result<(), Diag>)
        requires
            old(self).wf(),
        ensures
            final(self).wf(),
            view_writable(*view) && all_writable(old(self)@.entries, *view) ==> all_writable(final(self)@.entries, *view),
            match r {
                Ok(()) => install_binding_spec(old(self)@, *view, name@, binding@) is Ok && installed(
                    old(self)@,
                    final(self)@,
                    fold_spec(name@),
                    install_binding_spec(old(self)@, *view, name@, binding@)->Ok_0.0,
                    install_binding_spec(old(self)@, *view, name@, binding@)->Ok_0.1,
                ),
                Err(d) => install_binding_spec(old(self)@, *view, name@, binding@) == Err::<(u64, TargetSpec), Seq<char>>(d.msg@)
                    && d.code == 2 && final(self)@ == old(self)@,
            },
    {
        match validate_name(name, "alias name") {
            Err(d) => {
                proof {
                    reveal_strlit("alias name");
                    reveal_strlit(" must be a nonempty single-line token");
                    reveal_strlit("alias name must be a nonempty single-line token");
                    assert(d.msg@ =~= name_refusal());
                }
                return Err(d);
            },
            Ok(()) => {},
        }
        let schema = match self.check_schema(view) {
            Err(d) => return Err(d),
            Ok(s) => s,
        };
        let target = match binding_target(view, binding, schema) {
            Err(d) => return Err(d),
            Ok(t) => t,
        };
        let key = canonical_name(name);
        proof {
            lemma_fold_idempotent(name@);
            assert forall|i: int| 0 <= i < key@.len() implies !crate::alias::line_breaking(#[trigger] key@[i]) by {
                assert(key@[i] == crate::alias::fold_char(name@[i]));
            }
        }
        let ghost before = self@.entries;
        self.schema = schema;
        self.version = self.version.wrapping_add(1);
        put(&mut self.entries, key, target);
        proof {
            if view_writable(*view) && all_writable(before, *view) {
                lemma_binding_target_writable(*view, binding@, schema, key@);
                lemma_step_writable(before, self@.entries, *view, key@, Some(target@));
            }
        }
        Ok(())
    }

    /// Binds `^name` to a stored mask, each row given as `%.17g` spells its value (see
    /// `install_mask_spec`); a refusal leaves the environment as it was. An environment whose
    /// entries are all writable stays so.
    pub fn install_mask(&mut self, view: &RegistryView, name: &str, values: &[String]) -> (r: Result<(), Diag>)
        requires
            old(self).wf(),
        ensures
            final(self).wf(),
            view_writable(*view) && all_writable(old(self)@.entries, *view) ==> all_writable(final(self)@.entries, *view),
            match r {
                Ok(()) => install_mask_spec(old(self)@, *view, name@, values@.map_values(|s: String| s@)) is Ok && installed(
                    old(self)@,
                    final(self)@,
                    fold_spec(name@),
                    install_mask_spec(old(self)@, *view, name@, values@.map_values(|s: String| s@))->Ok_0.0,
                    install_mask_spec(old(self)@, *view, name@, values@.map_values(|s: String| s@))->Ok_0.1,
                ),
                Err(d) => install_mask_spec(old(self)@, *view, name@, values@.map_values(|s: String| s@)) == Err::<(u64, TargetSpec), Seq<char>>(d.msg@)
                    && d.code == 2 && final(self)@ == old(self)@,
            },
    {
        let ghost sp = values@.map_values(|s: String| s@);
        match validate_name(name, "alias name") {
            Err(d) => {
                proof {
                    reveal_strlit("alias name");
                    reveal_strlit(" must be a nonempty single-line token");
                    reveal_strlit("alias name must be a nonempty single-line token");
                    assert(d.msg@ =~= name_refusal());
                }
                return Err(d);
            },
            Ok(()) => {},
        }
        let schema = match self.check_schema(view) {
            Err(d) => return Err(d),
            Ok(s) => s,
        };
        let rows = view.rows;
        if values.len() != rows {
            let m = cat("mask '^", name);
            let m = cat(m.as_str(), "' has ");
            let t = u64_text(values.len() as u64);
            let m = cat(m.as_str(), t.as_str());
            let m = cat(m.as_str(), " rows, registry has ");
            let t = u64_text(rows as u64);
            let m = cat(m.as_str(), t.as_str());
            return Err(fail(m.as_str()));
        }
        let cells = match mask_cells(name, values) {
            Err(d) => return Err(d),
            Ok(c) => c,
        };
        let key = canonical_name(name);
        proof {
            lemma_fold_idempotent(name@);
            assert forall|i: int| 0 <= i < key@.len() implies !crate::alias::line_breaking(#[trigger] key@[i]) by {
                assert(key@[i] == crate::alias::fold_char(name@[i]));
            }
        }
        let ghost before = self@.entries;
        let target = AliasTarget::Mask { values: cells, rows, schema };
        self.schema = schema;
        self.version = self.version.wrapping_add(1);
        put(&mut self.entries, key, target);
        proof {
            if all_writable(before, *view) {
                lemma_step_writable(before, self@.entries, *view, key@, Some(target@));
            }
        }
        Ok(())
    }

    /// Binds `^name` to a registered resolver over frozen host input (see
    /// `install_resolver_spec`): the resolver runs once here, and its result must inhabit
    /// the contract's carrier over the registry's rows. The input is frozen at the version
    /// the install moves to. A refusal leaves the environment as it was. In a registry whose
    /// declarations could all stand in a sidecar, an environment whose entries are all
    /// writable stays so.
    pub fn install_resolver(&mut self, view: &RegistryView, name: &str, id: &str, pairs: &[(String, String)]) -> (r: Result<(), Diag>)
        requires
            old(self).wf(),
        ensures
            final(self).wf(),
            view_writable(*view) && all_writable(old(self)@.entries, *view) ==> all_writable(final(self)@.entries, *view),
            match r {
                Ok(()) => {
                    let d = install_resolver_spec(old(self)@, *view, name@, id@, pair_texts(pairs@))->Ok_0;
                    &&& install_resolver_spec(old(self)@, *view, name@, id@, pair_texts(pairs@)) is Ok
                    &&& installed(old(self)@, final(self)@, fold_spec(name@), d.0, TargetSpec::Resolver {
                        resolver: id@,
                        carrier: d.2.2,
                        service: d.2.1,
                        declaration: d.2.0,
                        schema: d.0,
                        input_version: next_version(old(self)@.version),
                        input: sorted_pairs(pair_texts(pairs@)),
                    })
                },
                Err(d) => install_resolver_spec(old(self)@, *view, name@, id@, pair_texts(pairs@)) == Err::<(u64, Resolver, (Option<DeclId>, u64, AliasCarrier)), Seq<char>>(d.msg@)
                    && d.code == 2 && final(self)@ == old(self)@,
            },
    {
        match validate_name(name, "alias name") {
            Err(d) => {
                proof {
                    reveal_strlit("alias name");
                    reveal_strlit(" must be a nonempty single-line token");
                    reveal_strlit("alias name must be a nonempty single-line token");
                    assert(d.msg@ =~= name_refusal());
                }
                return Err(d);
            },
            Ok(()) => {},
        }
        match validate_name(id, "resolver id") {
            Err(d) => {
                proof {
                    reveal_strlit("resolver id");
                    reveal_strlit(" must be a nonempty single-line token");
                    reveal_strlit("resolver id must be a nonempty single-line token");
                    assert(d.msg@ =~= alias_fail_text("resolver id must be a nonempty single-line token"@));
                }
                return Err(d);
            },
            Ok(()) => {},
        }
        let members = match input_pairs(pairs) {
            Err(d) => return Err(d),
            Ok(m) => m,
        };
        let schema = match self.check_schema(view) {
            Err(d) => return Err(d),
            Ok(s) => s,
        };
        let spec = match resolver_spec(id) {
            None => {
                let m = cat("unknown resolver '", id);
                let m = cat(m.as_str(), "'");
                return Err(fail(m.as_str()));
            },
            Some(s) => s,
        };
        let contract = match resolver_contract(view, spec) {
            Err(d) => return Err(d),
            Ok(c) => c,
        };
        let input = HostInput { version: self.version.wrapping_add(1), pairs: members };
        proof {
            let ps = pair_texts(pairs@);
            let ms = pair_texts(input.pairs@);
            lemma_refusal_free_distinct(ps, ps.len() as int);
            lemma_refusal_free_ok(ps, ps.len() as int);
            lemma_run_same(spec.resolver, view.rows as nat, ps, ms);
            assert forall|k: int| 0 <= k < ms.len() implies pair_ok(#[trigger] ms[k]) by {
                assert(ps.contains(ms[k]));
            }
            lemma_sorted_pairs(ps, ms);
        }
        let value = match run_resolver(spec.resolver, view.rows, &input) {
            Err(d) => return Err(d),
            Ok(v) => v,
        };
        if !value_fits(&value, contract.2, view.rows) {
            let m = cat("resolver '", id);
            let m = cat(m.as_str(), "' result does not inhabit ");
            let m = cat(m.as_str(), contract.2.word());
            let m = cat(m.as_str(), " over ");
            let t = u64_text(view.rows as u64);
            let m = cat(m.as_str(), t.as_str());
            let m = cat(m.as_str(), " rows");
            return Err(fail(m.as_str()));
        }
        let key = canonical_name(name);
        proof {
            lemma_fold_idempotent(name@);
            assert forall|i: int| 0 <= i < key@.len() implies !crate::alias::line_breaking(#[trigger] key@[i]) by {
                assert(key@[i] == crate::alias::fold_char(name@[i]));
            }
        }
        let target = AliasTarget::Resolver {
            resolver: String::from_str(id),
            carrier: contract.2,
            service: contract.1,
            service_declaration: contract.0,
            schema,
            input,
        };
        let ghost before = self@.entries;
        self.schema = schema;
        self.version = self.version.wrapping_add(1);
        put(&mut self.entries, key, target);
        proof {
            if view_writable(*view) && all_writable(before, *view) {
                lemma_contract_writable(*view, spec);
                lemma_step_writable(before, self@.entries, *view, key@, Some(target@));
            }
        }
        Ok(())
    }

    /// Removes `^name`'s target; `false`, with nothing changed, when it has none. A removal
    /// moves the version forward once, and keeps writable an environment whose entries all
    /// were, in any registry.
    pub fn delete(&mut self, name: &str) -> (found: bool)
        requires
            old(self).wf(),
        ensures
            final(self).wf(),
            found == entry_map(old(self)@.entries).dom().contains(fold_spec(name@)),
            forall|v: RegistryView| all_writable(old(self)@.entries, v) ==> #[trigger] all_writable(final(self)@.entries, v),
            found ==> final(self)@.version == next_version(old(self)@.version)
                && final(self)@.schema == old(self)@.schema
                && entry_map(final(self)@.entries) == entry_map(old(self)@.entries).remove(fold_spec(name@)),
            !found ==> final(self)@ == old(self)@,
    {
        let key = canonical_name(name);
        let ghost before = self@.entries;
        if !take_out(&mut self.entries, key.as_str()) {
            return false;
        }
        self.version = self.version.wrapping_add(1);
        proof {
            assert forall|v: RegistryView| all_writable(before, v) implies #[trigger] all_writable(self@.entries, v) by {
                lemma_step_writable(before, self@.entries, v, key@, None);
            }
        }
        true
    }

    /// Drops every target and takes the registry's schema; the version moves forward once.
    pub fn clear(&mut self, view: &RegistryView)
        ensures
            final(self).wf(),
            final(self)@.version == next_version(old(self)@.version),
            final(self)@.schema == view.fingerprint,
            final(self)@.entries.len() == 0,
    {
        self.entries = Vec::new();
        self.schema = view.fingerprint;
        self.version = self.version.wrapping_add(1);
        proof {
            assert(entry_texts(self.entries@) =~= Seq::<(Seq<char>, TargetSpec)>::empty());
        }
    }
}

/* ---------- snapshots ---------- */

/// What one overlay consultation yields: a registry entry, a mask, or an entity row.
#[derive(Debug, Clone, PartialEq)]
pub enum ResolvedAlias {
    Entry(usize),
    Mask(Vec<MaskCell>),
    EntityRow(usize),
}

/// A consultation's result as a value.
pub enum ResolvedSpec {
    Entry(nat),
    Mask(Seq<MaskCell>),
    EntityRow(nat),
}

impl View for ResolvedAlias {
    type V = ResolvedSpec;

    open spec fn view(&self) -> ResolvedSpec {
        match self {
            ResolvedAlias::Entry(i) => ResolvedSpec::Entry(*i as nat),
            ResolvedAlias::Mask(vs) => ResolvedSpec::Mask(vs@),
            ResolvedAlias::EntityRow(r) => ResolvedSpec::EntityRow(*r as nat),
        }
    }
}

/// The refusal of a target whose schema is not the registry's.
pub open spec fn stale_schema(name: Seq<char>) -> Seq<char> {
    alias_fail_text("'^"@ + name + "' has a stale schema"@)
}

/// The refusal of a resolver target whose result no longer fits the world.
pub open spec fn stale_resolver(name: Seq<char>) -> Seq<char> {
    alias_fail_text("'^"@ + name + "' resolver is stale for the current world"@)
}

/// What checking a resolver target against a registry gives: the registered resolver, its
/// contract unchanged in service and declaration, and a result that inhabits the recorded
/// carrier; else the refusal.
pub open spec fn resolver_check(v: RegistryView, name: Seq<char>, resolver: Seq<char>, carrier: AliasCarrier, service: u64, declaration: Option<DeclId>, input: Seq<(Seq<char>, Seq<char>)>) -> Result<ValueSpec, Seq<char>> {
    match resolver_named(resolver) {
        None => Err(alias_fail_text("'^"@ + name + "' resolver '"@ + resolver + "' is not registered"@)),
        Some(r) => match contract_spec(v, registration(r)) {
            Err(x) => Err(x),
            Ok(c) => if c.1 != service || c.0 != declaration {
                Err(alias_fail_text("'^"@ + name + "' resolver service changed"@))
            } else {
                match run_spec(r, v.rows as nat, input) {
                    Err(_) => Err(stale_resolver(name)),
                    Ok(val) => if c.2 != carrier || !fits_spec(val, carrier, v.rows as nat) {
                        Err(stale_resolver(name))
                    } else {
                        Ok(val)
                    },
                }
            },
        },
    }
}

/// What checking a binding target against a registry gives: the entry it names, still of
/// the recorded carrier; else the refusal.
pub open spec fn binding_check(v: RegistryView, name: Seq<char>, binding: Seq<char>, carrier: AliasCarrier) -> Result<int, Seq<char>> {
    match find_entry(v, binding) {
        None => Err(alias_fail_text("'^"@ + name + "' targets missing binding '"@ + binding + "'"@)),
        Some(i) => match carrier_at(v, i) {
            Err(x) => Err(x),
            Ok(c) => if c != carrier {
                Err(alias_fail_text("'^"@ + name + "' binding carrier changed"@))
            } else {
                Ok(i)
            },
        },
    }
}

/// Whether one entry of a snapshot holds in a registry, or its refusal.
pub open spec fn check_entry(v: RegistryView, name: Seq<char>, t: TargetSpec) -> Result<(), Seq<char>> {
    match t {
        TargetSpec::Binding { binding, carrier, schema } => if schema != v.fingerprint {
            Err(stale_schema(name))
        } else {
            match binding_check(v, name, binding, carrier) {
                Err(x) => Err(x),
                Ok(_) => Ok(()),
            }
        },
        TargetSpec::Mask { values, rows, schema } => if schema != v.fingerprint || rows != v.rows
            || values.len() != rows {
            Err(alias_fail_text("'^"@ + name + "' is a stale or malformed mask"@))
        } else {
            Ok(())
        },
        TargetSpec::Resolver { resolver, carrier, service, declaration, schema, input, .. } => if schema != v.fingerprint {
            Err(stale_schema(name))
        } else {
            match resolver_check(v, name, resolver, carrier, service, declaration, input) {
                Err(x) => Err(x),
                Ok(_) => Ok(()),
            }
        },
    }
}

/// The first refusal among the first `n` entries, in name order.
pub open spec fn validate_from(v: RegistryView, es: Seq<(Seq<char>, TargetSpec)>, n: int) -> Result<(), Seq<char>>
    decreases n,
{
    if n <= 0 {
        Ok(())
    } else {
        match validate_from(v, es, n - 1) {
            Err(x) => Err(x),
            Ok(()) => check_entry(v, es[n - 1].0, es[n - 1].1),
        }
    }
}

proof fn lemma_validate_err_stays(v: RegistryView, es: Seq<(Seq<char>, TargetSpec)>, a: int, b: int)
    requires
        0 <= a <= b,
        validate_from(v, es, a) is Err,
    ensures
        validate_from(v, es, b) == validate_from(v, es, a),
    decreases b - a,
{
    if a < b {
        lemma_validate_err_stays(v, es, a, b - 1);
    }
}

/// Whether a snapshot holds in a registry: its schema is the registry's and every entry
/// checks (see `check_entry`); else the first refusal.
pub open spec fn validate_spec(e: EnvSpec, v: RegistryView) -> Result<(), Seq<char>> {
    if e.schema != v.fingerprint {
        Err(alias_fail_text("snapshot schema "@ + hex16(e.schema) + " is stale for registry "@ + hex16(v.fingerprint)))
    } else {
        validate_from(v, e.entries, e.entries.len() as int)
    }
}

/// What taking a snapshot gives: the environment's entries at its version under the schema
/// check, once they all hold in the registry.
pub open spec fn snapshot_spec(e: EnvSpec, v: RegistryView) -> Result<EnvSpec, Seq<char>> {
    match schema_check(e.schema, v) {
        Err(x) => Err(x),
        Ok(s) => {
            let sn = EnvSpec { version: e.version, schema: s, entries: e.entries };
            match validate_spec(sn, v) {
                Err(x) => Err(x),
                Ok(()) => Ok(sn),
            }
        },
    }
}

/// What consulting `^name` in a snapshot gives: `None` when the snapshot has no entry under
/// its canonical name (the caller then looks the bare name up); else the entry's answer, or
/// the refusal of a stale entry, which never falls back.
pub open spec fn resolve_spec(e: EnvSpec, v: RegistryView, name: Seq<char>) -> Result<Option<ResolvedSpec>, Seq<char>> {
    let key = fold_spec(name);
    let cur = v.fingerprint;
    if !entry_map(e.entries).dom().contains(key) {
        Ok(None)
    } else {
        match entry_map(e.entries)[key] {
            TargetSpec::Binding { binding, carrier, schema } => if schema != cur || e.schema != cur {
                Err(stale_schema(name))
            } else {
                match binding_check(v, name, binding, carrier) {
                    Err(x) => Err(x),
                    Ok(i) => Ok(Some(ResolvedSpec::Entry(i as nat))),
                }
            },
            TargetSpec::Mask { values, rows, schema } => if schema != cur || e.schema != cur
                || rows != v.rows || values.len() != rows {
                Err(alias_fail_text("'^"@ + name + "' is stale for the current world"@))
            } else {
                Ok(Some(ResolvedSpec::Mask(values)))
            },
            TargetSpec::Resolver { resolver, carrier, service, declaration, schema, input, .. } => if schema != cur || e.schema != cur {
                Err(stale_schema(name))
            } else {
                match resolver_check(v, name, resolver, carrier, service, declaration, input) {
                    Err(x) => Err(x),
                    Ok(ValueSpec::Entity(row)) => Ok(Some(ResolvedSpec::EntityRow(row))),
                    Ok(ValueSpec::Mask(vs)) => Ok(Some(ResolvedSpec::Mask(vs))),
                }
            },
        }
    }
}

/// Whether a resolver target, its service unchanged in a registry, fails when rerun there
/// or gives a result that no longer inhabits its carrier.
pub open spec fn rerun_stale(v: RegistryView, resolver: Seq<char>, carrier: AliasCarrier, service: u64, declaration: Option<DeclId>, input: Seq<(Seq<char>, Seq<char>)>) -> bool {
    match resolver_named(resolver) {
        None => false,
        Some(r) => match contract_spec(v, registration(r)) {
            Err(_) => false,
            Ok(c) => c.1 == service && c.0 == declaration && match run_spec(r, v.rows as nat, input) {
                Err(_) => true,
                Ok(val) => c.2 != carrier || !fits_spec(val, carrier, v.rows as nat),
            },
        },
    }
}

/// A present entry never falls back to the bare name: `^name` answers `None` exactly when
/// the snapshot holds no entry under its canonical name. A binding or resolver built for
/// another schema is refused as of a stale schema, a mask built for another schema or
/// another row count as stale for the current world, and a resolver whose rerun fails or
/// no longer fits its carrier as a stale resolver.
pub proof fn lemma_resolve_never_falls_back(e: EnvSpec, v: RegistryView, name: Seq<char>)
    ensures
        resolve_spec(e, v, name) == Ok::<Option<ResolvedSpec>, Seq<char>>(None) <==> !entry_map(
            e.entries,
        ).dom().contains(fold_spec(name)),
        entry_map(e.entries).dom().contains(fold_spec(name)) ==> match entry_map(e.entries)[fold_spec(name)] {
            TargetSpec::Binding { schema, .. } => (schema != v.fingerprint || e.schema != v.fingerprint)
                ==> resolve_spec(e, v, name) == Err::<Option<ResolvedSpec>, Seq<char>>(stale_schema(name)),
            TargetSpec::Resolver { resolver, carrier, service, declaration, schema, input, .. } => {
                &&& (schema != v.fingerprint || e.schema != v.fingerprint)
                    ==> resolve_spec(e, v, name) == Err::<Option<ResolvedSpec>, Seq<char>>(stale_schema(name))
                &&& (schema == v.fingerprint && e.schema == v.fingerprint && rerun_stale(
                    v,
                    resolver,
                    carrier,
                    service,
                    declaration,
                    input,
                )) ==> resolve_spec(e, v, name) == Err::<Option<ResolvedSpec>, Seq<char>>(stale_resolver(name))
            },
            TargetSpec::Mask { rows, schema, .. } => (schema != v.fingerprint || e.schema != v.fingerprint
                || rows != v.rows) ==> resolve_spec(e, v, name) == Err::<Option<ResolvedSpec>, Seq<char>>(
                alias_fail_text("'^"@ + name + "' is stale for the current world"@),
            ),
        },
{
}

/// A fresh target answers with what it stores: a mask built for the current schema and row
/// count answers with exactly its stored rows; a binding built for the current schema whose
/// name still finds a declaration of its carrier answers with that declaration; a resolver
/// whose service is unchanged answers with what rerunning it on its frozen input gives, when
/// that fits its carrier.
pub proof fn lemma_resolve_fresh_targets(e: EnvSpec, v: RegistryView, name: Seq<char>)
    ensures
        entry_map(e.entries).dom().contains(fold_spec(name)) ==> match entry_map(e.entries)[fold_spec(name)] {
            TargetSpec::Mask { values, rows, schema } => (schema == v.fingerprint && e.schema == v.fingerprint
                && rows == v.rows && values.len() == rows) ==> resolve_spec(e, v, name) == Ok::<
                Option<ResolvedSpec>,
                Seq<char>,
            >(Some(ResolvedSpec::Mask(values))),
            TargetSpec::Binding { binding, carrier, schema } => (schema == v.fingerprint && e.schema
                == v.fingerprint && find_entry(v, binding) is Some && carrier_at(v, find_entry(v, binding)->Some_0)
                == Ok::<AliasCarrier, Seq<char>>(carrier)) ==> resolve_spec(e, v, name) == Ok::<
                Option<ResolvedSpec>,
                Seq<char>,
            >(Some(ResolvedSpec::Entry(find_entry(v, binding)->Some_0 as nat))),
            TargetSpec::Resolver { resolver, carrier, service, declaration, schema, input, .. } => (schema
                == v.fingerprint && e.schema == v.fingerprint && resolver_named(resolver) is Some && contract_spec(
                v,
                registration(resolver_named(resolver)->Some_0),
            ) == Ok::<(Option<DeclId>, u64, AliasCarrier), Seq<char>>((declaration, service, carrier))
                && run_spec(resolver_named(resolver)->Some_0, v.rows as nat, input) is Ok && fits_spec(
                run_spec(resolver_named(resolver)->Some_0, v.rows as nat, input)->Ok_0,
                carrier,
                v.rows as nat,
            )) ==> resolve_spec(e, v, name) == Ok::<Option<ResolvedSpec>, Seq<char>>(
                Some(
                    match run_spec(resolver_named(resolver)->Some_0, v.rows as nat, input)->Ok_0 {
                        ValueSpec::Entity(row) => ResolvedSpec::EntityRow(row),
                        ValueSpec::Mask(vs) => ResolvedSpec::Mask(vs),
                    },
                ),
            ),
        },
{
    if entry_map(e.entries).dom().contains(fold_spec(name)) {
        if let TargetSpec::Binding { binding, .. } = entry_map(e.entries)[fold_spec(name)] {
            lemma_find_range(v.entries@, binding, 0);
        }
    }
}

/// Reading back what was written: after a successful mask install, the name (in any case
/// that folds to the same key) answers with exactly the rows the install was given; after a
/// successful binding install, with the declaration the binding word named.
pub proof fn lemma_resolve_reads_installs(
    e: EnvSpec,
    n: EnvSpec,
    v: RegistryView,
    name: Seq<char>,
    asked: Seq<char>,
    sp: Seq<Seq<char>>,
    binding: Seq<char>,
)
    requires
        fold_spec(asked) == fold_spec(name),
    ensures
        install_mask_spec(e, v, name, sp) is Ok && installed(
            e,
            n,
            fold_spec(name),
            install_mask_spec(e, v, name, sp)->Ok_0.0,
            install_mask_spec(e, v, name, sp)->Ok_0.1,
        ) ==> resolve_spec(n, v, asked) == Ok::<Option<ResolvedSpec>, Seq<char>>(
            Some(ResolvedSpec::Mask(cells_of(sp))),
        ),
        install_binding_spec(e, v, name, binding) is Ok && installed(
            e,
            n,
            fold_spec(name),
            install_binding_spec(e, v, name, binding)->Ok_0.0,
            install_binding_spec(e, v, name, binding)->Ok_0.1,
        ) ==> resolve_spec(n, v, asked) == Ok::<Option<ResolvedSpec>, Seq<char>>(
            Some(ResolvedSpec::Entry(find_entry(v, binding)->Some_0 as nat)),
        ),
{
    let key = fold_spec(name);
    if install_mask_spec(e, v, name, sp) is Ok && installed(
        e,
        n,
        key,
        install_mask_spec(e, v, name, sp)->Ok_0.0,
        install_mask_spec(e, v, name, sp)->Ok_0.1,
    ) {
        assert(entry_map(n.entries).dom().contains(key));
        lemma_resolve_fresh_targets(n, v, asked);
    }
    if install_binding_spec(e, v, name, binding) is Ok && installed(
        e,
        n,
        key,
        install_binding_spec(e, v, name, binding)->Ok_0.0,
        install_binding_spec(e, v, name, binding)->Ok_0.1,
    ) {
        let es = v.entries@;
        let i = find_entry(v, binding)->Some_0;
        lemma_find_range(es, binding, 0);
        let nm = es[i].name@;
        lemma_names_eq_equivalence(nm, nm, nm);
        assert forall|j: int| 0 <= j < i implies !names_eq_spec((#[trigger] es[j]).name@, nm) by {
            lemma_find_none_before(es, binding, 0, j);
            lemma_names_eq_equivalence(es[j].name@, nm, binding);
        }
        lemma_find_first(es, nm, 0, i);
        assert(entry_map(n.entries).dom().contains(key));
        lemma_resolve_fresh_targets(n, v, asked);
    }
}

fn check_binding(view: &RegistryView, name: &str, binding: &str, carrier: AliasCarrier) -> (r: Result<usize, Diag>)
    ensures
        match r {
            Ok(i) => binding_check(*view, name@, binding@, carrier) == Ok::<int, Seq<char>>(i as int),
            Err(d) => binding_check(*view, name@, binding@, carrier) == Err::<int, Seq<char>>(d.msg@) && d.code == 2,
        },
{
    let i = match find(view, binding) {
        None => {
            let m = cat("'^", name);
            let m = cat(m.as_str(), "' targets missing binding '");
            let m = cat(m.as_str(), binding);
            let m = cat(m.as_str(), "'");
            return Err(fail(m.as_str()));
        },
        Some(i) => i,
    };
    let c = match entry_carrier(view, i) {
        Err(d) => return Err(d),
        Ok(c) => c,
    };
    if c != carrier {
        let m = cat("'^", name);
        let m = cat(m.as_str(), "' binding carrier changed");
        return Err(fail(m.as_str()));
    }
    Ok(i)
}

fn check_resolver(view: &RegistryView, name: &str, resolver: &str, carrier: AliasCarrier, service: u64, declaration: Option<DeclId>, input: &HostInput) -> (r: Result<ResolverValue, Diag>)
    requires
        input.wf(),
    ensures
        match r {
            Ok(val) => resolver_check(*view, name@, resolver@, carrier, service, declaration, pair_texts(input.pairs@)) == Ok::<ValueSpec, Seq<char>>(val@),
            Err(d) => resolver_check(*view, name@, resolver@, carrier, service, declaration, pair_texts(input.pairs@)) == Err::<ValueSpec, Seq<char>>(d.msg@) && d.code == 2,
        },
{
    let spec = match resolver_spec(resolver) {
        None => {
            let m = cat("'^", name);
            let m = cat(m.as_str(), "' resolver '");
            let m = cat(m.as_str(), resolver);
            let m = cat(m.as_str(), "' is not registered");
            return Err(fail(m.as_str()));
        },
        Some(s) => s,
    };
    let contract = match resolver_contract(view, spec) {
        Err(d) => return Err(d),
        Ok(c) => c,
    };
    if contract.1 != service || contract.0 != declaration {
        let m = cat("'^", name);
        let m = cat(m.as_str(), "' resolver service changed");
        return Err(fail(m.as_str()));
    }
    let value = match run_resolver(spec.resolver, view.rows, input) {
        Err(_) => {
            let m = cat("'^", name);
            let m = cat(m.as_str(), "' resolver is stale for the current world");
            return Err(fail(m.as_str()));
        },
        Ok(v) => v,
    };
    if contract.2 != carrier || !value_fits(&value, carrier, view.rows) {
        let m = cat("'^", name);
        let m = cat(m.as_str(), "' resolver is stale for the current world");
        return Err(fail(m.as_str()));
    }
    Ok(value)
}

fn check_one(view: &RegistryView, name: &str, t: &AliasTarget) -> (r: Result<(), Diag>)
    requires
        target_wf(t@),
    ensures
        match r {
            Ok(()) => check_entry(*view, name@, t@) == Ok::<(), Seq<char>>(()),
            Err(d) => check_entry(*view, name@, t@) == Err::<(), Seq<char>>(d.msg@) && d.code == 2,
        },
{
    match t {
        AliasTarget::Binding { binding, carrier, schema } => {
            if *schema != view.fingerprint {
                let m = cat("'^", name);
                let m = cat(m.as_str(), "' has a stale schema");
                return Err(fail(m.as_str()));
            }
            match check_binding(view, name, binding.as_str(), *carrier) {
                Err(d) => Err(d),
                Ok(_) => Ok(()),
            }
        },
        AliasTarget::Mask { values, rows, schema } => {
            if *schema != view.fingerprint || *rows != view.rows || values.len() != *rows {
                let m = cat("'^", name);
                let m = cat(m.as_str(), "' is a stale or malformed mask");
                return Err(fail(m.as_str()));
            }
            Ok(())
        },
        AliasTarget::Resolver { resolver, carrier, service, service_declaration, schema, input } => {
            if *schema != view.fingerprint {
                let m = cat("'^", name);
                let m = cat(m.as_str(), "' has a stale schema");
                return Err(fail(m.as_str()));
            }
            match check_resolver(view, name, resolver.as_str(), *carrier, *service, *service_declaration, input) {
                Err(d) => Err(d),
                Ok(_) => Ok(()),
            }
        },
    }
}

fn entries_copy(v: &Vec<(String, AliasTarget)>) -> (r: Vec<(String, AliasTarget)>)
    ensures
        entry_texts(r@) == entry_texts(v@),
{
    let mut out: Vec<(String, AliasTarget)> = Vec::new();
    let mut k: usize = 0;
    while k < v.len()
        invariant
            0 <= k <= v@.len(),
            out@.len() == k,
            entry_texts(out@) =~= entry_texts(v@).take(k as int),
        decreases v@.len() - k,
    {
        let ghost before = out@;
        let a = v[k].0.clone();
        let b = v[k].1.copy();
        out.push((a, b));
        proof {
            assert(out@ =~= before.push((a, b)));
            assert(entry_texts(out@)[k as int] == entry_texts(v@)[k as int]);
            assert forall|j: int| 0 <= j < k implies entry_texts(out@)[j] == entry_texts(before)[j] by {
                assert(out@[j] == before[j]);
            }
            assert(entry_texts(out@) =~= entry_texts(v@).take(k + 1));
        }
        k += 1;
    }
    out
}

/// The index of the entry under a key, when there is one.
fn lookup_index(entries: &Vec<(String, AliasTarget)>, key: &str) -> (r: Option<usize>)
    requires
        entries_wf(entry_texts(entries@)),
    ensures
        match r {
            Some(i) => i < entries@.len() && entries@[i as int].0@ == key@
                && entry_map(entry_texts(entries@)).dom().contains(key@)
                && entry_map(entry_texts(entries@))[key@] == entries@[i as int].1@,
            None => !entry_map(entry_texts(entries@)).dom().contains(key@),
        },
{
    let ghost ov = entry_texts(entries@);
    let mut k: usize = 0;
    while k < entries.len()
        invariant
            ov == entry_texts(entries@),
            entries_wf(ov),
            0 <= k <= entries@.len(),
            forall|i: int| 0 <= i < k ==> (#[trigger] ov[i]).0 != key@,
        decreases entries@.len() - k,
    {
        if same_text(entries[k].0.as_str(), key) {
            proof {
                assert(ov[k as int].0 == key@);
                assert forall|j: int| 0 <= j < ov.len() && j != k implies (#[trigger] ov[j]).0 != ov[k as int].0 by {
                    lemma_sorted_distinct(ov, j, k as int);
                }
                lemma_entry_map_at(ov, k as int);
            }
            return Some(k);
        }
        proof {
            assert(ov[k as int].0 == entries@[k as int].0@);
        }
        k += 1;
    }
    proof {
        lemma_entry_map_dom(ov, key@);
    }
    None
}

/// A frozen copy of an environment that has been checked against a registry: the version
/// and schema it was taken at, and its targets in name order (a vector sorted by key, for
/// the reason given on `AliasEnvironment`).
#[derive(Debug, Clone, PartialEq)]
pub struct AliasSnapshot {
    pub version: u64,
    pub schema: u64,
    entries: Vec<(String, AliasTarget)>,
}

impl View for AliasSnapshot {
    type V = EnvSpec;

    closed spec fn view(&self) -> EnvSpec {
        EnvSpec { version: self.version, schema: self.schema, entries: entry_texts(self.entries@) }
    }
}

impl AliasSnapshot {
    /// The snapshot invariant, that of an environment's entries.
    pub closed spec fn wf(&self) -> bool {
        entries_wf(entry_texts(self.entries@))
    }

    /// Whether the snapshot has no target.
    pub fn is_empty(&self) -> (b: bool)
        ensures
            b == (self@.entries.len() == 0),
    {
        self.entries.len() == 0
    }

    /// The targets in name order.
    pub fn iter(&self) -> (v: &[(String, AliasTarget)])
        ensures
            entry_texts(v@) == self@.entries,
    {
        self.entries.as_slice()
    }

    /// Checks the snapshot against a registry (see `validate_spec`).
    pub fn validate(&self, view: &RegistryView) -> (r: Result<(), Diag>)
        requires
            self.wf(),
        ensures
            match r {
                Ok(()) => validate_spec(self@, *view) == Ok::<(), Seq<char>>(()),
                Err(d) => validate_spec(self@, *view) == Err::<(), Seq<char>>(d.msg@) && d.code == 2,
            },
    {
        let current = view.fingerprint;
        if self.schema != current {
            let a = hex16_text(self.schema);
            let b = hex16_text(current);
            let m = cat("snapshot schema ", a.as_str());
            let m = cat(m.as_str(), " is stale for registry ");
            let m = cat(m.as_str(), b.as_str());
            return Err(fail(m.as_str()));
        }
        let ghost es = entry_texts(self.entries@);
        let mut k: usize = 0;
        while k < self.entries.len()
            invariant
                es == entry_texts(self.entries@),
                entries_wf(es),
                self.schema == view.fingerprint,
                0 <= k <= self.entries@.len(),
                validate_from(*view, es, k as int) == Ok::<(), Seq<char>>(()),
            decreases self.entries@.len() - k,
        {
            proof {
                assert(es[k as int] == (self.entries@[k as int].0@, self.entries@[k as int].1@));
                assert(canonical_key(es[k as int].0) && target_wf(es[k as int].1));
            }
            match check_one(view, self.entries[k].0.as_str(), &self.entries[k].1) {
                Err(d) => {
                    proof {
                        assert(validate_from(*view, es, k + 1) == Err::<(), Seq<char>>(d.msg@));
                        lemma_validate_err_stays(*view, es, k + 1, es.len() as int);
                        assert(self@.entries == es);
                        assert(self@.schema == view.fingerprint);
                        assert(validate_from(*view, self@.entries, self@.entries.len() as int) == Err::<(), Seq<char>>(d.msg@));
                    }
                    return Err(d);
                },
                Ok(()) => {},
            }
            k += 1;
        }
        Ok(())
    }

    /// The stored target under `^name`. Reading a target is no consultation: it neither
    /// checks nor runs anything.
    pub fn target(&self, name: &str) -> (r: Option<&AliasTarget>)
        requires
            self.wf(),
        ensures
            match r {
                Some(t) => entry_map(self@.entries).dom().contains(fold_spec(name@))
                    && entry_map(self@.entries)[fold_spec(name@)] == t@,
                None => !entry_map(self@.entries).dom().contains(fold_spec(name@)),
            },
    {
        let key = canonical_name(name);
        match lookup_index(&self.entries, key.as_str()) {
            Some(i) => Some(&self.entries[i].1),
            None => None,
        }
    }

    /// Consults `^name` (see `resolve_spec`): `Ok(None)` sends the caller to the bare name;
    /// a present but stale entry is refused and never falls back.
    pub fn resolve(&self, view: &RegistryView, name: &str) -> (r: Result<Option<ResolvedAlias>, Diag>)
        requires
            self.wf(),
        ensures
            match r {
                Ok(None) => resolve_spec(self@, *view, name@) == Ok::<Option<ResolvedSpec>, Seq<char>>(None),
                Ok(Some(a)) => resolve_spec(self@, *view, name@) == Ok::<Option<ResolvedSpec>, Seq<char>>(Some(a@)),
                Err(d) => resolve_spec(self@, *view, name@) == Err::<Option<ResolvedSpec>, Seq<char>>(d.msg@) && d.code == 2,
            },
    {
        let key = canonical_name(name);
        let i = match lookup_index(&self.entries, key.as_str()) {
            None => return Ok(None),
            Some(i) => i,
        };
        proof {
            let es = entry_texts(self.entries@);
            assert(es[i as int] == (self.entries@[i as int].0@, self.entries@[i as int].1@));
            lemma_entry_wf_at(es, i as int);
        }
        let current = view.fingerprint;
        match &self.entries[i].1 {
            AliasTarget::Binding { binding, carrier, schema } => {
                if *schema != current || self.schema != current {
                    let m = cat("'^", name);
                    let m = cat(m.as_str(), "' has a stale schema");
                    return Err(fail(m.as_str()));
                }
                match check_binding(view, name, binding.as_str(), *carrier) {
                    Err(d) => Err(d),
                    Ok(index) => Ok(Some(ResolvedAlias::Entry(index))),
                }
            },
            AliasTarget::Mask { values, rows, schema } => {
                if *schema != current || self.schema != current || *rows != view.rows || values.len() != *rows {
                    let m = cat("'^", name);
                    let m = cat(m.as_str(), "' is stale for the current world");
                    return Err(fail(m.as_str()));
                }
                Ok(Some(ResolvedAlias::Mask(cells_copy(values))))
            },
            AliasTarget::Resolver { resolver, carrier, service, service_declaration, schema, input } => {
                if *schema != current || self.schema != current {
                    let m = cat("'^", name);
                    let m = cat(m.as_str(), "' has a stale schema");
                    return Err(fail(m.as_str()));
                }
                match check_resolver(view, name, resolver.as_str(), *carrier, *service, *service_declaration, input) {
                    Err(d) => Err(d),
                    Ok(ResolverValue::Entity(row)) => Ok(Some(ResolvedAlias::EntityRow(row))),
                    Ok(ResolverValue::Mask(vs)) => Ok(Some(ResolvedAlias::Mask(vs))),
                }
            },
        }
    }
}

impl AliasEnvironment {
    /// Takes a snapshot for an emission against a registry (see `snapshot_spec`).
    pub fn snapshot(&self, view: &RegistryView) -> (r: Result<AliasSnapshot, Diag>)
        requires
            self.wf(),
        ensures
            match r {
                Ok(sn) => snapshot_spec(self@, *view) == Ok::<EnvSpec, Seq<char>>(sn@) && sn.wf(),
                Err(d) => snapshot_spec(self@, *view) == Err::<EnvSpec, Seq<char>>(d.msg@) && d.code == 2,
            },
    {
        let schema = match self.check_schema(view) {
            Err(d) => return Err(d),
            Ok(s) => s,
        };
        let snapshot = AliasSnapshot { version: self.version, schema, entries: entries_copy(&self.entries) };
        match snapshot.validate(view) {
            Err(d) => return Err(d),
            Ok(()) => {},
        }
        Ok(snapshot)
    }
}

/* ---------- migration ---------- */

/// The value under a key among pairs, the first pair with that key winning.
pub open spec fn first_value(ps: Seq<(Seq<char>, Seq<char>)>, k: Seq<char>, i: int) -> Option<Seq<char>>
    decreases ps.len() - i,
{
    if i < 0 || i >= ps.len() {
        None
    } else if ps[i].0 == k {
        Some(ps[i].1)
    } else {
        first_value(ps, k, i + 1)
    }
}

fn first_value_exec<'a>(ps: &'a [(String, String)], k: &str) -> (r: Option<&'a str>)
    ensures
        match r {
            Some(v) => first_value(pair_texts(ps@), k@, 0) == Some(v@),
            None => first_value(pair_texts(ps@), k@, 0) is None,
        },
{
    let ghost pv = pair_texts(ps@);
    let mut i: usize = 0;
    while i < ps.len()
        invariant
            pv == pair_texts(ps@),
            0 <= i <= ps@.len(),
            first_value(pv, k@, 0) == first_value(pv, k@, i as int),
        decreases ps@.len() - i,
    {
        proof {
            assert(pv[i as int] == (ps@[i as int].0@, ps@[i as int].1@));
        }
        if same_text(ps[i].0.as_str(), k) {
            return Some(ps[i].1.as_str());
        }
        i += 1;
    }
    None
}

fn contains_text(set: &[String], k: &str) -> (b: bool)
    ensures
        b == set@.map_values(|s: String| s@).contains(k@),
{
    let ghost sv = set@.map_values(|s: String| s@);
    let mut i: usize = 0;
    while i < set.len()
        invariant
            sv == set@.map_values(|s: String| s@),
            0 <= i <= set@.len(),
            forall|j: int| 0 <= j < i ==> sv[j] != k@,
        decreases set@.len() - i,
    {
        proof {
            assert(sv[i as int] == set@[i as int]@);
        }
        if same_text(set[i].as_str(), k) {
            return true;
        }
        i += 1;
    }
    false
}

/// The refusal of a resolver target whose result no longer fits the migrated world.
pub open spec fn stale_migrated(name: Seq<char>) -> Seq<char> {
    alias_fail_text("'^"@ + name + "' resolver is stale for the migrated world"@)
}

/// What one target becomes in the migrated registry, under its new schema: a binding
/// follows the map from its canonical old binding to the new one and keeps its carrier; a
/// mask keeps its rows when the world keeps its row count; a resolver keeps its contract
/// and must still fit the new world.
pub open spec fn migrate_entry(nv: RegistryView, name: Seq<char>, t: TargetSpec, bindings: Seq<(Seq<char>, Seq<char>)>, schema: u64) -> Result<TargetSpec, Seq<char>> {
    match t {
        TargetSpec::Binding { binding, carrier, .. } => match first_value(bindings, fold_spec(binding), 0) {
            None => Err(alias_fail_text("'^"@ + name + "' targets removed binding '"@ + binding + "'"@)),
            Some(nb) => match binding_target_spec(nv, nb, schema) {
                Err(x) => Err(x),
                Ok(mt) => if target_carrier(mt) != carrier {
                    Err(alias_fail_text("'^"@ + name + "' binding carrier changed"@))
                } else {
                    Ok(mt)
                },
            },
        },
        TargetSpec::Mask { values, rows, .. } => if rows != nv.rows || values.len() != rows {
            Err(alias_fail_text("'^"@ + name + "' is stale for the migrated world"@))
        } else {
            Ok(TargetSpec::Mask { values, rows, schema })
        },
        TargetSpec::Resolver { resolver, carrier, service, declaration, input_version, input, .. } => match resolver_named(resolver) {
            None => Err(alias_fail_text("'^"@ + name + "' resolver '"@ + resolver + "' is not registered"@)),
            Some(r) => match contract_spec(nv, registration(r)) {
                Err(x) => Err(x),
                Ok(c) => if c.2 != carrier || c.1 != service || c.0 != declaration {
                    Err(alias_fail_text("'^"@ + name + "' resolver service or carrier changed"@))
                } else {
                    match run_spec(r, nv.rows as nat, input) {
                        Err(_) => Err(stale_migrated(name)),
                        Ok(val) => if !fits_spec(val, carrier, nv.rows as nat) {
                            Err(stale_migrated(name))
                        } else {
                            Ok(TargetSpec::Resolver { resolver, carrier, service, declaration, schema, input_version, input })
                        },
                    }
                },
            },
        },
    }
}

/// The migrated entries of the first `n`, in name order: the removed names dropped, every
/// other entry migrated; else the first refusal.
pub open spec fn migrate_from(nv: RegistryView, es: Seq<(Seq<char>, TargetSpec)>, n: int, bindings: Seq<(Seq<char>, Seq<char>)>, removed: Seq<Seq<char>>, schema: u64) -> Result<Seq<(Seq<char>, TargetSpec)>, Seq<char>>
    decreases n,
{
    if n <= 0 {
        Ok(Seq::empty())
    } else {
        match migrate_from(nv, es, n - 1, bindings, removed, schema) {
            Err(x) => Err(x),
            Ok(acc) => if removed.contains(es[n - 1].0) {
                Ok(acc)
            } else {
                match migrate_entry(nv, es[n - 1].0, es[n - 1].1, bindings, schema) {
                    Err(x) => Err(x),
                    Ok(t) => Ok(acc.push((es[n - 1].0, t))),
                }
            },
        }
    }
}

proof fn lemma_migrate_err_stays(nv: RegistryView, es: Seq<(Seq<char>, TargetSpec)>, a: int, b: int, bindings: Seq<(Seq<char>, Seq<char>)>, removed: Seq<Seq<char>>, schema: u64)
    requires
        0 <= a <= b,
        migrate_from(nv, es, a, bindings, removed, schema) is Err,
    ensures
        migrate_from(nv, es, b, bindings, removed, schema) == migrate_from(nv, es, a, bindings, removed, schema),
    decreases b - a,
{
    if a < b {
        lemma_migrate_err_stays(nv, es, a, b - 1, bindings, removed, schema);
    }
}

/// What migrating an environment across a registry change gives: it must snapshot in the
/// old registry; its entries migrate (see `migrate_from`) under the new registry's schema at
/// the next version; and the result must snapshot in the new registry.
pub open spec fn migrate_spec(e: EnvSpec, ov: RegistryView, nv: RegistryView, bindings: Seq<(Seq<char>, Seq<char>)>, removed: Seq<Seq<char>>) -> Result<EnvSpec, Seq<char>> {
    match snapshot_spec(e, ov) {
        Err(x) => Err(x),
        Ok(_) => match migrate_from(nv, e.entries, e.entries.len() as int, bindings, removed, nv.fingerprint) {
            Err(x) => Err(x),
            Ok(es) => {
                let ne = EnvSpec { version: next_version(e.version), schema: nv.fingerprint, entries: es };
                match snapshot_spec(ne, nv) {
                    Err(x) => Err(x),
                    Ok(_) => Ok(ne),
                }
            },
        },
    }
}

fn migrate_one(nv: &RegistryView, name: &str, t: &AliasTarget, bindings: &[(String, String)], schema: u64) -> (r: Result<AliasTarget, Diag>)
    requires
        target_wf(t@),
    ensures
        match r {
            Ok(m) => migrate_entry(*nv, name@, t@, pair_texts(bindings@), schema) == Ok::<TargetSpec, Seq<char>>(m@) && target_wf(m@),
            Err(d) => migrate_entry(*nv, name@, t@, pair_texts(bindings@), schema) == Err::<TargetSpec, Seq<char>>(d.msg@) && d.code == 2,
        },
{
    match t {
        AliasTarget::Binding { binding, carrier, .. } => {
            let key = canonical_name(binding.as_str());
            let nb = match first_value_exec(bindings, key.as_str()) {
                None => {
                    let m = cat("'^", name);
                    let m = cat(m.as_str(), "' targets removed binding '");
                    let m = cat(m.as_str(), binding.as_str());
                    let m = cat(m.as_str(), "'");
                    return Err(fail(m.as_str()));
                },
                Some(nb) => nb,
            };
            let migrated = match binding_target(nv, nb, schema) {
                Err(d) => return Err(d),
                Ok(mt) => mt,
            };
            if migrated.carrier() != *carrier {
                let m = cat("'^", name);
                let m = cat(m.as_str(), "' binding carrier changed");
                return Err(fail(m.as_str()));
            }
            Ok(migrated)
        },
        AliasTarget::Mask { values, rows, .. } => {
            if *rows != nv.rows || values.len() != *rows {
                let m = cat("'^", name);
                let m = cat(m.as_str(), "' is stale for the migrated world");
                return Err(fail(m.as_str()));
            }
            Ok(AliasTarget::Mask { values: cells_copy(values), rows: *rows, schema })
        },
        AliasTarget::Resolver { resolver, carrier, service, service_declaration, input, .. } => {
            let spec = match resolver_spec(resolver.as_str()) {
                None => {
                    let m = cat("'^", name);
                    let m = cat(m.as_str(), "' resolver '");
                    let m = cat(m.as_str(), resolver.as_str());
                    let m = cat(m.as_str(), "' is not registered");
                    return Err(fail(m.as_str()));
                },
                Some(s) => s,
            };
            let contract = match resolver_contract(nv, spec) {
                Err(d) => return Err(d),
                Ok(c) => c,
            };
            if contract.2 != *carrier || contract.1 != *service || contract.0 != *service_declaration {
                let m = cat("'^", name);
                let m = cat(m.as_str(), "' resolver service or carrier changed");
                return Err(fail(m.as_str()));
            }
            let value = match run_resolver(spec.resolver, nv.rows, input) {
                Err(_) => {
                    let m = cat("'^", name);
                    let m = cat(m.as_str(), "' resolver is stale for the migrated world");
                    return Err(fail(m.as_str()));
                },
                Ok(v) => v,
            };
            if !value_fits(&value, *carrier, nv.rows) {
                let m = cat("'^", name);
                let m = cat(m.as_str(), "' resolver is stale for the migrated world");
                return Err(fail(m.as_str()));
            }
            Ok(AliasTarget::Resolver {
                resolver: resolver.clone(),
                carrier: *carrier,
                service: *service,
                service_declaration: *service_declaration,
                schema,
                input: HostInput { version: input.version, pairs: pairs_copy(&input.pairs) },
            })
        },
    }
}

impl AliasEnvironment {
    /// Moves the environment across a registry migration (see `migrate_spec`): `bindings`
    /// maps each canonical old binding name to its new binding, and `removed` lists the
    /// overlay names the migration drops. Any missing target, carrier or service drift, or
    /// stale resolver refuses the whole migration.
    pub fn migrate_schema(&self, old: &RegistryView, new: &RegistryView, bindings: &[(String, String)], removed: &[String]) -> (r: Result<AliasEnvironment, Diag>)
        requires
            self.wf(),
        ensures
            match r {
                Ok(e) => migrate_spec(self@, *old, *new, pair_texts(bindings@), removed@.map_values(|s: String| s@)) == Ok::<EnvSpec, Seq<char>>(e@) && e.wf(),
                Err(d) => migrate_spec(self@, *old, *new, pair_texts(bindings@), removed@.map_values(|s: String| s@)) == Err::<EnvSpec, Seq<char>>(d.msg@) && d.code == 2,
            },
    {
        let ghost bv = pair_texts(bindings@);
        let ghost rv = removed@.map_values(|s: String| s@);
        match self.snapshot(old) {
            Err(d) => return Err(d),
            Ok(_) => {},
        }
        let schema = new.fingerprint;
        let ghost es = entry_texts(self.entries@);
        let mut out: Vec<(String, AliasTarget)> = Vec::new();
        proof {
            assert(entry_texts(out@) =~= Seq::<(Seq<char>, TargetSpec)>::empty());
        }
        let mut k: usize = 0;
        while k < self.entries.len()
            invariant
                es == entry_texts(self.entries@),
                entries_wf(es),
                bv == pair_texts(bindings@),
                rv == removed@.map_values(|s: String| s@),
                schema == new.fingerprint,
                snapshot_spec(self@, *old) is Ok,
                0 <= k <= self.entries@.len(),
                migrate_from(*new, es, k as int, bv, rv, schema) == Ok::<Seq<(Seq<char>, TargetSpec)>, Seq<char>>(entry_texts(out@)),
                entries_wf(entry_texts(out@)),
                forall|i: int| 0 <= i < out@.len() ==> exists|j: int| 0 <= j < k && (#[trigger] entry_texts(out@)[i]).0 == es[j].0,
            decreases self.entries@.len() - k,
        {
            proof {
                assert(es[k as int] == (self.entries@[k as int].0@, self.entries@[k as int].1@));
                lemma_entry_wf_at(es, k as int);
            }
            let name = self.entries[k].0.as_str();
            if contains_text(removed, name) {
                k += 1;
                continue;
            }
            let migrated = match migrate_one(new, name, &self.entries[k].1, bindings, schema) {
                Err(d) => {
                    proof {
                        assert(migrate_from(*new, es, k + 1, bv, rv, schema) == Err::<Seq<(Seq<char>, TargetSpec)>, Seq<char>>(d.msg@));
                        lemma_migrate_err_stays(*new, es, k + 1, es.len() as int, bv, rv, schema);
                    }
                    return Err(d);
                },
                Ok(m) => m,
            };
            let ghost before = entry_texts(out@);
            proof {
                assert forall|i: int| 0 <= i < before.len() implies text_lt(#[trigger] before[i].0, es[k as int].0) by {
                    let j = choose|j: int| 0 <= j < k && before[i].0 == es[j].0;
                    assert(text_lt(es[j].0, es[k as int].0));
                }
            }
            put(&mut out, self.entries[k].0.clone(), migrated);
            proof {
                let nv = entry_texts(out@);
                assert forall|i: int| 0 <= i < nv.len() implies exists|j: int| 0 <= j < k + 1 && (#[trigger] nv[i]).0 == es[j].0 by {
                    if i < before.len() {
                        assert(nv[i] == before[i]);
                        let j = choose|j: int| 0 <= j < k && before[i].0 == es[j].0;
                    } else {
                        assert(nv[i].0 == es[k as int].0);
                    }
                }
            }
            k += 1;
        }
        let environment = AliasEnvironment { version: self.version.wrapping_add(1), schema, entries: out };
        match environment.snapshot(new) {
            Err(d) => return Err(d),
            Ok(_) => {},
        }
        Ok(environment)
    }
}

/* ---------- the sidecar ---------- */

/// The first word of a sidecar.
pub const SIDECAR_MAGIC: &'static str = "ano-aliases-v1";

/// Fields joined by single tabs.
pub open spec fn join_tab(fs: Seq<Seq<char>>) -> Seq<char>
    decreases fs.len(),
{
    if fs.len() == 0 {
        Seq::empty()
    } else if fs.len() == 1 {
        fs[0]
    } else {
        join_tab(fs.drop_last()) + seq!['\t'] + fs.last()
    }
}

/// The header fields: the magic word, the version in decimal, the schema in 16 hex digits.
pub open spec fn header_fields(version: u64, schema: u64) -> Seq<Seq<char>> {
    seq!["ano-aliases-v1"@, dec_spelling(version as nat), hex16(schema)]
}

/// One frozen input pair as its record field: "<key>=<value>".
pub open spec fn pair_word(p: (Seq<char>, Seq<char>)) -> Seq<char> {
    p.0 + seq!['='] + p.1
}

/// The fields of one target's record: "bind", the name, the binding, the carrier and the
/// schema; "mask", the name, the row count, the schema and one field per row; or "rslv", the
/// name, the resolver, the carrier, the service stamp, the schema, the input version and one
/// "<key>=<value>" field per input pair.
pub open spec fn record_fields(name: Seq<char>, t: TargetSpec) -> Seq<Seq<char>> {
    match t {
        TargetSpec::Binding { binding, carrier, schema } => seq!["bind"@, name, binding, carrier_word(carrier), hex16(schema)],
        TargetSpec::Mask { values, rows, schema } => seq!["mask"@, name, dec_spelling(rows), hex16(schema)]
            + values.map_values(|c: MaskCell| cell_word(c)),
        TargetSpec::Resolver { resolver, carrier, service, declaration, schema, input_version, input } =>
            seq!["rslv"@, name, resolver, carrier_word(carrier), stamp_word_spec(declaration, service), hex16(schema), dec_spelling(input_version as nat)]
            + input.map_values(|p: (Seq<char>, Seq<char>)| pair_word(p)),
    }
}

/// The record lines of the entries, each ended by a newline, in order.
pub open spec fn records_text(es: Seq<(Seq<char>, TargetSpec)>) -> Seq<char>
    decreases es.len(),
{
    if es.len() == 0 {
        Seq::empty()
    } else {
        records_text(es.drop_last()) + join_tab(record_fields(es.last().0, es.last().1)) + seq!['\n']
    }
}

/// The sidecar text of an environment: the header line, then one record line per target in
/// name order.
pub open spec fn encode_spec(e: EnvSpec) -> Seq<char> {
    join_tab(header_fields(e.version, e.schema)) + seq!['\n'] + records_text(e.entries)
}

fn push_str(out: &mut Vec<char>, s: &str)
    ensures
        final(out)@ == old(out)@ + s@,
{
    let ghost start = out@;
    let v = chars_of(s);
    let mut k: usize = 0;
    while k < v.len()
        invariant
            0 <= k <= v@.len(),
            v@ == s@,
            out@ =~= start + s@.take(k as int),
        decreases v@.len() - k,
    {
        out.push(v[k]);
        proof {
            assert(s@.take(k + 1) =~= s@.take(k as int).push(v@[k as int]));
        }
        k += 1;
    }
    assert(s@.take(v@.len() as int) =~= s@);
}

fn push_join(out: &mut Vec<char>, fs: &Vec<String>)
    ensures
        final(out)@ == old(out)@ + join_tab(fs@.map_values(|s: String| s@)),
{
    let ghost start = out@;
    let ghost fv = fs@.map_values(|s: String| s@);
    let mut k: usize = 0;
    while k < fs.len()
        invariant
            0 <= k <= fs@.len(),
            fv == fs@.map_values(|s: String| s@),
            out@ =~= start + join_tab(fv.take(k as int)),
        decreases fs@.len() - k,
    {
        proof {
            assert(fv.take(k + 1).drop_last() =~= fv.take(k as int));
            assert(fv.take(k + 1).last() == fs@[k as int]@);
        }
        if k > 0 {
            out.push('\t');
        } else {
            proof {
                assert(fv.take(1) =~= seq![fs@[0]@]);
            }
        }
        push_str(out, fs[k].as_str());
        k += 1;
    }
    assert(fv.take(fs@.len() as int) =~= fv);
}

fn record_fields_exec(name: &str, t: &AliasTarget) -> (fs: Vec<String>)
    ensures
        fs@.map_values(|s: String| s@) == record_fields(name@, t@),
{
    let mut fs: Vec<String> = Vec::new();
    match t {
        AliasTarget::Binding { binding, carrier, schema } => {
            fs.push(String::from_str("bind"));
            fs.push(String::from_str(name));
            fs.push(binding.clone());
            fs.push(String::from_str(carrier.word()));
            fs.push(hex16_text(*schema));
            proof {
                assert(fs@.map_values(|s: String| s@) =~= record_fields(name@, t@));
            }
        },
        AliasTarget::Mask { values, rows, schema } => {
            fs.push(String::from_str("mask"));
            fs.push(String::from_str(name));
            fs.push(u64_text(*rows as u64));
            fs.push(hex16_text(*schema));
            let ghost head = fs@.map_values(|s: String| s@);
            let mut k: usize = 0;
            while k < values.len()
                invariant
                    0 <= k <= values@.len(),
                    fs@.len() == 4 + k,
                    head == seq!["mask"@, name@, dec_spelling(*rows as nat), hex16(*schema)],
                    fs@.map_values(|s: String| s@) =~= head + values@.take(k as int).map_values(|c: MaskCell| cell_word(c)),
                decreases values@.len() - k,
            {
                let ghost before = fs@;
                let ghost old_map = fs@.map_values(|s: String| s@);
                fs.push(String::from_str(cell_text(values[k])));
                proof {
                    let nm = fs@.map_values(|s: String| s@);
                    let want = head + values@.take(k + 1).map_values(|c: MaskCell| cell_word(c));
                    assert(nm.len() == want.len());
                    assert forall|j: int| 0 <= j < nm.len() implies nm[j] == want[j] by {
                        if j < 4 + k {
                            assert(fs@[j] == before[j]);
                            assert(nm[j] == old_map[j]);
                        } else {
                            assert(nm[j] == cell_word(values@[k as int]));
                        }
                    }
                    assert(nm =~= want);
                }
                k += 1;
            }
            proof {
                assert(values@.take(values@.len() as int) =~= values@);
            }
        },
        AliasTarget::Resolver { resolver, carrier, service, service_declaration, schema, input } => {
            fs.push(String::from_str("rslv"));
            fs.push(String::from_str(name));
            fs.push(resolver.clone());
            fs.push(String::from_str(carrier.word()));
            fs.push(service_stamp_word(*service_declaration, *service));
            fs.push(hex16_text(*schema));
            fs.push(u64_text(input.version));
            let ghost head = fs@.map_values(|s: String| s@);
            let ghost pv = pair_texts(input.pairs@);
            let mut k: usize = 0;
            while k < input.pairs.len()
                invariant
                    0 <= k <= input.pairs@.len(),
                    fs@.len() == 7 + k,
                    pv == pair_texts(input.pairs@),
                    head == seq!["rslv"@, name@, resolver@, carrier_word(*carrier), stamp_word_spec(*service_declaration, *service), hex16(*schema), dec_spelling(input.version as nat)],
                    fs@.map_values(|s: String| s@) =~= head + pv.take(k as int).map_values(|p: (Seq<char>, Seq<char>)| pair_word(p)),
                decreases input.pairs@.len() - k,
            {
                let ghost before = fs@;
                let ghost old_map = fs@.map_values(|s: String| s@);
                let w = cat(input.pairs[k].0.as_str(), "=");
                let w = cat(w.as_str(), input.pairs[k].1.as_str());
                fs.push(w);
                proof {
                    reveal_strlit("=");
                    assert("="@ =~= seq!['=']);
                    assert(pv[k as int] == (input.pairs@[k as int].0@, input.pairs@[k as int].1@));
                    let nm = fs@.map_values(|s: String| s@);
                    let want = head + pv.take(k + 1).map_values(|p: (Seq<char>, Seq<char>)| pair_word(p));
                    assert(nm.len() == want.len());
                    assert forall|j: int| 0 <= j < nm.len() implies nm[j] == want[j] by {
                        if j < 7 + k {
                            assert(fs@[j] == before[j]);
                            assert(nm[j] == old_map[j]);
                        } else {
                            assert(nm[j] == pair_word(pv[k as int]));
                        }
                    }
                    assert(nm =~= want);
                }
                k += 1;
            }
            proof {
                assert(pv.take(pv.len() as int) =~= pv);
            }
        },
    }
    fs
}

impl AliasEnvironment {
    /// The sidecar text (see `encode_spec`).
    pub fn encode(&self) -> (s: String)
        ensures
            s@ == encode_spec(self@),
    {
        let mut out: Vec<char> = Vec::new();
        let mut head: Vec<String> = Vec::new();
        head.push(String::from_str(SIDECAR_MAGIC));
        head.push(u64_text(self.version));
        head.push(hex16_text(self.schema));
        proof {
            assert(head@.map_values(|s: String| s@) =~= header_fields(self.version, self.schema));
        }
        push_join(&mut out, &head);
        out.push('\n');
        let ghost es = entry_texts(self.entries@);
        proof {
            assert(es.take(0) =~= Seq::<(Seq<char>, TargetSpec)>::empty());
            assert(out@ =~= join_tab(header_fields(self.version, self.schema)) + seq!['\n'] + records_text(es.take(0)));
        }
        let mut k: usize = 0;
        while k < self.entries.len()
            invariant
                0 <= k <= self.entries@.len(),
                es == entry_texts(self.entries@),
                out@ =~= join_tab(header_fields(self.version, self.schema)) + seq!['\n'] + records_text(es.take(k as int)),
            decreases self.entries@.len() - k,
        {
            let fs = record_fields_exec(self.entries[k].0.as_str(), &self.entries[k].1);
            push_join(&mut out, &fs);
            out.push('\n');
            proof {
                assert(es.take(k + 1).drop_last() =~= es.take(k as int));
                assert(es.take(k + 1).last() == es[k as int]);
                assert(es[k as int] == (self.entries@[k as int].0@, self.entries@[k as int].1@));
            }
            k += 1;
        }
        proof {
            assert(es.take(es.len() as int) =~= es);
        }
        string_of(out.as_slice())
    }
}

/* ---------- reading a sidecar ---------- */

/// Entries ordered strictly by name.
pub open spec fn key_ordered<A>(s: Seq<(Seq<char>, A)>) -> bool {
    forall|i: int, j: int| 0 <= i < j < s.len() ==> text_lt(#[trigger] s[i].0, #[trigger] s[j].0)
}

/// Two lists ordered strictly by name that hold the same elements are the same list.
pub proof fn lemma_ordered_unique<A>(a: Seq<(Seq<char>, A)>, b: Seq<(Seq<char>, A)>)
    requires
        key_ordered(a),
        key_ordered(b),
        forall|i: int| 0 <= i < a.len() ==> b.contains(#[trigger] a[i]),
        forall|j: int| 0 <= j < b.len() ==> a.contains(#[trigger] b[j]),
    ensures
        a == b,
    decreases a.len() + b.len(),
{
    if a.len() == 0 {
        if b.len() > 0 {
            assert(a.contains(b[0]));
        }
        assert(a =~= b);
    } else if b.len() == 0 {
        assert(b.contains(a[0]));
    } else {
        let la = a.last();
        let lb = b.last();
        assert(b.contains(a[a.len() - 1]));
        assert(a.contains(b[b.len() - 1]));
        let j = choose|j: int| 0 <= j < b.len() && b[j] == la;
        let i = choose|i: int| 0 <= i < a.len() && a[i] == lb;
        if la != lb {
            assert(j < b.len() - 1);
            assert(i < a.len() - 1);
            assert(text_lt(b[j].0, b[b.len() - 1].0));
            assert(text_lt(a[i].0, a[a.len() - 1].0));
            lemma_text_lt_transitive(la.0, lb.0, la.0);
            lemma_text_lt_irreflexive(la.0);
        }
        let a2 = a.drop_last();
        let b2 = b.drop_last();
        assert forall|x: int| 0 <= x < a2.len() implies b2.contains(#[trigger] a2[x]) by {
            assert(b.contains(a[x]));
            let y = choose|y: int| 0 <= y < b.len() && b[y] == a[x];
            if y == b.len() - 1 {
                assert(text_lt(a[x].0, a[a.len() - 1].0));
                lemma_text_lt_irreflexive(la.0);
            }
            assert(b2[y] == a2[x]);
        }
        assert forall|y: int| 0 <= y < b2.len() implies a2.contains(#[trigger] b2[y]) by {
            assert(a.contains(b[y]));
            let x = choose|x: int| 0 <= x < a.len() && a[x] == b[y];
            if x == a.len() - 1 {
                assert(text_lt(b[y].0, b[b.len() - 1].0));
                lemma_text_lt_irreflexive(lb.0);
            }
            assert(a2[x] == b2[y]);
        }
        lemma_ordered_unique(a2, b2);
        assert(a =~= a2.push(la));
        assert(b =~= b2.push(lb));
    }
}

/// Two well-formed entry lists holding the same targets under the same names are equal.
pub proof fn lemma_entries_unique(a: Seq<(Seq<char>, TargetSpec)>, b: Seq<(Seq<char>, TargetSpec)>)
    requires
        entries_wf(a),
        entries_wf(b),
        entry_map(a) == entry_map(b),
    ensures
        a == b,
{
    assert forall|i: int| 0 <= i < a.len() implies b.contains(#[trigger] a[i]) by {
        assert forall|j: int| 0 <= j < a.len() && j != i implies (#[trigger] a[j]).0 != a[i].0 by {
            lemma_sorted_distinct(a, j, i);
        }
        lemma_entry_map_at(a, i);
        lemma_entry_map_dom(b, a[i].0);
        let j = choose|j: int| 0 <= j < b.len() && (#[trigger] b[j]).0 == a[i].0;
        assert forall|m: int| 0 <= m < b.len() && m != j implies (#[trigger] b[m]).0 != b[j].0 by {
            lemma_sorted_distinct(b, m, j);
        }
        lemma_entry_map_at(b, j);
        assert(b[j] == a[i]);
    }
    assert forall|j: int| 0 <= j < b.len() implies a.contains(#[trigger] b[j]) by {
        assert forall|m: int| 0 <= m < b.len() && m != j implies (#[trigger] b[m]).0 != b[j].0 by {
            lemma_sorted_distinct(b, m, j);
        }
        lemma_entry_map_at(b, j);
        lemma_entry_map_dom(a, b[j].0);
        let i = choose|i: int| 0 <= i < a.len() && (#[trigger] a[i]).0 == b[j].0;
        assert forall|m: int| 0 <= m < a.len() && m != i implies (#[trigger] a[m]).0 != a[i].0 by {
            lemma_sorted_distinct(a, m, i);
        }
        lemma_entry_map_at(a, i);
        assert(a[i] == b[j]);
    }
    lemma_ordered_unique(a, b);
}

/// The well-formed entry list holding a map's targets, in name order.
pub open spec fn sorted_entries(m: Map<Seq<char>, TargetSpec>) -> Seq<(Seq<char>, TargetSpec)> {
    choose|s: Seq<(Seq<char>, TargetSpec)>| entries_wf(s) && entry_map(s) == m
}

proof fn lemma_sorted_entries(s: Seq<(Seq<char>, TargetSpec)>)
    requires
        entries_wf(s),
    ensures
        sorted_entries(entry_map(s)) == s,
{
    let m = entry_map(s);
    let c = sorted_entries(m);
    assert(entries_wf(c) && entry_map(c) == m);
    lemma_entries_unique(c, s);
}

/// The pairs in key order, when their keys are distinct.
pub open spec fn sorted_pairs(ps: Seq<(Seq<char>, Seq<char>)>) -> Seq<(Seq<char>, Seq<char>)> {
    choose|m: Seq<(Seq<char>, Seq<char>)>| keys_sorted(m) && same_pairs(ps, m)
}

proof fn lemma_sorted_pairs(ps: Seq<(Seq<char>, Seq<char>)>, m: Seq<(Seq<char>, Seq<char>)>)
    requires
        keys_sorted(m),
        same_pairs(ps, m),
    ensures
        sorted_pairs(ps) == m,
{
    let c = sorted_pairs(ps);
    assert(keys_sorted(c) && same_pairs(ps, c));
    assert(key_ordered(c));
    assert(key_ordered(m));
    assert forall|i: int| 0 <= i < c.len() implies m.contains(#[trigger] c[i]) by {
        assert(ps.contains(c[i]));
        let k = choose|k: int| 0 <= k < ps.len() && ps[k] == c[i];
        assert(m.contains(ps[k]));
    }
    assert forall|j: int| 0 <= j < m.len() implies c.contains(#[trigger] m[j]) by {
        assert(ps.contains(m[j]));
        let k = choose|k: int| 0 <= k < ps.len() && ps[k] == m[j];
        assert(c.contains(ps[k]));
    }
    lemma_ordered_unique(c, m);
}

/// The carrier a word names exactly.
pub open spec fn carrier_named(w: Seq<char>) -> Option<AliasCarrier> {
    if w == "mask"@ {
        Some(AliasCarrier::Mask)
    } else if w == "number"@ {
        Some(AliasCarrier::Number)
    } else if w == "entity"@ {
        Some(AliasCarrier::Entity)
    } else if w == "point"@ {
        Some(AliasCarrier::Point)
    } else if w == "vector"@ {
        Some(AliasCarrier::Vector)
    } else if w == "symbol"@ {
        Some(AliasCarrier::Symbol)
    } else {
        None
    }
}

/// A carrier's word names it.
pub proof fn lemma_carrier_named(c: AliasCarrier)
    ensures
        carrier_named(carrier_word(c)) == Some(c),
{
    reveal_strlit("mask");
    reveal_strlit("number");
    reveal_strlit("entity");
    reveal_strlit("point");
    reveal_strlit("vector");
    reveal_strlit("symbol");
    let m = "mask"@;
    let n = "number"@;
    let e = "entity"@;
    let p = "point"@;
    let v = "vector"@;
    let y = "symbol"@;
    assert(m[0] != n[0] && m[0] != e[0] && m[0] != p[0] && m[0] != v[0] && m[0] != y[0]);
    assert(n[0] != e[0] && n[0] != p[0] && n[0] != v[0] && n[0] != y[0]);
    assert(e[0] != p[0] && e[0] != v[0] && e[0] != y[0]);
    assert(p[0] != v[0] && p[0] != y[0]);
    assert(v[0] != y[0]);
}

fn carrier_of(w: &str) -> (r: Option<AliasCarrier>)
    ensures
        r == carrier_named(w@),
{
    let r = AliasCarrier::parse(w);
    proof {
        match r {
            Some(c) => {
                lemma_carrier_named(c);
            },
            None => {
                assert(carrier_word(AliasCarrier::Mask) != w@);
                assert(carrier_word(AliasCarrier::Number) != w@);
                assert(carrier_word(AliasCarrier::Entity) != w@);
                assert(carrier_word(AliasCarrier::Point) != w@);
                assert(carrier_word(AliasCarrier::Vector) != w@);
                assert(carrier_word(AliasCarrier::Symbol) != w@);
            },
        }
    }
    r
}

/// The first '=' at or after `i`.
pub open spec fn eq_from(w: Seq<char>, i: int) -> Option<int>
    decreases w.len() - i,
{
    if i < 0 || i >= w.len() {
        None
    } else if w[i] == '=' {
        Some(i)
    } else {
        eq_from(w, i + 1)
    }
}

/// A member field split at its first '=', as `str::split_once('=')` splits it.
pub open spec fn split_member(w: Seq<char>) -> Option<(Seq<char>, Seq<char>)> {
    match eq_from(w, 0) {
        Some(i) => Some((w.subrange(0, i), w.subrange(i + 1, w.len() as int))),
        None => None,
    }
}

/// The pairs of a record's member fields, or `None` when one holds no '='.
pub open spec fn member_pairs(ms: Seq<Seq<char>>) -> Option<Seq<(Seq<char>, Seq<char>)>> {
    if forall|k: int| 0 <= k < ms.len() ==> #[trigger] split_member(ms[k]) is Some {
        Some(Seq::new(ms.len(), |k: int| split_member(ms[k])->Some_0))
    } else {
        None
    }
}

/// The refusal of a malformed record, by path and 1-based line number.
pub open spec fn malformed_text(path: Seq<char>, line: nat) -> Seq<char> {
    alias_fail_text(path + ":"@ + dec_spelling(line) + ": malformed alias record"@)
}

/// What one record line's fields give under the sidecar's schema: the canonical name and
/// the target, or the refusal. A binding is re-resolved in the registry and must keep its
/// carrier; a mask must pin the registry's row count with rows spelled 0, -0 or 1; a
/// resolver must be registered, keep its contract's carrier, and carry admissible input.
pub open spec fn record_spec(fs: Seq<Seq<char>>, line: nat, path: Seq<char>, v: RegistryView, schema: u64) -> Result<(Seq<char>, TargetSpec), Seq<char>> {
    let malformed = malformed_text(path, line);
    if fs.len() == 5 && fs[0] == "bind"@ {
        if !token_shaped(fs[1]) {
            Err(name_refusal())
        } else {
            match carrier_named(fs[3]) {
                None => Err(malformed),
                Some(c) => match parse_hex_spec(fs[4]) {
                    None => Err(malformed),
                    Some(rs) => if rs != schema {
                        Err(malformed)
                    } else {
                        match binding_target_spec(v, fs[2], schema) {
                            Err(x) => Err(x),
                            Ok(t) => if target_carrier(t) != c {
                                Err(alias_fail_text(path + ":"@ + dec_spelling(line) + ": binding carrier changed"@))
                            } else {
                                Ok((fold_spec(fs[1]), t))
                            },
                        }
                    },
                },
            }
        }
    } else if fs.len() >= 4 && fs[0] == "mask"@ {
        if !token_shaped(fs[1]) {
            Err(name_refusal())
        } else {
            match parse_row_spec(fs[2]) {
                None => Err(malformed),
                Some(rows) => match parse_hex_spec(fs[3]) {
                    None => Err(malformed),
                    Some(rs) => if rs != schema || rows != v.rows {
                        Err(malformed)
                    } else if bad_cell_from(fs.skip(4), 0) is Some || fs.skip(4).len() != rows {
                        Err(malformed)
                    } else {
                        Ok((fold_spec(fs[1]), TargetSpec::Mask { values: cells_of(fs.skip(4)), rows, schema }))
                    },
                },
            }
        }
    } else if fs.len() >= 7 && fs[0] == "rslv"@ {
        if !token_shaped(fs[1]) {
            Err(name_refusal())
        } else {
            match resolver_named(fs[2]) {
                None => Err(alias_fail_text(path + ":"@ + dec_spelling(line) + ": unknown resolver '"@ + fs[2] + "'"@)),
                Some(r) => match contract_spec(v, registration(r)) {
                    Err(x) => Err(x),
                    Ok(c) => match carrier_named(fs[3]) {
                        None => Err(malformed),
                        Some(cc) => if cc != c.2 {
                            Err(malformed)
                        } else {
                            match parse_stamp_spec(fs[4]) {
                                None => Err(malformed),
                                Some(st) => match parse_hex_spec(fs[5]) {
                                    None => Err(malformed),
                                    Some(rs) => if rs != schema {
                                        Err(malformed)
                                    } else {
                                        match parse_dec_spec(fs[6]) {
                                            None => Err(malformed),
                                            Some(iv) => match member_pairs(fs.skip(7)) {
                                                None => Err(malformed),
                                                Some(ps) => if pair_refusal(ps, ps.len() as int) is Some {
                                                    Err(pair_refusal(ps, ps.len() as int)->Some_0)
                                                } else {
                                                    Ok((fold_spec(fs[1]), TargetSpec::Resolver {
                                                        resolver: resolver_id(r),
                                                        carrier: cc,
                                                        service: st.1,
                                                        declaration: st.0,
                                                        schema,
                                                        input_version: iv,
                                                        input: sorted_pairs(ps),
                                                    }))
                                                },
                                            },
                                        }
                                    },
                                },
                            }
                        },
                    },
                },
            }
        }
    } else {
        Err(malformed)
    }
}

/// What the record lines 1 to `n - 1` give, name to target, a later record under a name
/// winning; empty lines skipped; else the first refusal.
pub open spec fn records_spec(ls: Seq<Seq<char>>, n: int, path: Seq<char>, v: RegistryView, schema: u64) -> Result<Map<Seq<char>, TargetSpec>, Seq<char>>
    decreases n,
{
    if n <= 1 {
        Ok(Map::empty())
    } else {
        match records_spec(ls, n - 1, path, v, schema) {
            Err(x) => Err(x),
            Ok(m) => record_step(m, ls[n - 1], n as nat, path, v, schema),
        }
    }
}

/// What one line adds to the targets read so far: nothing when it is empty, else its
/// record's target under its name; or the record's refusal.
pub open spec fn record_step(m: Map<Seq<char>, TargetSpec>, l: Seq<char>, line: nat, path: Seq<char>, v: RegistryView, schema: u64) -> Result<Map<Seq<char>, TargetSpec>, Seq<char>> {
    if l.len() == 0 {
        Ok(m)
    } else {
        match record_spec(fields(l), line, path, v, schema) {
            Err(x) => Err(x),
            Ok(kt) => Ok(m.insert(kt.0, kt.1)),
        }
    }
}

proof fn lemma_records_err_stays(ls: Seq<Seq<char>>, a: int, b: int, path: Seq<char>, v: RegistryView, schema: u64)
    requires
        1 <= a <= b,
        records_spec(ls, a, path, v, schema) is Err,
    ensures
        records_spec(ls, b, path, v, schema) == records_spec(ls, a, path, v, schema),
    decreases b - a,
{
    if a < b {
        lemma_records_err_stays(ls, a, b - 1, path, v, schema);
    }
}

/// What reading a sidecar's text gives in a registry: the header must be the magic word, a
/// decimal version and the registry's own schema in hexadecimal; the records then give the
/// targets; the environment they make must snapshot in the registry; and the text must be
/// exactly the environment's own sidecar text. Else the first refusal.
pub open spec fn load_spec(text: Seq<char>, path: Seq<char>, v: RegistryView) -> Result<EnvSpec, Seq<char>> {
    let ls = lines_from(text, 0);
    if ls.len() == 0 {
        Err(alias_fail_text("'"@ + path + "' is empty"@))
    } else {
        let f = fields(ls[0]);
        if f.len() != 3 || f[0] != "ano-aliases-v1"@ {
            Err(alias_fail_text("'"@ + path + "' has an unsupported header"@))
        } else {
            match parse_dec_spec(f[1]) {
                None => Err(alias_fail_text("'"@ + path + "' has a bad version"@)),
                Some(version) => match parse_hex_spec(f[2]) {
                    None => Err(alias_fail_text("'"@ + path + "' has a bad schema"@)),
                    Some(schema) => if schema != v.fingerprint {
                        Err(alias_fail_text("'"@ + path + "' belongs to schema "@ + hex16(schema) + ", current registry is "@ + hex16(v.fingerprint)))
                    } else {
                        match records_spec(ls, ls.len() as int, path, v, schema) {
                            Err(x) => Err(x),
                            Ok(m) => {
                                let e = EnvSpec { version, schema, entries: sorted_entries(m) };
                                match snapshot_spec(e, v) {
                                    Err(x) => Err(x),
                                    Ok(_) => if encode_spec(e) != text {
                                        Err(alias_fail_text("'"@ + path + "' is not in canonical alias form"@))
                                    } else {
                                        Ok(e)
                                    },
                                }
                            },
                        }
                    },
                },
            }
        }
    }
}

/// A sidecar loads only from its canonical form: what `load_text` accepts is the encoding of
/// the environment it returns, belongs to the registry's schema, and snapshots cleanly.
pub proof fn lemma_load_canonical_only(text: Seq<char>, path: Seq<char>, v: RegistryView)
    ensures
        load_spec(text, path, v) matches Ok(e) ==> {
            &&& encode_spec(e) == text
            &&& e.schema == v.fingerprint
            &&& snapshot_spec(e, v) is Ok
        },
{
}

fn malformed(path: &str, line: usize) -> (d: Diag)
    ensures
        d.msg@ == malformed_text(path@, line as nat),
        d.code == 2,
{
    let m = cat(path, ":");
    let t = u64_text(line as u64);
    let m = cat(m.as_str(), t.as_str());
    let m = cat(m.as_str(), ": malformed alias record");
    fail(m.as_str())
}

fn text_of(v: &Vec<char>) -> (s: String)
    ensures
        s@ == v@,
{
    string_of(v.as_slice())
}

fn split_member_exec(w: &Vec<char>) -> (r: Option<(String, String)>)
    ensures
        match r {
            Some(p) => split_member(w@) == Some((p.0@, p.1@)),
            None => split_member(w@) is None,
        },
{
    let mut i: usize = 0;
    while i < w.len() && w[i] != '='
        invariant
            0 <= i <= w@.len(),
            eq_from(w@, 0) == eq_from(w@, i as int),
        decreases w@.len() - i,
    {
        i += 1;
    }
    if i == w.len() {
        return None;
    }
    let a = sub_chars(w, 0, i);
    let b = sub_chars(w, i + 1, w.len());
    Some((text_of(&a), text_of(&b)))
}

fn members_exec(fs: &Vec<Vec<char>>) -> (r: Option<Vec<(String, String)>>)
    requires
        fs@.len() >= 7,
    ensures
        match r {
            Some(ps) => member_pairs(fs@.map_values(|f: Vec<char>| f@).skip(7)) == Some(pair_texts(ps@)),
            None => member_pairs(fs@.map_values(|f: Vec<char>| f@).skip(7)) is None,
        },
{
    let ghost ms = fs@.map_values(|f: Vec<char>| f@).skip(7);
    let mut out: Vec<(String, String)> = Vec::new();
    let mut k: usize = 7;
    while k < fs.len()
        invariant
            7 <= k <= fs@.len(),
            ms == fs@.map_values(|f: Vec<char>| f@).skip(7),
            out@.len() == k - 7,
            forall|j: int| 0 <= j < k - 7 ==> #[trigger] split_member(ms[j]) == Some(pair_texts(out@)[j]),
        decreases fs@.len() - k,
    {
        proof {
            assert(ms[k - 7] == fs@[k as int]@);
        }
        match split_member_exec(&fs[k]) {
            None => {
                proof {
                    assert(split_member(ms[k - 7]) is None);
                }
                return None;
            },
            Some(p) => {
                let ghost before = out@;
                out.push(p);
                proof {
                    assert forall|j: int| 0 <= j < k + 1 - 7 implies #[trigger] split_member(ms[j]) == Some(pair_texts(out@)[j]) by {
                        if j < k - 7 {
                            assert(out@[j] == before[j]);
                        }
                    }
                }
            },
        }
        k += 1;
    }
    proof {
        assert(pair_texts(out@) =~= Seq::new(ms.len(), |k: int| split_member(ms[k])->Some_0));
    }
    Some(out)
}

fn cells_from(fs: &Vec<Vec<char>>) -> (r: Option<Vec<MaskCell>>)
    requires
        fs@.len() >= 4,
    ensures
        match r {
            Some(c) => bad_cell_from(fs@.map_values(|f: Vec<char>| f@).skip(4), 0) is None
                && c@ == cells_of(fs@.map_values(|f: Vec<char>| f@).skip(4)),
            None => bad_cell_from(fs@.map_values(|f: Vec<char>| f@).skip(4), 0) is Some,
        },
{
    let ghost cw = fs@.map_values(|f: Vec<char>| f@).skip(4);
    let mut cells: Vec<MaskCell> = Vec::new();
    let mut k: usize = 4;
    while k < fs.len()
        invariant
            4 <= k <= fs@.len(),
            cw == fs@.map_values(|f: Vec<char>| f@).skip(4),
            bad_cell_from(cw, 0) == bad_cell_from(cw, k - 4),
            cells@ =~= cells_of(cw).take(k - 4),
        decreases fs@.len() - k,
    {
        proof {
            assert(cw[k - 4] == fs@[k as int]@);
        }
        match cell_of(&fs[k]) {
            None => return None,
            Some(c) => {
                cells.push(c);
            },
        }
        k += 1;
    }
    proof {
        assert(cells@ =~= cells_of(cw));
    }
    Some(cells)
}

fn read_record(l: &Vec<char>, line: usize, path: &str, view: &RegistryView, schema: u64, entries: &mut Vec<(String, AliasTarget)>) -> (r: Result<(), Diag>)
    requires
        entries_wf(entry_texts(old(entries)@)),
    ensures
        match r {
            Ok(()) => entries_wf(entry_texts(final(entries)@)) && record_step(entry_map(entry_texts(old(entries)@)), l@, line as nat, path@, *view, schema)
                == Ok::<Map<Seq<char>, TargetSpec>, Seq<char>>(entry_map(entry_texts(final(entries)@))),
            Err(d) => record_step(entry_map(entry_texts(old(entries)@)), l@, line as nat, path@, *view, schema) == Err::<Map<Seq<char>, TargetSpec>, Seq<char>>(d.msg@)
                && d.code == 2,
        },
{
    if l.len() == 0 {
        return Ok(());
    }
    let fs = fields_exec(l);
    match record_exec(&fs, line, path, view, schema) {
        Err(d) => Err(d),
        Ok(kt) => {
            let (k, tg) = kt;
            put(entries, k, tg);
            Ok(())
        },
    }
}

fn record_exec(fs: &Vec<Vec<char>>, line: usize, path: &str, view: &RegistryView, schema: u64) -> (r: Result<(String, AliasTarget), Diag>)
    ensures
        match r {
            Ok(kt) => record_spec(fs@.map_values(|f: Vec<char>| f@), line as nat, path@, *view, schema) == Ok::<(Seq<char>, TargetSpec), Seq<char>>((kt.0@, kt.1@))
                && canonical_key(kt.0@) && target_wf(kt.1@),
            Err(d) => record_spec(fs@.map_values(|f: Vec<char>| f@), line as nat, path@, *view, schema) == Err::<(Seq<char>, TargetSpec), Seq<char>>(d.msg@) && d.code == 2,
        },
{
    let ghost fv = fs@.map_values(|f: Vec<char>| f@);
    proof {
        reveal_strlit("bind");
        reveal_strlit("mask");
        reveal_strlit("rslv");
    }
    if fs.len() == 0 {
        return Err(malformed(path, line));
    }
    proof {
        assert(fv[0] == fs@[0]@);
    }
    let is_bind = word_is(&fs[0], "bind");
    let is_mask = word_is(&fs[0], "mask");
    let is_rslv = word_is(&fs[0], "rslv");
    if !((fs.len() == 5 && is_bind) || (fs.len() >= 4 && is_mask) || (fs.len() >= 7 && is_rslv)) {
        return Err(malformed(path, line));
    }
    proof {
        assert(fv[1] == fs@[1]@);
        assert(fv[2] == fs@[2]@);
        assert(fv[3] == fs@[3]@);
    }
    let name = text_of(&fs[1]);
    match validate_name(name.as_str(), "alias name") {
        Err(d) => {
            proof {
                reveal_strlit("alias name");
                reveal_strlit(" must be a nonempty single-line token");
                reveal_strlit("alias name must be a nonempty single-line token");
                assert(d.msg@ =~= name_refusal());
            }
            return Err(d);
        },
        Ok(()) => {},
    }
    let key = canonical_name(name.as_str());
    proof {
        lemma_fold_idempotent(name@);
        assert forall|i: int| 0 <= i < key@.len() implies !crate::alias::line_breaking(#[trigger] key@[i]) by {
            assert(key@[i] == crate::alias::fold_char(name@[i]));
        }
    }
    if fs.len() == 5 && is_bind {
        proof {
            assert(fv[4] == fs@[4]@);
        }
        let w3 = text_of(&fs[3]);
        let c = match carrier_of(w3.as_str()) {
            None => return Err(malformed(path, line)),
            Some(c) => c,
        };
        let rs = match parse_hex_exec(&fs[4]) {
            None => return Err(malformed(path, line)),
            Some(x) => x,
        };
        if rs != schema {
            return Err(malformed(path, line));
        }
        let binding = text_of(&fs[2]);
        let t = match binding_target(view, binding.as_str(), schema) {
            Err(d) => return Err(d),
            Ok(t) => t,
        };
        if t.carrier() != c {
            let m = cat(path, ":");
            let n = u64_text(line as u64);
            let m = cat(m.as_str(), n.as_str());
            let m = cat(m.as_str(), ": binding carrier changed");
            return Err(fail(m.as_str()));
        }
        return Ok((key, t));
    }
    if fs.len() >= 4 && is_mask {
        let rows: usize = match parse_dec_exec(&fs[2]) {
            Some(x) if x <= usize::MAX as u64 => x as usize,
            _ => return Err(malformed(path, line)),
        };
        let rs = match parse_hex_exec(&fs[3]) {
            None => return Err(malformed(path, line)),
            Some(x) => x,
        };
        if rs != schema || rows != view.rows {
            return Err(malformed(path, line));
        }
        let cells = match cells_from(fs) {
            None => return Err(malformed(path, line)),
            Some(c) => c,
        };
        if cells.len() != rows {
            return Err(malformed(path, line));
        }
        return Ok((key, AliasTarget::Mask { values: cells, rows, schema }));
    }
    proof {
        assert(fv[4] == fs@[4]@);
        assert(fv[5] == fs@[5]@);
        assert(fv[6] == fs@[6]@);
    }
    let id = text_of(&fs[2]);
    let spec = match resolver_spec(id.as_str()) {
        None => {
            let m = cat(path, ":");
            let n = u64_text(line as u64);
            let m = cat(m.as_str(), n.as_str());
            let m = cat(m.as_str(), ": unknown resolver '");
            let m = cat(m.as_str(), id.as_str());
            let m = cat(m.as_str(), "'");
            return Err(fail(m.as_str()));
        },
        Some(s) => s,
    };
    let contract = match resolver_contract(view, spec) {
        Err(d) => return Err(d),
        Ok(c) => c,
    };
    let w3 = text_of(&fs[3]);
    let cc = match carrier_of(w3.as_str()) {
        None => return Err(malformed(path, line)),
        Some(c) => c,
    };
    if cc != contract.2 {
        return Err(malformed(path, line));
    }
    let w4 = text_of(&fs[4]);
    let stamp = match parse_service_stamp(w4.as_str()) {
        None => return Err(malformed(path, line)),
        Some(st) => st,
    };
    let rs = match parse_hex_exec(&fs[5]) {
        None => return Err(malformed(path, line)),
        Some(x) => x,
    };
    if rs != schema {
        return Err(malformed(path, line));
    }
    let iv = match parse_dec_exec(&fs[6]) {
        None => return Err(malformed(path, line)),
        Some(x) => x,
    };
    let ps = match members_exec(fs) {
        None => return Err(malformed(path, line)),
        Some(ps) => ps,
    };
    let members = match input_pairs(ps.as_slice()) {
        Err(d) => return Err(d),
        Ok(m) => m,
    };
    proof {
        let pv = pair_texts(ps@);
        let mv = pair_texts(members@);
        lemma_sorted_pairs(pv, mv);
        lemma_refusal_free_ok(pv, pv.len() as int);
        assert forall|k: int| 0 <= k < mv.len() implies pair_ok(#[trigger] mv[k]) by {
            assert(pv.contains(mv[k]));
        }
        lemma_resolver_id_names(spec.resolver);
    }
    let target = AliasTarget::Resolver {
        resolver: String::from_str(spec.resolver.id()),
        carrier: cc,
        service: stamp.1,
        service_declaration: stamp.0,
        schema,
        input: HostInput { version: iv, pairs: members },
    };
    Ok((key, target))
}

impl AliasEnvironment {
    /// Reads an environment back from its sidecar text (see `load_spec`). `path` names the
    /// sidecar in refusals.
    pub fn load_text(text: &str, path: &str, view: &RegistryView) -> (r: Result<AliasEnvironment, Diag>)
        ensures
            match r {
                Ok(e) => load_spec(text@, path@, *view) == Ok::<EnvSpec, Seq<char>>(e@) && e.wf(),
                Err(d) => load_spec(text@, path@, *view) == Err::<EnvSpec, Seq<char>>(d.msg@) && d.code == 2,
            },
    {
        proof {
            reveal_strlit("ano-aliases-v1");
        }
        let t = chars_of(text);
        let ls = lines_exec(&t);
        let ghost lv = ls@.map_values(|l: Vec<char>| l@);
        if ls.len() == 0 {
            let m = cat("'", path);
            let m = cat(m.as_str(), "' is empty");
            return Err(fail(m.as_str()));
        }
        proof {
            assert(lv[0] == ls@[0]@);
        }
        let f = fields_exec(&ls[0]);
        let ghost fv = f@.map_values(|x: Vec<char>| x@);
        if f.len() != 3 || !word_is(&f[0], SIDECAR_MAGIC) {
            proof {
                if f@.len() == 3 {
                    assert(fv[0] == f@[0]@);
                }
            }
            let m = cat("'", path);
            let m = cat(m.as_str(), "' has an unsupported header");
            return Err(fail(m.as_str()));
        }
        proof {
            assert(fv[0] == f@[0]@);
            assert(fv[1] == f@[1]@);
            assert(fv[2] == f@[2]@);
        }
        let version = match parse_dec_exec(&f[1]) {
            None => {
                let m = cat("'", path);
                let m = cat(m.as_str(), "' has a bad version");
                return Err(fail(m.as_str()));
            },
            Some(x) => x,
        };
        let schema = match parse_hex_exec(&f[2]) {
            None => {
                let m = cat("'", path);
                let m = cat(m.as_str(), "' has a bad schema");
                return Err(fail(m.as_str()));
            },
            Some(x) => x,
        };
        if schema != view.fingerprint {
            let a = hex16_text(schema);
            let b = hex16_text(view.fingerprint);
            let m = cat("'", path);
            let m = cat(m.as_str(), "' belongs to schema ");
            let m = cat(m.as_str(), a.as_str());
            let m = cat(m.as_str(), ", current registry is ");
            let m = cat(m.as_str(), b.as_str());
            return Err(fail(m.as_str()));
        }
        let mut entries: Vec<(String, AliasTarget)> = Vec::new();
        proof {
            assert(fv == fields(lv[0]));
            assert(entry_texts(entries@) =~= Seq::<(Seq<char>, TargetSpec)>::empty());
            assert(entry_map(entry_texts(entries@)) =~= Map::<Seq<char>, TargetSpec>::empty());
        }
        let mut i: usize = 1;
        while i < ls.len()
            invariant
                1 <= i <= ls@.len(),
                lv == ls@.map_values(|l: Vec<char>| l@),
                lv == lines_from(text@, 0),
                fields(lv[0]).len() == 3,
                fields(lv[0])[0] == "ano-aliases-v1"@,
                parse_dec_spec(fields(lv[0])[1]) == Some(version),
                parse_hex_spec(fields(lv[0])[2]) == Some(schema),
                schema == view.fingerprint,
                entries_wf(entry_texts(entries@)),
                records_spec(lv, i as int, path@, *view, schema) == Ok::<Map<Seq<char>, TargetSpec>, Seq<char>>(entry_map(entry_texts(entries@))),
            decreases ls@.len() - i,
        {
            proof {
                assert(lv[i as int] == ls@[i as int]@);
            }
            match read_record(&ls[i], i + 1, path, view, schema, &mut entries) {
                Err(d) => {
                    proof {
                        lemma_records_err_stays(lv, i + 1, lv.len() as int, path@, *view, schema);
                    }
                    return Err(d);
                },
                Ok(()) => {},
            }
            i += 1;
        }
        let environment = AliasEnvironment { version, schema, entries };
        proof {
            lemma_sorted_entries(entry_texts(environment.entries@));
        }
        match environment.snapshot(view) {
            Err(d) => return Err(d),
            Ok(_) => {},
        }
        let again = environment.encode();
        if !same_text(again.as_str(), text) {
            let m = cat("'", path);
            let m = cat(m.as_str(), "' is not in canonical alias form");
            return Err(fail(m.as_str()));
        }
        Ok(environment)
    }
}

/* ---------- reading back what was written ---------- */

/// A field that holds no tab, newline or carriage return.
pub open spec fn plain(f: Seq<char>) -> bool {
    forall|i: int| 0 <= i < f.len() ==> #[trigger] f[i] != '\t' && f[i] != '\n' && f[i] != '\r'
}

/// The line one entry is written as (without its newline).
pub open spec fn record_line(e: (Seq<char>, TargetSpec)) -> Seq<char> {
    join_tab(record_fields(e.0, e.1))
}

proof fn lemma_join_front(fs: Seq<Seq<char>>)
    requires
        fs.len() >= 2,
    ensures
        join_tab(fs) =~= fs[0] + seq!['\t'] + join_tab(fs.skip(1)),
    decreases fs.len(),
{
    if fs.len() == 2 {
        assert(fs.drop_last().len() == 1);
        assert(join_tab(fs.drop_last()) == fs.drop_last()[0]);
        assert(fs.skip(1).len() == 1);
        assert(join_tab(fs.skip(1)) == fs.skip(1)[0]);
        assert(join_tab(fs) == join_tab(fs.drop_last()) + seq!['\t'] + fs.last());
    } else {
        lemma_join_front(fs.drop_last());
        assert(fs.drop_last().skip(1) =~= fs.skip(1).drop_last());
        assert(fs.skip(1).last() == fs.last());
        assert(join_tab(fs.skip(1)) == join_tab(fs.skip(1).drop_last()) + seq!['\t'] + fs.skip(1).last());
        assert(join_tab(fs) == join_tab(fs.drop_last()) + seq!['\t'] + fs.last());
    }
}

proof fn lemma_fields_join(fs: Seq<Seq<char>>)
    requires
        fs.len() >= 1,
        forall|i: int| 0 <= i < fs.len() ==> plain(#[trigger] fs[i]),
    ensures
        fields(join_tab(fs)) == fs,
    decreases fs.len(),
{
    reveal_strlit("\t");
    if fs.len() == 1 {
        assert(plain(fs[0]));
        assert(lacks(fs[0], '\t'));
        lemma_fields_one(fs[0]);
        assert(seq![fs[0]] =~= fs);
    } else {
        lemma_join_front(fs);
        assert(plain(fs[0]));
        assert(lacks(fs[0], '\t'));
        assert(forall|i: int| 0 <= i < fs.skip(1).len() ==> plain(#[trigger] fs.skip(1)[i])) by {
            assert forall|i: int| 0 <= i < fs.skip(1).len() implies plain(#[trigger] fs.skip(1)[i]) by {
                assert(fs.skip(1)[i] == fs[i + 1]);
            }
        }
        lemma_fields_join(fs.skip(1));
        assert("\t"@ =~= seq!['\t']);
        lemma_fields_cons(fs[0], join_tab(fs.skip(1)));
        assert(seq![fs[0]] + fs.skip(1) =~= fs);
    }
}

proof fn lemma_join_shape(fs: Seq<Seq<char>>)
    requires
        fs.len() >= 1,
        forall|i: int| 0 <= i < fs.len() ==> plain(#[trigger] fs[i]),
    ensures
        lacks(join_tab(fs), '\n'),
        fs.len() >= 2 ==> join_tab(fs).len() > 0,
        join_tab(fs).len() > 0 ==> join_tab(fs).last() != '\r',
    decreases fs.len(),
{
    if fs.len() == 1 {
        assert(plain(fs[0]));
        if fs[0].len() > 0 {
            assert(fs[0][fs[0].len() - 1] != '\r');
        }
    } else {
        let d = fs.drop_last();
        assert(forall|i: int| 0 <= i < d.len() ==> plain(#[trigger] d[i])) by {
            assert forall|i: int| 0 <= i < d.len() implies plain(#[trigger] d[i]) by {
                assert(d[i] == fs[i]);
            }
        }
        lemma_join_shape(d);
        let l = fs.last();
        assert(plain(fs[fs.len() - 1]));
        let j = join_tab(fs);
        assert(j =~= join_tab(d) + seq!['\t'] + l);
        assert forall|i: int| 0 <= i < j.len() implies #[trigger] j[i] != '\n' by {
            let a = join_tab(d).len();
            if i < a {
                assert(j[i] == join_tab(d)[i]);
            } else if i == a {
            } else {
                assert(j[i] == l[i - a - 1]);
            }
        }
        if l.len() > 0 {
            assert(j.last() == l[l.len() - 1]);
        } else {
            assert(j.last() == '\t');
        }
    }
}

proof fn lemma_records_front(es: Seq<(Seq<char>, TargetSpec)>)
    requires
        es.len() > 0,
    ensures
        records_text(es) =~= record_line(es[0]) + seq!['\n'] + records_text(es.skip(1)),
    decreases es.len(),
{
    if es.len() == 1 {
        assert(es.drop_last() =~= Seq::<(Seq<char>, TargetSpec)>::empty());
        assert(es.skip(1) =~= Seq::<(Seq<char>, TargetSpec)>::empty());
    } else {
        lemma_records_front(es.drop_last());
        assert(es.drop_last().skip(1) =~= es.skip(1).drop_last());
        assert(es.drop_last()[0] == es[0]);
        assert(es.skip(1).last() == es.last());
    }
}

/// A record line that reads back as one line.
pub open spec fn line_shaped(l: Seq<char>) -> bool {
    lacks(l, '\n') && l.len() > 0 && l.last() != '\r'
}

proof fn lemma_lines_of_records(es: Seq<(Seq<char>, TargetSpec)>)
    requires
        forall|i: int| 0 <= i < es.len() ==> line_shaped(#[trigger] record_line(es[i])),
    ensures
        lines_from(records_text(es), 0) == es.map_values(|e: (Seq<char>, TargetSpec)| record_line(e)),
    decreases es.len(),
{
    reveal_strlit("\n");
    if es.len() == 0 {
        assert(records_text(es) =~= Seq::<char>::empty());
        assert(es.map_values(|e: (Seq<char>, TargetSpec)| record_line(e)) =~= Seq::<Seq<char>>::empty());
    } else {
        lemma_records_front(es);
        assert(forall|i: int| 0 <= i < es.skip(1).len() ==> line_shaped(#[trigger] record_line(es.skip(1)[i]))) by {
            assert forall|i: int| 0 <= i < es.skip(1).len() implies line_shaped(#[trigger] record_line(es.skip(1)[i])) by {
                assert(es.skip(1)[i] == es[i + 1]);
            }
        }
        lemma_lines_of_records(es.skip(1));
        assert(line_shaped(record_line(es[0])));
        assert("\n"@ =~= seq!['\n']);
        lemma_lines_cons(record_line(es[0]), records_text(es.skip(1)));
        assert(es.map_values(|e: (Seq<char>, TargetSpec)| record_line(e)) =~= seq![record_line(es[0])]
            + es.skip(1).map_values(|e: (Seq<char>, TargetSpec)| record_line(e)));
    }
}

proof fn lemma_validate_each(v: RegistryView, es: Seq<(Seq<char>, TargetSpec)>, n: int)
    requires
        0 <= n <= es.len(),
        validate_from(v, es, n) == Ok::<(), Seq<char>>(()),
    ensures
        forall|i: int| 0 <= i < n ==> check_entry(v, (#[trigger] es[i]).0, es[i].1) == Ok::<(), Seq<char>>(()),
    decreases n,
{
    if n > 0 {
        lemma_validate_each(v, es, n - 1);
    }
}

proof fn lemma_eq_from_past(w: Seq<char>, i: int, k: int)
    requires
        0 <= i <= k <= w.len(),
        forall|j: int| i <= j < k ==> w[j] != '=',
    ensures
        eq_from(w, i) == eq_from(w, k),
    decreases k - i,
{
    if i < k {
        lemma_eq_from_past(w, i + 1, k);
    }
}

proof fn lemma_split_pair(p: (Seq<char>, Seq<char>))
    requires
        pair_ok(p),
    ensures
        split_member(pair_word(p)) == Some(p),
{
    let w = pair_word(p);
    let n = p.0.len() as int;
    assert forall|j: int| 0 <= j < n implies w[j] != '=' by {
        assert(w[j] == p.0[j]);
        if p.0[j] == '=' {
            assert(p.0.contains('='));
        }
    }
    lemma_eq_from_past(w, 0, n);
    assert(w[n] == '=');
    assert(w.subrange(0, n) =~= p.0);
    assert(w.subrange(n + 1, w.len() as int) =~= p.1);
}

proof fn lemma_refusal_none(ps: Seq<(Seq<char>, Seq<char>)>, n: int)
    requires
        0 <= n <= ps.len(),
        keys_sorted(ps),
        forall|k: int| 0 <= k < ps.len() ==> pair_ok(#[trigger] ps[k]),
    ensures
        pair_refusal(ps, n) is None,
    decreases n,
{
    if n > 0 {
        lemma_refusal_none(ps, n - 1);
        assert(pair_ok(ps[n - 1]));
        if exists|j: int| 0 <= j < n - 1 && (#[trigger] ps[j]).0 == ps[n - 1].0 {
            let j = choose|j: int| 0 <= j < n - 1 && (#[trigger] ps[j]).0 == ps[n - 1].0;
            assert(text_lt(ps[j].0, ps[n - 1].0));
            lemma_text_lt_irreflexive(ps[j].0);
        }
    }
}

proof fn lemma_bad_cell_none(ws: Seq<Seq<char>>, i: int)
    requires
        0 <= i,
        forall|k: int| 0 <= k < ws.len() ==> #[trigger] cell_of_word(ws[k]) is Some,
    ensures
        bad_cell_from(ws, i) is None,
    decreases ws.len() - i,
{
    if i < ws.len() {
        lemma_bad_cell_none(ws, i + 1);
    }
}

proof fn lemma_resolver_named_id(x: Seq<char>)
    ensures
        resolver_named(x) matches Some(r) ==> x == resolver_id(r),
{
}

proof fn lemma_literal_plain()
    ensures
        plain("bind"@),
        plain("mask"@),
        plain("rslv"@),
        plain("ano-aliases-v1"@),
        "mask"@ != "bind"@,
        "rslv"@ != "bind"@,
        "rslv"@ != "mask"@,
        forall|c: AliasCarrier| plain(#[trigger] carrier_word(c)),
{
    reveal_strlit("bind");
    reveal_strlit("mask");
    reveal_strlit("rslv");
    reveal_strlit("ano-aliases-v1");
    reveal_strlit("number");
    reveal_strlit("entity");
    reveal_strlit("point");
    reveal_strlit("vector");
    reveal_strlit("symbol");
    assert("mask"@[0] != "bind"@[0]);
    assert("rslv"@[0] != "bind"@[0]);
    assert("rslv"@[0] != "mask"@[0]);
    assert forall|c: AliasCarrier| plain(#[trigger] carrier_word(c)) by {
        match c {
            AliasCarrier::Mask => {},
            AliasCarrier::Number => {},
            AliasCarrier::Entity => {},
            AliasCarrier::Point => {},
            AliasCarrier::Vector => {},
            AliasCarrier::Symbol => {},
        }
    }
}

proof fn lemma_dec_plain(n: nat)
    ensures
        plain(dec_spelling(n)),
{
    crate::text::lemma_dec_spelling_shape(n);
    let d = dec_spelling(n);
    assert forall|i: int| 0 <= i < d.len() implies #[trigger] d[i] != '\t' && d[i] != '\n' && d[i] != '\r' by {
        assert('0' <= d[i] && d[i] <= '9');
    }
}

proof fn lemma_hex_plain(x: u64)
    ensures
        plain(hex16(x)),
{
    lemma_hex16_shape(x);
}

proof fn lemma_key_plain(k: Seq<char>)
    requires
        token_shaped(k),
    ensures
        plain(k),
{
    assert forall|i: int| 0 <= i < k.len() implies #[trigger] k[i] != '\t' && k[i] != '\n' && k[i] != '\r' by {
        assert(!crate::alias::line_breaking(k[i]));
    }
}

/// Whether an entry can be written and read back in a registry: a binding target must be a
/// single-line token spelled exactly as the registry spells the declaration it names; a
/// resolver target's service stamp must have a nonzero version and declaration id.
pub open spec fn writable(e: (Seq<char>, TargetSpec), v: RegistryView) -> bool {
    match e.1 {
        TargetSpec::Binding { binding, .. } => token_shaped(binding) && match find_entry(v, binding) {
            Some(j) => v.entries@[j].name@ == binding,
            None => false,
        },
        TargetSpec::Resolver { service, declaration, .. } => service != 0 && match declaration {
            Some(d) => d.0 != 0,
            None => true,
        },
        _ => true,
    }
}

/// Whether every declaration of a registry could stand in a sidecar: each name a single-line
/// token, each service stamped with a nonzero version and a nonzero declaration id.
pub open spec fn view_writable(v: RegistryView) -> bool {
    forall|i: int|
        0 <= i < v.entries@.len() ==> {
            &&& token_shaped((#[trigger] v.entries@[i]).name@)
            &&& (v.entries@[i].role matches EntryRole::Service { declaration, version, .. }
                ==> version != 0 && declaration.0 != 0)
        }
}

/// Whether every entry of an environment can be written and read back in a registry.
pub open spec fn all_writable(es: Seq<(Seq<char>, TargetSpec)>, v: RegistryView) -> bool {
    forall|i: int| 0 <= i < es.len() ==> writable(#[trigger] es[i], v)
}

proof fn lemma_find_first(es: Seq<ViewEntry>, w: Seq<char>, i0: int, i: int)
    requires
        0 <= i0 <= i < es.len(),
        names_eq_spec(es[i].name@, w),
        forall|j: int| i0 <= j < i ==> !names_eq_spec((#[trigger] es[j]).name@, w),
    ensures
        find_from(es, w, i0) == Some(i),
    decreases i - i0,
{
    if i0 < i {
        lemma_find_first(es, w, i0 + 1, i);
    }
}

proof fn lemma_find_none_before(es: Seq<ViewEntry>, w: Seq<char>, i0: int, j: int)
    requires
        0 <= i0 <= j,
        find_from(es, w, i0) matches Some(i) && j < i,
    ensures
        !names_eq_spec(es[j].name@, w),
    decreases j - i0,
{
    if i0 < j {
        lemma_find_none_before(es, w, i0 + 1, j);
    }
}

/// In a writable registry, the target a binding word installs is writable.
proof fn lemma_binding_target_writable(v: RegistryView, b: Seq<char>, s: u64, key: Seq<char>)
    requires
        view_writable(v),
        binding_target_spec(v, b, s) is Ok,
    ensures
        writable((key, binding_target_spec(v, b, s)->Ok_0), v),
{
    let es = v.entries@;
    let i = find_entry(v, b)->Some_0;
    lemma_find_range(es, b, 0);
    let n = es[i].name@;
    assert(token_shaped(n));
    lemma_names_eq_equivalence(n, n, n);
    assert forall|j: int| 0 <= j < i implies !names_eq_spec((#[trigger] es[j]).name@, n) by {
        lemma_find_none_before(es, b, 0, j);
        lemma_names_eq_equivalence(es[j].name@, n, b);
    }
    lemma_find_first(es, n, 0, i);
}

/// In a writable registry, the stamp a resolver's contract gives is nonzero, and so is the
/// declaration id it names, if any.
proof fn lemma_contract_writable(v: RegistryView, r: ResolverSpec)
    requires
        view_writable(v),
        r.service != 0,
        contract_spec(v, r) is Ok,
    ensures
        contract_spec(v, r)->Ok_0.1 != 0,
        contract_spec(v, r)->Ok_0.0 matches Some(d) ==> d.0 != 0,
{
    let id = resolver_id(r.resolver);
    if let Some(i) = find_entry(v, id) {
        lemma_find_range(v.entries@, id, 0);
        assert(view_writable(v) ==> (v.entries@[i].role matches EntryRole::Service { declaration, version, .. }
            ==> version != 0 && declaration.0 != 0));
    }
}

proof fn lemma_unique_keys(es: Seq<(Seq<char>, TargetSpec)>, i: int)
    requires
        entries_wf(es),
        0 <= i < es.len(),
    ensures
        forall|j: int| 0 <= j < es.len() && j != i ==> (#[trigger] es[j]).0 != es[i].0,
{
    assert forall|j: int| 0 <= j < es.len() && j != i implies (#[trigger] es[j]).0 != es[i].0 by {
        lemma_text_lt_irreflexive(es[i].0);
    }
}

/// An environment whose key map is another's with one key set to a writable target, or one
/// key removed, keeps every entry writable.
proof fn lemma_step_writable(
    old: Seq<(Seq<char>, TargetSpec)>,
    new: Seq<(Seq<char>, TargetSpec)>,
    v: RegistryView,
    key: Seq<char>,
    t: Option<TargetSpec>,
)
    requires
        entries_wf(old),
        entries_wf(new),
        all_writable(old, v),
        match t {
            Some(t) => entry_map(new) == entry_map(old).insert(key, t) && writable((key, t), v),
            None => entry_map(new) == entry_map(old).remove(key),
        },
    ensures
        all_writable(new, v),
{
    assert forall|i: int| 0 <= i < new.len() implies writable(#[trigger] new[i], v) by {
        lemma_unique_keys(new, i);
        lemma_entry_map_at(new, i);
        let k = new[i].0;
        if t is Some && k == key {
            assert(new[i].1 == t->Some_0);
        } else {
            assert(entry_map(old).dom().contains(k));
            lemma_entry_map_dom(old, k);
            let j = choose|j: int| 0 <= j < old.len() && (#[trigger] old[j]).0 == k;
            lemma_unique_keys(old, j);
            lemma_entry_map_at(old, j);
            assert(writable(old[j], v));
            assert(new[i].1 == old[j].1);
        }
    }
}

proof fn lemma_resolver_id_plain(r: Resolver)
    ensures
        plain(resolver_id(r)),
{
    reveal_strlit("input.entity");
    reveal_strlit("input.mask");
    reveal_strlit("deictic.cursor");
    reveal_strlit("deictic.observer");
    reveal_strlit("deictic.selected");
    reveal_strlit("deictic.world");
    match r {
        Resolver::InputEntity => {},
        Resolver::InputMask => {},
        Resolver::DeicticCursor => {},
        Resolver::DeicticObserver => {},
        Resolver::DeicticSelected => {},
        Resolver::DeicticWorld => {},
    }
}

proof fn lemma_record_fields_plain(e: (Seq<char>, TargetSpec), v: RegistryView)
    requires
        canonical_key(e.0),
        target_wf(e.1),
        writable(e, v),
        check_entry(v, e.0, e.1) == Ok::<(), Seq<char>>(()),
    ensures
        forall|i: int| 0 <= i < record_fields(e.0, e.1).len() ==> plain(#[trigger] record_fields(e.0, e.1)[i]),
        record_fields(e.0, e.1).len() >= 4,
{
    lemma_literal_plain();
    lemma_key_plain(e.0);
    let fs = record_fields(e.0, e.1);
    match e.1 {
        TargetSpec::Binding { binding, carrier, schema } => {
            lemma_key_plain(binding);
            lemma_hex_plain(schema);
            assert(plain(carrier_word(carrier)));
            assert forall|i: int| 0 <= i < fs.len() implies plain(#[trigger] fs[i]) by {
                if i == 0 {
                } else if i == 1 {
                } else if i == 2 {
                } else if i == 3 {
                } else {
                }
            }
        },
        TargetSpec::Mask { values, rows, schema } => {
            lemma_dec_plain(rows);
            lemma_hex_plain(schema);
            assert forall|i: int| 0 <= i < fs.len() implies plain(#[trigger] fs[i]) by {
                if i >= 4 {
                    let c = values[i - 4];
                    assert(fs[i] == cell_word(c));
                }
            }
        },
        TargetSpec::Resolver { resolver, carrier, service, declaration, schema, input_version, input } => {
            lemma_hex_plain(schema);
            lemma_dec_plain(input_version as nat);
            assert(plain(carrier_word(carrier)));
            assert(resolver_named(resolver) is Some);
            assert forall|i: int| 0 <= i < fs.len() implies plain(#[trigger] fs[i]) by {
                if i == 2 {
                    lemma_resolver_named_id(resolver);
                    let r = resolver_named(resolver)->Some_0;
                    lemma_resolver_id_plain(r);
                } else if i == 4 {
                    let st = stamp_word_spec(declaration, service);
                    lemma_dec_plain(service as nat);
                    match declaration {
                        Some(d) => {
                            lemma_hex_plain(d.0);
                            let h = hex16(d.0);
                            let dv = dec_spelling(service as nat);
                            assert forall|j: int| 0 <= j < st.len() implies #[trigger] st[j] != '\t' && st[j] != '\n' && st[j] != '\r' by {
                                if j < h.len() {
                                    assert(st[j] == h[j]);
                                } else if j == h.len() {
                                } else {
                                    assert(st[j] == dv[j - h.len() - 1]);
                                }
                            }
                        },
                        None => {},
                    }
                } else if i >= 7 {
                    let p = input[i - 7];
                    assert(pair_ok(p));
                    lemma_key_plain(p.0);
                    lemma_key_plain(p.1);
                    let w = pair_word(p);
                    assert(fs[i] == w);
                    assert forall|j: int| 0 <= j < w.len() implies #[trigger] w[j] != '\t' && w[j] != '\n' && w[j] != '\r' by {
                        if j < p.0.len() {
                            assert(w[j] == p.0[j]);
                        } else if j == p.0.len() {
                        } else {
                            assert(w[j] == p.1[j - p.0.len() - 1]);
                        }
                    }
                }
            }
        },
    }
}

proof fn lemma_record_back(e: (Seq<char>, TargetSpec), line: nat, path: Seq<char>, v: RegistryView)
    requires
        canonical_key(e.0),
        target_wf(e.1),
        writable(e, v),
        check_entry(v, e.0, e.1) == Ok::<(), Seq<char>>(()),
    ensures
        record_spec(fields(record_line(e)), line, path, v, v.fingerprint) == Ok::<(Seq<char>, TargetSpec), Seq<char>>(e),
{
    let sch = v.fingerprint;
    lemma_record_fields_plain(e, v);
    lemma_literal_plain();
    let fs = record_fields(e.0, e.1);
    lemma_fields_join(fs);
    assert(fields(record_line(e)) == fs);
    assert(fold_spec(e.0) == e.0);
    match e.1 {
        TargetSpec::Binding { binding, carrier, schema } => {
            lemma_carrier_named(carrier);
            lemma_parse_hex16(schema);
            assert(schema == sch);
            let j = find_entry(v, binding)->Some_0;
            assert(binding_check(v, e.0, binding, carrier) is Ok);
            assert(carrier_at(v, j) == Ok::<AliasCarrier, Seq<char>>(carrier));
            assert(binding_target_spec(v, binding, sch) == Ok::<TargetSpec, Seq<char>>(e.1));
        },
        TargetSpec::Mask { values, rows, schema } => {
            assert(schema == sch && rows == v.rows && values.len() == rows);
            lemma_parse_dec(rows as u64);
            assert(parse_row_spec(fs[2]) == Some(rows));
            lemma_parse_hex16(schema);
            let ws = fs.skip(4);
            assert(ws =~= values.map_values(|c: MaskCell| cell_word(c)));
            assert forall|k: int| 0 <= k < ws.len() implies #[trigger] cell_of_word(ws[k]) == Some(values[k]) by {
                lemma_cell_word_roundtrip(values[k]);
            }
            lemma_bad_cell_none(ws, 0);
            assert(cells_of(ws) =~= values);
        },
        TargetSpec::Resolver { resolver, carrier, service, declaration, schema, input_version, input } => {
            assert(schema == sch);
            lemma_resolver_named_id(resolver);
            let r = resolver_named(resolver)->Some_0;
            let c = contract_spec(v, registration(r))->Ok_0;
            assert(c.2 == carrier);
            lemma_carrier_named(carrier);
            lemma_stamp_roundtrip(declaration, service);
            lemma_parse_hex16(schema);
            lemma_parse_dec(input_version);
            let ms = fs.skip(7);
            assert(ms =~= input.map_values(|p: (Seq<char>, Seq<char>)| pair_word(p)));
            assert forall|k: int| 0 <= k < ms.len() implies #[trigger] split_member(ms[k]) == Some(input[k]) by {
                assert(pair_ok(input[k]));
                lemma_split_pair(input[k]);
            }
            assert(member_pairs(ms) == Some(input)) by {
                assert(forall|k: int| 0 <= k < ms.len() ==> #[trigger] split_member(ms[k]) is Some);
                assert(Seq::new(ms.len(), |k: int| split_member(ms[k])->Some_0) =~= input);
            }
            lemma_refusal_none(input, input.len() as int);
            assert(same_pairs(input, input)) by {
                assert forall|k: int| 0 <= k < input.len() implies input.contains(#[trigger] input[k]) by {
                }
            }
            lemma_sorted_pairs(input, input);
        },
    }
}

proof fn lemma_records_read_back(es: Seq<(Seq<char>, TargetSpec)>, ls: Seq<Seq<char>>, k: int, path: Seq<char>, v: RegistryView)
    requires
        entries_wf(es),
        forall|i: int| 0 <= i < es.len() ==> writable(#[trigger] es[i], v),
        forall|i: int| 0 <= i < es.len() ==> check_entry(v, (#[trigger] es[i]).0, es[i].1) == Ok::<(), Seq<char>>(()),
        ls.len() == es.len() + 1,
        forall|j: int| 0 <= j < es.len() ==> #[trigger] ls[j + 1] == record_line(es[j]),
        forall|j: int| 0 <= j < es.len() ==> line_shaped(#[trigger] record_line(es[j])),
        0 <= k <= es.len(),
    ensures
        records_spec(ls, k + 1, path, v, v.fingerprint) == Ok::<Map<Seq<char>, TargetSpec>, Seq<char>>(entry_map(es.take(k))),
    decreases k,
{
    if k == 0 {
        assert(es.take(0) =~= Seq::<(Seq<char>, TargetSpec)>::empty());
    } else {
        lemma_records_read_back(es, ls, k - 1, path, v);
        let e = es[k - 1];
        assert(ls[k] == record_line(e));
        assert(line_shaped(record_line(e)));
        lemma_entry_wf_at(es, k - 1);
        assert(writable(es[k - 1], v));
        assert(check_entry(v, es[k - 1].0, es[k - 1].1) == Ok::<(), Seq<char>>(()));
        lemma_record_back(e, k as nat, path, v);
        assert(es.take(k).drop_last() =~= es.take(k - 1));
        assert(es.take(k).last() == e);
    }
}

/// Writing an environment's sidecar and reading the text back in the same registry gives
/// the same environment, whatever the path: when the environment snapshots in the registry
/// under the registry's own schema, every binding target is a single-line token spelled as
/// the registry spells the declaration it names, and every resolver target's service stamp
/// is nonzero. The last two hold of every environment built from `for_registry` by installs
/// and removals in a registry for which `view_writable` holds (see their contracts).
pub proof fn lemma_sidecar_roundtrip(env: AliasEnvironment, path: Seq<char>, v: RegistryView)
    requires
        env.wf(),
        env@.schema == v.fingerprint,
        snapshot_spec(env@, v) is Ok,
        forall|i: int| 0 <= i < env@.entries.len() ==> writable(#[trigger] env@.entries[i], v),
    ensures
        load_spec(encode_spec(env@), path, v) == Ok::<EnvSpec, Seq<char>>(env@),
{
    reveal_strlit("\n");
    reveal_strlit("ano-aliases-v1");
    let e = env@;
    let es = e.entries;
    assert(entries_wf(es));
    let sch = v.fingerprint;
    let hf = header_fields(e.version, e.schema);
    let h = join_tab(hf);
    let r = records_text(es);
    let text = encode_spec(e);
    lemma_literal_plain();
    lemma_dec_plain(e.version as nat);
    lemma_hex_plain(e.schema);
    assert forall|i: int| 0 <= i < hf.len() implies plain(#[trigger] hf[i]) by {
    }
    lemma_join_shape(hf);
    lemma_fields_join(hf);
    assert(text =~= h + "\n"@ + r);
    lemma_lines_cons(h, r);
    // every entry checks in the registry
    assert(schema_check(e.schema, v) == Ok::<u64, Seq<char>>(sch));
    let sn = EnvSpec { version: e.version, schema: sch, entries: es };
    assert(sn == e);
    assert(validate_spec(e, v) == Ok::<(), Seq<char>>(()));
    lemma_validate_each(v, es, es.len() as int);
    assert forall|j: int| 0 <= j < es.len() implies line_shaped(#[trigger] record_line(es[j])) by {
        lemma_entry_wf_at(es, j);
        assert(writable(es[j], v));
        assert(check_entry(v, es[j].0, es[j].1) == Ok::<(), Seq<char>>(()));
        lemma_record_fields_plain(es[j], v);
        lemma_join_shape(record_fields(es[j].0, es[j].1));
    }
    lemma_lines_of_records(es);
    let ls = lines_from(text, 0);
    let rl = es.map_values(|x: (Seq<char>, TargetSpec)| record_line(x));
    assert(ls == seq![h] + rl);
    assert(ls[0] == h);
    assert forall|j: int| 0 <= j < es.len() implies #[trigger] ls[j + 1] == record_line(es[j]) by {
        assert(ls[j + 1] == rl[j]);
    }
    assert(fields(ls[0]) == hf);
    lemma_parse_dec(e.version);
    lemma_parse_hex16(e.schema);
    lemma_records_read_back(es, ls, es.len() as int, path, v);
    assert(es.take(es.len() as int) =~= es);
    lemma_sorted_entries(es);
    assert(sorted_entries(entry_map(es)) == es);
}

/// What reading a sidecar file found: no file, a read that failed (with the system's
/// description of the failure), bytes that are not UTF-8, or the text.
#[derive(Debug, Clone)]
pub enum SidecarRead {
    Absent,
    Unreadable(String),
    NotUtf8,
    Text(String),
}

/// The version field of a sidecar's header, when the text has a first line with a second
/// tab-separated field that is a decimal 64-bit number.
pub open spec fn header_version_spec(t: Seq<char>) -> Option<u64> {
    let ls = lines_from(t, 0);
    if ls.len() == 0 {
        None
    } else {
        let f = fields(ls[0]);
        if f.len() < 2 {
            None
        } else {
            parse_dec_spec(f[1])
        }
    }
}

/// What loading a sidecar gives: the empty environment for the registry when there is no
/// file; a refusal for a failed read or bytes that are not UTF-8; else what the text gives
/// (see `load_spec`).
pub open spec fn load_read_spec(read: SidecarRead, path: Seq<char>, v: RegistryView) -> Result<EnvSpec, Seq<char>> {
    match read {
        SidecarRead::Absent => Ok(EnvSpec { version: 0, schema: v.fingerprint, entries: Seq::empty() }),
        SidecarRead::Unreadable(e) => Err(alias_fail_text("cannot read '"@ + path + "': "@ + e@)),
        SidecarRead::NotUtf8 => Err(alias_fail_text("'"@ + path + "' is not a UTF-8 alias sidecar"@)),
        SidecarRead::Text(t) => load_spec(t@, path, v),
    }
}

/// The version field of what reading a sidecar found; `None` for a file that could not be
/// read as text.
pub open spec fn read_header(read: SidecarRead) -> Option<u64> {
    match read {
        SidecarRead::Text(t) => header_version_spec(t@),
        _ => None,
    }
}

/// The version field of a sidecar (see `read_header`).
pub fn header_version(read: &SidecarRead) -> (r: Option<u64>)
    ensures
        r == read_header(*read),
{
    match read {
        SidecarRead::Text(t) => {
            let v = chars_of(t.as_str());
            let ls = lines_exec(&v);
            let ghost lv = ls@.map_values(|l: Vec<char>| l@);
            if ls.len() == 0 {
                return None;
            }
            proof {
                assert(lv[0] == ls@[0]@);
            }
            let f = fields_exec(&ls[0]);
            if f.len() < 2 {
                return None;
            }
            proof {
                assert(f@.map_values(|x: Vec<char>| x@)[1] == f@[1]@);
            }
            parse_dec_exec(&f[1])
        },
        _ => None,
    }
}

impl AliasEnvironment {
    /// Loads the environment from what reading its sidecar found (see `load_read_spec`).
    pub fn load(read: &SidecarRead, path: &str, view: &RegistryView) -> (r: Result<AliasEnvironment, Diag>)
        ensures
            match r {
                Ok(e) => load_read_spec(*read, path@, *view) == Ok::<EnvSpec, Seq<char>>(e@) && e.wf(),
                Err(d) => load_read_spec(*read, path@, *view) == Err::<EnvSpec, Seq<char>>(d.msg@) && d.code == 2,
            },
    {
        match read {
            SidecarRead::Absent => {
                let e = AliasEnvironment::for_registry(view);
                proof {
                    assert(e@.entries =~= Seq::<(Seq<char>, TargetSpec)>::empty());
                }
                Ok(e)
            },
            SidecarRead::Unreadable(error) => {
                let m = cat("cannot read '", path);
                let m = cat(m.as_str(), "': ");
                let m = cat(m.as_str(), error.as_str());
                Err(fail(m.as_str()))
            },
            SidecarRead::NotUtf8 => {
                let m = cat("'", path);
                let m = cat(m.as_str(), "' is not a UTF-8 alias sidecar");
                Err(fail(m.as_str()))
            },
            SidecarRead::Text(t) => AliasEnvironment::load_text(t.as_str(), path, view),
        }
    }

    /// The operator's recovery for a sidecar the registry can no longer load: the loaded
    /// environment and no note when it loads; else a fresh empty environment for the
    /// registry at the old header's version plus one (1 when that field is unreadable), and
    /// the refusal's message as the note, so the version keeps moving forward across the
    /// reset.
    pub fn load_or_recover(read: &SidecarRead, path: &str, view: &RegistryView) -> (r: (AliasEnvironment, Option<String>))
        ensures
            r.0.wf(),
            match load_read_spec(*read, path@, *view) {
                Ok(e) => r.0@ == e && r.1 is None,
                Err(m) => r.1 matches Some(n) && n@ == m && r.0@.schema == view.fingerprint
                    && r.0@.entries.len() == 0 && r.0@.version == next_version(match read_header(*read) {
                        Some(x) => x,
                        None => 0,
                    }),
            },
    {
        match AliasEnvironment::load(read, path, view) {
            Ok(e) => (e, None),
            Err(d) => {
                let mut fresh = AliasEnvironment::for_registry(view);
                let old = match header_version(read) {
                    Some(x) => x,
                    None => 0,
                };
                fresh.version = old.wrapping_add(1);
                (fresh, Some(d.msg))
            },
        }
    }
}

} // verus!
