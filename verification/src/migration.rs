//! Barrier-level registry migration for the pre-spatial schema: the schema manifest that
//! carries stable declaration identities across generations, the host migration-map
//! language, and the receipts that move declaration handles forward.
use vstd::prelude::*;
use vstd::string::StringSliceAdditionalSpecFns;
use vstd::utf8::encode_utf8;
use crate::{ColType, Diag};
use crate::alias::{
    FNV_OFFSET, fnv, le_bytes, le_bytes_of, hash_bytes, names_eq, names_eq_spec, path_of, path_text,
    lemma_fnv_concat, lemma_names_eq_equivalence,
};
use crate::text::{cat, hex16, hex16_text, dec_spelling, u64_text, chars_of, string_of};
use crate::overlay::{RegistryView, find, find_entry, AliasEnvironment, TargetSpec, entry_texts};
use crate::alias::{fold_spec, canonical_name, same_text};

verus! {

/// The first word of a manifest.
pub const MANIFEST_MAGIC: &'static str = "ano-schema-v1";

/// The text of a migration refusal: "migration: <message>".
pub open spec fn migration_fail_text(msg: Seq<char>) -> Seq<char> {
    "migration: "@ + msg
}

/// A migration refusal.
pub fn fail(message: &str) -> (d: Diag)
    ensures
        d.msg@ == migration_fail_text(message@),
        d.code == 2,
{
    Diag::refuse(cat("migration: ", message))
}

/* ---------- identities ---------- */

/// A stable declaration identity, carried across schema generations.
#[derive(Debug, Clone, Copy, PartialEq, Eq, Structural, PartialOrd, Ord)]
pub struct DeclarationId(pub u64);

/// A schema generation: the registry's structural fingerprint and the manifest version.
#[derive(Debug, Clone, Copy, PartialEq, Eq, Structural)]
pub struct SchemaIdentity {
    pub fingerprint: u64,
    pub version: u64,
}

/// The manifest beside a registry: its generation and one identity per declaration, in
/// registry order.
#[derive(Debug, Clone, PartialEq, Eq)]
pub struct SchemaManifest {
    pub fingerprint: u64,
    pub version: u64,
    pub declarations: Vec<(DeclarationId, String)>,
}

/// The manifest's path: the registry path with ".schema" appended.
pub fn manifest_path(registry_path: &str) -> (p: std::path::PathBuf)
    ensures
        path_text(p) == registry_path@ + ".schema"@,
{
    path_of(cat(registry_path, ".schema"))
}

/// The identity a declaration named `name` at position `index` is minted with, on the
/// given attempt: FNV-1a over the fingerprint, version, index and attempt as little-endian
/// words and then the name's bytes, with 0 moved to 1.
pub open spec fn mint_candidate(
    fingerprint: u64,
    version: u64,
    index: u64,
    name: Seq<u8>,
    nonce: u64,
) -> u64 {
    let h = fnv(
        fnv(fnv(fnv(fnv(FNV_OFFSET, le_bytes(fingerprint)), le_bytes(version)), le_bytes(index)), le_bytes(nonce)),
        name,
    );
    if h == 0 {
        1
    } else {
        h
    }
}

fn contains_id(used: &Vec<DeclarationId>, id: DeclarationId) -> (r: bool)
    ensures
        r == used@.contains(id),
{
    let mut k: usize = 0;
    while k < used.len()
        invariant
            0 <= k <= used@.len(),
            forall|j: int| 0 <= j < k ==> used@[j] != id,
        decreases used@.len() - k,
    {
        if used[k] == id {
            return true;
        }
        k += 1;
    }
    false
}

/// Mints a fresh identity for a declaration: the candidate of the first attempt that is not
/// already in `used`, which it joins; `None`, with `used` unchanged, when every one of the
/// 2^64 attempts is taken.
///
/// The identities in use are a vector searched from the front rather than an ordered set:
/// `DeclarationId`'s order is derived, and Verus does not read a derived `Ord`, so a set
/// ordered by it would prove nothing about membership.
pub fn mint_id(
    fingerprint: u64,
    version: u64,
    index: usize,
    name: &str,
    used: &mut Vec<DeclarationId>,
) -> (r: Option<DeclarationId>)
    ensures
        match r {
            Some(id) => {
                &&& !old(used)@.contains(id)
                &&& final(used)@ == old(used)@.push(id)
                &&& exists|nonce: u64|
                    {
                        &&& id.0 == #[trigger] mint_candidate(fingerprint, version, index as u64, name.spec_bytes(), nonce)
                        &&& forall|m: u64|
                            m < nonce ==> old(used)@.contains(
                                DeclarationId(
                                    #[trigger] mint_candidate(fingerprint, version, index as u64, name.spec_bytes(), m),
                                ),
                            )
                    }
            },
            None => {
                &&& final(used)@ == old(used)@
                &&& forall|m: u64|
                    old(used)@.contains(
                        DeclarationId(
                            #[trigger] mint_candidate(fingerprint, version, index as u64, name.spec_bytes(), m),
                        ),
                    )
            },
        },
{
    let ghost nb = name.spec_bytes();
    let fp = le_bytes_of(fingerprint);
    let ver = le_bytes_of(version);
    let idx = le_bytes_of(index as u64);
    let h0 = hash_bytes(FNV_OFFSET, fp.as_slice());
    let h1 = hash_bytes(h0, ver.as_slice());
    let h2 = hash_bytes(h1, idx.as_slice());
    let mut nonce: u64 = 0;
    loop
        invariant
            h2 == fnv(fnv(fnv(FNV_OFFSET, le_bytes(fingerprint)), le_bytes(version)), le_bytes(index as u64)),
            nb == name.spec_bytes(),
            *used == *old(used),
            forall|m: u64|
                m < nonce ==> old(used)@.contains(
                    DeclarationId(#[trigger] mint_candidate(fingerprint, version, index as u64, nb, m)),
                ),
        decreases u64::MAX - nonce,
    {
        let nb_bytes = le_bytes_of(nonce);
        let h3 = hash_bytes(h2, nb_bytes.as_slice());
        let h = hash_bytes(h3, name.as_bytes());
        let id = DeclarationId(
            if h == 0 {
                1
            } else {
                h
            },
        );
        if !contains_id(used, id) {
            proof {
                lemma_fnv_concat(h3, Seq::empty(), nb);
                assert(id.0 == mint_candidate(fingerprint, version, index as u64, nb, nonce));
            }
            used.push(id);
            return Some(id);
        }
        if nonce == u64::MAX {
            proof {
                assert forall|m: u64| old(used)@.contains(
                    DeclarationId(#[trigger] mint_candidate(fingerprint, version, index as u64, nb, m)),
                ) by {
                    if m < nonce {
                    } else {
                        assert(m == nonce);
                    }
                }
            }
            return None;
        }
        nonce = nonce + 1;
    }
}

/// Whether `id` is what minting gives the declaration `name` at position `index` of a
/// first manifest, after the identities `earlier`: the candidate of the first attempt that
/// `earlier` does not hold.
pub open spec fn first_fresh(
    fingerprint: u64,
    index: int,
    name: Seq<char>,
    earlier: Seq<DeclarationId>,
    id: DeclarationId,
) -> bool {
    &&& !earlier.contains(id)
    &&& exists|nonce: u64|
        {
            &&& id.0 == #[trigger] mint_candidate(fingerprint, 0, index as u64, encode_utf8(name), nonce)
            &&& forall|m: u64|
                m < nonce ==> earlier.contains(
                    DeclarationId(#[trigger] mint_candidate(fingerprint, 0, index as u64, encode_utf8(name), m)),
                )
        }
}

/// Whether every attempt at minting the declaration `name` at position `index` gives an
/// identity that `earlier` already holds.
pub open spec fn mint_exhausted(fingerprint: u64, index: int, name: Seq<char>, earlier: Seq<DeclarationId>) -> bool {
    forall|m: u64|
        earlier.contains(DeclarationId(#[trigger] mint_candidate(fingerprint, 0, index as u64, encode_utf8(name), m)))
}

/// Whether `ids` are the identities minted, in order, for the first `ids.len()` names.
#[verifier::opaque]
pub open spec fn minted_in_order(fingerprint: u64, names: Seq<String>, ids: Seq<DeclarationId>) -> bool {
    &&& ids.len() <= names.len()
    &&& forall|k: int| 0 <= k < ids.len() ==> first_fresh(fingerprint, k, names[k]@, ids.take(k), #[trigger] ids[k])
}

proof fn lemma_fresh_from_mint(
    fingerprint: u64,
    index: int,
    name: Seq<char>,
    bytes: Seq<u8>,
    earlier: Seq<DeclarationId>,
    id: DeclarationId,
)
    requires
        bytes == encode_utf8(name),
        0 <= index <= u64::MAX,
        !earlier.contains(id),
        exists|nonce: u64|
            {
                &&& id.0 == #[trigger] mint_candidate(fingerprint, 0, index as u64, bytes, nonce)
                &&& forall|m: u64|
                    m < nonce ==> earlier.contains(
                        DeclarationId(#[trigger] mint_candidate(fingerprint, 0, index as u64, bytes, m)),
                    )
            },
    ensures
        first_fresh(fingerprint, index, name, earlier, id),
{
}

proof fn lemma_exhausted_from_mint(
    fingerprint: u64,
    index: int,
    name: Seq<char>,
    bytes: Seq<u8>,
    earlier: Seq<DeclarationId>,
)
    requires
        bytes == encode_utf8(name),
        forall|m: u64|
            earlier.contains(DeclarationId(#[trigger] mint_candidate(fingerprint, 0, index as u64, bytes, m))),
    ensures
        mint_exhausted(fingerprint, index, name, earlier),
{
}

proof fn lemma_minted_nonzero(fingerprint: u64, names: Seq<String>, ids: Seq<DeclarationId>)
    requires
        minted_in_order(fingerprint, names, ids),
    ensures
        forall|k: int| 0 <= k < ids.len() ==> (#[trigger] ids[k]).0 != 0,
{
    reveal(minted_in_order);
    assert forall|k: int| 0 <= k < ids.len() implies (#[trigger] ids[k]).0 != 0 by {
        assert(first_fresh(fingerprint, k, names[k]@, ids.take(k), ids[k]));
        let nonce = choose|nonce: u64| ids[k].0 == #[trigger] mint_candidate(fingerprint, 0, k as u64, encode_utf8(names[k]@), nonce) && forall|m: u64|
            m < nonce ==> ids.take(k).contains(
                DeclarationId(#[trigger] mint_candidate(fingerprint, 0, k as u64, encode_utf8(names[k]@), m)),
            );
        assert(mint_candidate(fingerprint, 0, k as u64, encode_utf8(names[k]@), nonce) != 0);
    }
}

proof fn lemma_minted_push(fingerprint: u64, names: Seq<String>, earlier: Seq<DeclarationId>, id: DeclarationId)
    requires
        minted_in_order(fingerprint, names, earlier),
        earlier.len() < names.len(),
        first_fresh(fingerprint, earlier.len() as int, names[earlier.len() as int]@, earlier, id),
    ensures
        minted_in_order(fingerprint, names, earlier.push(id)),
{
    reveal(minted_in_order);
    let ids = earlier.push(id);
    assert forall|j: int| 0 <= j < ids.len() implies first_fresh(fingerprint, j, names[j]@, ids.take(j), #[trigger] ids[j]) by {
        if j < earlier.len() {
            assert(ids.take(j) =~= earlier.take(j));
            assert(ids[j] == earlier[j]);
        } else {
            assert(ids.take(j) =~= earlier);
        }
    }
}

impl SchemaManifest {
    /// The declarations' identities, in order.
    pub open spec fn decl_ids(&self) -> Seq<DeclarationId> {
        self.declarations@.map_values(|p: (DeclarationId, String)| p.0)
    }

    /// The declarations as identity and name pairs.
    pub open spec fn decls(&self) -> Seq<(DeclarationId, Seq<char>)> {
        self.declarations@.map_values(|p: (DeclarationId, String)| (p.0, p.1@))
    }

    /// A registry's first manifest, from its fingerprint and its declaration names in order:
    /// version 0, and identities minted at version 0 for each position in turn, each the
    /// first attempt's candidate that is fresh among those before it; `None` exactly when,
    /// at some position, every attempt gives an identity already taken.
    pub fn for_registry(fingerprint: u64, names: &Vec<String>) -> (r: Option<SchemaManifest>)
        ensures
            r matches Some(m) ==> {
                &&& m.fingerprint == fingerprint
                &&& m.version == 0
                &&& m.decls().len() == names@.len()
                &&& forall|k: int| 0 <= k < names@.len() ==> (#[trigger] m.decls()[k]).1 == names@[k]@
                &&& forall|a: int, b: int|
                    0 <= a < b < names@.len() ==> (#[trigger] m.decls()[a]).0 != (#[trigger] m.decls()[b]).0
                &&& minted_in_order(fingerprint, names@, m.decl_ids())
                &&& forall|k: int| 0 <= k < names@.len() ==> (#[trigger] m.decls()[k]).0.0 != 0
                &&& m.valid_for_names(fingerprint, names@.map_values(|n: String| n@))
            },
            r is None ==> exists|ids: Seq<DeclarationId>|
                {
                    &&& ids.len() < names@.len()
                    &&& minted_in_order(fingerprint, names@, ids)
                    &&& #[trigger] mint_exhausted(fingerprint, ids.len() as int, names@[ids.len() as int]@, ids)
                },
    {
        let mut used: Vec<DeclarationId> = Vec::new();
        let mut declarations: Vec<(DeclarationId, String)> = Vec::new();
        let mut k: usize = 0;
        assert(minted_in_order(fingerprint, names@, used@)) by {
            reveal(minted_in_order);
        }
        while k < names.len()
            invariant
                0 <= k <= names@.len(),
                declarations@.len() == k,
                used@.len() == k,
                forall|j: int| 0 <= j < k ==> (#[trigger] declarations@[j]).0 == used@[j],
                forall|j: int| 0 <= j < k ==> (#[trigger] declarations@[j]).1@ == names@[j]@,
                forall|a: int, b: int| 0 <= a < b < k ==> (#[trigger] used@[a]) != (#[trigger] used@[b]),
                minted_in_order(fingerprint, names@, used@),
            decreases names@.len() - k,
        {
            let ghost u0 = used@;
            let nm = names[k].as_str();
            let id = match mint_id(fingerprint, 0, k, nm, &mut used) {
                Some(id) => id,
                None => {
                    proof {
                        lemma_exhausted_from_mint(fingerprint, k as int, names@[k as int]@, nm.spec_bytes(), u0);
                    }
                    return None;
                },
            };
            proof {
                lemma_fresh_from_mint(fingerprint, k as int, names@[k as int]@, nm.spec_bytes(), u0, id);
                lemma_minted_push(fingerprint, names@, u0, id);
                assert forall|a: int, b: int| 0 <= a < b < k + 1 implies (#[trigger] used@[a]) != (#[trigger] used@[b]) by {
                    if b == k {
                        assert(u0.contains(used@[a]));
                    }
                }
            }
            let text = String::from_str(names[k].as_str());
            declarations.push((id, text));
            k += 1;
        }
        let m = SchemaManifest { fingerprint, version: 0, declarations };
        proof {
            assert(m.decl_ids() =~= used@);
            assert forall|a: int, b: int| 0 <= a < b < names@.len() implies (#[trigger] m.decls()[a]).0 != (#[trigger] m.decls()[b]).0 by {
                assert(m.decls()[a].0 == used@[a]);
                assert(m.decls()[b].0 == used@[b]);
            }
            lemma_minted_nonzero(fingerprint, names@, used@);
            assert forall|k: int| 0 <= k < names@.len() implies (#[trigger] m.decls()[k]).0.0 != 0 by {
                assert(m.decls()[k].0 == used@[k]);
            }
            let ns = names@.map_values(|n: String| n@);
            assert forall|k: int| 0 <= k < ns.len() implies #[trigger] decl_ok_at(m.decls(), ns, k) by {
                lemma_names_eq_equivalence(ns[k], ns[k], ns[k]);
                assert forall|j: int| 0 <= j < k implies (#[trigger] m.decls()[j]).0 != m.decls()[k].0 by {
                    assert(m.decls()[j].0 == used@[j]);
                    assert(m.decls()[k].0 == used@[k]);
                }
            }
        }
        Some(m)
    }

    /// The manifest's generation.
    pub fn identity(&self) -> (r: SchemaIdentity)
        ensures
            r == (SchemaIdentity { fingerprint: self.fingerprint, version: self.version }),
    {
        SchemaIdentity { fingerprint: self.fingerprint, version: self.version }
    }

    /// The identity of the first declaration whose name denotes `name` under the registry
    /// fold.
    pub fn declaration(&self, name: &str) -> (r: Option<DeclarationId>)
        ensures
            match r {
                Some(id) => exists|k: int|
                    {
                        &&& 0 <= k < self.decls().len()
                        &&& #[trigger] self.decls()[k].0 == id
                        &&& names_eq_spec(self.decls()[k].1, name@)
                        &&& forall|j: int| 0 <= j < k ==> !names_eq_spec(#[trigger] self.decls()[j].1, name@)
                    },
                None => forall|k: int|
                    0 <= k < self.decls().len() ==> !names_eq_spec(#[trigger] self.decls()[k].1, name@),
            },
    {
        let mut k: usize = 0;
        while k < self.declarations.len()
            invariant
                0 <= k <= self.decls().len(),
                self.decls().len() == self.declarations@.len(),
                forall|j: int| 0 <= j < k ==> !names_eq_spec(#[trigger] self.decls()[j].1, name@),
            decreases self.declarations@.len() - k,
        {
            if names_eq(self.declarations[k].1.as_str(), name) {
                proof {
                    assert(self.decls()[k as int].0 == self.declarations@[k as int].0);
                }
                return Some(self.declarations[k].0);
            }
            k += 1;
        }
        None
    }

    /// The name of the first declaration with identity `id`.
    pub fn name(&self, id: DeclarationId) -> (r: Option<&str>)
        ensures
            match r {
                Some(n) => exists|k: int|
                    {
                        &&& 0 <= k < self.decls().len()
                        &&& #[trigger] self.decls()[k].0 == id
                        &&& self.decls()[k].1 == n@
                        &&& forall|j: int| 0 <= j < k ==> (#[trigger] self.decls()[j]).0 != id
                    },
                None => forall|k: int| 0 <= k < self.decls().len() ==> (#[trigger] self.decls()[k]).0 != id,
            },
    {
        let mut k: usize = 0;
        while k < self.declarations.len()
            invariant
                0 <= k <= self.decls().len(),
                self.decls().len() == self.declarations@.len(),
                forall|j: int| 0 <= j < k ==> (#[trigger] self.decls()[j]).0 != id,
            decreases self.declarations@.len() - k,
        {
            if self.declarations[k].0 == id {
                let n = self.declarations[k].1.as_str();
                proof {
                    assert(self.decls()[k as int].0 == id);
                    assert(self.decls()[k as int].1 == n@);
                }
                return Some(n);
            }
            k += 1;
        }
        None
    }

    /// Checks the manifest against a registry's fingerprint and declaration names: the
    /// fingerprint must match, the counts agree, and each identity be fresh and each name
    /// denote the registry's name at its position.
    pub fn validate(&self, fingerprint: u64, names: &Vec<String>) -> (r: Result<(), Diag>)
        ensures
            match r {
                Ok(_) => self.valid_for_names(fingerprint, names@.map_values(|n: String| n@)),
                Err(d) => d.code == 2 && !self.valid_for_names(
                    fingerprint,
                    names@.map_values(|n: String| n@),
                ) && d.msg@ == self.validate_refusal(fingerprint, names@.map_values(|n: String| n@)),
            },
    {
        let ghost ns = names@.map_values(|n: String| n@);
        if self.fingerprint != fingerprint {
            let a = hex16_text(self.fingerprint);
            let b = hex16_text(fingerprint);
            let t1 = cat("manifest schema ", a.as_str());
            let t2 = cat(t1.as_str(), " is stale for registry ");
            let t3 = cat(t2.as_str(), b.as_str());
            return Err(fail(t3.as_str()));
        }
        if self.declarations.len() != names.len() {
            return Err(fail("manifest declaration count does not match the registry"));
        }
        let mut k: usize = 0;
        while k < self.declarations.len()
            invariant
                0 <= k <= self.decls().len(),
                self.decls().len() == self.declarations@.len() == ns.len(),
                ns == names@.map_values(|n: String| n@),
                self.fingerprint == fingerprint,
                decls_prefix_ok(self.decls(), ns, k as int),
            decreases self.declarations@.len() - k,
        {
            let id = self.declarations[k].0;
            let mut j: usize = 0;
            let mut dup = false;
            while j < k
                invariant
                    0 <= j <= k < self.decls().len(),
                    self.decls().len() == self.declarations@.len(),
                    id == self.decls()[k as int].0,
                    !dup ==> forall|q: int| 0 <= q < j ==> (#[trigger] self.decls()[q]).0 != id,
                    dup ==> exists|q: int| 0 <= q < k && (#[trigger] self.decls()[q]).0 == id,
                decreases k - j,
            {
                if self.declarations[j].0 == id {
                    proof {
                        assert(self.decls()[j as int].0 == id);
                    }
                    dup = true;
                }
                j += 1;
            }
            if dup || !names_eq(self.declarations[k].1.as_str(), names[k].as_str()) {
                proof {
                    assert(!decl_ok_at(self.decls(), ns, k as int));
                }
                return Err(fail("manifest declaration order, name, or identity is invalid"));
            }
            k += 1;
        }
        Ok(())
    }

    /// Whether the manifest belongs to a registry with this fingerprint and these names.
    pub open spec fn valid_for_names(&self, fingerprint: u64, names: Seq<Seq<char>>) -> bool {
        manifest_valid(self.fingerprint, self.decls(), fingerprint, names)
    }

    /// The refusal `validate` gives for a manifest that does not belong to the registry.
    pub open spec fn validate_refusal(&self, fingerprint: u64, names: Seq<Seq<char>>) -> Seq<char> {
        manifest_refusal(self.fingerprint, self.decls(), fingerprint, names)
    }

    /// The manifest's text: "ano-schema-v1\t<version>\t<fingerprint as 16 hex digits>", then
    /// one "decl\t<identity as 16 hex digits>\t<name>" line per declaration.
    pub open spec fn text(&self) -> Seq<char> {
        "ano-schema-v1\t"@ + dec_spelling(self.version as nat) + "\t"@ + hex16(self.fingerprint)
            + "\n"@ + decl_lines(self.decls())
    }

    /// The manifest's bytes: the UTF-8 encoding of `text`.
    pub fn encode(&self) -> (b: Vec<u8>)
        ensures
            b@ == vstd::utf8::encode_utf8(self.text()),
    {
        let v = u64_text(self.version);
        let f = hex16_text(self.fingerprint);
        let t1 = cat("ano-schema-v1\t", v.as_str());
        let t2 = cat(t1.as_str(), "\t");
        let t3 = cat(t2.as_str(), f.as_str());
        let mut text = cat(t3.as_str(), "\n");
        let ghost head = text@;
        let mut k: usize = 0;
        while k < self.declarations.len()
            invariant
                0 <= k <= self.decls().len(),
                self.decls().len() == self.declarations@.len(),
                text@ == head + decl_lines(self.decls().take(k as int)),
            decreases self.declarations@.len() - k,
        {
            let id = hex16_text(self.declarations[k].0.0);
            let l1 = cat("decl\t", id.as_str());
            let l2 = cat(l1.as_str(), "\t");
            let l3 = cat(l2.as_str(), self.declarations[k].1.as_str());
            let line = cat(l3.as_str(), "\n");
            proof {
                assert(self.decls().take(k + 1).drop_last() =~= self.decls().take(k as int));
                assert(self.decls().take(k + 1).last() == self.decls()[k as int]);
            }
            text = cat(text.as_str(), line.as_str());
            k += 1;
        }
        proof {
            assert(self.decls().take(k as int) =~= self.decls());
        }
        let bytes = text.as_str().as_bytes();
        vstd::slice::slice_to_vec(bytes)
    }

}

/// Declaration `k` carries an identity fresh among those before it, and its name denotes
/// the registry's name at its position.
pub open spec fn decl_ok_at(ds: Seq<(DeclarationId, Seq<char>)>, names: Seq<Seq<char>>, k: int) -> bool {
    &&& names_eq_spec(ds[k].1, names[k])
    &&& forall|j: int| 0 <= j < k ==> (#[trigger] ds[j]).0 != ds[k].0
}

/// The first `n` declarations are each `decl_ok_at` their position.
pub open spec fn decls_prefix_ok(ds: Seq<(DeclarationId, Seq<char>)>, names: Seq<Seq<char>>, n: int) -> bool {
    forall|k: int| 0 <= k < n ==> #[trigger] decl_ok_at(ds, names, k)
}

/// Whether a manifest with fingerprint `fp` and declarations `ds` belongs to a registry with
/// this fingerprint and these names.
pub open spec fn manifest_valid(
    fp: u64,
    ds: Seq<(DeclarationId, Seq<char>)>,
    fingerprint: u64,
    names: Seq<Seq<char>>,
) -> bool {
    &&& fp == fingerprint
    &&& ds.len() == names.len()
    &&& decls_prefix_ok(ds, names, names.len() as int)
}

/// The refusal for a manifest that does not belong to the registry: a stale fingerprint, a
/// count mismatch, or a declaration out of order, misnamed, or with a repeated identity.
pub open spec fn manifest_refusal(
    fp: u64,
    ds: Seq<(DeclarationId, Seq<char>)>,
    fingerprint: u64,
    names: Seq<Seq<char>>,
) -> Seq<char> {
    if fp != fingerprint {
        migration_fail_text(
            "manifest schema "@ + hex16(fp) + " is stale for registry "@ + hex16(fingerprint),
        )
    } else if ds.len() != names.len() {
        migration_fail_text("manifest declaration count does not match the registry"@)
    } else {
        migration_fail_text("manifest declaration order, name, or identity is invalid"@)
    }
}

/// The declaration lines of a manifest's text.
pub open spec fn decl_lines(decls: Seq<(DeclarationId, Seq<char>)>) -> Seq<char>
    decreases decls.len(),
{
    if decls.len() == 0 {
        Seq::empty()
    } else {
        decl_lines(decls.drop_last()) + "decl\t"@ + hex16(decls.last().0.0) + "\t"@
            + decls.last().1 + "\n"@
    }
}

/// A plan stamped with the schema generation it was compiled against.
#[derive(Debug, Clone, Copy, PartialEq, Eq, Structural)]
pub struct PlanStamp(pub SchemaIdentity);

impl PlanStamp {
    /// Whether the stamp's generation is the manifest's.
    pub fn valid_for(self, manifest: &SchemaManifest) -> (b: bool)
        ensures
            b == (self.0 == (SchemaIdentity {
                fingerprint: manifest.fingerprint,
                version: manifest.version,
            })),
    {
        self.0 == manifest.identity()
    }
}

/// A handle to a declaration within one schema generation.
#[derive(Debug, Clone, Copy, PartialEq, Eq, Structural)]
pub struct DeclarationHandle {
    pub schema: SchemaIdentity,
    pub declaration: DeclarationId,
}

/// How a mapped declaration's values carry over.
#[derive(Debug, Clone, Copy, PartialEq, Eq, Structural)]
pub enum Conversion {
    Preserve,
    Widen,
}

/// One declaration carried across a migration, with its old and new names.
#[derive(Debug, Clone, PartialEq, Eq)]
pub struct DeclarationMigration {
    pub id: DeclarationId,
    pub old_name: String,
    pub new_name: String,
    pub conversion: Conversion,
}

/// The caches a migration invalidates.
#[derive(Debug, Clone, Copy, PartialEq, Eq, Structural)]
pub struct CacheInvalidation {
    pub compiled_plans: bool,
    pub callables: bool,
    pub views: bool,
    pub services: bool,
}

/// What a migration did: the two generations, the event hash, the carried, removed and added
/// declarations, and the invalidated caches.
#[derive(Debug, Clone, PartialEq, Eq)]
pub struct MigrationReceipt {
    pub old_schema: SchemaIdentity,
    pub new_schema: SchemaIdentity,
    pub event: u64,
    pub declarations: Vec<DeclarationMigration>,
    pub removed: Vec<DeclarationId>,
    pub added: Vec<DeclarationId>,
    pub invalidation: CacheInvalidation,
}

/// What revalidating a handle against a receipt gives: a handle from another generation is
/// refused, a removed declaration is refused, a carried declaration moves to the new
/// generation, anything else is refused as stale.
pub open spec fn revalidate_spec(
    old_schema: SchemaIdentity,
    new_schema: SchemaIdentity,
    removed: Seq<DeclarationId>,
    carried: Seq<DeclarationId>,
    handle: DeclarationHandle,
) -> Result<DeclarationHandle, Seq<char>> {
    if handle.schema != old_schema {
        Err(migration_fail_text("declaration handle belongs to a different schema generation"@))
    } else if removed.contains(handle.declaration) {
        Err(migration_fail_text("declaration handle was removed by the migration"@))
    } else if carried.contains(handle.declaration) {
        Ok(DeclarationHandle { schema: new_schema, declaration: handle.declaration })
    } else {
        Err(migration_fail_text("declaration handle is stale or incompatible"@))
    }
}

impl MigrationReceipt {
    /// The identities the migration carried forward.
    pub open spec fn carried(&self) -> Seq<DeclarationId> {
        self.declarations@.map_values(|m: DeclarationMigration| m.id)
    }

    /// Moves a handle from the old generation to the new one (see `revalidate_spec`).
    pub fn revalidate(&self, handle: DeclarationHandle) -> (r: Result<DeclarationHandle, Diag>)
        ensures
            match r {
                Ok(h) => revalidate_spec(self.old_schema, self.new_schema, self.removed@, self.carried(), handle) == Ok::<DeclarationHandle, Seq<char>>(h),
                Err(d) => d.code == 2 && revalidate_spec(self.old_schema, self.new_schema, self.removed@, self.carried(), handle) == Err::<DeclarationHandle, Seq<char>>(d.msg@),
            },
    {
        if handle.schema != self.old_schema {
            return Err(fail("declaration handle belongs to a different schema generation"));
        }
        if contains_id(&self.removed, handle.declaration) {
            return Err(fail("declaration handle was removed by the migration"));
        }
        let mut k: usize = 0;
        while k < self.declarations.len()
            invariant
                0 <= k <= self.declarations@.len(),
                handle.schema == self.old_schema,
                !self.removed@.contains(handle.declaration),
                forall|j: int| 0 <= j < k ==> self.carried()[j] != handle.declaration,
            decreases self.declarations@.len() - k,
        {
            if self.declarations[k].id == handle.declaration {
                proof {
                    assert(self.carried()[k as int] == handle.declaration);
                    assert(self.carried().contains(handle.declaration));
                }
                return Ok(DeclarationHandle { schema: self.new_schema, declaration: handle.declaration });
            }
            k += 1;
        }
        proof {
            assert(!self.carried().contains(handle.declaration));
        }
        Err(fail("declaration handle is stale or incompatible"))
    }

    /// The journal line of the migration: "ano-migration-v1\t<old version>:<old fingerprint>\t
    /// <new version>:<new fingerprint>\t<event>\n", fingerprints and event as 16 hex digits.
    pub open spec fn log_text(&self) -> Seq<char> {
        "ano-migration-v1\t"@ + dec_spelling(self.old_schema.version as nat) + ":"@ + hex16(
            self.old_schema.fingerprint,
        ) + "\t"@ + dec_spelling(self.new_schema.version as nat) + ":"@ + hex16(
            self.new_schema.fingerprint,
        ) + "\t"@ + hex16(self.event) + "\n"@
    }

    /// The journal line of the migration (see `log_text`).
    pub fn log_line(&self) -> (s: String)
        ensures
            s@ == self.log_text(),
    {
        let ov = u64_text(self.old_schema.version);
        let of = hex16_text(self.old_schema.fingerprint);
        let nv = u64_text(self.new_schema.version);
        let nf = hex16_text(self.new_schema.fingerprint);
        let ev = hex16_text(self.event);
        let t = cat("ano-migration-v1\t", ov.as_str());
        let t = cat(t.as_str(), ":");
        let t = cat(t.as_str(), of.as_str());
        let t = cat(t.as_str(), "\t");
        let t = cat(t.as_str(), nv.as_str());
        let t = cat(t.as_str(), ":");
        let t = cat(t.as_str(), nf.as_str());
        let t = cat(t.as_str(), "\t");
        let t = cat(t.as_str(), ev.as_str());
        cat(t.as_str(), "\n")
    }
}

/// A revalidated handle belongs to the new generation and names the same declaration; when
/// the migration changed the generation, revalidating it a second time is refused.
pub proof fn lemma_revalidate_moves_forward(
    old_schema: SchemaIdentity,
    new_schema: SchemaIdentity,
    removed: Seq<DeclarationId>,
    carried: Seq<DeclarationId>,
    handle: DeclarationHandle,
)
    ensures
        revalidate_spec(old_schema, new_schema, removed, carried, handle) matches Ok(h) ==> {
            &&& h.schema == new_schema
            &&& h.declaration == handle.declaration
            &&& old_schema != new_schema ==> revalidate_spec(old_schema, new_schema, removed, carried, h) is Err
        },
{
}

/// Marks a declaration as handled; handling one twice is refused, naming the side and the
/// declaration.
pub fn mark_once(seen: &mut Vec<bool>, index: usize, side: &str, name: &str) -> (r: Result<(), Diag>)
    requires
        index < old(seen)@.len(),
    ensures
        final(seen)@ == old(seen)@.update(index as int, true),
        match r {
            Ok(_) => !old(seen)@[index as int],
            Err(d) => old(seen)@[index as int] && d.code == 2 && d.msg@ == migration_fail_text(
                side@ + " declaration '"@ + name@ + "' is handled twice"@,
            ),
        },
{
    let was = seen[index];
    seen.set(index, true);
    if was {
        let t = cat(side, " declaration '");
        let t = cat(t.as_str(), name);
        let t = cat(t.as_str(), "' is handled twice");
        return Err(fail(t.as_str()));
    }
    Ok(())
}

/// Marking the same declaration twice always refuses the second time.
pub proof fn lemma_mark_twice_refused(seen: Seq<bool>, index: int)
    requires
        0 <= index < seen.len(),
    ensures
        seen.update(index, true)[index],
{
}

/// Whether a carrier may be widened into another: bool into nat, int or num; nat into int
/// or num; int into num.
pub open spec fn widening_spec(old: ColType, new: ColType) -> bool {
    match (old, new) {
        (ColType::Bool, ColType::Nat) | (ColType::Bool, ColType::Int) | (ColType::Bool, ColType::Num) => true,
        (ColType::Nat, ColType::Int) | (ColType::Nat, ColType::Num) => true,
        (ColType::Int, ColType::Num) => true,
        _ => false,
    }
}

/// Whether a carrier may be widened into another (see `widening_spec`).
pub fn widening(old: ColType, new: ColType) -> (b: bool)
    ensures
        b == widening_spec(old, new),
{
    match (old, new) {
        (ColType::Bool, ColType::Nat) | (ColType::Bool, ColType::Int) | (ColType::Bool, ColType::Num) => true,
        (ColType::Nat, ColType::Int) | (ColType::Nat, ColType::Num) => true,
        (ColType::Int, ColType::Num) => true,
        _ => false,
    }
}

/// Widening is a strict order: never reflexive, and transitive.
pub proof fn lemma_widening_strict(a: ColType, b: ColType, c: ColType)
    ensures
        !widening_spec(a, a),
        widening_spec(a, b) && widening_spec(b, c) ==> widening_spec(a, c),
{
}

/* ---------- the migration-map language ---------- */

/// A Unicode white-space character, as `char::is_whitespace` decides.
pub open spec fn is_ws(c: char) -> bool {
    let u = c as u32;
    (0x09 <= u && u <= 0x0D) || u == 0x20 || u == 0x85 || u == 0xA0 || u == 0x1680 || (0x2000
        <= u && u <= 0x200A) || u == 0x2028 || u == 0x2029 || u == 0x202F || u == 0x205F || u
        == 0x3000
}

fn ws(c: char) -> (r: bool)
    ensures
        r == is_ws(c),
{
    let u = c as u32;
    (0x09 <= u && u <= 0x0D) || u == 0x20 || u == 0x85 || u == 0xA0 || u == 0x1680 || (0x2000
        <= u && u <= 0x200A) || u == 0x2028 || u == 0x2029 || u == 0x202F || u == 0x205F || u
        == 0x3000
}

/// The first newline at or after `i`, or the end.
pub open spec fn next_nl(t: Seq<char>, i: int) -> int
    decreases t.len() - i,
{
    if 0 <= i < t.len() && t[i] != '\n' {
        next_nl(t, i + 1)
    } else {
        i
    }
}

pub proof fn lemma_next_nl(t: Seq<char>, i: int)
    requires
        0 <= i <= t.len(),
    ensures
        i <= next_nl(t, i) <= t.len(),
    decreases t.len() - i,
{
    if i < t.len() && t[i] != '\n' {
        lemma_next_nl(t, i + 1);
    }
}

pub proof fn lemma_word_stop(l: Seq<char>, i: int)
    requires
        0 <= i <= l.len(),
    ensures
        i <= word_stop(l, i) <= l.len(),
    decreases l.len() - i,
{
    if i < l.len() && !is_ws(l[i]) {
        lemma_word_stop(l, i + 1);
    }
}

/// The lines of a text from position `i`, as `str::lines` gives them: split at each '\n',
/// a '\r' right before it dropped, and no empty line after a final newline.
pub open spec fn lines_from(t: Seq<char>, i: int) -> Seq<Seq<char>>
    decreases t.len() - i,
{
    if i < 0 || i >= t.len() {
        Seq::empty()
    } else {
        let k = next_nl(t, i);
        proof {
            lemma_next_nl(t, i);
        }
        if k >= t.len() {
            seq![t.subrange(i, t.len() as int)]
        } else if k > i && t[k - 1] == '\r' {
            seq![t.subrange(i, k - 1)] + lines_from(t, k + 1)
        } else {
            seq![t.subrange(i, k)] + lines_from(t, k + 1)
        }
    }
}

/// Where a line's comment starts: the first '#' at its start or right after white space;
/// the line's end when there is none.
pub open spec fn cut_at(l: Seq<char>, k: int) -> int
    decreases l.len() - k,
{
    if k < 0 || k >= l.len() {
        l.len() as int
    } else if l[k] == '#' && (k == 0 || is_ws(l[k - 1])) {
        k
    } else {
        cut_at(l, k + 1)
    }
}

/// A line without its comment: a '#' that begins a word begins a comment.
pub open spec fn comment_cut(l: Seq<char>) -> Seq<char> {
    l.take(cut_at(l, 0))
}

/// The first position at or after `i` that is not white space.
pub open spec fn lead_from(l: Seq<char>, i: int) -> int
    decreases l.len() - i,
{
    if 0 <= i < l.len() && is_ws(l[i]) {
        lead_from(l, i + 1)
    } else {
        i
    }
}

/// One past the last position before `j` that is not white space.
pub open spec fn trail_from(l: Seq<char>, j: int) -> int
    decreases j,
{
    if 0 < j <= l.len() && is_ws(l[j - 1]) {
        trail_from(l, j - 1)
    } else {
        j
    }
}

/// A line with white space trimmed from both ends.
pub open spec fn trim_ws(l: Seq<char>) -> Seq<char> {
    let a = lead_from(l, 0);
    if a >= l.len() {
        Seq::empty()
    } else {
        l.subrange(a, trail_from(l, l.len() as int))
    }
}

/// The end of the word starting at `i`.
pub open spec fn word_stop(l: Seq<char>, i: int) -> int
    decreases l.len() - i,
{
    if 0 <= i < l.len() && !is_ws(l[i]) {
        word_stop(l, i + 1)
    } else {
        i
    }
}

/// The white-space separated words of a line from position `i`.
pub open spec fn words_from(l: Seq<char>, i: int) -> Seq<Seq<char>>
    decreases l.len() - i,
{
    if i < 0 || i >= l.len() {
        Seq::empty()
    } else if is_ws(l[i]) {
        words_from(l, i + 1)
    } else {
        let e = word_stop(l, i);
        proof {
            lemma_word_stop(l, i);
        }
        if e > i {
            seq![l.subrange(i, e)] + words_from(l, e)
        } else {
            Seq::empty()
        }
    }
}

/// A name with every leading '^' removed.
pub open spec fn strip_carets(n: Seq<char>) -> Seq<char>
    decreases n.len(),
{
    if n.len() > 0 && n[0] == '^' {
        strip_carets(n.skip(1))
    } else {
        n
    }
}

/// One migration rule.
#[derive(Debug, Clone, PartialEq, Eq)]
pub enum Rule {
    Carry { old: String, new: String, conversion: Conversion },
    Remove { old: String, discard_live: bool },
    Add { new: String },
    Unalias { name: String },
}

/// A migration rule as the specification reads it.
pub ghost enum RuleSpec {
    Carry { old: Seq<char>, new: Seq<char>, conversion: Conversion },
    Remove { old: Seq<char>, discard_live: bool },
    Add { new: Seq<char> },
    Unalias { name: Seq<char> },
}

impl View for Rule {
    type V = RuleSpec;

    open spec fn view(&self) -> RuleSpec {
        match self {
            Rule::Carry { old, new, conversion } => RuleSpec::Carry {
                old: old@,
                new: new@,
                conversion: *conversion,
            },
            Rule::Remove { old, discard_live } => RuleSpec::Remove {
                old: old@,
                discard_live: *discard_live,
            },
            Rule::Add { new } => RuleSpec::Add { new: new@ },
            Rule::Unalias { name } => RuleSpec::Unalias { name: name@ },
        }
    }
}

/// The rule a line's words spell: `preserve OLD [NEW]`, `rename OLD NEW`, `widen OLD NEW`,
/// `drop OLD`, `discard OLD`, `add NEW`, `unalias NAME` (leading '^' removed), or none.
pub open spec fn rule_of(w: Seq<Seq<char>>) -> Option<RuleSpec> {
    if w.len() == 2 && w[0] == "preserve"@ {
        Some(RuleSpec::Carry { old: w[1], new: w[1], conversion: Conversion::Preserve })
    } else if w.len() == 3 && (w[0] == "preserve"@ || w[0] == "rename"@) {
        Some(RuleSpec::Carry { old: w[1], new: w[2], conversion: Conversion::Preserve })
    } else if w.len() == 3 && w[0] == "widen"@ {
        Some(RuleSpec::Carry { old: w[1], new: w[2], conversion: Conversion::Widen })
    } else if w.len() == 2 && w[0] == "drop"@ {
        Some(RuleSpec::Remove { old: w[1], discard_live: false })
    } else if w.len() == 2 && w[0] == "discard"@ {
        Some(RuleSpec::Remove { old: w[1], discard_live: true })
    } else if w.len() == 2 && w[0] == "add"@ {
        Some(RuleSpec::Add { new: w[1] })
    } else if w.len() == 2 && w[0] == "unalias"@ {
        Some(RuleSpec::Unalias { name: strip_carets(w[1]) })
    } else {
        None
    }
}

/// Two spellings of one rule: `preserve a` is `rename a a`, and `unalias ^a` is `unalias a`.
pub proof fn lemma_rule_spellings(a: Seq<char>)
    ensures
        rule_of(seq!["preserve"@, a]) == rule_of(seq!["rename"@, a, a]),
        rule_of(seq!["unalias"@, seq!['^'] + a]) == rule_of(seq!["unalias"@, a]),
{
    reveal_strlit("preserve");
    reveal_strlit("rename");
    reveal_strlit("widen");
    reveal_strlit("drop");
    reveal_strlit("discard");
    reveal_strlit("add");
    reveal_strlit("unalias");
    assert((seq!['^'] + a).skip(1) =~= a);
    let u = seq!["unalias"@, a];
    assert(u[0] == "unalias"@);
    assert("unalias"@.len() == 7 && "preserve"@.len() == 8 && "rename"@.len() == 6);
    assert("widen"@.len() == 5 && "drop"@.len() == 4 && "add"@.len() == 3);
    assert("unalias"@[0] != "discard"@[0]);
    assert("unalias"@ != "discard"@);
}

/// The rules of the first `n` lines: blank and comment lines skipped, the first line that is
/// no rule refused by its 1-based number.
pub open spec fn plan_rules(lines: Seq<Seq<char>>, n: int) -> Result<Seq<RuleSpec>, Seq<char>>
    decreases n,
{
    if n <= 0 {
        Ok(Seq::empty())
    } else {
        match plan_rules(lines, n - 1) {
            Err(e) => Err(e),
            Ok(rs) => {
                let l = trim_ws(comment_cut(lines[n - 1]));
                if l.len() == 0 || l[0] == '#' {
                    Ok(rs)
                } else {
                    match rule_of(words_from(l, 0)) {
                        Some(r) => Ok(rs.push(r)),
                        None => Err(
                            migration_fail_text(
                                "map line "@ + dec_spelling(n as nat) + ": expected a migration rule"@,
                            ),
                        ),
                    }
                }
            },
        }
    }
}

/// Once a line is refused, every longer prefix is refused the same way.
proof fn lemma_plan_rules_err_stays(lines: Seq<Seq<char>>, a: int, b: int)
    requires
        0 <= a <= b,
        plan_rules(lines, a) is Err,
    ensures
        plan_rules(lines, b) == plan_rules(lines, a),
    decreases b - a,
{
    if a < b {
        lemma_plan_rules_err_stays(lines, a, b - 1);
    }
}

/// A migration map: its rules in order.
#[derive(Debug, Clone, PartialEq, Eq)]
pub struct MigrationPlan {
    pub rules: Vec<Rule>,
}

/// The rules of a whole migration map, or the refusal of its first malformed line.
pub open spec fn parse_spec(text: Seq<char>) -> Result<Seq<RuleSpec>, Seq<char>> {
    plan_rules(lines_from(text, 0), lines_from(text, 0).len() as int)
}

/// A copy of `t[a..b]`.
pub(crate) fn sub_chars(t: &Vec<char>, a: usize, b: usize) -> (v: Vec<char>)
    requires
        a <= b <= t@.len(),
    ensures
        v@ == t@.subrange(a as int, b as int),
{
    let mut v: Vec<char> = Vec::new();
    let mut k = a;
    while k < b
        invariant
            a <= k <= b <= t@.len(),
            v@ =~= t@.subrange(a as int, k as int),
        decreases b - k,
    {
        v.push(t[k]);
        k += 1;
    }
    v
}

/// The lines of a text (see `lines_from`).
pub(crate) fn lines_exec(t: &Vec<char>) -> (r: Vec<Vec<char>>)
    ensures
        r@.map_values(|l: Vec<char>| l@) == lines_from(t@, 0),
{
    let mut out: Vec<Vec<char>> = Vec::new();
    let mut i: usize = 0;
    while i < t.len()
        invariant
            0 <= i <= t@.len(),
            out@.map_values(|l: Vec<char>| l@) + lines_from(t@, i as int) == lines_from(t@, 0),
        decreases t@.len() - i,
    {
        let mut k = i;
        while k < t.len() && t[k] != '\n'
            invariant
                i <= k <= t@.len(),
                next_nl(t@, i as int) == next_nl(t@, k as int),
            decreases t@.len() - k,
        {
            k += 1;
        }
        let ghost before = out@.map_values(|l: Vec<char>| l@);
        if k >= t.len() {
            let line = sub_chars(t, i, k);
            out.push(line);
            proof {
                assert(out@.map_values(|l: Vec<char>| l@) =~= before.push(t@.subrange(i as int, k as int)));
                assert(lines_from(t@, k as int) =~= Seq::<Seq<char>>::empty());
            }
            i = k;
        } else {
            let e = if k > i && t[k - 1] == '\r' {
                k - 1
            } else {
                k
            };
            let line = sub_chars(t, i, e);
            out.push(line);
            proof {
                assert(out@.map_values(|l: Vec<char>| l@) =~= before.push(t@.subrange(i as int, e as int)));
                assert(before.push(t@.subrange(i as int, e as int)) + lines_from(t@, k + 1) =~= before + (seq![t@.subrange(i as int, e as int)] + lines_from(t@, k + 1)));
            }
            i = k + 1;
        }
    }
    proof {
        assert(out@.map_values(|l: Vec<char>| l@) + lines_from(t@, i as int) =~= out@.map_values(|l: Vec<char>| l@));
    }
    out
}

/// A line without its comment (see `comment_cut`).
fn comment_cut_exec(l: &Vec<char>) -> (r: Vec<char>)
    ensures
        r@ == comment_cut(l@),
{
    let mut k: usize = 0;
    while k < l.len() && !(l[k] == '#' && (k == 0 || ws(l[k - 1])))
        invariant
            0 <= k <= l@.len(),
            cut_at(l@, 0) == cut_at(l@, k as int),
        decreases l@.len() - k,
    {
        k += 1;
    }
    sub_chars(l, 0, k)
}

proof fn lemma_lead_from(l: Seq<char>, i: int)
    requires
        0 <= i <= l.len(),
    ensures
        i <= lead_from(l, i) <= l.len(),
        lead_from(l, i) < l.len() ==> !is_ws(l[lead_from(l, i)]),
    decreases l.len() - i,
{
    if i < l.len() && is_ws(l[i]) {
        lemma_lead_from(l, i + 1);
    }
}

proof fn lemma_trail_from(l: Seq<char>, j: int, a: int)
    requires
        0 <= a < l.len(),
        !is_ws(l[a]),
        a < j <= l.len(),
    ensures
        a < trail_from(l, j) <= j,
    decreases j,
{
    if is_ws(l[j - 1]) {
        lemma_trail_from(l, j - 1, a);
    }
}

/// A line trimmed (see `trim_ws`).
fn trim_exec(l: &Vec<char>) -> (r: Vec<char>)
    ensures
        r@ == trim_ws(l@),
{
    let mut a: usize = 0;
    while a < l.len() && ws(l[a])
        invariant
            0 <= a <= l@.len(),
            lead_from(l@, 0) == lead_from(l@, a as int),
        decreases l@.len() - a,
    {
        a += 1;
    }
    if a >= l.len() {
        return Vec::new();
    }
    let mut b: usize = l.len();
    proof {
        lemma_lead_from(l@, 0);
    }
    while b > a && ws(l[b - 1])
        invariant
            a < l@.len(),
            !is_ws(l@[a as int]),
            a < b <= l@.len(),
            trail_from(l@, l@.len() as int) == trail_from(l@, b as int),
        decreases b,
    {
        b -= 1;
    }
    sub_chars(l, a, b)
}

/// The words of a line (see `words_from`).
pub(crate) fn words_exec(l: &Vec<char>) -> (r: Vec<Vec<char>>)
    ensures
        r@.map_values(|w: Vec<char>| w@) == words_from(l@, 0),
{
    let mut out: Vec<Vec<char>> = Vec::new();
    let mut i: usize = 0;
    while i < l.len()
        invariant
            0 <= i <= l@.len(),
            out@.map_values(|w: Vec<char>| w@) + words_from(l@, i as int) == words_from(l@, 0),
        decreases l@.len() - i,
    {
        if ws(l[i]) {
            i += 1;
        } else {
            let mut e = i;
            while e < l.len() && !ws(l[e])
                invariant
                    i <= e <= l@.len(),
                    word_stop(l@, i as int) == word_stop(l@, e as int),
                decreases l@.len() - e,
            {
                e += 1;
            }
            let ghost before = out@.map_values(|w: Vec<char>| w@);
            let w = sub_chars(l, i, e);
            out.push(w);
            proof {
                assert(out@.map_values(|w: Vec<char>| w@) =~= before.push(l@.subrange(i as int, e as int)));
                assert(before.push(l@.subrange(i as int, e as int)) + words_from(l@, e as int) =~= before + (seq![l@.subrange(i as int, e as int)] + words_from(l@, e as int)));
            }
            i = e;
        }
    }
    proof {
        assert(out@.map_values(|w: Vec<char>| w@) + words_from(l@, i as int) =~= out@.map_values(|w: Vec<char>| w@));
    }
    out
}

/// A map line without its comment (see `comment_cut`).
pub fn map_rule_text(line: &str) -> (r: String)
    ensures
        r@ == comment_cut(line@),
{
    let v = chars_of(line);
    let cut = comment_cut_exec(&v);
    string_of(cut.as_slice())
}

/// Whether a word is a given literal.
pub(crate) fn word_is(w: &Vec<char>, lit: &str) -> (r: bool)
    ensures
        r == (w@ == lit@),
{
    let v = chars_of(lit);
    if v.len() != w.len() {
        return false;
    }
    let mut k: usize = 0;
    while k < v.len()
        invariant
            v@ == lit@,
            v@.len() == w@.len(),
            0 <= k <= v@.len(),
            forall|j: int| 0 <= j < k ==> v@[j] == w@[j],
        decreases v@.len() - k,
    {
        if v[k] != w[k] {
            return false;
        }
        k += 1;
    }
    assert(v@ =~= w@);
    true
}

/// A name without its leading '^'s (see `strip_carets`).
fn strip_carets_exec(n: &Vec<char>) -> (r: String)
    ensures
        r@ == strip_carets(n@),
{
    let mut k: usize = 0;
    assert(n@.skip(0) =~= n@);
    while k < n.len() && n[k] == '^'
        invariant
            0 <= k <= n@.len(),
            strip_carets(n@) == strip_carets(n@.skip(k as int)),
        decreases n@.len() - k,
    {
        proof {
            assert(n@.skip(k as int)[0] == n@[k as int]);
            assert(n@.skip(k as int).skip(1) =~= n@.skip(k + 1));
        }
        k += 1;
    }
    proof {
        if k < n@.len() {
            assert(n@.skip(k as int)[0] == n@[k as int]);
        }
        assert(n@.skip(k as int) =~= n@.subrange(k as int, n@.len() as int));
    }
    let rest = sub_chars(n, k, n.len());
    string_of(rest.as_slice())
}

/// The rule a line's words spell (see `rule_of`).
fn rule_exec(w: &Vec<Vec<char>>) -> (r: Option<Rule>)
    ensures
        match r {
            Some(x) => rule_of(w@.map_values(|v: Vec<char>| v@)) == Some(x@),
            None => rule_of(w@.map_values(|v: Vec<char>| v@)) is None,
        },
{
    let ghost ws_ = w@.map_values(|v: Vec<char>| v@);
    if w.len() == 2 {
        let a = string_of(w[1].as_slice());
        if word_is(&w[0], "preserve") {
            let b = string_of(w[1].as_slice());
            return Some(Rule::Carry { old: a, new: b, conversion: Conversion::Preserve });
        }
        if word_is(&w[0], "drop") {
            return Some(Rule::Remove { old: a, discard_live: false });
        }
        if word_is(&w[0], "discard") {
            return Some(Rule::Remove { old: a, discard_live: true });
        }
        if word_is(&w[0], "add") {
            return Some(Rule::Add { new: a });
        }
        if word_is(&w[0], "unalias") {
            return Some(Rule::Unalias { name: strip_carets_exec(&w[1]) });
        }
        return None;
    }
    if w.len() == 3 {
        let a = string_of(w[1].as_slice());
        let b = string_of(w[2].as_slice());
        if word_is(&w[0], "preserve") || word_is(&w[0], "rename") {
            return Some(Rule::Carry { old: a, new: b, conversion: Conversion::Preserve });
        }
        if word_is(&w[0], "widen") {
            return Some(Rule::Carry { old: a, new: b, conversion: Conversion::Widen });
        }
        return None;
    }
    None
}

impl MigrationPlan {
    /// The rules of the plan, as the specification reads them.
    pub open spec fn rule_specs(&self) -> Seq<RuleSpec> {
        self.rules@.map_values(|r: Rule| r@)
    }

    /// Parses the host migration-map language, one rule per line (see `rule_of`); a '#' that
    /// begins a word begins a comment, blank lines are skipped, and the first malformed line
    /// is refused by its number.
    pub fn parse(text: &str) -> (r: Result<MigrationPlan, Diag>)
        ensures
            match r {
                Ok(p) => parse_spec(text@) == Ok::<Seq<RuleSpec>, Seq<char>>(p.rule_specs()),
                Err(d) => d.code == 2 && parse_spec(text@) == Err::<Seq<RuleSpec>, Seq<char>>(d.msg@),
            },
    {
        let t = chars_of(text);
        let lines = lines_exec(&t);
        let ghost ls = lines@.map_values(|l: Vec<char>| l@);
        let mut rules: Vec<Rule> = Vec::new();
        let mut k: usize = 0;
        assert(rules@.map_values(|r: Rule| r@) =~= Seq::<RuleSpec>::empty());
        while k < lines.len()
            invariant
                0 <= k <= lines@.len(),
                ls == lines@.map_values(|l: Vec<char>| l@),
                ls == lines_from(text@, 0),
                plan_rules(ls, k as int) == Ok::<Seq<RuleSpec>, Seq<char>>(rules@.map_values(|r: Rule| r@)),
            decreases lines@.len() - k,
        {
            let cut = comment_cut_exec(&lines[k]);
            let line = trim_exec(&cut);
            proof {
                assert(ls[k as int] == lines@[k as int]@);
            }
            if line.len() == 0 || line[0] == '#' {
                k += 1;
                continue;
            }
            let words = words_exec(&line);
            match rule_exec(&words) {
                Some(rule) => {
                    let ghost before = rules@.map_values(|r: Rule| r@);
                    rules.push(rule);
                    proof {
                        assert(rules@.map_values(|r: Rule| r@) =~= before.push(rule@));
                    }
                },
                None => {
                    let num = u64_text((k + 1) as u64);
                    let msg = cat("map line ", num.as_str());
                    let msg = cat(msg.as_str(), ": expected a migration rule");
                    let d = fail(msg.as_str());
                    proof {
                        lemma_plan_rules_err_stays(ls, k + 1, ls.len() as int);
                    }
                    return Err(d);
                },
            }
            k += 1;
        }
        Ok(MigrationPlan { rules })
    }
}

/* ---------- reading a manifest back ---------- */

/// The first tab at or after `i`, or the end.
pub open spec fn next_tab(l: Seq<char>, i: int) -> int
    decreases l.len() - i,
{
    if 0 <= i < l.len() && l[i] != '\t' {
        next_tab(l, i + 1)
    } else {
        i
    }
}

pub proof fn lemma_next_tab(l: Seq<char>, i: int)
    requires
        0 <= i <= l.len(),
    ensures
        i <= next_tab(l, i) <= l.len(),
        next_tab(l, i) < l.len() ==> l[next_tab(l, i)] == '\t',
        forall|k: int| i <= k < next_tab(l, i) ==> l[k] != '\t',
    decreases l.len() - i,
{
    if i < l.len() && l[i] != '\t' {
        lemma_next_tab(l, i + 1);
    }
}

/// The tab-separated fields of a line from position `i`, as `str::split('\t')` gives them.
pub open spec fn fields_from(l: Seq<char>, i: int) -> Seq<Seq<char>>
    decreases l.len() - i,
{
    if i < 0 || i > l.len() {
        Seq::empty()
    } else {
        let k = next_tab(l, i);
        proof {
            lemma_next_tab(l, i);
        }
        if k >= l.len() {
            seq![l.subrange(i, l.len() as int)]
        } else {
            seq![l.subrange(i, k)] + fields_from(l, k + 1)
        }
    }
}

/// The tab-separated fields of a line.
pub open spec fn fields(l: Seq<char>) -> Seq<Seq<char>> {
    fields_from(l, 0)
}

/// The value of a hexadecimal digit of either case.
pub open spec fn hex_any(c: char) -> Option<nat> {
    if '0' <= c && c <= '9' {
        Some((c as u32 - 48) as nat)
    } else if 'a' <= c && c <= 'f' {
        Some((c as u32 - 87) as nat)
    } else if 'A' <= c && c <= 'F' {
        Some((c as u32 - 55) as nat)
    } else {
        None
    }
}

/// The value of a string of hexadecimal digits of either case.
pub open spec fn hex_any_value(w: Seq<char>) -> nat
    decreases w.len(),
{
    if w.len() == 0 {
        0
    } else {
        hex_any_value(w.drop_last()) * 16 + match hex_any(w.last()) {
            Some(d) => d,
            None => 0,
        }
    }
}

/// The text after an optional leading '+'.
pub open spec fn unsigned_digits(w: Seq<char>) -> Seq<char> {
    if w.len() > 0 && w[0] == '+' {
        w.skip(1)
    } else {
        w
    }
}

/// `u64::from_str_radix(w, 16)`: an optional '+', then at least one hexadecimal digit of
/// either case, the value within 64 bits.
pub open spec fn parse_hex_spec(w: Seq<char>) -> Option<u64> {
    let d = unsigned_digits(w);
    if d.len() > 0 && (forall|i: int| 0 <= i < d.len() ==> #[trigger] hex_any(d[i]) is Some)
        && hex_any_value(d) <= u64::MAX {
        Some(hex_any_value(d) as u64)
    } else {
        None
    }
}

/// `w.parse::<u64>()`: an optional '+', then at least one decimal digit, the value within
/// 64 bits.
pub open spec fn parse_dec_spec(w: Seq<char>) -> Option<u64> {
    let d = unsigned_digits(w);
    if d.len() > 0 && (forall|i: int| 0 <= i < d.len() ==> crate::alias::is_digit(#[trigger] d[i]))
        && crate::alias::dec_value(d) <= u64::MAX {
        Some(crate::alias::dec_value(d) as u64)
    } else {
        None
    }
}

/// The declarations of lines 1 to `n - 1` of a manifest text (line 0 is the header): each
/// line "decl\t<hex identity>\t<name>", else refused by its 1-based number.
pub open spec fn decls_from(ls: Seq<Seq<char>>, n: int, path: Seq<char>) -> Result<
    Seq<(DeclarationId, Seq<char>)>,
    Seq<char>,
>
    decreases n,
{
    if n <= 1 {
        Ok(Seq::empty())
    } else {
        match decls_from(ls, n - 1, path) {
            Err(e) => Err(e),
            Ok(ds) => {
                let f = fields(ls[n - 1]);
                if f.len() != 3 || f[0] != "decl"@ || parse_hex_spec(f[1]) is None {
                    Err(
                        migration_fail_text(
                            path + ":"@ + dec_spelling(n as nat) + ": malformed declaration identity"@,
                        ),
                    )
                } else {
                    Ok(ds.push((DeclarationId(parse_hex_spec(f[1])->Some_0), f[2])))
                }
            },
        }
    }
}

/// A manifest text read back: the header "ano-schema-v1\t<version>\t<hex fingerprint>",
/// then the declaration lines; the version, fingerprint and declarations, or the refusal
/// (the path names the file in it).
pub open spec fn decode_spec(text: Seq<char>, path: Seq<char>) -> Result<
    (u64, u64, Seq<(DeclarationId, Seq<char>)>),
    Seq<char>,
> {
    let ls = lines_from(text, 0);
    let head = if ls.len() > 0 {
        ls[0]
    } else {
        Seq::empty()
    };
    let f = fields(head);
    if f.len() != 3 || f[0] != "ano-schema-v1"@ {
        Err(migration_fail_text("'"@ + path + "' has an unsupported schema manifest"@))
    } else if parse_dec_spec(f[1]) is None {
        Err(migration_fail_text("bad schema version"@))
    } else if parse_hex_spec(f[2]) is None {
        Err(migration_fail_text("bad schema fingerprint"@))
    } else {
        match decls_from(ls, ls.len() as int, path) {
            Err(e) => Err(e),
            Ok(ds) => Ok((parse_dec_spec(f[1])->Some_0, parse_hex_spec(f[2])->Some_0, ds)),
        }
    }
}

/// The fields of a line (see `fields`).
pub(crate) fn fields_exec(l: &Vec<char>) -> (r: Vec<Vec<char>>)
    ensures
        r@.map_values(|f: Vec<char>| f@) == fields(l@),
{
    let mut out: Vec<Vec<char>> = Vec::new();
    let mut i: usize = 0;
    loop
        invariant
            0 <= i <= l@.len(),
            out@.map_values(|f: Vec<char>| f@) + fields_from(l@, i as int) == fields(l@),
        decreases l@.len() - i,
    {
        let mut k = i;
        while k < l.len() && l[k] != '\t'
            invariant
                i <= k <= l@.len(),
                next_tab(l@, i as int) == next_tab(l@, k as int),
            decreases l@.len() - k,
        {
            k += 1;
        }
        let ghost before = out@.map_values(|f: Vec<char>| f@);
        let piece = sub_chars(l, i, k);
        out.push(piece);
        proof {
            assert(out@.map_values(|f: Vec<char>| f@) =~= before.push(l@.subrange(i as int, k as int)));
        }
        if k >= l.len() {
            proof {
                assert(out@.map_values(|f: Vec<char>| f@) =~= before + fields_from(l@, i as int));
            }
            return out;
        }
        proof {
            assert(before.push(l@.subrange(i as int, k as int)) + fields_from(l@, k + 1) =~= before + (seq![l@.subrange(i as int, k as int)] + fields_from(l@, k + 1)));
        }
        i = k + 1;
    }
}

proof fn lemma_hex_any_value_mono(w: Seq<char>, a: int, b: int)
    requires
        0 <= a <= b <= w.len(),
    ensures
        hex_any_value(w.take(a)) <= hex_any_value(w.take(b)),
    decreases b - a,
{
    if a < b {
        lemma_hex_any_value_mono(w, a, b - 1);
        assert(w.take(b).drop_last() =~= w.take(b - 1));
    }
}

proof fn lemma_dec_take_mono(w: Seq<char>, a: int, b: int)
    requires
        0 <= a <= b <= w.len(),
    ensures
        crate::alias::dec_value(w.take(a)) <= crate::alias::dec_value(w.take(b)),
    decreases b - a,
{
    if a < b {
        lemma_dec_take_mono(w, a, b - 1);
        assert(w.take(b).drop_last() =~= w.take(b - 1));
    }
}

/// `u64::from_str_radix(w, 16)` (see `parse_hex_spec`).
pub(crate) fn parse_hex_exec(w: &Vec<char>) -> (r: Option<u64>)
    ensures
        r == parse_hex_spec(w@),
{
    let start: usize = if w.len() > 0 && w[0] == '+' {
        1
    } else {
        0
    };
    let ghost d = unsigned_digits(w@);
    proof {
        assert(d =~= w@.skip(start as int));
    }
    if start >= w.len() {
        return None;
    }
    let mut acc: u64 = 0;
    let mut over = false;
    let mut k = start;
    while k < w.len()
        invariant
            start <= k <= w@.len(),
            d == w@.skip(start as int),
            d == unsigned_digits(w@),
            forall|i: int| 0 <= i < k - start ==> #[trigger] hex_any(d[i]) is Some,
            !over ==> acc == hex_any_value(d.take(k - start)),
            over ==> hex_any_value(d.take(k - start)) > u64::MAX,
        decreases w@.len() - k,
    {
        let c = w[k];
        let dv: u64 = if '0' <= c && c <= '9' {
            (c as u32 - 48) as u64
        } else if 'a' <= c && c <= 'f' {
            (c as u32 - 87) as u64
        } else if 'A' <= c && c <= 'F' {
            (c as u32 - 55) as u64
        } else {
            proof {
                assert(d[k - start] == c);
                assert(hex_any(d[k - start]) is None);
            }
            return None;
        };
        proof {
            assert(d[k - start] == c);
            assert(d.take(k - start + 1).drop_last() =~= d.take(k - start));
            assert(d.take(k - start + 1).last() == c);
        }
        if !over {
            if acc > (u64::MAX - dv) / 16 {
                over = true;
            } else {
                acc = acc * 16 + dv;
            }
        }
        k += 1;
    }
    proof {
        assert(d.take(k - start) =~= d);
        if over {
        }
    }
    if over {
        return None;
    }
    Some(acc)
}

/// `w.parse::<u64>()` (see `parse_dec_spec`).
pub(crate) fn parse_dec_exec(w: &Vec<char>) -> (r: Option<u64>)
    ensures
        r == parse_dec_spec(w@),
{
    let start: usize = if w.len() > 0 && w[0] == '+' {
        1
    } else {
        0
    };
    let ghost d = unsigned_digits(w@);
    proof {
        assert(d =~= w@.skip(start as int));
    }
    if start >= w.len() {
        return None;
    }
    let mut acc: u64 = 0;
    let mut over = false;
    let mut k = start;
    while k < w.len()
        invariant
            start <= k <= w@.len(),
            d == w@.skip(start as int),
            d == unsigned_digits(w@),
            forall|i: int| 0 <= i < k - start ==> crate::alias::is_digit(#[trigger] d[i]),
            !over ==> acc == crate::alias::dec_value(d.take(k - start)),
            over ==> crate::alias::dec_value(d.take(k - start)) > u64::MAX,
        decreases w@.len() - k,
    {
        let c = w[k];
        if !('0' <= c && c <= '9') {
            proof {
                assert(d[k - start] == c);
            }
            return None;
        }
        let dv = (c as u32 - 48) as u64;
        proof {
            assert(d[k - start] == c);
            assert(d.take(k - start + 1).drop_last() =~= d.take(k - start));
            assert(d.take(k - start + 1).last() == c);
        }
        if !over {
            if acc > (u64::MAX - dv) / 10 {
                over = true;
            } else {
                acc = acc * 10 + dv;
            }
        }
        k += 1;
    }
    proof {
        assert(d.take(k - start) =~= d);
    }
    if over {
        return None;
    }
    Some(acc)
}

proof fn lemma_decls_from_err_stays(ls: Seq<Seq<char>>, a: int, b: int, path: Seq<char>)
    requires
        1 <= a <= b,
        decls_from(ls, a, path) is Err,
    ensures
        decls_from(ls, b, path) == decls_from(ls, a, path),
    decreases b - a,
{
    if a < b {
        lemma_decls_from_err_stays(ls, a, b - 1, path);
    }
}

impl SchemaManifest {
    /// Reads a manifest text back (see `decode_spec`).
    fn decode(text: &str, path: &str) -> (r: Result<SchemaManifest, Diag>)
        ensures
            match r {
                Ok(m) => decode_spec(text@, path@) == Ok::<(u64, u64, Seq<(DeclarationId, Seq<char>)>), Seq<char>>((m.version, m.fingerprint, m.decls())),
                Err(d) => d.code == 2 && decode_spec(text@, path@) == Err::<(u64, u64, Seq<(DeclarationId, Seq<char>)>), Seq<char>>(d.msg@),
            },
    {
        let t = chars_of(text);
        let ls = lines_exec(&t);
        let ghost lv = ls@.map_values(|l: Vec<char>| l@);
        let head: Vec<char> = if ls.len() > 0 {
            proof {
                assert(ls@[0]@.subrange(0, ls@[0]@.len() as int) =~= ls@[0]@);
            }
            sub_chars(&ls[0], 0, ls[0].len())
        } else {
            Vec::new()
        };
        proof {
            if lv.len() > 0 {
                assert(lv[0] == ls@[0]@);
            }
        }
        let f = fields_exec(&head);
        let ghost fv = f@.map_values(|x: Vec<char>| x@);
        if f.len() != 3 || !word_is(&f[0], "ano-schema-v1") {
            proof {
                if f@.len() == 3 {
                    assert(fv[0] == f@[0]@);
                }
            }
            let m = cat("'", path);
            let m = cat(m.as_str(), "' has an unsupported schema manifest");
            return Err(fail(m.as_str()));
        }
        proof {
            assert(fv[1] == f@[1]@);
            assert(fv[2] == f@[2]@);
        }
        let version = match parse_dec_exec(&f[1]) {
            None => {
                return Err(fail("bad schema version"));
            },
            Some(v) => v,
        };
        let fingerprint = match parse_hex_exec(&f[2]) {
            None => {
                return Err(fail("bad schema fingerprint"));
            },
            Some(v) => v,
        };
        let mut declarations: Vec<(DeclarationId, String)> = Vec::new();
        let mut n: usize = 1;
        if ls.len() == 0 {
            n = 0;
        }
        proof {
            assert(declarations@.map_values(|p: (DeclarationId, String)| (p.0, p.1@)) =~= Seq::<(DeclarationId, Seq<char>)>::empty());
        }
        let ghost tail = match decls_from(lv, lv.len() as int, path@) {
            Err(e) => Err(e),
            Ok(ds) => Ok((version, fingerprint, ds)),
        };
        assert(decode_spec(text@, path@) == tail);
        while n < ls.len()
            invariant
                decode_spec(text@, path@) == tail,
                tail == match decls_from(lv, lv.len() as int, path@) {
                    Err(e) => Err(e),
                    Ok(ds) => Ok((version, fingerprint, ds)),
                },
                lv == ls@.map_values(|l: Vec<char>| l@),
                lv == lines_from(text@, 0),
                ls@.len() == 0 ==> n == 0,
                ls@.len() > 0 ==> 1 <= n <= ls@.len(),
                ls@.len() > 0 ==> decls_from(lv, n as int, path@) == Ok::<Seq<(DeclarationId, Seq<char>)>, Seq<char>>(
                    declarations@.map_values(|p: (DeclarationId, String)| (p.0, p.1@)),
                ),
            decreases ls@.len() - n,
        {
            let g = fields_exec(&ls[n]);
            let ghost gv = g@.map_values(|x: Vec<char>| x@);
            proof {
                assert(lv[n as int] == ls@[n as int]@);
            }
            let mut bad = g.len() != 3 || !word_is(&g[0], "decl");
            let mut id: u64 = 0;
            if !bad {
                proof {
                    assert(gv[0] == g@[0]@);
                    assert(gv[1] == g@[1]@);
                }
                match parse_hex_exec(&g[1]) {
                    None => {
                        bad = true;
                    },
                    Some(v) => {
                        id = v;
                    },
                }
            } else {
                proof {
                    if g@.len() == 3 {
                        assert(gv[0] == g@[0]@);
                    }
                }
            }
            if bad {
                let num = u64_text((n + 1) as u64);
                let m = cat(path, ":");
                let m = cat(m.as_str(), num.as_str());
                let m = cat(m.as_str(), ": malformed declaration identity");
                let d = fail(m.as_str());
                proof {
                    let fl = fields(lv[n as int]);
                    assert(fl == gv);
                    assert(fl.len() != 3 || fl[0] != "decl"@ || parse_hex_spec(fl[1]) is None);
                    assert(decls_from(lv, n + 1, path@) is Err);
                    lemma_decls_from_err_stays(lv, n + 1, lv.len() as int, path@);
                }
                return Err(d);
            }
            proof {
                assert(gv[2] == g@[2]@);
            }
            let name = string_of(g[2].as_slice());
            let ghost before = declarations@.map_values(|p: (DeclarationId, String)| (p.0, p.1@));
            declarations.push((DeclarationId(id), name));
            proof {
                assert(declarations@.map_values(|p: (DeclarationId, String)| (p.0, p.1@)) =~= before.push((DeclarationId(id), gv[2])));
            }
            n += 1;
        }
        let m = SchemaManifest { fingerprint, version, declarations };
        proof {
            if lv.len() == 0 {
                assert(m.decls() =~= Seq::<(DeclarationId, Seq<char>)>::empty());
            }
        }
        Ok(m)
    }

    /// A manifest read back from its text (see `decode_spec`) and checked against the
    /// registry's fingerprint and declaration names (see `validate`); `path` names the file
    /// in refusals.
    pub fn load(text: &str, path: &str, fingerprint: u64, names: &Vec<String>) -> (r: Result<SchemaManifest, Diag>)
        ensures
            match r {
                Ok(m) => {
                    &&& decode_spec(text@, path@) == Ok::<(u64, u64, Seq<(DeclarationId, Seq<char>)>), Seq<char>>((m.version, m.fingerprint, m.decls()))
                    &&& m.valid_for_names(fingerprint, names@.map_values(|n: String| n@))
                },
                Err(d) => d.code == 2 && match decode_spec(text@, path@) {
                    Err(e) => d.msg@ == e,
                    Ok((v, f, ds)) => {
                        let ns = names@.map_values(|n: String| n@);
                        !manifest_valid(f, ds, fingerprint, ns) && d.msg@ == manifest_refusal(
                            f,
                            ds,
                            fingerprint,
                            ns,
                        )
                    },
                },
            },
    {
        let m = SchemaManifest::decode(text, path)?;
        match m.validate(fingerprint, names) {
            Ok(_) => Ok(m),
            Err(d) => Err(d),
        }
    }
}

/* ---------- what a read gives back of a write ---------- */

/// No character of the text is `c`.
pub open spec fn lacks(t: Seq<char>, c: char) -> bool {
    forall|i: int| 0 <= i < t.len() ==> #[trigger] t[i] != c
}

/// No declaration name holds a tab, a carriage return or a newline.
pub open spec fn names_single_line(ds: Seq<(DeclarationId, Seq<char>)>) -> bool {
    forall|k: int|
        0 <= k < ds.len() ==> lacks(#[trigger] ds[k].1, '\t') && lacks(ds[k].1, '\r') && lacks(
            ds[k].1,
            '\n',
        )
}

/// The line a declaration is written as (without its newline).
pub open spec fn decl_line(d: (DeclarationId, Seq<char>)) -> Seq<char> {
    "decl\t"@ + hex16(d.0.0) + "\t"@ + d.1
}

/// The header line of a manifest (without its newline).
pub open spec fn header_line(version: u64, fingerprint: u64) -> Seq<char> {
    "ano-schema-v1\t"@ + dec_spelling(version as nat) + "\t"@ + hex16(fingerprint)
}

proof fn lemma_next_nl_shift(p: Seq<char>, t: Seq<char>, i: int)
    requires
        0 <= i <= t.len(),
    ensures
        next_nl(p + t, p.len() + i) == p.len() + next_nl(t, i),
    decreases t.len() - i,
{
    if i < t.len() {
        assert((p + t)[p.len() + i] == t[i]);
        if t[i] != '\n' {
            lemma_next_nl_shift(p, t, i + 1);
        }
    }
}

pub(crate) proof fn lemma_lines_shift(p: Seq<char>, t: Seq<char>, i: int)
    requires
        0 <= i <= t.len(),
    ensures
        lines_from(p + t, p.len() + i) == lines_from(t, i),
    decreases t.len() - i,
{
    if i < t.len() {
        lemma_next_nl_shift(p, t, i);
        lemma_next_nl(t, i);
        let k = next_nl(t, i);
        let pt = p + t;
        if k < t.len() {
            lemma_lines_shift(p, t, k + 1);
            if k > i {
                assert(pt[p.len() + k - 1] == t[k - 1]);
                assert(pt.subrange(p.len() + i, p.len() + k - 1) =~= t.subrange(i, k - 1));
            }
            assert(pt.subrange(p.len() + i, p.len() + k) =~= t.subrange(i, k));
        } else {
            assert(pt.subrange(p.len() + i, pt.len() as int) =~= t.subrange(i, t.len() as int));
        }
    }
}

pub(crate) proof fn lemma_next_nl_past(t: Seq<char>, i: int, k: int)
    requires
        0 <= i <= k <= t.len(),
        forall|j: int| i <= j < k ==> t[j] != '\n',
    ensures
        next_nl(t, i) == next_nl(t, k),
    decreases k - i,
{
    if i < k {
        lemma_next_nl_past(t, i + 1, k);
    }
}

/// A line without newline, not ending in a carriage return, then a newline, reads back as
/// that line followed by the lines of the rest.
pub(crate) proof fn lemma_lines_cons(l: Seq<char>, r: Seq<char>)
    requires
        lacks(l, '\n'),
        l.len() > 0 ==> l.last() != '\r',
    ensures
        lines_from(l + "\n"@ + r, 0) == seq![l] + lines_from(r, 0),
{
    reveal_strlit("\n");
    let t = l + "\n"@ + r;
    assert(t[l.len() as int] == '\n');
    assert forall|j: int| 0 <= j < l.len() implies t[j] != '\n' by {
        assert(t[j] == l[j]);
    }
    lemma_next_nl_past(t, 0, l.len() as int);
    assert(next_nl(t, l.len() as int) == l.len());
    let p = l + "\n"@;
    assert(t =~= p + r);
    lemma_lines_shift(p, r, 0);
    assert(t.subrange(0, l.len() as int) =~= l);
    if l.len() > 0 {
        assert(t[l.len() - 1] == l.last());
    }
}

/// The declaration lines, read from the front.
proof fn lemma_decl_lines_front(ds: Seq<(DeclarationId, Seq<char>)>)
    requires
        ds.len() > 0,
    ensures
        decl_lines(ds) =~= decl_line(ds[0]) + "\n"@ + decl_lines(ds.skip(1)),
    decreases ds.len(),
{
    if ds.len() == 1 {
        assert(ds.drop_last() =~= Seq::<(DeclarationId, Seq<char>)>::empty());
        assert(ds.skip(1) =~= Seq::<(DeclarationId, Seq<char>)>::empty());
    } else {
        lemma_decl_lines_front(ds.drop_last());
        assert(ds.drop_last().skip(1) =~= ds.skip(1).drop_last());
        assert(ds.drop_last()[0] == ds[0]);
        assert(ds.skip(1).last() == ds.last());
    }
}

pub(crate) proof fn lemma_hex16_shape(x: u64)
    ensures
        hex16(x).len() == 16,
        lacks(hex16(x), '\t'),
        lacks(hex16(x), '\n'),
        lacks(hex16(x), '\r'),
        hex16(x)[0] != '+',
        hex16(x).last() != '\r',
{
    crate::text::lemma_hex_width_shape(x as nat, 16);
    assert forall|i: int| 0 <= i < hex16(x).len() implies #[trigger] hex16(x)[i] != '\t' && hex16(x)[i] != '\n' && hex16(x)[i] != '\r' by {
        let c = hex16(x)[i];
        assert(('0' <= c && c <= '9') || ('a' <= c && c <= 'f'));
    }
}

/// A declaration's line holds no newline and does not end in a carriage return.
proof fn lemma_decl_line_shape(d: (DeclarationId, Seq<char>))
    requires
        lacks(d.1, '\t') && lacks(d.1, '\r') && lacks(d.1, '\n'),
    ensures
        lacks(decl_line(d), '\n'),
        decl_line(d).len() > 0,
        decl_line(d).last() != '\r',
{
    reveal_strlit("decl\t");
    reveal_strlit("\t");
    lemma_hex16_shape(d.0.0);
    let l = decl_line(d);
    let a = "decl\t"@ + hex16(d.0.0) + "\t"@;
    assert(l =~= a + d.1);
    assert forall|i: int| 0 <= i < l.len() implies #[trigger] l[i] != '\n' by {
        if i < 5 {
        } else if i < 21 {
            assert(l[i] == hex16(d.0.0)[i - 5]);
        } else if i == 21 {
        } else {
            assert(l[i] == d.1[i - 22]);
        }
    }
    if d.1.len() > 0 {
        assert(l.last() == d.1.last());
    } else {
        assert(l.last() == '\t');
    }
}

/// The declaration lines read back as the declarations' lines, one per declaration.
proof fn lemma_lines_of_decls(ds: Seq<(DeclarationId, Seq<char>)>)
    requires
        names_single_line(ds),
    ensures
        lines_from(decl_lines(ds), 0) == ds.map_values(|d: (DeclarationId, Seq<char>)| decl_line(d)),
    decreases ds.len(),
{
    if ds.len() == 0 {
        assert(decl_lines(ds) =~= Seq::<char>::empty());
        assert(ds.map_values(|d: (DeclarationId, Seq<char>)| decl_line(d)) =~= Seq::<Seq<char>>::empty());
    } else {
        lemma_decl_lines_front(ds);
        assert(names_single_line(ds.skip(1))) by {
            assert forall|k: int| 0 <= k < ds.skip(1).len() implies lacks(#[trigger] ds.skip(1)[k].1, '\t') && lacks(ds.skip(1)[k].1, '\r') && lacks(ds.skip(1)[k].1, '\n') by {
                assert(ds.skip(1)[k] == ds[k + 1]);
            }
        }
        lemma_lines_of_decls(ds.skip(1));
        assert(lacks(ds[0].1, '\t') && lacks(ds[0].1, '\r') && lacks(ds[0].1, '\n'));
        lemma_decl_line_shape(ds[0]);
        lemma_lines_cons(decl_line(ds[0]), decl_lines(ds.skip(1)));
        assert(ds.map_values(|d: (DeclarationId, Seq<char>)| decl_line(d)) =~= seq![decl_line(ds[0])] + ds.skip(1).map_values(|d: (DeclarationId, Seq<char>)| decl_line(d)));
    }
}

pub(crate) proof fn lemma_next_tab_past(t: Seq<char>, i: int, k: int)
    requires
        0 <= i <= k <= t.len(),
        forall|j: int| i <= j < k ==> t[j] != '\t',
    ensures
        next_tab(t, i) == next_tab(t, k),
    decreases k - i,
{
    if i < k {
        lemma_next_tab_past(t, i + 1, k);
    }
}

proof fn lemma_next_tab_shift(p: Seq<char>, t: Seq<char>, i: int)
    requires
        0 <= i <= t.len(),
    ensures
        next_tab(p + t, p.len() + i) == p.len() + next_tab(t, i),
    decreases t.len() - i,
{
    if i < t.len() {
        assert((p + t)[p.len() + i] == t[i]);
        if t[i] != '\t' {
            lemma_next_tab_shift(p, t, i + 1);
        }
    }
}

pub(crate) proof fn lemma_fields_shift(p: Seq<char>, t: Seq<char>, i: int)
    requires
        0 <= i <= t.len(),
    ensures
        fields_from(p + t, p.len() + i) == fields_from(t, i),
    decreases t.len() - i,
{
    lemma_next_tab_shift(p, t, i);
    lemma_next_tab(t, i);
    let k = next_tab(t, i);
    let pt = p + t;
    if k < t.len() {
        lemma_fields_shift(p, t, k + 1);
        assert(pt.subrange(p.len() + i, p.len() + k) =~= t.subrange(i, k));
    } else {
        assert(pt.subrange(p.len() + i, pt.len() as int) =~= t.subrange(i, t.len() as int));
    }
}

/// A field without tabs, a tab, and the rest: that field, then the fields of the rest.
pub(crate) proof fn lemma_fields_cons(a: Seq<char>, r: Seq<char>)
    requires
        lacks(a, '\t'),
    ensures
        fields(a + "\t"@ + r) == seq![a] + fields(r),
{
    reveal_strlit("\t");
    let t = a + "\t"@ + r;
    assert(t[a.len() as int] == '\t');
    assert forall|j: int| 0 <= j < a.len() implies t[j] != '\t' by {
        assert(t[j] == a[j]);
    }
    lemma_next_tab_past(t, 0, a.len() as int);
    assert(next_tab(t, a.len() as int) == a.len());
    let p = a + "\t"@;
    assert(t =~= p + r);
    lemma_fields_shift(p, r, 0);
    assert(t.subrange(0, a.len() as int) =~= a);
}

/// A text without tabs is one field.
pub(crate) proof fn lemma_fields_one(a: Seq<char>)
    requires
        lacks(a, '\t'),
    ensures
        fields(a) == seq![a],
{
    lemma_next_tab_past(a, 0, a.len() as int);
    assert(a.subrange(0, a.len() as int) =~= a);
}

proof fn lemma_hex_any_lower(w: Seq<char>)
    requires
        forall|i: int| 0 <= i < w.len() ==> {
            let c = #[trigger] w[i];
            ('0' <= c && c <= '9') || ('a' <= c && c <= 'f')
        },
    ensures
        hex_any_value(w) == crate::alias::hex_value(w),
        forall|i: int| 0 <= i < w.len() ==> #[trigger] hex_any(w[i]) is Some,
    decreases w.len(),
{
    if w.len() > 0 {
        lemma_hex_any_lower(w.drop_last());
        let c = w.last();
        assert(('0' <= c && c <= '9') || ('a' <= c && c <= 'f'));
    }
}

/// A 16-digit hexadecimal spelling reads back as its value.
pub(crate) proof fn lemma_parse_hex16(x: u64)
    ensures
        parse_hex_spec(hex16(x)) == Some(x),
{
    lemma_hex16_shape(x);
    crate::text::lemma_hex_width_shape(x as nat, 16);
    crate::alias::lemma_hex_value_width(x as nat, 16);
    crate::text::lemma_pow16_16();
    lemma_hex_any_lower(hex16(x));
    assert(unsigned_digits(hex16(x)) == hex16(x));
}

/// A decimal spelling reads back as its value.
pub(crate) proof fn lemma_parse_dec(v: u64)
    ensures
        parse_dec_spec(dec_spelling(v as nat)) == Some(v),
{
    crate::text::lemma_dec_spelling_shape(v as nat);
    crate::alias::lemma_dec_value_spelling(v as nat);
    let w = dec_spelling(v as nat);
    assert(w[0] != '+');
    assert(unsigned_digits(w) == w);
    assert forall|i: int| 0 <= i < w.len() implies crate::alias::is_digit(#[trigger] w[i]) by {
        assert('0' <= w[i] && w[i] <= '9');
    }
}

proof fn lemma_decls_read_back(ds: Seq<(DeclarationId, Seq<char>)>, ls: Seq<Seq<char>>, k: int, path: Seq<char>)
    requires
        names_single_line(ds),
        ls.len() == ds.len() + 1,
        forall|j: int| 0 <= j < ds.len() ==> #[trigger] ls[j + 1] == decl_line(ds[j]),
        0 <= k <= ds.len(),
    ensures
        decls_from(ls, k + 1, path) == Ok::<Seq<(DeclarationId, Seq<char>)>, Seq<char>>(ds.take(k)),
    decreases k,
{
    if k == 0 {
        assert(ds.take(0) =~= Seq::<(DeclarationId, Seq<char>)>::empty());
    } else {
        lemma_decls_read_back(ds, ls, k - 1, path);
        let d = ds[k - 1];
        assert(ls[k] == decl_line(d));
        assert(lacks(d.1, '\t') && lacks(d.1, '\r') && lacks(d.1, '\n'));
        reveal_strlit("decl\t");
        reveal_strlit("decl");
        reveal_strlit("\t");
        lemma_hex16_shape(d.0.0);
        assert("decl\t"@ =~= "decl"@ + "\t"@);
        assert(lacks("decl"@, '\t'));
        assert(decl_line(d) =~= "decl"@ + "\t"@ + (hex16(d.0.0) + "\t"@ + d.1));
        lemma_fields_cons("decl"@, hex16(d.0.0) + "\t"@ + d.1);
        lemma_fields_cons(hex16(d.0.0), d.1);
        lemma_fields_one(d.1);
        lemma_parse_hex16(d.0.0);
        let f = fields(ls[k]);
        assert(f =~= seq!["decl"@, hex16(d.0.0), d.1]);
        assert(ds.take(k) =~= ds.take(k - 1).push(d));
    }
}

/// Writing a manifest and reading its text back gives the same version, fingerprint and
/// declarations, whatever the path, when no declaration name holds a tab, a carriage
/// return or a newline.
pub proof fn lemma_manifest_roundtrip(m: SchemaManifest, path: Seq<char>)
    requires
        names_single_line(m.decls()),
    ensures
        decode_spec(m.text(), path) == Ok::<(u64, u64, Seq<(DeclarationId, Seq<char>)>), Seq<char>>((m.version, m.fingerprint, m.decls())),
{
    reveal_strlit("ano-schema-v1\t");
    reveal_strlit("ano-schema-v1");
    reveal_strlit("\t");
    reveal_strlit("\n");
    let ds = m.decls();
    let h = header_line(m.version, m.fingerprint);
    let dv = dec_spelling(m.version as nat);
    let hx = hex16(m.fingerprint);
    lemma_hex16_shape(m.fingerprint);
    crate::text::lemma_dec_spelling_shape(m.version as nat);
    assert(m.text() =~= h + "\n"@ + decl_lines(ds));
    assert forall|i: int| 0 <= i < h.len() implies #[trigger] h[i] != '\n' by {
        if i < 14 {
        } else if i < 14 + dv.len() {
            assert(h[i] == dv[i - 14]);
            assert('0' <= dv[i - 14] && dv[i - 14] <= '9');
        } else if i == 14 + dv.len() {
        } else {
            assert(h[i] == hx[i - 15 - dv.len()]);
        }
    }
    assert(h.last() == hx.last());
    lemma_lines_cons(h, decl_lines(ds));
    lemma_lines_of_decls(ds);
    let ls = lines_from(m.text(), 0);
    let dl = ds.map_values(|d: (DeclarationId, Seq<char>)| decl_line(d));
    assert(ls == seq![h] + dl);
    assert(ls[0] == h);
    assert forall|j: int| 0 <= j < ds.len() implies #[trigger] ls[j + 1] == decl_line(ds[j]) by {
        assert(ls[j + 1] == dl[j]);
    }
    assert forall|i: int| 0 <= i < dv.len() implies #[trigger] dv[i] != '\t' by {
        assert('0' <= dv[i] && dv[i] <= '9');
    }
    assert("ano-schema-v1\t"@ =~= "ano-schema-v1"@ + "\t"@);
    assert(lacks("ano-schema-v1"@, '\t'));
    assert(h =~= "ano-schema-v1"@ + "\t"@ + (dv + "\t"@ + hx));
    lemma_fields_cons("ano-schema-v1"@, dv + "\t"@ + hx);
    lemma_fields_cons(dv, hx);
    lemma_fields_one(hx);
    assert(fields(h) =~= seq!["ano-schema-v1"@, dv, hx]);
    lemma_parse_dec(m.version);
    lemma_parse_hex16(m.fingerprint);
    lemma_decls_read_back(ds, ls, ds.len() as int, path);
    assert(ds.take(ds.len() as int) =~= ds);
}

/* ---------- the rule pass of a schema replacement ---------- */

/// Where the rule pass stands: which old and candidate declarations have been handled, and
/// what the rules paired, removed, added and unaliased so far.
pub struct PassSpec {
    pub old_seen: Seq<bool>,
    pub new_seen: Seq<bool>,
    pub mappings: Seq<(nat, nat, Conversion)>,
    pub removals: Seq<nat>,
    pub additions: Seq<nat>,
    pub dropped: Seq<Seq<char>>,
}

/// What one rule does to the pass: a carry pairs an old declaration with a candidate one, a
/// removal drops an old one (refused while it holds live data unless it discards), an
/// addition takes a candidate one, and an unalias drops an existing overlay name; each
/// declaration and overlay name may be handled once.
pub open spec fn rule_step(st: PassSpec, r: RuleSpec, ov: RegistryView, live: Seq<bool>, nv: RegistryView, aliases: Seq<(Seq<char>, TargetSpec)>) -> Result<PassSpec, Seq<char>> {
    match r {
        RuleSpec::Carry { old, new, conversion } => match find_entry(ov, old) {
            None => Err(migration_fail_text("no old declaration '"@ + old + "'"@)),
            Some(oi) => match find_entry(nv, new) {
                None => Err(migration_fail_text("no candidate declaration '"@ + new + "'"@)),
                Some(ni) => if st.old_seen[oi] {
                    Err(migration_fail_text("old declaration '"@ + old + "' is handled twice"@))
                } else if st.new_seen[ni] {
                    Err(migration_fail_text("candidate declaration '"@ + new + "' is handled twice"@))
                } else {
                    Ok(PassSpec {
                        old_seen: st.old_seen.update(oi, true),
                        new_seen: st.new_seen.update(ni, true),
                        mappings: st.mappings.push((oi as nat, ni as nat, conversion)),
                        ..st
                    })
                },
            },
        },
        RuleSpec::Remove { old, discard_live } => match find_entry(ov, old) {
            None => Err(migration_fail_text("no old declaration '"@ + old + "'"@)),
            Some(oi) => if st.old_seen[oi] {
                Err(migration_fail_text("old declaration '"@ + old + "' is handled twice"@))
            } else if live[oi] && !discard_live {
                Err(migration_fail_text("declaration '"@ + ov.entries@[oi].name@ + "' has live data; use an explicit discard"@))
            } else {
                Ok(PassSpec { old_seen: st.old_seen.update(oi, true), removals: st.removals.push(oi as nat), ..st })
            },
        },
        RuleSpec::Add { new } => match find_entry(nv, new) {
            None => Err(migration_fail_text("no candidate declaration '"@ + new + "'"@)),
            Some(ni) => if st.new_seen[ni] {
                Err(migration_fail_text("candidate declaration '"@ + new + "' is handled twice"@))
            } else {
                Ok(PassSpec { new_seen: st.new_seen.update(ni, true), additions: st.additions.push(ni as nat), ..st })
            },
        },
        RuleSpec::Unalias { name } => {
            let f = fold_spec(name);
            if st.dropped.contains(f) {
                Err(migration_fail_text("dynamic alias '^"@ + name + "' is handled twice"@))
            } else if !(exists|i: int| 0 <= i < aliases.len() && (#[trigger] aliases[i]).0 == f) {
                Err(migration_fail_text("dynamic alias '^"@ + name + "' does not exist"@))
            } else {
                Ok(PassSpec { dropped: st.dropped.push(f), ..st })
            }
        },
    }
}

/// The pass before any rule: nothing handled.
pub open spec fn pass_start(ov: RegistryView, nv: RegistryView) -> PassSpec {
    PassSpec {
        old_seen: Seq::new(ov.entries@.len(), |i: int| false),
        new_seen: Seq::new(nv.entries@.len(), |i: int| false),
        mappings: Seq::empty(),
        removals: Seq::empty(),
        additions: Seq::empty(),
        dropped: Seq::empty(),
    }
}

/// The pass after the first `n` rules, or the first refusal.
pub open spec fn pass_from(rules: Seq<RuleSpec>, n: int, ov: RegistryView, live: Seq<bool>, nv: RegistryView, aliases: Seq<(Seq<char>, TargetSpec)>) -> Result<PassSpec, Seq<char>>
    decreases n,
{
    if n <= 0 {
        Ok(pass_start(ov, nv))
    } else {
        match pass_from(rules, n - 1, ov, live, nv, aliases) {
            Err(x) => Err(x),
            Ok(st) => rule_step(st, rules[n - 1], ov, live, nv, aliases),
        }
    }
}

proof fn lemma_pass_err_stays(rules: Seq<RuleSpec>, a: int, b: int, ov: RegistryView, live: Seq<bool>, nv: RegistryView, aliases: Seq<(Seq<char>, TargetSpec)>)
    requires
        0 <= a <= b,
        pass_from(rules, a, ov, live, nv, aliases) is Err,
    ensures
        pass_from(rules, b, ov, live, nv, aliases) == pass_from(rules, a, ov, live, nv, aliases),
    decreases b - a,
{
    if a < b {
        lemma_pass_err_stays(rules, a, b - 1, ov, live, nv, aliases);
    }
}

/// The first unhandled declaration from `i` on, if any.
pub open spec fn unseen_from(seen: Seq<bool>, i: int) -> Option<int>
    decreases seen.len() - i,
{
    if i < 0 || i >= seen.len() {
        None
    } else if !seen[i] {
        Some(i)
    } else {
        unseen_from(seen, i + 1)
    }
}

/// What the rule pass of a migration map decides: the pass over every rule, then every old
/// and every candidate declaration must have been handled, the first one left over refused.
pub open spec fn resolve_spec(rules: Seq<RuleSpec>, ov: RegistryView, live: Seq<bool>, nv: RegistryView, aliases: Seq<(Seq<char>, TargetSpec)>) -> Result<PassSpec, Seq<char>> {
    match pass_from(rules, rules.len() as int, ov, live, nv, aliases) {
        Err(x) => Err(x),
        Ok(st) => match unseen_from(st.old_seen, 0) {
            Some(i) => Err(migration_fail_text("old declaration '"@ + ov.entries@[i].name@ + "' has no migration rule"@)),
            None => match unseen_from(st.new_seen, 0) {
                Some(j) => Err(migration_fail_text("candidate declaration '"@ + nv.entries@[j].name@ + "' has no migration rule"@)),
                None => Ok(st),
            },
        },
    }
}

/// The old declarations a pass has handled, in the order the rules handled them: carried
/// ones first, then removed ones.
pub open spec fn handled_old(st: PassSpec) -> Seq<nat> {
    st.mappings.map_values(|m: (nat, nat, Conversion)| m.0) + st.removals
}

/// The candidate declarations a pass has handled: carried ones first, then added ones.
pub open spec fn handled_new(st: PassSpec) -> Seq<nat> {
    st.mappings.map_values(|m: (nat, nat, Conversion)| m.1) + st.additions
}

/// What the rule pass found: the declarations paired (old, candidate, conversion), the old
/// declarations removed, the candidate declarations added, and the canonical overlay names
/// dropped, each in rule order.
#[derive(Debug, Clone, PartialEq)]
pub struct PlanResolution {
    pub mappings: Vec<(usize, usize, Conversion)>,
    pub removals: Vec<usize>,
    pub additions: Vec<usize>,
    pub dropped_aliases: Vec<String>,
}

/// The pass as it stands inside `resolve_plan`.
struct PassState {
    old_seen: Vec<bool>,
    new_seen: Vec<bool>,
    mappings: Vec<(usize, usize, Conversion)>,
    removals: Vec<usize>,
    additions: Vec<usize>,
    dropped: Vec<String>,
}

impl View for PassState {
    type V = PassSpec;

    closed spec fn view(&self) -> PassSpec {
        PassSpec {
            old_seen: self.old_seen@,
            new_seen: self.new_seen@,
            mappings: self.mappings@.map_values(|m: (usize, usize, Conversion)| (m.0 as nat, m.1 as nat, m.2)),
            removals: self.removals@.map_values(|i: usize| i as nat),
            additions: self.additions@.map_values(|i: usize| i as nat),
            dropped: self.dropped@.map_values(|s: String| s@),
        }
    }
}

fn contains_string(v: &Vec<String>, k: &str) -> (b: bool)
    ensures
        b == v@.map_values(|s: String| s@).contains(k@),
{
    let ghost sv = v@.map_values(|s: String| s@);
    let mut i: usize = 0;
    while i < v.len()
        invariant
            sv == v@.map_values(|s: String| s@),
            0 <= i <= v@.len(),
            forall|j: int| 0 <= j < i ==> sv[j] != k@,
        decreases v@.len() - i,
    {
        proof {
            assert(sv[i as int] == v@[i as int]@);
        }
        if same_text(v[i].as_str(), k) {
            return true;
        }
        i += 1;
    }
    false
}

fn has_alias(aliases: &AliasEnvironment, key: &str) -> (b: bool)
    ensures
        b == exists|i: int| 0 <= i < aliases@.entries.len() && (#[trigger] aliases@.entries[i]).0 == key@,
{
    let es = aliases.iter();
    let ghost ev = entry_texts(es@);
    let mut i: usize = 0;
    while i < es.len()
        invariant
            ev == entry_texts(es@),
            ev == aliases@.entries,
            0 <= i <= es@.len(),
            forall|j: int| 0 <= j < i ==> (#[trigger] ev[j]).0 != key@,
        decreases es@.len() - i,
    {
        proof {
            assert(ev[i as int].0 == es@[i as int].0@);
        }
        if same_text(es[i].0.as_str(), key) {
            return true;
        }
        i += 1;
    }
    false
}

fn apply_rule(st: &mut PassState, rule: &Rule, prior: &RegistryView, live: &[bool], candidate: &RegistryView, aliases: &AliasEnvironment) -> (r: Result<(), Diag>)
    requires
        old(st).old_seen@.len() == prior.entries@.len(),
        old(st).new_seen@.len() == candidate.entries@.len(),
        live@.len() == prior.entries@.len(),
    ensures
        final(st).old_seen@.len() == prior.entries@.len(),
        final(st).new_seen@.len() == candidate.entries@.len(),
        match r {
            Ok(()) => rule_step(old(st)@, rule@, *prior, live@, *candidate, aliases@.entries) == Ok::<PassSpec, Seq<char>>(final(st)@),
            Err(d) => rule_step(old(st)@, rule@, *prior, live@, *candidate, aliases@.entries) == Err::<PassSpec, Seq<char>>(d.msg@) && d.code == 2,
        },
{
    match rule {
        Rule::Carry { old: old_name, new: new_name, conversion } => {
            let oi = match find(prior, old_name.as_str()) {
                None => {
                    let m = cat("no old declaration '", old_name.as_str());
                    let m = cat(m.as_str(), "'");
                    return Err(fail(m.as_str()));
                },
                Some(i) => i,
            };
            let ni = match find(candidate, new_name.as_str()) {
                None => {
                    let m = cat("no candidate declaration '", new_name.as_str());
                    let m = cat(m.as_str(), "'");
                    return Err(fail(m.as_str()));
                },
                Some(i) => i,
            };
            if st.old_seen[oi] {
                let m = cat("old declaration '", old_name.as_str());
                let m = cat(m.as_str(), "' is handled twice");
                return Err(fail(m.as_str()));
            }
            if st.new_seen[ni] {
                let m = cat("candidate declaration '", new_name.as_str());
                let m = cat(m.as_str(), "' is handled twice");
                return Err(fail(m.as_str()));
            }
            st.old_seen.set(oi, true);
            st.new_seen.set(ni, true);
            let ghost before = st.mappings@;
            st.mappings.push((oi, ni, *conversion));
            proof {
                assert(st.mappings@ =~= before.push((oi, ni, *conversion)));
                assert(st@.mappings =~= old(st)@.mappings.push((oi as nat, ni as nat, *conversion)));
            }
            Ok(())
        },
        Rule::Remove { old: old_name, discard_live } => {
            let oi = match find(prior, old_name.as_str()) {
                None => {
                    let m = cat("no old declaration '", old_name.as_str());
                    let m = cat(m.as_str(), "'");
                    return Err(fail(m.as_str()));
                },
                Some(i) => i,
            };
            if st.old_seen[oi] {
                let m = cat("old declaration '", old_name.as_str());
                let m = cat(m.as_str(), "' is handled twice");
                return Err(fail(m.as_str()));
            }
            if live[oi] && !*discard_live {
                let m = cat("declaration '", prior.entries[oi].name.as_str());
                let m = cat(m.as_str(), "' has live data; use an explicit discard");
                return Err(fail(m.as_str()));
            }
            st.old_seen.set(oi, true);
            let ghost before = st.removals@;
            st.removals.push(oi);
            proof {
                assert(st@.removals =~= old(st)@.removals.push(oi as nat));
            }
            Ok(())
        },
        Rule::Add { new: new_name } => {
            let ni = match find(candidate, new_name.as_str()) {
                None => {
                    let m = cat("no candidate declaration '", new_name.as_str());
                    let m = cat(m.as_str(), "'");
                    return Err(fail(m.as_str()));
                },
                Some(i) => i,
            };
            if st.new_seen[ni] {
                let m = cat("candidate declaration '", new_name.as_str());
                let m = cat(m.as_str(), "' is handled twice");
                return Err(fail(m.as_str()));
            }
            st.new_seen.set(ni, true);
            st.additions.push(ni);
            proof {
                assert(st@.additions =~= old(st)@.additions.push(ni as nat));
            }
            Ok(())
        },
        Rule::Unalias { name } => {
            let folded = canonical_name(name.as_str());
            if contains_string(&st.dropped, folded.as_str()) {
                let m = cat("dynamic alias '^", name.as_str());
                let m = cat(m.as_str(), "' is handled twice");
                return Err(fail(m.as_str()));
            }
            if !has_alias(aliases, folded.as_str()) {
                let m = cat("dynamic alias '^", name.as_str());
                let m = cat(m.as_str(), "' does not exist");
                return Err(fail(m.as_str()));
            }
            let ghost before = st.dropped@;
            st.dropped.push(folded);
            proof {
                assert(st.dropped@ =~= before.push(st.dropped@[before.len() as int]));
                assert(st@.dropped =~= old(st)@.dropped.push(fold_spec(name@)));
            }
            Ok(())
        },
    }
}

fn first_unseen(seen: &Vec<bool>) -> (r: Option<usize>)
    ensures
        match r {
            Some(i) => unseen_from(seen@, 0) == Some(i as int) && i < seen@.len(),
            None => unseen_from(seen@, 0) is None,
        },
{
    let mut i: usize = 0;
    while i < seen.len()
        invariant
            0 <= i <= seen@.len(),
            unseen_from(seen@, 0) == unseen_from(seen@, i as int),
        decreases seen@.len() - i,
    {
        if !seen[i] {
            return Some(i);
        }
        i += 1;
    }
    None
}

/// Runs the rule pass of a migration map from an old registry to a candidate (see
/// `resolve_spec`); `live` says which old declarations hold live data.
pub fn resolve_plan(prior: &RegistryView, live: &[bool], candidate: &RegistryView, aliases: &AliasEnvironment, plan: &MigrationPlan) -> (r: Result<PlanResolution, Diag>)
    requires
        live@.len() == prior.entries@.len(),
    ensures
        match r {
            Ok(p) => {
                let st = resolve_spec(plan.rule_specs(), *prior, live@, *candidate, aliases@.entries)->Ok_0;
                &&& resolve_spec(plan.rule_specs(), *prior, live@, *candidate, aliases@.entries) is Ok
                &&& p.mappings@.map_values(|m: (usize, usize, Conversion)| (m.0 as nat, m.1 as nat, m.2)) == st.mappings
                &&& p.removals@.map_values(|i: usize| i as nat) == st.removals
                &&& p.additions@.map_values(|i: usize| i as nat) == st.additions
                &&& p.dropped_aliases@.map_values(|s: String| s@) == st.dropped
            },
            Err(d) => resolve_spec(plan.rule_specs(), *prior, live@, *candidate, aliases@.entries) == Err::<PassSpec, Seq<char>>(d.msg@) && d.code == 2,
        },
{
    let mut old_seen: Vec<bool> = Vec::new();
    let mut k: usize = 0;
    while k < prior.entries.len()
        invariant
            0 <= k <= prior.entries@.len(),
            old_seen@ =~= Seq::new(k as nat, |i: int| false),
        decreases prior.entries@.len() - k,
    {
        old_seen.push(false);
        k += 1;
    }
    let mut new_seen: Vec<bool> = Vec::new();
    let mut k: usize = 0;
    while k < candidate.entries.len()
        invariant
            0 <= k <= candidate.entries@.len(),
            new_seen@ =~= Seq::new(k as nat, |i: int| false),
        decreases candidate.entries@.len() - k,
    {
        new_seen.push(false);
        k += 1;
    }
    let mut st = PassState {
        old_seen,
        new_seen,
        mappings: Vec::new(),
        removals: Vec::new(),
        additions: Vec::new(),
        dropped: Vec::new(),
    };
    proof {
        assert(st@.mappings =~= Seq::<(nat, nat, Conversion)>::empty());
        assert(st@.removals =~= Seq::<nat>::empty());
        assert(st@.additions =~= Seq::<nat>::empty());
        assert(st@.dropped =~= Seq::<Seq<char>>::empty());
        assert(st@ == pass_start(*prior, *candidate));
    }
    let ghost rs = plan.rule_specs();
    let mut n: usize = 0;
    while n < plan.rules.len()
        invariant
            0 <= n <= plan.rules@.len(),
            rs == plan.rule_specs(),
            rs.len() == plan.rules@.len(),
            live@.len() == prior.entries@.len(),
            st.old_seen@.len() == prior.entries@.len(),
            st.new_seen@.len() == candidate.entries@.len(),
            pass_from(rs, n as int, *prior, live@, *candidate, aliases@.entries) == Ok::<PassSpec, Seq<char>>(st@),
        decreases plan.rules@.len() - n,
    {
        proof {
            assert(rs[n as int] == plan.rules@[n as int]@);
        }
        match apply_rule(&mut st, &plan.rules[n], prior, live, candidate, aliases) {
            Err(d) => {
                proof {
                    lemma_pass_err_stays(rs, n + 1, rs.len() as int, *prior, live@, *candidate, aliases@.entries);
                }
                return Err(d);
            },
            Ok(()) => {},
        }
        n += 1;
    }
    match first_unseen(&st.old_seen) {
        Some(i) => {
            let m = cat("old declaration '", prior.entries[i].name.as_str());
            let m = cat(m.as_str(), "' has no migration rule");
            return Err(fail(m.as_str()));
        },
        None => {},
    }
    match first_unseen(&st.new_seen) {
        Some(j) => {
            let m = cat("candidate declaration '", candidate.entries[j].name.as_str());
            let m = cat(m.as_str(), "' has no migration rule");
            return Err(fail(m.as_str()));
        },
        None => {},
    }
    Ok(PlanResolution {
        mappings: st.mappings,
        removals: st.removals,
        additions: st.additions,
        dropped_aliases: st.dropped,
    })
}

/// Every old declaration below `n` is carried or removed, none twice: the carried old
/// indices are distinct, the removed ones are distinct, no index is both, and all are
/// below `n`; `seen` marks exactly the handled ones.
pub open spec fn old_once(st: PassSpec, n: nat) -> bool {
    &&& st.old_seen.len() == n
    &&& forall|i: int| 0 <= i < n ==> (#[trigger] st.old_seen[i] <==> ((exists|k: int| 0 <= k < st.mappings.len() && st.mappings[k].0 == i) || st.removals.contains(i as nat)))
    &&& forall|a: int, b: int| 0 <= a < b < st.mappings.len() ==> #[trigger] st.mappings[a].0 != #[trigger] st.mappings[b].0
    &&& forall|a: int, b: int| 0 <= a < b < st.removals.len() ==> #[trigger] st.removals[a] != #[trigger] st.removals[b]
    &&& forall|a: int, b: int| 0 <= a < st.mappings.len() && 0 <= b < st.removals.len() ==> #[trigger] st.mappings[a].0 != #[trigger] st.removals[b]
    &&& forall|a: int| 0 <= a < st.mappings.len() ==> #[trigger] st.mappings[a].0 < n
    &&& forall|a: int| 0 <= a < st.removals.len() ==> #[trigger] st.removals[a] < n
}

/// Every candidate declaration below `n` is carried or added, none twice (as `old_once`).
pub open spec fn new_once(st: PassSpec, n: nat) -> bool {
    &&& st.new_seen.len() == n
    &&& forall|i: int| 0 <= i < n ==> (#[trigger] st.new_seen[i] <==> ((exists|k: int| 0 <= k < st.mappings.len() && st.mappings[k].1 == i) || st.additions.contains(i as nat)))
    &&& forall|a: int, b: int| 0 <= a < b < st.mappings.len() ==> #[trigger] st.mappings[a].1 != #[trigger] st.mappings[b].1
    &&& forall|a: int, b: int| 0 <= a < b < st.additions.len() ==> #[trigger] st.additions[a] != #[trigger] st.additions[b]
    &&& forall|a: int, b: int| 0 <= a < st.mappings.len() && 0 <= b < st.additions.len() ==> #[trigger] st.mappings[a].1 != #[trigger] st.additions[b]
    &&& forall|a: int| 0 <= a < st.mappings.len() ==> #[trigger] st.mappings[a].1 < n
    &&& forall|a: int| 0 <= a < st.additions.len() ==> #[trigger] st.additions[a] < n
}

proof fn lemma_find_below(v: RegistryView, w: Seq<char>)
    ensures
        find_entry(v, w) matches Some(i) ==> 0 <= i < v.entries@.len(),
{
    crate::overlay::lemma_find_range(v.entries@, w, 0);
}

proof fn lemma_pass_once(rules: Seq<RuleSpec>, n: int, ov: RegistryView, live: Seq<bool>, nv: RegistryView, aliases: Seq<(Seq<char>, TargetSpec)>)
    requires
        0 <= n <= rules.len(),
    ensures
        pass_from(rules, n, ov, live, nv, aliases) matches Ok(st) ==> old_once(st, ov.entries@.len()) && new_once(st, nv.entries@.len()),
    decreases n,
{
    if n > 0 {
        lemma_pass_once(rules, n - 1, ov, live, nv, aliases);
        if let Ok(st) = pass_from(rules, n - 1, ov, live, nv, aliases) {
            if let Ok(nx) = rule_step(st, rules[n - 1], ov, live, nv, aliases) {
                let on = ov.entries@.len();
                let nn = nv.entries@.len();
                match rules[n - 1] {
                    RuleSpec::Carry { old, new, conversion } => {
                        lemma_find_below(ov, old);
                        lemma_find_below(nv, new);
                        let oi = find_entry(ov, old)->Some_0;
                        let ni = find_entry(nv, new)->Some_0;
                        assert(!st.old_seen[oi]);
                        assert(!st.new_seen[ni]);
                        let m = nx.mappings;
                        assert(m.len() == st.mappings.len() + 1);
                        assert forall|i: int| 0 <= i < on implies (#[trigger] nx.old_seen[i] <==> ((exists|k: int| 0 <= k < m.len() && m[k].0 == i) || nx.removals.contains(i as nat))) by {
                            if i == oi {
                                assert(m[m.len() - 1].0 == i);
                            } else {
                                assert(nx.old_seen[i] == st.old_seen[i]);
                                if exists|k: int| 0 <= k < m.len() && m[k].0 == i {
                                    let k = choose|k: int| 0 <= k < m.len() && m[k].0 == i;
                                    assert(k < st.mappings.len());
                                    assert(st.mappings[k].0 == i);
                                }
                                if exists|k: int| 0 <= k < st.mappings.len() && st.mappings[k].0 == i {
                                    let k = choose|k: int| 0 <= k < st.mappings.len() && st.mappings[k].0 == i;
                                    assert(m[k] == st.mappings[k]);
                                }
                            }
                        }
                        assert forall|i: int| 0 <= i < nn implies (#[trigger] nx.new_seen[i] <==> ((exists|k: int| 0 <= k < m.len() && m[k].1 == i) || nx.additions.contains(i as nat))) by {
                            if i == ni {
                                assert(m[m.len() - 1].1 == i);
                            } else {
                                assert(nx.new_seen[i] == st.new_seen[i]);
                                if exists|k: int| 0 <= k < m.len() && m[k].1 == i {
                                    let k = choose|k: int| 0 <= k < m.len() && m[k].1 == i;
                                    assert(k < st.mappings.len());
                                    assert(st.mappings[k].1 == i);
                                }
                                if exists|k: int| 0 <= k < st.mappings.len() && st.mappings[k].1 == i {
                                    let k = choose|k: int| 0 <= k < st.mappings.len() && st.mappings[k].1 == i;
                                    assert(m[k] == st.mappings[k]);
                                }
                            }
                        }
                        assert forall|a: int, b: int| 0 <= a < b < m.len() implies #[trigger] m[a].0 != #[trigger] m[b].0 by {
                            if b == m.len() - 1 {
                                assert(m[a] == st.mappings[a]);
                                if m[a].0 == oi {
                                    assert(st.old_seen[oi]);
                                }
                            } else {
                                assert(m[a] == st.mappings[a]);
                                assert(m[b] == st.mappings[b]);
                            }
                        }
                        assert forall|a: int, b: int| 0 <= a < b < m.len() implies #[trigger] m[a].1 != #[trigger] m[b].1 by {
                            if b == m.len() - 1 {
                                assert(m[a] == st.mappings[a]);
                                if m[a].1 == ni {
                                    assert(st.new_seen[ni]);
                                }
                            } else {
                                assert(m[a] == st.mappings[a]);
                                assert(m[b] == st.mappings[b]);
                            }
                        }
                        assert forall|a: int, b: int| 0 <= a < m.len() && 0 <= b < nx.removals.len() implies #[trigger] m[a].0 != #[trigger] nx.removals[b] by {
                            if a == m.len() - 1 {
                                if nx.removals[b] == oi {
                                    assert(st.removals.contains(oi as nat));
                                }
                            } else {
                                assert(m[a] == st.mappings[a]);
                            }
                        }
                        assert forall|a: int, b: int| 0 <= a < m.len() && 0 <= b < nx.additions.len() implies #[trigger] m[a].1 != #[trigger] nx.additions[b] by {
                            if a == m.len() - 1 {
                                if nx.additions[b] == ni {
                                    assert(st.additions.contains(ni as nat));
                                }
                            } else {
                                assert(m[a] == st.mappings[a]);
                            }
                        }
                        assert forall|a: int| 0 <= a < m.len() implies #[trigger] m[a].0 < on && m[a].1 < nn by {
                            if a < m.len() - 1 {
                                assert(m[a] == st.mappings[a]);
                            }
                        }
                    },
                    RuleSpec::Remove { old, discard_live } => {
                        lemma_find_below(ov, old);
                        let oi = find_entry(ov, old)->Some_0;
                        assert(!st.old_seen[oi]);
                        let r = nx.removals;
                        assert(r == st.removals.push(oi as nat));
                        assert(nx.mappings == st.mappings);
                        assert(nx.old_seen == st.old_seen.update(oi, true));
                        assert forall|i: int| 0 <= i < on implies (#[trigger] nx.old_seen[i] <==> ((exists|k: int| 0 <= k < nx.mappings.len() && nx.mappings[k].0 == i) || r.contains(i as nat))) by {
                            if i == oi {
                                assert(r[r.len() - 1] == i);
                            } else {
                                assert(nx.old_seen[i] == st.old_seen[i]);
                                if r.contains(i as nat) {
                                    let k = choose|k: int| 0 <= k < r.len() && r[k] == i as nat;
                                    assert(k < st.removals.len());
                                    assert(st.removals[k] == i);
                                }
                                if st.removals.contains(i as nat) {
                                    let k = choose|k: int| 0 <= k < st.removals.len() && st.removals[k] == i as nat;
                                    assert(r[k] == st.removals[k]);
                                }
                            }
                        }
                        assert forall|a: int, b: int| 0 <= a < b < r.len() implies #[trigger] r[a] != #[trigger] r[b] by {
                            if b == r.len() - 1 {
                                assert(r[a] == st.removals[a]);
                                if r[a] == oi {
                                    assert(st.removals.contains(oi as nat));
                                }
                            } else {
                                assert(r[a] == st.removals[a]);
                                assert(r[b] == st.removals[b]);
                            }
                        }
                        assert forall|a: int, b: int| 0 <= a < nx.mappings.len() && 0 <= b < r.len() implies #[trigger] nx.mappings[a].0 != #[trigger] r[b] by {
                            if b == r.len() - 1 {
                                if nx.mappings[a].0 == oi {
                                    assert(st.old_seen[oi]);
                                }
                            } else {
                                assert(r[b] == st.removals[b]);
                            }
                        }
                        assert forall|a: int| 0 <= a < r.len() implies #[trigger] r[a] < on by {
                            if a < r.len() - 1 {
                                assert(r[a] == st.removals[a]);
                            }
                        }
                    },
                    RuleSpec::Add { new } => {
                        lemma_find_below(nv, new);
                        let ni = find_entry(nv, new)->Some_0;
                        assert(!st.new_seen[ni]);
                        let r = nx.additions;
                        assert(r == st.additions.push(ni as nat));
                        assert(nx.mappings == st.mappings);
                        assert(nx.new_seen == st.new_seen.update(ni, true));
                        assert forall|i: int| 0 <= i < nn implies (#[trigger] nx.new_seen[i] <==> ((exists|k: int| 0 <= k < nx.mappings.len() && nx.mappings[k].1 == i) || r.contains(i as nat))) by {
                            if i == ni {
                                assert(r[r.len() - 1] == i);
                            } else {
                                assert(nx.new_seen[i] == st.new_seen[i]);
                                if r.contains(i as nat) {
                                    let k = choose|k: int| 0 <= k < r.len() && r[k] == i as nat;
                                    assert(k < st.additions.len());
                                    assert(st.additions[k] == i);
                                }
                                if st.additions.contains(i as nat) {
                                    let k = choose|k: int| 0 <= k < st.additions.len() && st.additions[k] == i as nat;
                                    assert(r[k] == st.additions[k]);
                                }
                            }
                        }
                        assert forall|a: int, b: int| 0 <= a < b < r.len() implies #[trigger] r[a] != #[trigger] r[b] by {
                            if b == r.len() - 1 {
                                assert(r[a] == st.additions[a]);
                                if r[a] == ni {
                                    assert(st.additions.contains(ni as nat));
                                }
                            } else {
                                assert(r[a] == st.additions[a]);
                                assert(r[b] == st.additions[b]);
                            }
                        }
                        assert forall|a: int, b: int| 0 <= a < nx.mappings.len() && 0 <= b < r.len() implies #[trigger] nx.mappings[a].1 != #[trigger] r[b] by {
                            if b == r.len() - 1 {
                                if nx.mappings[a].1 == ni {
                                    assert(st.new_seen[ni]);
                                }
                            } else {
                                assert(r[b] == st.additions[b]);
                            }
                        }
                        assert forall|a: int| 0 <= a < r.len() implies #[trigger] r[a] < nn by {
                            if a < r.len() - 1 {
                                assert(r[a] == st.additions[a]);
                            }
                        }
                    },
                    RuleSpec::Unalias { name } => {},
                }
            }
        }
    }
}

proof fn lemma_unseen_none(seen: Seq<bool>, i: int)
    requires
        0 <= i,
        unseen_from(seen, i) is None,
    ensures
        forall|j: int| i <= j < seen.len() ==> seen[j],
    decreases seen.len() - i,
{
    if i < seen.len() {
        lemma_unseen_none(seen, i + 1);
    }
}

/// After a successful rule pass every old declaration is carried or removed exactly once,
/// and every candidate declaration is carried or added exactly once.
pub proof fn lemma_plan_handles_each_once(rules: Seq<RuleSpec>, ov: RegistryView, live: Seq<bool>, nv: RegistryView, aliases: Seq<(Seq<char>, TargetSpec)>)
    requires
        resolve_spec(rules, ov, live, nv, aliases) is Ok,
    ensures
        ({
            let st = resolve_spec(rules, ov, live, nv, aliases)->Ok_0;
            &&& old_once(st, ov.entries@.len())
            &&& new_once(st, nv.entries@.len())
            &&& forall|i: int| 0 <= i < ov.entries@.len() ==> #[trigger] st.old_seen[i]
            &&& forall|i: int| 0 <= i < nv.entries@.len() ==> #[trigger] st.new_seen[i]
        }),
{
    lemma_pass_once(rules, rules.len() as int, ov, live, nv, aliases);
    let st = pass_from(rules, rules.len() as int, ov, live, nv, aliases)->Ok_0;
    lemma_unseen_none(st.old_seen, 0);
    lemma_unseen_none(st.new_seen, 0);
}

} // verus!
