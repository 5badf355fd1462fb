use steel::migration::{
    manifest_path, map_rule_text, mark_once, mint_id, widening, CacheInvalidation, Conversion,
    DeclarationHandle, DeclarationId, DeclarationMigration, MigrationPlan, MigrationReceipt,
    PlanStamp, Rule, SchemaIdentity, SchemaManifest,
};
use steel::ColType;

fn names(v: &[&str]) -> Vec<String> {
    v.iter().map(|s| s.to_string()).collect()
}

#[test]
fn maps_accept_whitespace_and_comments() {
    let parsed = MigrationPlan::parse(
        "# heading\n\tpreserve Id\t# stable identity\nwiden Flag Enabled # carrier\npreserve Parent\npreserve Blend\nadd Added\n",
    )
    .unwrap();
    assert_eq!(parsed.rules.len(), 5);
    assert_eq!(
        parsed.rules[1],
        Rule::Carry { old: "Flag".into(), new: "Enabled".into(), conversion: Conversion::Widen }
    );
}

#[test]
fn map_rules_and_refusals() {
    let p = MigrationPlan::parse("rename a b\ndrop x\ndiscard y\nadd z\nunalias ^^focus\npreserve q\r\n").unwrap();
    assert_eq!(
        p.rules,
        vec![
            Rule::Carry { old: "a".into(), new: "b".into(), conversion: Conversion::Preserve },
            Rule::Remove { old: "x".into(), discard_live: false },
            Rule::Remove { old: "y".into(), discard_live: true },
            Rule::Add { new: "z".into() },
            Rule::Unalias { name: "focus".into() },
            Rule::Carry { old: "q".into(), new: "q".into(), conversion: Conversion::Preserve },
        ]
    );
    assert_eq!(
        MigrationPlan::parse("bogus x").err().unwrap().msg,
        "migration: map line 1: expected a migration rule"
    );
    assert_eq!(
        MigrationPlan::parse("preserve a\n\nwiden a\n").err().unwrap().msg,
        "migration: map line 3: expected a migration rule"
    );
    assert!(MigrationPlan::parse("").unwrap().rules.is_empty());
}

#[test]
fn comments_begin_only_at_word_starts() {
    assert_eq!(map_rule_text("a #b"), "a ");
    assert_eq!(map_rule_text("a#b"), "a#b");
    assert_eq!(map_rule_text("#x"), "");
    assert_eq!(map_rule_text("a\u{3000}#b"), "a\u{3000}");
}

#[test]
fn first_manifest_mints_distinct_identities() {
    let m = SchemaManifest::for_registry(42, &names(&["Id", "Flag", "Blend"])).unwrap();
    assert_eq!(m.version, 0);
    assert_eq!(m.identity(), SchemaIdentity { fingerprint: 42, version: 0 });
    let flag = m.declaration("flag").unwrap();
    assert_eq!(m.declaration("FLAG"), Some(flag));
    assert_eq!(m.name(flag), Some("Flag"));
    assert_ne!(m.declaration("Id"), Some(flag));
    assert_eq!(m.declaration("nope"), None);
    assert!(m.validate(42, &names(&["id", "flag", "blend"])).is_ok());
}

#[test]
fn minted_identities_are_fresh() {
    let mut used = Vec::new();
    let a = mint_id(1, 0, 0, "Gold", &mut used).unwrap();
    let b = mint_id(1, 0, 0, "Gold", &mut used).unwrap();
    assert_ne!(a, b);
    assert_eq!(used, vec![a, b]);
    assert_ne!(a.0, 0);
}

#[test]
fn manifest_text_reads_back_unchanged() {
    let ns = names(&["Id", "Flag"]);
    let m = SchemaManifest::for_registry(0xfeed, &ns).unwrap();
    let bytes = m.encode();
    let text = String::from_utf8(bytes).unwrap();
    assert!(text.starts_with("ano-schema-v1\t0\t000000000000feed\n"));
    let back = SchemaManifest::load(&text, "w.reg.schema", 0xfeed, &ns).unwrap();
    assert_eq!(back, m);
}

#[test]
fn manifest_refusals() {
    let ns = names(&["Id"]);
    let m = SchemaManifest::for_registry(42, &ns).unwrap();
    let text = String::from_utf8(m.encode()).unwrap();
    assert_eq!(
        SchemaManifest::load(&text, "p", 99, &ns).err().unwrap().msg,
        "migration: manifest schema 000000000000002a is stale for registry 0000000000000063"
    );
    assert_eq!(
        SchemaManifest::load(&text, "p", 42, &names(&["Id", "Other"])).err().unwrap().msg,
        "migration: manifest declaration count does not match the registry"
    );
    assert_eq!(
        SchemaManifest::load(&text, "p", 42, &names(&["Other"])).err().unwrap().msg,
        "migration: manifest declaration order, name, or identity is invalid"
    );
    assert_eq!(
        SchemaManifest::load("", "p", 42, &ns).err().unwrap().msg,
        "migration: 'p' has an unsupported schema manifest"
    );
    assert_eq!(
        SchemaManifest::load("ano-schema-v1\tx\t00\n", "p", 42, &ns).err().unwrap().msg,
        "migration: bad schema version"
    );
    assert_eq!(
        SchemaManifest::load("ano-schema-v1\t1\tzz\n", "p", 42, &ns).err().unwrap().msg,
        "migration: bad schema fingerprint"
    );
    assert_eq!(
        SchemaManifest::load("ano-schema-v1\t1\t2A\ndecl\tnothex\tId\n", "p", 42, &ns).err().unwrap().msg,
        "migration: p:2: malformed declaration identity"
    );
}

fn receipt() -> MigrationReceipt {
    MigrationReceipt {
        old_schema: SchemaIdentity { fingerprint: 0x10, version: 1 },
        new_schema: SchemaIdentity { fingerprint: 0xff, version: 2 },
        event: 0xabc,
        declarations: vec![DeclarationMigration {
            id: DeclarationId(7),
            old_name: "Flag".into(),
            new_name: "Enabled".into(),
            conversion: Conversion::Widen,
        }],
        removed: vec![DeclarationId(8)],
        added: vec![DeclarationId(9)],
        invalidation: CacheInvalidation { compiled_plans: true, callables: true, views: true, services: true },
    }
}

#[test]
fn handles_move_forward_once() {
    let r = receipt();
    let h = DeclarationHandle { schema: r.old_schema, declaration: DeclarationId(7) };
    let moved = r.revalidate(h).unwrap();
    assert_eq!(moved, DeclarationHandle { schema: r.new_schema, declaration: DeclarationId(7) });
    assert!(r.revalidate(moved).err().unwrap().msg.contains("different schema generation"));
    let removed = DeclarationHandle { schema: r.old_schema, declaration: DeclarationId(8) };
    assert_eq!(r.revalidate(removed).err().unwrap().msg, "migration: declaration handle was removed by the migration");
    let stale = DeclarationHandle { schema: r.old_schema, declaration: DeclarationId(9) };
    assert_eq!(r.revalidate(stale).err().unwrap().msg, "migration: declaration handle is stale or incompatible");
}

#[test]
fn journal_line_is_exact() {
    assert_eq!(receipt().log_line(), "ano-migration-v1\t1:0000000000000010\t2:00000000000000ff\t0000000000000abc\n");
}

#[test]
fn handling_a_declaration_twice_refuses() {
    let mut seen = vec![false, false];
    assert!(mark_once(&mut seen, 1, "old", "Flag").is_ok());
    assert_eq!(seen, vec![false, true]);
    assert_eq!(
        mark_once(&mut seen, 1, "old", "Flag").err().unwrap().msg,
        "migration: old declaration 'Flag' is handled twice"
    );
}

#[test]
fn widening_is_one_way() {
    assert!(widening(ColType::Bool, ColType::Num));
    assert!(widening(ColType::Nat, ColType::Int));
    assert!(!widening(ColType::Num, ColType::Bool));
    assert!(!widening(ColType::Int, ColType::Int));
    assert!(!widening(ColType::Sym, ColType::Num));
}

#[test]
fn stamps_and_paths() {
    let m = SchemaManifest::for_registry(5, &names(&["A"])).unwrap();
    assert!(PlanStamp(m.identity()).valid_for(&m));
    assert!(!PlanStamp(SchemaIdentity { fingerprint: 5, version: 1 }).valid_for(&m));
    assert_eq!(manifest_path("w.reg"), std::path::PathBuf::from("w.reg.schema"));
}

use steel::alias::AliasCarrier;
use steel::migration::resolve_plan;
use steel::overlay::{AliasEnvironment, EntryRole, RegistryView, ViewEntry};

fn world(fingerprint: u64, decls: &[&str]) -> RegistryView {
    RegistryView {
        fingerprint,
        rows: 2,
        entries: decls
            .iter()
            .map(|d| ViewEntry { name: d.to_string(), role: EntryRole::Value(AliasCarrier::Number) })
            .collect(),
    }
}

fn worlds() -> (RegistryView, RegistryView) {
    (
        world(11, &["Id", "Flag", "Parent", "Blend"]),
        world(12, &["Id", "Enabled", "Parent", "Blend", "Added"]),
    )
}

#[test]
fn rule_pass_pairs_adds_and_unaliases() {
    let (old, candidate) = worlds();
    let mut aliases = AliasEnvironment::for_registry(&old);
    aliases.install_binding(&old, "focus", "Flag").unwrap();
    let plan = MigrationPlan::parse(
        "preserve id\nwiden Flag Enabled\nrename Parent Parent\npreserve Blend\nadd Added\nunalias ^^FOCUS\n",
    )
    .unwrap();
    let pass = resolve_plan(&old, &[true, true, true, true], &candidate, &aliases, &plan).unwrap();
    assert_eq!(
        pass.mappings,
        vec![(0, 0, Conversion::Preserve), (1, 1, Conversion::Widen), (2, 2, Conversion::Preserve), (3, 3, Conversion::Preserve)]
    );
    assert!(pass.removals.is_empty());
    assert_eq!(pass.additions, vec![4]);
    assert_eq!(pass.dropped_aliases, vec!["focus".to_string()]);
}

#[test]
fn rule_pass_refusals_are_exact() {
    let (old, candidate) = worlds();
    let mut aliases = AliasEnvironment::for_registry(&old);
    aliases.install_binding(&old, "focus", "Flag").unwrap();
    let live = [true, true, false, true];
    let refuse = |text: &str| {
        let plan = MigrationPlan::parse(text).unwrap();
        resolve_plan(&old, &live, &candidate, &aliases, &plan).unwrap_err().msg
    };
    let tail = "preserve Parent\npreserve Blend\nadd Added\n";
    assert_eq!(
        refuse(&format!("preserve Id\ndrop Flag\n{}", tail)),
        "migration: declaration 'Flag' has live data; use an explicit discard"
    );
    assert_eq!(
        refuse(&format!("preserve Id\ndiscard Flag\n{}", tail)),
        "migration: candidate declaration 'Enabled' has no migration rule"
    );
    assert_eq!(
        refuse(&format!("preserve Id\npreserve ID\n{}", tail)),
        "migration: old declaration 'ID' is handled twice"
    );
    assert_eq!(refuse("preserve Nope\n"), "migration: no old declaration 'Nope'");
    assert_eq!(refuse("rename Id Nope\n"), "migration: no candidate declaration 'Nope'");
    assert_eq!(
        refuse("preserve Id\nwiden Flag Enabled\n"),
        "migration: old declaration 'Parent' has no migration rule"
    );
    assert_eq!(
        refuse("unalias focus\nunalias ^Focus\n"),
        "migration: dynamic alias '^Focus' is handled twice"
    );
    assert_eq!(refuse("unalias ghost\n"), "migration: dynamic alias '^ghost' does not exist");

    // a declaration without live data may simply be dropped
    let slim = world(13, &["Id", "Enabled", "Blend", "Added"]);
    let plan = MigrationPlan::parse("preserve Id\nwiden Flag Enabled\ndrop Parent\npreserve Blend\nadd Added\n").unwrap();
    let pass = resolve_plan(&old, &live, &slim, &aliases, &plan).unwrap();
    assert_eq!(pass.removals, vec![2]);
    assert_eq!(pass.mappings, vec![(0, 0, Conversion::Preserve), (1, 1, Conversion::Widen), (3, 2, Conversion::Preserve)]);
    assert_eq!(pass.additions, vec![3]);
}

#[test]
fn rule_spellings_that_mean_the_same() {
    assert_eq!(MigrationPlan::parse("preserve A").unwrap(), MigrationPlan::parse("rename A A").unwrap());
    assert_eq!(MigrationPlan::parse("unalias ^x").unwrap(), MigrationPlan::parse("unalias x").unwrap());
}

#[test]
fn a_first_manifest_validates_against_its_registry() {
    let ns = names(&["Id", "Flag", "Blend"]);
    let m = SchemaManifest::for_registry(7, &ns).unwrap();
    assert!(m.validate(7, &ns).is_ok());
    assert!(m.validate(8, &ns).is_err());
}
