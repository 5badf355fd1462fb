use steel::alias::{AliasCarrier, DeclId, HostInput};
use steel::overlay::{
    AliasEnvironment, AliasTarget, EntryRole, MaskCell, RegistryView, ResolvedAlias, SidecarRead,
    ViewEntry, resolver_spec, Resolver,
};

const SCHEMA: u64 = 0x5eed_0f_a11a_5e5;

// A three-row world: one numeric column and one function.
fn registry() -> RegistryView {
    RegistryView {
        fingerprint: SCHEMA,
        rows: 3,
        entries: vec![
            ViewEntry { name: "Gold".to_string(), role: EntryRole::Value(AliasCarrier::Number) },
            ViewEntry { name: "Blast".to_string(), role: EntryRole::Other },
        ],
    }
}

fn pairs(members: &[(&str, &str)]) -> Vec<(String, String)> {
    members.iter().map(|(k, v)| (k.to_string(), v.to_string())).collect()
}

fn spelled(values: &[&str]) -> Vec<String> {
    values.iter().map(|v| v.to_string()).collect()
}

fn listing(environment: &AliasEnvironment) -> Vec<(String, AliasTarget)> {
    environment.iter().to_vec()
}

fn read(text: &str) -> SidecarRead {
    SidecarRead::Text(text.to_string())
}

#[test]
fn dynamic_alias_absent_falls_back_and_present_resolves() {
    let reg = registry();
    let mut environment = AliasEnvironment::for_registry(&reg);
    assert!(environment.snapshot(&reg).unwrap().resolve(&reg, "focus").unwrap().is_none());
    environment.install_binding(&reg, "focus", "gold").unwrap();
    assert_eq!(
        environment.snapshot(&reg).unwrap().resolve(&reg, "FOCUS").unwrap(),
        Some(ResolvedAlias::Entry(0))
    );
}

#[test]
fn dynamic_alias_masks_pin_the_row_domain() {
    let reg = registry();
    let mut environment = AliasEnvironment::for_registry(&reg);
    environment.install_mask(&reg, "hot", &spelled(&["1", "0", "1"])).unwrap();
    let mut changed = reg.clone();
    changed.rows = 4;
    assert!(environment.snapshot(&changed).is_err());
}

// Install, rebind the same stem, delete, delete again, clear.  Every successful transition
// moves the version forward exactly once; the idempotent second delete moves nothing.
#[test]
fn dynamic_alias_lifecycle_moves_the_version_forward() {
    let reg = registry();
    let mut environment = AliasEnvironment::for_registry(&reg);
    assert_eq!(environment.version(), 0);

    environment.install_binding(&reg, "focus", "Gold").unwrap();
    assert_eq!(environment.version(), 1);
    assert_eq!(listing(&environment).len(), 1);

    environment.install_mask(&reg, "FOCUS", &spelled(&["1", "0", "1"])).unwrap();
    assert_eq!(environment.version(), 2);
    assert_eq!(listing(&environment).len(), 1);
    assert!(matches!(listing(&environment)[0].1, AliasTarget::Mask { .. }));

    assert!(environment.delete("focus"));
    assert_eq!(environment.version(), 3);
    assert!(environment.is_empty());

    assert!(!environment.delete("focus"));
    assert_eq!(environment.version(), 3);

    environment.clear(&reg);
    assert_eq!(environment.version(), 4);
}

// Every failing install path leaves the environment byte-for-byte where it was: the version
// counter and the entry listing are the whole observable state of a transition.
#[test]
fn failed_transitions_leave_the_environment_unchanged() {
    let reg = registry();
    let mut environment = AliasEnvironment::for_registry(&reg);
    environment.install_binding(&reg, "keep", "Gold").unwrap();
    let version = environment.version();
    let before = listing(&environment);

    let refuse = |result: Result<(), steel::Diag>, what: &str| {
        assert!(result.is_err(), "{} must refuse", what);
    };
    refuse(environment.install_binding(&reg, "a", "Nope"), "unregistered binding");
    refuse(environment.install_binding(&reg, "a", "Blast"), "fn target");
    refuse(environment.install_mask(&reg, "a", &spelled(&["1", "0"])), "mask row count");
    refuse(environment.install_mask(&reg, "a", &spelled(&["1", "2", "0"])), "mask non-0/1");
    refuse(
        environment.install_resolver(&reg, "a", "input.nope", &pairs(&[("entity", "0")])),
        "unknown resolver",
    );
    refuse(
        environment.install_resolver(&reg, "a", "input.entity", &pairs(&[("entity", "9")])),
        "out-of-domain resolver input",
    );
    refuse(
        environment.install_resolver(&reg, "a", "input.entity", &pairs(&[("ent\try", "0")])),
        "malformed input pair",
    );
    refuse(
        environment.install_resolver(&reg, "a", "input.entity", &pairs(&[("entity", "x")])),
        "unparsable resolver input",
    );

    assert_eq!(environment.version(), version);
    assert_eq!(listing(&environment), before);
}

// The name fold is ASCII-only, so a non-ASCII case pair is two distinct stems.
#[test]
fn dynamic_alias_non_ascii_case_pairs_stay_distinct() {
    let reg = registry();
    let mut environment = AliasEnvironment::for_registry(&reg);
    environment.install_binding(&reg, "σ", "Gold").unwrap();
    let snapshot = environment.snapshot(&reg).unwrap();
    assert!(snapshot.resolve(&reg, "Σ").unwrap().is_none());
    assert_eq!(snapshot.resolve(&reg, "σ").unwrap(), Some(ResolvedAlias::Entry(0)));
}

// A stem is one nonempty single-line token; the sidecar is tab-delimited and line-oriented.
#[test]
fn dynamic_alias_name_refusals() {
    let reg = registry();
    let mut environment = AliasEnvironment::for_registry(&reg);
    for name in ["", "a\tb", "a\nb", "a\rb"] {
        assert!(environment.install_binding(&reg, name, "Gold").is_err(), "{:?}", name);
    }
    assert_eq!(environment.version(), 0);
}

// A resolver target invokes once at install and again at each consultation, always against
// the frozen (registry, input) pair recorded on the target.
#[test]
fn resolver_targets_install_and_resolve() {
    let reg = registry();
    let mut environment = AliasEnvironment::for_registry(&reg);
    environment
        .install_resolver(&reg, "focus", "input.entity", &pairs(&[("entity", "1")]))
        .unwrap();
    environment
        .install_resolver(&reg, "hot", "input.mask", &pairs(&[("mask", "1 0 1")]))
        .unwrap();
    let snapshot = environment.snapshot(&reg).unwrap();
    assert_eq!(snapshot.resolve(&reg, "FOCUS").unwrap(), Some(ResolvedAlias::EntityRow(1)));
    assert_eq!(
        snapshot.resolve(&reg, "hot").unwrap(),
        Some(ResolvedAlias::Mask(vec![MaskCell::One, MaskCell::Zero, MaskCell::One]))
    );
    // rerunning against the same frozen pair is observationally identical
    assert_eq!(snapshot.resolve(&reg, "focus").unwrap(), Some(ResolvedAlias::EntityRow(1)));
    assert_eq!(
        environment.iter()[0].1.describe(),
        "resolver input.entity (entity, service 1, input v1)"
    );
}

#[test]
fn concrete_deictics_pin_their_carriers_and_inputs() {
    let reg = registry();
    let mut environment = AliasEnvironment::for_registry(&reg);
    environment
        .install_resolver(&reg, "cursor", "deictic.cursor", &pairs(&[("cursor", "2")]))
        .unwrap();
    environment
        .install_resolver(&reg, "observer", "deictic.observer", &pairs(&[("observer", "1")]))
        .unwrap();
    environment
        .install_resolver(&reg, "selected", "deictic.selected", &pairs(&[("selected", "1 0 1")]))
        .unwrap();
    environment.install_resolver(&reg, "world", "deictic.world", &[]).unwrap();

    let snapshot = environment.snapshot(&reg).unwrap();
    assert_eq!(snapshot.resolve(&reg, "cursor").unwrap(), Some(ResolvedAlias::EntityRow(2)));
    assert_eq!(snapshot.resolve(&reg, "observer").unwrap(), Some(ResolvedAlias::EntityRow(1)));
    assert_eq!(
        snapshot.resolve(&reg, "selected").unwrap(),
        Some(ResolvedAlias::Mask(vec![MaskCell::One, MaskCell::Zero, MaskCell::One]))
    );
    assert_eq!(
        snapshot.resolve(&reg, "world").unwrap(),
        Some(ResolvedAlias::Mask(vec![MaskCell::One, MaskCell::One, MaskCell::One]))
    );

    let before = environment.clone();
    assert!(environment
        .install_resolver(&reg, "cursor", "deictic.cursor", &pairs(&[("entity", "0")]))
        .is_err());
    assert_eq!(environment, before);
}

#[test]
fn sidecar_round_trip_preserves_every_target_kind() {
    let reg = registry();
    let mut environment = AliasEnvironment::for_registry(&reg);
    environment.install_binding(&reg, "focus", "Gold").unwrap();
    environment.install_mask(&reg, "hot", &spelled(&["1", "0", "1"])).unwrap();
    environment
        .install_resolver(&reg, "cursorish", "input.entity", &pairs(&[("entity", "2")]))
        .unwrap();
    let text = environment.encode();

    let loaded = AliasEnvironment::load(&read(&text), "world.reg.aliases", &reg).unwrap();
    assert_eq!(loaded, environment);
    assert_eq!(loaded.version(), environment.version());
    assert_eq!(loaded.schema(), environment.schema());
    assert_eq!(loaded.schema(), reg.fingerprint);
}

#[test]
fn sidecar_load_refusals() {
    let reg = registry();
    let schema = reg.fingerprint;
    let header = format!("ano-aliases-v1\t4\t{:016x}\n", schema);
    let load = |text: String| AliasEnvironment::load(&read(&text), "sidecar", &reg);

    assert!(load(format!("ano-aliases-v9\t1\t{:016x}\n", schema)).is_err());

    let canonical = format!("{}bind\tfocus\tGold\tnumber\t{:016x}\n", header, schema);
    assert!(load(canonical.clone()).is_ok());
    let variants = vec![
        ("missing-final-newline", canonical[..canonical.len() - 1].to_string()),
        ("blank-record", format!("{}\n", canonical)),
        ("padded-version", format!("ano-aliases-v1\t04\t{:016x}\nbind\tfocus\tGold\tnumber\t{:016x}\n", schema, schema)),
        ("wide-schema", format!("ano-aliases-v1\t4\t{:017x}\nbind\tfocus\tGold\tnumber\t{:016x}\n", schema, schema)),
        ("noncanonical-name", format!("{}bind\tFocus\tGold\tnumber\t{:016x}\n", header, schema)),
        ("duplicate-name", format!("{}bind\tfocus\tGold\tnumber\t{:016x}\nbind\tfocus\tGold\tnumber\t{:016x}\n", header, schema, schema)),
    ];
    for (name, text) in variants {
        assert!(load(text).is_err(), "accepted {name}");
    }
    assert!(AliasEnvironment::load(&SidecarRead::NotUtf8, "sidecar", &reg).is_err());

    let mut environment = AliasEnvironment::for_registry(&reg);
    let bad_input = pairs(&[("bad=key", "1")]);
    assert!(environment.install_resolver(&reg, "focus", "input.entity", &bad_input).is_err());

    let mut drifted = reg.clone();
    drifted.fingerprint = SCHEMA + 1;
    drifted.entries.push(ViewEntry { name: "Silver".to_string(), role: EntryRole::Value(AliasCarrier::Number) });
    assert!(AliasEnvironment::load(&read(&canonical), "sidecar", &drifted).is_err());

    assert!(load(format!("{}wat\tfocus\n", header)).is_err());

    // the row count is outside the fingerprint, so a mask record pins its own row count
    let mask = format!("{}mask\thot\t3\t{:016x}\t1\t0\t1\n", header, schema);
    let mut wider = reg.clone();
    wider.rows = 4;
    assert!(AliasEnvironment::load(&read(&mask), "sidecar", &wider).is_err());

    let unknown = format!("{}rslv\tfocus\tinput.nope\tentity\t1\t{:016x}\t1\tentity=1\n", header, schema);
    let error = load(unknown).unwrap_err();
    assert!(error.msg.contains("unknown resolver 'input.nope'"), "{}", error.msg);

    // the service field hand-edited under a registered resolver: caught by the final snapshot
    let drift = format!("{}rslv\tfocus\tinput.entity\tentity\t9\t{:016x}\t1\tentity=1\n", header, schema);
    let error = load(drift).unwrap_err();
    assert!(error.msg.contains("resolver service changed"), "{}", error.msg);
}

// The operator-initiated reset: a sidecar this registry cannot load is discarded with its
// reason, and the fresh environment resumes at the old header's version plus one.
#[test]
fn load_or_recover_discards_a_corrupt_sidecar() {
    let reg = registry();
    let (environment, note) =
        AliasEnvironment::load_or_recover(&read("ano-aliases-v1\t7\tnot-a-schema\n"), "world.reg.aliases", &reg);
    assert_eq!(environment.version(), 8);
    assert!(environment.is_empty());
    assert!(note.is_some(), "a discard must report its reason");

    let (environment, note) = AliasEnvironment::load_or_recover(&read("garbage\n"), "junk.aliases", &reg);
    assert_eq!(environment.version(), 1);
    assert!(note.is_some());

    let (environment, note) = AliasEnvironment::load_or_recover(&SidecarRead::Absent, "absent.aliases", &reg);
    assert_eq!(environment.version(), 0);
    assert!(note.is_none());
}

// An overlay entry that is present but stale, invalid, or incompatible with its context
// refuses at the lookup itself; bare fallback happens only when the canonical key is absent.
#[test]
fn resolve_stale_arms_refuse_without_falling_back() {
    let reg = registry();
    let mut environment = AliasEnvironment::for_registry(&reg);
    environment.install_binding(&reg, "focus", "Gold").unwrap();
    environment.install_mask(&reg, "hot", &spelled(&["1", "0", "1"])).unwrap();
    environment
        .install_resolver(&reg, "here", "input.entity", &pairs(&[("entity", "2")]))
        .unwrap();
    let snapshot = environment.snapshot(&reg).unwrap();

    // a schema move stales the binding arm
    let mut renamed = reg.clone();
    renamed.fingerprint = SCHEMA + 2;
    renamed.entries[0].name = "Silver".to_string();
    let error = snapshot.resolve(&renamed, "focus").unwrap_err();
    assert!(error.msg.contains("stale schema"), "{}", error.msg);

    // the row count is outside the fingerprint, so the mask and resolver arms carry it
    let mut wider = reg.clone();
    wider.rows = 4;
    let error = snapshot.resolve(&wider, "hot").unwrap_err();
    assert!(error.msg.contains("stale for the current world"), "{}", error.msg);

    let mut narrower = reg.clone();
    narrower.rows = 1;
    let error = snapshot.resolve(&narrower, "here").unwrap_err();
    assert!(error.msg.contains("resolver is stale"), "{}", error.msg);
}

/* ---------- further cases ---------- */

#[test]
fn sidecar_text_is_exact() {
    let reg = registry();
    let mut environment = AliasEnvironment::for_registry(&reg);
    environment.install_binding(&reg, "Focus", "gold").unwrap();
    environment.install_mask(&reg, "hot", &spelled(&["1", "-0", "1"])).unwrap();
    environment
        .install_resolver(&reg, "pick", "input.mask", &pairs(&[("mask", "0 1 0"), ("b", "x")]))
        .unwrap();
    let text = environment.encode();
    assert_eq!(
        text,
        format!(
            "ano-aliases-v1\t3\t{s:016x}\n\
             bind\tfocus\tGold\tnumber\t{s:016x}\n\
             mask\thot\t3\t{s:016x}\t1\t-0\t1\n\
             rslv\tpick\tinput.mask\tmask\t1\t{s:016x}\t3\tb=x\tmask=0 1 0\n",
            s = SCHEMA
        )
    );
    let loaded = AliasEnvironment::load_text(&text, "p", &reg).unwrap();
    assert_eq!(loaded, environment);
    assert_eq!(
        loaded.iter()[0].1.describe(),
        "Gold (number)"
    );
    assert_eq!(loaded.iter()[1].1.describe(), "mask [1 0 1]");
    assert_eq!(loaded.iter()[1].1.provenance(Some("AnoDynMask0")), "mask 'AnoDynMask0'");
    assert_eq!(loaded.iter()[0].1.provenance(None), "binding 'Gold'");
    assert_eq!(
        loaded.iter()[2].1.provenance(None),
        "resolver 'input.mask' service 1 input v3"
    );
}

#[test]
fn refusal_messages_are_exact() {
    let reg = registry();
    let mut environment = AliasEnvironment::for_registry(&reg);
    let msg = |r: Result<(), steel::Diag>| r.unwrap_err().msg;
    assert_eq!(
        msg(environment.install_binding(&reg, "a", "Nope")),
        "alias: unregistered binding 'Nope'"
    );
    assert_eq!(
        msg(environment.install_binding(&reg, "a", "Blast")),
        "alias: 'Blast' is not a value binding"
    );
    assert_eq!(
        msg(environment.install_mask(&reg, "a", &spelled(&["1", "0"]))),
        "alias: mask '^a' has 2 rows, registry has 3"
    );
    assert_eq!(
        msg(environment.install_mask(&reg, "a", &spelled(&["1", "0.5", "0"]))),
        "alias: mask '^a' row 1 is 0.5, expected 0 or 1"
    );
    assert_eq!(
        msg(environment.install_resolver(&reg, "a", "input.entity", &pairs(&[("entity", "9")]))),
        "alias: resolver 'input.entity' row 9 is outside a world of 3 rows"
    );
    assert_eq!(
        msg(environment.install_resolver(&reg, "a", "input.mask", &pairs(&[("mask", "1 x")]))),
        "alias: resolver 'input.mask' token 'x' is not 0 or 1"
    );
    assert_eq!(
        msg(environment.install_resolver(&reg, "a", "input.mask", &pairs(&[("mask", "1 0")]))),
        "alias: resolver 'input.mask' produced 2 rows, registry has 3"
    );
    assert_eq!(
        msg(environment.install_resolver(&reg, "a", "input.entity", &[])),
        "alias: resolver 'input.entity' needs a 'entity' input"
    );
    assert_eq!(
        msg(environment.install_resolver(&reg, "a", "input.entity", &pairs(&[("entity", "-1")]))),
        "alias: resolver 'input.entity' input '-1' is not a row index"
    );
    assert_eq!(
        msg(environment.install_resolver(&reg, "", "input.entity", &[])),
        "alias: alias name must be a nonempty single-line token"
    );
    let other = RegistryView { fingerprint: 7, ..reg.clone() };
    environment.install_binding(&reg, "k", "Gold").unwrap();
    assert_eq!(
        msg(environment.install_binding(&other, "b", "Gold")),
        format!("alias: environment schema {:016x} is stale for registry 0000000000000007", SCHEMA)
    );
    assert_eq!(
        environment.snapshot(&other).unwrap_err().msg,
        format!("alias: environment schema {:016x} is stale for registry 0000000000000007", SCHEMA)
    );
}

#[test]
fn declared_services_shape_the_resolver_contract() {
    let mut reg = registry();
    reg.entries.push(ViewEntry {
        name: "input.entity".to_string(),
        role: EntryRole::Service {
            declaration: DeclId(0xab),
            version: 5,
            input_unit: true,
            output: Some(AliasCarrier::Entity),
        },
    });
    let mut environment = AliasEnvironment::for_registry(&reg);
    environment
        .install_resolver(&reg, "here", "input.entity", &pairs(&[("entity", "0")]))
        .unwrap();
    assert_eq!(
        environment.iter()[0].1.describe(),
        "resolver input.entity (entity, service 5 declaration 00000000000000ab, input v1)"
    );
    let text = environment.encode();
    assert!(text.contains("\t00000000000000ab@5\t"), "{}", text);
    assert_eq!(AliasEnvironment::load_text(&text, "p", &reg).unwrap(), environment);

    let mut shadowed = registry();
    shadowed.entries.push(ViewEntry { name: "input.mask".to_string(), role: EntryRole::Other });
    let mut environment = AliasEnvironment::for_registry(&shadowed);
    assert_eq!(
        environment
            .install_resolver(&shadowed, "m", "input.mask", &pairs(&[("mask", "1 1 1")]))
            .unwrap_err()
            .msg,
        "alias: resolver 'input.mask' is shadowed by a non-service declaration"
    );
}

#[test]
fn migration_follows_bindings_and_drops_removed_names() {
    let old = registry();
    let mut environment = AliasEnvironment::for_registry(&old);
    environment.install_binding(&old, "focus", "Gold").unwrap();
    environment.install_mask(&old, "hot", &spelled(&["1", "0", "1"])).unwrap();
    let mut new = registry();
    new.fingerprint = SCHEMA + 9;
    new.entries[0].name = "Silver".to_string();
    let bindings = vec![("gold".to_string(), "Silver".to_string())];
    let migrated = environment.migrate_schema(&old, &new, &bindings, &[]).unwrap();
    assert_eq!(migrated.version(), environment.version() + 1);
    assert_eq!(migrated.schema(), SCHEMA + 9);
    assert_eq!(
        migrated.iter()[0].1,
        AliasTarget::Binding { binding: "Silver".to_string(), carrier: AliasCarrier::Number, schema: SCHEMA + 9 }
    );

    let dropped = environment.migrate_schema(&old, &new, &bindings, &["hot".to_string()]).unwrap();
    assert_eq!(dropped.iter().len(), 1);

    let error = environment.migrate_schema(&old, &new, &[], &[]).unwrap_err();
    assert_eq!(error.msg, "alias: '^focus' targets removed binding 'Gold'");
}

#[test]
fn registered_resolvers_and_targets_answer_exactly() {
    let spec = resolver_spec("deictic.world").unwrap();
    assert_eq!(spec.resolver, Resolver::DeicticWorld);
    assert_eq!(spec.carrier, AliasCarrier::Mask);
    assert_eq!(spec.service, 1);
    assert_eq!(spec.resolver.id(), "deictic.world");
    assert!(resolver_spec("deictic.World").is_none());

    let target = AliasTarget::Resolver {
        resolver: "input.entity".to_string(),
        carrier: AliasCarrier::Entity,
        service: 1,
        service_declaration: None,
        schema: SCHEMA,
        input: HostInput { version: 4, pairs: vec![("entity".to_string(), "1".to_string())] },
    };
    assert_eq!(target.carrier(), AliasCarrier::Entity);
    assert_eq!(target.provenance(None), "resolver 'input.entity' service 1 input v4");
}

#[test]
fn a_binding_named_in_another_case_still_reads_back_from_its_sidecar() {
    let reg = registry();
    let mut environment = AliasEnvironment::for_registry(&reg);
    environment.install_binding(&reg, "Focus", "GOLD").unwrap();
    environment.install_mask(&reg, "hot", &spelled(&["0", "-0", "1"])).unwrap();
    assert!(environment.delete("hot"));
    environment.install_mask(&reg, "cold", &spelled(&["1", "1", "0"])).unwrap();
    let entries = listing(&environment);
    assert_eq!(entries[0].0, "cold");
    assert_eq!(entries[1].0, "focus");
    match &entries[1].1 {
        AliasTarget::Binding { binding, .. } => assert_eq!(binding, "Gold"),
        other => panic!("unexpected target {:?}", other),
    }
    let text = environment.encode();
    let loaded = AliasEnvironment::load(&read(&text), "world.reg.aliases", &reg).unwrap();
    assert_eq!(loaded, environment);
}
