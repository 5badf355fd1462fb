use steel::emit::audit_relationship_writes;

fn mentor() -> Vec<(String, bool)> {
    vec![("Mentor".to_string(), true)]
}

#[test]
fn relationship_writes_reconcile_against_the_emitted_text() {
    let reg = mentor();
    let sealed = "anoRelStage0 ← t0\n\"relationship Mentor\" ! 1\nmentor ↩ anoRelStage0\n";
    assert!(audit_relationship_writes(sealed, &reg, 1).is_ok());
    let bare = "mentor ↩ t0\n";
    let refusal = audit_relationship_writes(bare, &reg, 0).expect_err("bare write").msg;
    assert!(refusal.contains("'Mentor' is written outside the validity seal"), "{}", refusal);
    let unpublished = audit_relationship_writes("anoRelStage0 ← t0\n", &reg, 1)
        .expect_err("unpublished stage")
        .msg;
    assert!(unpublished.contains("1 relationship writes were staged"), "{}", unpublished);
}

#[test]
fn a_write_cannot_hide_from_the_reconciliation() {
    let reg = mentor();
    let nested = "t0 ← {mentor ↩ 𝕩}¨fib\n";
    let refusal = audit_relationship_writes(nested, &reg, 0).expect_err("write in a lambda").msg;
    assert!(refusal.contains("'Mentor' is written outside the validity seal"), "{}", refusal);
    let sequenced = "t0 ← ⟨⟩ ⋄ mentor ↩ t1\n";
    assert!(audit_relationship_writes(sequenced, &reg, 0).is_err(), "sequenced write");
    let doubled = "anoRelStage0 ← t0\nmentor ↩ anoRelStage0\nmentor ↩ anoRelStage0\n";
    assert!(audit_relationship_writes(doubled, &reg, 2).is_err(), "doubled publication");
    let lookalike = "mentor ↩ anoRelStage0b\n";
    assert!(audit_relationship_writes(lookalike, &reg, 1).is_err(), "lookalike stage");
    let other = "anoRelStage0 ← t0\nmentor ↩ anoRelStage0\npres_mentor ↩ t1\namentor ↩ t2\n";
    assert!(audit_relationship_writes(other, &reg, 1).is_ok(), "neighbouring names");
}

#[test]
fn audit_refusal_texts_are_exact() {
    let reg = mentor();
    assert_eq!(
        audit_relationship_writes("mentor ↩ t0\n", &reg, 0).unwrap_err().msg,
        "emit: relationship 'Mentor' is written outside the validity seal"
    );
    let two = "mentor ↩ anoRelStage1\n";
    let d = audit_relationship_writes(two, &reg, 3).unwrap_err();
    assert_eq!(d.msg, "emit: 3 relationship writes were staged but 1 reached the world");
    assert_eq!(d.code, 2);
    // a serial past the number staged is no staged binding
    assert!(audit_relationship_writes("mentor ↩ anoRelStage3\n", &reg, 3).is_err());
}

#[test]
fn audit_names_variables_by_legality_and_watches_only_relationships() {
    // a name that is no legal BQN identifier is published as jp<index>
    let reg = vec![("Tag".to_string(), false), ("my-rel".to_string(), true)];
    assert!(audit_relationship_writes("jp1 ↩ anoRelStage0\n", &reg, 1).is_ok());
    assert!(audit_relationship_writes("jp1 ↩ t9\n", &reg, 0).is_err());
    // an entry that is not watched may be written freely
    assert!(audit_relationship_writes("tag ↩ 5\n", &reg, 0).is_ok());
    // every staged binding must arrive, in any order
    let two = vec![("Mentor".to_string(), true), ("Boss".to_string(), true)];
    let text = "boss ↩ anoRelStage1\nmentor ↩ anoRelStage0\n";
    assert!(audit_relationship_writes(text, &two, 2).is_ok());
    // a binding published by one relation cannot be published again by another
    let stolen = "mentor ↩ anoRelStage0\nboss ↩ anoRelStage0\n";
    assert_eq!(
        audit_relationship_writes(stolen, &two, 2).unwrap_err().msg,
        "emit: relationship 'Boss' is written outside the validity seal"
    );
}
