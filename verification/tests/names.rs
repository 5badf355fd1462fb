use steel::alias::{canonical_name, names_eq};

#[test]
fn dynamic_alias_name_fold_is_ascii_only() {
    assert_eq!(canonical_name("FoO山"), "foo山");
    assert!(names_eq(&canonical_name("FoO山"), "foo山"));
}

use steel::emit::mentions_bqn_name;

#[test]
fn guard_closure_checks_whole_temp_identifiers() {
    assert!(mentions_bqn_name("(t1∧gold)", "t1"));
    assert!(mentions_bqn_name("t0+t1", "t1"));
    assert!(!mentions_bqn_name("t10+t2", "t1"));
    assert!(!mentions_bqn_name("at1+t1_", "t1"));
}

#[test]
fn sidecar_sits_beside_the_registry() {
    assert_eq!(steel::alias::sidecar_path("w/world.reg"), std::path::PathBuf::from("w/world.reg.aliases"));
}
