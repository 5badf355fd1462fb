use steel::alias::AliasCarrier;
use steel::overlay::EntryRole;
use steel::registry_model::{registry_fingerprint, EntryKindModel, EntryModel, RegistryModel};
use steel::{ColType, Reap};

fn bits(v: &[f64]) -> Vec<u64> {
    v.iter().map(|x| x.to_bits()).collect()
}

fn registry() -> RegistryModel {
    RegistryModel {
        n: 3,
        lat_w: 0,
        lat_h: 0,
        ents: vec![
            EntryModel {
                name: "Gold".to_string(),
                defval: 0.0f64.to_bits(),
                kind: EntryKindModel::Col {
                    ty: ColType::Num,
                    uniq: false,
                    nums: bits(&[1.0, 2.0, 3.0]),
                    syms: Vec::new(),
                    pres: None,
                    rng: None,
                },
            },
            EntryModel { name: "Blast".to_string(), defval: 0.0f64.to_bits(), kind: EntryKindModel::Fn { body: None } },
        ],
        aliases: Vec::new(),
        roles: Vec::new(),
        reap: None,
    }
}

fn set_col<F: FnOnce(&mut Vec<u64>, &mut Option<Vec<u64>>, &mut Option<(u64, u64)>)>(r: &mut RegistryModel, f: F) {
    match &mut r.ents[0].kind {
        EntryKindModel::Col { nums, pres, rng, .. } => f(nums, pres, rng),
        _ => unreachable!(),
    }
}

#[test]
fn schema_fingerprint_ignores_world_values_and_covers_descriptors() {
    let reg = registry();
    let schema = registry_fingerprint(&reg);

    let mut world_update = reg.clone();
    let mut signed_zero = reg.clone();
    signed_zero.ents[0].defval = (-0.0f64).to_bits();
    assert_eq!(registry_fingerprint(&signed_zero), schema);

    world_update.n = 4;
    set_col(&mut world_update, |nums, _, _| *nums = bits(&[9.0, 8.0, 7.0, 6.0]));
    assert_eq!(registry_fingerprint(&world_update), schema);

    let mut legacy_pair = reg.clone();
    set_col(&mut legacy_pair, |nums, _, _| *nums = bits(&[9.0, 8.0, 7.0, 6.0, 5.0, 4.0]));
    assert_eq!(registry_fingerprint(&legacy_pair), schema);

    let mut changed = reg.clone();
    changed.ents[0].defval = 1.0f64.to_bits();
    assert_ne!(registry_fingerprint(&changed), schema);

    let mut changed = reg.clone();
    set_col(&mut changed, |_, pres, _| *pres = Some(bits(&[1.0; 3])));
    assert_ne!(registry_fingerprint(&changed), schema);

    let mut changed = reg.clone();
    set_col(&mut changed, |_, _, rng| *rng = Some((0.0f64.to_bits(), 10.0f64.to_bits())));
    assert_ne!(registry_fingerprint(&changed), schema);

    let mut changed = reg.clone();
    match &mut changed.ents[1].kind {
        EntryKindModel::Fn { body } => *body = Some("{𝕨+𝕩}".into()),
        _ => unreachable!(),
    }
    assert_ne!(registry_fingerprint(&changed), schema);

    let mut changed = reg.clone();
    changed.reap = Some(Reap::Host);
    assert_ne!(registry_fingerprint(&changed), schema);
}

#[test]
fn fingerprint_of_the_empty_registry_is_fixed() {
    let empty = RegistryModel { n: 0, lat_w: 0, lat_h: 0, ents: Vec::new(), aliases: Vec::new(), roles: Vec::new(), reap: None };
    // FNV-1a over the tag, two zero lattice sizes, two zero list lengths and the reap byte
    let mut h: u64 = 0xcbf29ce484222325;
    let mut bytes: Vec<u8> = b"ano-schema-fingerprint-v2".to_vec();
    bytes.extend_from_slice(&[0u8; 8]);
    bytes.extend_from_slice(&[0u8; 16]);
    bytes.push(0);
    for b in bytes {
        h ^= b as u64;
        h = h.wrapping_mul(0x100000001b3);
    }
    assert_eq!(registry_fingerprint(&empty), h);
}

#[test]
fn overlay_view_carries_the_schema_rows_and_roles() {
    let reg = registry();
    let view = reg.overlay_view();
    assert_eq!(view.fingerprint, registry_fingerprint(&reg));
    assert_eq!(view.rows, 3);
    assert_eq!(view.entries.len(), 2);
    assert_eq!(view.entries[0].name, "Gold");
    assert!(matches!(view.entries[0].role, EntryRole::Value(AliasCarrier::Number)));
    assert_eq!(view.entries[1].name, "Blast");
    assert!(matches!(view.entries[1].role, EntryRole::Other));

    let mut empty = reg.clone();
    empty.n = -2;
    assert_eq!(empty.overlay_view().rows, 0);
}
