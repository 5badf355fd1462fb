use steel::registry_model::{patch_lines_of, save_line, save_patch, save_words_of, EntryKindModel, EntryModel, RegistryModel};
use steel::ColType;

fn values(line: &[u8]) -> Vec<Option<u64>> {
    save_words_of(line)
        .iter()
        .map(|w| {
            std::str::from_utf8(w)
                .ok()
                .and_then(|s| s.parse::<f64>().ok())
                .filter(|x| x.is_finite())
                .map(|x| x.to_bits())
        })
        .collect()
}

fn apply(reg: &mut RegistryModel, line: &str) -> Result<(), String> {
    let vals = values(line.as_bytes());
    save_line(reg, line.as_bytes(), &vals).map_err(|d| d.msg)
}

fn col(name: &str, ty: ColType) -> EntryModel {
    EntryModel {
        name: name.to_string(),
        defval: 0,
        kind: EntryKindModel::Col { ty, uniq: false, nums: Vec::new(), syms: Vec::new(), pres: None, rng: None },
    }
}

fn world() -> RegistryModel {
    RegistryModel {
        n: 3,
        lat_w: 2,
        lat_h: 2,
        ents: vec![
            col("Gold", ColType::Num),
            col("Tag", ColType::Sym),
            col("Glyph", ColType::Char),
            EntryModel { name: "Mentor".into(), defval: 0, kind: EntryKindModel::Rel { targets: Vec::new(), key_of: None } },
            EntryModel {
                name: "Links".into(),
                defval: 0,
                kind: EntryKindModel::SRel { fib: Vec::new(), inv_of: Some("Mentor".into()), key_of: None },
            },
            EntryModel { name: "Blast".into(), defval: 0, kind: EntryKindModel::Fn { body: None } },
        ],
        aliases: Vec::new(),
        roles: Vec::new(),
        reap: None,
    }
}

fn nums(reg: &RegistryModel, i: usize) -> Vec<f64> {
    match &reg.ents[i].kind {
        EntryKindModel::Col { nums, .. } => nums.iter().map(|b| f64::from_bits(*b)).collect(),
        _ => panic!("not a column"),
    }
}

#[test]
fn save_lines_replace_world_values() {
    let mut reg = world();
    assert_eq!(apply(&mut reg, ""), Ok(()));
    assert_eq!(apply(&mut reg, "col gold 1 2.5 3"), Ok(()));
    assert_eq!(nums(&reg, 0), vec![1.0, 2.5, 3.0]);
    // a pair column carries two values per row
    assert_eq!(apply(&mut reg, "col Gold 1 2 3 4 5 6"), Ok(()));
    assert_eq!(nums(&reg, 0).len(), 6);
    assert_eq!(apply(&mut reg, "pres Gold 1 0 1"), Ok(()));
    assert_eq!(apply(&mut reg, "rel Mentor 1 -1 0"), Ok(()));
    assert_eq!(apply(&mut reg, "srel Links 1 2 | | 0"), Ok(()));
    match &reg.ents[4].kind {
        EntryKindModel::SRel { fib, inv_of, .. } => {
            assert_eq!(fib.len(), 3);
            assert_eq!(fib[0].len(), 2);
            assert!(fib[1].is_empty());
            assert!(inv_of.is_none());
        }
        _ => panic!(),
    }
    assert_eq!(apply(&mut reg, "col Tag a b c"), Ok(()));
    assert_eq!(apply(&mut reg, "col Glyph a b"), Ok(()));
    match &reg.ents[2].kind {
        EntryKindModel::Col { syms, .. } => assert_eq!(syms, &vec!["a b".to_string()]),
        _ => panic!(),
    }
}

#[test]
fn the_row_count_is_set_from_a_value_at_least_zero() {
    let mut reg = world();
    assert_eq!(apply(&mut reg, "n 5"), Ok(()));
    assert_eq!(reg.n, 5);
    assert_eq!(apply(&mut reg, "n 7.9"), Ok(()));
    assert_eq!(reg.n, 7);
    assert_eq!(apply(&mut reg, "n -0"), Ok(()));
    assert_eq!(reg.n, 0);
    assert_eq!(apply(&mut reg, "n 1e12"), Ok(()));
    assert_eq!(reg.n, i32::MAX);
    assert_eq!(apply(&mut reg, "n -1"), Err("save: bad n line".to_string()));
    assert_eq!(apply(&mut reg, "n"), Err("save: bad n line".to_string()));
}

#[test]
fn save_line_refusals_are_exact_and_change_nothing() {
    let cases = [
        ("bogus x", "save: unknown line kind 'bogus'"),
        ("col", "save: col line without a name"),
        ("col Nope 1 2 3", "save: unknown entry 'Nope'"),
        ("field Gold 1", "save: 'Gold' is not a field"),
        ("col Gold 1 2", "save: col Gold: 2 values for 3 rows"),
        ("col Gold 1 x 3", "save: col Gold: bad number 'x'"),
        ("col Tag a b", "save: col Tag: 2 values for 3 rows (an empty sym value has no .reg spelling)"),
        ("col Glyph abcd", "save: col Glyph: 4 glyphs for 3 cells"),
        ("col Glyph  ab", "save: col Glyph: the post-state glyph run has no .reg spelling (empty, boundary whitespace, or a word-boundary '#')"),
        ("col Glyph a #", "save: col Glyph: the post-state glyph run has no .reg spelling (empty, boundary whitespace, or a word-boundary '#')"),
        ("pres Mentor 1 1 1", "save: pres on non-column 'Mentor'"),
        ("pres Gold 1 1", "save: pres Gold: 2 bits for 3 rows"),
        ("pres Gold 1 y 1", "save: pres Gold: bad bit 'y'"),
        ("rel Gold 1 1 1", "save: 'Gold' is not a rel"),
        ("rel Mentor 1 1", "save: rel Mentor: 2 values for 3 rows"),
        ("rel Mentor 1 z 1", "save: rel Mentor: bad index 'z'"),
        ("srel Blast 1", "save: 'Blast' is not an srel"),
        ("srel Links 1 q", "save: srel Links: bad id 'q'"),
    ];
    for (line, msg) in cases {
        let mut reg = world();
        assert_eq!(apply(&mut reg, line), Err(msg.to_string()), "{}", line);
        assert_eq!(nums(&reg, 0), Vec::<f64>::new());
        assert_eq!(reg.n, 3);
    }
}

#[test]
fn a_capture_applies_line_by_line_and_fits_stored_masks() {
    let mut reg = world();
    reg.ents.push(EntryModel { name: "Hot".into(), defval: 0, kind: EntryKindModel::AliasMask { mask: vec![1.0f64.to_bits(); 3] } });
    let cap = b"n 5\ncol Gold 1 2 3 4 5\n\x00col Gold x";
    let vals: Vec<Vec<Option<u64>>> = patch_lines_of(cap).iter().map(|l| values(l)).collect();
    assert_eq!(vals.len(), 3);
    assert!(save_patch(&mut reg, cap, &vals).is_ok());
    assert_eq!(reg.n, 5);
    assert_eq!(nums(&reg, 0), vec![1.0, 2.0, 3.0, 4.0, 5.0]);
    match &reg.ents[6].kind {
        EntryKindModel::AliasMask { mask } => assert_eq!(mask, &vec![1.0f64.to_bits(), 1.0f64.to_bits(), 1.0f64.to_bits(), 0, 0]),
        _ => panic!(),
    }
    // the first refusal stops the capture, earlier lines stay applied
    let cap = b"n 2\ncol Gold 1\ncol Gold 1 2";
    let vals: Vec<Vec<Option<u64>>> = patch_lines_of(cap).iter().map(|l| values(l)).collect();
    assert_eq!(save_patch(&mut reg, cap, &vals).unwrap_err().msg, "save: col Gold: 1 values for 2 rows");
    assert_eq!(reg.n, 2);
}
