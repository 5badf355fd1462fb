use steel::directives::{atoi, dir_line, lossy, parse_directives, trunc_lossy, Cursor};
use steel::{Directives, Expect};

#[test]
fn atoi_reads_like_c() {
    assert_eq!(atoi(b"  -42x"), -42);
    assert_eq!(atoi(b"+7"), 7);
    assert_eq!(atoi(b"abc"), 0);
    assert_eq!(atoi(b"\t\n 12"), 12);
    assert_eq!(atoi(b"99999999999"), i32::MAX);
    assert_eq!(atoi(b"-99999999999"), i32::MIN);
    assert_eq!(atoi(b"99999999999999999999999999"), i32::MAX);
}

#[test]
fn cursor_reads_space_and_tab_words() {
    let mut c = Cursor::new(b"a  b\tc");
    assert_eq!(c.word(), Some(&b"a"[..]));
    assert_eq!(c.rest(), b" b\tc");
    assert_eq!(c.word(), Some(&b"b"[..]));
    assert_eq!(c.word(), Some(&b"c"[..]));
    assert_eq!(c.word(), None);
    let mut d = Cursor::new(b"k   tail  ");
    d.word();
    assert_eq!(d.rest_after_ws(), b"tail  ");
}

#[test]
fn directive_lines() {
    let mut d = Directives::default();
    dir_line(b"registry world", &mut d).unwrap();
    assert_eq!(d.registry, "world");
    dir_line(b"ja", &mut d).unwrap();
    assert!(d.ja);
    dir_line(b"expect-n 5", &mut d).unwrap();
    assert_eq!(d.expect_n, 5);
    dir_line(b"same-tokens   a b  ", &mut d).unwrap();
    assert_eq!(d.same_tokens, "a b  ");
    dir_line(b"expect Gold = 1 2", &mut d).unwrap();
    dir_line(b"expect Gold 3", &mut d).unwrap();
    dir_line(b"out a b", &mut d).unwrap();
    assert_eq!(
        d.expects,
        vec![
            Expect::Col { col: "Gold".into(), vals: vec!["1".into(), "2".into()] },
            Expect::Col { col: "Gold".into(), vals: vec!["3".into()] },
            Expect::Out { vals: vec!["a".into(), "b".into()] },
        ]
    );
    assert!(dir_line(b"", &mut d).is_ok());
}

#[test]
fn directive_refusals() {
    let mut d = Directives::default();
    assert_eq!(dir_line(b"bogus", &mut d).err().unwrap().msg, "directive: unknown key 'bogus'");
    assert_eq!(dir_line(b"registry", &mut d).err().unwrap().msg, "directive: registry needs a name");
    assert_eq!(dir_line(b"expect-n", &mut d).err().unwrap().msg, "directive: expect-n needs a count");
    assert_eq!(dir_line(b"expect", &mut d).err().unwrap().msg, "directive: expect needs a column");
    for _ in 0..64 {
        dir_line(b"out x", &mut d).unwrap();
    }
    assert_eq!(dir_line(b"out y", &mut d).err().unwrap().msg, "directive: too many expects");
    assert_eq!(d.expects.len(), 64);
}

#[test]
fn directive_lines_are_blanked_and_newlines_kept() {
    let mut src = b"--! registry w\nx = 1\n  --! ja \r\n".to_vec();
    let mut d = Directives::default();
    parse_directives(&mut src, &mut d).unwrap();
    assert_eq!(d.registry, "w");
    assert!(d.ja);
    assert_eq!(src, b"              \nx = 1\n          \n".to_vec());
    let mut bad = b"a\n--! nope\n--! ja\n".to_vec();
    let mut d2 = Directives::default();
    assert_eq!(parse_directives(&mut bad, &mut d2).err().unwrap().msg, "directive: unknown key 'nope'");
    assert!(!d2.ja);
}

#[test]
fn raw_bytes_as_text() {
    assert_eq!(lossy(b"a\xffb"), "a\u{fffd}b");
    assert_eq!(trunc_lossy(b"abcdef", 3), "abc");
    assert_eq!(trunc_lossy(b"ab", 3), "ab");
}

use steel::alias::AliasCarrier;
use steel::directives::same_stream;
use steel::lex::{lex, NumText};
use steel::overlay::{EntryRole, RegistryView, ViewEntry};
use steel::{Interner, TokKind, Toks};

fn stream(it: &mut Interner, rows: &[(TokKind, &str, u64)]) -> (Toks, Vec<u64>) {
    let mut t = Toks::new();
    let mut v = Vec::new();
    for (k, name, bits) in rows {
        let s = it.intern(name);
        t.push(*k, s, NumText::Zero, 1);
        v.push(*bits);
    }
    (t, v)
}

fn gold_world() -> RegistryView {
    RegistryView {
        fingerprint: 1,
        rows: 0,
        entries: vec![ViewEntry { name: "Gold".to_string(), role: EntryRole::Value(AliasCarrier::Number) }],
    }
}

#[test]
fn same_stream_skips_separators_and_folds_only_names() {
    let mut it = Interner::new();
    let world = gold_world();
    let (a, av) = stream(
        &mut it,
        &[(TokKind::Name, "gold", 0), (TokKind::Nl, "", 0), (TokKind::Gt, "", 0), (TokKind::Num, "", 7), (TokKind::Eof, "", 0)],
    );
    let (b, bv) = stream(&mut it, &[(TokKind::Name, "GOLD", 0), (TokKind::Gt, "", 0), (TokKind::Num, "", 7), (TokKind::Eof, "", 0)]);
    assert!(same_stream(&a, &b, &av, &bv, &it, &world));

    // without the registry the two spellings name nothing in common
    let empty = RegistryView { fingerprint: 0, rows: 0, entries: Vec::new() };
    assert!(!same_stream(&a, &b, &av, &bv, &it, &empty));

    // a different number
    let (c, cv) = stream(&mut it, &[(TokKind::Name, "gold", 0), (TokKind::Gt, "", 0), (TokKind::Num, "", 8), (TokKind::Eof, "", 0)]);
    assert!(!same_stream(&a, &c, &av, &cv, &it, &world));

    // symbols are values: their spellings never fold
    let (d, dv) = stream(&mut it, &[(TokKind::Sym, "gold", 0)]);
    let (e, ev) = stream(&mut it, &[(TokKind::Sym, "GOLD", 0)]);
    assert!(!same_stream(&d, &e, &dv, &ev, &it, &world));
    let (f, fv) = stream(&mut it, &[(TokKind::Alias, "gold", 0)]);
    let (g, gv) = stream(&mut it, &[(TokKind::Alias, "Gold", 0), (TokKind::Nl, "", 0)]);
    assert!(same_stream(&f, &g, &fv, &gv, &it, &world));

    // one stream running out first
    let (h, hv) = stream(&mut it, &[(TokKind::Name, "gold", 0)]);
    assert!(!same_stream(&a, &h, &av, &hv, &it, &world));
}

#[test]
fn same_stream_over_lexed_text() {
    let mut it = Interner::new();
    let a = lex(b"Gold > 1 , Silver = 0\n\n", false, &mut it).unwrap();
    let b = lex(b"Gold > 1 , Silver = 0", false, &mut it).unwrap();
    let zeros_a = vec![0u64; a.len()];
    let zeros_b = vec![0u64; b.len()];
    let empty = RegistryView { fingerprint: 0, rows: 0, entries: Vec::new() };
    assert!(same_stream(&a, &b, &zeros_a, &zeros_b, &it, &empty));
}
