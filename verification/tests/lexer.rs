use steel::lex::{lex, lex_reserved, lex_reserved_fold};
use steel::{Interner, TokKind};

#[test]
fn reserved_words() {
    assert!(lex_reserved("til"));
    assert!(lex_reserved("max"));
    assert!(lex_reserved("\u{7dcf}\u{548c}"));
    assert!(lex_reserved("|>"));
    assert!(lex_reserved("<-"));
    assert!(lex_reserved("_"));
    assert!(lex_reserved("'"));
    assert!(lex_reserved("42"));
    assert!(lex_reserved("3.5"));
    assert!(lex_reserved("\u{516d}\u{5341}"));
    assert!(lex_reserved("\u{4e09}\u{30f6}\u{6708}"));
    assert!(!lex_reserved("Til"));
    assert!(!lex_reserved("gold"));
    assert!(!lex_reserved("3x"));
    assert!(!lex_reserved("\u{30f6}\u{6708}"));
    assert!(lex_reserved_fold("Til"));
    assert!(lex_reserved_fold("MAX"));
    assert!(lex_reserved_fold("til"));
    assert!(!lex_reserved_fold("gold"));
    assert!(!lex_reserved_fold("Gold"));
    let long = "A".repeat(256);
    assert!(!lex_reserved_fold(&long));
}

#[test]
fn count_scan_is_native() {
    let mut interner = Interner::new();
    let tokens = lex(b"#\\ Value", false, &mut interner).unwrap();
    assert_eq!(tokens.kind[0], TokKind::ScanOp);
    assert_eq!(interner.resolve(tokens.name[0]), "#");
}

#[test]
fn japanese_reducer_scans_are_native() {
    for (word, op) in [("累数", "#"), ("累小", "min"), ("累平均", "avg")] {
        let mut interner = Interner::new();
        let source = format!("{} 値", word);
        let tokens = lex(source.as_bytes(), true, &mut interner).unwrap();
        assert_eq!(tokens.kind[0], TokKind::ScanOp);
        assert_eq!(interner.resolve(tokens.name[0]), op);
    }
}

#[test]
fn retired_scan2_is_only_an_identifier() {
    let mut interner = Interner::new();
    let tokens = lex(b"scan2", false, &mut interner).unwrap();
    assert_eq!(tokens.kind[0], TokKind::Name);
    let mut japanese = Interner::new();
    let tokens = lex("二重走査".as_bytes(), true, &mut japanese).unwrap();
    assert_eq!(tokens.kind[0], TokKind::Name);
}

// Inputs: source, skin. Output: (kinds, resolved names) — the surface pins read both.
fn lexed(src: &[u8], ja: bool) -> (Vec<TokKind>, Vec<String>) {
    let mut it = Interner::new();
    let toks = lex(src, ja, &mut it).unwrap();
    let kinds = toks.kind.clone();
    let names = (0..kinds.len()).map(|i| it.resolve(toks.name[i]).to_string()).collect();
    (kinds, names)
}

#[test]
fn caret_lexes_dynamic_alias_request() {
    let (kinds, names) = lexed(b"^Whiterun , +Tagged", false);
    assert_eq!(&kinds[..4], &[TokKind::Alias, TokKind::Comma, TokKind::Plus, TokKind::Name]);
    assert_eq!(names[0], "Whiterun");
}

#[test]
fn bang_caret_is_two_tokens() {
    let (kinds, names) = lexed(b"Bandit & !^Dead", false);
    assert_eq!(&kinds[..4], &[TokKind::Name, TokKind::Amp, TokKind::Bang, TokKind::Alias]);
    assert_eq!(names[3], "Dead");
}

#[test]
fn lone_caret_refuses_ascii() {
    for src in [&b"^"[..], b"^ x", b"^(x)", b"^1"] {
        let mut it = Interner::new();
        let d = lex(src, false, &mut it).err().unwrap();
        assert_eq!(d.msg, "line 1: '^' begins only the ^alias sigil");
    }
}

#[test]
fn lone_caret_refuses_japanese() {
    let mut it = Interner::new();
    let d = lex("^".as_bytes(), true, &mut it).err().unwrap();
    assert_eq!(d.msg, "line 1: unknown word '^'");
}

#[test]
fn ja_caret_word_lexes_alias() {
    let (kinds, names) = lexed("^世界".as_bytes(), true);
    assert_eq!(kinds[0], TokKind::Alias);
    assert_eq!(names[0], "世界");
}

#[test]
fn caret_after_name_is_juxtaposition() {
    let (kinds, names) = lexed(b"a^b", false);
    assert_eq!(&kinds[..2], &[TokKind::Name, TokKind::Alias]);
    assert_eq!(names[0], "a");
    assert_eq!(names[1], "b");
}

#[test]
fn subtraction_and_division_fuse_into_fold_and_scan() {
    for (src, kind, name) in [
        (&b"-/ x"[..], TokKind::Fold, "-"),
        (&b"-\\ x"[..], TokKind::ScanOp, "-"),
        (&b"/\\ x"[..], TokKind::ScanOp, "/"),
    ] {
        let (kinds, names) = lexed(src, false);
        assert_eq!(kinds[0], kind, "{}", String::from_utf8_lossy(src));
        assert_eq!(names[0], name, "{}", String::from_utf8_lossy(src));
        assert_eq!(kinds[1], TokKind::Name);
    }
}

#[test]
fn minus_and_slash_keep_their_bare_and_compound_readings() {
    let (kinds, _) = lexed(b"a - b / c -= 1 /= 2", false);
    assert_eq!(
        &kinds[..9],
        &[
            TokKind::Name, TokKind::Minus, TokKind::Name, TokKind::Slash, TokKind::Name,
            TokKind::MinusEq, TokKind::Num, TokKind::SlashEq, TokKind::Num,
        ]
    );
    let (kinds, _) = lexed(b"a // b", false);
    assert_eq!(&kinds[..4], &[TokKind::Name, TokKind::Slash, TokKind::Slash, TokKind::Name]);
}

#[test]
fn bare_hash_still_refuses() {
    for src in [&b"#"[..], b"# /", b"a # b"] {
        let mut it = Interner::new();
        let d = lex(src, false, &mut it).err().unwrap();
        assert_eq!(d.msg, "line 1: '#' begins only '#/' or '#\\'");
    }
}

#[test]
fn bang_never_joins_identifiers() {
    let (kinds, _) = lexed(b"a!b", false);
    assert_eq!(&kinds[..3], &[TokKind::Name, TokKind::Bang, TokKind::Name]);
    let (kinds, _) = lexed(b"a != b", false);
    assert_eq!(&kinds[..3], &[TokKind::Name, TokKind::Ne, TokKind::Name]);
}
