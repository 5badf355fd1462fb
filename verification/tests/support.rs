use steel::alias::{
    hash_bytes, hash_names, hash_optional_text, hash_text, input_pairs, le_bytes_of,
    parse_service_stamp, service_description, service_stamp_word, text_less, validate_name,
    AliasCarrier, DeclId, HostInput, FNV_OFFSET,
};
use steel::fs::{exe_dir_of, fs_path, strip_os_suffix};
use steel::lex::NumText;
use steel::num::{ci_match, hexval, strip_zeros};
use steel::{Interner, Symbol, TokKind, Toks};

#[test]
fn fnv_hashing_is_exact() {
    assert_eq!(hash_bytes(FNV_OFFSET, b""), FNV_OFFSET);
    assert_eq!(hash_bytes(FNV_OFFSET, b"a"), 0xaf63dc4c8601ec8c);
    assert_eq!(le_bytes_of(0x0102), vec![2, 1, 0, 0, 0, 0, 0, 0]);
    let h = hash_bytes(hash_bytes(FNV_OFFSET, &le_bytes_of(2)), b"ab");
    assert_eq!(hash_text(FNV_OFFSET, "ab"), h);
    assert_eq!(hash_optional_text(FNV_OFFSET, &None), hash_bytes(FNV_OFFSET, &[0]));
    let some = hash_optional_text(FNV_OFFSET, &Some("ab".to_string()));
    assert_eq!(some, hash_text(hash_bytes(FNV_OFFSET, &[1]), "ab"));
    let names = vec!["x".to_string(), "yz".to_string()];
    let expect = hash_text(hash_text(hash_bytes(FNV_OFFSET, &le_bytes_of(2)), "x"), "yz");
    assert_eq!(hash_names(FNV_OFFSET, &names), expect);
    assert_eq!(hash_bytes(hash_bytes(FNV_OFFSET, b"ab"), b"cd"), hash_bytes(FNV_OFFSET, b"abcd"));
}

#[test]
fn resolver_inputs_freeze_sorted() {
    let p = |k: &str, v: &str| (k.to_string(), v.to_string());
    let frozen = input_pairs(&[p("b", "2"), p("a", "1")]).unwrap();
    assert_eq!(frozen, vec![p("a", "1"), p("b", "2")]);
    assert_eq!(input_pairs(&[p("a", "1"), p("a", "2")]).err().unwrap().msg, "alias: duplicate resolver input 'a'");
    assert_eq!(input_pairs(&[p("a=b", "1")]).err().unwrap().msg, "alias: resolver input key cannot contain '='");
    assert_eq!(
        input_pairs(&[p("", "1")]).err().unwrap().msg,
        "alias: resolver input key must be a nonempty single-line token"
    );
    assert_eq!(
        input_pairs(&[p("k", "a\nb")]).err().unwrap().msg,
        "alias: resolver input value must be a nonempty single-line token"
    );
    let input = HostInput { version: 3, pairs: frozen };
    assert_eq!(input.get("b"), Some("2"));
    assert_eq!(input.get("c"), None);
}

#[test]
fn text_order_is_byte_order() {
    assert!(text_less("a", "b"));
    assert!(!text_less("b", "a"));
    assert!(!text_less("a", "a"));
    assert!(text_less("a", "ab"));
    assert!(text_less("Z", "a"));
    assert!(text_less("z", "\u{e9}"));
}

#[test]
fn service_stamps_read_back() {
    let w = service_stamp_word(Some(DeclId(5)), 3);
    assert_eq!(w, "0000000000000005@3");
    assert_eq!(parse_service_stamp(&w), Some((Some(DeclId(5)), 3)));
    assert_eq!(parse_service_stamp("7"), Some((None, 7)));
    assert_eq!(parse_service_stamp("0"), None);
    assert_eq!(service_description(2, Some(DeclId(10))), "2 declaration 000000000000000a");
    assert_eq!(AliasCarrier::parse("vector"), Some(AliasCarrier::Vector));
    assert_eq!(AliasCarrier::Vector.word(), "vector");
    assert_eq!(AliasCarrier::parse("Vector"), None);
    assert!(validate_name("ok", "name").is_ok());
    assert_eq!(validate_name("a\tb", "name").err().unwrap().msg, "alias: name must be a nonempty single-line token");
}

#[test]
fn number_text_helpers() {
    assert!(ci_match(b"INFINITY", 0, b"inf"));
    assert!(ci_match(b"xNaN", 1, b"nan"));
    assert!(!ci_match(b"in", 0, b"inf"));
    assert!(!ci_match(b"in", 5, b"inf"));
    assert_eq!(hexval(b'F'), Some(15));
    assert_eq!(hexval(b'a'), Some(10));
    assert_eq!(hexval(b'g'), None);
    assert_eq!(strip_zeros("1.500"), "1.5");
    assert_eq!(strip_zeros("2.000"), "2");
    assert_eq!(strip_zeros("100"), "100");
    assert_eq!(strip_zeros("0.0"), "0");
}

#[test]
fn interning_and_token_columns() {
    let mut it = Interner::new();
    assert_eq!(it.len(), 1);
    let a = it.intern("gold");
    let b = it.intern("gold");
    assert_eq!(a, b);
    assert_eq!(it.len(), 2);
    assert_eq!(it.resolve(a), "gold");
    assert_eq!(it.resolve(Symbol::empty()), "");
    let mut t = Toks::new();
    assert!(t.is_empty());
    t.push(TokKind::Num, Symbol::empty(), NumText::Zero, 4);
    assert_eq!(t.len(), 1);
    assert_eq!(t.line, vec![4]);
    assert_eq!(TokKind::Eof.c_name(), "T_EOF");
    assert_eq!(TokKind::ScanOp.c_name(), "T_SCANOP");
}

#[test]
fn executable_directories_and_error_texts() {
    assert_eq!(exe_dir_of("/usr/bin/steel").unwrap().s, "/usr/bin");
    assert_eq!(exe_dir_of("/steel").unwrap().s, "/");
    assert!(exe_dir_of("steel").is_none());
    assert_eq!(strip_os_suffix("No such file (os error 2)", Some(2)), "No such file");
    assert_eq!(strip_os_suffix("No such file (os error 2)", Some(3)), "No such file (os error 2)");
    assert_eq!(strip_os_suffix("plain", None), "plain");
    assert!(fs_path("").is_none());
    assert_eq!(fs_path("a/b").unwrap().s, "a/b");
}

#[test]
fn token_table_spellings_are_distinct() {
    let kinds = [
        TokKind::Eof, TokKind::Nl, TokKind::Name, TokKind::Alias, TokKind::Lt, TokKind::Le,
        TokKind::Fold, TokKind::FoldKw, TokKind::ScanOp, TokKind::ScanKw, TokKind::At, TokKind::AtKw,
    ];
    for (i, a) in kinds.iter().enumerate() {
        for (j, b) in kinds.iter().enumerate() {
            assert_eq!(i == j, a.c_name() == b.c_name());
        }
    }
}
