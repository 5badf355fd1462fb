use steel::alias::LookupMode;
use steel::emit::{
    bind_kind_str, bqnlegal, clip399, fail, g_and, ident_char, lc, mentions_bqn_name, moved,
    scan_domain_join, scan_order_join, spelled, staged_serial, verb_target, Ev, Frame, FrameKind,
    SemanticCarrier,
};
use steel::BindKind;

fn ev(domain: Option<&str>, along: Option<&str>, unit: bool) -> Ev {
    Ev {
        v: String::new(),
        g: None,
        gv: false,
        pair: false,
        unit,
        sym: false,
        along: along.map(|s| s.to_string()),
        domain: domain.map(|s| s.to_string()),
        rel_ent: None,
    }
}

#[test]
fn clipping_keeps_whole_characters_within_399_bytes() {
    assert_eq!(clip399("abc"), "abc");
    assert_eq!(clip399(&"a".repeat(500)), "a".repeat(399));
    assert_eq!(clip399(&"\u{e9}".repeat(300)), "\u{e9}".repeat(199));
}

#[test]
fn emit_refusals_carry_their_line() {
    let d = fail(3, "boom");
    assert_eq!(d.msg, "emit: line 3: boom");
    assert_eq!(d.code, 2);
}

#[test]
fn bqn_identifiers() {
    assert!(bqnlegal("a1_"));
    assert!(!bqnlegal("1a"));
    assert!(!bqnlegal(""));
    assert!(!bqnlegal("a\u{e9}"));
    assert!(ident_char('_'));
    assert!(!ident_char('-'));
    assert!(mentions_bqn_name("", ""));
    assert!(!mentions_bqn_name("ab", ""));
    assert!(mentions_bqn_name("x t1", "t1"));
}

#[test]
fn first_letter_lowercase() {
    assert_eq!(lc("Gold"), "gold");
    assert_eq!(lc(""), "");
    assert_eq!(lc("\u{c9}A"), "\u{c9}A");
}

#[test]
fn guard_conjunction() {
    assert_eq!(g_and(None, Some("b".to_string())), Some("b".to_string()));
    assert_eq!(g_and(Some("a".to_string()), None), Some("a".to_string()));
    assert_eq!(g_and(None, None), None);
    assert_eq!(g_and(Some("a".to_string()), Some("b".to_string())), Some("(a)\u{2227}(b)".to_string()));
}

#[test]
fn scan_domains_join_or_refuse() {
    let same = scan_domain_join(&ev(Some("d1"), None, false), &ev(Some("d1"), None, false), None, 7);
    assert_eq!(same.unwrap(), Some("d1".to_string()));
    let apart = scan_domain_join(&ev(Some("d1"), None, false), &ev(Some("d2"), None, false), None, 7);
    assert_eq!(apart.err().unwrap().msg, "emit: line 7: values from distinct scan domains cannot compose");
    let scalar = scan_domain_join(&ev(Some("d1"), None, false), &ev(None, None, true), None, 7);
    assert_eq!(scalar.unwrap(), Some("d1".to_string()));
    let implicit = scan_domain_join(&ev(None, None, false), &ev(Some("d1"), None, false), Some("d1"), 7);
    assert_eq!(implicit.unwrap(), Some("d1".to_string()));
    let bare = scan_domain_join(&ev(Some("d1"), None, false), &ev(None, None, false), Some("d2"), 9);
    assert_eq!(bare.err().unwrap().msg, "emit: line 9: scan value composed against a value without its row domain");
    assert_eq!(scan_domain_join(&ev(None, None, false), &ev(None, None, false), None, 1).unwrap(), None);
}

#[test]
fn scan_orders_join_or_refuse() {
    let same = scan_order_join(&ev(None, Some("o"), false), &ev(None, Some("o"), false), 2);
    assert_eq!(same.unwrap(), Some("o".to_string()));
    let scalar = scan_order_join(&ev(None, None, true), &ev(None, Some("o"), false), 2);
    assert_eq!(scalar.unwrap(), Some("o".to_string()));
    let bad = scan_order_join(&ev(None, Some("o"), false), &ev(None, None, false), 2);
    assert_eq!(bad.err().unwrap().msg, "emit: line 2: scan-along composed against a differently-ordered operand");
}

#[test]
fn verb_targets_read_like_sscanf() {
    assert_eq!(verb_target("  \tfoo bar"), "foo");
    assert_eq!(verb_target(""), "");
    let long = "x".repeat(70);
    assert_eq!(verb_target(&long), "x".repeat(63));
}

#[test]
fn staged_serials() {
    assert_eq!(staged_serial("anoRelStage12"), Some(12));
    assert_eq!(staged_serial("anoRelStage3 \u{2190}"), Some(3));
    assert_eq!(staged_serial("anoRelStage12x"), None);
    assert_eq!(staged_serial("anoRelStage"), None);
    assert_eq!(staged_serial("other7"), None);
    assert_eq!(staged_serial("anoRelStage99999999999999999999999"), None);
}

#[test]
fn spellings_and_carriers() {
    assert_eq!(bind_kind_str(BindKind::Mask), "mask");
    assert_eq!(bind_kind_str(BindKind::Vec), "vec");
    assert_eq!(SemanticCarrier::Other.name(), "value");
    assert_eq!(SemanticCarrier::Other.rank(), 4);
    assert_eq!(SemanticCarrier::Mask.rank(), 0);
    assert_eq!(spelled("x", LookupMode::DynamicAliasThenBare), "^x");
    assert_eq!(spelled("x", LookupMode::Bare), "x");
    assert!(moved("a", "b", LookupMode::DynamicAliasThenBare));
    assert!(!moved("a", "a", LookupMode::DynamicAliasThenBare));
    assert!(!moved("a", "b", LookupMode::Bare));
    let f = Frame::ent();
    assert_eq!(f.kind, FrameKind::Ent);
    assert_eq!((f.w, f.h, f.lit.as_str()), (0, 0, ""));
}
