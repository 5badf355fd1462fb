use steel::lex::{lex, NumText};
use steel::{Interner, TokKind};

fn kinds_of(src: &[u8], ja: bool) -> Vec<TokKind> {
    let mut it = Interner::new();
    lex(src, ja, &mut it).unwrap().kind
}

fn refusal(src: &[u8], ja: bool) -> String {
    let mut it = Interner::new();
    lex(src, ja, &mut it).err().unwrap().msg
}

#[test]
fn every_stream_ends_in_exactly_one_eof() {
    for (src, ja) in [
        (&b""[..], false),
        (b"\n\n", false),
        (b"a b\nc", false),
        ("a\n\u{306b}\nb".as_bytes(), true),
        ("x \u{306b} 1 \u{305f}\u{3059}".as_bytes(), true),
    ] {
        let k = kinds_of(src, ja);
        assert_eq!(k.last(), Some(&TokKind::Eof));
        assert_eq!(k.iter().filter(|x| **x == TokKind::Eof).count(), 1);
    }
}

#[test]
fn ascii_separators_never_lead_double_or_trail() {
    let k = kinds_of(b"\n\na\n\n\nb\n\n", false);
    assert_eq!(k, vec![TokKind::Name, TokKind::Nl, TokKind::Name, TokKind::Eof]);
    let mut it = Interner::new();
    let t = lex(b"\n\n", false, &mut it).unwrap();
    assert_eq!(t.kind, vec![TokKind::Eof]);
    assert_eq!(t.line, vec![1]);
}

#[test]
fn eof_carries_the_last_token_line() {
    let mut it = Interner::new();
    let t = lex(b"a\n\nb\n", false, &mut it).unwrap();
    assert_eq!(t.line, vec![1, 1, 3, 3]);
}

#[test]
fn target_marker_alone_on_a_line_leaves_no_extra_separator() {
    let k = kinds_of("a\n\u{306b}\nb".as_bytes(), true);
    assert_eq!(k, vec![TokKind::Name, TokKind::Nl, TokKind::Name, TokKind::Eof]);
    let k = kinds_of("\u{306b}\na".as_bytes(), true);
    assert_eq!(k, vec![TokKind::Name, TokKind::Eof]);
    let k = kinds_of("a\n\u{306b}".as_bytes(), true);
    assert_eq!(k, vec![TokKind::Name, TokKind::Eof]);
}

#[test]
fn postfix_assignment_reroots_before_its_operand() {
    let mut it = Interner::new();
    let t = lex("x 1 \u{305f}\u{3059}".as_bytes(), true, &mut it).unwrap();
    assert_eq!(t.kind, vec![TokKind::Name, TokKind::PlusEq, TokKind::Num, TokKind::Eof]);
    let t = lex("x \u{306b} 1 \u{305f}\u{3059}".as_bytes(), true, &mut it).unwrap();
    assert_eq!(t.kind, vec![TokKind::Name, TokKind::PlusEq, TokKind::Num, TokKind::Eof]);
    let t = lex("a \u{306e} b 1 \u{3088}\u{308a}".as_bytes(), true, &mut it).unwrap();
    assert_eq!(t.kind[0], TokKind::Name);
}

#[test]
fn postfix_without_operand_refuses() {
    assert_eq!(refusal("\u{306a}\u{3044}".as_bytes(), true), "line 1: postfix operator with no operand");
    assert_eq!(refusal("a\n\u{306a}\u{3044}".as_bytes(), true), "line 2: postfix operator with no operand");
}

#[test]
fn japanese_numerals_keep_their_text() {
    let mut it = Interner::new();
    let t = lex("\u{4e09}\u{30f6}\u{6708}".as_bytes(), true, &mut it).unwrap();
    assert_eq!(t.kind[0], TokKind::Counter);
    assert_eq!(it.resolve(t.name[0]), "mo");
    assert_eq!(t.num[0], NumText::JaDigits(vec![3]));
    let t = lex("\u{516d}\u{5341}".as_bytes(), true, &mut it).unwrap();
    assert_eq!(t.num[0], NumText::JaCount(60));
    let t = lex("\u{4e5d}\u{5343}\u{4e5d}\u{767e}\u{4e5d}\u{5341}\u{4e5d}".as_bytes(), true, &mut it).unwrap();
    assert_eq!(t.num[0], NumText::JaCount(9999));
    let t = lex("\u{4e00}\u{30fb}\u{3007}\u{4e94}".as_bytes(), true, &mut it).unwrap();
    assert_eq!(t.num[0], NumText::JaDecimal(vec![1], vec![0, 5]));
    let t = lex("42".as_bytes(), true, &mut it).unwrap();
    assert_eq!(t.num[0], NumText::Digits(b"42".to_vec()));
}

#[test]
fn ascii_numbers_and_counters() {
    let mut it = Interner::new();
    let t = lex(b"12.5 3mo", false, &mut it).unwrap();
    assert_eq!(t.kind, vec![TokKind::Num, TokKind::Counter, TokKind::Eof]);
    assert_eq!(t.num[0], NumText::Digits(b"12.5".to_vec()));
    assert_eq!(t.num[1], NumText::Digits(b"3".to_vec()));
    assert_eq!(it.resolve(t.name[1]), "mo");
    let long = "9".repeat(64);
    assert_eq!(refusal(long.as_bytes(), false), "line 1: number too long");
}

#[test]
fn ascii_refusals_name_their_line() {
    assert_eq!(refusal(b"\"abc", false), "line 1: unterminated string");
    assert_eq!(refusal(b"x\n_y", false), "line 2: names cannot start with '_'");
    assert_eq!(refusal(b"'", false), "line 1: stray tick: ' is postfix on a name");
    assert_eq!(refusal(b"\\", false), "line 1: stray '\\': scans are +\\ -\\ *\\ /\\ &\\ |\\ #\\ or name\\ glued");
    assert_eq!(refusal(b"$", false), "line 1: unknown byte 0x24");
    assert_eq!(refusal("\u{3000}".as_bytes(), false), "line 1: unknown character U+3000");
    assert_eq!(refusal(b":", false), "line 1: ':' needs a name: symbols are :Name");
}

#[test]
fn malformed_utf8_is_refused_at_its_physical_line() {
    assert_eq!(refusal(b"a\n\n\xff", false), "line 3: malformed UTF-8");
    assert_eq!(refusal(b"a\xc0\x80", true), "line 1: malformed UTF-8");
}

#[test]
fn bytes_after_a_nul_are_invisible() {
    assert_eq!(kinds_of(b"a\0$", false), vec![TokKind::Name, TokKind::Eof]);
}

#[test]
fn names_ticks_keywords_and_sigils() {
    let mut it = Interner::new();
    let t = lex(b"a' def til :sym ^al \"s t\" _", false, &mut it).unwrap();
    assert_eq!(
        t.kind,
        vec![
            TokKind::Name, TokKind::Tick, TokKind::Def, TokKind::Iota, TokKind::Sym,
            TokKind::Alias, TokKind::Str, TokKind::Wild, TokKind::Eof,
        ]
    );
    assert_eq!(it.resolve(t.name[4]), "sym");
    assert_eq!(it.resolve(t.name[5]), "al");
    assert_eq!(it.resolve(t.name[6]), "s t");
}

#[test]
fn fused_reducers_and_compound_assignment() {
    let mut it = Interner::new();
    let t = lex(b"max/ x max/= 2 gold\\ y", false, &mut it).unwrap();
    assert_eq!(
        t.kind,
        vec![
            TokKind::Fold, TokKind::Name, TokKind::Name, TokKind::SlashEq, TokKind::Num,
            TokKind::ScanOp, TokKind::Name, TokKind::Eof,
        ]
    );
    assert_eq!(it.resolve(t.name[0]), "max");
    assert_eq!(it.resolve(t.name[5]), "gold");
}

#[test]
fn japanese_words_and_refusals() {
    let mut it = Interner::new();
    let t = lex("max/ \u{5b9a}\u{7fa9} def".as_bytes(), true, &mut it).unwrap();
    assert_eq!(t.kind, vec![TokKind::Fold, TokKind::Def, TokKind::Def, TokKind::Eof]);
    assert_eq!(it.resolve(t.name[0]), "max");
    assert_eq!(refusal(b"gold!", true), "line 1: unknown word 'gold!'");
    let long = "a".repeat(128);
    assert_eq!(refusal(long.as_bytes(), true), "line 1: word too long");
    let t = lex("a\u{3000}b".as_bytes(), true, &mut it).unwrap();
    assert_eq!(t.kind, vec![TokKind::Name, TokKind::Name, TokKind::Eof]);
}

#[test]
fn lexing_stops_at_the_first_nul_and_refuses_malformed_utf8_by_line() {
    assert_eq!(refusal(b"a\n\xff", false), "line 2: malformed UTF-8");
    assert_eq!(refusal(b"a\nb\n\xed\xa0\x80", false), "line 3: malformed UTF-8");
    assert_eq!(kinds_of(b"a\x00\xff\xff", false), vec![TokKind::Name, TokKind::Eof]);
}

#[test]
fn end_marker_takes_the_last_tokens_line_and_lines_never_fall() {
    let mut it = Interner::new();
    let toks = lex(b"a\n\n b\n c d\n\n", false, &mut it).unwrap();
    let n = toks.kind.len();
    assert_eq!(toks.kind[n - 1], TokKind::Eof);
    assert_eq!(toks.line[n - 1], toks.line[n - 2]);
    assert_eq!(toks.line[n - 1], 4);
    for i in 1..n {
        assert!(toks.line[i - 1] <= toks.line[i]);
    }
    let mut it = Interner::new();
    let empty = lex(b"\n \n\t\n", false, &mut it).unwrap();
    assert_eq!(empty.kind, vec![TokKind::Eof]);
    assert_eq!(empty.line, vec![1]);
}
