//! Steel: the compiler front half of the ano language — shared types, the interner, the
//! token kinds, the lexer for both surfaces, lexical path values, the dynamic-alias name
//! discipline, the migration-map language, the driver's directive grammar, and the pure
//! helpers of the BQN backend.
use vstd::prelude::*;
use crate::lex::NumText;

pub mod text;
pub mod fs;
pub mod lex;
pub mod alias;
pub mod migration;
pub mod directives;
pub mod emit;
pub mod num;
pub mod overlay;
pub mod registry_model;

verus! {

/// Longest name a registry slot holds, terminator included.
pub const ANO_NAMESZ: usize = 256;

/* ---------- diagnostics ---------- */

/// One diagnostic: a byte-exact message plus the process exit code it carries.
#[derive(Debug, Clone)]
pub struct Diag {
    pub msg: String,
    pub code: i32,
}

impl Diag {
    /// A refusal: the given message with exit code 2, the module-error code.
    pub fn refuse(msg: String) -> (d: Diag)
        ensures
            d.msg@ == msg@,
            d.code == 2,
    {
        Diag { msg, code: 2 }
    }
}

/* ---------- interner ---------- */

/// An interned spelling: an index into one `Interner`'s pool.
#[derive(Debug, Clone, Copy, PartialEq, Eq, Hash)]
pub struct Symbol(pub u32);

impl Symbol {
    /// The interned empty spelling, present in every pool at index 0.
    pub fn empty() -> (s: Symbol)
        ensures
            s.0 == 0,
    {
        Symbol(0)
    }
}

/// A dedup pool: one canonical copy per distinct spelling, in first-encounter order.
///
/// The pool is a vector searched from the front, not a map keyed by spelling: vstd's
/// specification of std's hash and ordered maps says nothing usable for `String` keys,
/// whose hashing and comparison Verus does not read, so a lookup through such a map would
/// prove nothing about which symbol comes back. Interning is therefore linear in the pool.
#[derive(Debug, Clone)]
pub struct Interner {
    spellings: Vec<String>,
}

impl View for Interner {
    type V = Seq<Seq<char>>;

    closed spec fn view(&self) -> Seq<Seq<char>> {
        self.spellings@.map_values(|s: String| s@)
    }
}

impl Interner {
    /// The pool invariant: the empty spelling sits at index 0, no spelling occurs twice, and
    /// every index fits a `Symbol`.
    pub open spec fn wf(&self) -> bool {
        &&& self@.len() >= 1
        &&& self@[0] == Seq::<char>::empty()
        &&& self@.len() <= u32::MAX as nat + 1
        &&& forall|a: int, b: int|
            0 <= a < b < self@.len() ==> #[trigger] self@[a] != #[trigger] self@[b]
    }

    /// Whether `sym` names a spelling of this pool.
    pub open spec fn holds(&self, sym: Symbol) -> bool {
        (sym.0 as int) < self@.len()
    }

    /// A pool holding only the empty spelling, as `Symbol::EMPTY`.
    pub fn new() -> (it: Interner)
        ensures
            it.wf(),
            it@ == seq![Seq::<char>::empty()],
    {
        let mut spellings: Vec<String> = Vec::new();
        spellings.push(String::new());
        let it = Interner { spellings };
        assert(it@ =~= seq![Seq::<char>::empty()]);
        it
    }

    /// The symbol of a spelling: the existing one when the spelling is already pooled, else a
    /// fresh symbol appended at the end.
    pub fn intern(&mut self, s: &str) -> (sym: Symbol)
        requires
            old(self).wf(),
            old(self)@.len() <= u32::MAX,
        ensures
            final(self).wf(),
            final(self).holds(sym),
            final(self)@[sym.0 as int] == s@,
            old(self)@.contains(s@) ==> final(self)@ == old(self)@,
            !old(self)@.contains(s@) ==> final(self)@ == old(self)@.push(s@) && sym.0
                == old(self)@.len(),
            old(self)@.is_prefix_of(final(self)@),
    {
        let owned = String::from_str(s);
        let n = self.spellings.len();
        let mut k: usize = 0;
        while k < n
            invariant
                n == self.spellings.len(),
                self.wf(),
                0 <= k <= n,
                owned@ == s@,
                forall|j: int| 0 <= j < k ==> self@[j] != s@,
            decreases n - k,
        {
            let same = self.spellings[k] == owned;
            if same {
                proof {
                    assert(self@[k as int] == self.spellings@[k as int]@);
                }
                assert(self@.is_prefix_of(self@));
                return Symbol(k as u32);
            }
            k += 1;
        }
        proof {
            assert forall|j: int| 0 <= j < self@.len() implies self@[j] != s@ by {}
            assert(!self@.contains(s@));
        }
        let ghost before = self@;
        self.spellings.push(owned);
        proof {
            assert(self@ =~= before.push(s@));
            assert(before.is_prefix_of(self@));
        }
        Symbol(n as u32)
    }

    /// The canonical spelling of a symbol of this pool.
    pub fn resolve(&self, sym: Symbol) -> (s: &str)
        requires
            self.holds(sym),
        ensures
            s@ == self@[sym.0 as int],
    {
        self.spellings[sym.0 as usize].as_str()
    }

    /// Number of distinct spellings pooled.
    pub fn len(&self) -> (n: usize)
        ensures
            n == self@.len(),
    {
        self.spellings.len()
    }
}

/// A pool only grows at its end, so a symbol keeps its spelling for the pool's lifetime:
/// across any chain of interning, a spelling an earlier pool held at `sym` is what every
/// later pool holds there.
pub proof fn lemma_symbol_keeps_its_spelling(
    earlier: Seq<Seq<char>>,
    middle: Seq<Seq<char>>,
    later: Seq<Seq<char>>,
    sym: Symbol,
)
    requires
        earlier.is_prefix_of(middle),
        middle.is_prefix_of(later),
        (sym.0 as int) < earlier.len(),
    ensures
        earlier.is_prefix_of(later),
        later[sym.0 as int] == earlier[sym.0 as int],
{
    assert(middle[sym.0 as int] == earlier[sym.0 as int]);
    assert forall|i: int| 0 <= i < earlier.len() implies later[i] == earlier[i] by {
        assert(middle[i] == earlier[i]);
    }
    assert(later.subrange(0, earlier.len() as int) =~= earlier);
}

/* ---------- tokens ---------- */

/// The public token kinds, in the declaration order of the token table.
#[derive(Debug, Clone, Copy, PartialEq, Eq, Structural)]
pub enum TokKind {
    Eof,
    Nl,
    Name,
    Alias,
    Sym,
    Num,
    Counter,
    Str,
    Wild,
    Comma,
    Arrow,
    Semi,
    PipeGt,
    Amp,
    Bar,
    Bang,
    EqEq,
    Ne,
    Lt,
    Le,
    Gt,
    Ge,
    Eq,
    PlusEq,
    MinusEq,
    StarEq,
    SlashEq,
    Plus,
    Minus,
    Star,
    Slash,
    Pct,
    At,
    Dot,
    Tick,
    Lp,
    Rp,
    Lb,
    Rb,
    LArrow,
    Tilde,
    Fold,
    ScanOp,
    Iota,
    Def,
    Undef,
    Spawn,
    AtKw,
    To,
    Via,
    Along,
    Order,
    By,
    Take,
    Desc,
    Top,
    Grade,
    FoldKw,
    ScanKw,
    Cross,
    Expand,
}

/// The token-table spelling of each kind, as `--tokens` prints it.
pub open spec fn tok_c_name(k: TokKind) -> Seq<char> {
    match k {
        TokKind::Eof => "T_EOF"@,
        TokKind::Nl => "T_NL"@,
        TokKind::Name => "T_NAME"@,
        TokKind::Alias => "T_ALIAS"@,
        TokKind::Sym => "T_SYM"@,
        TokKind::Num => "T_NUM"@,
        TokKind::Counter => "T_COUNTER"@,
        TokKind::Str => "T_STR"@,
        TokKind::Wild => "T_WILD"@,
        TokKind::Comma => "T_COMMA"@,
        TokKind::Arrow => "T_ARROW"@,
        TokKind::Semi => "T_SEMI"@,
        TokKind::PipeGt => "T_PIPEGT"@,
        TokKind::Amp => "T_AMP"@,
        TokKind::Bar => "T_BAR"@,
        TokKind::Bang => "T_BANG"@,
        TokKind::EqEq => "T_EQEQ"@,
        TokKind::Ne => "T_NE"@,
        TokKind::Lt => "T_LT"@,
        TokKind::Le => "T_LE"@,
        TokKind::Gt => "T_GT"@,
        TokKind::Ge => "T_GE"@,
        TokKind::Eq => "T_EQ"@,
        TokKind::PlusEq => "T_PLUSEQ"@,
        TokKind::MinusEq => "T_MINUSEQ"@,
        TokKind::StarEq => "T_STAREQ"@,
        TokKind::SlashEq => "T_SLASHEQ"@,
        TokKind::Plus => "T_PLUS"@,
        TokKind::Minus => "T_MINUS"@,
        TokKind::Star => "T_STAR"@,
        TokKind::Slash => "T_SLASH"@,
        TokKind::Pct => "T_PCT"@,
        TokKind::At => "T_AT"@,
        TokKind::Dot => "T_DOT"@,
        TokKind::Tick => "T_TICK"@,
        TokKind::Lp => "T_LP"@,
        TokKind::Rp => "T_RP"@,
        TokKind::Lb => "T_LB"@,
        TokKind::Rb => "T_RB"@,
        TokKind::LArrow => "T_LARROW"@,
        TokKind::Tilde => "T_TILDE"@,
        TokKind::Fold => "T_FOLD"@,
        TokKind::ScanOp => "T_SCANOP"@,
        TokKind::Iota => "T_IOTA"@,
        TokKind::Def => "T_DEF"@,
        TokKind::Undef => "T_UNDEF"@,
        TokKind::Spawn => "T_SPAWN"@,
        TokKind::AtKw => "T_ATKW"@,
        TokKind::To => "T_TO"@,
        TokKind::Via => "T_VIA"@,
        TokKind::Along => "T_ALONG"@,
        TokKind::Order => "T_ORDER"@,
        TokKind::By => "T_BY"@,
        TokKind::Take => "T_TAKE"@,
        TokKind::Desc => "T_DESC"@,
        TokKind::Top => "T_TOP"@,
        TokKind::Grade => "T_GRADE"@,
        TokKind::FoldKw => "T_FOLDKW"@,
        TokKind::ScanKw => "T_SCANKW"@,
        TokKind::Cross => "T_CROSS"@,
        TokKind::Expand => "T_EXPAND"@,
    }
}

/// The kind whose token-table spelling `s` is, if any; it reads the spelling's length and
/// the characters after "T_".
pub open spec fn kind_of_c_name(s: Seq<char>) -> Option<TokKind> {
    if s.len() == 4 {
        if s[2] == 'N' && s[3] == 'L' {
            Some(TokKind::Nl)
        } else if s[2] == 'N' && s[3] == 'E' {
            Some(TokKind::Ne)
        } else if s[2] == 'L' && s[3] == 'T' {
            Some(TokKind::Lt)
        } else if s[2] == 'L' && s[3] == 'E' {
            Some(TokKind::Le)
        } else if s[2] == 'G' && s[3] == 'T' {
            Some(TokKind::Gt)
        } else if s[2] == 'G' && s[3] == 'E' {
            Some(TokKind::Ge)
        } else if s[2] == 'E' && s[3] == 'Q' {
            Some(TokKind::Eq)
        } else if s[2] == 'A' && s[3] == 'T' {
            Some(TokKind::At)
        } else if s[2] == 'L' && s[3] == 'P' {
            Some(TokKind::Lp)
        } else if s[2] == 'R' && s[3] == 'P' {
            Some(TokKind::Rp)
        } else if s[2] == 'L' && s[3] == 'B' {
            Some(TokKind::Lb)
        } else if s[2] == 'R' && s[3] == 'B' {
            Some(TokKind::Rb)
        } else if s[2] == 'T' && s[3] == 'O' {
            Some(TokKind::To)
        } else if s[2] == 'B' && s[3] == 'Y' {
            Some(TokKind::By)
        } else {
            None
        }
    } else if s.len() == 5 {
        if s[2] == 'E' && s[3] == 'O' && s[4] == 'F' {
            Some(TokKind::Eof)
        } else if s[2] == 'S' && s[3] == 'Y' && s[4] == 'M' {
            Some(TokKind::Sym)
        } else if s[2] == 'N' && s[3] == 'U' && s[4] == 'M' {
            Some(TokKind::Num)
        } else if s[2] == 'S' && s[3] == 'T' && s[4] == 'R' {
            Some(TokKind::Str)
        } else if s[2] == 'A' && s[3] == 'M' && s[4] == 'P' {
            Some(TokKind::Amp)
        } else if s[2] == 'B' && s[3] == 'A' && s[4] == 'R' {
            Some(TokKind::Bar)
        } else if s[2] == 'P' && s[3] == 'C' && s[4] == 'T' {
            Some(TokKind::Pct)
        } else if s[2] == 'D' && s[3] == 'O' && s[4] == 'T' {
            Some(TokKind::Dot)
        } else if s[2] == 'D' && s[3] == 'E' && s[4] == 'F' {
            Some(TokKind::Def)
        } else if s[2] == 'V' && s[3] == 'I' && s[4] == 'A' {
            Some(TokKind::Via)
        } else if s[2] == 'T' && s[3] == 'O' && s[4] == 'P' {
            Some(TokKind::Top)
        } else {
            None
        }
    } else if s.len() == 6 {
        if s[2] == 'N' && s[3] == 'A' && s[4] == 'M' && s[5] == 'E' {
            Some(TokKind::Name)
        } else if s[2] == 'W' && s[3] == 'I' && s[4] == 'L' && s[5] == 'D' {
            Some(TokKind::Wild)
        } else if s[2] == 'S' && s[3] == 'E' && s[4] == 'M' && s[5] == 'I' {
            Some(TokKind::Semi)
        } else if s[2] == 'B' && s[3] == 'A' && s[4] == 'N' && s[5] == 'G' {
            Some(TokKind::Bang)
        } else if s[2] == 'E' && s[3] == 'Q' && s[4] == 'E' && s[5] == 'Q' {
            Some(TokKind::EqEq)
        } else if s[2] == 'P' && s[3] == 'L' && s[4] == 'U' && s[5] == 'S' {
            Some(TokKind::Plus)
        } else if s[2] == 'S' && s[3] == 'T' && s[4] == 'A' && s[5] == 'R' {
            Some(TokKind::Star)
        } else if s[2] == 'T' && s[3] == 'I' && s[4] == 'C' && s[5] == 'K' {
            Some(TokKind::Tick)
        } else if s[2] == 'F' && s[3] == 'O' && s[4] == 'L' && s[5] == 'D' {
            Some(TokKind::Fold)
        } else if s[2] == 'I' && s[3] == 'O' && s[4] == 'T' && s[5] == 'A' {
            Some(TokKind::Iota)
        } else if s[2] == 'A' && s[3] == 'T' && s[4] == 'K' && s[5] == 'W' {
            Some(TokKind::AtKw)
        } else if s[2] == 'T' && s[3] == 'A' && s[4] == 'K' && s[5] == 'E' {
            Some(TokKind::Take)
        } else if s[2] == 'D' && s[3] == 'E' && s[4] == 'S' && s[5] == 'C' {
            Some(TokKind::Desc)
        } else {
            None
        }
    } else if s.len() == 7 {
        if s[2] == 'A' && s[3] == 'L' && s[4] == 'I' && s[5] == 'A' && s[6] == 'S' {
            Some(TokKind::Alias)
        } else if s[2] == 'C' && s[3] == 'O' && s[4] == 'M' && s[5] == 'M' && s[6] == 'A' {
            Some(TokKind::Comma)
        } else if s[2] == 'A' && s[3] == 'R' && s[4] == 'R' && s[5] == 'O' && s[6] == 'W' {
            Some(TokKind::Arrow)
        } else if s[2] == 'M' && s[3] == 'I' && s[4] == 'N' && s[5] == 'U' && s[6] == 'S' {
            Some(TokKind::Minus)
        } else if s[2] == 'S' && s[3] == 'L' && s[4] == 'A' && s[5] == 'S' && s[6] == 'H' {
            Some(TokKind::Slash)
        } else if s[2] == 'T' && s[3] == 'I' && s[4] == 'L' && s[5] == 'D' && s[6] == 'E' {
            Some(TokKind::Tilde)
        } else if s[2] == 'U' && s[3] == 'N' && s[4] == 'D' && s[5] == 'E' && s[6] == 'F' {
            Some(TokKind::Undef)
        } else if s[2] == 'S' && s[3] == 'P' && s[4] == 'A' && s[5] == 'W' && s[6] == 'N' {
            Some(TokKind::Spawn)
        } else if s[2] == 'A' && s[3] == 'L' && s[4] == 'O' && s[5] == 'N' && s[6] == 'G' {
            Some(TokKind::Along)
        } else if s[2] == 'O' && s[3] == 'R' && s[4] == 'D' && s[5] == 'E' && s[6] == 'R' {
            Some(TokKind::Order)
        } else if s[2] == 'G' && s[3] == 'R' && s[4] == 'A' && s[5] == 'D' && s[6] == 'E' {
            Some(TokKind::Grade)
        } else if s[2] == 'C' && s[3] == 'R' && s[4] == 'O' && s[5] == 'S' && s[6] == 'S' {
            Some(TokKind::Cross)
        } else {
            None
        }
    } else if s.len() == 8 {
        if s[2] == 'P' && s[3] == 'I' && s[4] == 'P' && s[5] == 'E' && s[6] == 'G' && s[7] == 'T' {
            Some(TokKind::PipeGt)
        } else if s[2] == 'P' && s[3] == 'L' && s[4] == 'U' && s[5] == 'S' && s[6] == 'E' && s[7] == 'Q' {
            Some(TokKind::PlusEq)
        } else if s[2] == 'S' && s[3] == 'T' && s[4] == 'A' && s[5] == 'R' && s[6] == 'E' && s[7] == 'Q' {
            Some(TokKind::StarEq)
        } else if s[2] == 'L' && s[3] == 'A' && s[4] == 'R' && s[5] == 'R' && s[6] == 'O' && s[7] == 'W' {
            Some(TokKind::LArrow)
        } else if s[2] == 'S' && s[3] == 'C' && s[4] == 'A' && s[5] == 'N' && s[6] == 'O' && s[7] == 'P' {
            Some(TokKind::ScanOp)
        } else if s[2] == 'F' && s[3] == 'O' && s[4] == 'L' && s[5] == 'D' && s[6] == 'K' && s[7] == 'W' {
            Some(TokKind::FoldKw)
        } else if s[2] == 'S' && s[3] == 'C' && s[4] == 'A' && s[5] == 'N' && s[6] == 'K' && s[7] == 'W' {
            Some(TokKind::ScanKw)
        } else if s[2] == 'E' && s[3] == 'X' && s[4] == 'P' && s[5] == 'A' && s[6] == 'N' && s[7] == 'D' {
            Some(TokKind::Expand)
        } else {
            None
        }
    } else if s.len() == 9 {
        if s[2] == 'C' && s[3] == 'O' && s[4] == 'U' && s[5] == 'N' && s[6] == 'T' && s[7] == 'E' && s[8] == 'R' {
            Some(TokKind::Counter)
        } else if s[2] == 'M' && s[3] == 'I' && s[4] == 'N' && s[5] == 'U' && s[6] == 'S' && s[7] == 'E' && s[8] == 'Q' {
            Some(TokKind::MinusEq)
        } else if s[2] == 'S' && s[3] == 'L' && s[4] == 'A' && s[5] == 'S' && s[6] == 'H' && s[7] == 'E' && s[8] == 'Q' {
            Some(TokKind::SlashEq)
        } else {
            None
        }
    } else {
        None
    }
}

proof fn lemma_kind_of_c_name(k: TokKind)
    ensures
        kind_of_c_name(tok_c_name(k)) == Some(k),
{
    reveal_strlit("T_EOF");
    reveal_strlit("T_NL");
    reveal_strlit("T_NAME");
    reveal_strlit("T_ALIAS");
    reveal_strlit("T_SYM");
    reveal_strlit("T_NUM");
    reveal_strlit("T_COUNTER");
    reveal_strlit("T_STR");
    reveal_strlit("T_WILD");
    reveal_strlit("T_COMMA");
    reveal_strlit("T_ARROW");
    reveal_strlit("T_SEMI");
    reveal_strlit("T_PIPEGT");
    reveal_strlit("T_AMP");
    reveal_strlit("T_BAR");
    reveal_strlit("T_BANG");
    reveal_strlit("T_EQEQ");
    reveal_strlit("T_NE");
    reveal_strlit("T_LT");
    reveal_strlit("T_LE");
    reveal_strlit("T_GT");
    reveal_strlit("T_GE");
    reveal_strlit("T_EQ");
    reveal_strlit("T_PLUSEQ");
    reveal_strlit("T_MINUSEQ");
    reveal_strlit("T_STAREQ");
    reveal_strlit("T_SLASHEQ");
    reveal_strlit("T_PLUS");
    reveal_strlit("T_MINUS");
    reveal_strlit("T_STAR");
    reveal_strlit("T_SLASH");
    reveal_strlit("T_PCT");
    reveal_strlit("T_AT");
    reveal_strlit("T_DOT");
    reveal_strlit("T_TICK");
    reveal_strlit("T_LP");
    reveal_strlit("T_RP");
    reveal_strlit("T_LB");
    reveal_strlit("T_RB");
    reveal_strlit("T_LARROW");
    reveal_strlit("T_TILDE");
    reveal_strlit("T_FOLD");
    reveal_strlit("T_SCANOP");
    reveal_strlit("T_IOTA");
    reveal_strlit("T_DEF");
    reveal_strlit("T_UNDEF");
    reveal_strlit("T_SPAWN");
    reveal_strlit("T_ATKW");
    reveal_strlit("T_TO");
    reveal_strlit("T_VIA");
    reveal_strlit("T_ALONG");
    reveal_strlit("T_ORDER");
    reveal_strlit("T_BY");
    reveal_strlit("T_TAKE");
    reveal_strlit("T_DESC");
    reveal_strlit("T_TOP");
    reveal_strlit("T_GRADE");
    reveal_strlit("T_FOLDKW");
    reveal_strlit("T_SCANKW");
    reveal_strlit("T_CROSS");
    reveal_strlit("T_EXPAND");
}

/// Distinct token kinds have distinct token-table spellings.
pub proof fn lemma_c_name_injective(a: TokKind, b: TokKind)
    ensures
        tok_c_name(a) == tok_c_name(b) ==> a == b,
{
    lemma_kind_of_c_name(a);
    lemma_kind_of_c_name(b);
}

impl TokKind {
    /// The token-table spelling of this kind, byte-exact.
    pub fn c_name(self) -> (s: &'static str)
        ensures
            s@ == tok_c_name(self),
    {
        match self {
            TokKind::Eof => "T_EOF",
            TokKind::Nl => "T_NL",
            TokKind::Name => "T_NAME",
            TokKind::Alias => "T_ALIAS",
            TokKind::Sym => "T_SYM",
            TokKind::Num => "T_NUM",
            TokKind::Counter => "T_COUNTER",
            TokKind::Str => "T_STR",
            TokKind::Wild => "T_WILD",
            TokKind::Comma => "T_COMMA",
            TokKind::Arrow => "T_ARROW",
            TokKind::Semi => "T_SEMI",
            TokKind::PipeGt => "T_PIPEGT",
            TokKind::Amp => "T_AMP",
            TokKind::Bar => "T_BAR",
            TokKind::Bang => "T_BANG",
            TokKind::EqEq => "T_EQEQ",
            TokKind::Ne => "T_NE",
            TokKind::Lt => "T_LT",
            TokKind::Le => "T_LE",
            TokKind::Gt => "T_GT",
            TokKind::Ge => "T_GE",
            TokKind::Eq => "T_EQ",
            TokKind::PlusEq => "T_PLUSEQ",
            TokKind::MinusEq => "T_MINUSEQ",
            TokKind::StarEq => "T_STAREQ",
            TokKind::SlashEq => "T_SLASHEQ",
            TokKind::Plus => "T_PLUS",
            TokKind::Minus => "T_MINUS",
            TokKind::Star => "T_STAR",
            TokKind::Slash => "T_SLASH",
            TokKind::Pct => "T_PCT",
            TokKind::At => "T_AT",
            TokKind::Dot => "T_DOT",
            TokKind::Tick => "T_TICK",
            TokKind::Lp => "T_LP",
            TokKind::Rp => "T_RP",
            TokKind::Lb => "T_LB",
            TokKind::Rb => "T_RB",
            TokKind::LArrow => "T_LARROW",
            TokKind::Tilde => "T_TILDE",
            TokKind::Fold => "T_FOLD",
            TokKind::ScanOp => "T_SCANOP",
            TokKind::Iota => "T_IOTA",
            TokKind::Def => "T_DEF",
            TokKind::Undef => "T_UNDEF",
            TokKind::Spawn => "T_SPAWN",
            TokKind::AtKw => "T_ATKW",
            TokKind::To => "T_TO",
            TokKind::Via => "T_VIA",
            TokKind::Along => "T_ALONG",
            TokKind::Order => "T_ORDER",
            TokKind::By => "T_BY",
            TokKind::Take => "T_TAKE",
            TokKind::Desc => "T_DESC",
            TokKind::Top => "T_TOP",
            TokKind::Grade => "T_GRADE",
            TokKind::FoldKw => "T_FOLDKW",
            TokKind::ScanKw => "T_SCANKW",
            TokKind::Cross => "T_CROSS",
            TokKind::Expand => "T_EXPAND",
        }
    }
}

/// The lexer's output columns: kind, interned name (`Symbol(0)` when absent), numeral text
/// and 1-based physical line of each token, row by row.
pub struct Toks {
    pub kind: Vec<TokKind>,
    pub name: Vec<Symbol>,
    pub num: Vec<NumText>,
    pub line: Vec<i32>,
}

impl Toks {
    /// All four columns hold one entry per token.
    pub open spec fn wf(&self) -> bool {
        &&& self.name@.len() == self.kind@.len()
        &&& self.num@.len() == self.kind@.len()
        &&& self.line@.len() == self.kind@.len()
    }

    /// No tokens.
    pub fn new() -> (t: Toks)
        ensures
            t.wf(),
            t.kind@.len() == 0,
    {
        Toks { kind: Vec::new(), name: Vec::new(), num: Vec::new(), line: Vec::new() }
    }

    /// The number of tokens.
    pub fn len(&self) -> (n: usize)
        ensures
            n == self.kind@.len(),
    {
        self.kind.len()
    }

    /// Whether there are no tokens.
    pub fn is_empty(&self) -> (b: bool)
        ensures
            b == (self.kind@.len() == 0),
    {
        self.kind.len() == 0
    }

    /// Appends one row across all four columns.
    pub fn push(&mut self, kind: TokKind, name: Symbol, num: NumText, line: i32)
        ensures
            final(self).kind@ == old(self).kind@.push(kind),
            final(self).name@ == old(self).name@.push(name),
            final(self).num@ == old(self).num@.push(num),
            final(self).line@ == old(self).line@.push(line),
    {
        self.kind.push(kind);
        self.name.push(name);
        self.num.push(num);
        self.line.push(line);
    }
}

/* ---------- operator codes ---------- */

/// Comparison operator codes.
#[derive(Debug, Clone, Copy, PartialEq, Eq)]
pub enum CmpOp {
    Lt,
    Gt,
    Le,
    Ge,
    Eq,
    Ne,
}

/// Arithmetic operator codes.
#[derive(Debug, Clone, Copy, PartialEq, Eq)]
pub enum ArithOp {
    Add,
    Sub,
    Mul,
    Div,
    Mod,
}

/// Assignment operator codes.
#[derive(Debug, Clone, Copy, PartialEq, Eq)]
pub enum AssignOp {
    Assign,
    Add,
    Sub,
    Mul,
    Div,
}

/* ---------- the syntax tree ---------- */

/// One syntax-tree node: its kind and the 1-based source line of its head token.
#[derive(Debug, PartialEq)]
pub struct Node {
    pub kind: NodeKind,
    pub line: i32,
}

impl Node {
    /// A node of a kind at a line.
    pub fn new(kind: NodeKind, line: i32) -> (n: Node)
        ensures
            n == (Node { kind, line }),
    {
        Node { kind, line }
    }
}

/// The node kinds. Numerals keep their written form (`NumText`); names are interned
/// spellings, resolved when code is emitted.
#[derive(Debug, PartialEq)]
pub enum NodeKind {
    // atoms
    Num(NumText),
    Counter { val: NumText, unit: Symbol },
    Sym(Symbol),
    Str(Symbol),
    Name(Symbol),
    /// A `^name` request: `look` is the name the lookup uses, `req` the stem as written.
    Alias { look: Symbol, req: Symbol },
    Wild,
    // expressions
    Not(Box<Node>),
    And(Box<Node>, Box<Node>),
    Or(Box<Node>, Box<Node>),
    Cmp { op: CmpOp, l: Box<Node>, r: Box<Node> },
    /// The presence-any tuple element `_` compared against a name.
    CmpAny { name: Symbol },
    Arith { op: ArithOp, l: Box<Node>, r: Box<Node> },
    /// `l @ r`, with the anchored frame's origin when there is one.
    Scope { l: Box<Node>, r: Box<Node>, origin: Option<Box<Node>> },
    Hop { l: Box<Node>, r: Box<Node> },
    SetHop { rel: Symbol },
    Call { callee: Symbol, args: Vec<Node> },
    Fold { op: Symbol, operand: Box<Node> },
    ScanExpr { op: Symbol, operand: Box<Node> },
    ScanAlong { op: Symbol, col: Box<Node>, order: Box<Node> },
    IotaX(Box<Node>),
    Shape(Vec<Node>),
    Tuple(Vec<Node>),
    To { shape: Box<Node>, poured: Option<Box<Node>> },
    Grade { key: Box<Node>, desc: bool },
    Top { k: NumText, inner: Box<Node> },
    Pipe { src: Box<Node>, stages: Vec<Node> },
    OrderBy { key: Box<Node>, desc: bool },
    Take { k: NumText },
    Expand(Box<Node>),
    CrossV { f: Symbol, a: Box<Node>, b: Box<Node> },
    Binder { name: Symbol, source: Box<Node> },
    // effects
    EAssign { op: AssignOp, target: Box<Node>, rhs: Box<Node> },
    EAdd(Symbol),
    EDel(Symbol),
    EDespawn,
    ESpawn { what: Box<Node>, count: Option<Box<Node>>, at: Option<Box<Node>> },
    EVerb { name: Symbol, args: Vec<Node> },
    EVia { f: Symbol, col: Box<Node> },
    // statements
    Stmt { sel: Option<Box<Node>>, effects: Vec<Node>, rule: bool, cont: bool, elided: bool },
    DefStmt { name: Symbol, body: Box<Node> },
    UndefStmt { name: Symbol },
    Query(Box<Node>),
    Compr { sel: Box<Node>, effect: Box<Node>, rest: Vec<Node> },
    Program(Vec<Node>),
}

/// The numeric code of a node kind in diagnostics ("unsupported value node <code>"): kinds
/// numbered in declaration order, the presence-any comparison sharing the comparison's
/// code, the retraction statement numbered after the program.
pub open spec fn node_code(k: NodeKind) -> i32 {
    match k {
        NodeKind::Num(..) => 0,
        NodeKind::Counter { .. } => 1,
        NodeKind::Sym(..) => 2,
        NodeKind::Str(..) => 3,
        NodeKind::Name(..) => 4,
        NodeKind::Alias { .. } => 5,
        NodeKind::Wild => 6,
        NodeKind::Not(..) => 7,
        NodeKind::And(..) => 8,
        NodeKind::Or(..) => 9,
        NodeKind::Cmp { .. } => 10,
        NodeKind::CmpAny { .. } => 10,
        NodeKind::Arith { .. } => 11,
        NodeKind::Scope { .. } => 12,
        NodeKind::Hop { .. } => 13,
        NodeKind::SetHop { .. } => 14,
        NodeKind::Call { .. } => 15,
        NodeKind::Fold { .. } => 16,
        NodeKind::ScanExpr { .. } => 17,
        NodeKind::ScanAlong { .. } => 18,
        NodeKind::IotaX(..) => 19,
        NodeKind::Shape(..) => 20,
        NodeKind::Tuple(..) => 21,
        NodeKind::To { .. } => 22,
        NodeKind::Grade { .. } => 23,
        NodeKind::Top { .. } => 24,
        NodeKind::Pipe { .. } => 25,
        NodeKind::OrderBy { .. } => 26,
        NodeKind::Take { .. } => 27,
        NodeKind::Expand(..) => 28,
        NodeKind::CrossV { .. } => 29,
        NodeKind::Binder { .. } => 30,
        NodeKind::EAssign { .. } => 31,
        NodeKind::EAdd(..) => 32,
        NodeKind::EDel(..) => 33,
        NodeKind::EDespawn => 34,
        NodeKind::ESpawn { .. } => 35,
        NodeKind::EVerb { .. } => 36,
        NodeKind::EVia { .. } => 37,
        NodeKind::Stmt { .. } => 38,
        NodeKind::DefStmt { .. } => 39,
        NodeKind::UndefStmt { .. } => 43,
        NodeKind::Query(..) => 40,
        NodeKind::Compr { .. } => 41,
        NodeKind::Program(..) => 42,
    }
}

impl NodeKind {
    /// The kind's numeric code (see `node_code`).
    pub fn c_kind(&self) -> (c: i32)
        ensures
            c == node_code(*self),
    {
        match self {
            NodeKind::Num(..) => 0,
            NodeKind::Counter { .. } => 1,
            NodeKind::Sym(..) => 2,
            NodeKind::Str(..) => 3,
            NodeKind::Name(..) => 4,
            NodeKind::Alias { .. } => 5,
            NodeKind::Wild => 6,
            NodeKind::Not(..) => 7,
            NodeKind::And(..) => 8,
            NodeKind::Or(..) => 9,
            NodeKind::Cmp { .. } => 10,
            NodeKind::CmpAny { .. } => 10,
            NodeKind::Arith { .. } => 11,
            NodeKind::Scope { .. } => 12,
            NodeKind::Hop { .. } => 13,
            NodeKind::SetHop { .. } => 14,
            NodeKind::Call { .. } => 15,
            NodeKind::Fold { .. } => 16,
            NodeKind::ScanExpr { .. } => 17,
            NodeKind::ScanAlong { .. } => 18,
            NodeKind::IotaX(..) => 19,
            NodeKind::Shape(..) => 20,
            NodeKind::Tuple(..) => 21,
            NodeKind::To { .. } => 22,
            NodeKind::Grade { .. } => 23,
            NodeKind::Top { .. } => 24,
            NodeKind::Pipe { .. } => 25,
            NodeKind::OrderBy { .. } => 26,
            NodeKind::Take { .. } => 27,
            NodeKind::Expand(..) => 28,
            NodeKind::CrossV { .. } => 29,
            NodeKind::Binder { .. } => 30,
            NodeKind::EAssign { .. } => 31,
            NodeKind::EAdd(..) => 32,
            NodeKind::EDel(..) => 33,
            NodeKind::EDespawn => 34,
            NodeKind::ESpawn { .. } => 35,
            NodeKind::EVerb { .. } => 36,
            NodeKind::EVia { .. } => 37,
            NodeKind::Stmt { .. } => 38,
            NodeKind::DefStmt { .. } => 39,
            NodeKind::UndefStmt { .. } => 43,
            NodeKind::Query(..) => 40,
            NodeKind::Compr { .. } => 41,
            NodeKind::Program(..) => 42,
        }
    }
}

/* ---------- registry vocabulary ---------- */

/// Column and field element types; Bool/Nat/Int are carrier refinements of Num.
#[derive(Debug, Clone, Copy, PartialEq, Eq)]
pub enum ColType {
    Num,
    Bool,
    Nat,
    Int,
    Sym,
    Char,
}

/// Named-binding kinds.
#[derive(Debug, Clone, Copy, PartialEq, Eq)]
pub enum BindKind {
    Entity,
    Mask,
    Point,
    Num,
    Vec,
}

/// The despawn reclamation policy.
#[derive(Debug, Clone, Copy, PartialEq, Eq)]
pub enum Reap {
    Seal,
    Host,
}

/// One row of the spelling-alias table: surface word, entry name, and whether it came from
/// the Japanese surface.
#[derive(Debug, Clone, PartialEq)]
pub struct AliasRow {
    pub from: String,
    pub to: String,
    pub ja: bool,
}

/* ---------- directives ---------- */

/// An expectation: a column pin, or an ordered query-output pin.
#[derive(Debug, Clone, PartialEq)]
pub enum Expect {
    Col { col: String, vals: Vec<String> },
    Out { vals: Vec<String> },
}

/// The per-file directives; `expect_n == -1` means unchecked, empty strings mean none.
#[derive(Debug, Clone)]
pub struct Directives {
    pub registry: String,
    pub aliases: String,
    pub expects: Vec<Expect>,
    pub expect_n: i32,
    pub ja: bool,
    pub save: bool,
    pub label: bool,
    pub trace: bool,
    pub same_tokens: String,
}

impl Directives {
    /// The directives of a file that declares none.
    pub open spec fn is_default(&self) -> bool {
        &&& self.registry@ == Seq::<char>::empty()
        &&& self.aliases@ == Seq::<char>::empty()
        &&& self.expects@.len() == 0
        &&& self.expect_n == -1
        &&& !self.ja && !self.save && !self.label && !self.trace
        &&& self.same_tokens@ == Seq::<char>::empty()
    }
}

impl Default for Directives {
    fn default() -> (d: Directives)
        ensures
            d.is_default(),
    {
        Directives {
            registry: String::new(),
            aliases: String::new(),
            expects: Vec::new(),
            expect_n: -1,
            ja: false,
            save: false,
            label: false,
            trace: false,
            same_tokens: String::new(),
        }
    }
}

} // verus!
