use vstd::prelude::*;
use crate::grammar::{
    args_spec, body_spec, dir_name, imm_spec, program_spec, stmt_spec, text_at, value_spec, Ctx, DirName,
};
use crate::lexer::{
    digits_end, ident_end, is_ident_char, is_ident_start, lex_from, simple_kind, string_end, tok,
    Scan,
};
use crate::literal::{all_digits, decode_spec, decoded_after, digits_value, is_digit, unsigned_spec};
use crate::render::{decimal, escaped, quoted, render_imm, render_stmt, render_value, render_values};
use crate::report::Report;
use crate::stmt::{DirV, StmtV, ValueV};
use crate::token::TokenKind;

verus! {

/// A name that scans as one identifier.
pub open spec fn is_ident(name: Seq<u8>) -> bool {
    &&& name.len() > 0
    &&& is_ident_start(name[0])
    &&& forall|k: int| 0 <= k < name.len() ==> is_ident_char(#[trigger] name[k])
}

proof fn lemma_ident_end_at(src: Seq<u8>, i: int, j: int)
    requires
        0 <= i <= j <= src.len(),
        forall|k: int| i <= k < j ==> is_ident_char(#[trigger] src[k]),
        j == src.len() || !is_ident_char(src[j]),
    ensures
        ident_end(src, i) == j,
    decreases j - i,
{
    if i < j {
        lemma_ident_end_at(src, i + 1, j);
    }
}

proof fn lemma_digits_end_at(src: Seq<u8>, i: int, j: int)
    requires
        0 <= i <= j <= src.len(),
        forall|k: int| i <= k < j ==> is_digit(#[trigger] src[k]),
        j == src.len() || !is_digit(src[j]),
    ensures
        digits_end(src, i) == j,
    decreases j - i,
{
    if i < j {
        lemma_digits_end_at(src, i + 1, j);
    }
}

/// An identifier at `i..j` scans as one token.
proof fn lemma_lex_ident(src: Seq<u8>, i: int, j: int)
    requires
        0 <= i < j <= src.len(),
        is_ident(src.subrange(i, j)),
        j == src.len() || !is_ident_char(src[j]),
    ensures
        lex_from(src, i) == crate::lexer::cons(tok(src, TokenKind::Ident, i, i, j), lex_from(src, j)),
{
    let name = src.subrange(i, j);
    assert(is_ident_start(src[i])) by {
        assert(name[0] == src[i]);
    }
    assert forall|k: int| i + 1 <= k < j implies is_ident_char(#[trigger] src[k]) by {
        assert(name[k - i] == src[k]);
    }
    lemma_ident_end_at(src, i + 1, j);
}

/// A byte that makes a token on its own scans as that token.
proof fn lemma_lex_simple(src: Seq<u8>, i: int, kind: TokenKind)
    requires
        0 <= i < src.len(),
        simple_kind(src[i]) == Some(kind),
    ensures
        lex_from(src, i) == crate::lexer::cons(tok(src, kind, i, i, i + 1), lex_from(src, i + 1)),
{
}

/// The decimal form of `n` is a run of digits that denotes `n`.
pub proof fn lemma_decimal(n: nat)
    ensures
        decimal(n).len() > 0,
        all_digits(decimal(n)),
        digits_value(decimal(n)) == n,
    decreases n,
{
    if n >= 10 {
        lemma_decimal(n / 10);
        let d = decimal(n);
        assert(d.drop_last() =~= decimal(n / 10));
        assert(d.last() == (0x30 + n % 10) as u8);
        assert((n / 10) * 10 + n % 10 == n) by (nonlinear_arith);
        assert(digits_value(d) == digits_value(decimal(n / 10)) * 10 + n % 10);
    } else {
        assert(decimal(n).drop_last() =~= Seq::<u8>::empty());
        assert(digits_value(decimal(n)) == digits_value(Seq::<u8>::empty()) * 10 + n);
    }
}

/// A decimal number at `i..j` followed by a byte that is neither a digit nor
/// a dot scans as one integer token.
proof fn lemma_lex_int(src: Seq<u8>, i: int, j: int)
    requires
        0 <= i < j < src.len(),
        all_digits(src.subrange(i, j)),
        !is_digit(src[j]),
        src[j] != 0x2e,
    ensures
        lex_from(src, i) == crate::lexer::cons(tok(src, TokenKind::IntLit, i, i, j), lex_from(src, j)),
{
    let s = src.subrange(i, j);
    assert forall|k: int| i <= k < j implies is_digit(#[trigger] src[k]) by {
        assert(s[k - i] == src[k]);
    }
    lemma_digits_end_at(src, i + 1, j);
}

/// A statement whose names are identifiers, as the parser produces them.
pub open spec fn stmt_wf(s: StmtV) -> bool {
    match s {
        StmtV::Sym(name) => is_ident(name),
        StmtV::Instr(m, vs) => is_ident(m) && forall|k: int| 0 <= k < vs.len() ==> value_wf(#[trigger] vs[k]),
        StmtV::Dir(d) => match d {
            DirV::Dreg(r, _) => is_ident(r),
            _ => true,
        },
    }
}

/// The text of `s` followed by a newline, as a source.
pub open spec fn rendered_line(s: StmtV) -> Seq<u8> {
    render_stmt(s) + seq![0x0au8]
}

/// Scanning then parsing the source yields exactly `stmts`, with no report,
/// whatever float table is supplied.
pub open spec fn reads_back(src: Seq<u8>, stmts: Seq<StmtV>) -> bool {
    let l = lex_from(src, 0);
    &&& !l.fatal
    &&& l.reports.len() == 0
    &&& forall|floats: Seq<Option<u64>>| floats.len() == l.tokens.len() ==> program_spec(
        Ctx { src, toks: l.tokens, floats },
        0,
    ) == (stmts, Seq::<Report>::empty())
}

proof fn lemma_label_round_trip(name: Seq<u8>)
    requires
        is_ident(name),
        rendered_line(StmtV::Sym(name)).len() < usize::MAX,
    ensures
        reads_back(rendered_line(StmtV::Sym(name)), seq![StmtV::Sym(name)]),
{
    let s = StmtV::Sym(name);
    let src = rendered_line(s);
    let n = name.len() as int;
    assert(src =~= name + seq![0x3au8, 0x0a]);
    assert(src.subrange(0, n) =~= name);
    lemma_lex_ident(src, 0, n);
    lemma_lex_simple(src, n, TokenKind::Colon);
    lemma_lex_simple(src, n + 1, TokenKind::LF);
    let l = lex_from(src, 0);
    assert(l.tokens =~= seq![
        tok(src, TokenKind::Ident, 0, 0, n),
        tok(src, TokenKind::Colon, n, n, n + 1),
        tok(src, TokenKind::LF, n + 1, n + 1, n + 2),
    ]);
    assert(l.reports =~= Seq::<Report>::empty());
    assert forall|floats: Seq<Option<u64>>| floats.len() == l.tokens.len() implies program_spec(
        Ctx { src, toks: l.tokens, floats },
        0,
    ) == (seq![s], Seq::<Report>::empty()) by {
        let c = Ctx { src, toks: l.tokens, floats };
        assert(program_spec(c, 3) == (Seq::<StmtV>::empty(), Seq::<Report>::empty()));
        assert(program_spec(c, 2) == program_spec(c, 3));
        assert(crate::grammar::text_at(c, 0) =~= name);
        assert(crate::grammar::stmt_spec(c, 0) == Ok::<(StmtV, int), Report>((s, 2)));
        assert(seq![s] + Seq::<StmtV>::empty() =~= seq![s]);
    }
}

/// `$`, the decimal form of `v` and a newline, ending the source at `p`,
/// scan as three tokens.
proof fn lemma_lex_imm_line(src: Seq<u8>, p: int, v: u64)
    requires
        0 <= p <= src.len(),
        src.subrange(p, src.len() as int) == seq![0x24u8] + decimal(v as nat) + seq![0x0au8],
    ensures
        lex_from(src, p) == (Scan {
            tokens: seq![
                tok(src, TokenKind::Dollar, p, p, p + 1),
                tok(src, TokenKind::IntLit, p + 1, p + 1, src.len() - 1),
                tok(src, TokenKind::LF, src.len() - 1, src.len() - 1, src.len() as int),
            ],
            reports: Seq::empty(),
            fatal: false,
        }),
{
    let t = src.subrange(p, src.len() as int);
    let d = decimal(v as nat);
    lemma_decimal(v as nat);
    let e = src.len() - 1;
    assert(t.len() == d.len() + 2);
    assert(src[p] == t[0]);
    assert(src[e] == t[e - p]);
    assert(src.subrange(p + 1, e) =~= d) by {
        assert forall|k: int| 0 <= k < d.len() implies src.subrange(p + 1, e)[k] == d[k] by {
            assert(src[p + 1 + k] == t[1 + k]);
        }
    }
    lemma_lex_simple(src, p, TokenKind::Dollar);
    lemma_lex_int(src, p + 1, e);
    lemma_lex_simple(src, e, TokenKind::LF);
    assert(lex_from(src, e).tokens =~= seq![tok(src, TokenKind::LF, e, e, e + 1)]);
    assert(lex_from(src, p).tokens =~= seq![
        tok(src, TokenKind::Dollar, p, p, p + 1),
        tok(src, TokenKind::IntLit, p + 1, p + 1, e),
        tok(src, TokenKind::LF, e, e, e + 1),
    ]);
}

proof fn lemma_instr_round_trip(m: Seq<u8>)
    requires
        is_ident(m),
        rendered_line(StmtV::Instr(m, Seq::empty())).len() < usize::MAX,
    ensures
        reads_back(rendered_line(StmtV::Instr(m, Seq::empty())), seq![StmtV::Instr(m, Seq::empty())]),
{
    let s = StmtV::Instr(m, Seq::empty());
    let src = rendered_line(s);
    let n = m.len() as int;
    assert(src =~= m + seq![0x20u8, 0x0a]);
    assert(src.subrange(0, n) =~= m);
    lemma_lex_ident(src, 0, n);
    lemma_lex_simple(src, n + 1, TokenKind::LF);
    assert(lex_from(src, n) == lex_from(src, n + 1));
    let l = lex_from(src, 0);
    assert(l.tokens =~= seq![
        tok(src, TokenKind::Ident, 0, 0, n),
        tok(src, TokenKind::LF, n + 1, n + 1, n + 2),
    ]);
    assert(l.reports =~= Seq::<Report>::empty());
    assert forall|floats: Seq<Option<u64>>| floats.len() == l.tokens.len() implies program_spec(
        Ctx { src, toks: l.tokens, floats },
        0,
    ) == (seq![s], Seq::<Report>::empty()) by {
        let c = Ctx { src, toks: l.tokens, floats };
        assert(program_spec(c, 2) == (Seq::<StmtV>::empty(), Seq::<Report>::empty()));
        assert(program_spec(c, 1) == program_spec(c, 2));
        assert(text_at(c, 0) =~= m);
        assert(stmt_spec(c, 0) == Ok::<(StmtV, int), Report>((s, 1)));
        assert(seq![s] + Seq::<StmtV>::empty() =~= seq![s]);
    }
}

/// The directives `.org` and `.dword`, whose name is `word`.
proof fn lemma_imm_directive_round_trip(s: StmtV, word: Seq<u8>, v: u64)
    requires
        rendered_line(s).len() < usize::MAX,
        word.len() >= 3,
        is_ident(word),
        render_stmt(s) == seq![0x2eu8] + word + seq![0x20u8] + render_imm(v),
        s == StmtV::Dir(DirV::Origin(v)) && dir_name(word) == Some(DirName::Org)
            || s == StmtV::Dir(DirV::Dword(v)) && dir_name(word) == Some(DirName::Dword),
    ensures
        reads_back(rendered_line(s), seq![s]),
{
    let src = rendered_line(s);
    let w = word.len() as int;
    let len = src.len() as int;
    assert(src =~= seq![0x2eu8] + word + seq![0x20u8] + (seq![0x24u8] + decimal(v as nat) + seq![0x0au8]));
    assert(src.subrange(w + 2, len) =~= seq![0x24u8] + decimal(v as nat) + seq![0x0au8]);
    lemma_lex_imm_line(src, w + 2, v);
    assert(src.subrange(1, w + 1) =~= word);
    lemma_lex_ident(src, 1, w + 1);
    assert(lex_from(src, w + 1) == lex_from(src, w + 2));
    lemma_lex_simple(src, 0, TokenKind::Dot);
    let l = lex_from(src, 0);
    assert(l.tokens =~= seq![
        tok(src, TokenKind::Dot, 0, 0, 1),
        tok(src, TokenKind::Ident, 1, 1, w + 1),
        tok(src, TokenKind::Dollar, w + 2, w + 2, w + 3),
        tok(src, TokenKind::IntLit, w + 3, w + 3, len - 1),
        tok(src, TokenKind::LF, len - 1, len - 1, len),
    ]);
    assert(l.reports =~= Seq::<Report>::empty());
    assert forall|floats: Seq<Option<u64>>| floats.len() == l.tokens.len() implies program_spec(
        Ctx { src, toks: l.tokens, floats },
        0,
    ) == (seq![s], Seq::<Report>::empty()) by {
        let c = Ctx { src, toks: l.tokens, floats };
        lemma_decimal(v as nat);
        assert(program_spec(c, 5) == (Seq::<StmtV>::empty(), Seq::<Report>::empty()));
        assert(program_spec(c, 4) == program_spec(c, 5));
        assert(text_at(c, 1) =~= word);
        assert(text_at(c, 3) =~= decimal(v as nat));
        assert(unsigned_spec(text_at(c, 3)) == Some(v));
        assert(imm_spec(c, 3) == Ok::<(u64, int), Report>((v, 4)));
        assert(stmt_spec(c, 0) == Ok::<(StmtV, int), Report>((s, 4)));
        assert(seq![s] + Seq::<StmtV>::empty() =~= seq![s]);
    }
}

#[verifier::rlimit(80)]
proof fn lemma_dreg_round_trip(r: Seq<u8>, v: u64)
    requires
        is_ident(r),
        rendered_line(StmtV::Dir(DirV::Dreg(r, v))).len() < usize::MAX,
    ensures
        reads_back(rendered_line(StmtV::Dir(DirV::Dreg(r, v))), seq![StmtV::Dir(DirV::Dreg(r, v))]),
{
    let s = StmtV::Dir(DirV::Dreg(r, v));
    let src = rendered_line(s);
    let k = r.len() as int;
    let len = src.len() as int;
    let word = seq![0x64u8, 0x72, 0x65, 0x67];
    assert(src =~= seq![0x2eu8] + word + seq![0x20u8, 0x25] + r + seq![0x2cu8, 0x20] + (seq![0x24u8]
        + decimal(v as nat) + seq![0x0au8]));
    assert(src.subrange(k + 9, len) =~= seq![0x24u8] + decimal(v as nat) + seq![0x0au8]);
    lemma_lex_imm_line(src, k + 9, v);
    assert(lex_from(src, k + 8) == lex_from(src, k + 9));
    lemma_lex_simple(src, k + 7, TokenKind::Comma);
    assert(src.subrange(7, k + 7) =~= r);
    lemma_lex_ident(src, 7, k + 7);
    lemma_lex_simple(src, 6, TokenKind::Percent);
    assert(lex_from(src, 5) == lex_from(src, 6));
    assert(src.subrange(1, 5) =~= word);
    lemma_lex_ident(src, 1, 5);
    lemma_lex_simple(src, 0, TokenKind::Dot);
    let l = lex_from(src, 0);
    assert(l.tokens =~= seq![
        tok(src, TokenKind::Dot, 0, 0, 1),
        tok(src, TokenKind::Ident, 1, 1, 5),
        tok(src, TokenKind::Percent, 6, 6, 7),
        tok(src, TokenKind::Ident, 7, 7, k + 7),
        tok(src, TokenKind::Comma, k + 7, k + 7, k + 8),
        tok(src, TokenKind::Dollar, k + 9, k + 9, k + 10),
        tok(src, TokenKind::IntLit, k + 10, k + 10, len - 1),
        tok(src, TokenKind::LF, len - 1, len - 1, len),
    ]);
    assert(l.reports =~= Seq::<Report>::empty());
    assert forall|floats: Seq<Option<u64>>| floats.len() == l.tokens.len() implies program_spec(
        Ctx { src, toks: l.tokens, floats },
        0,
    ) == (seq![s], Seq::<Report>::empty()) by {
        let c = Ctx { src, toks: l.tokens, floats };
        lemma_decimal(v as nat);
        assert(program_spec(c, 8) == (Seq::<StmtV>::empty(), Seq::<Report>::empty()));
        assert(program_spec(c, 7) == program_spec(c, 8));
        assert(text_at(c, 1) =~= word);
        assert(text_at(c, 3) =~= r);
        assert(text_at(c, 6) =~= decimal(v as nat));
        assert(unsigned_spec(text_at(c, 6)) == Some(v));
        assert(imm_spec(c, 6) == Ok::<(u64, int), Report>((v, 7)));
        assert(stmt_spec(c, 0) == Ok::<(StmtV, int), Report>((s, 7)));
        assert(seq![s] + Seq::<StmtV>::empty() =~= seq![s]);
    }
}

/// Rendering any statement whose names are all identifiers, and then
/// scanning and parsing that text with a newline after it, gives back that
/// one statement and no report.
pub proof fn lemma_render_round_trip(s: StmtV)
    requires
        stmt_wf(s),
        rendered_line(s).len() < usize::MAX,
    ensures
        reads_back(rendered_line(s), seq![s]),
{
    match s {
        StmtV::Sym(name) => lemma_label_round_trip(name),
        StmtV::Instr(m, vs) => {
            if vs.len() == 0 {
                assert(vs =~= Seq::<ValueV>::empty());
                lemma_instr_round_trip(m);
            } else {
                lemma_instr_args_round_trip(m, vs);
            }
        },
        StmtV::Dir(d) => match d {
            DirV::Origin(v) => {
                let word = seq![0x6fu8, 0x72, 0x67];
                assert(render_stmt(s) =~= seq![0x2eu8] + word + seq![0x20u8] + render_imm(v));
                lemma_imm_directive_round_trip(s, word, v);
            },
            DirV::Dword(v) => {
                let word = seq![0x64u8, 0x77, 0x6f, 0x72, 0x64];
                assert(render_stmt(s) =~= seq![0x2eu8] + word + seq![0x20u8] + render_imm(v));
                lemma_imm_directive_round_trip(s, word, v);
            },
            DirV::Dreg(r, v) => lemma_dreg_round_trip(r, v),
            DirV::Byte(b) => {
                let word = seq![0x62u8, 0x79, 0x74, 0x65];
                assert(render_stmt(s) =~= seq![0x2eu8] + word + seq![0x20u8] + quoted(b));
                lemma_data_directive_round_trip(s, word, b);
            },
            DirV::Word(b) => {
                let word = seq![0x77u8, 0x6f, 0x72, 0x64];
                assert(render_stmt(s) =~= seq![0x2eu8] + word + seq![0x20u8] + quoted(b));
                lemma_data_directive_round_trip(s, word, b);
            },
            DirV::Ascii(b) => {
                let word = seq![0x61u8, 0x73, 0x63, 0x69, 0x69];
                assert(render_stmt(s) =~= seq![0x2eu8] + word + seq![0x20u8] + quoted(b));
                lemma_data_directive_round_trip(s, word, b);
            },
            DirV::Asciiz(b) => {
                let word = seq![0x61u8, 0x73, 0x63, 0x69, 0x69, 0x7a];
                assert(render_stmt(s) =~= seq![0x2eu8] + word + seq![0x20u8] + quoted(b));
                lemma_data_directive_round_trip(s, word, b);
            },
        },
    }
}

/// An operand whose names are identifiers.
pub open spec fn value_wf(v: ValueV) -> bool {
    match v {
        ValueV::Reg(r) => is_ident(r),
        ValueV::Imm(_) => true,
        ValueV::Sym(n) => is_ident(n),
    }
}

proof fn lemma_render_values_first(vs: Seq<ValueV>)
    requires
        vs.len() >= 2,
    ensures
        render_values(vs) == render_value(vs[0]) + seq![0x2cu8, 0x20] + render_values(vs.drop_first()),
    decreases vs.len(),
{
    if vs.len() == 2 {
        assert(vs.drop_last() =~= seq![vs[0]]);
        assert(vs.drop_first() =~= seq![vs[1]]);
        assert(render_values(vs.drop_last()) == render_value(vs[0]));
        assert(render_values(vs.drop_first()) == render_value(vs[1]));
        assert(render_values(vs) =~= render_value(vs[0]) + seq![0x2cu8, 0x20] + render_values(vs.drop_first()));
    } else {
        lemma_render_values_first(vs.drop_last());
        assert(vs.drop_last().drop_first() =~= vs.drop_first().drop_last());
        assert(vs.drop_last()[0] == vs[0]);
        assert(vs.drop_first().last() == vs.last());
        assert(render_values(vs) =~= render_value(vs[0]) + seq![0x2cu8, 0x20] + render_values(vs.drop_first()));
    }
}

/// The tokens that the text of operand `v`, at bytes `p..q`, scans to.
pub open spec fn value_tokens(src: Seq<u8>, p: int, q: int, v: ValueV) -> Seq<crate::token::Token> {
    match v {
        ValueV::Reg(_) => seq![tok(src, TokenKind::Percent, p, p, p + 1), tok(src, TokenKind::Ident, p + 1, p + 1, q)],
        ValueV::Imm(_) => seq![tok(src, TokenKind::Dollar, p, p, p + 1), tok(src, TokenKind::IntLit, p + 1, p + 1, q)],
        ValueV::Sym(_) => seq![tok(src, TokenKind::Ident, p, p, q)],
    }
}

proof fn lemma_lex_value(src: Seq<u8>, p: int, q: int, v: ValueV)
    requires
        0 <= p < q < src.len() < usize::MAX,
        value_wf(v),
        src.subrange(p, q) == render_value(v),
        src[q] == 0x2c || src[q] == 0x0a,
    ensures
        lex_from(src, p) == (Scan { tokens: value_tokens(src, p, q, v) + lex_from(src, q).tokens, ..lex_from(src, q) }),
        forall|c: Ctx, j: int| 0 <= j && j + value_tokens(src, p, q, v).len() <= c.toks.len() && c.src == src
            && c.toks.subrange(j, j + value_tokens(src, p, q, v).len()) == value_tokens(src, p, q, v)
            ==> #[trigger] value_spec(c, j) == Ok::<(ValueV, int), Report>((v, j + value_tokens(src, p, q, v).len())),
{
    let t = src.subrange(p, q);
    assert(t[0] == src[p]);
    match v {
        ValueV::Reg(r) => {
            assert(src.subrange(p + 1, q) =~= r) by {
                assert(t == seq![0x25u8] + r);
                assert(t.len() == r.len() + 1);
                assert(q - p == r.len() + 1);
                assert forall|k: int| 0 <= k < r.len() implies src.subrange(p + 1, q)[k] == r[k] by {
                    assert(src[p + 1 + k] == t[1 + k]);
                }
            }
            lemma_lex_ident(src, p + 1, q);
            lemma_lex_simple(src, p, TokenKind::Percent);
            assert(lex_from(src, p).tokens =~= value_tokens(src, p, q, v) + lex_from(src, q).tokens);
            assert forall|c: Ctx, j: int| 0 <= j && j + 2 <= c.toks.len() && c.src == src
                && c.toks.subrange(j, j + 2) == value_tokens(src, p, q, v)
                implies #[trigger] value_spec(c, j) == Ok::<(ValueV, int), Report>((v, j + 2)) by {
                assert(c.toks[j] == c.toks.subrange(j, j + 2)[0]);
                assert(c.toks[j + 1] == c.toks.subrange(j, j + 2)[1]);
                assert(text_at(c, j + 1) =~= r);
            }
        },
        ValueV::Imm(i) => {
            lemma_decimal(i as nat);
            assert(src.subrange(p + 1, q) =~= decimal(i as nat)) by {
                let d = decimal(i as nat);
                assert(t == seq![0x24u8] + d);
                assert(t.len() == d.len() + 1);
                assert(q - p == d.len() + 1);
                assert forall|k: int| 0 <= k < d.len() implies src.subrange(p + 1, q)[k] == d[k] by {
                    assert(src[p + 1 + k] == t[1 + k]);
                }
            }
            lemma_lex_int(src, p + 1, q);
            lemma_lex_simple(src, p, TokenKind::Dollar);
            assert(lex_from(src, p).tokens =~= value_tokens(src, p, q, v) + lex_from(src, q).tokens);
            assert forall|c: Ctx, j: int| 0 <= j && j + 2 <= c.toks.len() && c.src == src
                && c.toks.subrange(j, j + 2) == value_tokens(src, p, q, v)
                implies #[trigger] value_spec(c, j) == Ok::<(ValueV, int), Report>((v, j + 2)) by {
                assert(c.toks[j] == c.toks.subrange(j, j + 2)[0]);
                assert(c.toks[j + 1] == c.toks.subrange(j, j + 2)[1]);
                assert(text_at(c, j + 1) =~= decimal(i as nat));
                assert(unsigned_spec(text_at(c, j + 1)) == Some(i));
            }
        },
        ValueV::Sym(n) => {
            lemma_lex_ident(src, p, q);
            assert(lex_from(src, p).tokens =~= value_tokens(src, p, q, v) + lex_from(src, q).tokens);
            assert forall|c: Ctx, j: int| 0 <= j && j + 1 <= c.toks.len() && c.src == src
                && c.toks.subrange(j, j + 1) == value_tokens(src, p, q, v)
                implies #[trigger] value_spec(c, j) == Ok::<(ValueV, int), Report>((v, j + 1)) by {
                assert(c.toks[j] == c.toks.subrange(j, j + 1)[0]);
                assert(text_at(c, j) =~= n);
            }
        },
    }
}

/// Operands rendered at `p`, followed by a newline that ends the source, scan
/// to tokens that parse back to the same operands.
#[verifier::rlimit(60)]
proof fn lemma_args_round_trip(src: Seq<u8>, p: int, vs: Seq<ValueV>)
    requires
        0 <= p <= src.len() < usize::MAX,
        vs.len() >= 1,
        forall|k: int| 0 <= k < vs.len() ==> value_wf(#[trigger] vs[k]),
        src.subrange(p, src.len() as int) == render_values(vs) + seq![0x0au8],
    ensures
        !lex_from(src, p).fatal,
        lex_from(src, p).reports.len() == 0,
        lex_from(src, p).tokens.len() >= 2,
        lex_from(src, p).tokens.last().kind == TokenKind::LF,
        lex_from(src, p).tokens[0].kind == TokenKind::Percent || lex_from(src, p).tokens[0].kind
            == TokenKind::Dollar || lex_from(src, p).tokens[0].kind == TokenKind::Ident,
        forall|c: Ctx, j: int| 0 <= j <= c.toks.len() && c.src == src && c.toks.subrange(j, c.toks.len() as int)
            == lex_from(src, p).tokens ==> #[trigger] args_spec(c, j) == Ok::<(Seq<ValueV>, int), Report>(
            (vs, c.toks.len() - 1),
        ),
    decreases vs.len(),
{
    let v = vs[0];
    let rv = render_value(v);
    let q = p + rv.len();
    let len = src.len() as int;
    let t = src.subrange(p, len);
    assert(value_wf(v));
    if vs.len() == 1 {
        assert(render_values(vs) == rv);
        assert(t =~= rv + seq![0x0au8]);
        assert(t.len() == rv.len() + 1);
        assert(len == q + 1);
        assert(src[q] == t[q - p]);
        assert(src.subrange(p, q) =~= rv) by {
            assert forall|k: int| 0 <= k < rv.len() implies src.subrange(p, q)[k] == rv[k] by {
                assert(src[p + k] == t[k]);
            }
        }
        lemma_lex_value(src, p, q, v);
        lemma_lex_simple(src, q, TokenKind::LF);
        let vt = value_tokens(src, p, q, v);
        let l = lex_from(src, p);
        assert(l.tokens =~= vt + seq![tok(src, TokenKind::LF, q, q, q + 1)]);
        assert forall|c: Ctx, j: int| 0 <= j <= c.toks.len() && c.src == src && c.toks.subrange(j, c.toks.len() as int)
            == l.tokens implies #[trigger] args_spec(c, j) == Ok::<(Seq<ValueV>, int), Report>((vs, c.toks.len() - 1)) by {
            assert(c.toks.subrange(j, j + vt.len()) =~= vt);
            assert(c.toks[j + vt.len()] == l.tokens[vt.len() as int]);
            assert(value_spec(c, j) == Ok::<(ValueV, int), Report>((v, j + vt.len())));
            assert(seq![v] =~= vs);
        }
    } else {
        lemma_render_values_first(vs);
        let rest = vs.drop_first();
        assert forall|k: int| 0 <= k < rest.len() implies value_wf(#[trigger] rest[k]) by {
            assert(rest[k] == vs[k + 1]);
        }
        assert(t =~= rv + (seq![0x2cu8, 0x20] + (render_values(rest) + seq![0x0au8])));
        assert(t.len() == rv.len() + 2 + render_values(rest).len() + 1);
        assert(src[q] == t[q - p]);
        assert(src[q + 1] == t[q + 1 - p]);
        assert(src.subrange(p, q) =~= rv) by {
            assert forall|k: int| 0 <= k < rv.len() implies src.subrange(p, q)[k] == rv[k] by {
                assert(src[p + k] == t[k]);
            }
        }
        assert(src.subrange(q + 2, len) =~= render_values(rest) + seq![0x0au8]) by {
            let u = render_values(rest) + seq![0x0au8];
            assert forall|k: int| 0 <= k < u.len() implies src.subrange(q + 2, len)[k] == u[k] by {
                assert(src[q + 2 + k] == t[q + 2 + k - p]);
            }
        }
        lemma_args_round_trip(src, q + 2, rest);
        lemma_lex_value(src, p, q, v);
        lemma_lex_simple(src, q, TokenKind::Comma);
        assert(lex_from(src, q + 1) == lex_from(src, q + 2));
        let vt = value_tokens(src, p, q, v);
        let l = lex_from(src, p);
        let l2 = lex_from(src, q + 2);
        assert(l.tokens =~= vt + (seq![tok(src, TokenKind::Comma, q, q, q + 1)] + l2.tokens));
        assert forall|c: Ctx, j: int| 0 <= j <= c.toks.len() && c.src == src && c.toks.subrange(j, c.toks.len() as int)
            == l.tokens implies #[trigger] args_spec(c, j) == Ok::<(Seq<ValueV>, int), Report>((vs, c.toks.len() - 1)) by {
            let j2 = j + vt.len() + 1;
            assert(l.tokens.len() == vt.len() + 1 + l2.tokens.len());
            assert forall|k: int| 0 <= k < l.tokens.len() implies c.toks[j + k] == l.tokens[k] by {
                assert(c.toks.subrange(j, c.toks.len() as int)[k] == c.toks[j + k]);
            }
            assert forall|k: int| 0 <= k < l2.tokens.len() implies c.toks[j2 + k] == l2.tokens[k] by {
                assert(c.toks[j + (vt.len() + 1 + k)] == l.tokens[vt.len() + 1 + k]);
            }
            assert forall|k: int| 0 <= k < vt.len() implies c.toks[j + k] == vt[k] by {
                assert(c.toks[j + k] == l.tokens[k]);
            }
            assert(c.toks.subrange(j, j + vt.len()) =~= vt);
            assert(c.toks[j + vt.len()] == l.tokens[vt.len() as int]);
            assert(c.toks.subrange(j2, c.toks.len() as int) =~= l2.tokens);
            assert(value_spec(c, j) == Ok::<(ValueV, int), Report>((v, j + vt.len())));
            assert(args_spec(c, j2) == Ok::<(Seq<ValueV>, int), Report>((rest, c.toks.len() - 1)));
            assert(seq![v] + rest =~= vs);
        }
    }
}

#[verifier::rlimit(60)]
proof fn lemma_instr_args_round_trip(m: Seq<u8>, vs: Seq<ValueV>)
    requires
        is_ident(m),
        vs.len() >= 1,
        forall|k: int| 0 <= k < vs.len() ==> value_wf(#[trigger] vs[k]),
        rendered_line(StmtV::Instr(m, vs)).len() < usize::MAX,
    ensures
        reads_back(rendered_line(StmtV::Instr(m, vs)), seq![StmtV::Instr(m, vs)]),
{
    let s = StmtV::Instr(m, vs);
    let src = rendered_line(s);
    let n = m.len() as int;
    let len = src.len() as int;
    assert(src =~= m + seq![0x20u8] + (render_values(vs) + seq![0x0au8]));
    assert(src.subrange(0, n) =~= m);
    assert(src.subrange(n + 1, len) =~= render_values(vs) + seq![0x0au8]);
    lemma_args_round_trip(src, n + 1, vs);
    lemma_lex_ident(src, 0, n);
    assert(lex_from(src, n) == lex_from(src, n + 1));
    let l = lex_from(src, 0);
    let l2 = lex_from(src, n + 1);
    assert(l.tokens =~= seq![tok(src, TokenKind::Ident, 0, 0, n)] + l2.tokens);
    assert forall|floats: Seq<Option<u64>>| floats.len() == l.tokens.len() implies program_spec(
        Ctx { src, toks: l.tokens, floats },
        0,
    ) == (seq![s], Seq::<Report>::empty()) by {
        let c = Ctx { src, toks: l.tokens, floats };
        let e = l.tokens.len() - 1;
        assert(c.toks.subrange(1, c.toks.len() as int) =~= l2.tokens);
        assert(args_spec(c, 1) == Ok::<(Seq<ValueV>, int), Report>((vs, e)));
        assert(c.toks[1] == l2.tokens[0]);
        assert(c.toks[e] == l2.tokens.last());
        assert(text_at(c, 0) =~= m);
        assert(stmt_spec(c, 0) == Ok::<(StmtV, int), Report>((s, e)));
        assert(program_spec(c, e + 1) == (Seq::<StmtV>::empty(), Seq::<Report>::empty()));
        assert(program_spec(c, e) == program_spec(c, e + 1));
        assert(seq![s] + Seq::<StmtV>::empty() =~= seq![s]);
    }
}

proof fn lemma_string_end_escaped(src: Seq<u8>, i: int, b: Seq<u8>)
    requires
        0 <= i,
        i + escaped(b).len() <= src.len(),
        src.subrange(i, i + escaped(b).len()) == escaped(b),
    ensures
        string_end(src, i) == string_end(src, i + escaped(b).len()),
    decreases b.len(),
{
    if b.len() > 0 {
        let b2 = b.drop_last();
        let e = escaped(b);
        let e2 = escaped(b2);
        let c = b.last();
        let tail = if c == 0x5c || c == 0x22 { seq![0x5cu8, c] } else { seq![c] };
        assert(e == e2 + tail);
        assert(src.subrange(i, i + e2.len()) =~= e2) by {
            assert forall|k: int| 0 <= k < e2.len() implies src.subrange(i, i + e2.len())[k] == e2[k] by {
                assert(src.subrange(i, i + e.len())[k] == e[k]);
            }
        }
        lemma_string_end_escaped(src, i, b2);
        let j = i + e2.len();
        assert(src[j] == e[e2.len() as int]) by {
            assert(src.subrange(i, i + e.len())[e2.len() as int] == e[e2.len() as int]);
        }
    }
}

proof fn lemma_decode_escaped(b: Seq<u8>, rest: Seq<u8>)
    ensures
        decode_spec(escaped(b) + rest) == decoded_after(b, decode_spec(rest)),
    decreases b.len(),
{
    if b.len() == 0 {
        assert(escaped(b) + rest =~= rest);
        match decode_spec(rest) {
            Ok(r) => {
                assert(b + r =~= r);
            },
            Err(_) => {},
        }
    } else {
        let b2 = b.drop_last();
        let c = b.last();
        let tail = if c == 0x5c || c == 0x22 { seq![0x5cu8, c] } else { seq![c] };
        assert(escaped(b) + rest =~= escaped(b2) + (tail + rest));
        lemma_decode_escaped(b2, tail + rest);
        let tr = tail + rest;
        if c == 0x5c || c == 0x22 {
            assert(tr.subrange(2, tr.len() as int) =~= rest);
        } else {
            assert(tr.subrange(1, tr.len() as int) =~= rest);
        }
        assert(decode_spec(tr) == decoded_after(seq![c], decode_spec(rest)));
        match decode_spec(rest) {
            Ok(r) => {
                assert(b2 + (seq![c] + r) =~= b + r);
            },
            Err(_) => {},
        }
    }
}

/// The data directives, whose name is `word` and whose body is `b`.
#[verifier::rlimit(60)]
proof fn lemma_data_directive_round_trip(s: StmtV, word: Seq<u8>, b: Seq<u8>)
    requires
        rendered_line(s).len() < usize::MAX,
        is_ident(word),
        render_stmt(s) == seq![0x2eu8] + word + seq![0x20u8] + quoted(b),
        s == StmtV::Dir(DirV::Byte(b)) && dir_name(word) == Some(DirName::Byte)
            || s == StmtV::Dir(DirV::Word(b)) && dir_name(word) == Some(DirName::Word)
            || s == StmtV::Dir(DirV::Ascii(b)) && dir_name(word) == Some(DirName::Ascii)
            || s == StmtV::Dir(DirV::Asciiz(b)) && dir_name(word) == Some(DirName::Asciiz),
    ensures
        reads_back(rendered_line(s), seq![s]),
{
    let src = rendered_line(s);
    let w = word.len() as int;
    let e = escaped(b);
    let el = e.len() as int;
    let len = src.len() as int;
    assert(src =~= seq![0x2eu8] + word + seq![0x20u8, 0x22] + e + seq![0x22u8, 0x0a]);
    assert(len == w + el + 5);
    assert(src.subrange(w + 3, w + 3 + el) =~= e);
    lemma_string_end_escaped(src, w + 3, b);
    assert(string_end(src, w + 3) == Some(w + 3 + el));
    lemma_lex_simple(src, w + 4 + el, TokenKind::LF);
    assert(lex_from(src, w + 2) == crate::lexer::cons(
        tok(src, TokenKind::StrLit, w + 2, w + 3, w + 3 + el),
        lex_from(src, w + 4 + el),
    ));
    assert(lex_from(src, w + 1) == lex_from(src, w + 2));
    assert(src.subrange(1, w + 1) =~= word);
    lemma_lex_ident(src, 1, w + 1);
    lemma_lex_simple(src, 0, TokenKind::Dot);
    let l = lex_from(src, 0);
    assert(l.tokens =~= seq![
        tok(src, TokenKind::Dot, 0, 0, 1),
        tok(src, TokenKind::Ident, 1, 1, w + 1),
        tok(src, TokenKind::StrLit, w + 2, w + 3, w + 3 + el),
        tok(src, TokenKind::LF, w + 4 + el, w + 4 + el, len),
    ]);
    assert(l.reports =~= Seq::<Report>::empty());
    assert forall|floats: Seq<Option<u64>>| floats.len() == l.tokens.len() implies program_spec(
        Ctx { src, toks: l.tokens, floats },
        0,
    ) == (seq![s], Seq::<Report>::empty()) by {
        let c = Ctx { src, toks: l.tokens, floats };
        lemma_decode_escaped(b, Seq::empty());
        assert(e + Seq::<u8>::empty() =~= e);
        assert(b + Seq::<u8>::empty() =~= b);
        assert(text_at(c, 1) =~= word);
        assert(text_at(c, 2) =~= e);
        assert(decode_spec(text_at(c, 2)) == Ok::<Seq<u8>, crate::report::Error>(b));
        assert(body_spec(c, 3) == Ok::<(Seq<u8>, int), Report>((Seq::<u8>::empty(), 3)));
        assert(body_spec(c, 2) == Ok::<(Seq<u8>, int), Report>((b, 3)));
        assert(stmt_spec(c, 0) == Ok::<(StmtV, int), Report>((s, 3)));
        assert(program_spec(c, 4) == (Seq::<StmtV>::empty(), Seq::<Report>::empty()));
        assert(program_spec(c, 3) == program_spec(c, 4));
        assert(seq![s] + Seq::<StmtV>::empty() =~= seq![s]);
    }
}

} // verus!
