use vstd::prelude::*;
use crate::literal::{char_spec, decode_spec, le_bytes, signed_spec, unsigned_spec};
use crate::report::{Error, Level, Report};
use crate::stmt::{DirV, StmtV, ValueV};
use crate::token::{Token, TokenKind};

verus! {

/// What the parser reads: the source, its tokens, and for each token that is
/// a float literal the bit pattern of the double it denotes (`None` where the
/// text does not parse as one).
pub struct Ctx {
    pub src: Seq<u8>,
    pub toks: Seq<Token>,
    pub floats: Seq<Option<u64>>,
}

/// The bit that holds the sign of a double.
pub const SIGN_BIT: u64 = 0x8000_0000_0000_0000;

/// The kind of token `i`; past the last token the input reads as a newline.
pub open spec fn kind_at(c: Ctx, i: int) -> TokenKind {
    if 0 <= i < c.toks.len() {
        c.toks[i].kind
    } else {
        TokenKind::LF
    }
}

pub open spec fn text_at(c: Ctx, i: int) -> Seq<u8> {
    c.toks[i].text(c.src)
}

pub open spec fn float_at(c: Ctx, i: int) -> Option<u64> {
    if 0 <= i < c.floats.len() {
        c.floats[i]
    } else {
        None
    }
}

/// A report of `error` at token `i`.
pub open spec fn err_at(c: Ctx, i: int, error: Error) -> Report {
    Report {
        span: if 0 <= i < c.toks.len() { Some(c.toks[i].pos) } else { None },
        level: Level::Error,
        error,
    }
}

pub open spec fn is_num_start(k: TokenKind) -> bool {
    k == TokenKind::IntLit || k == TokenKind::FloatLit || k == TokenKind::CharLit || k
        == TokenKind::Minus || k == TokenKind::Plus
}

pub open spec fn is_lit_start(k: TokenKind) -> bool {
    k == TokenKind::StrLit || is_num_start(k)
}

/// An immediate at token `i`: an integer, float or character literal, or an
/// integer or float literal after a sign. On success, the bit pattern and the
/// index of the token after it.
pub open spec fn imm_spec(c: Ctx, i: int) -> Result<(u64, int), Report> {
    let k = kind_at(c, i);
    if k == TokenKind::IntLit {
        match unsigned_spec(text_at(c, i)) {
            Some(v) => Ok((v, i + 1)),
            None => Err(err_at(c, i, Error::NumericParseFailure)),
        }
    } else if k == TokenKind::FloatLit {
        match float_at(c, i) {
            Some(b) => Ok((b, i + 1)),
            None => Err(err_at(c, i, Error::NumericParseFailure)),
        }
    } else if k == TokenKind::CharLit {
        match char_spec(text_at(c, i)) {
            Ok(v) => Ok((v, i + 1)),
            Err(e) => Err(err_at(c, i, e)),
        }
    } else if (k == TokenKind::Minus || k == TokenKind::Plus) && kind_at(c, i + 1)
        == TokenKind::IntLit {
        match signed_spec(k == TokenKind::Minus, text_at(c, i + 1)) {
            Some(v) => Ok((v, i + 2)),
            None => Err(err_at(c, i + 1, Error::NumericParseFailure)),
        }
    } else if (k == TokenKind::Minus || k == TokenKind::Plus) && kind_at(c, i + 1)
        == TokenKind::FloatLit {
        match float_at(c, i + 1) {
            Some(b) => Ok((if k == TokenKind::Minus { b ^ SIGN_BIT } else { b }, i + 2)),
            None => Err(err_at(c, i + 1, Error::NumericParseFailure)),
        }
    } else {
        Err(err_at(c, i, Error::UnexpectedToken))
    }
}

/// A register name at token `i`.
pub open spec fn reg_spec(c: Ctx, i: int) -> Result<(Seq<u8>, int), Report> {
    if kind_at(c, i) == TokenKind::Ident {
        Ok((text_at(c, i), i + 1))
    } else {
        Err(err_at(c, i, Error::UnexpectedToken))
    }
}

/// `$` and an immediate, at token `i`.
pub open spec fn dollar_imm_spec(c: Ctx, i: int) -> Result<(u64, int), Report> {
    if kind_at(c, i) == TokenKind::Dollar {
        imm_spec(c, i + 1)
    } else {
        Err(err_at(c, i, Error::UnexpectedToken))
    }
}

/// `%` and a register name, at token `i`.
pub open spec fn percent_reg_spec(c: Ctx, i: int) -> Result<(Seq<u8>, int), Report> {
    if kind_at(c, i) == TokenKind::Percent {
        reg_spec(c, i + 1)
    } else {
        Err(err_at(c, i, Error::UnexpectedToken))
    }
}

/// An operand at token `i`: `$imm`, `%reg` or a symbol.
pub open spec fn value_spec(c: Ctx, i: int) -> Result<(ValueV, int), Report> {
    let k = kind_at(c, i);
    if k == TokenKind::Dollar {
        match imm_spec(c, i + 1) {
            Ok((v, n)) => Ok((ValueV::Imm(v), n)),
            Err(e) => Err(e),
        }
    } else if k == TokenKind::Percent {
        match reg_spec(c, i + 1) {
            Ok((r, n)) => Ok((ValueV::Reg(r), n)),
            Err(e) => Err(e),
        }
    } else if k == TokenKind::Ident {
        Ok((ValueV::Sym(text_at(c, i)), i + 1))
    } else {
        Err(err_at(c, i, Error::UnexpectedToken))
    }
}

/// Operands separated by commas, from token `i` to the end of the line.
pub open spec fn args_spec(c: Ctx, i: int) -> Result<(Seq<ValueV>, int), Report>
    decreases c.toks.len() - i,
{
    match value_spec(c, i) {
        Err(e) => Err(e),
        Ok((v, n)) => {
            if kind_at(c, n) == TokenKind::LF {
                Ok((seq![v], n))
            } else if kind_at(c, n) == TokenKind::Comma {
                match args_spec(c, n + 1) {
                    Ok((vs, m)) => Ok((seq![v] + vs, m)),
                    Err(e) => Err(e),
                }
            } else {
                Err(err_at(c, n, Error::MissingComma))
            }
        },
    }
}

pub open spec fn prepend_bytes(b: Seq<u8>, r: Result<(Seq<u8>, int), Report>) -> Result<
    (Seq<u8>, int),
    Report,
> {
    match r {
        Ok((rest, n)) => Ok((b + rest, n)),
        Err(e) => Err(e),
    }
}

/// The body of a data directive from token `i`: literals, on this line and on
/// each following line that starts with a literal. A string contributes its
/// decoded bytes, any other literal the eight bytes of its immediate, least
/// significant first. The body ends at the newline before the first line that
/// does not start with a literal.
pub open spec fn body_spec(c: Ctx, i: int) -> Result<(Seq<u8>, int), Report>
    decreases c.toks.len() - i,
{
    let k = kind_at(c, i);
    if k == TokenKind::StrLit {
        match decode_spec(text_at(c, i)) {
            Err(e) => Err(err_at(c, i, e)),
            Ok(b) => prepend_bytes(b, body_spec(c, i + 1)),
        }
    } else if is_num_start(k) {
        match imm_spec(c, i) {
            Err(e) => Err(e),
            Ok((v, n)) => prepend_bytes(le_bytes(v), body_spec(c, n)),
        }
    } else if k == TokenKind::LF {
        if is_lit_start(kind_at(c, i + 1)) {
            body_spec(c, i + 1)
        } else {
            Ok((Seq::<u8>::empty(), i))
        }
    } else {
        Err(err_at(c, i, Error::UnexpectedToken))
    }
}

/// The known directives.
#[derive(Clone, Copy, Debug, PartialEq, Eq, Structural)]
pub enum DirName {
    Org,
    Byte,
    Word,
    Ascii,
    Asciiz,
    Dreg,
    Dword,
}

/// Which directive a name spells, if any.
pub open spec fn dir_name(s: Seq<u8>) -> Option<DirName> {
    if s == seq![0x6fu8, 0x72, 0x67] {
        Some(DirName::Org)
    } else if s == seq![0x62u8, 0x79, 0x74, 0x65] {
        Some(DirName::Byte)
    } else if s == seq![0x77u8, 0x6f, 0x72, 0x64] {
        Some(DirName::Word)
    } else if s == seq![0x61u8, 0x73, 0x63, 0x69, 0x69] {
        Some(DirName::Ascii)
    } else if s == seq![0x61u8, 0x73, 0x63, 0x69, 0x69, 0x7a] {
        Some(DirName::Asciiz)
    } else if s == seq![0x64u8, 0x72, 0x65, 0x67] {
        Some(DirName::Dreg)
    } else if s == seq![0x64u8, 0x77, 0x6f, 0x72, 0x64] {
        Some(DirName::Dword)
    } else {
        None
    }
}

/// A directive whose name is token `i` (the token after the dot).
pub open spec fn directive_spec(c: Ctx, i: int) -> Result<(DirV, int), Report> {
    if kind_at(c, i) != TokenKind::Ident {
        Err(err_at(c, i, Error::UnexpectedToken))
    } else {
        match dir_name(text_at(c, i)) {
            None => Err(err_at(c, i, Error::UnknownDirective)),
            Some(DirName::Org) => match dollar_imm_spec(c, i + 1) {
                Ok((v, n)) => Ok((DirV::Origin(v), n)),
                Err(e) => Err(e),
            },
            Some(DirName::Dword) => match dollar_imm_spec(c, i + 1) {
                Ok((v, n)) => Ok((DirV::Dword(v), n)),
                Err(e) => Err(e),
            },
            Some(DirName::Dreg) => match percent_reg_spec(c, i + 1) {
                Err(e) => Err(e),
                Ok((r, n)) => {
                    if kind_at(c, n) == TokenKind::Comma {
                        match dollar_imm_spec(c, n + 1) {
                            Ok((v, m)) => Ok((DirV::Dreg(r, v), m)),
                            Err(e) => Err(e),
                        }
                    } else {
                        Err(err_at(c, n, Error::MissingComma))
                    }
                },
            },
            Some(d) => match body_spec(c, i + 1) {
                Err(e) => Err(e),
                Ok((b, n)) => Ok((
                    match d {
                        DirName::Byte => DirV::Byte(b),
                        DirName::Word => DirV::Word(b),
                        DirName::Ascii => DirV::Ascii(b),
                        _ => DirV::Asciiz(b),
                    },
                    n,
                )),
            },
        }
    }
}

/// A statement at token `i`: a label, an instruction or a directive.
pub open spec fn stmt_spec(c: Ctx, i: int) -> Result<(StmtV, int), Report> {
    let k = kind_at(c, i);
    if k == TokenKind::Ident && kind_at(c, i + 1) == TokenKind::Colon {
        Ok((StmtV::Sym(text_at(c, i)), i + 2))
    } else if k == TokenKind::Ident {
        if kind_at(c, i + 1) == TokenKind::LF {
            Ok((StmtV::Instr(text_at(c, i), Seq::empty()), i + 1))
        } else {
            match args_spec(c, i + 1) {
                Ok((vs, n)) => Ok((StmtV::Instr(text_at(c, i), vs), n)),
                Err(e) => Err(e),
            }
        }
    } else if k == TokenKind::Dot {
        match directive_spec(c, i + 1) {
            Ok((d, n)) => Ok((StmtV::Dir(d), n)),
            Err(e) => Err(e),
        }
    } else {
        Err(err_at(c, i, Error::UnexpectedToken))
    }
}

/// The index of the first newline token at or after `i`, or the end.
pub open spec fn lf_from(c: Ctx, i: int) -> int
    decreases c.toks.len() - i,
{
    if 0 <= i < c.toks.len() && c.toks[i].kind != TokenKind::LF {
        lf_from(c, i + 1)
    } else {
        i
    }
}

/// The statements and the reports of the program from token `i` on. A line
/// that fails yields one report and no statement, and parsing goes on after
/// the next newline.
pub open spec fn program_spec(c: Ctx, i: int) -> (Seq<StmtV>, Seq<Report>)
    decreases c.toks.len() - i via program_spec_decreases
{
    if i < 0 || i >= c.toks.len() {
        (Seq::empty(), Seq::empty())
    } else if kind_at(c, i) == TokenKind::LF {
        program_spec(c, i + 1)
    } else {
        match stmt_spec(c, i) {
            Ok((s, n)) => {
                if kind_at(c, n) == TokenKind::LF {
                    let r = program_spec(c, n);
                    (seq![s] + r.0, r.1)
                } else {
                    let r = program_spec(c, lf_from(c, n));
                    (r.0, seq![err_at(c, n, Error::UnexpectedToken)] + r.1)
                }
            },
            Err(e) => {
                let r = program_spec(c, lf_from(c, i));
                (r.0, seq![e] + r.1)
            },
        }
    }
}

pub proof fn lemma_lf_from(c: Ctx, i: int)
    requires
        0 <= i,
    ensures
        i <= lf_from(c, i),
        i <= c.toks.len() ==> lf_from(c, i) <= c.toks.len(),
        0 <= i < c.toks.len() && c.toks[i].kind != TokenKind::LF ==> lf_from(c, i) > i,
    decreases c.toks.len() - i,
{
    if 0 <= i < c.toks.len() && c.toks[i].kind != TokenKind::LF {
        lemma_lf_from(c, i + 1);
    }
}

pub proof fn lemma_args_end(c: Ctx, i: int)
    requires
        0 <= i,
    ensures
        args_spec(c, i) matches Ok((_, n)) ==> i < n <= c.toks.len(),
    decreases c.toks.len() - i,
{
    if let Ok((_, n)) = value_spec(c, i) {
        if kind_at(c, n) == TokenKind::Comma {
            lemma_args_end(c, n + 1);
        }
    }
}

pub proof fn lemma_body_end(c: Ctx, i: int)
    requires
        0 <= i,
    ensures
        body_spec(c, i) matches Ok((_, n)) ==> i <= n && (i <= c.toks.len() ==> n <= c.toks.len()),
    decreases c.toks.len() - i,
{
    let k = kind_at(c, i);
    if k == TokenKind::StrLit {
        lemma_body_end(c, i + 1);
    } else if is_num_start(k) {
        if let Ok((_, n)) = imm_spec(c, i) {
            lemma_body_end(c, n);
        }
    } else if k == TokenKind::LF && is_lit_start(kind_at(c, i + 1)) {
        lemma_body_end(c, i + 1);
    }
}

pub proof fn lemma_stmt_end(c: Ctx, i: int)
    requires
        0 <= i,
    ensures
        stmt_spec(c, i) matches Ok((_, n)) ==> i < n <= c.toks.len(),
{
    lemma_args_end(c, i + 1);
    lemma_body_end(c, i + 2);
}

#[via_fn]
proof fn program_spec_decreases(c: Ctx, i: int) {
    if 0 <= i < c.toks.len() {
        lemma_stmt_end(c, i);
        lemma_lf_from(c, i);
        if let Ok((_, n)) = stmt_spec(c, i) {
            lemma_lf_from(c, n);
        }
    }
}

} // verus!
