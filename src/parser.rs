use vstd::prelude::*;
use crate::grammar::{
    args_spec, body_spec, dir_name, directive_spec, dollar_imm_spec, err_at, float_at, imm_spec,
    is_lit_start, is_num_start, kind_at, lf_from, percent_reg_spec, program_spec, reg_spec, stmt_spec,
    text_at, value_spec, Ctx, DirName, SIGN_BIT,
};
use crate::literal::{parse_char, parse_signed, parse_string, parse_unsigned, push_le_bytes};
use crate::report::{Error, Report};
use crate::stmt::{Dir, Stmt, StmtV, Value, ValueV, values_view};
use crate::token::{Token, TokenKind};

verus! {

pub open spec fn stmts_view(s: Seq<Stmt>) -> Seq<StmtV> {
    s.map_values(|x: Stmt| x@)
}

/// Every token's text lies within the source.
pub open spec fn tokens_fit(src: Seq<u8>, toks: Seq<Token>) -> bool {
    forall|i: int| 0 <= i < toks.len() ==> (#[trigger] toks[i]).in_bounds(src.len())
}

/// The parser's state: the tokens, the index of the current one, and what
/// has been produced so far.
pub struct Parser {
    tokens: Vec<Token>,
    index: usize,
    stmts: Vec<Stmt>,
    reports: Vec<Report>,
}

/// A copy of `src[start..end]`.
fn copy_range(src: &[u8], start: usize, end: usize) -> (r: Vec<u8>)
    requires
        start <= end <= src@.len(),
    ensures
        r@ == src@.subrange(start as int, end as int),
{
    let mut out: Vec<u8> = Vec::new();
    let mut i: usize = start;
    while i < end
        invariant
            start <= i <= end <= src@.len(),
            out@ == src@.subrange(start as int, i as int),
        decreases end - i,
    {
        out.push(src[i]);
        i = i + 1;
        assert(out@ =~= src@.subrange(start as int, i as int));
    }
    out
}

/// Whether `src[start..end]` spells `word`.
fn spells(src: &[u8], start: usize, end: usize, word: &Vec<u8>) -> (r: bool)
    requires
        start <= end <= src@.len(),
    ensures
        r == (src@.subrange(start as int, end as int) == word@),
{
    if end - start != word.len() {
        return false;
    }
    let mut i: usize = 0;
    while i < word.len()
        invariant
            start <= end <= src@.len(),
            end - start == word@.len(),
            i <= word@.len(),
            forall|k: int| 0 <= k < i ==> src@[start + k] == word@[k],
        decreases word@.len() - i,
    {
        if src[start + i] != word[i] {
            assert(src@.subrange(start as int, end as int)[i as int] != word@[i as int]);
            return false;
        }
        i = i + 1;
    }
    assert(src@.subrange(start as int, end as int) =~= word@);
    true
}

/// Which directive `src[start..end]` names, if any.
fn directive_name(src: &[u8], start: usize, end: usize) -> (r: Option<DirName>)
    requires
        start <= end <= src@.len(),
    ensures
        r == dir_name(src@.subrange(start as int, end as int)),
{
    let ghost s = src@.subrange(start as int, end as int);
    if spells(src, start, end, &vec![0x6fu8, 0x72, 0x67]) {
        assert(s == seq![0x6fu8, 0x72, 0x67]);
        Some(DirName::Org)
    } else if spells(src, start, end, &vec![0x62u8, 0x79, 0x74, 0x65]) {
        Some(DirName::Byte)
    } else if spells(src, start, end, &vec![0x77u8, 0x6f, 0x72, 0x64]) {
        Some(DirName::Word)
    } else if spells(src, start, end, &vec![0x61u8, 0x73, 0x63, 0x69, 0x69]) {
        Some(DirName::Ascii)
    } else if spells(src, start, end, &vec![0x61u8, 0x73, 0x63, 0x69, 0x69, 0x7a]) {
        Some(DirName::Asciiz)
    } else if spells(src, start, end, &vec![0x64u8, 0x72, 0x65, 0x67]) {
        Some(DirName::Dreg)
    } else if spells(src, start, end, &vec![0x64u8, 0x77, 0x6f, 0x72, 0x64]) {
        Some(DirName::Dword)
    } else {
        None
    }
}

impl Parser {
    pub closed spec fn spec_tokens(&self) -> Seq<Token> {
        self.tokens@
    }

    pub closed spec fn spec_index(&self) -> int {
        self.index as int
    }

    pub closed spec fn spec_stmts(&self) -> Seq<Stmt> {
        self.stmts@
    }

    pub closed spec fn spec_reports(&self) -> Seq<Report> {
        self.reports@
    }

    /// What the parser reads, given the source and the float table.
    pub open spec fn ctx(&self, src: Seq<u8>, floats: Seq<Option<u64>>) -> Ctx {
        Ctx { src, toks: self.spec_tokens(), floats }
    }

    /// The parser stands at or before the end of its tokens, whose texts lie
    /// within `src`, and `floats` has one entry per token.
    pub open spec fn wf(&self, src: Seq<u8>, floats: Seq<Option<u64>>) -> bool {
        &&& 0 <= self.spec_index() <= self.spec_tokens().len() < usize::MAX
        &&& tokens_fit(src, self.spec_tokens())
        &&& floats.len() == self.spec_tokens().len()
    }

    /// A parser at the first of `tokens`, with nothing produced yet.
    pub fn new(tokens: Vec<Token>) -> (r: Parser)
        ensures
            r.spec_tokens() == tokens@,
            r.spec_index() == 0,
            r.spec_stmts().len() == 0,
            r.spec_reports().len() == 0,
    {
        Parser { tokens, index: 0, stmts: Vec::new(), reports: Vec::new() }
    }

    /// The statements and reports produced so far.
    pub fn into_parts(self) -> (r: (Vec<Stmt>, Vec<Report>))
        ensures
            r.0@ == self.spec_stmts(),
            r.1@ == self.spec_reports(),
    {
        (self.stmts, self.reports)
    }

    /// `after` differs from `self` at most in the current index.
    spec fn moved(&self, after: &Parser) -> bool {
        &&& after.tokens@ == self.tokens@
        &&& after.stmts@ == self.stmts@
        &&& after.reports@ == self.reports@
        &&& after.index <= after.tokens@.len()
    }

    /// The kind of token `i`; past the end, a newline.
    fn kind(&self, i: usize) -> (r: TokenKind)
        ensures
            r == kind_at(Ctx { src: Seq::empty(), toks: self.tokens@, floats: Seq::empty() }, i as int),
    {
        if i < self.tokens.len() {
            self.tokens[i].kind
        } else {
            TokenKind::LF
        }
    }

    /// The kind of the current token.
    fn current(&self) -> (r: TokenKind)
        ensures
            r == kind_at(Ctx { src: Seq::empty(), toks: self.tokens@, floats: Seq::empty() }, self.index as int),
    {
        self.kind(self.index)
    }

    /// The kind of the token after the current one.
    fn peek(&self) -> (r: TokenKind)
        requires
            self.index < usize::MAX,
        ensures
            r == kind_at(Ctx { src: Seq::empty(), toks: self.tokens@, floats: Seq::empty() }, self.index + 1),
    {
        self.kind(self.index + 1)
    }

    /// Steps to the next token.
    fn advance(&mut self)
        requires
            old(self).index < old(self).tokens@.len() < usize::MAX,
        ensures
            final(self).index == old(self).index + 1,
            old(self).moved(final(self)),
    {
        self.index = self.index + 1;
    }

    /// A report of `error` at token `i`.
    fn error_at(&self, i: usize, error: Error) -> (r: Report)
        ensures
            r == err_at(Ctx { src: Seq::empty(), toks: self.tokens@, floats: Seq::empty() }, i as int, error),
    {
        if i < self.tokens.len() {
            error.span(self.tokens[i].pos)
        } else {
            Report::new(error)
        }
    }

    /// An immediate at the current token.
    fn parse_immediate(&mut self, src: &[u8], floats: &Vec<Option<u64>>) -> (r: Result<u64, Report>)
        requires
            old(self).wf(src@, floats@),
        ensures
            old(self).moved(final(self)),
            match imm_spec(old(self).ctx(src@, floats@), old(self).index as int) {
                Ok((v, n)) => r == Ok::<u64, Report>(v) && final(self).index == n,
                Err(e) => r == Err::<u64, Report>(e),
            },
    {
        let ghost c = self.ctx(src@, floats@);
        let i = self.index;
        let k = self.current();
        if k == TokenKind::IntLit {
            let t = self.tokens[i];
            assert(t.in_bounds(src@.len()));
            match parse_unsigned(src, t.start, t.end) {
                Ok(v) => {
                    self.advance();
                    Ok(v)
                },
                Err(_) => Err(self.error_at(i, Error::NumericParseFailure)),
            }
        } else if k == TokenKind::FloatLit {
            match floats[i] {
                Some(b) => {
                    self.advance();
                    Ok(b)
                },
                None => Err(self.error_at(i, Error::NumericParseFailure)),
            }
        } else if k == TokenKind::CharLit {
            let t = self.tokens[i];
            assert(t.in_bounds(src@.len()));
            match parse_char(src, t.start, t.end) {
                Ok(v) => {
                    self.advance();
                    Ok(v)
                },
                Err(e) => Err(self.error_at(i, e)),
            }
        } else if (k == TokenKind::Minus || k == TokenKind::Plus) && self.peek() == TokenKind::IntLit {
            let t = self.tokens[i + 1];
            assert(t.in_bounds(src@.len()));
            match parse_signed(k == TokenKind::Minus, src, t.start, t.end) {
                Ok(v) => {
                    self.advance();
                    self.advance();
                    Ok(v)
                },
                Err(_) => Err(self.error_at(i + 1, Error::NumericParseFailure)),
            }
        } else if (k == TokenKind::Minus || k == TokenKind::Plus) && self.peek() == TokenKind::FloatLit {
            match floats[i + 1] {
                Some(b) => {
                    self.advance();
                    self.advance();
                    Ok(if k == TokenKind::Minus { b ^ SIGN_BIT } else { b })
                },
                None => Err(self.error_at(i + 1, Error::NumericParseFailure)),
            }
        } else {
            Err(self.error_at(i, Error::UnexpectedToken))
        }
    }

    /// A register name at the current token.
    fn parse_register(&mut self, src: &[u8], floats: &Vec<Option<u64>>) -> (r: Result<Vec<u8>, Report>)
        requires
            old(self).wf(src@, floats@),
        ensures
            old(self).moved(final(self)),
            match reg_spec(old(self).ctx(src@, floats@), old(self).index as int) {
                Ok((v, n)) => r is Ok && r->Ok_0@ == v && final(self).index == n,
                Err(e) => r == Err::<Vec<u8>, Report>(e),
            },
    {
        let i = self.index;
        if self.current() == TokenKind::Ident {
            let t = self.tokens[i];
            assert(t.in_bounds(src@.len()));
            self.advance();
            Ok(copy_range(src, t.start, t.end))
        } else {
            Err(self.error_at(i, Error::UnexpectedToken))
        }
    }

    /// `$` and an immediate.
    fn parse_dollar_immediate(&mut self, src: &[u8], floats: &Vec<Option<u64>>) -> (r: Result<u64, Report>)
        requires
            old(self).wf(src@, floats@),
        ensures
            old(self).moved(final(self)),
            match dollar_imm_spec(old(self).ctx(src@, floats@), old(self).index as int) {
                Ok((v, n)) => r == Ok::<u64, Report>(v) && final(self).index == n,
                Err(e) => r == Err::<u64, Report>(e),
            },
    {
        if self.current() == TokenKind::Dollar {
            self.advance();
            self.parse_immediate(src, floats)
        } else {
            Err(self.error_at(self.index, Error::UnexpectedToken))
        }
    }

    /// `%` and a register name.
    fn parse_percent_register(&mut self, src: &[u8], floats: &Vec<Option<u64>>) -> (r: Result<Vec<u8>, Report>)
        requires
            old(self).wf(src@, floats@),
        ensures
            old(self).moved(final(self)),
            match percent_reg_spec(old(self).ctx(src@, floats@), old(self).index as int) {
                Ok((v, n)) => r is Ok && r->Ok_0@ == v && final(self).index == n,
                Err(e) => r == Err::<Vec<u8>, Report>(e),
            },
    {
        if self.current() == TokenKind::Percent {
            self.advance();
            self.parse_register(src, floats)
        } else {
            Err(self.error_at(self.index, Error::UnexpectedToken))
        }
    }

    /// An operand at the current token.
    fn parse_value(&mut self, src: &[u8], floats: &Vec<Option<u64>>) -> (r: Result<Value, Report>)
        requires
            old(self).wf(src@, floats@),
        ensures
            old(self).moved(final(self)),
            match value_spec(old(self).ctx(src@, floats@), old(self).index as int) {
                Ok((v, n)) => r is Ok && r->Ok_0@ == v && final(self).index == n,
                Err(e) => r == Err::<Value, Report>(e),
            },
    {
        let i = self.index;
        let k = self.current();
        if k == TokenKind::Dollar {
            self.advance();
            match self.parse_immediate(src, floats) {
                Ok(v) => Ok(Value::Imm(v)),
                Err(e) => Err(e),
            }
        } else if k == TokenKind::Percent {
            self.advance();
            match self.parse_register(src, floats) {
                Ok(r) => Ok(Value::Reg(r)),
                Err(e) => Err(e),
            }
        } else if k == TokenKind::Ident {
            let t = self.tokens[i];
            assert(t.in_bounds(src@.len()));
            self.advance();
            Ok(Value::Sym(copy_range(src, t.start, t.end)))
        } else {
            Err(self.error_at(i, Error::UnexpectedToken))
        }
    }

    /// Operands separated by commas, up to the end of the line.
    fn parse_args(&mut self, src: &[u8], floats: &Vec<Option<u64>>) -> (r: Result<Vec<Value>, Report>)
        requires
            old(self).wf(src@, floats@),
        ensures
            old(self).moved(final(self)),
            match args_spec(old(self).ctx(src@, floats@), old(self).index as int) {
                Ok((vs, n)) => r is Ok && values_view(r->Ok_0@) == vs && final(self).index == n,
                Err(e) => r == Err::<Vec<Value>, Report>(e),
            },
    {
        let ghost c = self.ctx(src@, floats@);
        let ghost first = self.index as int;
        let mut args: Vec<Value> = Vec::new();
        assert(values_view(args@) =~= Seq::<ValueV>::empty());
        loop
            invariant
                self.wf(src@, floats@),
                old(self).moved(self),
                c == self.ctx(src@, floats@),
                c == old(self).ctx(src@, floats@),
                first == old(self).index,
                args_spec(c, first) == match args_spec(c, self.index as int) {
                    Ok((vs, n)) => Ok((values_view(args@) + vs, n)),
                    Err(e) => Err(e),
                },
            decreases self.tokens@.len() - self.index,
        {
            let ghost before = self.index as int;
            let v = match self.parse_value(src, floats) {
                Ok(v) => v,
                Err(e) => {
                    return Err(e);
                },
            };
            let ghost vv = v@;
            assert(values_view(args@.push(v)) =~= values_view(args@).push(vv));
            let ghost prev = args@;
            args.push(v);
            assert(args@.drop_last() =~= prev);
            if self.current() == TokenKind::LF {
                assert(values_view(args@) =~= values_view(args@.drop_last()) + seq![vv]);
                return Ok(args);
            } else if self.current() == TokenKind::Comma {
                let ghost n = self.index as int;
                self.advance();
                proof {
                    assert(value_spec(c, before) == Ok::<(ValueV, int), Report>((vv, n)));
                    assert(args_spec(c, before) == match args_spec(c, n + 1) {
                        Ok((vs, m)) => Ok((seq![vv] + vs, m)),
                        Err(e) => Err(e),
                    });
                    match args_spec(c, n + 1) {
                        Ok((vs, m)) => {
                            assert(values_view(args@) + vs =~= values_view(args@.drop_last()) + (seq![vv] + vs));
                        },
                        Err(e) => {},
                    }
                }
            } else {
                return Err(self.error_at(self.index, Error::MissingComma));
            }
        }
    }

    /// The body of a data directive, from the current token.
    fn lit_bytes_lf(&mut self, src: &[u8], floats: &Vec<Option<u64>>) -> (r: Result<Vec<u8>, Report>)
        requires
            old(self).wf(src@, floats@),
        ensures
            old(self).moved(final(self)),
            match body_spec(old(self).ctx(src@, floats@), old(self).index as int) {
                Ok((b, n)) => r is Ok && r->Ok_0@ == b && final(self).index == n,
                Err(e) => r == Err::<Vec<u8>, Report>(e),
            },
    {
        let ghost c = self.ctx(src@, floats@);
        let ghost first = self.index as int;
        let mut buf: Vec<u8> = Vec::new();
        loop
            invariant
                self.wf(src@, floats@),
                old(self).moved(self),
                c == self.ctx(src@, floats@),
                c == old(self).ctx(src@, floats@),
                first == old(self).index,
                body_spec(c, first) == match body_spec(c, self.index as int) {
                    Ok((b, n)) => Ok((buf@ + b, n)),
                    Err(e) => Err(e),
                },
            decreases self.tokens@.len() - self.index,
        {
            let i = self.index;
            let k = self.current();
            if k == TokenKind::StrLit {
                let t = self.tokens[i];
                assert(t.in_bounds(src@.len()));
                match parse_string(src, t.start, t.end) {
                    Ok(b) => {
                        let mut b = b;
                        let ghost bb = b@;
                        self.advance();
                        assert forall|x: Seq<u8>| (buf@ + bb) + x == buf@ + (bb + x) by {
                            assert((buf@ + bb) + x =~= buf@ + (bb + x));
                        }
                        buf.append(&mut b);
                    },
                    Err(e) => {
                        return Err(self.error_at(i, e));
                    },
                }
            } else if k == TokenKind::IntLit || k == TokenKind::FloatLit || k == TokenKind::CharLit
                || k == TokenKind::Minus || k == TokenKind::Plus {
                match self.parse_immediate(src, floats) {
                    Ok(v) => {
                        assert forall|x: Seq<u8>| (buf@ + crate::literal::le_bytes(v)) + x == buf@ + (crate::literal::le_bytes(v) + x) by {
                            assert((buf@ + crate::literal::le_bytes(v)) + x =~= buf@ + (crate::literal::le_bytes(v) + x));
                        }
                        push_le_bytes(&mut buf, v);
                    },
                    Err(e) => {
                        return Err(e);
                    },
                }
            } else if k == TokenKind::LF {
                let p = self.peek();
                if p == TokenKind::StrLit || p == TokenKind::IntLit || p == TokenKind::FloatLit || p
                    == TokenKind::CharLit || p == TokenKind::Minus || p == TokenKind::Plus {
                    self.advance();
                } else {
                    assert(buf@ + Seq::<u8>::empty() =~= buf@);
                    return Ok(buf);
                }
            } else {
                return Err(self.error_at(i, Error::UnexpectedToken));
            }
        }
    }

    /// A directive whose name is the current token.
    fn parse_directive(&mut self, src: &[u8], floats: &Vec<Option<u64>>) -> (r: Result<Dir, Report>)
        requires
            old(self).wf(src@, floats@),
        ensures
            old(self).moved(final(self)),
            match directive_spec(old(self).ctx(src@, floats@), old(self).index as int) {
                Ok((d, n)) => r is Ok && r->Ok_0@ == d && final(self).index == n,
                Err(e) => r == Err::<Dir, Report>(e),
            },
    {
        let i = self.index;
        if self.current() != TokenKind::Ident {
            return Err(self.error_at(i, Error::UnexpectedToken));
        }
        let t = self.tokens[i];
        assert(t.in_bounds(src@.len()));
        let name = directive_name(src, t.start, t.end);
        match name {
            None => Err(self.error_at(i, Error::UnknownDirective)),
            Some(DirName::Org) => {
                self.advance();
                match self.parse_dollar_immediate(src, floats) {
                    Ok(v) => Ok(Dir::Origin(v)),
                    Err(e) => Err(e),
                }
            },
            Some(DirName::Dword) => {
                self.advance();
                match self.parse_dollar_immediate(src, floats) {
                    Ok(v) => Ok(Dir::Dword(v)),
                    Err(e) => Err(e),
                }
            },
            Some(DirName::Dreg) => {
                self.advance();
                let r = match self.parse_percent_register(src, floats) {
                    Ok(r) => r,
                    Err(e) => {
                        return Err(e);
                    },
                };
                if self.current() != TokenKind::Comma {
                    return Err(self.error_at(self.index, Error::MissingComma));
                }
                self.advance();
                match self.parse_dollar_immediate(src, floats) {
                    Ok(v) => Ok(Dir::Dreg(r, v)),
                    Err(e) => Err(e),
                }
            },
            Some(d) => {
                self.advance();
                match self.lit_bytes_lf(src, floats) {
                    Ok(b) => Ok(
                        match d {
                            DirName::Byte => Dir::Byte(b),
                            DirName::Word => Dir::Word(b),
                            DirName::Ascii => Dir::Ascii(b),
                            _ => Dir::Asciiz(b),
                        },
                    ),
                    Err(e) => Err(e),
                }
            },
        }
    }

    /// A statement at the current token.
    fn parse_statement(&mut self, src: &[u8], floats: &Vec<Option<u64>>) -> (r: Result<Stmt, Report>)
        requires
            old(self).wf(src@, floats@),
        ensures
            old(self).moved(final(self)),
            match stmt_spec(old(self).ctx(src@, floats@), old(self).index as int) {
                Ok((st, n)) => r is Ok && r->Ok_0@ == st && final(self).index == n,
                Err(e) => r == Err::<Stmt, Report>(e),
            },
    {
        let i = self.index;
        let k = self.current();
        if k == TokenKind::Ident {
            let t = self.tokens[i];
            assert(t.in_bounds(src@.len()));
            let name = copy_range(src, t.start, t.end);
            if self.peek() == TokenKind::Colon {
                self.advance();
                self.advance();
                Ok(Stmt::Sym(name))
            } else {
                self.advance();
                if self.current() == TokenKind::LF {
                    assert(values_view(Seq::<Value>::empty()) =~= Seq::<ValueV>::empty());
                    return Ok(Stmt::Instr(name, Vec::new()));
                }
                match self.parse_args(src, floats) {
                    Ok(args) => Ok(Stmt::Instr(name, args)),
                    Err(e) => Err(e),
                }
            }
        } else if k == TokenKind::Dot {
            self.advance();
            match self.parse_directive(src, floats) {
                Ok(d) => Ok(Stmt::Dir(d)),
                Err(e) => Err(e),
            }
        } else {
            Err(self.error_at(i, Error::UnexpectedToken))
        }
    }

    /// Skips to the next newline token, or to the end.
    fn skip_line(&mut self, src: &[u8], floats: &Vec<Option<u64>>)
        requires
            old(self).wf(src@, floats@),
        ensures
            old(self).moved(final(self)),
            final(self).index == lf_from(old(self).ctx(src@, floats@), old(self).index as int),
    {
        let ghost c = self.ctx(src@, floats@);
        let ghost first = self.index as int;
        while self.index < self.tokens.len() && self.tokens[self.index].kind != TokenKind::LF
            invariant
                self.wf(src@, floats@),
                old(self).moved(self),
                c == self.ctx(src@, floats@),
                c == old(self).ctx(src@, floats@),
                first == old(self).index,
                lf_from(c, self.index as int) == lf_from(c, first),
            decreases self.tokens@.len() - self.index,
        {
            self.advance();
        }
    }

    /// Parses every statement, going on after each line that fails.
    pub fn parse_program(&mut self, src: &[u8], floats: &Vec<Option<u64>>)
        requires
            old(self).wf(src@, floats@),
        ensures
            final(self).spec_tokens() == old(self).spec_tokens(),
            final(self).spec_index() == old(self).spec_tokens().len(),
            stmts_view(final(self).spec_stmts()) == stmts_view(old(self).spec_stmts()) + program_spec(
                old(self).ctx(src@, floats@),
                old(self).spec_index(),
            ).0,
            final(self).spec_reports() == old(self).spec_reports() + program_spec(
                old(self).ctx(src@, floats@),
                old(self).spec_index(),
            ).1,
    {
        let ghost c = self.ctx(src@, floats@);
        let ghost i0 = self.index as int;
        while self.index < self.tokens.len()
            invariant
                self.wf(src@, floats@),
                c == self.ctx(src@, floats@),
                c == old(self).ctx(src@, floats@),
                i0 == old(self).index,
                self.tokens@ == old(self).tokens@,
                stmts_view(old(self).stmts@) + program_spec(c, i0).0 == stmts_view(self.stmts@)
                    + program_spec(c, self.index as int).0,
                old(self).reports@ + program_spec(c, i0).1 == self.reports@ + program_spec(
                    c,
                    self.index as int,
                ).1,
            decreases self.tokens@.len() - self.index,
        {
            let start = self.index;
            let ghost rest = program_spec(c, start as int);
            let ghost stmts0 = stmts_view(self.stmts@);
            let ghost reports0 = self.reports@;
            if self.current() == TokenKind::LF {
                self.advance();
            } else {
                proof {
                    crate::grammar::lemma_stmt_end(c, start as int);
                    crate::grammar::lemma_lf_from(c, start as int);
                }
                match self.parse_statement(src, floats) {
                    Ok(st) => {
                        proof {
                            crate::grammar::lemma_lf_from(c, self.index as int);
                        }
                        if self.current() == TokenKind::LF {
                            let ghost sv = st@;
                            assert(stmts_view(self.stmts@.push(st)) =~= stmts0.push(sv));
                            self.stmts.push(st);
                            assert(stmts0.push(sv) + program_spec(c, self.index as int).0 =~= stmts0 + (seq![sv] + program_spec(c, self.index as int).0));
                            assert(stmts_view(old(self).stmts@) + program_spec(c, i0).0 == stmts0 + rest.0);
                        } else {
                            let e = self.error_at(self.index, Error::UnexpectedToken);
                            self.reports.push(e);
                            self.skip_line(src, floats);
                            assert(reports0.push(e) + program_spec(c, self.index as int).1 =~= reports0 + (seq![e] + program_spec(c, self.index as int).1));
                        }
                    },
                    Err(e) => {
                        self.reports.push(e);
                        self.index = start;
                        self.skip_line(src, floats);
                        assert(reports0.push(e) + program_spec(c, self.index as int).1 =~= reports0 + (seq![e] + program_spec(c, self.index as int).1));
                    },
                }
            }
        }
        assert(stmts_view(self.stmts@) + program_spec(c, self.index as int).0 =~= stmts_view(self.stmts@));
        assert(self.reports@ + program_spec(c, self.index as int).1 =~= self.reports@);
    }

    /// Parses `tokens` of `src` into statements and reports. `floats` holds,
    /// at the index of each float literal token, the bit pattern of the
    /// double its text denotes, or `None` where that text is no double.
    pub fn parse(src: &[u8], tokens: Vec<Token>, floats: &Vec<Option<u64>>) -> (r: (Vec<Stmt>, Vec<Report>))
        requires
            tokens_fit(src@, tokens@),
            floats@.len() == tokens@.len(),
            tokens@.len() < usize::MAX,
        ensures
            stmts_view(r.0@) == program_spec(Ctx { src: src@, toks: tokens@, floats: floats@ }, 0).0,
            r.1@ == program_spec(Ctx { src: src@, toks: tokens@, floats: floats@ }, 0).1,
    {
        let mut parser = Parser::new(tokens);
        parser.parse_program(src, floats);
        assert(stmts_view(Seq::<Stmt>::empty()) =~= Seq::<StmtV>::empty());
        assert(Seq::<StmtV>::empty() + program_spec(Ctx { src: src@, toks: tokens@, floats: floats@ }, 0).0
            =~= program_spec(Ctx { src: src@, toks: tokens@, floats: floats@ }, 0).0);
        assert(Seq::<Report>::empty() + program_spec(Ctx { src: src@, toks: tokens@, floats: floats@ }, 0).1
            =~= program_spec(Ctx { src: src@, toks: tokens@, floats: floats@ }, 0).1);
        parser.into_parts()
    }
}

} // verus!
