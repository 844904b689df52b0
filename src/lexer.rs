use vstd::prelude::*;
use crate::literal::is_digit;
use crate::report::{Error, Level, Pos, Report};
use crate::token::{Token, TokenKind};

verus! {

pub open spec fn is_ident_start(c: u8) -> bool {
    (0x61 <= c <= 0x7a) || (0x41 <= c <= 0x5a) || c == 0x5f
}

pub open spec fn is_ident_char(c: u8) -> bool {
    is_ident_start(c) || is_digit(c)
}

/// The kind of a token made of the single byte `c`, if there is one.
pub open spec fn simple_kind(c: u8) -> Option<TokenKind> {
    if c == 0x2b {
        Some(TokenKind::Plus)
    } else if c == 0x2d {
        Some(TokenKind::Minus)
    } else if c == 0x28 {
        Some(TokenKind::LParen)
    } else if c == 0x29 {
        Some(TokenKind::RParen)
    } else if c == 0x2e {
        Some(TokenKind::Dot)
    } else if c == 0x2c {
        Some(TokenKind::Comma)
    } else if c == 0x3a {
        Some(TokenKind::Colon)
    } else if c == 0x24 {
        Some(TokenKind::Dollar)
    } else if c == 0x25 {
        Some(TokenKind::Percent)
    } else if c == 0x40 {
        Some(TokenKind::At)
    } else if c == 0x0a {
        Some(TokenKind::LF)
    } else {
        None
    }
}

/// The kind of a token made of the single byte `c`, if there is one.
pub fn simple_kind_of(c: u8) -> (r: Option<TokenKind>)
    ensures
        r == simple_kind(c),
{
    if c == 0x2b {
        Some(TokenKind::Plus)
    } else if c == 0x2d {
        Some(TokenKind::Minus)
    } else if c == 0x28 {
        Some(TokenKind::LParen)
    } else if c == 0x29 {
        Some(TokenKind::RParen)
    } else if c == 0x2e {
        Some(TokenKind::Dot)
    } else if c == 0x2c {
        Some(TokenKind::Comma)
    } else if c == 0x3a {
        Some(TokenKind::Colon)
    } else if c == 0x24 {
        Some(TokenKind::Dollar)
    } else if c == 0x25 {
        Some(TokenKind::Percent)
    } else if c == 0x40 {
        Some(TokenKind::At)
    } else if c == 0x0a {
        Some(TokenKind::LF)
    } else {
        None
    }
}

/// The position after `p` once the byte `c` is consumed.
pub open spec fn next_pos(p: Pos, c: u8) -> Pos {
    if c == 0x0a {
        Pos { line: (p.line + 1) as usize, index: 0 }
    } else {
        Pos { line: p.line, index: (p.index + 1) as usize }
    }
}

/// The position of byte `i` of `src`.
pub open spec fn pos_at(src: Seq<u8>, i: int) -> Pos
    decreases i,
{
    if i <= 0 {
        Pos::start()
    } else {
        next_pos(pos_at(src, i - 1), src[i - 1])
    }
}

/// The end of the run of identifier characters that starts at `i`.
pub open spec fn ident_end(src: Seq<u8>, i: int) -> int
    decreases src.len() - i,
{
    if 0 <= i < src.len() && is_ident_char(src[i]) {
        ident_end(src, i + 1)
    } else {
        i
    }
}

/// The end of the run of decimal digits that starts at `i`.
pub open spec fn digits_end(src: Seq<u8>, i: int) -> int
    decreases src.len() - i,
{
    if 0 <= i < src.len() && is_digit(src[i]) {
        digits_end(src, i + 1)
    } else {
        i
    }
}

/// The index of the first newline at or after `i`, or the end of `src`.
pub open spec fn line_end(src: Seq<u8>, i: int) -> int
    decreases src.len() - i,
{
    if 0 <= i < src.len() && src[i] != 0x0a {
        line_end(src, i + 1)
    } else {
        i
    }
}

/// The index of the quote that closes a string whose contents start at `i`,
/// where a backslash escapes the byte after it; `None` if the source ends first.
pub open spec fn string_end(src: Seq<u8>, i: int) -> Option<int>
    decreases src.len() + 1 - i,
{
    if i < 0 || i >= src.len() {
        None
    } else if src[i] == 0x22 {
        Some(i)
    } else if src[i] == 0x5c {
        string_end(src, i + 2)
    } else {
        string_end(src, i + 1)
    }
}

/// What scanning from some index on yields: the tokens, the reports, and
/// whether the scan stopped on a fatal error.
pub struct Scan {
    pub tokens: Seq<Token>,
    pub reports: Seq<Report>,
    pub fatal: bool,
}

pub open spec fn tok(src: Seq<u8>, kind: TokenKind, pos_index: int, start: int, end: int) -> Token {
    Token { kind, start: start as usize, end: end as usize, pos: pos_at(src, pos_index) }
}

pub open spec fn cons(t: Token, rest: Scan) -> Scan {
    Scan { tokens: seq![t] + rest.tokens, ..rest }
}

/// A scan that stops at once on a fatal `error` at byte `i`.
pub open spec fn fatal_at(src: Seq<u8>, error: Error, i: int) -> Scan {
    Scan {
        tokens: seq![],
        reports: seq![Report { span: Some(pos_at(src, i)), level: Level::Error, error }],
        fatal: true,
    }
}

/// How many bytes the UTF-8 encoding of a character takes, by its first byte.
pub open spec fn utf8_width(b: u8) -> int {
    if b < 0xc0 {
        1
    } else if b < 0xe0 {
        2
    } else if b < 0xf0 {
        3
    } else {
        4
    }
}

/// How many bytes the UTF-8 encoding of a character takes, by its first byte.
pub fn utf8_width_of(b: u8) -> (r: usize)
    ensures
        r == utf8_width(b),
{
    if b < 0xc0 {
        1
    } else if b < 0xe0 {
        2
    } else if b < 0xf0 {
        3
    } else {
        4
    }
}

/// Where the closing quote of a character literal that opens at `i` must
/// stand: after a backslash and one byte, or after one UTF-8 character.
pub open spec fn char_scan_end(src: Seq<u8>, i: int) -> int {
    if src[i + 1] == 0x5c {
        i + 3
    } else {
        i + 1 + utf8_width(src[i + 1])
    }
}

/// What scanning `src` from byte `i` on yields.
pub open spec fn lex_from(src: Seq<u8>, i: int) -> Scan
    decreases src.len() - i via lex_from_decreases
{
    if i < 0 || i >= src.len() {
        Scan { tokens: seq![], reports: seq![], fatal: false }
    } else {
        let c = src[i];
        if is_ident_start(c) {
            let j = ident_end(src, i + 1);
            cons(tok(src, TokenKind::Ident, i, i, j), lex_from(src, j))
        } else if is_digit(c) {
            let j = digits_end(src, i + 1);
            if j + 1 < src.len() && src[j] == 0x2e && is_digit(src[j + 1]) {
                let k = digits_end(src, j + 1);
                cons(tok(src, TokenKind::FloatLit, i, i, k), lex_from(src, k))
            } else {
                cons(tok(src, TokenKind::IntLit, i, i, j), lex_from(src, j))
            }
        } else if c == 0x27 {
            if i + 1 >= src.len() {
                fatal_at(src, Error::UnexpectedEOF, i)
            } else if src[i + 1] == 0x27 {
                cons(tok(src, TokenKind::CharLit, i, i + 1, i + 1), lex_from(src, i + 2))
            } else {
                let e = char_scan_end(src, i);
                if e >= src.len() {
                    fatal_at(src, Error::UnexpectedEOF, i)
                } else if src[e] != 0x27 {
                    let rest = lex_from(src, line_end(src, i + 1));
                    let r = Report {
                        span: Some(pos_at(src, i)),
                        level: Level::Warning,
                        error: Error::UnterminatedCharLiteral,
                    };
                    Scan { reports: seq![r] + rest.reports, ..rest }
                } else {
                    cons(tok(src, TokenKind::CharLit, i, i + 1, e), lex_from(src, e + 1))
                }
            }
        } else if c == 0x22 {
            match string_end(src, i + 1) {
                None => fatal_at(src, Error::UnexpectedEOF, i),
                Some(j) => cons(tok(src, TokenKind::StrLit, i, i + 1, j), lex_from(src, j + 1)),
            }
        } else if c == 0x20 || c == 0x09 {
            lex_from(src, i + 1)
        } else if c == 0x3b {
            lex_from(src, line_end(src, i + 1))
        } else {
            match simple_kind(c) {
                Some(kind) => cons(tok(src, kind, i, i, i + 1), lex_from(src, i + 1)),
                None => fatal_at(src, Error::UnexpectedCharacter, i),
            }
        }
    }
}

proof fn lemma_ident_end(src: Seq<u8>, i: int)
    requires
        0 <= i,
    ensures
        i <= ident_end(src, i) <= if i <= src.len() { src.len() as int } else { i },
        forall|k: int| i <= k < ident_end(src, i) ==> is_ident_char(#[trigger] src[k]),
    decreases src.len() - i,
{
    if 0 <= i < src.len() && is_ident_char(src[i]) {
        lemma_ident_end(src, i + 1);
    }
}

proof fn lemma_digits_end(src: Seq<u8>, i: int)
    requires
        0 <= i,
    ensures
        i <= digits_end(src, i) <= if i <= src.len() { src.len() as int } else { i },
        forall|k: int| i <= k < digits_end(src, i) ==> is_digit(#[trigger] src[k]),
    decreases src.len() - i,
{
    if 0 <= i < src.len() && is_digit(src[i]) {
        lemma_digits_end(src, i + 1);
    }
}

proof fn lemma_line_end(src: Seq<u8>, i: int)
    requires
        0 <= i,
    ensures
        i <= line_end(src, i) <= if i <= src.len() { src.len() as int } else { i },
    decreases src.len() - i,
{
    if 0 <= i < src.len() && src[i] != 0x0a {
        lemma_line_end(src, i + 1);
    }
}

proof fn lemma_string_end(src: Seq<u8>, i: int)
    requires
        0 <= i,
    ensures
        string_end(src, i) matches Some(j) ==> i <= j < src.len() && src[j] == 0x22,
    decreases src.len() + 1 - i,
{
    if 0 <= i < src.len() && src[i] != 0x22 {
        if src[i] == 0x5c {
            lemma_string_end(src, i + 2);
        } else {
            lemma_string_end(src, i + 1);
        }
    }
}

#[via_fn]
proof fn lex_from_decreases(src: Seq<u8>, i: int) {
    if 0 <= i < src.len() {
        lemma_ident_end(src, i + 1);
        lemma_digits_end(src, i + 1);
        let j = digits_end(src, i + 1);
        lemma_digits_end(src, j + 1);
        lemma_line_end(src, i + 1);
        lemma_string_end(src, i + 1);
    }
}

proof fn lemma_pos_bound(src: Seq<u8>, i: int)
    requires
        0 <= i < usize::MAX,
    ensures
        1 <= pos_at(src, i).line <= i + 1,
        pos_at(src, i).index <= i,
    decreases i,
{
    if i > 0 {
        lemma_pos_bound(src, i - 1);
    }
}

proof fn lemma_push_concat<A>(a: Seq<A>, t: A, b: Seq<A>)
    ensures
        a.push(t) + b == a + (seq![t] + b),
{
    assert(a.push(t) + b =~= a + (seq![t] + b));
}

/// The classes of byte runs that the scanner consumes in one go.
#[derive(Clone, Copy, Debug, PartialEq, Eq, Structural)]
pub enum Run {
    /// Identifier characters.
    Ident,
    /// Decimal digits.
    Digits,
    /// Anything but a newline.
    Line,
}

impl Run {
    pub open spec fn spec_contains(self, c: u8) -> bool {
        match self {
            Run::Ident => is_ident_char(c),
            Run::Digits => is_digit(c),
            Run::Line => c != 0x0a,
        }
    }

    /// Whether `c` belongs to this class.
    #[verifier::when_used_as_spec(spec_contains)]
    pub fn contains(self, c: u8) -> (r: bool)
        ensures
            r == self.spec_contains(c),
    {
        match self {
            Run::Ident => (0x61 <= c && c <= 0x7a) || (0x41 <= c && c <= 0x5a) || c == 0x5f || (0x30
                <= c && c <= 0x39),
            Run::Digits => 0x30 <= c && c <= 0x39,
            Run::Line => c != 0x0a,
        }
    }
}

/// Where the run of class `run` that starts at `i` ends.
pub open spec fn run_end(run: Run, src: Seq<u8>, i: int) -> int {
    match run {
        Run::Ident => ident_end(src, i),
        Run::Digits => digits_end(src, i),
        Run::Line => line_end(src, i),
    }
}

/// Every token that a scan from `i` yields lies within the source, and there
/// are no more of them than bytes left to scan.
pub proof fn lemma_lex_tokens_fit(src: Seq<u8>, i: int)
    requires
        0 <= i <= src.len() < usize::MAX,
    ensures
        forall|k: int| 0 <= k < lex_from(src, i).tokens.len() ==> (#[trigger] lex_from(src, i).tokens[k]).in_bounds(src.len()),
        lex_from(src, i).tokens.len() <= src.len() - i,
    decreases src.len() - i,
{
    if i < src.len() {
        let c = src[i];
        lemma_ident_end(src, i + 1);
        lemma_digits_end(src, i + 1);
        let j = digits_end(src, i + 1);
        lemma_digits_end(src, j + 1);
        lemma_line_end(src, i + 1);
        lemma_string_end(src, i + 1);
        if is_ident_start(c) {
            lemma_lex_tokens_fit(src, ident_end(src, i + 1));
        } else if is_digit(c) {
            if j + 1 < src.len() && src[j] == 0x2e && is_digit(src[j + 1]) {
                lemma_lex_tokens_fit(src, digits_end(src, j + 1));
            } else {
                lemma_lex_tokens_fit(src, j);
            }
        } else if c == 0x27 {
            if i + 1 < src.len() {
                if src[i + 1] == 0x27 {
                    lemma_lex_tokens_fit(src, i + 2);
                } else {
                    let e = char_scan_end(src, i);
                    if e < src.len() {
                        if src[e] != 0x27 {
                            lemma_lex_tokens_fit(src, line_end(src, i + 1));
                        } else {
                            lemma_lex_tokens_fit(src, e + 1);
                        }
                    }
                }
            }
        } else if c == 0x22 {
            if let Some(j) = string_end(src, i + 1) {
                lemma_lex_tokens_fit(src, j + 1);
            }
        } else if c == 0x20 || c == 0x09 {
            lemma_lex_tokens_fit(src, i + 1);
        } else if c == 0x3b {
            lemma_lex_tokens_fit(src, line_end(src, i + 1));
        } else if simple_kind(c) is Some {
            lemma_lex_tokens_fit(src, i + 1);
        }
    }
}

/// The scanner's state while it walks a source.
pub struct Lexer {
    index: usize,
    pos: Pos,
    tokens: Vec<Token>,
    reports: Vec<Report>,
}

impl Lexer {
    /// The scanner stands at a byte of `src`, and knows that byte's position.
    spec fn wf(&self, src: Seq<u8>) -> bool {
        &&& self.index <= src.len() < usize::MAX
        &&& self.pos == pos_at(src, self.index as int)
    }

    /// The byte at `n`, if `src` has one there.
    fn get(&self, src: &[u8], n: usize) -> (r: Option<u8>)
        ensures
            r == if n < src@.len() { Some(src@[n as int]) } else { None::<u8> },
    {
        if n < src.len() {
            Some(src[n])
        } else {
            None
        }
    }

    /// Consumes one byte.
    fn advance(&mut self, src: &[u8])
        requires
            old(self).index < src@.len(),
            old(self).index <= src@.len() < usize::MAX,
            old(self).pos == pos_at(src@, old(self).index as int),
        ensures
            final(self).index == old(self).index + 1,
            final(self).pos == pos_at(src@, final(self).index as int),
            final(self).tokens == old(self).tokens,
            final(self).reports == old(self).reports,
    {
        proof {
            lemma_pos_bound(src@, self.index as int);
        }
        if src[self.index] == 0x0a {
            self.pos = Pos { line: self.pos.line + 1, index: 0 };
        } else {
            self.pos = Pos { line: self.pos.line, index: self.pos.index + 1 };
        }
        self.index = self.index + 1;
    }

    /// Appends a token of `kind` over `start..end`, at `pos`.
    fn push_range(&mut self, kind: TokenKind, start: usize, end: usize, pos: Pos)
        ensures
            final(self).tokens@ == old(self).tokens@.push(
                Token { kind, start, end, pos },
            ),
            final(self).index == old(self).index,
            final(self).pos == old(self).pos,
            final(self).reports == old(self).reports,
    {
        self.tokens.push(Token { kind, start, end, pos });
    }

    /// Consumes one byte and emits it as a token of `kind`.
    fn token_simple(&mut self, src: &[u8], kind: TokenKind)
        requires
            old(self).wf(src@),
            old(self).index < src@.len(),
        ensures
            final(self).wf(src@),
            final(self).index == old(self).index + 1,
            final(self).tokens@ == old(self).tokens@.push(
                tok(src@, kind, old(self).index as int, old(self).index as int, final(self).index as int),
            ),
            final(self).reports == old(self).reports,
    {
        let start = self.index;
        let pos = self.pos;
        self.advance(src);
        self.push_range(kind, start, self.index, pos);
    }

    /// Consumes the run of bytes of class `run` that starts at the current byte.
    fn consume_while(&mut self, src: &[u8], run: Run)
        requires
            old(self).wf(src@),
        ensures
            final(self).wf(src@),
            final(self).index == run_end(run, src@, old(self).index as int),
            final(self).index >= old(self).index,
            final(self).tokens == old(self).tokens,
            final(self).reports == old(self).reports,
    {
        let ghost start = self.index as int;
        while self.index < src.len() && run.contains(src[self.index])
            invariant
                self.wf(src@),
                run_end(run, src@, self.index as int) == run_end(run, src@, start),
                self.index >= start,
                self.tokens == old(self).tokens,
                self.reports == old(self).reports,
            decreases src@.len() - self.index,
        {
            self.advance(src);
        }
    }

    /// Consumes the contents of a string literal up to its closing quote;
    /// `false` if the source ends first.
    fn consume_string(&mut self, src: &[u8]) -> (found: bool)
        requires
            old(self).wf(src@),
        ensures
            found == (string_end(src@, old(self).index as int) is Some),
            final(self).wf(src@),
            final(self).index >= old(self).index,
            found ==> final(self).index == string_end(
                src@,
                old(self).index as int,
            )->0,
            final(self).tokens == old(self).tokens,
            final(self).reports == old(self).reports,
    {
        let ghost start = self.index as int;
        while self.index < src.len() && src[self.index] != 0x22
            invariant
                self.wf(src@),
                string_end(src@, self.index as int) == string_end(src@, start),
                start == old(self).index,
                self.index >= start,
                self.tokens == old(self).tokens,
                self.reports == old(self).reports,
            decreases src@.len() - self.index,
        {
            if src[self.index] == 0x5c {
                if self.index + 1 >= src.len() {
                    assert(string_end(src@, self.index + 2) is None);
                    return false;
                }
                self.advance(src);
            }
            self.advance(src);
        }
        self.index < src.len()
    }

    /// Scans `src` into tokens. Reports come in source order; a fatal report
    /// ends the scan and discards every token.
    pub fn lex(src: &[u8]) -> (r: (Vec<Token>, Vec<Report>))
        requires
            src@.len() < usize::MAX,
        ensures
            r.0@ == if lex_from(src@, 0).fatal {
                Seq::<Token>::empty()
            } else {
                lex_from(src@, 0).tokens
            },
            r.1@ == lex_from(src@, 0).reports,
            forall|k: int| 0 <= k < r.0@.len() ==> (#[trigger] r.0@[k]).in_bounds(src@.len()),
            r.0@.len() <= src@.len(),
    {
        proof {
            lemma_lex_tokens_fit(src@, 0);
        }
        let mut lex = Lexer { index: 0, pos: Pos { line: 1, index: 0 }, tokens: Vec::new(), reports: Vec::new() };
        let mut fatal = false;
        assert(lex.tokens@ + lex_from(src@, 0).tokens =~= lex_from(src@, 0).tokens);
        assert(lex.reports@ + lex_from(src@, 0).reports =~= lex_from(src@, 0).reports);
        while !fatal && lex.index < src.len()
            invariant
                lex.wf(src@),
                fatal ==> lex_from(src@, 0).fatal && lex_from(src@, 0).reports == lex.reports@,
                !fatal ==> lex_from(src@, 0) == (Scan {
                    tokens: lex.tokens@ + lex_from(src@, lex.index as int).tokens,
                    reports: lex.reports@ + lex_from(src@, lex.index as int).reports,
                    fatal: lex_from(src@, lex.index as int).fatal,
                }),
            decreases (src@.len() - lex.index) + (if fatal { 0int } else { 1int }),
        {
            let start = lex.index;
            let start_pos = lex.pos;
            let ghost toks = lex.tokens@;
            let ghost reps = lex.reports@;
            let ghost rest = lex_from(src@, start as int);

            let c = src[start];
            if Run::Ident.contains(c) && !Run::Digits.contains(c) {
                lex.advance(src);
                lex.consume_while(src, Run::Ident);
                lex.push_range(TokenKind::Ident, start, lex.index, start_pos);
                proof {
                    lemma_push_concat(toks, lex.tokens@.last(), lex_from(src@, lex.index as int).tokens);
                }
            } else if Run::Digits.contains(c) {
                lex.advance(src);
                lex.consume_while(src, Run::Digits);
                let mut kind = TokenKind::IntLit;
                if lex.get(src, lex.index) == Some(0x2eu8) {
                    match lex.get(src, lex.index + 1) {
                        Some(d) => {
                            if Run::Digits.contains(d) {
                                lex.advance(src);
                                lex.consume_while(src, Run::Digits);
                                kind = TokenKind::FloatLit;
                            }
                        },
                        None => {},
                    }
                }
                lex.push_range(kind, start, lex.index, start_pos);
                proof {
                    lemma_push_concat(toks, lex.tokens@.last(), lex_from(src@, lex.index as int).tokens);
                }
            } else if c == 0x27 {
                if start + 1 >= src.len() {
                    lex.reports.push(Error::UnexpectedEOF.span(start_pos));
                    fatal = true;
                } else if src[start + 1] == 0x27 {
                    lex.advance(src);
                    lex.push_range(TokenKind::CharLit, start + 1, start + 1, start_pos);
                    lex.advance(src);
                    proof {
                        lemma_push_concat(toks, lex.tokens@.last(), lex_from(src@, lex.index as int).tokens);
                    }
                } else {
                    let w: usize = if src[start + 1] == 0x5c { 2 } else { utf8_width_of(src[start + 1]) };
                    if src.len() - start <= 1 + w {
                        lex.reports.push(Error::UnexpectedEOF.span(start_pos));
                        fatal = true;
                    } else if src[start + 1 + w] != 0x27 {
                        lex.reports.push(
                            Error::UnterminatedCharLiteral.span(start_pos).level(Level::Warning),
                        );
                        lex.advance(src);
                        lex.consume_while(src, Run::Line);
                        proof {
                            lemma_push_concat(reps, lex.reports@.last(), lex_from(src@, lex.index as int).reports);
                        }
                    } else {
                        let e = start + 1 + w;
                        while lex.index < e
                            invariant
                                lex.wf(src@),
                                start <= lex.index <= e < src@.len(),
                                lex.tokens@ == toks,
                                lex.reports@ == reps,
                            decreases e - lex.index,
                        {
                            lex.advance(src);
                        }
                        lex.push_range(TokenKind::CharLit, start + 1, e, start_pos);
                        lex.advance(src);
                        proof {
                            lemma_push_concat(toks, lex.tokens@.last(), lex_from(src@, lex.index as int).tokens);
                        }
                    }
                }
            } else if c == 0x22 {
                lex.advance(src);
                proof {
                    lemma_string_end(src@, start + 1);
                }
                if lex.consume_string(src) {
                    lex.push_range(TokenKind::StrLit, start + 1, lex.index, start_pos);
                    lex.advance(src);
                    proof {
                        lemma_push_concat(toks, lex.tokens@.last(), lex_from(src@, lex.index as int).tokens);
                    }
                } else {
                    lex.reports.push(Error::UnexpectedEOF.span(start_pos));
                    fatal = true;
                }
            } else if c == 0x20 || c == 0x09 {
                lex.advance(src);
            } else if c == 0x3b {
                lex.advance(src);
                lex.consume_while(src, Run::Line);
            } else {
                match simple_kind_of(c) {
                    Some(kind) => {
                        lex.token_simple(src, kind);
                        proof {
                            lemma_push_concat(toks, lex.tokens@.last(), lex_from(src@, lex.index as int).tokens);
                        }
                    },
                    None => {
                        lex.reports.push(Error::UnexpectedCharacter.span(start_pos));
                        fatal = true;
                    },
                }
            }
        }
        if fatal {
            (Vec::new(), lex.reports)
        } else {
            assert(lex.tokens@ + lex_from(src@, lex.index as int).tokens =~= lex.tokens@);
            assert(lex.reports@ + lex_from(src@, lex.index as int).reports =~= lex.reports@);
            (lex.tokens, lex.reports)
        }
    }
}

} // verus!
