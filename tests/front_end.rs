use asm_front::lexer::Lexer;
use asm_front::literal::{escape_map, parse_char, parse_signed, parse_string, parse_unsigned};
use asm_front::parser::Parser;
use asm_front::report::{has_error, Error, Level, Pos, Report};
use asm_front::stmt::{Dir, Stmt, Value};
use asm_front::token::{Token, TokenKind};

fn float_table(src: &[u8], tokens: &[Token]) -> Vec<Option<u64>> {
    tokens
        .iter()
        .map(|t| {
            if t.kind == TokenKind::FloatLit {
                std::str::from_utf8(&src[t.start..t.end])
                    .ok()
                    .and_then(|s| s.parse::<f64>().ok())
                    .map(f64::to_bits)
            } else {
                None
            }
        })
        .collect()
}

fn run(text: &str) -> (Vec<Stmt>, Vec<Report>) {
    let src = text.as_bytes();
    let (tokens, mut reports) = Lexer::lex(src);
    if reports.iter().any(|r| r.level == Level::Error) {
        return (Vec::new(), reports);
    }
    let floats = float_table(src, &tokens);
    let (stmts, more) = Parser::parse(src, tokens, &floats);
    reports.extend(more);
    (stmts, reports)
}

fn instr(m: &str, args: Vec<Value>) -> Stmt {
    Stmt::Instr(m.as_bytes().to_vec(), args)
}

fn reg(r: &str) -> Value {
    Value::Reg(r.as_bytes().to_vec())
}

#[test]
fn unsigned_digits_evaluate_to_their_value() {
    assert_eq!(parse_unsigned(b"12345", 0, 5), Ok(12345));
    assert_eq!(parse_unsigned(b"0", 0, 1), Ok(0));
    assert_eq!(parse_unsigned(b"18446744073709551615", 0, 20), Ok(u64::MAX));
    assert_eq!(parse_unsigned(b"18446744073709551616", 0, 20), Err(Error::NumericParseFailure));
    assert_eq!(parse_unsigned(b"12a", 0, 3), Err(Error::NumericParseFailure));
    assert_eq!(parse_unsigned(b"", 0, 0), Err(Error::NumericParseFailure));
    assert_eq!(parse_unsigned(b"x42y", 1, 3), Ok(42));
}

#[test]
fn signed_digits_evaluate_to_twos_complement() {
    assert_eq!(parse_signed(true, b"5", 0, 1), Ok((-5i64) as u64));
    assert_eq!(parse_signed(false, b"5", 0, 1), Ok(5));
    assert_eq!(parse_signed(true, b"0", 0, 1), Ok(0));
    assert_eq!(parse_signed(true, b"9223372036854775808", 0, 19), Ok(i64::MIN as u64));
    assert_eq!(parse_signed(false, b"9223372036854775808", 0, 19), Err(Error::NumericParseFailure));
    assert_eq!(parse_signed(true, b"9223372036854775809", 0, 19), Err(Error::NumericParseFailure));
}

#[test]
fn signed_immediate_in_instruction() {
    let (stmts, reports) = run("push $-1\n");
    assert!(reports.is_empty());
    assert_eq!(stmts, vec![instr("push", vec![Value::Imm(u64::MAX)])]);
}

#[test]
fn float_immediate_is_ieee_bits() {
    let (stmts, reports) = run("fld $1.5\nfld $-2.25\n");
    assert!(reports.is_empty());
    assert_eq!(
        stmts,
        vec![
            instr("fld", vec![Value::Imm(1.5f64.to_bits())]),
            instr("fld", vec![Value::Imm((-2.25f64).to_bits())]),
        ]
    );
}

#[test]
fn escape_table_spot_checks() {
    assert_eq!(escape_map(b'n'), Ok(10));
    assert_eq!(escape_map(b't'), Ok(9));
    assert_eq!(escape_map(b'\\'), Ok(92));
    assert_eq!(escape_map(b'A'), Ok(1));
    assert_eq!(escape_map(b'Z'), Ok(26));
    assert_eq!(escape_map(b'@'), Ok(0));
    assert_eq!(escape_map(b'e'), Ok(27));
    assert_eq!(escape_map(b'?'), Ok(32));
    assert_eq!(escape_map(b'!'), Err(Error::InvalidEscape));
}

#[test]
fn char_literals() {
    assert_eq!(parse_char(b"a", 0, 1), Ok(97));
    assert_eq!(parse_char(b"\\n", 0, 2), Ok(10));
    assert_eq!(parse_char(b"", 0, 0), Err(Error::EmptyCharLiteral));
    assert_eq!(parse_char(b"\\", 0, 1), Err(Error::DanglingEscape));
    assert_eq!(parse_char(b"\\!", 0, 2), Err(Error::InvalidEscape));
}

#[test]
fn string_contents_decode() {
    assert_eq!(parse_string(b"hi\\n", 0, 4), Ok(vec![104, 105, 10]));
    assert_eq!(parse_string(b"a\\\"b", 0, 4), Ok(vec![97, 34, 98]));
    assert_eq!(parse_string(b"\\!", 0, 2), Err(Error::InvalidEscape));
}

#[test]
fn unterminated_string_is_fatal() {
    let (tokens, reports) = Lexer::lex(b"\"abc");
    assert!(tokens.is_empty());
    assert_eq!(reports, vec![Error::UnexpectedEOF.span(Pos::new(1, 0))]);
    let (stmts, _) = run("\"abc");
    assert!(stmts.is_empty());
}

#[test]
fn label_line() {
    let (stmts, reports) = run("label:\n");
    assert!(reports.is_empty());
    assert_eq!(stmts, vec![Stmt::Sym(b"label".to_vec())]);
}

#[test]
fn label_without_final_newline() {
    let (stmts, reports) = run("label:");
    assert!(reports.is_empty());
    assert_eq!(stmts, vec![Stmt::Sym(b"label".to_vec())]);
}

#[test]
fn move_instruction() {
    let (stmts, reports) = run("mov %r0, $5\n");
    assert!(reports.is_empty());
    assert_eq!(stmts, vec![instr("mov", vec![reg("r0"), Value::Imm(5)])]);
}

#[test]
fn origin_directive() {
    let (stmts, reports) = run(".org $16\n");
    assert!(reports.is_empty());
    assert_eq!(stmts, vec![Stmt::Dir(Dir::Origin(16))]);
}

#[test]
fn bad_line_is_skipped() {
    let (stmts, reports) = run("foo $,\nbar $1\n");
    assert_eq!(reports.len(), 1);
    assert_eq!(reports[0].span.unwrap().line, 1);
    assert_eq!(reports[0].error, Error::UnexpectedToken);
    assert_eq!(stmts, vec![instr("bar", vec![Value::Imm(1)])]);
}

#[test]
fn tokens_and_positions() {
    let src = b"ab: ; note\n  $12.5,'x'";
    let (tokens, reports) = Lexer::lex(src);
    assert!(reports.is_empty());
    let kinds: Vec<TokenKind> = tokens.iter().map(|t| t.kind).collect();
    assert_eq!(
        kinds,
        vec![
            TokenKind::Ident,
            TokenKind::Colon,
            TokenKind::LF,
            TokenKind::Dollar,
            TokenKind::FloatLit,
            TokenKind::Comma,
            TokenKind::CharLit,
        ]
    );
    assert_eq!(&src[tokens[4].start..tokens[4].end], b"12.5");
    assert_eq!(&src[tokens[6].start..tokens[6].end], b"x");
    assert_eq!(tokens[3].pos, Pos::new(2, 2));
    assert_eq!(tokens[2].pos, Pos::new(1, 10));
}

#[test]
fn integer_then_dot_without_digits() {
    let (tokens, _) = Lexer::lex(b"1.");
    let kinds: Vec<TokenKind> = tokens.iter().map(|t| t.kind).collect();
    assert_eq!(kinds, vec![TokenKind::IntLit, TokenKind::Dot]);
}

#[test]
fn unexpected_character_is_fatal() {
    let (tokens, reports) = Lexer::lex(b"mov #1\n");
    assert!(tokens.is_empty());
    assert_eq!(reports, vec![Error::UnexpectedCharacter.span(Pos::new(1, 4))]);
}

#[test]
fn unterminated_char_is_a_warning() {
    let (stmts, reports) = run("mov $'ab'\nnop\n");
    assert_eq!(
        reports[0],
        Error::UnterminatedCharLiteral.span(Pos::new(1, 5)).level(Level::Warning)
    );
    assert_eq!(stmts, vec![instr("nop", vec![])]);
    assert_eq!(reports.len(), 2);
}

#[test]
fn syntax_errors() {
    let (stmts, reports) = run("mov %r0 %r1\n.foo $1\nld $''\nld $'\\!'\nld $99999999999999999999\n:\n");
    assert!(stmts.is_empty());
    let errors: Vec<Error> = reports.iter().map(|r| r.error).collect();
    assert_eq!(
        errors,
        vec![
            Error::MissingComma,
            Error::UnknownDirective,
            Error::EmptyCharLiteral,
            Error::InvalidEscape,
            Error::NumericParseFailure,
            Error::UnexpectedToken,
        ]
    );
    assert_eq!(reports[1].span, Some(Pos::new(2, 1)));
}

#[test]
fn data_directives() {
    let (stmts, reports) = run(".ascii \"hi\\n\"\n.byte 1 'A'\n  2\nnop\n.dreg %sp, $3\n.dword $7\n");
    assert!(reports.is_empty());
    let mut bytes = vec![1, 0, 0, 0, 0, 0, 0, 0, 65, 0, 0, 0, 0, 0, 0, 0];
    bytes.extend_from_slice(&[2, 0, 0, 0, 0, 0, 0, 0]);
    assert_eq!(
        stmts,
        vec![
            Stmt::Dir(Dir::Ascii(vec![104, 105, 10])),
            Stmt::Dir(Dir::Byte(bytes)),
            instr("nop", vec![]),
            Stmt::Dir(Dir::Dreg(b"sp".to_vec(), 3)),
            Stmt::Dir(Dir::Dword(7)),
        ]
    );
}

#[test]
fn rendering() {
    assert_eq!(Stmt::Sym(b"top".to_vec()).render(), b"top:".to_vec());
    assert_eq!(
        instr("mov", vec![reg("r0"), Value::Imm(5), Value::Sym(b"x".to_vec())]).render(),
        b"mov %r0, $5, x".to_vec()
    );
    assert_eq!(Stmt::Dir(Dir::Origin(16)).render(), b".org $16".to_vec());
    assert_eq!(Stmt::Dir(Dir::Dreg(b"sp".to_vec(), 3)).render(), b".dreg %sp, $3".to_vec());
    assert_eq!(Stmt::Dir(Dir::Ascii(b"a\"b".to_vec())).render(), b".ascii \"a\\\"b\"".to_vec());
    assert_eq!(instr("nop", vec![]).render(), b"nop ".to_vec());
}

#[test]
fn render_then_parse_round_trip() {
    let samples = vec![
        Stmt::Sym(b"loop_1".to_vec()),
        instr("mov", vec![reg("r0"), Value::Imm(u64::MAX), Value::Sym(b"dst".to_vec())]),
        instr("ret", vec![]),
        Stmt::Dir(Dir::Origin(4096)),
        Stmt::Dir(Dir::Dword(0)),
        Stmt::Dir(Dir::Dreg(b"fp".to_vec(), 9)),
        Stmt::Dir(Dir::Asciiz(b"say \"hi\" \\ bye".to_vec())),
        Stmt::Dir(Dir::Word(b"xy".to_vec())),
    ];
    for s in samples {
        let mut text = s.render();
        text.push(b'\n');
        let (stmts, reports) = run(std::str::from_utf8(&text).unwrap());
        assert!(reports.is_empty());
        assert_eq!(stmts, vec![s]);
    }
}

#[test]
fn report_builders() {
    let r = Report::new(Error::MissingComma);
    assert_eq!(r.level, Level::Error);
    assert_eq!(r.span, None);
    assert_eq!(Error::MissingComma.into(), r);
    let r = r.span(Pos::new(3, 4)).level(Level::Info);
    assert_eq!(r.span, Some(Pos::new(3, 4)));
    assert_eq!(r.level, Level::Info);
    assert_eq!(Error::UnexpectedEOF.span(Pos::new(2, 0)).span, Some(Pos::new(2, 0)));
}

#[test]
fn error_status() {
    let warn = Error::UnterminatedCharLiteral.span(Pos::new(1, 0)).level(Level::Warning);
    assert!(!has_error(&vec![]));
    assert!(!has_error(&vec![warn]));
    assert!(has_error(&vec![warn, Report::new(Error::MissingComma)]));
}

#[test]
fn comment_keeps_its_newline() {
    let (stmts, reports) = run("nop ; rest of line\nret");
    assert!(reports.is_empty());
    assert_eq!(stmts, vec![instr("nop", vec![]), instr("ret", vec![])]);
}

#[test]
fn char_literal_holds_one_utf8_character() {
    let src = "ld $'é'\n".as_bytes();
    let (tokens, reports) = Lexer::lex(src);
    assert!(reports.is_empty());
    assert_eq!(tokens[2].kind, TokenKind::CharLit);
    assert_eq!(&src[tokens[2].start..tokens[2].end], "é".as_bytes());
    let (stmts, reports) = run("ld $'é'\n");
    assert!(reports.is_empty());
    assert_eq!(stmts, vec![instr("ld", vec![Value::Imm(0xc3)])]);
}

#[test]
fn parse_program_appends_and_reaches_the_end() {
    let src = b"a:\nb:";
    let (tokens, _) = Lexer::lex(src);
    let floats = vec![None; tokens.len()];
    let mut parser = Parser::new(tokens);
    parser.parse_program(src, &floats);
    parser.parse_program(src, &floats);
    let (stmts, reports) = parser.into_parts();
    assert!(reports.is_empty());
    assert_eq!(stmts, vec![Stmt::Sym(b"a".to_vec()), Stmt::Sym(b"b".to_vec())]);
}
