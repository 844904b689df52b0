use vstd::prelude::*;

verus! {

/// The closed set of diagnostic kinds that the front end can report.
#[derive(Clone, Copy, Debug, PartialEq, Eq, Structural)]
pub enum Error {
    /// A character that starts no token (fatal to the scan).
    UnexpectedCharacter,
    /// The input ended inside a character or string literal (fatal to the scan).
    UnexpectedEOF,
    /// A character literal whose closing quote is missing.
    UnterminatedCharLiteral,
    /// A token that the grammar does not allow where it stands.
    UnexpectedToken,
    /// Two operands that are not separated by a comma.
    MissingComma,
    /// A directive name that is not one of the known directives.
    UnknownDirective,
    /// A character literal with nothing between its quotes.
    EmptyCharLiteral,
    /// A character literal that holds a lone backslash.
    DanglingEscape,
    /// A backslash followed by a character that the escape table lacks.
    InvalidEscape,
    /// A numeric literal that does not fit or is malformed.
    NumericParseFailure,
}

/// A source position: the line (from 1) and the byte column (from 0).
#[derive(Clone, Copy, Debug, PartialEq, Eq, Structural)]
pub struct Pos {
    pub line: usize,
    pub index: usize,
}

/// How severe a diagnostic is; only `Error` stops the pipeline.
#[derive(Clone, Copy, Debug, PartialEq, Eq, Structural)]
pub enum Level {
    Info,
    Warning,
    Error,
}

/// One diagnostic: its kind, its severity and, where known, its position.
#[derive(Clone, Copy, Debug, PartialEq, Eq, Structural)]
pub struct Report {
    pub span: Option<Pos>,
    pub level: Level,
    pub error: Error,
}

impl Error {
    /// A report of this kind at error severity, without a position.
    pub fn into(self) -> (r: Report)
        ensures
            r == Report::new(self),
    {
        Report::new(self)
    }

    /// A report of this kind at error severity, at `pos`.
    pub fn span(self, pos: Pos) -> (r: Report)
        ensures
            r == (Report { span: Some(pos), level: Level::Error, error: self }),
    {
        self.into().span(pos)
    }
}

impl Pos {
    pub fn new(line: usize, index: usize) -> (r: Pos)
        ensures
            r.line == line,
            r.index == index,
    {
        Pos { line, index }
    }

    /// The position of the first byte of a source: line 1, column 0.
    pub open spec fn start() -> Pos {
        Pos { line: 1, index: 0 }
    }
}

impl Report {
    pub open spec fn spec_new(error: Error) -> Report {
        Report { span: None, level: Level::Error, error }
    }

    /// A report of `error` at error severity, without a position.
    #[verifier::when_used_as_spec(spec_new)]
    pub fn new(error: Error) -> (r: Report)
        ensures
            r == Report::new(error),
    {
        Report { span: None, level: Level::Error, error }
    }

    /// The same report, placed at `span`.
    pub fn span(self, span: Pos) -> (r: Report)
        ensures
            r == (Report { span: Some(span), ..self }),
    {
        Report { span: Some(span), ..self }
    }

    /// The same report, with severity `level`.
    pub fn level(self, level: Level) -> (r: Report)
        ensures
            r == (Report { level, ..self }),
    {
        Report { level, ..self }
    }

    /// Whether this report stops the pipeline.
    pub open spec fn is_fatal(self) -> bool {
        self.level == Level::Error
    }
}

/// Whether any of `reports` stops the pipeline.
pub fn has_error(reports: &Vec<Report>) -> (r: bool)
    ensures
        r == exists|i: int| 0 <= i < reports@.len() && (#[trigger] reports@[i]).is_fatal(),
{
    let mut i: usize = 0;
    while i < reports.len()
        invariant
            i <= reports@.len(),
            forall|k: int| 0 <= k < i ==> !(#[trigger] reports@[k]).is_fatal(),
        decreases reports@.len() - i,
    {
        if reports[i].level == Level::Error {
            return true;
        }
        i = i + 1;
    }
    false
}

} // verus!
